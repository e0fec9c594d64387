//! The on-disk record format.
//!
//! A record is a small JSON-like object, `{"Set":{"key":"k","val":"v"}}` or
//! `{"Remove":{"key":"k"}}`. Inside the quotes, `"` and `\` are written with a
//! leading `\`; every other byte of the text's UTF-8 form is written as it is.
//! Records are concatenated with nothing between them, and the decoder reports
//! where each one ends, so no length is stored.

use vstd::prelude::*;
use vstd::utf8::*;

verus! {

broadcast use {vstd::seq::group_seq_axioms, vstd::slice::group_slice_axioms};

pub const QUOTE: u8 = 34;

pub const BACKSLASH: u8 = 92;

/// A record, as a value.
pub ghost enum Record {
    Put { key: Seq<char>, val: Seq<char> },
    Remove { key: Seq<char> },
}

/// A record, as the engine holds it.
#[derive(Debug)]
pub enum Command {
    Put { key: String, val: String },
    Remove { key: String },
}

impl View for Command {
    type V = Record;

    open spec fn view(&self) -> Record {
        match self {
            Command::Put { key, val } => Record::Put { key: key@, val: val@ },
            Command::Remove { key } => Record::Remove { key: key@ },
        }
    }
}

/// `{"Set":{"key":`
pub open spec fn set_open() -> Seq<u8> {
    seq![123u8, 34, 83, 101, 116, 34, 58, 123, 34, 107, 101, 121, 34, 58]
}

/// `{"Remove":{"key":`
pub open spec fn remove_open() -> Seq<u8> {
    seq![123u8, 34, 82, 101, 109, 111, 118, 101, 34, 58, 123, 34, 107, 101, 121, 34, 58]
}

/// `,"val":`
pub open spec fn val_sep() -> Seq<u8> {
    seq![44u8, 34, 118, 97, 108, 34, 58]
}

/// `}}`
pub open spec fn close() -> Seq<u8> {
    seq![125u8, 125]
}

pub open spec fn escape_byte(b: u8) -> Seq<u8> {
    if b == QUOTE || b == BACKSLASH {
        seq![BACKSLASH, b]
    } else {
        seq![b]
    }
}

pub open spec fn escaped(s: Seq<u8>) -> Seq<u8>
    decreases s.len(),
{
    if s.len() == 0 {
        Seq::empty()
    } else {
        escape_byte(s[0]) + escaped(s.drop_first())
    }
}

pub open spec fn quoted(s: Seq<u8>) -> Seq<u8> {
    seq![QUOTE] + escaped(s) + seq![QUOTE]
}

/// A text, quoted.
pub open spec fn text_field(t: Seq<char>) -> Seq<u8> {
    quoted(encode_utf8(t))
}

/// The bytes that stand for a record.
#[verifier::opaque]
pub open spec fn encode_record(r: Record) -> Seq<u8> {
    match r {
        Record::Put { key, val } => set_open() + text_field(key) + val_sep() + text_field(val)
            + close(),
        Record::Remove { key } => remove_open() + text_field(key) + close(),
    }
}

/// `b` holds `p` from position `i` on.
pub open spec fn has_at(b: Seq<u8>, i: int, p: Seq<u8>) -> bool {
    0 <= i && i + p.len() <= b.len() && b.subrange(i, i + p.len()) == p
}

/// Reads the inside of a quoted text from position `i` (just after the opening
/// quote): the bytes it stands for, and the position after the closing quote.
pub open spec fn unescape_from(b: Seq<u8>, i: int) -> Option<(Seq<u8>, int)>
    decreases b.len() - i,
{
    if i < 0 || i >= b.len() {
        None
    } else if b[i] == QUOTE {
        Some((Seq::empty(), i + 1))
    } else if b[i] == BACKSLASH {
        if i + 1 < b.len() && (b[i + 1] == QUOTE || b[i + 1] == BACKSLASH) {
            match unescape_from(b, i + 2) {
                Some((s, e)) => Some((seq![b[i + 1]] + s, e)),
                None => None,
            }
        } else {
            None
        }
    } else {
        match unescape_from(b, i + 1) {
            Some((s, e)) => Some((seq![b[i]] + s, e)),
            None => None,
        }
    }
}

/// Reads a quoted text that starts at position `i`.
pub open spec fn parse_text(b: Seq<u8>, i: int) -> Option<(Seq<char>, int)> {
    if 0 <= i < b.len() && b[i] == QUOTE {
        match unescape_from(b, i + 1) {
            Some((s, e)) => if valid_utf8(s) {
                Some((decode_utf8(s), e))
            } else {
                None
            },
            None => None,
        }
    } else {
        None
    }
}

/// Reads one record that starts at position `i`: the record, and the position
/// just after it. `None` where no whole record starts there.
#[verifier::opaque]
pub open spec fn parse_record(b: Seq<u8>, i: int) -> Option<(Record, int)> {
    if has_at(b, i, set_open()) {
        match parse_text(b, i + 14) {
            Some((k, e1)) => if has_at(b, e1, val_sep()) {
                match parse_text(b, e1 + 7) {
                    Some((v, e2)) => if has_at(b, e2, close()) {
                        Some((Record::Put { key: k, val: v }, e2 + 2))
                    } else {
                        None
                    },
                    None => None,
                }
            } else {
                None
            },
            None => None,
        }
    } else if has_at(b, i, remove_open()) {
        match parse_text(b, i + 17) {
            Some((k, e1)) => if has_at(b, e1, close()) {
                Some((Record::Remove { key: k }, e1 + 2))
            } else {
                None
            },
            None => None,
        }
    } else {
        None
    }
}

proof fn lemma_has_at_split(b: Seq<u8>, i: int, p: Seq<u8>, q: Seq<u8>)
    ensures
        has_at(b, i, p + q) <==> has_at(b, i, p) && has_at(b, i + p.len(), q),
{
    if has_at(b, i, p + q) {
        assert(b.subrange(i, i + p.len()) =~= (p + q).subrange(0, p.len() as int));
        assert(b.subrange(i + p.len(), i + p.len() + q.len()) =~= (p + q).subrange(
            p.len() as int,
            (p + q).len() as int,
        ));
        assert((p + q).subrange(0, p.len() as int) =~= p);
        assert((p + q).subrange(p.len() as int, (p + q).len() as int) =~= q);
    }
    if has_at(b, i, p) && has_at(b, i + p.len(), q) {
        assert(b.subrange(i, i + (p + q).len()) =~= p + q) by {
            assert forall|j: int| 0 <= j < (p + q).len() implies b.subrange(
                i,
                i + (p + q).len(),
            )[j] == (p + q)[j] by {
                if j < p.len() {
                    assert(b.subrange(i, i + p.len())[j] == p[j]);
                } else {
                    assert(b.subrange(i + p.len(), i + p.len() + q.len())[j - p.len()] == q[j
                        - p.len()]);
                }
            }
        }
    }
}

proof fn lemma_unescape_encoded(b: Seq<u8>, i: int, s: Seq<u8>)
    requires
        has_at(b, i, escaped(s) + seq![QUOTE]),
    ensures
        unescape_from(b, i) == Some((s, i + escaped(s).len() + 1)),
    decreases s.len(),
{
    let t = escaped(s) + seq![QUOTE];
    assert(b[i] == t[0]) by {
        assert(b.subrange(i, i + t.len())[0] == t[0]);
    }
    if s.len() == 0 {
        assert(t =~= seq![QUOTE]);
    } else {
        let x = s[0];
        let rest = s.drop_first();
        let w = escape_byte(x).len();
        assert(t =~= escape_byte(x) + (escaped(rest) + seq![QUOTE]));
        lemma_has_at_split(b, i, escape_byte(x), escaped(rest) + seq![QUOTE]);
        assert(b[i] == escape_byte(x)[0]) by {
            assert(b.subrange(i, i + w)[0] == escape_byte(x)[0]);
        }
        lemma_unescape_encoded(b, i + w, rest);
        if x == QUOTE || x == BACKSLASH {
            assert(b[i + 1] == x) by {
                assert(b.subrange(i, i + w)[1] == escape_byte(x)[1]);
            }
        }
        assert(seq![x] + rest =~= s);
    }
}

proof fn lemma_unescape_sound(b: Seq<u8>, i: int)
    requires
        unescape_from(b, i) is Some,
    ensures
        ({
            let (s, e) = unescape_from(b, i)->0;
            i < e && has_at(b, i, escaped(s) + seq![QUOTE]) && e == i + escaped(s).len() + 1
        }),
    decreases b.len() - i,
{
    let (s, e) = unescape_from(b, i)->0;
    if b[i] == QUOTE {
        assert(escaped(s) + seq![QUOTE] =~= seq![QUOTE]);
        assert(b.subrange(i, i + 1) =~= seq![QUOTE]);
    } else {
        let w: int = if b[i] == BACKSLASH { 2 } else { 1 };
        let x = b[i + w - 1];
        lemma_unescape_sound(b, i + w);
        let (rest, _e) = unescape_from(b, i + w)->0;
        assert(s =~= seq![x] + rest);
        assert(s.drop_first() =~= rest);
        assert(escape_byte(x).len() == w);
        assert(has_at(b, i, escape_byte(x))) by {
            assert(b.subrange(i, i + w) =~= escape_byte(x));
        }
        lemma_has_at_split(b, i, escape_byte(x), escaped(rest) + seq![QUOTE]);
        assert(escaped(s) + seq![QUOTE] =~= escape_byte(x) + (escaped(rest) + seq![QUOTE]));
    }
}

proof fn lemma_text_encoded(b: Seq<u8>, i: int, t: Seq<char>)
    requires
        has_at(b, i, text_field(t)),
    ensures
        parse_text(b, i) == Some((t, i + text_field(t).len())),
{
    let s = encode_utf8(t);
    assert(text_field(t) =~= seq![QUOTE] + (escaped(s) + seq![QUOTE]));
    lemma_has_at_split(b, i, seq![QUOTE], escaped(s) + seq![QUOTE]);
    assert(b[i] == QUOTE) by {
        assert(b.subrange(i, i + 1)[0] == QUOTE);
    }
    lemma_unescape_encoded(b, i + 1, s);
    encode_utf8_valid_utf8(t);
    encode_utf8_decode_utf8(t);
}

proof fn lemma_text_sound(b: Seq<u8>, i: int)
    requires
        parse_text(b, i) is Some,
    ensures
        ({
            let (t, e) = parse_text(b, i)->0;
            has_at(b, i, text_field(t)) && e == i + text_field(t).len()
        }),
{
    lemma_unescape_sound(b, i + 1);
    let (s, _e) = unescape_from(b, i + 1)->0;
    decode_utf8_encode_utf8(s);
    let t = decode_utf8(s);
    assert(has_at(b, i, seq![QUOTE])) by {
        assert(b.subrange(i, i + 1) =~= seq![QUOTE]);
    }
    lemma_has_at_split(b, i, seq![QUOTE], escaped(s) + seq![QUOTE]);
    assert(text_field(t) =~= seq![QUOTE] + (escaped(s) + seq![QUOTE]));
}

/// Decoding what was encoded gives the record back, and tells where it ends,
/// whatever follows it.
pub proof fn lemma_parse_encoded(b: Seq<u8>, i: int, r: Record)
    requires
        has_at(b, i, encode_record(r)),
    ensures
        parse_record(b, i) == Some((r, i + encode_record(r).len())),
        encode_record(r).len() > 0,
{
    reveal(parse_record);
    reveal(encode_record);
    match r {
        Record::Put { key, val } => {
            let a1 = set_open();
            let a2 = a1 + text_field(key);
            let a3 = a2 + val_sep();
            let a4 = a3 + text_field(val);
            lemma_has_at_split(b, i, a4, close());
            lemma_has_at_split(b, i, a3, text_field(val));
            lemma_has_at_split(b, i, a2, val_sep());
            lemma_has_at_split(b, i, a1, text_field(key));
            lemma_text_encoded(b, i + 14, key);
            lemma_text_encoded(b, i + a3.len(), val);
        },
        Record::Remove { key } => {
            let a1 = remove_open();
            let a2 = a1 + text_field(key);
            lemma_has_at_split(b, i, a2, close());
            lemma_has_at_split(b, i, a1, text_field(key));
            lemma_text_encoded(b, i + 17, key);
            assert(!has_at(b, i, set_open())) by {
                assert(b.subrange(i, i + 17)[2] == 82);
                if has_at(b, i, set_open()) {
                    assert(b.subrange(i, i + 14)[2] == 83);
                }
            }
        },
    }
}

/// Whatever decodes is exactly the encoding of the record it decodes to.
pub proof fn lemma_parse_sound(b: Seq<u8>, i: int)
    requires
        parse_record(b, i) is Some,
    ensures
        ({
            let (r, e) = parse_record(b, i)->0;
            has_at(b, i, encode_record(r)) && e == i + encode_record(r).len()
        }),
{
    reveal(parse_record);
    reveal(encode_record);
    let (r, e) = parse_record(b, i)->0;
    if has_at(b, i, set_open()) {
        lemma_text_sound(b, i + 14);
        let (k, e1) = parse_text(b, i + 14)->0;
        lemma_text_sound(b, e1 + 7);
        let (v, e2) = parse_text(b, e1 + 7)->0;
        let a1 = set_open();
        let a2 = a1 + text_field(k);
        let a3 = a2 + val_sep();
        let a4 = a3 + text_field(v);
        lemma_has_at_split(b, i, a1, text_field(k));
        lemma_has_at_split(b, i, a2, val_sep());
        lemma_has_at_split(b, i, a3, text_field(v));
        lemma_has_at_split(b, i, a4, close());
    } else {
        lemma_text_sound(b, i + 17);
        let (k, e1) = parse_text(b, i + 17)->0;
        let a1 = remove_open();
        let a2 = a1 + text_field(k);
        lemma_has_at_split(b, i, a1, text_field(k));
        lemma_has_at_split(b, i, a2, close());
    }
}

proof fn lemma_escaped_concat(a: Seq<u8>, b: Seq<u8>)
    ensures
        escaped(a + b) == escaped(a) + escaped(b),
    decreases a.len(),
{
    if a.len() == 0 {
        assert(a + b =~= b);
        assert(escaped(a) + escaped(b) =~= escaped(b));
    } else {
        assert((a + b).drop_first() =~= a.drop_first() + b);
        lemma_escaped_concat(a.drop_first(), b);
        assert(escaped(a + b) =~= escaped(a) + escaped(b));
    }
}

/// Relies on `String::from_utf8`: it succeeds exactly on valid UTF-8, and the
/// text it returns is what those bytes encode.
#[verifier::external_body]
pub(crate) fn string_from_utf8(v: Vec<u8>) -> (r: core::result::Result<
    String,
    std::string::FromUtf8Error,
>)
    ensures
        r is Ok <==> valid_utf8(v@),
        r matches Ok(s) ==> s@ == decode_utf8(v@),
{
    String::from_utf8(v)
}

pub(crate) fn append_bytes(out: &mut Vec<u8>, p: &[u8])
    ensures
        final(out)@ == old(out)@ + p@,
{
    let mut i: usize = 0;
    while i < p.len()
        invariant
            i <= p@.len(),
            out@ == old(out)@ + p@.subrange(0, i as int),
        decreases p@.len() - i,
    {
        out.push(p[i]);
        i = i + 1;
        assert(p@.subrange(0, i as int) =~= p@.subrange(0, i - 1).push(p@[i - 1]));
    }
    assert(p@.subrange(0, i as int) =~= p@);
}

fn append_quoted(out: &mut Vec<u8>, s: &[u8])
    ensures
        final(out)@ == old(out)@ + quoted(s@),
{
    out.push(QUOTE);
    let mut i: usize = 0;
    while i < s.len()
        invariant
            i <= s@.len(),
            out@ == old(out)@ + seq![QUOTE] + escaped(s@.subrange(0, i as int)),
        decreases s@.len() - i,
    {
        let x = s[i];
        if x == QUOTE || x == BACKSLASH {
            out.push(BACKSLASH);
        }
        out.push(x);
        proof {
            let done = s@.subrange(0, i as int);
            assert(s@.subrange(0, i + 1) =~= done + seq![x]);
            lemma_escaped_concat(done, seq![x]);
            assert(seq![x].drop_first() =~= Seq::<u8>::empty());
            assert(escaped(Seq::<u8>::empty()) =~= Seq::<u8>::empty());
            assert(escaped(seq![x]) =~= escape_byte(x));
        }
        i = i + 1;
    }
    out.push(QUOTE);
    assert(s@.subrange(0, i as int) =~= s@);
}

/// The bytes that stand for `c`.
pub fn encode(c: &Command) -> (r: Vec<u8>)
    ensures
        r@ == encode_record(c@),
{
    reveal(encode_record);
    let mut out: Vec<u8> = Vec::new();
    match c {
        Command::Put { key, val } => {
            append_bytes(&mut out, &[123u8, 34, 83, 101, 116, 34, 58, 123, 34, 107, 101, 121, 34, 58]);
            append_quoted(&mut out, key.as_str().as_bytes());
            append_bytes(&mut out, &[44u8, 34, 118, 97, 108, 34, 58]);
            append_quoted(&mut out, val.as_str().as_bytes());
            append_bytes(&mut out, &[125u8, 125]);
        },
        Command::Remove { key } => {
            append_bytes(&mut out, &[123u8, 34, 82, 101, 109, 111, 118, 101, 34, 58, 123, 34, 107, 101, 121, 34, 58]);
            append_quoted(&mut out, key.as_str().as_bytes());
            append_bytes(&mut out, &[125u8, 125]);
        },
    }
    out
}

fn bytes_at(b: &[u8], i: usize, p: &[u8]) -> (r: bool)
    ensures
        r == has_at(b@, i as int, p@),
{
    assert(b.len() == b@.len());
    if i > b.len() || p.len() > b.len() - i {
        return false;
    }
    let mut j: usize = 0;
    while j < p.len()
        invariant
            j <= p@.len(),
            i + p@.len() <= b@.len(),
            b@.len() <= usize::MAX,
            forall|m: int| 0 <= m < j ==> b@[i + m] == p@[m],
        decreases p@.len() - j,
    {
        if b[i + j] != p[j] {
            assert(b@.subrange(i as int, i + p@.len())[j as int] != p@[j as int]);
            return false;
        }
        j = j + 1;
    }
    assert(b@.subrange(i as int, i + p@.len()) =~= p@);
    true
}

fn unescape(b: &[u8], i: usize) -> (r: Option<(Vec<u8>, usize)>)
    ensures
        r matches Some((s, e)) ==> unescape_from(b@, i as int) == Some((s@, e as int)),
        r is None ==> unescape_from(b@, i as int) is None,
{
    let mut out: Vec<u8> = Vec::new();
    let mut j: usize = i;
    while j < b.len()
        invariant
            unescape_from(b@, i as int) == match unescape_from(b@, j as int) {
                Some((s, e)) => Some((out@ + s, e)),
                None => None,
            },
        decreases b@.len() - j,
    {
        let x = b[j];
        if x == QUOTE {
            assert(out@ + Seq::<u8>::empty() =~= out@);
            return Some((out, j + 1));
        } else if x == BACKSLASH {
            if j + 1 < b.len() && (b[j + 1] == QUOTE || b[j + 1] == BACKSLASH) {
                let y = b[j + 1];
                proof {
                    if let Some((s, e)) = unescape_from(b@, j + 2) {
                        assert(out@ + (seq![y] + s) =~= out@.push(y) + s);
                    }
                }
                out.push(y);
                j = j + 2;
            } else {
                return None;
            }
        } else {
            proof {
                if let Some((s, e)) = unescape_from(b@, j + 1) {
                    assert(out@ + (seq![x] + s) =~= out@.push(x) + s);
                }
            }
            out.push(x);
            j = j + 1;
        }
    }
    None
}

fn read_text(b: &[u8], i: usize) -> (r: Option<(String, usize)>)
    ensures
        r matches Some((t, e)) ==> parse_text(b@, i as int) == Some((t@, e as int)) && e <= b@.len(),
        r is None ==> parse_text(b@, i as int) is None,
{
    if i >= b.len() || b[i] != QUOTE {
        return None;
    }
    match unescape(b, i + 1) {
        Some((s, e)) => match string_from_utf8(s) {
            Ok(t) => {
                proof {
                    lemma_text_sound(b@, i as int);
                }
                Some((t, e))
            },
            Err(_) => None,
        },
        None => None,
    }
}

/// Decodes the record that starts at position `i` of `b`, and tells where it
/// ends. `None` where no whole record starts there, as at a torn tail.
pub fn decode_at(b: &[u8], i: usize) -> (r: Option<(Command, usize)>)
    ensures
        r matches Some((c, e)) ==> parse_record(b@, i as int) == Some((c@, e as int)),
        r is None ==> parse_record(b@, i as int) is None,
{
    reveal(parse_record);
    assert(b.len() == b@.len());
    if bytes_at(b, i, &[123u8, 34, 83, 101, 116, 34, 58, 123, 34, 107, 101, 121, 34, 58]) {
        let (key, e1) = match read_text(b, i + 14) {
            Some(t) => t,
            None => return None,
        };
        if !bytes_at(b, e1, &[44u8, 34, 118, 97, 108, 34, 58]) {
            return None;
        }
        let (val, e2) = match read_text(b, e1 + 7) {
            Some(t) => t,
            None => return None,
        };
        if !bytes_at(b, e2, &[125u8, 125]) {
            return None;
        }
        Some((Command::Put { key, val }, e2 + 2))
    } else if bytes_at(b, i, &[123u8, 34, 82, 101, 109, 111, 118, 101, 34, 58, 123, 34, 107, 101, 121, 34, 58]) {
        let (key, e1) = match read_text(b, i + 17) {
            Some(t) => t,
            None => return None,
        };
        if !bytes_at(b, e1, &[125u8, 125]) {
            return None;
        }
        Some((Command::Remove { key }, e1 + 2))
    } else {
        None
    }
}

/// A record cut short does not decode: no strict prefix of an encoding, at the
/// end of the bytes, reads as a record.
pub proof fn lemma_torn_record(b: Seq<u8>, i: int, r: Record)
    requires
        0 <= i <= b.len() < i + encode_record(r).len(),
        b.subrange(i, b.len() as int) == encode_record(r).subrange(0, b.len() - i),
    ensures
        parse_record(b, i) is None,
{
    if parse_record(b, i) is Some {
        let (r1, e) = parse_record(b, i)->0;
        lemma_parse_sound(b, i);
        let t = encode_record(r);
        let t1 = encode_record(r1);
        let full = b.subrange(0, i) + t;
        assert(full.subrange(i, i + t.len()) =~= t);
        lemma_parse_encoded(full, i, r);
        assert(full.subrange(i, i + t1.len()) =~= b.subrange(i, i + t1.len())) by {
            assert forall|x: int| 0 <= x < t1.len() implies #[trigger] full.subrange(i, i + t1.len())[x]
                == b.subrange(i, i + t1.len())[x] by {
                assert(full[i + x] == t[x]);
                assert(b.subrange(i, b.len() as int)[x] == b[i + x]);
            }
        }
        lemma_parse_encoded(full, i, r1);
    }
}

} // verus!
