//! Segments, and what replaying them means.
//!
//! A segment is one log file: a generation number and the bytes the file
//! holds. Replaying a list of segments reads each one's records from the start
//! until the first place where no whole record begins, and applies them in
//! order.

use vstd::prelude::*;
use crate::codec::{
    encode_record, has_at, lemma_parse_encoded, lemma_parse_sound, lemma_torn_record, parse_record,
    Record,
};

verus! {

broadcast use vstd::seq::group_seq_axioms;

/// One log segment: its generation and its bytes.
pub struct Segment {
    pub gen: u64,
    pub data: Vec<u8>,
}

/// The records that can be read from position `i` on.
pub open spec fn records_from(b: Seq<u8>, i: int) -> Seq<Record>
    decreases b.len() - i,
{
    if 0 <= i < b.len() {
        match parse_record(b, i) {
            Some((r, e)) => if i < e <= b.len() {
                seq![r] + records_from(b, e)
            } else {
                Seq::empty()
            },
            None => Seq::empty(),
        }
    } else {
        Seq::empty()
    }
}

/// Where reading records from position `i` on stops.
pub open spec fn records_end(b: Seq<u8>, i: int) -> int
    decreases b.len() - i,
{
    if 0 <= i < b.len() {
        match parse_record(b, i) {
            Some((r, e)) => if i < e <= b.len() {
                records_end(b, e)
            } else {
                i
            },
            None => i,
        }
    } else {
        i
    }
}

/// The bytes are whole records, with nothing torn at the end.
pub open spec fn is_whole(b: Seq<u8>) -> bool {
    records_end(b, 0) == b.len()
}

pub open spec fn apply_record(m: Map<Seq<char>, Seq<char>>, r: Record) -> Map<Seq<char>, Seq<char>> {
    match r {
        Record::Put { key, val } => m.insert(key, val),
        Record::Remove { key } => m.remove(key),
    }
}

pub open spec fn apply_records(m: Map<Seq<char>, Seq<char>>, rs: Seq<Record>) -> Map<
    Seq<char>,
    Seq<char>,
>
    decreases rs.len(),
{
    if rs.len() == 0 {
        m
    } else {
        apply_record(apply_records(m, rs.drop_last()), rs.last())
    }
}

/// The mapping that replaying `segs` in order produces.
pub open spec fn replay(segs: Seq<Segment>) -> Map<Seq<char>, Seq<char>>
    decreases segs.len(),
{
    if segs.len() == 0 {
        Map::empty()
    } else {
        apply_records(replay(segs.drop_last()), records_from(segs.last().data@, 0))
    }
}

/// The segments as a map from generation to bytes.
pub open spec fn files_of(segs: Seq<Segment>) -> Map<u64, Seq<u8>>
    decreases segs.len(),
{
    if segs.len() == 0 {
        Map::empty()
    } else {
        files_of(segs.drop_last()).insert(segs.last().gen, segs.last().data@)
    }
}

pub open spec fn increasing(segs: Seq<Segment>) -> bool {
    forall|a: int, b: int| 0 <= a < b < segs.len() ==> segs[a].gen < segs[b].gen
}

pub proof fn lemma_apply_records_push(m: Map<Seq<char>, Seq<char>>, rs: Seq<Record>, r: Record)
    ensures
        apply_records(m, rs.push(r)) == apply_record(apply_records(m, rs), r),
{
    assert(rs.push(r).drop_last() =~= rs);
}

pub proof fn lemma_replay_push(segs: Seq<Segment>, s: Segment)
    ensures
        replay(segs.push(s)) == apply_records(replay(segs), records_from(s.data@, 0)),
        files_of(segs.push(s)) == files_of(segs).insert(s.gen, s.data@),
{
    assert(segs.push(s).drop_last() =~= segs);
}

/// The generations that `files_of` holds are those of the segments.
pub proof fn lemma_files_dom(segs: Seq<Segment>, g: u64)
    ensures
        files_of(segs).contains_key(g) <==> exists|j: int| 0 <= j < segs.len() && segs[j].gen == g,
    decreases segs.len(),
{
    if segs.len() > 0 {
        lemma_files_dom(segs.drop_last(), g);
        if files_of(segs.drop_last()).contains_key(g) {
            let j = choose|j: int| 0 <= j < segs.len() - 1 && segs.drop_last()[j].gen == g;
            assert(segs[j].gen == g);
        }
        if exists|j: int| 0 <= j < segs.len() && segs[j].gen == g {
            let j = choose|j: int| 0 <= j < segs.len() && segs[j].gen == g;
            if j < segs.len() - 1 {
                assert(segs.drop_last()[j].gen == g);
            }
        }
    }
}

/// With increasing generations, a segment's generation maps to its bytes.
pub proof fn lemma_files_at(segs: Seq<Segment>, j: int)
    requires
        increasing(segs),
        0 <= j < segs.len(),
    ensures
        files_of(segs).contains_key(segs[j].gen),
        files_of(segs)[segs[j].gen] == segs[j].data@,
    decreases segs.len(),
{
    if j < segs.len() - 1 {
        lemma_files_at(segs.drop_last(), j);
        assert(segs.drop_last()[j] == segs[j]);
    }
}

/// Appending one record's bytes to whole bytes adds that record to what they
/// replay, and keeps them whole.
pub proof fn lemma_append_record(b: Seq<u8>, r: Record)
    requires
        is_whole(b),
    ensures
        records_from(b + encode_record(r), 0) == records_from(b, 0).push(r),
        is_whole(b + encode_record(r)),
{
    lemma_append_record_from(b, r, 0);
}

proof fn lemma_append_record_from(b: Seq<u8>, r: Record, i: int)
    requires
        0 <= i <= b.len(),
        records_end(b, i) == b.len(),
    ensures
        records_from(b + encode_record(r), i) == records_from(b, i).push(r),
        records_end(b + encode_record(r), i) == (b + encode_record(r)).len(),
    decreases b.len() - i,
{
    let t = encode_record(r);
    let bb = b + t;
    if i == b.len() {
        assert(bb.subrange(i, i + t.len()) =~= t);
        lemma_parse_encoded(bb, i, r);
        assert(records_from(bb, bb.len() as int) =~= Seq::<Record>::empty());
        assert(records_end(bb, bb.len() as int) == bb.len());
        assert(records_end(bb, i) == records_end(bb, bb.len() as int));
        assert(records_from(b, i) =~= Seq::<Record>::empty());
        assert(records_from(bb, i) =~= seq![r] + Seq::<Record>::empty());
        assert(Seq::<Record>::empty().push(r) =~= seq![r] + Seq::<Record>::empty());
    } else {
        let (r1, e1) = parse_record(b, i)->0;
        lemma_parse_sound(b, i);
        let t1 = encode_record(r1);
        assert(bb.subrange(i, i + t1.len()) =~= b.subrange(i, i + t1.len()));
        lemma_parse_encoded(bb, i, r1);
        lemma_append_record_from(b, r, e1);
        assert(records_from(bb, i) =~= records_from(b, i).push(r));
        assert(records_end(bb, i) == records_end(bb, e1));
    }
}

/// Whole bytes followed by a record cut short replay as the whole bytes alone:
/// a torn tail is skipped.
pub proof fn lemma_torn_tail(b: Seq<u8>, r: Record, n: int)
    requires
        is_whole(b),
        0 <= n < encode_record(r).len(),
    ensures
        records_from(b + encode_record(r).take(n), 0) == records_from(b, 0),
{
    lemma_torn_tail_from(b, r, n, 0);
}

proof fn lemma_torn_tail_from(b: Seq<u8>, r: Record, n: int, i: int)
    requires
        0 <= i <= b.len(),
        records_end(b, i) == b.len(),
        0 <= n < encode_record(r).len(),
    ensures
        records_from(b + encode_record(r).take(n), i) == records_from(b, i),
    decreases b.len() - i,
{
    let t = encode_record(r).take(n);
    let bb = b + t;
    if i == b.len() {
        if n > 0 {
            assert(bb.subrange(i, bb.len() as int) =~= encode_record(r).subrange(0, bb.len() - i));
            lemma_torn_record(bb, i, r);
        }
        assert(records_from(bb, i) =~= Seq::<Record>::empty());
        assert(records_from(b, i) =~= Seq::<Record>::empty());
    } else {
        let (r1, e1) = parse_record(b, i)->0;
        lemma_parse_sound(b, i);
        let t1 = encode_record(r1);
        assert(bb.subrange(i, i + t1.len()) =~= b.subrange(i, i + t1.len()));
        lemma_parse_encoded(bb, i, r1);
        lemma_torn_tail_from(b, r, n, e1);
    }
}

/// Tearing the last record of the active segment (keeping a strict prefix of
/// it) replays as if that record had never been written; with it whole, the
/// replay applies it on top.
pub proof fn lemma_torn_last_record(segs: Seq<Segment>, torn: Seq<Segment>, d: Seq<u8>, r: Record, n: int)
    requires
        segs.len() >= 1,
        torn.len() == segs.len(),
        torn.drop_last() == segs.drop_last(),
        is_whole(d),
        segs.last().data@ == d + encode_record(r),
        torn.last().data@ == d + encode_record(r).take(n),
        0 <= n < encode_record(r).len(),
    ensures
        replay(torn) == apply_records(replay(segs.drop_last()), records_from(d, 0)),
        replay(segs) == apply_record(replay(torn), r),
{
    lemma_torn_tail(d, r, n);
    lemma_append_record(d, r);
    lemma_apply_records_push(replay(segs.drop_last()), records_from(d, 0), r);
    assert(records_from(d, 0).push(r).drop_last() =~= records_from(d, 0));
}

} // verus!
