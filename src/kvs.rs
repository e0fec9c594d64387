//! The log-structured store.
//!
//! The store keeps every segment's bytes, an index from each live key to its
//! latest `Put` record, and a count of wasted bytes. Each change returns the
//! segment operations that bring the files on disk to the same state.

use vstd::prelude::*;
use dashmap::DashMap;
use crate::codec::{
    append_bytes, decode_at, encode, encode_record, has_at, lemma_parse_encoded, lemma_parse_sound,
    parse_record, Command, Record,
};
use crate::error::{ErrorKind, Result};
use crate::index::{
    index_get, index_insert, index_new, index_remove, index_snapshot, index_entries,
    CommandPointer,
};
use crate::segment::{
    apply_record, apply_records, files_of, increasing, is_whole, lemma_append_record,
    lemma_apply_records_push, lemma_files_at, lemma_files_dom, lemma_replay_push, records_end,
    records_from, replay, Segment,
};

verus! {

broadcast use vstd::seq::group_seq_axioms;

/// Wasted bytes at which a change compacts the store.
pub const COMPACTION_THRESHOLD: u64 = 1048576;

/// The bytes of the record that sets `k` to `v`.
pub open spec fn put_bytes(k: Seq<char>, v: Seq<char>) -> Seq<u8> {
    encode_record(Record::Put { key: k, val: v })
}

/// The bytes of the record that removes `k`.
pub open spec fn remove_bytes(k: Seq<char>) -> Seq<u8> {
    encode_record(Record::Remove { key: k })
}

/// `p` names bytes of `files` that hold the record setting `k` to `v`.
pub open spec fn points_to(files: Map<u64, Seq<u8>>, p: CommandPointer, k: Seq<char>, v: Seq<char>) -> bool {
    &&& files.contains_key(p.gen)
    &&& has_at(files[p.gen], p.pos as int, put_bytes(k, v))
    &&& p.len == put_bytes(k, v).len()
}

/// `a + b`, or `u64::MAX` where that does not fit.
pub open spec fn grown(a: u64, b: u64) -> u64 {
    if a + b > u64::MAX {
        u64::MAX
    } else {
        (a + b) as u64
    }
}

/// A change that leaves `waste` wasted bytes, with `active` the active
/// generation, compacts the store.
pub open spec fn compaction_due(waste: u64, active: u64) -> bool {
    waste >= COMPACTION_THRESHOLD && active <= u64::MAX - 2
}

/// The length of the `Put` record that `m` holds for `k`, if any: what
/// replacing or removing `k` wastes.
pub open spec fn live_len(m: Map<Seq<char>, Seq<char>>, k: Seq<char>) -> u64 {
    if m.contains_key(k) {
        put_bytes(k, m[k]).len() as u64
    } else {
        0
    }
}

/// The waste counter after record `r`, where `w` is the counter and `m` the
/// mapping before it.
pub open spec fn record_waste(w: u64, m: Map<Seq<char>, Seq<char>>, r: Record) -> u64 {
    match r {
        Record::Put { key, val } => grown(w, live_len(m, key)),
        Record::Remove { key } => grown(grown(w, live_len(m, key)), remove_bytes(key).len() as u64),
    }
}

/// The waste counter after the records `rs`, from counter `w` and mapping `m`.
pub open spec fn records_waste(w: u64, m: Map<Seq<char>, Seq<char>>, rs: Seq<Record>) -> u64
    decreases rs.len(),
{
    if rs.len() == 0 {
        w
    } else {
        record_waste(
            records_waste(w, m, rs.drop_last()),
            apply_records(m, rs.drop_last()),
            rs.last(),
        )
    }
}

/// The waste counter that replaying `segs` in order builds up.
pub open spec fn replay_waste(segs: Seq<Segment>) -> u64
    decreases segs.len(),
{
    if segs.len() == 0 {
        0
    } else {
        records_waste(
            replay_waste(segs.drop_last()),
            replay(segs.drop_last()),
            records_from(segs.last().data@, 0),
        )
    }
}

/// The index after the records of `b` from position `i` on, read as segment
/// `gen` and starting from `idx`: a `Put` points its key at that record (its
/// position and length), a `Remove` drops its key.
pub open spec fn index_from(b: Seq<u8>, i: int, gen: u64, idx: Map<Seq<char>, CommandPointer>) -> Map<
    Seq<char>,
    CommandPointer,
>
    decreases b.len() - i,
{
    if 0 <= i < b.len() {
        match parse_record(b, i) {
            Some((r, e)) => if i < e <= b.len() {
                index_from(
                    b,
                    e,
                    gen,
                    match r {
                        Record::Put { key, val } => idx.insert(
                            key,
                            CommandPointer { gen, pos: i as u64, len: (e - i) as u64 },
                        ),
                        Record::Remove { key } => idx.remove(key),
                    },
                )
            } else {
                idx
            },
            None => idx,
        }
    } else {
        idx
    }
}

/// The index that replaying `segs` in order builds: each key whose last record
/// is a `Put`, pointing at that record.
pub open spec fn replay_index(segs: Seq<Segment>) -> Map<Seq<char>, CommandPointer>
    decreases segs.len(),
{
    if segs.len() == 0 {
        Map::empty()
    } else {
        index_from(segs.last().data@, 0, segs.last().gen, replay_index(segs.drop_last()))
    }
}

/// A change to the segment files on disk.
pub enum SegmentOp {
    /// Append the bytes to the segment of this generation, creating it where
    /// it does not exist.
    Append { gen: u64, bytes: Vec<u8> },
    /// Delete the segment of this generation.
    Delete { gen: u64 },
}

pub open spec fn apply_op(files: Map<u64, Seq<u8>>, op: SegmentOp) -> Map<u64, Seq<u8>> {
    match op {
        SegmentOp::Append { gen, bytes } => files.insert(
            gen,
            (if files.contains_key(gen) {
                files[gen]
            } else {
                Seq::empty()
            }) + bytes@,
        ),
        SegmentOp::Delete { gen } => files.remove(gen),
    }
}

/// The files after the operations, in order.
pub open spec fn apply_ops(files: Map<u64, Seq<u8>>, ops: Seq<SegmentOp>) -> Map<u64, Seq<u8>>
    decreases ops.len(),
{
    if ops.len() == 0 {
        files
    } else {
        apply_op(apply_ops(files, ops.drop_last()), ops.last())
    }
}

/// The `Put` records of `keys`, each with its value in `m`, end to end.
pub open spec fn concat_puts(keys: Seq<Seq<char>>, m: Map<Seq<char>, Seq<char>>) -> Seq<u8>
    decreases keys.len(),
{
    if keys.len() == 0 {
        Seq::empty()
    } else {
        concat_puts(keys.drop_last(), m) + put_bytes(keys.last(), m[keys.last()])
    }
}

/// `b` is the `Put` records of `keys` (each key once) with their values in
/// `m`, end to end; `idx` holds exactly those keys, each pointing at its own
/// record in generation `gen`.
pub open spec fn packed(
    b: Seq<u8>,
    keys: Seq<Seq<char>>,
    m: Map<Seq<char>, Seq<char>>,
    idx: Map<Seq<char>, CommandPointer>,
    gen: u64,
) -> bool {
    &&& b == concat_puts(keys, m)
    &&& keys.no_duplicates()
    &&& forall|k: Seq<char>| #[trigger] idx.contains_key(k) <==> keys.contains(k)
    &&& forall|i: int|
        0 <= i < keys.len() ==> #[trigger] idx[keys[i]] == (CommandPointer {
            gen,
            pos: concat_puts(keys.take(i), m).len() as u64,
            len: put_bytes(keys[i], m[keys[i]]).len() as u64,
        })
}

/// The operations of a compaction from active generation `a`, in the order
/// they are to be carried out: write segment `a + 1` whole, create the empty
/// segment `a + 2`, and only then delete the older segments.
pub open spec fn compaction_ops(ops: Seq<SegmentOp>, a: u64) -> bool {
    &&& ops.len() >= 2
    &&& (ops[0] matches SegmentOp::Append { gen, .. } && gen == a + 1)
    &&& (ops[1] matches SegmentOp::Append { gen, bytes } && gen == a + 2 && bytes@.len() == 0)
    &&& forall|i: int| 2 <= i < ops.len() ==> (#[trigger] ops[i] matches SegmentOp::Delete { gen } && gen <= a)
}

/// The one operation that appends `bytes` to segment `gen`.
pub open spec fn is_append(op: SegmentOp, gen: u64, bytes: Seq<u8>) -> bool {
    op matches SegmentOp::Append { gen: g, bytes: b } && g == gen && b@ == bytes
}

/// A log-structured key/value store over in-memory segment images.
pub struct KvStore {
    index: DashMap<String, CommandPointer>,
    segments: Vec<Segment>,
    stale: u64,
    model: Ghost<Map<Seq<char>, Seq<char>>>,
}

impl View for KvStore {
    type V = Map<Seq<char>, Seq<char>>;

    /// The live mapping from keys to values.
    closed spec fn view(&self) -> Map<Seq<char>, Seq<char>> {
        self.model@
    }
}

impl KvStore {
    /// Each live key's pointer.
    pub closed spec fn index(&self) -> Map<Seq<char>, CommandPointer> {
        index_entries(self.index)
    }

    /// The segments, oldest first; the last is the active one.
    pub closed spec fn segments(&self) -> Seq<Segment> {
        self.segments@
    }

    /// The segments' bytes by generation.
    pub closed spec fn files(&self) -> Map<u64, Seq<u8>> {
        files_of(self.segments@)
    }

    /// The active generation, the one that new records go to.
    pub closed spec fn active(&self) -> u64 {
        self.segments@.last().gen
    }

    /// The wasted-bytes counter.
    pub closed spec fn waste(&self) -> u64 {
        self.stale
    }

    /// The store's invariant.
    pub closed spec fn wf(&self) -> bool {
        &&& self.segments@.len() >= 1
        &&& increasing(self.segments@)
        &&& is_whole(self.segments@.last().data@)
        &&& self.index().dom() == self.model@.dom()
        &&& forall|k: Seq<char>| #[trigger]
            self.index().contains_key(k) ==> points_to(
                self.files(),
                self.index()[k],
                k,
                self.model@[k],
            )
        &&& self.model@ == replay(self.segments@)
        &&& self.stale == replay_waste(self.segments@)
    }

    /// The state that the compaction of a store whose active generation was
    /// `a` leaves: segment `a + 1` holds each live key's `Put` record once,
    /// end to end and nothing else, and the index points into it; an empty
    /// active segment `a + 2` follows it, nothing else remains, and no byte is
    /// wasted.
    pub open spec fn compacted_from(&self, a: u64) -> bool {
        &&& exists|keys: Seq<Seq<char>>| #[trigger]
            packed(self.files()[(a + 1) as u64], keys, self@, self.index(), (a + 1) as u64)
        &&& self.active() == a + 2
        &&& self.waste() == 0
        &&& self.files().dom() == set![(a + 1) as u64, (a + 2) as u64]
        &&& self.files()[(a + 2) as u64].len() == 0
        &&& forall|k: Seq<char>| #[trigger]
            self.index().contains_key(k) ==> self.index()[k].gen == a + 1
    }

    /// Where the segment of generation `gen` stands in the list.
    fn slot_of(&self, gen: u64) -> (r: Option<usize>)
        ensures
            r matches Some(j) ==> j < self.segments@.len() && self.segments@[j as int].gen == gen,
            r is None ==> !self.files().contains_key(gen),
    {
        let mut j: usize = 0;
        while j < self.segments.len()
            invariant
                j <= self.segments@.len(),
                forall|i: int| 0 <= i < j ==> self.segments@[i].gen != gen,
            decreases self.segments@.len() - j,
        {
            if self.segments[j].gen == gen {
                return Some(j);
            }
            j = j + 1;
        }
        proof {
            lemma_files_dom(self.segments@, gen);
        }
        None
    }

    /// An empty store, with one empty active segment of generation 1.
    pub fn new() -> (r: KvStore)
        ensures
            r.wf(),
            r@ == Map::<Seq<char>, Seq<char>>::empty(),
            r.active() == 1,
            r.waste() == 0,
            r.segments().len() == 1,
            r.segments()[0].data@.len() == 0,
            r.files() == Map::<u64, Seq<u8>>::empty().insert(1, Seq::<u8>::empty()),
            r.index() == Map::<Seq<char>, CommandPointer>::empty(),
    {
        let mut segments: Vec<Segment> = Vec::new();
        segments.push(Segment { gen: 1, data: Vec::new() });
        let index = index_new();
        let r = KvStore { index, segments, stale: 0, model: Ghost(Map::empty()) };
        proof {
            let s = r.segments@;
            assert(s.drop_last() =~= Seq::<Segment>::empty());
            assert(records_from(s[0].data@, 0) =~= Seq::<Record>::empty());
            assert(records_end(s[0].data@, 0) == 0);
            assert(replay(Seq::<Segment>::empty()) == Map::<Seq<char>, Seq<char>>::empty());
            assert(replay_waste(Seq::<Segment>::empty()) == 0);
            assert(r.index().dom() =~= r.model@.dom());
            assert(r.index() =~= Map::<Seq<char>, CommandPointer>::empty());
            assert(s[0].data@ =~= Seq::<u8>::empty());
            assert(files_of(Seq::<Segment>::empty()) == Map::<u64, Seq<u8>>::empty());
            assert(s.last() == s[0]);
            assert(files_of(s) =~= Map::<u64, Seq<u8>>::empty().insert(1, Seq::<u8>::empty()));
        }
        r
    }

    /// Opens a store over the segments found on disk, oldest first. Replays
    /// each one's records up to the first place where no whole record begins
    /// (a torn tail is skipped), then adds an empty active segment one
    /// generation above the newest. Fails where the generations do not
    /// increase, or where the newest one is already the largest.
    pub fn open(segments: Vec<Segment>) -> (r: Result<KvStore>)
        ensures
            r is Ok <==> increasing(segments@) && (segments@.len() == 0 || segments@.last().gen
                < u64::MAX),
            r matches Ok(s) ==> {
                &&& s.wf()
                &&& s@ == replay(segments@)
                &&& s.waste() == replay_waste(segments@)
                &&& s.index() == replay_index(segments@)
                &&& s.files() == files_of(segments@).insert(s.active(), Seq::<u8>::empty())
                &&& s.segments().drop_last() == segments@
                &&& s.active() == (if segments@.len() == 0 {
                    1
                } else {
                    segments@.last().gen + 1
                })
                &&& s.segments().last().data@.len() == 0
            },
            r matches Err(e) ==> e is Other,
    {
        let n = segments.len();
        let mut i: usize = 1;
        while i < n
            invariant
                n == segments@.len(),
                1 <= i,
                forall|a: int, b: int| 0 <= a < b < i && b < n ==> segments@[a].gen < segments@[b].gen,
            decreases n - i,
        {
            if segments[i - 1].gen >= segments[i].gen {
                return Err(ErrorKind::Other("segment generations do not increase".to_owned()));
            }
            i = i + 1;
        }
        if n > 0 && segments[n - 1].gen == u64::MAX {
            return Err(ErrorKind::Other("no generation is left".to_owned()));
        }
        let mut index = index_new();
        let mut stale: u64 = 0;
        let ghost mut model: Map<Seq<char>, Seq<char>> = Map::empty();
        let mut j: usize = 0;
        while j < n
            invariant
                n == segments@.len(),
                j <= n,
                increasing(segments@),
                model == replay(segments@.take(j as int)),
                stale == replay_waste(segments@.take(j as int)),
                index_entries(index) == replay_index(segments@.take(j as int)),
                index_entries(index).dom() == model.dom(),
                forall|k: Seq<char>| #[trigger]
                    index_entries(index).contains_key(k) ==> points_to(
                        files_of(segments@.take(j as int)),
                        index_entries(index)[k],
                        k,
                        model[k],
                    ),
            decreases n - j,
        {
            let g = segments[j].gen;
            let data = &segments[j].data;
            let ghost before = segments@.take(j as int);
            let ghost files = files_of(segments@.take(j + 1));
            proof {
                assert(segments@.take(j + 1) =~= before.push(segments@[j as int]));
                lemma_replay_push(before, segments@[j as int]);
                assert(segments@.take(j + 1).drop_last() =~= before);
                lemma_files_dom(before, g);
                assert forall|k: Seq<char>| #[trigger]
                    index_entries(index).contains_key(k) implies points_to(
                        files,
                        index_entries(index)[k],
                        k,
                        model[k],
                    ) by {
                    let p = index_entries(index)[k];
                    lemma_files_dom(before, p.gen);
                    if p.gen == g {
                        let a = choose|a: int| 0 <= a < before.len() && before[a].gen == g;
                        assert(segments@[a].gen == g);
                    }
                }
            }
            let ghost base = model;
            let ghost base_w = stale;
            let ghost base_idx = index_entries(index);
            let ghost mut done: Seq<Record> = Seq::empty();
            let mut pos: usize = 0;
            loop
                invariant_except_break
                    pos <= data@.len(),
                    records_from(data@, 0) == done + records_from(data@, pos as int),
                invariant
                    files.contains_key(g),
                    files[g] == data@,
                    model == apply_records(base, done),
                    stale == records_waste(base_w, base, done),
                    index_from(data@, 0, g, base_idx) == index_from(data@, pos as int, g, index_entries(index)),
                    index_entries(index).dom() == model.dom(),
                    forall|k: Seq<char>| #[trigger]
                        index_entries(index).contains_key(k) ==> points_to(
                            files,
                            index_entries(index)[k],
                            k,
                            model[k],
                        ),
                ensures
                    records_from(data@, 0) == done,
                    index_entries(index) == index_from(data@, 0, g, base_idx),
                decreases data@.len() - pos,
            {
                let ghost at = pos as int;
                match decode_at(data.as_slice(), pos) {
                    Some((c, e)) => {
                        proof {
                            lemma_parse_sound(data@, at);
                            lemma_parse_encoded(data@, at, c@);
                            assert(records_from(data@, at) == seq![c@] + records_from(data@, e as int));
                            assert(done + records_from(data@, at) =~= done.push(c@) + records_from(data@, e as int));
                            lemma_apply_records_push(base, done, c@);
                            assert(done.push(c@).drop_last() =~= done);
                        }
                        let ghost idx0 = index_entries(index);
                        let ghost step = match c@ {
                            Record::Put { key, val } => idx0.insert(
                                key,
                                CommandPointer { gen: g, pos: at as u64, len: (e - at) as u64 },
                            ),
                            Record::Remove { key } => idx0.remove(key),
                        };
                        assert(index_from(data@, at, g, idx0) == index_from(data@, e as int, g, step));
                        match c {
                            Command::Put { key, val } => {
                                let ghost k = key@;
                                let ghost v = val@;
                                proof {
                                    if index_entries(index).contains_key(k) {
                                        assert(points_to(files, index_entries(index)[k], k, model[k]));
                                    }
                                }
                                let prev = index_insert(&mut index, key, CommandPointer::new(g, pos as u64, e as u64));
                                proof {
                                    model = model.insert(k, v);
                                    assert(index_entries(index).dom() =~= model.dom());
                                }
                                if let Some(q) = prev {
                                    stale = stale.saturating_add(q.len);
                                }
                            },
                            Command::Remove { key } => {
                                let ghost k = key@;
                                proof {
                                    if index_entries(index).contains_key(k) {
                                        assert(points_to(files, index_entries(index)[k], k, model[k]));
                                    }
                                }
                                let prev = index_remove(&mut index, &key);
                                proof {
                                    assert(e - pos == remove_bytes(k).len());
                                    model = model.remove(k);
                                    assert(index_entries(index).dom() =~= model.dom());
                                }
                                if let Some(q) = prev {
                                    stale = stale.saturating_add(q.len);
                                }
                                stale = stale.saturating_add((e - pos) as u64);
                            },
                        }
                        proof {
                            done = done.push(c@);
                            assert(index_entries(index) =~= step);
                        }
                        pos = e;
                    },
                    None => {
                        proof {
                            assert(records_from(data@, at) =~= Seq::<Record>::empty());
                            assert(done + Seq::<Record>::empty() =~= done);
                            assert(index_from(data@, at, g, index_entries(index)) == index_entries(index));
                        }
                        break;
                    },
                }
            }
            j = j + 1;
        }
        proof {
            assert(segments@.take(n as int) =~= segments@);
        }
        let gen = if n == 0 {
            1
        } else {
            segments[n - 1].gen + 1
        };
        let mut all = segments;
        let ghost found = all@;
        all.push(Segment { gen, data: Vec::new() });
        proof {
            lemma_replay_push(found, all@.last());
            assert(all@.drop_last() =~= found);
            assert(records_from(all@.last().data@, 0) =~= Seq::<Record>::empty());
            assert(records_end(all@.last().data@, 0) == 0);
            lemma_files_dom(found, gen);
            if n > 0 {
                assert(found.last().gen < gen);
            }
            assert forall|k: Seq<char>| #[trigger]
                index_entries(index).contains_key(k) implies points_to(
                    files_of(all@),
                    index_entries(index)[k],
                    k,
                    model[k],
                ) by {
                let p = index_entries(index)[k];
                if p.gen == gen {
                    lemma_files_dom(found, p.gen);
                    let a = choose|a: int| 0 <= a < found.len() && found[a].gen == gen;
                    assert(found[a].gen <= found.last().gen);
                }
            }
        }
        Ok(KvStore { index, segments: all, stale, model: Ghost(model) })
    }

    /// Copies the live records into a new segment `a + 1`, points the index
    /// there, starts an empty active segment `a + 2`, drops every older
    /// segment, and clears the waste counter (`a` is the active generation).
    fn compact_now(&mut self) -> (ops: Vec<SegmentOp>)
        requires
            old(self).wf(),
            old(self).active() <= u64::MAX - 2,
        ensures
            final(self).wf(),
            final(self)@ == old(self)@,
            final(self).compacted_from(old(self).active()),
            final(self).files() == apply_ops(old(self).files(), ops@),
            compaction_ops(ops@, old(self).active()),
    {
        let a = self.segments[self.segments.len() - 1].gen;
        let cg = a + 1;
        let ng = a + 2;
        let entries = index_snapshot(&self.index);
        let ghost old_index = index_entries(self.index);
        let ghost files = self.files();
        let ghost model = self.model@;
        let ghost segs = self.segments@;
        let mut out: Vec<u8> = Vec::new();
        let ghost mut done: Seq<Record> = Seq::empty();
        let ghost mut seen: Set<Seq<char>> = Set::empty();
        let ghost mut keys: Seq<Seq<char>> = Seq::empty();
        proof {
            assert(records_end(out@, 0) == 0);
            assert(records_from(out@, 0) =~= Seq::<Record>::empty());
            assert(model.restrict(seen) =~= Map::empty());
        }
        let mut j: usize = 0;
        while j < entries.len()
            invariant
                self.segments@ == segs,
                self.model@ == model,
                self.stale == old(self).stale,
                files == files_of(segs),
                increasing(segs),
                segs.len() >= 1,
                a == segs.last().gen,
                cg == a + 1,
                old_index.dom() == model.dom(),
                forall|k: Seq<char>| #[trigger]
                    old_index.contains_key(k) ==> points_to(files, old_index[k], k, model[k]),
                forall|i: int| 0 <= i < entries@.len() ==> #[trigger] old_index.contains_key(entries@[i].0@)
                    && old_index[entries@[i].0@] == entries@[i].1,
                forall|x: int, y: int| 0 <= x < y < entries@.len() ==> entries@[x].0@ != entries@[y].0@,
                forall|k: Seq<char>| #[trigger] old_index.contains_key(k) ==> exists|i: int| 0 <= i < entries@.len() && entries@[i].0@ == k,
                j <= entries@.len(),
                forall|k: Seq<char>| #[trigger] seen.contains(k) <==> exists|i: int| 0 <= i < j && entries@[i].0@ == k,
                index_entries(self.index).dom() == model.dom(),
                forall|k: Seq<char>| #[trigger]
                    index_entries(self.index).contains_key(k) ==> if seen.contains(k) {
                        points_to(map![cg => out@], index_entries(self.index)[k], k, model[k])
                    } else {
                        index_entries(self.index)[k] == old_index[k]
                    },
                is_whole(out@),
                records_from(out@, 0) == done,
                apply_records(Map::empty(), done) == model.restrict(seen),
                records_waste(0, Map::empty(), done) == 0,
                keys.len() == j,
                forall|i: int| 0 <= i < j ==> #[trigger] keys[i] == entries@[i].0@,
                out@ == concat_puts(keys, model),
                forall|i: int|
                    0 <= i < j ==> #[trigger] index_entries(self.index)[keys[i]] == (CommandPointer {
                        gen: cg,
                        pos: concat_puts(keys.take(i), model).len() as u64,
                        len: put_bytes(keys[i], model[keys[i]]).len() as u64,
                    }),
            decreases entries@.len() - j,
        {
            let key = entries[j].0.clone();
            let p = entries[j].1;
            let ghost k = key@;
            assert(old_index.contains_key(entries@[j as int].0@));
            assert(!seen.contains(k)) by {
                if seen.contains(k) {
                    let i = choose|i: int| 0 <= i < j && entries@[i].0@ == k;
                    assert(entries@[i].0@ != entries@[j as int].0@);
                }
            }
            let s = match self.slot_of(p.gen) {
                Some(s) => s,
                None => {
                    proof {
                        assert(points_to(files, old_index[k], k, model[k]));
                    }
                    return Vec::new();
                },
            };
            proof {
                lemma_files_at(segs, s as int);
                assert(old_index[k] == p);
                assert(points_to(files, p, k, model[k]));
            }
            assert(self.segments[s as int].data@.len() <= usize::MAX) by {
                let _ = self.segments[s as int].data.len();
            }
            let ghost before = out@;
            let start = out.len();
            copy_range(&mut out, &self.segments[s].data, p.pos as usize, (p.pos + p.len) as usize);
            let end = out.len();
            let ghost rec = Record::Put { key: k, val: model[k] };
            proof {
                assert(out@ == before + put_bytes(k, model[k]));
                lemma_append_record(before, rec);
                lemma_apply_records_push(Map::empty(), done, rec);
                assert(done.push(rec).drop_last() =~= done);
                assert(!model.restrict(seen).contains_key(k));
            }
            let _ = index_insert(&mut self.index, key, CommandPointer::new(cg, start as u64, end as u64));
            proof {
                let keys0 = keys;
                keys = keys.push(k);
                assert(keys.drop_last() =~= keys0);
                assert(keys.take(j as int) =~= keys0);
                assert forall|i: int| 0 <= i < j + 1 implies #[trigger] index_entries(self.index)[keys[i]] == (CommandPointer {
                        gen: cg,
                        pos: concat_puts(keys.take(i), model).len() as u64,
                        len: put_bytes(keys[i], model[keys[i]]).len() as u64,
                    }) by {
                    if i < j {
                        assert(keys[i] == keys0[i]);
                        assert(keys.take(i) =~= keys0.take(i));
                        assert(entries@[i].0@ != entries@[j as int].0@);
                    }
                }
                let seen0 = seen;
                done = done.push(rec);
                seen = seen.insert(k);
                assert(index_entries(self.index).dom() =~= model.dom());
                assert(model.restrict(seen) =~= model.restrict(seen0).insert(k, model[k]));
                assert(out@.subrange(start as int, end as int) =~= put_bytes(k, model[k]));
                assert forall|q: Seq<char>| #[trigger]
                    index_entries(self.index).contains_key(q) implies if seen.contains(q) {
                        points_to(map![cg => out@], index_entries(self.index)[q], q, model[q])
                    } else {
                        index_entries(self.index)[q] == old_index[q]
                    } by {
                    if q != k && seen0.contains(q) {
                        let pq = index_entries(self.index)[q];
                        lemma_has_at_extend(before, put_bytes(k, model[k]), pq.pos as int, put_bytes(q, model[q]));
                    }
                }
                assert forall|q: Seq<char>| #[trigger] seen.contains(q) <==> exists|i: int| 0 <= i < j + 1 && entries@[i].0@ == q by {
                    if q == k {
                        assert(entries@[j as int].0@ == q);
                    }
                }
            }
            j = j + 1;
        }
        proof {
            assert forall|q: Seq<char>| seen.contains(q) <==> model.dom().contains(q) by {
                if seen.contains(q) {
                    let i = choose|i: int| 0 <= i < j && entries@[i].0@ == q;
                    assert(old_index.contains_key(entries@[i].0@));
                }
                if model.dom().contains(q) {
                    assert(old_index.contains_key(q));
                    let i = choose|i: int| 0 <= i < entries@.len() && entries@[i].0@ == q;
                    assert(seen.contains(q));
                }
            }
            assert(seen =~= model.dom());
            assert(model.restrict(seen) =~= model);
            assert(keys.no_duplicates()) by {
                assert forall|x: int, y: int| 0 <= x < keys.len() && 0 <= y < keys.len() && x != y implies keys[x] != keys[y] by {
                    if x < y {
                        assert(entries@[x].0@ != entries@[y].0@);
                    } else {
                        assert(entries@[y].0@ != entries@[x].0@);
                    }
                }
            }
            assert forall|q: Seq<char>| #[trigger] index_entries(self.index).contains_key(q) <==> keys.contains(q) by {
                if keys.contains(q) {
                    let i = choose|i: int| 0 <= i < keys.len() && keys[i] == q;
                    assert(seen.contains(q));
                }
                if index_entries(self.index).contains_key(q) {
                    assert(seen.contains(q));
                    let i = choose|i: int| 0 <= i < j && entries@[i].0@ == q;
                    assert(keys[i] == q);
                }
            }
            assert(packed(out@, keys, model, index_entries(self.index), cg));
        }
        let mut image: Vec<u8> = Vec::new();
        append_bytes(&mut image, out.as_slice());
        let mut ops: Vec<SegmentOp> = Vec::new();
        ops.push(SegmentOp::Append { gen: cg, bytes: image });
        ops.push(SegmentOp::Append { gen: ng, bytes: Vec::new() });
        let ghost mut rest = files.insert(cg, out@).insert(ng, Seq::empty());
        proof {
            assert forall|g: u64| files.contains_key(g) implies g <= a by {
                lemma_files_dom(segs, g);
                let x = choose|x: int| 0 <= x < segs.len() && segs[x].gen == g;
                if x < segs.len() - 1 {
                    assert(segs[x].gen < segs[segs.len() - 1].gen);
                }
            }
            let o = ops@;
            assert(o.drop_last() =~= seq![o[0]]);
            assert(seq![o[0]].drop_last() =~= Seq::<SegmentOp>::empty());
            assert(apply_ops(files, Seq::<SegmentOp>::empty()) == files);
            assert(seq![o[0]].last() == o[0]);
            assert(apply_ops(files, seq![o[0]]) == apply_op(files, o[0]));
            assert(!files.contains_key(cg));
            let f1 = files.insert(cg, out@);
            assert(Seq::<u8>::empty() + out@ =~= out@);
            assert(apply_op(files, o[0]) =~= f1);
            assert(!f1.contains_key(ng));
            assert(Seq::<u8>::empty() + Seq::<u8>::empty() =~= Seq::<u8>::empty());
            assert(apply_ops(files, ops@) == rest);
            assert forall|g: u64| #[trigger] rest.contains_key(g) <==> (g == cg || g == ng || exists|x: int| 0 <= x < segs.len() && segs[x].gen == g) by {
                lemma_files_dom(segs, g);
            }
            assert(compaction_ops(ops@, a));
        }
        let mut i: usize = 0;
        while i < self.segments.len()
            invariant
                self.segments@ == segs,
                i <= segs.len(),
                increasing(segs),
                segs.len() >= 1,
                a == segs.last().gen,
                cg == a + 1,
                ng == a + 2,
                apply_ops(files, ops@) == rest,
                forall|g: u64| #[trigger] rest.contains_key(g) <==> (g == cg || g == ng || exists|x: int| i <= x < segs.len() && segs[x].gen == g),
                rest.contains_key(cg),
                rest[cg] == out@,
                rest.contains_key(ng),
                rest[ng] == Seq::<u8>::empty(),
                compaction_ops(ops@, a),
                ops@.len() == i + 2,
            decreases segs.len() - i,
        {
            let g = self.segments[i].gen;
            let ghost ops0 = ops@;
            ops.push(SegmentOp::Delete { gen: g });
            proof {
                assert(g <= a) by {
                    if i < segs.len() - 1 {
                        assert(segs[i as int].gen < segs[segs.len() - 1].gen);
                    }
                }
                assert(ops@.drop_last() =~= ops0);
                assert(forall|x: int| 0 <= x < ops0.len() ==> ops@[x] == ops0[x]);
                rest = rest.remove(g);
                assert forall|q: u64| #[trigger] rest.contains_key(q) <==> (q == cg || q == ng || exists|x: int| i + 1 <= x < segs.len() && segs[x].gen == q) by {
                    if exists|x: int| i <= x < segs.len() && segs[x].gen == q {
                        let x = choose|x: int| i <= x < segs.len() && segs[x].gen == q;
                        if x == i {
                        } else {
                            assert(segs[i as int].gen < segs[x].gen);
                        }
                    }
                }
            }
            i = i + 1;
        }
        let mut fresh: Vec<Segment> = Vec::new();
        fresh.push(Segment { gen: cg, data: out });
        fresh.push(Segment { gen: ng, data: Vec::new() });
        self.segments = fresh;
        self.stale = 0;
        proof {
            let c = self.segments@[0];
            let n = self.segments@[1];
            assert(seq![c].push(n) =~= self.segments@);
            assert(Seq::<Segment>::empty().push(c) =~= seq![c]);
            lemma_replay_push(seq![c], n);
            lemma_replay_push(Seq::<Segment>::empty(), c);
            assert(records_from(n.data@, 0) =~= Seq::<Record>::empty());
            assert(records_end(n.data@, 0) == 0);
            assert(replay(Seq::<Segment>::empty()) == Map::<Seq<char>, Seq<char>>::empty());
            assert(replay_waste(Seq::<Segment>::empty()) == 0);
            assert(seq![c].drop_last() =~= Seq::<Segment>::empty());
            assert(self.segments@.drop_last() =~= seq![c]);
            assert(replay_waste(seq![c]) == records_waste(0, Map::empty(), done));
            assert(replay_waste(self.segments@) == replay_waste(seq![c]));
            assert(rest =~= files_of(self.segments@));
            assert(self.files().dom() =~= set![cg, ng]);
            assert(self.files()[cg] == out@);
            assert(packed(self.files()[cg], keys, self@, self.index(), cg));
            assert forall|k: Seq<char>| #[trigger]
                self.index().contains_key(k) implies points_to(self.files(), self.index()[k], k, model[k]) by {
                assert(seen.contains(k));
            }
        }
        ops
    }

    /// Appends `bytes` to the active segment; returns where they start and end.
    fn append_active(&mut self, bytes: &[u8]) -> (r: (u64, u64))
        requires
            old(self).segments@.len() >= 1,
        ensures
            final(self).index == old(self).index,
            final(self).stale == old(self).stale,
            final(self).model == old(self).model,
            final(self).segments@.len() == old(self).segments@.len(),
            final(self).segments@.drop_last() == old(self).segments@.drop_last(),
            final(self).segments@.last().gen == old(self).segments@.last().gen,
            final(self).segments@.last().data@ == old(self).segments@.last().data@ + bytes@,
            r.0 == old(self).segments@.last().data@.len(),
            r.1 == final(self).segments@.last().data@.len(),
    {
        let mut seg = match self.segments.pop() {
            Some(seg) => seg,
            None => return (0, 0),
        };
        let start = seg.data.len() as u64;
        append_bytes(&mut seg.data, bytes);
        let end = seg.data.len() as u64;
        self.segments.push(seg);
        (start, end)
    }

    /// Facts about a store whose active segment grew by the bytes of `r`.
    proof fn lemma_grown(s0: Seq<Segment>, s1: Seq<Segment>, r: Record)
        requires
            s0.len() >= 1,
            s1.len() == s0.len(),
            s1.drop_last() == s0.drop_last(),
            s1.last().gen == s0.last().gen,
            s1.last().data@ == s0.last().data@ + encode_record(r),
            increasing(s0),
            is_whole(s0.last().data@),
        ensures
            increasing(s1),
            is_whole(s1.last().data@),
            replay(s1) == apply_record(replay(s0), r),
            replay_waste(s1) == record_waste(replay_waste(s0), replay(s0), r),
            files_of(s0).contains_key(s0.last().gen),
            files_of(s0)[s0.last().gen] == s0.last().data@,
            files_of(s1) == files_of(s0).insert(s0.last().gen, s1.last().data@),
    {
        let d = s0.drop_last();
        assert(s0 =~= d.push(s0.last()));
        assert(s1 =~= d.push(s1.last()));
        lemma_replay_push(d, s0.last());
        lemma_replay_push(d, s1.last());
        lemma_append_record(s0.last().data@, r);
        lemma_apply_records_push(replay(d), records_from(s0.last().data@, 0), r);
        assert(records_from(s0.last().data@, 0).push(r).drop_last() =~= records_from(s0.last().data@, 0));
        assert(files_of(s1) =~= files_of(s0).insert(s0.last().gen, s1.last().data@));
        assert forall|x: int, y: int| 0 <= x < y < s1.len() implies s1[x].gen < s1[y].gen by {
            assert(s0[x].gen < s0[y].gen);
            if y < s1.len() - 1 {
                assert(s1[y] == d[y]);
            }
            assert(s1[x] == d[x]);
        }
    }

    /// Sets `key` to `val`: appends a `Put` record to the active segment,
    /// points the index at it, and counts the bytes of the record it replaces
    /// as waste. Compacts when the waste reaches the threshold.
    pub fn set(&mut self, key: String, val: String) -> (ops: Vec<SegmentOp>)
        requires
            old(self).wf(),
        ensures
            final(self).wf(),
            final(self)@ == old(self)@.insert(key@, val@),
            final(self).files() == apply_ops(old(self).files(), ops@),
            ({
                let w = record_waste(old(self).waste(), old(self)@, Record::Put { key: key@, val: val@ });
                if compaction_due(w, old(self).active()) {
                    final(self).compacted_from(old(self).active())
                } else {
                    &&& final(self).active() == old(self).active()
                    &&& final(self).waste() == w
                    &&& final(self).files() == old(self).files().insert(
                        old(self).active(),
                        old(self).files()[old(self).active()] + put_bytes(key@, val@),
                    )
                    &&& final(self).index() == old(self).index().insert(
                        key@,
                        CommandPointer {
                            gen: old(self).active(),
                            pos: old(self).files()[old(self).active()].len() as u64,
                            len: put_bytes(key@, val@).len() as u64,
                        },
                    )
                    &&& ops@.len() == 1
                }
            }),
            ops@.len() >= 1,
            is_append(ops@[0], old(self).active(), put_bytes(key@, val@)),
            ops@.len() > 1 ==> compaction_ops(ops@.drop_first(), old(self).active()),
    {
        let ghost k = key@;
        let ghost v = val@;
        let ghost s0 = self.segments@;
        let ghost f0 = self.files();
        let ghost i0 = self.index();
        let ghost m0 = self.model@;
        let c = Command::Put { key, val };
        let bytes = encode(&c);
        let key = match c {
            Command::Put { key, .. } => key,
            Command::Remove { key } => key,
        };
        let gen = self.segments[self.segments.len() - 1].gen;
        proof {
            if i0.contains_key(k) {
                assert(points_to(f0, i0[k], k, m0[k]));
            }
        }
        let (start, end) = self.append_active(bytes.as_slice());
        let prev = index_insert(&mut self.index, key, CommandPointer::new(gen, start, end));
        self.model = Ghost(self.model@.insert(k, v));
        if let Some(q) = prev {
            self.stale = self.stale.saturating_add(q.len);
        }
        proof {
            Self::lemma_grown(s0, self.segments@, Record::Put { key: k, val: v });
            assert(self.index().dom() =~= self.model@.dom());
            assert(self.segments@.last().data@.subrange(start as int, end as int) =~= put_bytes(k, v));
            assert forall|q: Seq<char>| #[trigger]
                self.index().contains_key(q) implies points_to(self.files(), self.index()[q], q, self.model@[q]) by {
                if q != k {
                    let p = i0[q];
                    assert(points_to(f0, p, q, m0[q]));
                    if p.gen == gen {
                        lemma_has_at_extend(s0.last().data@, put_bytes(k, v), p.pos as int, put_bytes(q, m0[q]));
                    }
                }
            }
        }
        let mut ops: Vec<SegmentOp> = Vec::new();
        ops.push(SegmentOp::Append { gen, bytes });
        proof {
            assert(ops@.drop_last() =~= Seq::<SegmentOp>::empty());
            assert(self.index() =~= i0.insert(k, CommandPointer { gen, pos: start, len: (end - start) as u64 }));
            assert(apply_ops(f0, Seq::<SegmentOp>::empty()) == f0);
            assert(apply_ops(f0, ops@) == self.files());
        }
        if self.stale >= COMPACTION_THRESHOLD && gen <= u64::MAX - 2 {
            let ghost first = ops@;
            let mut more = self.compact_now();
            let ghost rest = more@;
            ops.append(&mut more);
            proof {
                lemma_apply_ops_concat(f0, first, rest);
                assert(ops@.drop_first() =~= rest);
            }
        }
        ops
    }

    /// Removes `key`: fails with `KeyNotFound`, writing nothing, where the
    /// store does not hold it; otherwise drops its index entry, appends a
    /// `Remove` record, and counts both the dropped record and the new one as
    /// waste. Compacts when the waste reaches the threshold.
    pub fn remove(&mut self, key: String) -> (r: Result<Vec<SegmentOp>>)
        requires
            old(self).wf(),
        ensures
            final(self).wf(),
            !old(self)@.contains_key(key@) ==> (r matches Err(ErrorKind::KeyNotFound) && *final(self)
                == *old(self)),
            old(self)@.contains_key(key@) ==> (r matches Ok(ops) && {
                &&& final(self)@ == old(self)@.remove(key@)
                &&& final(self).files() == apply_ops(old(self).files(), ops@)
                &&& {
                    let w = record_waste(old(self).waste(), old(self)@, Record::Remove { key: key@ });
                    if compaction_due(w, old(self).active()) {
                        final(self).compacted_from(old(self).active())
                    } else {
                        &&& final(self).active() == old(self).active()
                        &&& final(self).waste() == w
                        &&& final(self).files() == old(self).files().insert(
                            old(self).active(),
                            old(self).files()[old(self).active()] + remove_bytes(key@),
                        )
                        &&& final(self).index() == old(self).index().remove(key@)
                        &&& ops@.len() == 1
                    }
                }
                &&& ops@.len() >= 1
                &&& is_append(ops@[0], old(self).active(), remove_bytes(key@))
                &&& ops@.len() > 1 ==> compaction_ops(ops@.drop_first(), old(self).active())
            }),
    {
        let p = match index_get(&self.index, &key) {
            Some(p) => p,
            None => return Err(ErrorKind::KeyNotFound),
        };
        let ghost k = key@;
        let ghost s0 = self.segments@;
        let ghost f0 = self.files();
        let ghost i0 = self.index();
        let ghost m0 = self.model@;
        proof {
            assert(points_to(f0, i0[k], k, m0[k]));
        }
        let _ = index_remove(&mut self.index, &key);
        self.model = Ghost(self.model@.remove(k));
        let c = Command::Remove { key };
        let bytes = encode(&c);
        let gen = self.segments[self.segments.len() - 1].gen;
        let (start, end) = self.append_active(bytes.as_slice());
        self.stale = self.stale.saturating_add(p.len);
        self.stale = self.stale.saturating_add(end - start);
        proof {
            Self::lemma_grown(s0, self.segments@, Record::Remove { key: k });
            assert(self.index().dom() =~= self.model@.dom());
            assert forall|q: Seq<char>| #[trigger]
                self.index().contains_key(q) implies points_to(self.files(), self.index()[q], q, self.model@[q]) by {
                let pq = i0[q];
                assert(points_to(f0, pq, q, m0[q]));
                if pq.gen == gen {
                    lemma_has_at_extend(s0.last().data@, remove_bytes(k), pq.pos as int, put_bytes(q, m0[q]));
                }
            }
        }
        let mut ops: Vec<SegmentOp> = Vec::new();
        ops.push(SegmentOp::Append { gen, bytes });
        proof {
            assert(ops@.drop_last() =~= Seq::<SegmentOp>::empty());
            assert(self.index() =~= i0.remove(k));
            assert(apply_ops(f0, Seq::<SegmentOp>::empty()) == f0);
            assert(apply_ops(f0, ops@) == self.files());
        }
        if self.stale >= COMPACTION_THRESHOLD && gen <= u64::MAX - 2 {
            let ghost first = ops@;
            let mut more = self.compact_now();
            let ghost rest = more@;
            ops.append(&mut more);
            proof {
                lemma_apply_ops_concat(f0, first, rest);
                assert(ops@.drop_first() =~= rest);
            }
        }
        Ok(ops)
    }

    /// Compacts the store (see `compacted_from`); a store whose generation
    /// numbers are used up is left as it is.
    pub fn compact(&mut self) -> (ops: Vec<SegmentOp>)
        requires
            old(self).wf(),
        ensures
            final(self).wf(),
            final(self)@ == old(self)@,
            final(self).files() == apply_ops(old(self).files(), ops@),
            old(self).active() <= u64::MAX - 2 ==> final(self).compacted_from(old(self).active())
                && compaction_ops(ops@, old(self).active()),
            old(self).active() > u64::MAX - 2 ==> *final(self) == *old(self) && ops@.len() == 0,
    {
        if self.segments[self.segments.len() - 1].gen > u64::MAX - 2 {
            let ops: Vec<SegmentOp> = Vec::new();
            assert(apply_ops(self.files(), ops@) == self.files());
            return ops;
        }
        self.compact_now()
    }

    /// The active generation.
    pub fn active_generation(&self) -> (r: u64)
        requires
            self.wf(),
        ensures
            r == self.active(),
    {
        self.segments[self.segments.len() - 1].gen
    }

    /// The wasted-bytes counter.
    pub fn stale_bytes(&self) -> (r: u64)
        ensures
            r == self.waste(),
    {
        self.stale
    }

    /// The segments, oldest first; the last is the active one.
    pub fn segment_images(&self) -> (r: &Vec<Segment>)
        ensures
            r@ == self.segments(),
    {
        &self.segments
    }

    /// The value of `key`, read and decoded from the segment its pointer names;
    /// `None` where the store does not hold the key.
    pub fn get(&self, key: String) -> (r: Result<Option<String>>)
        requires
            self.wf(),
        ensures
            self@.contains_key(key@) ==> (r matches Ok(Some(v)) && v@ == self@[key@]),
            !self@.contains_key(key@) ==> r matches Ok(None),
    {
        let p = match index_get(&self.index, &key) {
            Some(p) => p,
            None => return Ok(None),
        };
        let j = match self.slot_of(p.gen) {
            Some(j) => j,
            None => return Err(ErrorKind::ReadFail),
        };
        let data = &self.segments[j].data;
        proof {
            lemma_files_at(self.segments@, j as int);
        }
        if p.pos > data.len() as u64 {
            return Err(ErrorKind::ReadFail);
        }
        proof {
            lemma_parse_encoded(data@, p.pos as int, Record::Put { key: key@, val: self@[key@] });
        }
        match decode_at(data.as_slice(), p.pos as usize) {
            Some((Command::Put { val, .. }, _)) => Ok(Some(val)),
            _ => Err(ErrorKind::ReadFail),
        }
    }
}

/// For every key in the index, the bytes at its pointer decode to a `Put`
/// record of that key, holding the key's value, and end where the pointer ends.
pub proof fn lemma_index_points_to_put(s: KvStore, k: Seq<char>)
    requires
        s.wf(),
        s.index().contains_key(k),
    ensures
        ({
            let p = s.index()[k];
            &&& s.files().contains_key(p.gen)
            &&& parse_record(s.files()[p.gen], p.pos as int) == Some(
                (Record::Put { key: k, val: s@[k] }, p.pos + p.len),
            )
        }),
{
    let p = s.index()[k];
    assert(points_to(s.files(), p, k, s@[k]));
    lemma_parse_encoded(s.files()[p.gen], p.pos as int, Record::Put { key: k, val: s@[k] });
}

/// What a well-formed store holds: its segments have increasing generations,
/// the last being the active one; the files are those segments; the index
/// holds the live keys, each pointing at the `Put` record of its value; and the
/// active segment is whole records.
pub proof fn lemma_store_facts(s: KvStore)
    requires
        s.wf(),
    ensures
        s.segments().len() >= 1,
        increasing(s.segments()),
        s.active() == s.segments().last().gen,
        s.files() == files_of(s.segments()),
        s.files().contains_key(s.active()),
        is_whole(s.files()[s.active()]),
        s.index().dom() == s@.dom(),
        forall|k: Seq<char>| #[trigger]
            s.index().contains_key(k) ==> points_to(s.files(), s.index()[k], k, s@[k]),
        forall|k: Seq<char>| #[trigger]
            s.index().contains_key(k) ==> s.index()[k].len == put_bytes(k, s@[k]).len(),
{
    lemma_files_at(s.segments(), s.segments().len() - 1);
    assert forall|k: Seq<char>| #[trigger] s.index().contains_key(k) implies s.index()[k].len
        == put_bytes(k, s@[k]).len() by {
        assert(points_to(s.files(), s.index()[k], k, s@[k]));
    }
}

/// Replaying a store's segments from the start, which is what opening them
/// again does, gives back the store's mapping and its waste counter. The
/// segments' generations increase, the newest being the active one, so opening
/// them again succeeds while that generation is below `u64::MAX`.
pub proof fn lemma_reopen_same_state(s: KvStore)
    requires
        s.wf(),
    ensures
        replay(s.segments()) == s@,
        replay_waste(s.segments()) == s.waste(),
        increasing(s.segments()),
        s.segments().len() >= 1,
        s.segments().last().gen == s.active(),
{
}

/// Applying two lists of operations is applying the first, then the second.
pub proof fn lemma_apply_ops_concat(f: Map<u64, Seq<u8>>, x: Seq<SegmentOp>, y: Seq<SegmentOp>)
    ensures
        apply_ops(f, x + y) == apply_ops(apply_ops(f, x), y),
    decreases y.len(),
{
    if y.len() == 0 {
        assert(x + y =~= x);
    } else {
        assert((x + y).drop_last() =~= x + y.drop_last());
        lemma_apply_ops_concat(f, x, y.drop_last());
    }
}

proof fn lemma_has_at_extend(b: Seq<u8>, x: Seq<u8>, i: int, p: Seq<u8>)
    requires
        has_at(b, i, p),
    ensures
        has_at(b + x, i, p),
{
    assert((b + x).subrange(i, i + p.len()) =~= b.subrange(i, i + p.len()));
}

fn copy_range(out: &mut Vec<u8>, src: &Vec<u8>, from: usize, to: usize)
    requires
        from <= to <= src@.len(),
    ensures
        final(out)@ == old(out)@ + src@.subrange(from as int, to as int),
{
    let mut i: usize = from;
    while i < to
        invariant
            from <= i <= to,
            to <= src@.len(),
            out@ == old(out)@ + src@.subrange(from as int, i as int),
        decreases to - i,
    {
        out.push(src[i]);
        i = i + 1;
        assert(src@.subrange(from as int, i as int) =~= src@.subrange(from as int, i - 1).push(src@[i - 1]));
    }
}

} // verus!
