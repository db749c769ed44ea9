use vstd::prelude::*;
use vstd::hash_map::StringHashMap;

use crate::common::{Command, OffSet};
use crate::error::{Error, ErrorKind, Result};
use crate::model::{after, lemma_partitions_independent, replay_all, restricted};
use crate::segment::{ascending, insert_sorted};
use crate::writer::PosWriter;

verus! {

/// Obsolete bytes beyond which a write asks for a compaction.
pub const COMPACT_THRESHOLD: u64 = 16 * 1024 * 1024;

/// The total length of the records that the entries locate.
pub open spec fn sum_lens(s: Seq<(String, OffSet)>) -> int
    decreases s.len(),
{
    if s.len() == 0 {
        0
    } else {
        sum_lens(s.drop_last()) + s.last().1.spec_len()
    }
}

proof fn lemma_sum_lens_monotone(s: Seq<(String, OffSet)>, i: int)
    requires
        0 <= i <= s.len(),
    ensures
        sum_lens(s.subrange(0, i)) <= sum_lens(s),
    decreases s.len() - i,
{
    if i < s.len() {
        lemma_sum_lens_monotone(s, i + 1);
        assert(s.subrange(0, i + 1).drop_last() == s.subrange(0, i));
    } else {
        assert(s.subrange(0, i) == s);
    }
}

/// `x` where it fits in `u64`, else `u64::MAX`.
pub open spec fn capped(x: int) -> u64 {
    if x > u64::MAX {
        u64::MAX
    } else {
        x as u64
    }
}

proof fn lemma_sum_lens_update(s: Seq<(String, OffSet)>, i: int, x: (String, OffSet))
    requires
        0 <= i < s.len(),
    ensures
        sum_lens(s.update(i, x)) == sum_lens(s) - s[i].1.spec_len() + x.1.spec_len(),
    decreases s.len(),
{
    if i < s.len() - 1 {
        lemma_sum_lens_update(s.drop_last(), i, x);
        assert(s.update(i, x).drop_last() == s.drop_last().update(i, x));
    } else {
        assert(s.update(i, x).drop_last() == s.drop_last());
    }
}

proof fn lemma_sum_lens_push(s: Seq<(String, OffSet)>, x: (String, OffSet))
    ensures
        sum_lens(s.push(x)) == sum_lens(s) + x.1.spec_len(),
{
    assert(s.push(x).drop_last() == s);
}

proof fn lemma_sum_lens_same_lens(s: Seq<(String, OffSet)>, t: Seq<(String, OffSet)>)
    requires
        s.len() == t.len(),
        forall|j: int| 0 <= j < s.len() ==> #[trigger] s[j].1.spec_len() == t[j].1.spec_len(),
    ensures
        sum_lens(s) == sum_lens(t),
    decreases s.len(),
{
    if s.len() > 0 {
        lemma_sum_lens_same_lens(s.drop_last(), t.drop_last());
        assert(s[s.len() - 1].1.spec_len() == t[t.len() - 1].1.spec_len());
    }
}

/// The records after a compaction's copies: each destination holds the
/// record of its source.
pub open spec fn moved_records(recs: Map<OffSet, Command>, moves: Seq<(OffSet, OffSet)>) -> Map<
    OffSet,
    Command,
>
    decreases moves.len(),
{
    if moves.len() == 0 {
        recs
    } else {
        moved_records(recs, moves.drop_last()).insert(moves.last().1, recs[moves.last().0])
    }
}

proof fn lemma_moved_records(
    recs: Map<OffSet, Command>,
    moves: Seq<(OffSet, OffSet)>,
    compact_no: u64,
    total: u64,
)
    requires
        forall|j: int| #![trigger moves[j]]
            0 <= j < moves.len() ==> moves[j].1.spec_no() == compact_no && moves[j].1.spec_len() > 0
                && moves[j].1.spec_end() <= total,
        forall|a: int, b: int|
            0 <= a < b < moves.len() ==> #[trigger] moves[a].1.spec_end() <= #[trigger] moves[b].1.spec_start(),
        forall|o: OffSet| #[trigger] recs.contains_key(o) ==> o.spec_no() != compact_no,
    ensures
        forall|j: int| #![trigger moves[j]]
            0 <= j < moves.len() ==> moved_records(recs, moves).contains_key(moves[j].1)
                && moved_records(recs, moves)[moves[j].1] == recs[moves[j].0],
        forall|o: OffSet| #[trigger]
            recs.contains_key(o) ==> moved_records(recs, moves).contains_key(o) && moved_records(
                recs,
                moves,
            )[o] == recs[o],
        forall|o: OffSet| #[trigger]
            moved_records(recs, moves).contains_key(o) ==> recs.contains_key(o) || (o.spec_no()
                == compact_no && o.spec_len() > 0 && o.spec_end() <= total),
    decreases moves.len(),
{
    if moves.len() > 0 {
        let init = moves.drop_last();
        let last = moves.len() - 1;
        assert forall|a: int, b: int|
            0 <= a < b < init.len() implies #[trigger] init[a].1.spec_end() <= #[trigger] init[b].1.spec_start() by {
            assert(moves[a].1.spec_end() <= moves[b].1.spec_start());
        }
        assert forall|j: int| #![trigger init[j]]
            0 <= j < init.len() implies init[j].1.spec_no() == compact_no && init[j].1.spec_len() > 0
                && init[j].1.spec_end() <= total by {
            assert(moves[j] == init[j]);
        }
        lemma_moved_records(recs, init, compact_no, total);
        assert(moves[last].1.spec_no() == compact_no);
        assert forall|j: int| #![trigger moves[j]]
            0 <= j < moves.len() implies moved_records(recs, moves).contains_key(moves[j].1)
                && moved_records(recs, moves)[moves[j].1] == recs[moves[j].0] by {
            if j < last {
                assert(init[j] == moves[j]);
                assert(moves[j].1.spec_end() <= moves[last].1.spec_start());
                assert(moves[j].1 != moves[last].1);
            }
        }
        assert forall|o: OffSet| #[trigger] moved_records(recs, moves).contains_key(o) implies recs.contains_key(o)
            || (o.spec_no() == compact_no && o.spec_len() > 0 && o.spec_end() <= total) by {
            if o != moves[last].1 {
                assert(moved_records(recs, init).contains_key(o));
            }
        }
    }
}

/// The index after the records `rs`, each at its locator, taken in order.
pub open spec fn index_replay(index: Map<Seq<char>, OffSet>, rs: Seq<(Command, OffSet)>) -> Map<
    Seq<char>,
    OffSet,
>
    decreases rs.len(),
{
    if rs.len() == 0 {
        index
    } else {
        index_after(index_replay(index, rs.drop_last()), rs.last().0, rs.last().1)
    }
}

/// The obsolete-byte count after the records `rs`, each at its locator,
/// taken in order over the index `index`.
pub open spec fn wild_replay(wild: u64, index: Map<Seq<char>, OffSet>, rs: Seq<(Command, OffSet)>) -> u64
    decreases rs.len(),
{
    if rs.len() == 0 {
        wild
    } else {
        wild_after(
            wild_replay(wild, index, rs.drop_last()),
            index_replay(index, rs.drop_last()),
            rs.last().0,
            rs.last().1,
        )
    }
}

/// The total length of the records `rs`.
pub open spec fn lens_of(rs: Seq<(Command, OffSet)>) -> int
    decreases rs.len(),
{
    if rs.len() == 0 {
        0
    } else {
        lens_of(rs.drop_last()) + rs.last().1.spec_len()
    }
}

/// Records of one segment that follow each other: each starts where the
/// one before it ended, or later, and none is empty or runs past `u64::MAX`.
pub open spec fn back_to_back(rs: Seq<(Command, OffSet)>) -> bool {
    &&& forall|j: int| 0 <= j < rs.len() ==> #[trigger] rs[j].1.spec_len() > 0 && rs[j].1.spec_end() <= u64::MAX
    &&& forall|j: int|
        0 <= j < rs.len() - 1 ==> #[trigger] rs[j + 1].1.spec_no() == rs[j].1.spec_no()
            && rs[j + 1].1.spec_start() >= rs[j].1.spec_end()
}

/// What a compaction promises, from the state `o` before it to `s` after
/// it, with the plan `c` it handed out: every live record moves, with its
/// length, into segment `c.compact_no`, back to back from offset 0; writes
/// go on in segment `c.active_no`; the dictionary is the same; no obsolete
/// byte is left; and every earlier segment is to be deleted.
#[verifier::opaque]
pub open spec fn compacted(o: KvStore, s: KvStore, c: Compaction) -> bool {
    &&& c.compact_no == o.spec_current_no() + 1
    &&& c.active_no == o.spec_current_no() + 2
    &&& s.spec_current_no() == c.active_no
    &&& s@ == o@
    &&& s.spec_wild() == 0
    &&& s.live_bytes() == o.live_bytes()
    &&& s.spec_logged() == o.live_bytes()
    &&& s.spec_segments() == seq![c.compact_no, c.active_no]
    &&& c.obsolete@ == o.spec_segments()
    &&& s.spec_writer().spec_pos() == 0
    &&& s.spec_writer().spec_pending() == Seq::<u8>::empty()
    &&& s.index().dom() == o.index().dom()
    &&& forall|k: Seq<char>| #[trigger]
        s.index().contains_key(k) ==> {
            &&& s.index()[k].spec_no() == c.compact_no
            &&& s.index()[k].spec_len() == o.index()[k].spec_len()
            &&& 0 <= o.slot_of(k) < c.moves@.len()
            &&& o.key_at(o.slot_of(k)) == k
        }
    &&& forall|i: int| #![trigger c.moves@[i]]
        0 <= i < c.moves@.len() ==> {
            &&& o.index().contains_key(o.key_at(i))
            &&& c.moves@[i] == (
                o.index()[o.key_at(i)],
                s.index()[o.key_at(i)],
            )
        }
    &&& forall|i: int| #![trigger c.moves@[i]]
        0 <= i < c.moves@.len() ==> {
            &&& c.moves@[i].1.spec_no() == c.compact_no
            &&& c.moves@[i].1.spec_len() == c.moves@[i].0.spec_len()
        }
    &&& forall|i: int| #![trigger c.moves@[i].1.spec_start()]
        0 <= i < c.moves@.len() ==> {
            &&& i == 0 ==> c.moves@[i].1.spec_start() == 0
            &&& i > 0 ==> c.moves@[i].1.spec_start() == c.moves@[i - 1].1.spec_end()
        }
}

/// What a compaction leaves for the files: the live records to copy, each
/// from its old locator to its new one in segment `compact_no`, in order
/// and back to back from offset 0; the segment `active_no` that writes go to
/// from now on; and the segments to delete once the copies are flushed.
pub struct Compaction {
    pub compact_no: u64,
    pub active_no: u64,
    pub moves: Vec<(OffSet, OffSet)>,
    pub obsolete: Vec<u64>,
}

/// The storage engine's state, apart from the files themselves: the index
/// from each live key to the locator of its latest `Put` record, the count
/// of obsolete bytes, the segments on disk and the writer of the active one.
///
/// The index is a table of entries with a hash map from key to slot, so that
/// a compaction can walk it. Beside it stand, as ghost state, the dictionary
/// that the store holds, the record taken in at each locator, and the length
/// of the records taken in. For each segment, `ends` holds the end of the
/// last record taken in there, so that records never overlap; and each key
/// of the index is located at a `Put` of that key with the dictionary's
/// value.
pub struct KvStore {
    slots: StringHashMap<usize>,
    entries: Vec<(String, OffSet)>,
    contents: Ghost<Map<Seq<char>, Seq<char>>>,
    segments: Vec<u64>,
    current_no: u64,
    writer: PosWriter,
    wild: u64,
    logged: Ghost<int>,
    ends: Vec<u64>,
    records: Ghost<Map<OffSet, Command>>,
}

impl View for KvStore {
    type V = Map<Seq<char>, Seq<char>>;

    /// The dictionary that the store holds.
    closed spec fn view(&self) -> Map<Seq<char>, Seq<char>> {
        self.contents@
    }
}

impl KvStore {
    /// The index: each live key to the locator of its record.
    pub closed spec fn index(self) -> Map<Seq<char>, OffSet> {
        Map::new(|k: Seq<char>| self.slots@.contains_key(k), |k: Seq<char>| self.entries@[self.slots@[k] as int].1)
    }

    pub closed spec fn spec_wild(self) -> u64 {
        self.wild
    }

    pub closed spec fn spec_current_no(self) -> u64 {
        self.current_no
    }

    /// The generations of the segments on disk, ascending.
    pub closed spec fn spec_segments(self) -> Seq<u64> {
        self.segments@
    }

    pub closed spec fn spec_writer(self) -> PosWriter {
        self.writer
    }

    /// The table and the hash map agree: each key has one slot.
    pub closed spec fn index_wf(self) -> bool {
        &&& forall|k: Seq<char>| #[trigger] self.slots@.contains_key(k) ==> {
            &&& self.slots@[k] < self.entries@.len()
            &&& self.entries@[self.slots@[k] as int].0@ == k
        }
        &&& forall|i: int| 0 <= i < self.entries@.len() ==> {
            &&& #[trigger] self.slots@.contains_key(self.entries@[i].0@)
            &&& self.slots@[self.entries@[i].0@] == i
        }
    }

    /// The record taken in at `off`, if any.
    pub closed spec fn record_at(self, off: OffSet) -> Option<Command> {
        if self.records@.contains_key(off) {
            Some(self.records@[off])
        } else {
            None
        }
    }

    /// Whether a record at `off` may be taken in: it is not empty, it lies
    /// in one of the segments after every record already taken in there,
    /// and, in the active segment, within what was appended.
    pub closed spec fn accepts(self, off: OffSet) -> bool {
        &&& off.spec_len() > 0
        &&& off.spec_end() <= u64::MAX
        &&& exists|i: int|
            0 <= i < self.segments@.len() && self.segments@[i] == off.spec_no()
                && off.spec_start() >= #[trigger] self.ends@[i]
        &&& off.spec_no() == self.current_no ==> off.spec_end() <= self.writer.spec_pos()
    }

    /// The record that the index gives `k` is a `Put` of `k`, with the value
    /// that the dictionary holds for `k`.
    pub closed spec fn located(self, k: Seq<char>) -> bool {
        let off = self.index()[k];
        &&& self.records@.contains_key(off)
        &&& self.records@[off] is Put
        &&& self.records@[off]->Put_key@ == k
        &&& self.records@[off]->Put_value@ == self.contents@[k]
    }

    /// Records taken in never overlap: each lies before its segment's mark.
    pub closed spec fn records_wf(self) -> bool {
        &&& self.ends@.len() == self.segments@.len()
        &&& self.ends@.last() <= self.writer.spec_pos()
        &&& forall|off: OffSet| #[trigger]
            self.records@.contains_key(off) ==> off.spec_len() > 0 && off.spec_no()
                <= self.current_no
        &&& forall|off: OffSet, i: int|
            #![trigger self.records@.contains_key(off), self.segments@[i]]
            self.records@.contains_key(off) && 0 <= i < self.segments@.len() && self.segments@[i]
                == off.spec_no() ==> off.spec_start() < self.ends@[i]
    }

    pub closed spec fn wf(self) -> bool {
        &&& self.index_wf()
        &&& self.records_wf()
        &&& forall|k: Seq<char>| #[trigger] self.index().contains_key(k) ==> self.located(k)
        &&& self.logged@ >= sum_lens(self.entries@)
        &&& self.wild == capped(self.logged@ - sum_lens(self.entries@))
        &&& self.contents@.dom() == self.slots@.dom()
        &&& self.writer.wf()
        &&& ascending(self.segments@)
        &&& self.segments@.len() > 0
        &&& self.segments@.last() == self.current_no
    }
}

impl KvStore {
    /// A store over the segments `generations` (in any order, repeats
    /// allowed), with an empty index, before any of them is replayed. The
    /// active segment is a fresh one, numbered one past the greatest of them
    /// (`1` where there is none); it fails where that number does not fit.
    pub fn open(generations: &Vec<u64>) -> (r: Result<KvStore>)
        ensures
            r is Ok <==> forall|i: int| 0 <= i < generations@.len() ==> generations@[i] < u64::MAX,
            r matches Err(e) ==> e.kind is TypeConversionFailed,
            r matches Ok(s) ==> {
                &&& s.wf()
                &&& s@ == Map::<Seq<char>, Seq<char>>::empty()
                &&& s.index() == Map::<Seq<char>, OffSet>::empty()
                &&& s.spec_wild() == 0
                &&& s.spec_logged() == 0
                &&& s.live_bytes() == 0
                &&& forall|g: u64| #[trigger]
                    s.spec_segments().contains(g) <==> (generations@.contains(g) || g
                        == s.spec_current_no())
                &&& forall|i: int|
                    0 <= i < generations@.len() ==> generations@[i] < s.spec_current_no()
                &&& generations@.len() == 0 ==> s.spec_current_no() == 1
                &&& generations@.len() > 0 ==> generations@.contains((s.spec_current_no() - 1) as u64)
                &&& s.spec_writer().spec_pos() == 0
                &&& s.spec_writer().spec_pending() == Seq::<u8>::empty()
                &&& ascending(s.spec_segments())
                &&& forall|o: OffSet| #[trigger]
                    s.accepts(o) <== generations@.contains(o.spec_no()) && o.spec_len() > 0
                        && o.spec_end() <= u64::MAX
            },
    {
        let mut segments: Vec<u64> = Vec::new();
        let mut i: usize = 0;
        while i < generations.len()
            invariant
                0 <= i <= generations@.len(),
                ascending(segments@),
                forall|x: u64| segments@.contains(x) <==> generations@.subrange(0, i as int).contains(x),
            decreases generations@.len() - i,
        {
            insert_sorted(&mut segments, generations[i]);
            i += 1;
            proof {
                let s = generations@.subrange(0, i as int);
                let p = generations@.subrange(0, i - 1);
                assert(s == p.push(generations@[i - 1]));
                assert forall|x: u64| segments@.contains(x) <==> s.contains(x) by {
                    if s.contains(x) {
                        let j = choose|j: int| 0 <= j < s.len() && s[j] == x;
                        if j < i - 1 {
                            assert(p[j] == x);
                        }
                    }
                    if p.contains(x) {
                        let j = choose|j: int| 0 <= j < p.len() && p[j] == x;
                        assert(s[j] == x);
                    }
                    if x == generations@[i - 1] {
                        assert(s[i - 1] == x);
                    }
                }
            }
        }
        assert(generations@.subrange(0, generations@.len() as int) == generations@);
        let n = segments.len();
        let last: u64 = if n == 0 { 0 } else { segments[n - 1] };
        proof {
            assert forall|j: int| 0 <= j < generations@.len() implies generations@[j] <= last by {
                assert(segments@.contains(generations@[j]));
                let t = choose|t: int| 0 <= t < segments@.len() && segments@[t] == generations@[j];
                if t < n - 1 {
                    assert(segments@[t] < segments@[n - 1]);
                }
            }
            if n > 0 {
                assert(segments@.contains(last));
            }
            if generations@.len() > 0 {
                assert(segments@.contains(generations@[0]));
            }
        }
        if last == u64::MAX {
            return Err(
                Error::new(
                    ErrorKind::TypeConversionFailed(String::from_str("segment number overflow")),
                ),
            );
        }
        let current_no = last + 1;
        let ghost before = segments@;
        segments.push(current_no);
        proof {
            assert forall|x: u64| #[trigger] segments@.contains(x) <==> (before.contains(x) || x == current_no) by {
                if segments@.contains(x) {
                    let j = choose|j: int| 0 <= j < segments@.len() && segments@[j] == x;
                    if j < before.len() {
                        assert(before[j] == x);
                    }
                }
                if before.contains(x) {
                    let j = choose|j: int| 0 <= j < before.len() && before[j] == x;
                    assert(segments@[j] == x);
                }
                assert(segments@[before.len() as int] == current_no);
            }
            assert forall|a: int, b: int| 0 <= a < b < segments@.len() implies segments@[a] < segments@[b] by {
                if b == before.len() {
                    assert(before.contains(before[a]));
                }
            }
        }
        let mut ends: Vec<u64> = Vec::new();
        while ends.len() < segments.len()
            invariant
                ends@.len() <= segments@.len(),
                forall|j: int| 0 <= j < ends@.len() ==> ends@[j] == 0,
            decreases segments@.len() - ends@.len(),
        {
            ends.push(0);
        }
        let store = KvStore {
            slots: StringHashMap::new(),
            entries: Vec::new(),
            contents: Ghost(Map::empty()),
            segments,
            current_no,
            writer: PosWriter::new(0),
            wild: 0,
            logged: Ghost(0),
            ends,
            records: Ghost(Map::empty()),
        };
        assert(store.index() =~= Map::<Seq<char>, OffSet>::empty());
        assert(store.contents@.dom() =~= store.slots@.dom());
        assert forall|o: OffSet|
            generations@.contains(o.spec_no()) && o.spec_len() > 0 && o.spec_end() <= u64::MAX
                implies #[trigger] store.accepts(o) by {
            assert(store.segments@.contains(o.spec_no()));
            let j = choose|j: int| 0 <= j < store.segments@.len() && store.segments@[j] == o.spec_no();
            assert(store.ends@[j] == 0);
            let t = choose|t: int| 0 <= t < generations@.len() && generations@[t] == o.spec_no();
            assert(generations@[t] < current_no);
        }
        Ok(store)
    }

    /// Takes the record `cmd`, stored at `off`, into the state: a `Put`
    /// points its key at `off`, a `Remove` drops its key, and the bytes that
    /// either makes obsolete are added to the count (saturating). The same
    /// step serves a write that was just committed and a record met while
    /// replaying a segment. A `Get` cannot stand in a segment, and a record
    /// cannot overlap one taken in before it (see `accepts`): either is
    /// refused with `InvalidCommand` and nothing changes. On success, says
    /// whether the count now exceeds the compaction threshold.
    #[verifier::spinoff_prover]
    pub fn apply(&mut self, cmd: &Command, off: OffSet) -> (r: Result<bool>)
        requires
            old(self).wf(),
        ensures
            final(self).wf(),
            r is Err <==> (cmd is Get || !old(self).accepts(off)),
            r matches Err(e) ==> e.kind is InvalidCommand && *final(self) == *old(self),
            r is Ok ==> {
                &&& final(self)@ == after(old(self)@, *cmd)
                &&& final(self).index() == index_after(old(self).index(), *cmd, off)
                &&& final(self).record_at(off) == Some(*cmd)
                &&& final(self).spec_wild() == wild_after(
                    old(self).spec_wild(),
                    old(self).index(),
                    *cmd,
                    off,
                )
                &&& final(self).spec_logged() == old(self).spec_logged() + off.spec_len()
                &&& forall|o: OffSet| o.spec_no() != off.spec_no() ==> (#[trigger] final(self).accepts(o)
                    <==> old(self).accepts(o))
                &&& forall|o: OffSet|
                    o.spec_no() == off.spec_no() && o.spec_start() >= off.spec_end() && o.spec_len()
                        > 0 && o.spec_end() <= u64::MAX && (o.spec_no() == old(self).spec_current_no()
                        ==> o.spec_end() <= old(self).spec_writer().spec_pos())
                        ==> #[trigger] final(self).accepts(o)
            },
            final(self).spec_segments() == old(self).spec_segments(),
            final(self).spec_current_no() == old(self).spec_current_no(),
            final(self).spec_writer() == old(self).spec_writer(),
            r matches Ok(c) ==> c == (final(self).spec_wild() > COMPACT_THRESHOLD),
    {
        if let Command::Get { .. } = cmd {
            return Err(
                Error::invalid_command(String::from_str("a get record cannot stand in a segment")),
            );
        }
        let i = match self.check_place(off) {
            Some(i) => i,
            None => {
                return Err(
                    Error::invalid_command(String::from_str("a record overlaps the records before it")),
                );
            },
        };
        let end = off.start() + off.len();
        let ghost old_records = self.records@;
        proof {
            self.lemma_fresh(off, i as int);
        }
        match cmd {
            Command::Put { key, value } => {
                let prev = self.index_insert(key.clone(), off);
                if let Some(p) = prev {
                    self.wild = saturating_add(self.wild, p.len());
                }
                self.logged = Ghost(self.logged@ + off.spec_len());
                self.contents = Ghost(self.contents@.insert(key@, value@));
                assert(self.contents@.dom() =~= self.slots@.dom());
            },
            Command::Remove { key } => {
                let prev = self.index_remove(key.as_str());
                if let Some(p) = prev {
                    self.wild = saturating_add(self.wild, p.len());
                }
                self.wild = saturating_add(self.wild, off.len());
                self.logged = Ghost(self.logged@ + off.spec_len());
                self.contents = Ghost(self.contents@.remove(key@));
                assert(self.contents@.dom() =~= self.slots@.dom());
            },
            Command::Get { .. } => {},
        }
        let ghost mid = *self;
        self.records = Ghost(self.records@.insert(off, *cmd));
        self.ends.set(i, end);
        proof {
            KvStore::lemma_placed(*old(self), mid, *self, off, *cmd, i as int);
        }
        Ok(self.wild > COMPACT_THRESHOLD)
    }

    /// Where `off` may be taken in: the slot of its segment, or `None`.
    fn check_place(&self, off: OffSet) -> (r: Option<usize>)
        requires
            self.wf(),
        ensures
            r is Some <==> self.accepts(off),
            r matches Some(i) ==> i < self.segments@.len() && self.segments@[i as int] == off.spec_no()
                && off.spec_start() >= self.ends@[i as int],
    {
        if off.len() == 0 || off.len() > u64::MAX - off.start() {
            return None;
        }
        let n = self.segments.len();
        let mut i: usize = 0;
        while i < n && self.segments[i] != off.no()
            invariant
                0 <= i <= n,
                n == self.segments@.len(),
                forall|j: int| 0 <= j < i ==> self.segments@[j] != off.spec_no(),
            decreases n - i,
        {
            i += 1;
        }
        if i == n || off.start() < self.ends[i] {
            proof {
                if self.accepts(off) {
                    let j = choose|j: int|
                        0 <= j < self.segments@.len() && self.segments@[j] == off.spec_no()
                            && off.spec_start() >= #[trigger] self.ends@[j];
                    if i < n {
                        assert(j == i as int || self.segments@[j] != self.segments@[i as int]);
                    }
                }
            }
            return None;
        }
        if off.no() == self.current_no && off.start() + off.len() > self.writer.pos() {
            return None;
        }
        Some(i)
    }

    /// An accepted locator is new: no record was taken in there.
    proof fn lemma_fresh(self, off: OffSet, i: int)
        requires
            self.wf(),
            0 <= i < self.segments@.len(),
            self.segments@[i] == off.spec_no(),
            off.spec_start() >= self.ends@[i],
        ensures
            !self.records@.contains_key(off),
            off.spec_no() <= self.current_no,
    {
        if self.records@.contains_key(off) {
            assert(off.spec_start() < self.ends@[i]);
        }
        if i < self.segments@.len() - 1 {
            assert(self.segments@[i] < self.segments@[self.segments@.len() - 1]);
        }
    }

    /// Taking in a record at a fresh locator keeps the records apart and
    /// every key located.
    proof fn lemma_placed(o: KvStore, mid: KvStore, s: KvStore, off: OffSet, cmd: Command, i: int)
        requires
            o.wf(),
            !(cmd is Get),
            0 <= i < o.segments@.len(),
            o.segments@[i] == off.spec_no(),
            off.spec_start() >= o.ends@[i],
            off.spec_len() > 0,
            off.spec_end() <= u64::MAX,
            off.spec_no() == o.current_no ==> off.spec_end() <= o.writer.spec_pos(),
            !o.records@.contains_key(off),
            off.spec_no() <= o.current_no,
            mid.index_wf(),
            mid.records == o.records,
            mid.ends == o.ends,
            mid.segments == o.segments,
            mid.current_no == o.current_no,
            mid.writer == o.writer,
            mid.contents@ == after(o.contents@, cmd),
            mid.contents@.dom() == mid.slots@.dom(),
            mid.index() == index_after(o.index(), cmd, off),
            s.slots == mid.slots,
            s.entries == mid.entries,
            s.contents == mid.contents,
            s.segments == mid.segments,
            s.current_no == mid.current_no,
            s.writer == mid.writer,
            s.records@ == o.records@.insert(off, cmd),
            s.ends@ == o.ends@.update(i, off.spec_end() as u64),
        ensures
            s.records_wf(),
            forall|k: Seq<char>| #[trigger] s.index().contains_key(k) ==> s.located(k),
            forall|q: OffSet| q.spec_no() != off.spec_no() ==> (#[trigger] s.accepts(q) <==> o.accepts(
                q,
            )),
            forall|q: OffSet|
                q.spec_no() == off.spec_no() && q.spec_start() >= off.spec_end() && q.spec_len() > 0
                    && q.spec_end() <= u64::MAX && (q.spec_no() == o.current_no ==> q.spec_end()
                    <= o.writer.spec_pos()) ==> #[trigger] s.accepts(q),
    {
        let n = o.segments@.len();
        assert(s.index() == mid.index());
        assert(s.ends@.last() <= s.writer.spec_pos()) by {
            if i == n - 1 {
                assert(o.segments@.last() == o.current_no);
            }
        }
        assert forall|q: OffSet, j: int|
            #![trigger s.records@.contains_key(q), s.segments@[j]]
            s.records@.contains_key(q) && 0 <= j < s.segments@.len() && s.segments@[j] == q.spec_no()
                implies q.spec_start() < s.ends@[j] by {
            if q != off {
                assert(o.records@.contains_key(q));
                assert(q.spec_start() < o.ends@[j]);
                if j == i {
                } else {
                }
            } else {
                if j != i {
                    assert(o.segments@[j] != o.segments@[i]) by {
                        if j < i {
                            assert(o.segments@[j] < o.segments@[i]);
                        } else {
                            assert(o.segments@[i] < o.segments@[j]);
                        }
                    }
                }
            }
        }
        assert forall|k: Seq<char>| #[trigger] s.index().contains_key(k) implies s.located(k) by {
            match cmd {
                Command::Put { key, value } => {
                    if k != key@ {
                        assert(o.index().contains_key(k));
                        assert(o.located(k));
                    }
                },
                Command::Remove { key } => {
                    assert(o.index().contains_key(k));
                    assert(o.located(k));
                },
                Command::Get { .. } => {},
            }
        }
        assert forall|q: OffSet| q.spec_no() != off.spec_no() implies (#[trigger] s.accepts(q)
            <==> o.accepts(q)) by {
            if s.accepts(q) {
                let j = choose|j: int|
                    0 <= j < s.segments@.len() && s.segments@[j] == q.spec_no() && q.spec_start()
                        >= #[trigger] s.ends@[j];
                assert(j != i);
                assert(o.ends@[j] == s.ends@[j]);
            }
            if o.accepts(q) {
                let j = choose|j: int|
                    0 <= j < o.segments@.len() && o.segments@[j] == q.spec_no() && q.spec_start()
                        >= #[trigger] o.ends@[j];
                assert(j != i);
                assert(o.ends@[j] == s.ends@[j]);
            }
        }
        assert forall|q: OffSet|
            q.spec_no() == off.spec_no() && q.spec_start() >= off.spec_end() && q.spec_len() > 0
                && q.spec_end() <= u64::MAX && (q.spec_no() == o.current_no ==> q.spec_end()
                <= o.writer.spec_pos()) implies #[trigger] s.accepts(q) by {
            assert(s.ends@[i] == off.spec_end());
        }
    }

    /// Replays the records of one segment, in order, each with its locator.
    /// Stops at the first record that cannot stand in a segment, with
    /// `InvalidCommand`; the records before it stay applied.
    pub fn replay(&mut self, records: &Vec<(Command, OffSet)>) -> (r: Result<()>)
        requires
            old(self).wf(),
        ensures
            final(self).wf(),
            r matches Err(e) ==> e.kind is InvalidCommand,
            r is Ok ==> final(self)@ == replay_all(old(self)@, records@.map_values(|p: (Command, OffSet)| p.0)),
            r is Ok ==> final(self).index() == index_replay(old(self).index(), records@),
            r is Ok ==> final(self).spec_wild() == wild_replay(old(self).spec_wild(), old(self).index(), records@),
            r is Ok ==> final(self).spec_logged() == old(self).spec_logged() + lens_of(records@),
            r is Ok ==> forall|i: int| 0 <= i < records@.len() ==> !(#[trigger] records@[i].0 is Get),
            r is Ok ==> forall|o: OffSet|
                (forall|i: int| 0 <= i < records@.len() ==> #[trigger] records@[i].1.spec_no() != o.spec_no())
                    ==> (#[trigger] final(self).accepts(o) <==> old(self).accepts(o)),
            (forall|i: int| 0 <= i < records@.len() ==> !(#[trigger] records@[i].0 is Get)) && back_to_back(
                records@,
            ) && (records@.len() > 0 ==> old(self).accepts(records@[0].1)) && (forall|i: int|
                0 <= i < records@.len() ==> #[trigger] records@[i].1.spec_no() != old(
                    self,
                ).spec_current_no()) ==> r is Ok,
            final(self).spec_segments() == old(self).spec_segments(),
            final(self).spec_current_no() == old(self).spec_current_no(),
            final(self).spec_writer() == old(self).spec_writer(),
    {
        let ghost cmds = records@.map_values(|p: (Command, OffSet)| p.0);
        let mut i: usize = 0;
        while i < records.len()
            invariant
                0 <= i <= records@.len(),
                self.wf(),
                cmds == records@.map_values(|p: (Command, OffSet)| p.0),
                forall|j: int| 0 <= j < i ==> !(#[trigger] records@[j].0 is Get),
                self@ == replay_all(old(self)@, cmds.subrange(0, i as int)),
                self.index() == index_replay(old(self).index(), records@.subrange(0, i as int)),
                self.spec_wild() == wild_replay(old(self).spec_wild(), old(self).index(), records@.subrange(0, i as int)),
                self.spec_logged() == old(self).spec_logged() + lens_of(records@.subrange(0, i as int)),
                forall|o: OffSet|
                    (forall|j: int| 0 <= j < i ==> #[trigger] records@[j].1.spec_no() != o.spec_no())
                        ==> (#[trigger] self.accepts(o) <==> old(self).accepts(o)),
                self.spec_current_no() == old(self).spec_current_no(),
                ((forall|j: int| 0 <= j < records@.len() ==> !(#[trigger] records@[j].0 is Get))
                    && back_to_back(records@) && (records@.len() > 0 ==> old(self).accepts(records@[0].1))
                    && (forall|j: int| 0 <= j < records@.len() ==> #[trigger] records@[j].1.spec_no()
                    != old(self).spec_current_no()) && i < records@.len()) ==> self.accepts(
                    records@[i as int].1,
                ),
                self.spec_segments() == old(self).spec_segments(),
                self.spec_current_no() == old(self).spec_current_no(),
                self.spec_writer() == old(self).spec_writer(),
            decreases records@.len() - i,
        {
            let (cmd, off) = &records[i];
            let ghost before = *self;
            match self.apply(cmd, *off) {
                Ok(_) => {},
                Err(e) => {
                    return Err(e);
                },
            }
            proof {
                let pre = records@.subrange(0, i + 1);
                assert(pre.drop_last() == records@.subrange(0, i as int));
                assert(pre.last() == records@[i as int]);
                assert forall|o: OffSet|
                    (forall|j: int| 0 <= j < i + 1 ==> #[trigger] records@[j].1.spec_no() != o.spec_no())
                        implies (#[trigger] self.accepts(o) <==> old(self).accepts(o)) by {
                    assert(records@[i as int].1.spec_no() != o.spec_no());
                    assert(self.accepts(o) <==> before.accepts(o));
                    assert forall|j: int| 0 <= j < i implies #[trigger] records@[j].1.spec_no() != o.spec_no() by {
                        assert(records@[j].1.spec_no() != o.spec_no());
                    }
                }
                if back_to_back(records@) && i + 1 < records@.len() {
                    assert(records@[i + 1].1.spec_no() == records@[i as int].1.spec_no());
                }
                assert(cmds.subrange(0, i + 1).drop_last() == cmds.subrange(0, i as int));
                assert(cmds.subrange(0, i + 1).last() == records@[i as int].0);
            }
            i += 1;
        }
        assert(cmds.subrange(0, records@.len() as int) == cmds);
        assert(records@.subrange(0, records@.len() as int) == records@);
        Ok(())
    }

    /// Writes the encoded record `record` to the active segment and gives
    /// its locator: it starts where the writer stood and spans the record.
    /// An empty record is refused (no encoding is empty), as is one that
    /// would carry the segment past `u64::MAX` bytes; then nothing changes.
    pub fn append(&mut self, record: &[u8]) -> (r: Result<OffSet>)
        requires
            old(self).wf(),
        ensures
            final(self).wf(),
            r is Ok <==> (record@.len() > 0 && old(self).spec_writer().spec_pos() + record@.len()
                <= u64::MAX),
            r matches Ok(off) ==> {
                &&& off.spec_no() == old(self).spec_current_no()
                &&& off.spec_start() == old(self).spec_writer().spec_pos()
                &&& off.spec_len() == record@.len()
                &&& final(self).accepts(off)
                &&& final(self).committed_end() == old(self).committed_end()
                &&& old(self).committed_end() <= off.spec_start()
                &&& final(self).spec_writer().spec_pos() == off.spec_end()
                &&& final(self).spec_writer().spec_pending() == old(self).spec_writer().spec_pending()
                    + record@
                &&& final(self)@ == old(self)@
                &&& final(self).index() == old(self).index()
                &&& final(self).spec_wild() == old(self).spec_wild()
                &&& final(self).spec_segments() == old(self).spec_segments()
                &&& final(self).spec_current_no() == old(self).spec_current_no()
                &&& final(self).spec_logged() == old(self).spec_logged()
                &&& final(self).live_bytes() == old(self).live_bytes()
            },
            r matches Err(e) ==> {
                &&& *final(self) == *old(self)
                &&& (record@.len() == 0 ==> e.kind is SerializerError)
                &&& (record@.len() > 0 ==> e.kind is Io)
            },
    {
        if record.len() == 0 {
            return Err(
                Error::new(ErrorKind::SerializerError(String::from_str("empty record"))),
            );
        }
        let start = self.writer.pos();
        match self.writer.write(record) {
            Ok(n) => {
                let off = OffSet::new(self.current_no, start, self.writer.pos());
                assert(self.index() =~= old(self).index());
                proof {
                    let last = self.segments@.len() - 1;
                    assert(self.segments@[last] == off.spec_no());
                    assert(off.spec_start() >= self.ends@[last]);
                }
                Ok(off)
            },
            Err(e) => Err(e),
        }
    }

    /// Hands out the bytes appended since the last flush, to be committed to
    /// the active segment in order.
    pub fn flush(&mut self) -> (r: Vec<u8>)
        requires
            old(self).wf(),
        ensures
            final(self).wf(),
            r@ == old(self).spec_writer().spec_pending(),
            final(self).spec_writer().spec_pending() == Seq::<u8>::empty(),
            final(self).spec_writer().spec_pos() == old(self).spec_writer().spec_pos(),
            final(self)@ == old(self)@,
            final(self).index() == old(self).index(),
            final(self).spec_wild() == old(self).spec_wild(),
            final(self).spec_segments() == old(self).spec_segments(),
            final(self).spec_current_no() == old(self).spec_current_no(),
            final(self).spec_logged() == old(self).spec_logged(),
            final(self).live_bytes() == old(self).live_bytes(),
            forall|o: OffSet| #[trigger] final(self).accepts(o) == old(self).accepts(o),
            forall|o: OffSet| #[trigger] final(self).record_at(o) == old(self).record_at(o),
            final(self).committed_end() == old(self).committed_end(),
    {
        let r = self.writer.flush();
        assert(self.index() =~= old(self).index());
        r
    }

    /// Forgets the record at `off`, the last one appended, whose bytes never
    /// reached the segment (its write failed): the writer goes back to where
    /// the record started, and the pending bytes are dropped. Refused, with
    /// nothing changed, where `off` is not the last append of the active
    /// segment or a record was taken in at or after its start.
    pub fn abandon(&mut self, off: OffSet) -> (r: Result<()>)
        requires
            old(self).wf(),
        ensures
            final(self).wf(),
            r is Ok <==> (off.spec_no() == old(self).spec_current_no() && off.spec_end()
                == old(self).spec_writer().spec_pos() && old(self).committed_end() <= off.spec_start()),
            r matches Err(e) ==> e.kind is InvalidCommand && *final(self) == *old(self),
            r is Ok ==> {
                &&& final(self).spec_writer().spec_pos() == off.spec_start()
                &&& final(self).spec_writer().spec_pending() == Seq::<u8>::empty()
                &&& final(self)@ == old(self)@
                &&& final(self).index() == old(self).index()
                &&& final(self).spec_wild() == old(self).spec_wild()
                &&& final(self).spec_logged() == old(self).spec_logged()
                &&& final(self).live_bytes() == old(self).live_bytes()
                &&& final(self).spec_segments() == old(self).spec_segments()
                &&& final(self).spec_current_no() == old(self).spec_current_no()
                &&& forall|o: OffSet| #[trigger] final(self).record_at(o) == old(self).record_at(o)
            },
    {
        let last = self.ends.len() - 1;
        if off.no() != self.current_no || off.len() > u64::MAX - off.start() || off.start()
            + off.len() != self.writer.pos() || off.start() < self.ends[last] {
            return Err(Error::invalid_command(String::from_str("not the last append of the active segment")));
        }
        self.writer.seek(off.start());
        assert(self.index() =~= old(self).index());
        Ok(())
    }

    /// The end of the last record taken in at the active segment.
    pub closed spec fn committed_end(self) -> u64 {
        self.ends@.last()
    }

    /// The locator of the record that holds the value of `key`, or `None`
    /// where the store holds no such key.
    pub fn lookup(&self, key: &str) -> (r: Option<OffSet>)
        requires
            self.wf(),
        ensures
            r is Some <==> self@.contains_key(key@),
            r matches Some(off) ==> self.record_at(off) matches Some(Command::Put { key: k, value: v })
                && k@ == key@ && v@ == self@[key@],
            r == (if self.index().contains_key(key@) {
                Some(self.index()[key@])
            } else {
                None
            }),
    {
        match self.slots.get(key) {
            Some(i) => {
                proof {
                    assert(self.index().contains_key(key@));
                    assert(self.located(key@));
                }
                Some(self.entries[*i].1)
            },
            None => None,
        }
    }

    /// The first step of a removal: the locator of the value to be removed,
    /// or `KeyNotFound` where the store holds no such key.
    pub fn locate_for_remove(&self, key: &str) -> (r: Result<OffSet>)
        requires
            self.wf(),
        ensures
            r is Err <==> !self@.contains_key(key@),
            r matches Err(e) ==> e.kind is KeyNotFound,
            r matches Ok(off) ==> self.index().contains_key(key@) && off == self.index()[key@],
    {
        match self.lookup(key) {
            Some(off) => Ok(off),
            None => {
                let mut m = String::from_str("key ");
                m.append(key);
                m.append(" not found");
                Err(Error::key_not_found(m))
            },
        }
    }

    /// The value that a `get` returns, from the record read at a locator
    /// that the index gave: the value of a `Put`; any other record is
    /// `InvalidCommand`.
    pub fn record_value(cmd: Command) -> (r: Result<String>)
        ensures
            cmd matches Command::Put { value, .. } ==> r == Ok::<String, Error>(value),
            !(cmd is Put) ==> (r matches Err(e) && e.kind is InvalidCommand),
    {
        match cmd {
            Command::Put { value, .. } => Ok(value),
            _ => Err(Error::invalid_command(String::from_str("the index points at a record that is not a put"))),
        }
    }

    /// Whether the obsolete bytes exceed the compaction threshold.
    pub fn should_compact(&self) -> (r: bool)
        ensures
            r == (self.spec_wild() > COMPACT_THRESHOLD),
    {
        self.wild > COMPACT_THRESHOLD
    }

    pub fn wild(&self) -> (r: u64)
        ensures
            r == self.spec_wild(),
    {
        self.wild
    }

    pub fn current_no(&self) -> (r: u64)
        ensures
            r == self.spec_current_no(),
    {
        self.current_no
    }

    /// The generations of the segments on disk, ascending; the last is the
    /// active one.
    pub fn segments(&self) -> (r: &Vec<u64>)
        requires
            self.wf(),
        ensures
            r@ == self.spec_segments(),
            ascending(r@),
    {
        &self.segments
    }

    /// The key of the entry in slot `i` of the table.
    pub closed spec fn key_at(self, i: int) -> Seq<char> {
        self.entries@[i].0@
    }

    /// The slot of the table that holds `k`.
    pub closed spec fn slot_of(self, k: Seq<char>) -> int {
        self.slots@[k] as int
    }

    /// The total length of the live records.
    pub closed spec fn live_bytes(self) -> int {
        sum_lens(self.entries@)
    }

    /// The total length of the records taken in since the store was opened
    /// or last compacted, the compacted records included: the bytes of the
    /// segments that a compaction would read.
    pub closed spec fn spec_logged(self) -> int {
        self.logged@
    }

    /// The bytes that a compaction would reclaim: every record taken in that
    /// the index no longer locates.
    pub open spec fn obsolete_bytes(self) -> int {
        self.spec_logged() - self.live_bytes()
    }

    /// The obsolete-byte count is exact: it is the number of bytes that a
    /// compaction would reclaim (capped at `u64::MAX`), and so an upper
    /// bound of them.
    pub proof fn lemma_wild_counts_obsolete(&self)
        requires
            self.wf(),
        ensures
            self.obsolete_bytes() >= 0,
            self.spec_wild() == capped(self.obsolete_bytes()),
    {
    }

    /// Rewrites the index for a compaction: every live record moves, with
    /// its length, into the fresh segment `current_no + 1`, back to back
    /// from offset 0; writes go on in the fresh segment `current_no + 2`, so
    /// that nothing else lands in the destination; the obsolete count drops
    /// to zero; and every earlier segment is handed out for deletion. The
    /// dictionary is the same afterwards. Fails, changing nothing, where the
    /// new numbers or the destination's length would not fit in `u64`.
    #[verifier::spinoff_prover]
    pub fn compact(&mut self) -> (r: Result<Compaction>)
        requires
            old(self).wf(),
        ensures
            final(self).wf(),
            r is Err <==> (old(self).spec_current_no() > u64::MAX - 2 || old(self).live_bytes()
                > u64::MAX),
            r matches Err(e) ==> *final(self) == *old(self) && e.kind is TypeConversionFailed,
            r matches Ok(c) ==> compacted(*old(self), *final(self), c),
    {
        if self.current_no > u64::MAX - 2 {
            return Err(
                Error::new(
                    ErrorKind::TypeConversionFailed(String::from_str("segment number overflow")),
                ),
            );
        }
        let compact_no = self.current_no + 1;
        let active_no = self.current_no + 2;
        let (moves, total) = match self.plan_moves(compact_no) {
            Ok(m) => m,
            Err(e) => return Err(e),
        };
        proof {
            self.lemma_moves_nonempty(moves@);
        }
        let ghost before = *self;
        self.relocate(&moves);
        self.records = Ghost(moved_records(before.records@, moves@));
        let mut obsolete: Vec<u64> = Vec::new();
        std::mem::swap(&mut obsolete, &mut self.segments);
        self.segments.push(compact_no);
        self.segments.push(active_no);
        self.current_no = active_no;
        self.writer = PosWriter::new(0);
        self.wild = 0;
        self.logged = Ghost(sum_lens(self.entries@));
        let mut ends: Vec<u64> = Vec::new();
        ends.push(total);
        ends.push(0);
        self.ends = ends;
        let c = Compaction { compact_no, active_no, moves, obsolete };
        proof {
            assert(self.segments@ =~= seq![compact_no, active_no]);
            assert(self.ends@ =~= seq![total, 0u64]);
            KvStore::lemma_installed(before, *self, c, total);
        }
        Ok(c)
    }

    /// The state after a compaction's bookkeeping is well formed and is
    /// what `compacted` describes.
    #[verifier::spinoff_prover]
    proof fn lemma_installed(o: KvStore, s: KvStore, c: Compaction, total: u64)
        requires
            o.wf(),
            c.compact_no == o.current_no + 1,
            c.active_no == o.current_no + 2,
            c.moves@.len() == o.entries@.len(),
            forall|j: int| #![trigger c.moves@[j]]
                0 <= j < c.moves@.len() ==> {
                    &&& c.moves@[j].0 == o.entries@[j].1
                    &&& c.moves@[j].1.spec_no() == c.compact_no
                    &&& c.moves@[j].1.spec_len() == c.moves@[j].0.spec_len()
                    &&& c.moves@[j].1.spec_len() > 0
                },
            forall|j: int| #![trigger c.moves@[j].1.spec_start()]
                0 <= j < c.moves@.len() ==> {
                    &&& j == 0 ==> c.moves@[j].1.spec_start() == 0
                    &&& j > 0 ==> c.moves@[j].1.spec_start() == c.moves@[j - 1].1.spec_end()
                },
            forall|a: int, b: int|
                0 <= a < b < c.moves@.len() ==> #[trigger] c.moves@[a].1.spec_end() <= #[trigger] c.moves@[b].1.spec_start(),
            forall|j: int| 0 <= j < c.moves@.len() ==> #[trigger] c.moves@[j].1.spec_end() <= total,
            c.obsolete@ == o.segments@,
            s.index_wf(),
            s.slots == o.slots,
            s.contents == o.contents,
            s.entries@.len() == o.entries@.len(),
            forall|j: int| 0 <= j < c.moves@.len() ==> #[trigger] s.entries@[j] == (
                o.entries@[j].0,
                c.moves@[j].1,
            ),
            sum_lens(s.entries@) == sum_lens(o.entries@),
            s.records@ == moved_records(o.records@, c.moves@),
            s.segments@ == seq![c.compact_no, c.active_no],
            s.current_no == c.active_no,
            s.writer.wf(),
            s.writer.spec_pos() == 0,
            s.writer.spec_pending() == Seq::<u8>::empty(),
            s.wild == 0,
            s.logged@ == sum_lens(s.entries@),
            s.ends@ == seq![total, 0u64],
        ensures
            s.wf(),
            compacted(o, s, c),
    {
        KvStore::lemma_relocated(o, s, c.moves@, c.compact_no);
        KvStore::lemma_compacted(o, s, c.moves@, c.compact_no, total);
        assert(ascending(s.segments@));
        assert(s.contents@.dom() == s.slots@.dom());
        assert(s.wf());
        reveal(compacted);
    }

    /// The copies of a compaction into segment `compact_no`: one per entry,
    /// in table order, packed from offset 0.
    #[verifier::spinoff_prover]
    fn plan_moves(&self, compact_no: u64) -> (r: Result<(Vec<(OffSet, OffSet)>, u64)>)
        requires
            self.wf(),
        ensures
            r is Err <==> self.live_bytes() > u64::MAX,
            r matches Err(e) ==> e.kind is TypeConversionFailed,
            r matches Ok((moves, total)) ==> {
                &&& moves@.len() == self.entries@.len()
                &&& forall|a: int, b: int|
                    0 <= a < b < moves@.len() ==> #[trigger] moves@[a].1.spec_end() <= #[trigger] moves@[b].1.spec_start()
                &&& forall|j: int| 0 <= j < moves@.len() ==> #[trigger] moves@[j].1.spec_end() <= total
                &&& forall|j: int| #![trigger moves@[j]]
                    0 <= j < moves@.len() ==> {
                        &&& moves@[j].0 == self.entries@[j].1
                        &&& moves@[j].1.spec_no() == compact_no
                        &&& moves@[j].1.spec_len() == moves@[j].0.spec_len()
                    }
                &&& forall|j: int| #![trigger moves@[j].1.spec_start()]
                    0 <= j < moves@.len() ==> {
                        &&& j == 0 ==> moves@[j].1.spec_start() == 0
                        &&& j > 0 ==> moves@[j].1.spec_start() == moves@[j - 1].1.spec_end()
                    }
            },
    {
        let n = self.entries.len();
        let mut moves: Vec<(OffSet, OffSet)> = Vec::new();
        let mut pos: u64 = 0;
        let mut i: usize = 0;
        while i < n
            invariant
                0 <= i <= n,
                n == self.entries@.len(),
                moves@.len() == i,
                pos == sum_lens(self.entries@.subrange(0, i as int)),
                forall|j: int| #![trigger moves@[j]]
                    0 <= j < i ==> {
                        &&& moves@[j].0 == self.entries@[j].1
                        &&& moves@[j].1.spec_no() == compact_no
                        &&& moves@[j].1.spec_len() == moves@[j].0.spec_len()
                        &&& j == i - 1 ==> moves@[j].1.spec_end() == pos
                    },
                forall|j: int| #![trigger moves@[j].1.spec_start()]
                    0 <= j < i ==> {
                        &&& j == 0 ==> moves@[j].1.spec_start() == 0
                        &&& j > 0 ==> moves@[j].1.spec_start() == moves@[j - 1].1.spec_end()
                    },
                forall|a: int, b: int|
                    0 <= a < b < i ==> #[trigger] moves@[a].1.spec_end() <= #[trigger] moves@[b].1.spec_start(),
                forall|j: int| 0 <= j < i ==> #[trigger] moves@[j].1.spec_end() <= pos,
            decreases n - i,
        {
            let from = self.entries[i].1;
            let len = from.len();
            proof {
                assert(self.entries@.subrange(0, i + 1).drop_last() == self.entries@.subrange(0, i as int));
            }
            if pos > u64::MAX - len {
                proof {
                    lemma_sum_lens_monotone(self.entries@, i + 1);
                }
                return Err(
                    Error::new(
                        ErrorKind::TypeConversionFailed(String::from_str("segment length overflow")),
                    ),
                );
            }
            let to = OffSet::new(compact_no, pos, pos + len);
            moves.push((from, to));
            pos = pos + len;
            i += 1;
        }
        assert(self.entries@.subrange(0, n as int) == self.entries@);
        Ok((moves, pos))
    }

    proof fn lemma_relocated(o: KvStore, s: KvStore, moves: Seq<(OffSet, OffSet)>, compact_no: u64)
        requires
            o.index_wf(),
            s.index_wf(),
            s.slots == o.slots,
            moves.len() == o.entries@.len(),
            s.entries@.len() == o.entries@.len(),
            forall|j: int| 0 <= j < moves.len() ==> #[trigger] s.entries@[j] == (
                o.entries@[j].0,
                moves[j].1,
            ),
            forall|j: int| #![trigger moves[j]]
                0 <= j < moves.len() ==> {
                    &&& moves[j].0 == o.entries@[j].1
                    &&& moves[j].1.spec_no() == compact_no
                    &&& moves[j].1.spec_len() == moves[j].0.spec_len()
                },
        ensures
            s.index().dom() == o.index().dom(),
            forall|k: Seq<char>| #[trigger]
                s.index().contains_key(k) ==> {
                    &&& s.index()[k].spec_no() == compact_no
                    &&& s.index()[k].spec_len() == o.index()[k].spec_len()
                    &&& 0 <= o.slot_of(k) < moves.len()
                    &&& o.key_at(o.slot_of(k)) == k
                },
            forall|i: int| #![trigger moves[i]]
                0 <= i < moves.len() ==> {
                    &&& o.index().contains_key(o.key_at(i))
                    &&& moves[i] == (o.index()[o.key_at(i)], s.index()[o.key_at(i)])
                },
    {
        assert(s.index().dom() =~= o.index().dom());
        assert forall|k: Seq<char>| #[trigger] s.index().contains_key(k) implies {
            &&& s.index()[k].spec_no() == compact_no
            &&& s.index()[k].spec_len() == o.index()[k].spec_len()
            &&& 0 <= o.slot_of(k) < moves.len()
            &&& o.key_at(o.slot_of(k)) == k
        } by {
            assert(o.slots@.contains_key(k));
            let j = o.slots@[k] as int;
            assert(s.entries@[j] == (o.entries@[j].0, moves[j].1));
        }
        assert forall|i: int| #![trigger moves[i]] 0 <= i < moves.len() implies {
            &&& o.index().contains_key(o.key_at(i))
            &&& moves[i] == (o.index()[o.key_at(i)], s.index()[o.key_at(i)])
        } by {
            let k = o.entries@[i].0@;
            assert(o.slots@.contains_key(k));
            assert(s.entries@[i] == (o.entries@[i].0, moves[i].1));
        }
    }

    /// Every entry locates a record of positive length.
    proof fn lemma_moves_nonempty(self, moves: Seq<(OffSet, OffSet)>)
        requires
            self.wf(),
            moves.len() == self.entries@.len(),
            forall|j: int| #![trigger moves[j]]
                0 <= j < moves.len() ==> moves[j].0 == self.entries@[j].1 && moves[j].1.spec_len()
                    == moves[j].0.spec_len(),
        ensures
            forall|j: int| #![trigger moves[j]] 0 <= j < moves.len() ==> moves[j].1.spec_len() > 0,
    {
        assert forall|j: int| #![trigger moves[j]] 0 <= j < moves.len() implies moves[j].1.spec_len() > 0 by {
            let k = self.entries@[j].0@;
            assert(self.slots@.contains_key(k));
            assert(self.index().contains_key(k));
            assert(self.located(k));
            assert(self.records@.contains_key(self.index()[k]));
        }
    }

    /// After a compaction the records stay apart and every key is located
    /// at its destination.
    proof fn lemma_compacted(o: KvStore, s: KvStore, moves: Seq<(OffSet, OffSet)>, compact_no: u64, total: u64)
        requires
            o.wf(),
            o.current_no < compact_no,
            s.current_no == compact_no + 1,
            s.segments@ == seq![compact_no, (compact_no + 1) as u64],
            s.ends@ == seq![total, 0u64],
            s.writer.spec_pos() == 0,
            s.contents == o.contents,
            s.index_wf(),
            s.index().dom() == o.index().dom(),
            moves.len() == o.entries@.len(),
            s.records@ == moved_records(o.records@, moves),
            forall|j: int| #![trigger moves[j]]
                0 <= j < moves.len() ==> moves[j].1.spec_no() == compact_no && moves[j].1.spec_len() > 0
                    && moves[j].1.spec_end() <= total && moves[j].0 == o.entries@[j].1,
            forall|a: int, b: int|
                0 <= a < b < moves.len() ==> #[trigger] moves[a].1.spec_end() <= #[trigger] moves[b].1.spec_start(),
            forall|k: Seq<char>| #[trigger]
                s.index().contains_key(k) ==> {
                    &&& 0 <= o.slot_of(k) < moves.len()
                    &&& o.key_at(o.slot_of(k)) == k
                },
            forall|i: int| #![trigger moves[i]]
                0 <= i < moves.len() ==> {
                    &&& o.index().contains_key(o.key_at(i))
                    &&& moves[i] == (o.index()[o.key_at(i)], s.index()[o.key_at(i)])
                },
        ensures
            s.records_wf(),
            forall|k: Seq<char>| #[trigger] s.index().contains_key(k) ==> s.located(k),
    {
        assert forall|q: OffSet| #[trigger] o.records@.contains_key(q) implies q.spec_no() != compact_no by {
        }
        lemma_moved_records(o.records@, moves, compact_no, total);
        assert forall|q: OffSet| #[trigger] s.records@.contains_key(q) implies q.spec_len() > 0 && q.spec_no()
            <= s.current_no by {
        }
        assert forall|q: OffSet, i: int|
            #![trigger s.records@.contains_key(q), s.segments@[i]]
            s.records@.contains_key(q) && 0 <= i < s.segments@.len() && s.segments@[i] == q.spec_no()
                implies q.spec_start() < s.ends@[i] by {
            if o.records@.contains_key(q) {
            }
        }
        assert forall|k: Seq<char>| #[trigger] s.index().contains_key(k) implies s.located(k) by {
            let j = o.slot_of(k);
            assert(o.key_at(j) == k);
            assert(moves[j] == (o.index()[k], s.index()[k]));
            assert(o.index().contains_key(k));
            assert(o.located(k));
        }
    }

    /// Points every entry at the destination of its move.
    #[verifier::spinoff_prover]
    fn relocate(&mut self, moves: &Vec<(OffSet, OffSet)>)
        requires
            old(self).index_wf(),
            moves@.len() == old(self).entries@.len(),
            forall|j: int| #![trigger moves@[j]]
                0 <= j < moves@.len() ==> moves@[j].1.spec_len() == old(self).entries@[j].1.spec_len(),
        ensures
            sum_lens(final(self).entries@) == sum_lens(old(self).entries@),
            final(self).logged == old(self).logged,
            final(self).index_wf(),
            final(self).slots == old(self).slots,
            final(self).contents == old(self).contents,
            final(self).segments == old(self).segments,
            final(self).current_no == old(self).current_no,
            final(self).writer == old(self).writer,
            final(self).wild == old(self).wild,
            final(self).entries@.len() == old(self).entries@.len(),
            forall|j: int| 0 <= j < moves@.len() ==> #[trigger] final(self).entries@[j] == (
                old(self).entries@[j].0,
                moves@[j].1,
            ),
    {
        let n = self.entries.len();
        let mut i: usize = 0;
        while i < n
            invariant
                0 <= i <= n,
                n == self.entries@.len(),
                n == moves@.len(),
                self.slots == old(self).slots,
                self.index_wf(),
                self.contents == old(self).contents,
                self.segments == old(self).segments,
                self.current_no == old(self).current_no,
                self.writer == old(self).writer,
                self.wild == old(self).wild,
                self.logged == old(self).logged,
                forall|j: int| 0 <= j < n ==> #[trigger] self.entries@[j].0 == old(self).entries@[j].0,
                forall|j: int| 0 <= j < i ==> #[trigger] self.entries@[j].1 == moves@[j].1,
            decreases n - i,
        {
            let ghost prev = *self;
            let key = self.entries[i].0.clone();
            let to = moves[i].1;
            self.entries.set(i, (key, to));
            proof {
                assert forall|j: int| 0 <= j < self.entries@.len() implies {
                    &&& #[trigger] self.slots@.contains_key(self.entries@[j].0@)
                    &&& self.slots@[self.entries@[j].0@] == j
                } by {
                    assert(prev.slots@.contains_key(prev.entries@[j].0@));
                }
                assert forall|k: Seq<char>| #[trigger] self.slots@.contains_key(k) implies {
                    &&& self.slots@[k] < self.entries@.len()
                    &&& self.entries@[self.slots@[k] as int].0@ == k
                } by {
                    assert(prev.slots@.contains_key(k));
                }
            }
            i += 1;
        }
        assert forall|j: int| 0 <= j < moves@.len() implies #[trigger] self.entries@[j] == (
            old(self).entries@[j].0,
            moves@[j].1,
        ) by {
            assert(self.entries@[j].0 == old(self).entries@[j].0);
        }
        proof {
            assert forall|j: int| 0 <= j < self.entries@.len() implies #[trigger] self.entries@[j].1.spec_len()
                == old(self).entries@[j].1.spec_len() by {
                assert(self.entries@[j].1 == moves@[j].1);
            }
            lemma_sum_lens_same_lens(self.entries@, old(self).entries@);
        }
    }

    /// Points `key` at `off`, and gives back the locator it had.
    #[verifier::spinoff_prover]
    fn index_insert(&mut self, key: String, off: OffSet) -> (prev: Option<OffSet>)
        requires
            old(self).index_wf(),
        ensures
            final(self).index_wf(),
            final(self).index() == old(self).index().insert(key@, off),
            final(self).slots@.dom() == old(self).slots@.dom().insert(key@),
            prev == (if old(self).index().contains_key(key@) {
                Some(old(self).index()[key@])
            } else {
                None
            }),
            sum_lens(final(self).entries@) == sum_lens(old(self).entries@) + off.spec_len() - (
            match prev {
                Some(p) => p.spec_len() as int,
                None => 0,
            }),
            final(self).contents == old(self).contents,
            final(self).segments == old(self).segments,
            final(self).current_no == old(self).current_no,
            final(self).writer == old(self).writer,
            final(self).wild == old(self).wild,
            final(self).logged == old(self).logged,
            final(self).ends == old(self).ends,
            final(self).records == old(self).records,
    {
        match self.slots.get(key.as_str()) {
            Some(i) => {
                let i = *i;
                let prev = self.entries[i].1;
                let ghost k = key@;
                let ghost item = (key, off);
                self.entries.set(i, (key, off));
                proof {
                    let o = old(self);
                    lemma_sum_lens_update(o.entries@, i as int, item);
                    assert forall|j: int| 0 <= j < self.entries@.len() implies {
                        &&& #[trigger] self.slots@.contains_key(self.entries@[j].0@)
                        &&& self.slots@[self.entries@[j].0@] == j
                    } by {
                        assert(o.slots@.contains_key(o.entries@[j].0@));
                    }
                    assert forall|k2: Seq<char>| #[trigger] self.slots@.contains_key(k2) implies {
                        &&& self.slots@[k2] < self.entries@.len()
                        &&& self.entries@[self.slots@[k2] as int].0@ == k2
                    } by {
                        assert(o.slots@.contains_key(k2));
                    }
                }
                assert(self.index() =~= old(self).index().insert(k, off));
                Some(prev)
            },
            None => {
                let i = self.entries.len();
                let ghost k = key@;
                let k2 = key.clone();
                proof {
                    lemma_sum_lens_push(self.entries@, (key, off));
                }
                self.entries.push((key, off));
                self.slots.insert(k2, i);
                assert forall|j: int| 0 <= j < self.entries@.len() implies {
                    &&& #[trigger] self.slots@.contains_key(self.entries@[j].0@)
                    &&& self.slots@[self.entries@[j].0@] == j
                } by {
                    if j < i {
                        assert(old(self).slots@.contains_key(old(self).entries@[j].0@));
                    }
                }
                assert forall|k2: Seq<char>| #[trigger] self.slots@.contains_key(k2) implies {
                    &&& self.slots@[k2] < self.entries@.len()
                    &&& self.entries@[self.slots@[k2] as int].0@ == k2
                } by {
                    if k2 != k {
                        assert(old(self).slots@.contains_key(k2));
                    }
                }
                assert(self.index() =~= old(self).index().insert(k, off));
                None
            },
        }
    }

    /// Drops `key` from the index, and gives back the locator it had.
    #[verifier::spinoff_prover]
    fn index_remove(&mut self, key: &str) -> (prev: Option<OffSet>)
        requires
            old(self).index_wf(),
        ensures
            final(self).index_wf(),
            final(self).index() == old(self).index().remove(key@),
            final(self).slots@.dom() == old(self).slots@.dom().remove(key@),
            prev == (if old(self).index().contains_key(key@) {
                Some(old(self).index()[key@])
            } else {
                None
            }),
            sum_lens(final(self).entries@) == sum_lens(old(self).entries@) - (match prev {
                Some(p) => p.spec_len() as int,
                None => 0,
            }),
            final(self).contents == old(self).contents,
            final(self).segments == old(self).segments,
            final(self).current_no == old(self).current_no,
            final(self).writer == old(self).writer,
            final(self).wild == old(self).wild,
            final(self).logged == old(self).logged,
            final(self).ends == old(self).ends,
            final(self).records == old(self).records,
    {
        match self.slots.get(key) {
            None => {
                assert(self.index() =~= old(self).index().remove(key@));
                None
            },
            Some(i) => {
                let i = *i;
                let last = self.entries.len() - 1;
                proof {
                    let o = self.entries@;
                    lemma_sum_lens_update(o, i as int, o.last());
                    assert(o.update(i as int, o.last()).last() == o.last());
                }
                let (_, prev) = self.entries.swap_remove(i);
                if i < last {
                    let moved = self.entries[i].0.clone();
                    self.slots.insert(moved, i);
                }
                self.slots.remove(key);
                proof {
                    let o = old(self);
                    assert(o.entries@[last as int].0@ != key@ || i == last) by {
                        if i < last {
                            assert(o.slots@.contains_key(o.entries@[last as int].0@));
                            assert(o.slots@[o.entries@[last as int].0@] == last);
                        }
                    }
                    assert forall|j: int| 0 <= j < self.entries@.len() implies {
                        &&& #[trigger] self.slots@.contains_key(self.entries@[j].0@)
                        &&& self.slots@[self.entries@[j].0@] == j
                    } by {
                        if j != i {
                            assert(o.slots@.contains_key(o.entries@[j].0@));
                            assert(o.entries@[j].0@ != key@);
                        } else {
                            assert(o.slots@.contains_key(o.entries@[last as int].0@));
                        }
                    }
                    assert forall|k: Seq<char>| #[trigger] self.slots@.contains_key(k) implies {
                        &&& self.slots@[k] < self.entries@.len()
                        &&& self.entries@[self.slots@[k] as int].0@ == k
                    } by {
                        if i < last && k == o.entries@[last as int].0@ {
                        } else {
                            assert(o.slots@.contains_key(k));
                            assert(o.slots@[k] != last || i == last);
                        }
                    }
                    assert(self.slots@.dom() =~= o.slots@.dom().remove(key@));
                    assert forall|k: Seq<char>| #[trigger] self.index().contains_key(k) implies
                        self.index()[k] == o.index().remove(key@)[k] by {
                        if i < last && k == o.entries@[last as int].0@ {
                        } else {
                            assert(o.slots@.contains_key(k));
                        }
                    }
                    assert(self.index() =~= o.index().remove(key@));
                }
                Some(prev)
            },
        }
    }
}

/// `a + b`, or `u64::MAX` where the sum does not fit.
pub open spec fn saturating(a: u64, b: u64) -> u64 {
    if a + b > u64::MAX {
        u64::MAX
    } else {
        (a + b) as u64
    }
}

fn saturating_add(a: u64, b: u64) -> (r: u64)
    ensures
        r == saturating(a, b),
{
    if a > u64::MAX - b {
        u64::MAX
    } else {
        a + b
    }
}

/// The obsolete-byte count after the record `c`, stored at `off`, meets the
/// index `index`: an overwrite makes the bytes of the record it shadows
/// obsolete, and a removal those bytes and its own.
pub open spec fn wild_after(wild: u64, index: Map<Seq<char>, OffSet>, c: Command, off: OffSet) -> u64 {
    match c {
        Command::Put { key, .. } => if index.contains_key(key@) {
            saturating(wild, index[key@].spec_len())
        } else {
            wild
        },
        Command::Remove { key } => {
            let w = if index.contains_key(key@) {
                saturating(wild, index[key@].spec_len())
            } else {
                wild
            };
            saturating(w, off.spec_len())
        },
        Command::Get { .. } => wild,
    }
}

/// The index after the record `c`, stored at `off`.
pub open spec fn index_after(index: Map<Seq<char>, OffSet>, c: Command, off: OffSet) -> Map<
    Seq<char>,
    OffSet,
> {
    match c {
        Command::Put { key, .. } => index.insert(key@, off),
        Command::Remove { key } => index.remove(key@),
        Command::Get { .. } => index,
    }
}

/// Overwrite, on the store: after two successful `apply`s of `Put`s of one
/// key (as their `ensures` describe them), the key has the second value, and
/// `lookup` gives the locator of the second record.
pub proof fn lemma_store_overwrite(
    s0: KvStore,
    s1: KvStore,
    s2: KvStore,
    k: String,
    v1: String,
    v2: String,
    o1: OffSet,
    o2: OffSet,
)
    requires
        s1@ == after(s0@, Command::Put { key: k, value: v1 }),
        s1.index() == index_after(s0.index(), Command::Put { key: k, value: v1 }, o1),
        s2@ == after(s1@, Command::Put { key: k, value: v2 }),
        s2.index() == index_after(s1.index(), Command::Put { key: k, value: v2 }, o2),
    ensures
        s2@.contains_key(k@),
        s2@[k@] == v2@,
        s2.index().contains_key(k@),
        s2.index()[k@] == o2,
{
}

/// Tombstone, on the store: after a successful `apply` of a `Put` of a key
/// and then of a `Remove` of it, the store holds no such key, so `lookup`
/// gives `None` and `locate_for_remove` fails with `KeyNotFound`.
pub proof fn lemma_store_tombstone(
    s0: KvStore,
    s1: KvStore,
    s2: KvStore,
    k: String,
    v: String,
    o1: OffSet,
    o2: OffSet,
)
    requires
        s1@ == after(s0@, Command::Put { key: k, value: v }),
        s1.index() == index_after(s0.index(), Command::Put { key: k, value: v }, o1),
        s2@ == after(s1@, Command::Remove { key: k }),
        s2.index() == index_after(s1.index(), Command::Remove { key: k }, o2),
    ensures
        !s2@.contains_key(k@),
        !s2.index().contains_key(k@),
{
}

/// Compaction after a write: where a successful `apply` of `cmd` leaves the
/// obsolete count above the threshold and the compaction that follows
/// succeeds, the store holds what the write made of the dictionary, no
/// obsolete byte is left, and no segment below the destination remains.
pub proof fn lemma_store_compaction_after_write(
    s0: KvStore,
    s1: KvStore,
    s2: KvStore,
    cmd: Command,
    c: Compaction,
)
    requires
        s1@ == after(s0@, cmd),
        s1.spec_wild() > COMPACT_THRESHOLD,
        compacted(s1, s2, c),
    ensures
        s2@ == after(s0@, cmd),
        s2.spec_wild() == 0,
        forall|i: int| 0 <= i < s2.spec_segments().len() ==> s2.spec_segments()[i] >= c.compact_no,
        forall|k: Seq<char>| #[trigger] s2.index().contains_key(k) ==> s2.index()[k].spec_no() == c.compact_no,
{
    reveal(compacted);
}

/// The dictionary after a run of successful `apply`s is the replay of their
/// records.
pub proof fn lemma_store_run(states: Seq<KvStore>, cs: Seq<Command>)
    requires
        states.len() == cs.len() + 1,
        forall|i: int| 0 <= i < cs.len() ==> #[trigger] states[i + 1]@ == after(states[i]@, cs[i]),
    ensures
        states.last()@ == replay_all(states[0]@, cs),
    decreases cs.len(),
{
    if cs.len() > 0 {
        let n = cs.len() - 1;
        lemma_store_run(states.drop_last(), cs.drop_last());
        assert(states[n + 1]@ == after(states[n]@, cs[n]));
        assert(states.drop_last().last() == states[n]);
    }
}

/// Disjoint partitions, on the store: whatever the interleaving of the
/// successful writes that the store serialises, each key of a partition ends
/// as that partition's own writes, in their order, leave it.
pub proof fn lemma_store_partitions(
    states: Seq<KvStore>,
    cs: Seq<Command>,
    part: spec_fn(Seq<char>) -> bool,
    k: Seq<char>,
)
    requires
        states.len() == cs.len() + 1,
        forall|i: int| 0 <= i < cs.len() ==> #[trigger] states[i + 1]@ == after(states[i]@, cs[i]),
        part(k),
    ensures
        states.last()@.contains_key(k) == replay_all(states[0]@, restricted(cs, part)).contains_key(k),
        states.last()@.contains_key(k) ==> states.last()@[k] == replay_all(
            states[0]@,
            restricted(cs, part),
        )[k],
{
    lemma_store_run(states, cs);
    lemma_partitions_independent(states[0]@, cs, part, k);
}

} // verus!
