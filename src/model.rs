use vstd::prelude::*;

use crate::common::Command;

verus! {

/// What a record does to the dictionary that the store holds.
pub open spec fn after(m: Map<Seq<char>, Seq<char>>, c: Command) -> Map<Seq<char>, Seq<char>> {
    match c {
        Command::Put { key, value } => m.insert(key@, value@),
        Command::Remove { key } => m.remove(key@),
        Command::Get { .. } => m,
    }
}

/// The dictionary reached from `m` by the records `cs`, taken in order.
pub open spec fn replay_all(m: Map<Seq<char>, Seq<char>>, cs: Seq<Command>) -> Map<
    Seq<char>,
    Seq<char>,
>
    decreases cs.len(),
{
    if cs.len() == 0 {
        m
    } else {
        after(replay_all(m, cs.drop_last()), cs.last())
    }
}

/// The last of the records `cs` that mentions `k`, if any.
pub open spec fn last_write(cs: Seq<Command>, k: Seq<char>) -> Option<Command>
    decreases cs.len(),
{
    if cs.len() == 0 {
        None
    } else if cs.last().key_of() == k {
        Some(cs.last())
    } else {
        last_write(cs.drop_last(), k)
    }
}

/// Every record may stand in a segment.
pub open spec fn persistent(cs: Seq<Command>) -> bool {
    forall|i: int| 0 <= i < cs.len() ==> #[trigger] cs[i].is_persistent()
}

/// Replaying records decides each key by the last record that mentions it:
/// a `Put` gives its value, a `Remove` leaves the key out, and a key that no
/// record mentions keeps what it had.
pub proof fn lemma_replay_pointwise(m: Map<Seq<char>, Seq<char>>, cs: Seq<Command>, k: Seq<char>)
    requires
        persistent(cs),
    ensures
        match last_write(cs, k) {
            None => {
                &&& replay_all(m, cs).contains_key(k) == m.contains_key(k)
                &&& m.contains_key(k) ==> replay_all(m, cs)[k] == m[k]
            },
            Some(Command::Put { value, .. }) => {
                &&& replay_all(m, cs).contains_key(k)
                &&& replay_all(m, cs)[k] == value@
            },
            Some(_) => !replay_all(m, cs).contains_key(k),
        },
    decreases cs.len(),
{
    if cs.len() > 0 {
        let init = cs.drop_last();
        assert forall|i: int| 0 <= i < init.len() implies #[trigger] init[i].is_persistent() by {
            assert(cs[i].is_persistent());
        }
        lemma_replay_pointwise(m, init, k);
        assert(cs[cs.len() - 1].is_persistent());
    }
}

/// Persistence: a store rebuilt by replaying, from nothing, the records
/// that a sequence of `Put` and `Remove` operations appended holds exactly
/// the dictionary that those operations build: each key has the value of
/// its last `Put`, unless a `Remove` came after it.
pub proof fn lemma_persistence(cs: Seq<Command>, k: Seq<char>)
    requires
        persistent(cs),
    ensures
        replay_all(Map::empty(), cs).contains_key(k) <==> (last_write(cs, k) matches Some(
            Command::Put { .. },
        )),
        last_write(cs, k) matches Some(Command::Put { value, .. }) ==> replay_all(
            Map::empty(),
            cs,
        )[k] == value@,
{
    lemma_replay_pointwise(Map::empty(), cs, k);
}

/// Replaying is idempotent: replaying the same records again over the
/// dictionary they produced changes nothing.
pub proof fn lemma_replay_idempotent(m: Map<Seq<char>, Seq<char>>, cs: Seq<Command>)
    requires
        persistent(cs),
    ensures
        replay_all(replay_all(m, cs), cs) == replay_all(m, cs),
{
    let once = replay_all(m, cs);
    let twice = replay_all(once, cs);
    assert forall|k: Seq<char>| #[trigger] twice.contains_key(k) == once.contains_key(k) && (
    twice.contains_key(k) ==> twice[k] == once[k]) by {
        lemma_replay_pointwise(m, cs, k);
        lemma_replay_pointwise(once, cs, k);
    }
    assert(twice =~= once);
}

/// A segment that adds no record leaves a replay as it was: a store
/// reopened with no write in between replays, from an empty dictionary, the
/// same records plus an empty segment, and so answers as before.
pub proof fn lemma_replay_empty_segment(m: Map<Seq<char>, Seq<char>>, cs: Seq<Command>)
    ensures
        replay_all(m, cs + Seq::<Command>::empty()) == replay_all(m, cs),
{
    assert(cs + Seq::<Command>::empty() == cs);
}

/// Each key is mentioned by at most one of the records.
pub open spec fn distinct_keys(cs: Seq<Command>) -> bool {
    forall|i: int, j: int|
        0 <= i < j < cs.len() ==> #[trigger] cs[i].key_of() != #[trigger] cs[j].key_of()
}

proof fn lemma_last_write_distinct(cs: Seq<Command>, i: int)
    requires
        distinct_keys(cs),
        0 <= i < cs.len(),
    ensures
        last_write(cs, cs[i].key_of()) == Some(cs[i]),
    decreases cs.len(),
{
    if i < cs.len() - 1 {
        let init = cs.drop_last();
        assert(cs[i].key_of() != cs[cs.len() - 1].key_of());
        assert forall|a: int, b: int| 0 <= a < b < init.len() implies #[trigger] init[a].key_of()
            != #[trigger] init[b].key_of() by {
            assert(cs[a].key_of() != cs[b].key_of());
        }
        lemma_last_write_distinct(init, i);
    }
}

proof fn lemma_last_write_none(cs: Seq<Command>, k: Seq<char>)
    requires
        forall|i: int| 0 <= i < cs.len() ==> #[trigger] cs[i].key_of() != k,
    ensures
        last_write(cs, k) is None,
    decreases cs.len(),
{
    if cs.len() > 0 {
        let init = cs.drop_last();
        assert(cs[cs.len() - 1].key_of() != k);
        assert forall|i: int| 0 <= i < init.len() implies #[trigger] init[i].key_of() != k by {
            assert(cs[i].key_of() != k);
        }
        lemma_last_write_none(init, k);
    }
}

/// What a compaction writes is enough: a segment holding one `Put` per
/// live key, with that key's value, in any order, rebuilds the whole
/// dictionary when it is replayed from nothing.
pub proof fn lemma_compacted_segment_replays(m: Map<Seq<char>, Seq<char>>, puts: Seq<Command>)
    requires
        distinct_keys(puts),
        forall|i: int| #![trigger puts[i]]
            0 <= i < puts.len() ==> {
                &&& puts[i] is Put
                &&& m.contains_key(puts[i].key_of())
                &&& puts[i]->Put_value@ == m[puts[i].key_of()]
            },
        forall|k: Seq<char>| #[trigger]
            m.contains_key(k) ==> exists|i: int| 0 <= i < puts.len() && #[trigger] puts[i].key_of() == k,
    ensures
        replay_all(Map::empty(), puts) == m,
{
    let r = replay_all(Map::empty(), puts);
    assert forall|i: int| 0 <= i < puts.len() implies #[trigger] puts[i].is_persistent() by {
        assert(puts[i] is Put);
    }
    assert forall|k: Seq<char>| #[trigger] r.contains_key(k) == m.contains_key(k) && (r.contains_key(k)
        ==> r[k] == m[k]) by {
        lemma_replay_pointwise(Map::empty(), puts, k);
        if m.contains_key(k) {
            let i = choose|i: int| 0 <= i < puts.len() && #[trigger] puts[i].key_of() == k;
            lemma_last_write_distinct(puts, i);
            assert(puts[i] is Put);
        } else {
            assert forall|i: int| 0 <= i < puts.len() implies #[trigger] puts[i].key_of() != k by {
                assert(m.contains_key(puts[i].key_of()));
            }
            lemma_last_write_none(puts, k);
        }
    }
    assert(r =~= m);
}

/// The records among `cs` that mention a key of the partition `part`, in
/// their order.
pub open spec fn restricted(cs: Seq<Command>, part: spec_fn(Seq<char>) -> bool) -> Seq<Command> {
    cs.filter(|c: Command| part(c.key_of()))
}

/// Partitions do not interfere: however the writes to the keys of one
/// partition interleave with writes to other keys, each key of the
/// partition ends as the partition's own writes, in their order, leave it.
pub proof fn lemma_partitions_independent(
    m: Map<Seq<char>, Seq<char>>,
    cs: Seq<Command>,
    part: spec_fn(Seq<char>) -> bool,
    k: Seq<char>,
)
    requires
        part(k),
    ensures
        replay_all(m, cs).contains_key(k) == replay_all(m, restricted(cs, part)).contains_key(k),
        replay_all(m, cs).contains_key(k) ==> replay_all(m, cs)[k] == replay_all(
            m,
            restricted(cs, part),
        )[k],
    decreases cs.len(),
{
    if cs.len() > 0 {
        let init = cs.drop_last();
        let x = cs.last();
        let pred = |c: Command| part(c.key_of());
        assert(cs == init.push(x));
        init.lemma_filter_push(x, pred);
        lemma_partitions_independent(m, init, part, k);
        if pred(x) {
            assert(restricted(cs, part) == restricted(init, part).push(x));
            assert(restricted(cs, part).drop_last() == restricted(init, part));
        } else {
            assert(restricted(cs, part) == restricted(init, part));
        }
    } else {
        reveal(Seq::filter);
    }
}

/// Overwrite: after two `Put`s of one key, the key has the second value.
pub proof fn lemma_overwrite(m: Map<Seq<char>, Seq<char>>, k: String, v1: String, v2: String)
    ensures
        after(
            after(m, Command::Put { key: k, value: v1 }),
            Command::Put { key: k, value: v2 },
        ).contains_key(k@),
        after(
            after(m, Command::Put { key: k, value: v1 }),
            Command::Put { key: k, value: v2 },
        )[k@] == v2@,
{
}

/// Tombstone: after a `Put` and then a `Remove` of one key, the store holds
/// no such key (so that a second removal is `KeyNotFound`).
pub proof fn lemma_tombstone(m: Map<Seq<char>, Seq<char>>, k: String, v: String)
    ensures
        !after(after(m, Command::Put { key: k, value: v }), Command::Remove { key: k }).contains_key(
            k@,
        ),
{
}

} // verus!
