//! The laws that the store keeps, stated over the contracts of its
//! operations and proved from them.
use crate::codec::{
    commands_of, encodable, encoding, lemma_log_round_trip, lemma_parse_extend, lemma_round_trip,
    log_of, parse, CommandSpec,
};
use crate::store::{apply_all, replay, KvCore, KvMap};
use vstd::prelude::*;

verus! {

/// Durability: a log written by a sequence of commands, with a torn record
/// or nothing after them, replays to the state that the commands produce.
pub proof fn law_durability(cs: Seq<CommandSpec>, tail: Seq<u8>, start: KvMap)
    requires
        forall|i: int| 0 <= i < cs.len() ==> encodable(#[trigger] cs[i]),
        commands_of(tail) == Seq::<CommandSpec>::empty(),
    ensures
        apply_all(start, commands_of(log_of(cs) + tail)) == apply_all(start, cs),
{
    lemma_log_round_trip(cs, tail);
}

/// Durability: at every moment the logs of a store, replayed one after
/// another in ascending order of generation, give its live state; the
/// generations are the logs' and no other.
pub proof fn law_logs_replay_to_state(s: KvCore)
    requires
        s.wf(),
    ensures
        s@ == replay(s.log_files(), s.generations()),
        forall|a: int, b: int|
            0 <= a < b < s.generations().len() ==> s.generations()[a] < s.generations()[b],
        forall|g: u64| s.log_files().contains_key(g) <==> s.generations().contains(g),
{
    s.lemma_replay();
}

/// Reopening: a store that starts empty and loads the logs of `order` one
/// after another, as `load` does, ends in the state that replaying them
/// gives.
pub proof fn law_reopen(states: Seq<KvMap>, logs: Map<u64, Seq<u8>>, order: Seq<u64>)
    requires
        states.len() == order.len() + 1,
        states[0] == KvMap::empty(),
        forall|i: int|
            0 <= i < order.len() ==> #[trigger] states[i + 1] == apply_all(
                states[i],
                commands_of(logs[order[i]]),
            ),
    ensures
        states.last() == replay(logs, order),
    decreases order.len(),
{
    if order.len() > 0 {
        let n = order.len() - 1;
        let s2 = states.drop_last();
        let o2 = order.drop_last();
        assert forall|i: int| 0 <= i < o2.len() implies #[trigger] s2[i + 1] == apply_all(
            s2[i],
            commands_of(logs[o2[i]]),
        ) by {
            assert(s2[i + 1] == states[i + 1]);
            assert(s2[i] == states[i]);
            assert(o2[i] == order[i]);
        }
        law_reopen(s2, logs, o2);
        assert(states[n + 1] == apply_all(states[n], commands_of(logs[order[n]])));
    }
}

/// A record cut short anywhere replays as nothing.
pub proof fn law_torn_record(c: CommandSpec, m: int)
    requires
        encodable(c),
        0 <= m < encoding(c).len(),
    ensures
        commands_of(encoding(c).subrange(0, m)) == Seq::<CommandSpec>::empty(),
{
    let s = encoding(c);
    let t = s.subrange(0, m);
    lemma_round_trip(c, Seq::<u8>::empty());
    assert(s + Seq::<u8>::empty() =~= s);
    if parse(t) is Ok {
        lemma_parse_extend(t, s.subrange(m, s.len() as int));
        assert(t + s.subrange(m, s.len() as int) =~= s);
        crate::codec::lemma_parse_bounds(t);
    }
}

/// Write-read: after `set(k, v)` a read of `k` gives `v`.
pub proof fn law_write_read(before: KvCore, after: KvCore, k: Seq<u8>, v: Seq<u8>)
    requires
        before.wf(),
        after.wf(),
        after.committed_from(before, CommandSpec::Put { key: k, value: v }),
    ensures
        after.stored_value(k) == Some(v),
{
    after.lemma_stored_values();
}

/// Overwrite: after `set(k, v1)` and then `set(k, v2)` a read of `k` gives
/// `v2`.
pub proof fn law_overwrite(
    s0: KvCore,
    s1: KvCore,
    s2: KvCore,
    k: Seq<u8>,
    v1: Seq<u8>,
    v2: Seq<u8>,
)
    requires
        s0.wf(),
        s1.wf(),
        s2.wf(),
        s1.committed_from(s0, CommandSpec::Put { key: k, value: v1 }),
        s2.committed_from(s1, CommandSpec::Put { key: k, value: v2 }),
    ensures
        s2.stored_value(k) == Some(v2),
{
    s2.lemma_stored_values();
}

/// Remove-read: after `set(k, v)` and then `remove(k)` a read of `k` finds
/// nothing.
pub proof fn law_remove_read(
    s0: KvCore,
    s1: KvCore,
    s2: KvCore,
    k: Seq<u8>,
    v: Seq<u8>,
)
    requires
        s0.wf(),
        s1.wf(),
        s2.wf(),
        s1.committed_from(s0, CommandSpec::Put { key: k, value: v }),
        s2.committed_from(s1, CommandSpec::Remove { key: k }),
    ensures
        s2.stored_value(k) == None::<Seq<u8>>,
{
    s2.lemma_stored_values();
}

/// Compaction transparency: a finished compaction changes what no read
/// gives.
pub proof fn law_compaction_transparent(before: KvCore, after: KvCore)
    requires
        before.wf(),
        after.wf(),
        after@ == before@,
        after.compacted_from(before),
    ensures
        forall|k: Seq<u8>| #[trigger] after.stored_value(k) == before.stored_value(k),
{
    before.lemma_stored_values();
    after.lemma_stored_values();
}

/// Index size: the index holds an entry for each live key and for nothing
/// else.
pub proof fn law_index_size(s: KvCore)
    requires
        s.wf(),
    ensures
        s.entries().dom() == s@.dom(),
        s.entries().len() == s@.len(),
{
    s.lemma_index_domain();
}

/// Whether the generations of `gens` follow one another with no gap.
pub open spec fn consecutive(gens: Seq<u64>) -> bool {
    forall|i: int| 0 <= i < gens.len() - 1 ==> #[trigger] gens[i + 1] == gens[i] + 1
}

/// Generations under writes: every log lies between the safe point and the
/// active generation, and a committed write keeps the logs and the active
/// generation.
pub proof fn law_write_generations(before: KvCore, after: KvCore, c: CommandSpec)
    requires
        before.wf(),
        after.wf(),
        after.committed_from(before, c),
    ensures
        after.generation() == before.generation(),
        after.generations() == before.generations(),
        forall|g: u64| #[trigger]
            after.log_files().contains_key(g) ==> after.safe_generation() <= g <= after.generation(),
{
    after.lemma_log_range();
}

/// Generations under compaction: a finished compaction leaves exactly two
/// logs, the compacted one and the active one after it, with no gap, and no
/// entry below the new safe point.
pub proof fn law_compaction_generations(before: KvCore, after: KvCore)
    requires
        before.wf(),
        before.compacting(),
        after.wf(),
        after.compacted_from(before),
    ensures
        after.log_files().dom() == set![(before.generation() - 1) as u64, before.generation()],
        consecutive(after.generations()),
        after.generations().len() == 2,
        forall|k: Seq<u8>| #[trigger]
            after.entries().contains_key(k) ==> after.entries()[k].gen == after.safe_generation(),
{
    before.lemma_replay();
    before.lemma_pending_covers(Seq::<u8>::empty());
    let c = (before.generation() - 1) as u64;
    assert(after.log_files().dom() =~= set![c, before.generation()]);
    assert(after.generations()[1] == after.generations()[0] + 1);
    assert forall|k: Seq<u8>| #[trigger] after.entries().contains_key(k) implies after.entries()[k].gen
        == after.safe_generation() by {
        before.lemma_pending_covers(k);
        let s = before.pending_copies();
        let a = choose|a: int| 0 <= a < s.len() && #[trigger] s[a].0@ == k;
        assert(after.entries()[s[a].0@] == crate::store::moved_to(s, a, c));
    }
}

} // verus!
