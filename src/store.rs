//! The bookkeeping of the log-structured store.
//!
//! [`KvCore`] decides where every record goes and keeps the index. It does
//! no I/O, and changes its index only after the caller reports that the
//! bytes are on disk: a write is prepared (its record computed), appended by
//! the caller, then committed with the append's result; a compaction is
//! begun (its copies listed), carried out by the caller, then finished with
//! the copy's result. Its ghost state follows the bytes of every log file,
//! and its invariant says that each index entry points at a record holding
//! the key's live value, and that replaying the logs gives the live state.
use crate::codec::{
    append_bytes, commands_of, decode, encodable, encode, encoding, lemma_commands_of_empty,
    lemma_commands_step, lemma_log_of_empty, lemma_log_of_push, lemma_log_round_trip,
    lemma_parse_bounds, lemma_parse_canonical, lemma_parse_encodable, lemma_parse_prefix,
    lemma_round_trip, log_of, parse, Command, CommandSpec, DecodeError, EncodeError,
};
use crate::error::KvsError;
use crate::index::{
    index_entries, index_get, index_insert, index_new, index_remove, index_snapshot, CommandPos,
    KeyIndex,
};
use vstd::prelude::*;

verus! {

/// Stale bytes past which a write runs a compaction.
pub const COMPACTION_THRESHOLD: u64 = 1048576;

/// The state of the store as its users see it: each live key with its value.
pub type KvMap = Map<Seq<u8>, Seq<u8>>;

/// The bytes that `p` locates in the logs.
pub open spec fn record_at(logs: Map<u64, Seq<u8>>, p: CommandPos) -> Seq<u8> {
    logs[p.gen].subrange(p.pos as int, p.pos + p.len)
}

/// Whether `p` locates, in the logs, a whole `Put` record of `k` and `v`.
pub open spec fn points_at(logs: Map<u64, Seq<u8>>, p: CommandPos, k: Seq<u8>, v: Seq<u8>) -> bool {
    &&& logs.contains_key(p.gen)
    &&& p.pos + p.len <= logs[p.gen].len()
    &&& parse(record_at(logs, p)) == Ok::<(CommandSpec, nat), DecodeError>(
        (CommandSpec::Put { key: k, value: v }, p.len as nat),
    )
}

/// The effect of one command on the store.
pub open spec fn apply(m: KvMap, c: CommandSpec) -> KvMap {
    match c {
        CommandSpec::Put { key, value } => m.insert(key, value),
        CommandSpec::Remove { key } => m.remove(key),
    }
}

/// The effect of the commands of `cs`, in order.
pub open spec fn apply_all(m: KvMap, cs: Seq<CommandSpec>) -> KvMap
    decreases cs.len(),
{
    if cs.len() == 0 {
        m
    } else {
        apply_all(apply(m, cs[0]), cs.subrange(1, cs.len() as int))
    }
}

/// `a + b`, held at `u64::MAX`.
pub open spec fn sat_add(a: u64, b: u64) -> u64 {
    if a + b > u64::MAX {
        u64::MAX
    } else {
        (a + b) as u64
    }
}

/// The state that replaying the logs of `order`, one after another, gives.
pub open spec fn replay(logs: Map<u64, Seq<u8>>, order: Seq<u64>) -> KvMap
    decreases order.len(),
{
    if order.len() == 0 {
        KvMap::empty()
    } else {
        apply_all(replay(logs, order.drop_last()), commands_of(logs[order.last()]))
    }
}

/// A replay reads only the logs it replays.
pub proof fn lemma_replay_frame(l1: Map<u64, Seq<u8>>, l2: Map<u64, Seq<u8>>, order: Seq<u64>)
    requires
        forall|i: int| 0 <= i < order.len() ==> l1[#[trigger] order[i]] == l2[order[i]],
    ensures
        replay(l1, order) == replay(l2, order),
    decreases order.len(),
{
    if order.len() > 0 {
        let o = order.drop_last();
        assert forall|i: int| 0 <= i < o.len() implies l1[#[trigger] o[i]] == l2[o[i]] by {
            assert(o[i] == order[i]);
        }
        lemma_replay_frame(l1, l2, o);
        assert(l1[order.last()] == l2[order[order.len() - 1]]);
    }
}

/// One more command acts after the others.
pub proof fn lemma_apply_all_push(m: KvMap, cs: Seq<CommandSpec>, c: CommandSpec)
    ensures
        apply_all(m, cs.push(c)) == apply(apply_all(m, cs), c),
    decreases cs.len(),
{
    if cs.len() == 0 {
        assert(cs.push(c).subrange(1, 1) =~= Seq::<CommandSpec>::empty());
        assert(cs.push(c)[0] == c);
        assert(apply_all(apply(m, c), Seq::<CommandSpec>::empty()) == apply(m, c));
    } else {
        let rest = cs.subrange(1, cs.len() as int);
        lemma_apply_all_push(apply(m, cs[0]), rest, c);
        assert(cs.push(c).subrange(1, cs.len() + 1 as int) =~= rest.push(c));
        assert(cs.push(c)[0] == cs[0]);
    }
}

/// The index and the stale-byte counter after taking in `c`, whose record
/// lies at `at`: a `Put` points its key there and makes the record it
/// shadows stale; a `Remove` drops its key, and both the record it shadows
/// and itself are stale.
pub open spec fn record_step(
    entries: Map<Seq<u8>, CommandPos>,
    stale: u64,
    c: CommandSpec,
    at: CommandPos,
) -> (Map<Seq<u8>, CommandPos>, u64) {
    let shadowed: u64 = if entries.contains_key(c.key()) {
        entries[c.key()].len
    } else {
        0
    };
    match c {
        CommandSpec::Put { key, .. } => (entries.insert(key, at), sat_add(stale, shadowed)),
        CommandSpec::Remove { key } => (entries.remove(key), sat_add(stale, sat_add(shadowed, at.len))),
    }
}

/// The index and the stale-byte counter after replaying the records of the
/// log `gen`, whose bytes are `s`, from offset `at` up to the first place
/// where no whole record stands.
pub open spec fn replay_index(
    entries: Map<Seq<u8>, CommandPos>,
    stale: u64,
    gen: u64,
    s: Seq<u8>,
    at: int,
) -> (Map<Seq<u8>, CommandPos>, u64)
    decreases s.len() - at,
{
    if at < 0 || at >= s.len() {
        (entries, stale)
    } else {
        match parse(s.subrange(at, s.len() as int)) {
            Ok((c, n)) => if n > 0 && at + n <= s.len() && at + n <= u64::MAX {
                let (e2, st2) = record_step(entries, stale, c, CommandPos { gen, pos: at as u64, len: n as u64 });
                replay_index(e2, st2, gen, s, at + n)
            } else {
                (entries, stale)
            },
            Err(_) => (entries, stale),
        }
    }
}

/// The value that a read of `record` gives: the value of a `Put`.
pub open spec fn value_in_record(record: Seq<u8>) -> Option<Seq<u8>> {
    match parse(record) {
        Ok((CommandSpec::Put { value, .. }, _)) => Some(value),
        _ => None,
    }
}

/// The bytes that the locations of `copies` hold, back to back.
pub open spec fn copied_bytes(logs: Map<u64, Seq<u8>>, copies: Seq<CommandPos>) -> Seq<u8>
    decreases copies.len(),
{
    if copies.len() == 0 {
        Seq::empty()
    } else {
        copied_bytes(logs, copies.drop_last()) + record_at(logs, copies.last())
    }
}

/// Whether `s` lists each entry of `entries` once: its key and location.
pub open spec fn lists_entries(s: Seq<(Vec<u8>, CommandPos)>, entries: Map<Seq<u8>, CommandPos>) -> bool {
    &&& forall|a: int, b: int| 0 <= a < b < s.len() ==> s[a].0@ != s[b].0@
    &&& forall|a: int|
        0 <= a < s.len() ==> entries.contains_key(#[trigger] s[a].0@) && entries[s[a].0@] == s[a].1
    &&& forall|k: Seq<u8>|
        entries.contains_key(k) ==> exists|a: int| 0 <= a < s.len() && #[trigger] s[a].0@ == k
}

/// The total length of the records that `s` locates.
pub open spec fn total_len(s: Seq<(Vec<u8>, CommandPos)>) -> nat
    decreases s.len(),
{
    if s.len() == 0 {
        0
    } else {
        total_len(s.drop_last()) + s.last().1.len as nat
    }
}

/// The locations that `s` lists, in its order.
pub open spec fn positions(s: Seq<(Vec<u8>, CommandPos)>) -> Seq<CommandPos> {
    Seq::new(s.len(), |i: int| s[i].1)
}

/// Where the compaction into log `c` puts the `i`-th record of `s`: after
/// the records before it, back to back.
pub open spec fn moved_to(s: Seq<(Vec<u8>, CommandPos)>, i: int, c: u64) -> CommandPos {
    CommandPos { gen: c, pos: total_len(s.subrange(0, i)) as u64, len: s[i].1.len }
}

/// A prefix holds no more bytes than the whole, and one more record adds its
/// length.
pub proof fn lemma_total_prefix(s: Seq<(Vec<u8>, CommandPos)>, j: int)
    requires
        0 <= j <= s.len(),
    ensures
        total_len(s.subrange(0, j)) <= total_len(s),
        j < s.len() ==> total_len(s.subrange(0, j + 1)) == total_len(s.subrange(0, j)) + s[j].1.len,
    decreases s.len() - j,
{
    if j == s.len() {
        assert(s.subrange(0, j) =~= s);
    } else {
        lemma_total_prefix(s, j + 1);
        assert(s.subrange(0, j + 1).drop_last() =~= s.subrange(0, j));
    }
}

/// A compaction for the caller to carry out on disk: create the log
/// `active_gen` for new writes, and copy the bytes at each location of
/// `copies`, back to back and in order, into the new log `compaction_gen`,
/// then flush it. The store moves its index only when told that this
/// succeeded.
pub struct CompactionPlan {
    pub compaction_gen: u64,
    pub active_gen: u64,
    pub copies: Vec<CommandPos>,
}

/// A record that is ready to be appended to the active log; the store takes
/// it into its index once the append has succeeded.
pub struct PendingWrite {
    cmd: Command,
    record: Vec<u8>,
}

impl PendingWrite {
    /// The command that the record holds.
    pub closed spec fn command(&self) -> CommandSpec {
        self.cmd@
    }

    /// The bytes to append.
    pub closed spec fn bytes(&self) -> Seq<u8> {
        self.record@
    }

    /// The record is the encoding of the command.
    pub closed spec fn wf(&self) -> bool {
        encodable(self.cmd@) && self.record@ == encoding(self.cmd@)
    }

    /// The bytes to append to the active log.
    pub fn record(&self) -> (r: &[u8])
        ensures
            r@ == self.bytes(),
    {
        self.record.as_slice()
    }
}

/// The store's bookkeeping: the index, the active generation and its length,
/// the stale-byte counter and the safe point.
pub struct KvCore {
    index: KeyIndex,
    current_gen: u64,
    /// Bytes appended so far to the active log.
    active_len: u64,
    uncompacted: u64,
    safe_point: u64,
    /// The live state.
    kv: Ghost<KvMap>,
    /// The bytes of each log file.
    logs: Ghost<Map<u64, Seq<u8>>>,
    /// The generations of `logs`, ascending.
    order: Ghost<Seq<u64>>,
    /// The commands whose records make up the active log.
    active_cmds: Ghost<Seq<CommandSpec>>,
    /// Every log but the active one lies below this generation: the lowest
    /// that a log replayed next may have.
    floor: u64,
    /// Whether a compaction has begun and not yet finished.
    compacting: bool,
    /// The log that the running compaction copies into.
    compaction_gen: u64,
    /// The entries that the running compaction moves, in order.
    pending: Vec<(Vec<u8>, CommandPos)>,
}

impl View for KvCore {
    type V = KvMap;

    closed spec fn view(&self) -> KvMap {
        self.kv@
    }
}

impl KvCore {
    /// The bytes of each log file, by generation.
    pub closed spec fn log_files(&self) -> Map<u64, Seq<u8>> {
        self.logs@
    }

    /// The generations of the logs, ascending.
    pub closed spec fn generations(&self) -> Seq<u64> {
        self.order@
    }

    /// The index entries.
    pub closed spec fn entries(&self) -> Map<Seq<u8>, CommandPos> {
        index_entries(self.index)
    }

    /// The active generation, the only log that is appended to.
    pub closed spec fn generation(&self) -> u64 {
        self.current_gen
    }

    /// The length of the active log.
    pub closed spec fn active_offset(&self) -> u64 {
        self.active_len
    }

    /// The stale-byte counter.
    pub closed spec fn stale_bytes(&self) -> u64 {
        self.uncompacted
    }

    /// The generation of the last finished compaction; no entry points below it.
    pub closed spec fn safe_generation(&self) -> u64 {
        self.safe_point
    }

    /// What a read of `k` gives: the value in the record that the index
    /// locates for `k`.
    pub open spec fn stored_value(&self, k: Seq<u8>) -> Option<Seq<u8>> {
        if self.entries().contains_key(k) {
            value_in_record(record_at(self.log_files(), self.entries()[k]))
        } else {
            None
        }
    }

    /// Whether a compaction has begun and not yet finished.
    pub closed spec fn compacting(&self) -> bool {
        self.compacting
    }

    /// The entries that the running compaction moves, in order.
    pub closed spec fn pending_copies(&self) -> Seq<(Vec<u8>, CommandPos)> {
        self.pending@
    }

    /// `self` is `before` after a finished compaction: the live records of
    /// `before`'s pending list lie back to back in the compaction log, every
    /// entry points at its copy, only the compaction log and the active log
    /// remain, the safe point is the compaction log and nothing is stale.
    pub open spec fn compacted_from(&self, before: KvCore) -> bool {
        let s = before.pending_copies();
        let c = (before.generation() - 1) as u64;
        &&& self.log_files() == Map::<u64, Seq<u8>>::empty().insert(
            c,
            copied_bytes(before.log_files(), positions(s)),
        ).insert(before.generation(), Seq::<u8>::empty())
        &&& self.generations() == Seq::<u64>::empty().push(c).push(before.generation())
        &&& self.generation() == before.generation()
        &&& self.active_offset() == 0
        &&& self.safe_generation() == c
        &&& self.stale_bytes() == 0
        &&& self.entries().dom() == before.entries().dom()
        &&& forall|i: int| 0 <= i < s.len() ==> self.entries()[#[trigger] s[i].0@] == moved_to(s, i, c)
    }

    /// `self` is `before` after an append that failed: nothing of the store
    /// changed, but for a new, empty, active log when a generation is left.
    pub open spec fn rotated_from(&self, before: KvCore) -> bool {
        &&& self@ == before@
        &&& self.entries() == before.entries()
        &&& self.stale_bytes() == before.stale_bytes()
        &&& self.safe_generation() == before.safe_generation()
        &&& !self.compacting()
        &&& if before.generation() < u64::MAX {
            &&& self.generation() == before.generation() + 1
            &&& self.active_offset() == 0
            &&& self.log_files() == before.log_files().insert(
                (before.generation() + 1) as u64,
                Seq::<u8>::empty(),
            )
            &&& self.generations() == before.generations().push((before.generation() + 1) as u64)
        } else {
            &&& self.generation() == before.generation()
            &&& self.active_offset() == before.active_offset()
            &&& self.log_files() == before.log_files()
            &&& self.generations() == before.generations()
        }
    }

    /// `self` is `before` after the record of `c` was appended to the active
    /// log and taken into the index.
    pub open spec fn committed_from(&self, before: KvCore, c: CommandSpec) -> bool {
        let gen = before.generation();
        let at = CommandPos { gen, pos: before.active_offset(), len: encoding(c).len() as u64 };
        &&& self@ == apply(before@, c)
        &&& self.log_files() == before.log_files().insert(gen, before.log_files()[gen] + encoding(c))
        &&& self.generation() == gen
        &&& self.generations() == before.generations()
        &&& self.active_offset() == before.active_offset() + encoding(c).len()
        &&& self.safe_generation() == before.safe_generation()
        &&& (self.entries(), self.stale_bytes()) == record_step(
            before.entries(),
            before.stale_bytes(),
            c,
            at,
        )
        &&& !self.compacting()
    }

    /// While a compaction runs, its log and the active log are empty and its
    /// pending list holds every entry once, with room for all in one log.
    pub closed spec fn compaction_ok(&self) -> bool {
        self.compacting ==> {
            &&& self.current_gen >= 1
            &&& self.compaction_gen == self.current_gen - 1
            &&& self.order@.len() >= 2
            &&& self.order@[self.order@.len() - 2] == self.compaction_gen
            &&& self.log_files()[self.compaction_gen] == Seq::<u8>::empty()
            &&& self.active_len == 0
            &&& lists_entries(self.pending@, self.entries())
            &&& total_len(self.pending@) <= u64::MAX
        }
    }

    /// The invariant: the index is right, and replaying the logs in order
    /// gives the live state.
    pub closed spec fn wf(&self) -> bool {
        &&& self.index_ok()
        &&& self.logs_ok()
        &&& self.compaction_ok()
    }

    /// The logs, replayed in ascending order of generation, give the live
    /// state, and the active log, the newest, holds whole records only.
    pub closed spec fn logs_ok(&self) -> bool {
        &&& forall|a: int, b: int|
            0 <= a < b < self.order@.len() ==> self.order@[a] < self.order@[b]
        &&& forall|g: u64| self.log_files().contains_key(g) <==> self.order@.contains(g)
        &&& self.order@.len() > 0
        &&& self.order@.last() == self.current_gen
        &&& self.floor <= self.current_gen
        &&& forall|i: int| 0 <= i < self.order@.len() - 1 ==> #[trigger] self.order@[i] < self.floor
        &&& forall|i: int| 0 <= i < self.active_cmds@.len() ==> encodable(#[trigger] self.active_cmds@[i])
        &&& self.log_files()[self.current_gen] == log_of(self.active_cmds@)
        &&& self@ == replay(self.log_files(), self.order@)
    }

    /// The index has an entry for each live key and no other, each entry
    /// locates a whole `Put` record of its key and live value at or above the
    /// safe point, and the active log is the newest one.
    pub closed spec fn index_ok(&self) -> bool {
        &&& self.entries().dom() == self@.dom()
        &&& forall|k: Seq<u8>|
            #![trigger self.entries()[k]]
            self.entries().contains_key(k) ==> points_at(self.log_files(), self.entries()[k], k, self@[k])
                && self.entries()[k].gen >= self.safe_point
        &&& self.log_files().contains_key(self.current_gen)
        &&& self.log_files()[self.current_gen].len() == self.active_len
        &&& forall|g: u64| #[trigger]
            self.log_files().contains_key(g) ==> self.safe_point <= g <= self.current_gen
    }

    /// Under the invariant, a read of each key gives its live value.
    pub proof fn lemma_stored_values(&self)
        requires
            self.wf(),
        ensures
            forall|k: Seq<u8>|
                #[trigger] self.stored_value(k) == if self@.contains_key(k) {
                    Some(self@[k])
                } else {
                    None::<Seq<u8>>
                },
    {
        assert forall|k: Seq<u8>|
            #[trigger] self.stored_value(k) == if self@.contains_key(k) {
                Some(self@[k])
            } else {
                None::<Seq<u8>>
            } by {
            if self.entries().contains_key(k) {
                assert(points_at(self.log_files(), self.entries()[k], k, self@[k]));
            }
        }
    }

    /// Under the invariant the index has an entry for each live key only.
    pub proof fn lemma_index_domain(&self)
        requires
            self.wf(),
        ensures
            self.entries().dom() == self@.dom(),
            self.entries().len() == self@.len(),
    {
    }

    /// Under the invariant every log lies between the safe point and the
    /// active generation.
    pub proof fn lemma_log_range(&self)
        requires
            self.wf(),
        ensures
            forall|g: u64| #[trigger]
                self.log_files().contains_key(g) ==> self.safe_generation() <= g <= self.generation(),
    {
    }

    /// While a compaction runs, its pending list names every key of the
    /// index.
    pub proof fn lemma_pending_covers(&self, k: Seq<u8>)
        requires
            self.wf(),
            self.compacting(),
        ensures
            self.generation() >= 1,
            self.entries().contains_key(k) ==> exists|a: int|
                0 <= a < self.pending_copies().len() && #[trigger] self.pending_copies()[a].0@ == k,
    {
        if self.entries().contains_key(k) {
            let a = choose|a: int| 0 <= a < self.pending@.len() && #[trigger] self.pending@[a].0@ == k;
            assert(self.pending_copies()[a].0@ == k);
        }
    }

    /// Under the invariant the logs, replayed in ascending order of
    /// generation, give the live state.
    pub proof fn lemma_replay(&self)
        requires
            self.wf(),
        ensures
            self@ == replay(self.log_files(), self.generations()),
            forall|a: int, b: int|
                0 <= a < b < self.generations().len() ==> self.generations()[a] < self.generations()[b],
            forall|g: u64| self.log_files().contains_key(g) <==> self.generations().contains(g),
            self.generations().len() > 0,
            self.generations().last() == self.generation(),
    {
    }

    /// An empty store whose active log is generation 1.
    pub fn new() -> (r: KvCore)
        ensures
            r.wf(),
            r@ == KvMap::empty(),
            r.generation() == 1,
            r.active_offset() == 0,
            r.stale_bytes() == 0,
            r.safe_generation() == 0,
            r.log_files() == Map::<u64, Seq<u8>>::empty().insert(1u64, Seq::<u8>::empty()),
            !r.compacting(),
    {
        let r = KvCore {
            index: index_new(),
            current_gen: 1,
            active_len: 0,
            uncompacted: 0,
            safe_point: 0,
            kv: Ghost(KvMap::empty()),
            logs: Ghost(Map::<u64, Seq<u8>>::empty().insert(1u64, Seq::<u8>::empty())),
            order: Ghost(Seq::<u64>::empty().push(1u64)),
            active_cmds: Ghost(Seq::<CommandSpec>::empty()),
            floor: 0,
            compacting: false,
            compaction_gen: 0,
            pending: Vec::new(),
        };
        proof {
            lemma_commands_of_empty();
            assert(r.order@.drop_last() =~= Seq::<u64>::empty());
            assert(log_of(Seq::<CommandSpec>::empty()) =~= Seq::<u8>::empty());
            assert(r.order@.last() == 1u64);
            assert(replay(r.log_files(), Seq::<u64>::empty()) == KvMap::empty());
            assert(apply_all(KvMap::empty(), Seq::<CommandSpec>::empty()) == KvMap::empty());
            assert(r@ =~= replay(r.log_files(), r.order@));
            assert(forall|g: u64| r.log_files().contains_key(g) <==> r.order@.contains(g)) by {
                assert(r.order@[0] == 1u64);
            }
        }
        r
    }

    /// The lowest generation that a log replayed next may have.
    pub closed spec fn load_floor(&self) -> u64 {
        self.floor
    }

    /// The lowest generation that a log replayed next may have.
    pub fn floor(&self) -> (r: u64)
        ensures
            r == self.load_floor(),
    {
        self.floor
    }

    /// The active generation.
    pub fn current_gen(&self) -> (r: u64)
        ensures
            r == self.generation(),
    {
        self.current_gen
    }

    /// The length of the active log.
    pub fn active_len(&self) -> (r: u64)
        ensures
            r == self.active_offset(),
    {
        self.active_len
    }

    /// The stale-byte counter.
    pub fn uncompacted(&self) -> (r: u64)
        ensures
            r == self.stale_bytes(),
    {
        self.uncompacted
    }

    /// The generation of the last finished compaction.
    pub fn safe_point(&self) -> (r: u64)
        ensures
            r == self.safe_generation(),
    {
        self.safe_point
    }

    /// Takes into the index the record `cmd`, which lies at `pos` in log `gen`
    /// and is `len` bytes long.
    fn apply_record(&mut self, cmd: Command, gen: u64, pos: u64, len: u64)
        requires
            old(self).index_ok(),
            old(self).safe_point <= gen,
            old(self).log_files().contains_key(gen),
            pos + len <= old(self).log_files()[gen].len(),
            parse(old(self).log_files()[gen].subrange(pos as int, pos + len)) == Ok::<
                (CommandSpec, nat),
                DecodeError,
            >((cmd@, len as nat)),
        ensures
            final(self).index_ok(),
            final(self)@ == apply(old(self)@, cmd@),
            final(self).log_files() == old(self).log_files(),
            final(self).order == old(self).order,
            final(self).active_cmds == old(self).active_cmds,
            final(self).compacting == old(self).compacting,
            final(self).floor == old(self).floor,
            final(self).generation() == old(self).generation(),
            final(self).active_offset() == old(self).active_offset(),
            final(self).safe_generation() == old(self).safe_generation(),
            (final(self).entries(), final(self).stale_bytes()) == record_step(
                old(self).entries(),
                old(self).stale_bytes(),
                cmd@,
                CommandPos { gen, pos, len },
            ),
    {
        match cmd {
            Command::Put { key, value } => {
                match index_get(&self.index, &key) {
                    Some(p) => {
                        self.uncompacted = self.uncompacted.saturating_add(p.len);
                    },
                    None => {},
                }
                let ghost k = key@;
                let ghost v = value@;
                let np = CommandPos { gen, pos, len };
                index_insert(&mut self.index, key, np);
                self.kv = Ghost(self.kv@.insert(k, v));
                proof {
                    assert(record_at(self.logs@, np) == self.logs@[gen].subrange(pos as int, pos + len));
                    assert(self.entries().dom() =~= self@.dom());
                }
            },
            Command::Remove { key } => {
                let shadowed: u64 = match index_remove(&mut self.index, &key) {
                    Some(p) => p.len,
                    None => 0,
                };
                self.uncompacted = self.uncompacted.saturating_add(shadowed.saturating_add(len));
                self.kv = Ghost(self.kv@.remove(key@));
                proof {
                    assert(self.entries().dom() =~= self@.dom());
                }
            },
        }
    }

    /// Replays the log of generation `gen`, whose bytes are `data`, into the
    /// index, and makes `gen + 1` the new, empty, active generation.
    ///
    /// Records are taken one after another from the start; at the first place
    /// where no whole record stands the replay of this log ends.
    pub fn load(&mut self, gen: u64, data: &[u8])
        requires
            old(self).wf(),
            old(self).active_offset() == 0,
            old(self).load_floor() <= gen < u64::MAX,
            old(self).safe_generation() <= gen,
            !old(self).compacting(),
        ensures
            final(self).wf(),
            !final(self).compacting(),
            final(self)@ == apply_all(old(self)@, commands_of(data@)),
            (final(self).entries(), final(self).stale_bytes()) == replay_index(
                old(self).entries(),
                old(self).stale_bytes(),
                gen,
                data@,
                0,
            ),
            final(self).generation() == gen + 1,
            final(self).active_offset() == 0,
            final(self).safe_generation() == old(self).safe_generation(),
            final(self).log_files() == old(self).log_files().remove(old(self).generation()).insert(
                gen,
                data@,
            ).insert((gen + 1) as u64, Seq::<u8>::empty()),
            final(self).generations() == old(self).generations().drop_last().push(gen).push(
                (gen + 1) as u64,
            ),
    {
        let ghost cur = self.current_gen;
        let ghost order0 = self.order@;
        let ghost view0 = self@;
        proof {
            assert forall|k: Seq<u8>| #[trigger]
                self.entries().contains_key(k) implies self.entries()[k].gen != gen
                && self.entries()[k].gen != gen + 1 && self.entries()[k].gen != cur by {
                let p = self.entries()[k];
                assert(points_at(self.log_files(), p, k, self@[k]));
                if p.gen == self.current_gen {
                    lemma_parse_bounds(record_at(self.log_files(), p));
                }
                assert(self.order@.contains(p.gen));
                let x = choose|x: int| 0 <= x < self.order@.len() && self.order@[x] == p.gen;
                if x < self.order@.len() - 1 {
                    assert(self.order@[x] < self.floor);
                }
            }
        }
        let ghost logs0 = self.logs@;
        proof {
            lemma_log_of_empty(self.active_cmds@);
            lemma_commands_of_empty();
            assert(apply_all(replay(logs0, order0.drop_last()), Seq::<CommandSpec>::empty()) == replay(
                logs0,
                order0.drop_last(),
            ));
            assert(view0 == replay(logs0, order0.drop_last()));
        }
        self.logs = Ghost(
            self.logs@.remove(cur).insert(gen, data@).insert((gen + 1) as u64, Seq::<u8>::empty()),
        );
        self.order = Ghost(self.order@.drop_last().push(gen).push((gen + 1) as u64));
        self.active_cmds = Ghost(Seq::<CommandSpec>::empty());
        self.current_gen = gen + 1;
        self.floor = gen + 1;
        proof {
            assert forall|k: Seq<u8>| #[trigger] self.entries().contains_key(k) implies record_at(
                self.logs@,
                self.entries()[k],
            ) == record_at(logs0, self.entries()[k]) by {}
            assert forall|g: u64| #[trigger]
                self.log_files().contains_key(g) implies self.safe_point <= g <= self.current_gen by {
                if g != gen && g != gen + 1 {
                    assert(logs0.contains_key(g));
                    assert(g != cur);
                    assert(order0.contains(g));
                    let x = choose|x: int| 0 <= x < order0.len() && order0[x] == g;
                    assert(x != order0.len() - 1);
                    assert(order0[x] < old(self).floor);
                }
            }
        }
        let ghost logs1 = self.logs@;
        let len = data.len();
        let mut at: usize = 0;
        assert(data@.subrange(0, len as int) =~= data@);
        while at < len
            invariant
                self.index_ok(),
                !self.compacting,
                self.floor == gen + 1,
                at <= len == data@.len(),
                self.logs@ == logs1,
                logs1 == logs0.remove(cur).insert(gen, data@).insert((gen + 1) as u64, Seq::<u8>::empty()),
                self.order == old(self).order@.drop_last().push(gen).push((gen + 1) as u64),
                self.active_cmds@ == Seq::<CommandSpec>::empty(),
                self.current_gen == gen + 1,
                self.active_len == 0,
                self.safe_point == old(self).safe_point,
                old(self).safe_point <= gen,
                apply_all(self@, commands_of(data@.subrange(at as int, len as int))) == apply_all(
                    old(self)@,
                    commands_of(data@),
                ),
                replay_index(self.entries(), self.uncompacted, gen, data@, at as int) == replay_index(
                    old(self).entries(),
                    old(self).stale_bytes(),
                    gen,
                    data@,
                    0,
                ),
            decreases len - at,
        {
            let ghost rest = data@.subrange(at as int, len as int);
            match decode(&data[at..len]) {
                Ok((cmd, n)) => {
                    proof {
                        lemma_commands_step(rest);
                        lemma_parse_prefix(rest, n as int);
                        assert(rest.subrange(0, n as int) =~= data@.subrange(at as int, at + n));
                        assert(rest.subrange(n as int, rest.len() as int) =~= data@.subrange(
                            at + n,
                            len as int,
                        ));
                        let cs = commands_of(rest);
                        assert(cs.subrange(1, cs.len() as int) =~= commands_of(
                            data@.subrange(at + n, len as int),
                        ));
                    }
                    proof {
                        lemma_parse_bounds(rest);
                    }
                    self.apply_record(cmd, gen, at as u64, n as u64);
                    at = at + n;
                },
                Err(_) => {
                    proof {
                        assert(commands_of(rest) =~= Seq::<CommandSpec>::empty());
                        reveal(parse);
                        assert(commands_of(data@.subrange(len as int, len as int)) =~= Seq::<CommandSpec>::empty());
                    }
                    at = len;
                },
            }
        }
        proof {
            assert(data@.subrange(at as int, len as int) =~= Seq::<u8>::empty());
            reveal(parse);
            assert(commands_of(Seq::<u8>::empty()) =~= Seq::<CommandSpec>::empty());
            assert(apply_all(self@, Seq::<CommandSpec>::empty()) == self@);
            let o = self.order@;
            let base = order0.drop_last();
            assert(o.drop_last() =~= base.push(gen));
            assert forall|i: int| 0 <= i < o.len() - 1 implies #[trigger] o[i] < self.floor by {
                if i < base.len() {
                    assert(o[i] == order0[i]);
                    assert(order0[i] < old(self).floor);
                }
            }
            assert(o.drop_last().drop_last() =~= base);
            assert forall|i: int| 0 <= i < base.len() implies logs1[#[trigger] base[i]] == logs0[base[i]] by {
                assert(order0[i] < order0[order0.len() - 1]);
                assert(base[i] == order0[i]);
                assert(order0.contains(order0[i]));
                assert(logs0.contains_key(order0[i]));
            }
            lemma_replay_frame(logs1, logs0, base);
            assert(log_of(Seq::<CommandSpec>::empty()) =~= Seq::<u8>::empty());
            assert(o.last() == gen + 1);
            assert(logs1[(gen + 1) as u64] == Seq::<u8>::empty());
            assert(replay(logs1, o) == apply_all(replay(logs1, o.drop_last()), commands_of(Seq::<u8>::empty())));
            assert(apply_all(replay(logs1, o.drop_last()), Seq::<CommandSpec>::empty()) == replay(logs1, o.drop_last()));
            assert(o.drop_last().last() == gen);
            assert(logs1[gen] == data@);
            assert(replay(logs1, o.drop_last()) == apply_all(replay(logs1, base), commands_of(data@)));
            assert(self@ == replay(self.log_files(), o));
            assert forall|a: int, b: int| 0 <= a < b < o.len() implies o[a] < o[b] by {
                if b < base.len() {
                    assert(o[a] == order0[a] && o[b] == order0[b]);
                } else if a < base.len() {
                    assert(o[a] == order0[a]);
                    assert(order0[a] < order0[order0.len() - 1]);
                }
            }
            assert forall|g: u64| self.log_files().contains_key(g) <==> o.contains(g) by {
                if self.log_files().contains_key(g) && g != gen && g != gen + 1 {
                    assert(logs0.contains_key(g) && g != cur);
                    assert(order0.contains(g));
                    let i = choose|i: int| 0 <= i < order0.len() && order0[i] == g;
                    assert(i != order0.len() - 1);
                    assert(o[i] == g);
                }
                if g == gen {
                    assert(o[o.len() - 2] == g);
                }
                if g == gen + 1 {
                    assert(o[o.len() - 1] == g);
                }
                if o.contains(g) && g != gen && g != gen + 1 {
                    let i = choose|i: int| 0 <= i < o.len() && o[i] == g;
                    assert(i < base.len());
                    assert(order0[i] == g);
                    assert(order0[i] < order0[order0.len() - 1]);
                    assert(order0.contains(g));
                    assert(logs0.contains_key(g));
                }
            }
        }
    }
    /// Whether a compaction has begun and not yet finished.
    pub fn is_compacting(&self) -> (r: bool)
        ensures
            r == self.compacting(),
    {
        self.compacting
    }

    /// Starts a new, empty, active log after an append that failed, so that
    /// no later record follows the bytes the failure left; when no generation
    /// is left the active log stays.
    fn rotate(&mut self)
        requires
            old(self).wf(),
            !old(self).compacting(),
        ensures
            final(self).wf(),
            final(self).rotated_from(*old(self)),
    {
        if self.current_gen < u64::MAX {
            let g = self.current_gen + 1;
            let ghost logs0 = self.logs@;
            let ghost order0 = self.order@;
            proof {
                assert forall|k: Seq<u8>| #[trigger] self.entries().contains_key(k) implies self.entries()[k].gen
                    != g by {
                    assert(points_at(logs0, self.entries()[k], k, self@[k]));
                }
            }
            self.logs = Ghost(logs0.insert(g, Seq::<u8>::empty()));
            self.order = Ghost(order0.push(g));
            self.active_cmds = Ghost(Seq::<CommandSpec>::empty());
            self.current_gen = g;
            self.floor = g;
            self.active_len = 0;
            proof {
                assert forall|k: Seq<u8>| #[trigger] self.entries().contains_key(k) implies record_at(
                    self.logs@,
                    self.entries()[k],
                ) == record_at(logs0, self.entries()[k]) by {}
                assert forall|g2: u64| #[trigger]
                    self.log_files().contains_key(g2) implies self.safe_point <= g2 <= self.current_gen by {
                    if g2 != g {
                        assert(logs0.contains_key(g2));
                    }
                }
                assert forall|i: int| 0 <= i < order0.len() implies self.logs@[#[trigger] order0[i]]
                    == logs0[order0[i]] by {
                    assert(order0.contains(order0[i]));
                }
                lemma_replay_frame(self.logs@, logs0, order0);
                lemma_commands_of_empty();
                assert(self.order@.drop_last() =~= order0);
                assert(apply_all(replay(self.logs@, order0), Seq::<CommandSpec>::empty()) == replay(
                    self.logs@,
                    order0,
                ));
                assert(log_of(Seq::<CommandSpec>::empty()) =~= Seq::<u8>::empty());
                assert forall|a: int, b: int|
                    0 <= a < b < self.order@.len() implies self.order@[a] < self.order@[b] by {
                    if b == order0.len() {
                        assert(order0.contains(order0[a]));
                    }
                }
                assert forall|g2: u64| self.log_files().contains_key(g2) <==> self.order@.contains(g2) by {
                    if g2 == g {
                        assert(self.order@[order0.len() as int] == g);
                    } else if self.order@.contains(g2) {
                        let j = choose|j: int| 0 <= j < self.order@.len() && self.order@[j] == g2;
                        assert(order0[j] == g2);
                        assert(order0.contains(g2));
                    } else if logs0.contains_key(g2) {
                        assert(order0.contains(g2));
                        let j = choose|j: int| 0 <= j < order0.len() && order0[j] == g2;
                        assert(self.order@[j] == g2);
                    }
                }
            }
        }
    }

    /// The pending write that sets `key` to `value`.
    ///
    /// Fails when a field is too long for its 32-bit length.
    pub fn prepare_set(key: Vec<u8>, value: Vec<u8>) -> (r: Result<PendingWrite, KvsError>)
        ensures
            r is Ok <==> encodable(CommandSpec::Put { key: key@, value: value@ }),
            r is Err ==> r == Err::<PendingWrite, KvsError>(KvsError::Encoding(EncodeError::FieldTooLong)),
            r matches Ok(w) ==> w.wf() && w.command() == (CommandSpec::Put { key: key@, value: value@ }),
    {
        let cmd = Command::Put { key, value };
        let mut record: Vec<u8> = Vec::new();
        match encode(&cmd, &mut record) {
            Ok(()) => {
                assert(record@ =~= encoding(cmd@));
                Ok(PendingWrite { cmd, record })
            },
            Err(e) => Err(KvsError::Encoding(e)),
        }
    }

    /// The pending write that removes `key`.
    ///
    /// Fails with `KeyNotFound` when the key is not in the store.
    pub fn prepare_remove(&self, key: &Vec<u8>) -> (r: Result<PendingWrite, KvsError>)
        requires
            self.wf(),
        ensures
            r is Ok <==> self@.contains_key(key@),
            r is Err ==> r == Err::<PendingWrite, KvsError>(KvsError::KeyNotFound),
            r matches Ok(w) ==> w.wf() && w.command() == (CommandSpec::Remove { key: key@ }),
    {
        match index_get(&self.index, key) {
            None => Err(KvsError::KeyNotFound),
            Some(p) => {
                proof {
                    assert(points_at(self.log_files(), p, key@, self@[key@]));
                    lemma_parse_encodable(record_at(self.log_files(), p));
                }
                let mut k: Vec<u8> = Vec::new();
                append_bytes(&mut k, key.as_slice());
                let cmd = Command::Remove { key: k };
                let mut record: Vec<u8> = Vec::new();
                match encode(&cmd, &mut record) {
                    Ok(()) => {
                        assert(record@ =~= encoding(cmd@));
                        assert(cmd@ == CommandSpec::Remove { key: key@ });
                        Ok(PendingWrite { cmd, record })
                    },
                    Err(e) => {
                        assert(false);
                        Err(KvsError::KeyNotFound)
                    },
                }
            },
        }
    }

    /// Takes into the index the write `w`, whose record the caller has
    /// appended to the active log with the result `outcome`.
    ///
    /// When the append failed, or the record would end past the largest
    /// offset a log can have, nothing changes but that a new, empty, active
    /// log starts, so that no later record follows what the failed append
    /// left. The ghost logs take a failed append as having left at most a
    /// torn record, which replay ignores. Otherwise the record is committed, and the result says
    /// whether the stale bytes have passed the threshold, so that a
    /// compaction is due.
    pub fn commit_write(&mut self, w: PendingWrite, outcome: Result<(), KvsError>) -> (r: Result<
        bool,
        KvsError,
    >)
        requires
            old(self).wf(),
            !old(self).compacting(),
            w.wf(),
        ensures
            final(self).wf(),
            match outcome {
                Err(e) => r == Err::<bool, KvsError>(e) && final(self).rotated_from(*old(self)),
                Ok(()) => if old(self).active_offset() + w.bytes().len() <= u64::MAX {
                    &&& final(self).committed_from(*old(self), w.command())
                    &&& r == Ok::<bool, KvsError>(
                        final(self).stale_bytes() > COMPACTION_THRESHOLD && final(self).generation()
                            <= u64::MAX - 2,
                    )
                } else {
                    &&& r == Err::<bool, KvsError>(KvsError::Encoding(EncodeError::LogFull))
                    &&& final(self).rotated_from(*old(self))
                },
            },
    {
        match outcome {
            Err(e) => {
                self.rotate();
                return Err(e);
            },
            Ok(()) => {},
        }
        let PendingWrite { cmd, record } = w;
        let pos = self.active_len;
        let rlen = record.len() as u64;
        if pos > u64::MAX - rlen {
            self.rotate();
            return Err(KvsError::Encoding(EncodeError::LogFull));
        }
        let gen = self.current_gen;
        let ghost before = self.logs@;
        let ghost cv = cmd@;
        let ghost act = self.active_cmds@;
        self.logs = Ghost(self.logs@.insert(gen, self.logs@[gen] + record@));
        self.active_cmds = Ghost(self.active_cmds@.push(cv));
        self.active_len = pos + rlen;
        proof {
            let grown = before[gen] + record@;
            assert(grown.subrange(pos as int, pos + rlen) =~= encoding(cv) + Seq::<u8>::empty());
            lemma_round_trip(cv, Seq::<u8>::empty());
            assert forall|k: Seq<u8>|
                #![trigger self.entries()[k]]
                self.entries().contains_key(k) implies points_at(
                    self.log_files(),
                    self.entries()[k],
                    k,
                    self@[k],
                ) && self.entries()[k].gen >= self.safe_point by {
                let q = self.entries()[k];
                assert(points_at(before, q, k, self@[k]));
                if q.gen == gen {
                    assert(grown.subrange(q.pos as int, q.pos + q.len) =~= before[gen].subrange(
                        q.pos as int,
                        q.pos + q.len,
                    ));
                }
            }
        }
        self.apply_record(cmd, gen, pos, rlen);
        proof {
            let o = self.order@;
            let base = o.drop_last();
            lemma_log_of_push(act, cv);
            lemma_commands_of_empty();
            assert(log_of(self.active_cmds@) + Seq::<u8>::empty() =~= log_of(self.active_cmds@));
            assert(log_of(act) + Seq::<u8>::empty() =~= log_of(act));
            assert forall|i: int| 0 <= i < self.active_cmds@.len() implies encodable(
                #[trigger] self.active_cmds@[i],
            ) by {
                if i < act.len() {
                    assert(self.active_cmds@[i] == act[i]);
                }
            }
            lemma_log_round_trip(self.active_cmds@, Seq::<u8>::empty());
            lemma_log_round_trip(act, Seq::<u8>::empty());
            assert forall|i: int| 0 <= i < base.len() implies self.logs@[#[trigger] base[i]] == before[base[i]] by {
                assert(o[i] < o[o.len() - 1]);
                assert(base[i] == o[i]);
            }
            lemma_replay_frame(self.logs@, before, base);
            lemma_apply_all_push(replay(before, base), act, cv);
            assert(self@ == replay(self.log_files(), o));
        }
        Ok(self.uncompacted > COMPACTION_THRESHOLD && self.current_gen <= u64::MAX - 2)
    }

    /// Begins a compaction: reserves the next generation for the compaction
    /// log and the one after it for new writes, and lists every live record
    /// to copy. The index does not move until the compaction finishes.
    ///
    /// Declines, changing nothing, when the generation numbers have run out
    /// or the live records would not fit one log.
    pub fn begin_compaction(&mut self) -> (r: Option<CompactionPlan>)
        requires
            old(self).wf(),
            !old(self).compacting(),
        ensures
            final(self).wf(),
            r is None ==> *final(self) == *old(self) && (old(self).generation() > u64::MAX - 2 || exists|
                s: Seq<(Vec<u8>, CommandPos)>,
            | lists_entries(s, old(self).entries()) && total_len(s) > u64::MAX),
            r matches Some(p) ==> {
                &&& old(self).generation() <= u64::MAX - 2
                &&& p.compaction_gen == old(self).generation() + 1
                &&& p.active_gen == old(self).generation() + 2
                &&& final(self).compacting()
                &&& final(self)@ == old(self)@
                &&& final(self).entries() == old(self).entries()
                &&& final(self).stale_bytes() == old(self).stale_bytes()
                &&& final(self).safe_generation() == old(self).safe_generation()
                &&& final(self).generation() == p.active_gen
                &&& final(self).active_offset() == 0
                &&& final(self).log_files() == old(self).log_files().insert(
                    p.compaction_gen,
                    Seq::<u8>::empty(),
                ).insert(p.active_gen, Seq::<u8>::empty())
                &&& final(self).generations() == old(self).generations().push(p.compaction_gen).push(
                    p.active_gen,
                )
                &&& lists_entries(final(self).pending_copies(), old(self).entries())
                &&& total_len(final(self).pending_copies()) <= u64::MAX
                &&& p.copies@ == positions(final(self).pending_copies())
            },
    {
        if self.current_gen > u64::MAX - 2 {
            return None;
        }
        let snapshot = index_snapshot(&self.index);
        let n = snapshot.len();
        let mut total: u64 = 0;
        let mut i: usize = 0;
        while i < n
            invariant
                n == snapshot@.len(),
                i <= n,
                total == total_len(snapshot@.subrange(0, i as int)),
                self.wf(),
                lists_entries(snapshot@, self.entries()),
            decreases n - i,
        {
            proof {
                lemma_total_prefix(snapshot@, i as int);
            }
            let l = snapshot[i].1.len;
            if l > u64::MAX - total {
                proof {
                    lemma_total_prefix(snapshot@, i + 1);
                    assert(lists_entries(snapshot@, self.entries()));
                }
                return None;
            }
            total = total + l;
            i = i + 1;
        }
        assert(snapshot@.subrange(0, n as int) =~= snapshot@);
        let mut copies: Vec<CommandPos> = Vec::new();
        let mut j: usize = 0;
        while j < n
            invariant
                n == snapshot@.len(),
                j <= n,
                copies@ == positions(snapshot@).subrange(0, j as int),
            decreases n - j,
        {
            copies.push(snapshot[j].1);
            j = j + 1;
            assert(copies@ =~= positions(snapshot@).subrange(0, j as int));
        }
        assert(copies@ =~= positions(snapshot@));
        let compaction_gen = self.current_gen + 1;
        let active_gen = self.current_gen + 2;
        let ghost logs0 = self.logs@;
        let ghost order0 = self.order@;
        proof {
            assert forall|k: Seq<u8>| #[trigger] self.entries().contains_key(k) implies self.entries()[k].gen
                < compaction_gen by {
                assert(points_at(logs0, self.entries()[k], k, self@[k]));
            }
        }
        self.logs = Ghost(logs0.insert(compaction_gen, Seq::<u8>::empty()).insert(active_gen, Seq::<u8>::empty()));
        self.order = Ghost(order0.push(compaction_gen).push(active_gen));
        self.active_cmds = Ghost(Seq::<CommandSpec>::empty());
        self.current_gen = active_gen;
        self.floor = active_gen;
        self.active_len = 0;
        self.compacting = true;
        self.compaction_gen = compaction_gen;
        self.pending = snapshot;
        proof {
            assert forall|k: Seq<u8>| #[trigger] self.entries().contains_key(k) implies record_at(
                self.logs@,
                self.entries()[k],
            ) == record_at(logs0, self.entries()[k]) by {}
            assert forall|g: u64| #[trigger]
                self.log_files().contains_key(g) implies self.safe_point <= g <= self.current_gen by {
                if g != compaction_gen && g != active_gen {
                    assert(logs0.contains_key(g));
                }
            }
            assert forall|a: int| 0 <= a < order0.len() implies self.logs@[#[trigger] order0[a]] == logs0[order0[a]] by {
                assert(order0.contains(order0[a]));
            }
            lemma_replay_frame(self.logs@, logs0, order0);
            lemma_commands_of_empty();
            let o = self.order@;
            assert(o.drop_last() =~= order0.push(compaction_gen));
            assert(o.drop_last().drop_last() =~= order0);
            assert(replay(self.logs@, o.drop_last()) == apply_all(replay(self.logs@, order0), Seq::<CommandSpec>::empty()));
            assert(replay(self.logs@, o) == apply_all(replay(self.logs@, o.drop_last()), Seq::<CommandSpec>::empty()));
            assert(log_of(Seq::<CommandSpec>::empty()) =~= Seq::<u8>::empty());
            assert forall|a: int, b: int| 0 <= a < b < o.len() implies o[a] < o[b] by {
                if b >= order0.len() && a < order0.len() {
                    assert(order0.contains(order0[a]));
                }
            }
            assert forall|g: u64| self.log_files().contains_key(g) <==> o.contains(g) by {
                if g == compaction_gen {
                    assert(o[order0.len() as int] == g);
                } else if g == active_gen {
                    assert(o[order0.len() + 1 as int] == g);
                } else if o.contains(g) {
                    let x = choose|x: int| 0 <= x < o.len() && o[x] == g;
                    assert(order0[x] == g);
                    assert(order0.contains(g));
                } else if logs0.contains_key(g) {
                    assert(order0.contains(g));
                    let x = choose|x: int| 0 <= x < order0.len() && order0[x] == g;
                    assert(o[x] == g);
                }
            }
        }
        Some(CompactionPlan { compaction_gen, active_gen, copies })
    }

    /// Finishes the running compaction, whose copying the caller did with the
    /// result `outcome`.
    ///
    /// When the copying succeeded every entry moves to its copy, the logs
    /// below the compaction log are dropped, the safe point becomes the
    /// compaction log and nothing is stale. When it failed the index stays
    /// where it was and the compaction is abandoned.
    #[verifier::rlimit(100)]
    pub fn finish_compaction(&mut self, outcome: Result<(), KvsError>) -> (r: Result<(), KvsError>)
        requires
            old(self).wf(),
            old(self).compacting(),
        ensures
            final(self).wf(),
            !final(self).compacting(),
            final(self)@ == old(self)@,
            match outcome {
                Ok(()) => r is Ok && final(self).compacted_from(*old(self)),
                Err(e) => {
                    &&& r == Err::<(), KvsError>(e)
                    &&& final(self).entries() == old(self).entries()
                    &&& final(self).log_files() == old(self).log_files()
                    &&& final(self).generations() == old(self).generations()
                    &&& final(self).generation() == old(self).generation()
                    &&& final(self).active_offset() == old(self).active_offset()
                    &&& final(self).safe_generation() == old(self).safe_generation()
                    &&& final(self).stale_bytes() == old(self).stale_bytes()
                },
            },
    {
        match outcome {
            Err(e) => {
                self.compacting = false;
                return Err(e);
            },
            Ok(()) => {},
        }
        let compaction_gen = self.compaction_gen;
        let active_gen = self.current_gen;
        let ghost logs0 = self.logs@;
        let ghost entries0 = self.entries();
        let ghost order0 = self.order@;
        let ghost pend = self.pending@;
        proof {
            assert forall|k: Seq<u8>| #[trigger] entries0.contains_key(k) implies entries0[k].gen
                < compaction_gen && points_at(logs0, entries0[k], k, old(self)@[k]) by {
                assert(points_at(logs0, entries0[k], k, self@[k]));
                lemma_parse_bounds(record_at(logs0, entries0[k]));
            }
            lemma_log_of_empty(self.active_cmds@);
        }
        let mut new_pos: u64 = 0;
        let mut i: usize = 0;
        let ghost mut copies: Seq<CommandPos> = Seq::empty();
        let ghost mut puts: Seq<CommandSpec> = Seq::empty();
        let n = self.pending.len();
        proof {
            assert(copied_bytes(logs0, copies) =~= Seq::<u8>::empty());
            assert(order0[order0.len() - 2] == compaction_gen);
            assert(order0.contains(compaction_gen));
            assert(logs0.insert(compaction_gen, Seq::<u8>::empty()) =~= logs0);
            assert(pend.subrange(0, 0) =~= Seq::<(Vec<u8>, CommandPos)>::empty());
            assert(log_of(puts) =~= Seq::<u8>::empty());
            assert(Set::new(|k: Seq<u8>| exists|j: int| 0 <= j < 0 && pend[j].0@ == k) =~= Set::<Seq<u8>>::empty());
            assert(old(self)@.restrict(Set::<Seq<u8>>::empty()) =~= KvMap::empty());
        }
        while i < n
            invariant
                self.index_ok(),
                self@ == old(self)@,
                self.pending@ == pend,
                pend == old(self).pending@,
                n == pend.len(),
                i <= n,
                self.current_gen == active_gen,
                active_gen == old(self).current_gen,
                compaction_gen == old(self).compaction_gen,
                compaction_gen == active_gen - 1,
                self.active_len == 0,
                self.safe_point == old(self).safe_point,
                self.uncompacted == old(self).uncompacted,
                self.compacting,
                self.order@ == order0,
                self.active_cmds@ == old(self).active_cmds@,
                logs0 == old(self).log_files(),
                logs0.contains_key(compaction_gen),
                logs0[compaction_gen] == Seq::<u8>::empty(),
                self.logs@ == logs0.insert(compaction_gen, copied_bytes(logs0, copies)),
                copies == positions(pend).subrange(0, i as int),
                new_pos == total_len(pend.subrange(0, i as int)),
                total_len(pend) <= u64::MAX,
                new_pos == copied_bytes(logs0, copies).len(),
                entries0 == old(self).entries(),
                self.entries().dom() == entries0.dom(),
                forall|k: Seq<u8>| #[trigger]
                    entries0.contains_key(k) ==> entries0[k].gen < compaction_gen && points_at(
                        logs0,
                        entries0[k],
                        k,
                        old(self)@[k],
                    ),
                lists_entries(pend, entries0),
                forall|a: int|
                    0 <= a < i ==> self.entries()[#[trigger] pend[a].0@] == moved_to(pend, a, compaction_gen),
                forall|a: int| i <= a < n ==> self.entries()[#[trigger] pend[a].0@] == pend[a].1,
                puts.len() == i,
                log_of(puts) == copied_bytes(logs0, copies),
                forall|j: int| 0 <= j < puts.len() ==> encodable(#[trigger] puts[j]),
                apply_all(old(self)@, puts) == old(self)@,
                apply_all(KvMap::empty(), puts) == old(self)@.restrict(
                    Set::new(|k: Seq<u8>| exists|j: int| 0 <= j < i && pend[j].0@ == k),
                ),
            decreases n - i,
        {
            let p = self.pending[i].1;
            proof {
                lemma_total_prefix(pend, i as int);
                lemma_total_prefix(pend, i + 1);
            }
            let mut key: Vec<u8> = Vec::new();
            append_bytes(&mut key, self.pending[i].0.as_slice());
            let np = CommandPos { gen: compaction_gen, pos: new_pos, len: p.len };
            let ghost k = key@;
            let ghost piece = record_at(logs0, p);
            let ghost before = self.logs@;
            proof {
                assert(key@ =~= pend[i as int].0@);
                assert(entries0[k] == p);
                assert(points_at(logs0, p, k, self@[k]));
                assert(copies.push(p).drop_last() =~= copies);
            }
            self.logs = Ghost(logs0.insert(compaction_gen, copied_bytes(logs0, copies) + piece));
            proof {
                let kept = copied_bytes(logs0, copies);
                assert((kept + piece).subrange(new_pos as int, new_pos + p.len) =~= piece);
                assert forall|k2: Seq<u8>| #[trigger]
                    self.entries().contains_key(k2) implies record_at(self.logs@, self.entries()[k2])
                    == record_at(before, self.entries()[k2]) by {
                    let q = self.entries()[k2];
                    assert(points_at(before, q, k2, self@[k2]));
                    if q.gen == compaction_gen {
                        assert((kept + piece).subrange(q.pos as int, q.pos + q.len) =~= kept.subrange(
                            q.pos as int,
                            q.pos + q.len,
                        ));
                    }
                }
            }
            proof {
                let c = CommandSpec::Put { key: k, value: old(self)@[k] };
                assert(piece.len() == p.len);
                lemma_parse_canonical(piece);
                lemma_parse_encodable(piece);
                lemma_log_of_push(puts, c);
                lemma_apply_all_push(old(self)@, puts, c);
                lemma_apply_all_push(KvMap::empty(), puts, c);
                let s_old = Set::new(|k2: Seq<u8>| exists|j: int| 0 <= j < i && pend[j].0@ == k2);
                let s_new = Set::new(|k2: Seq<u8>| exists|j: int| 0 <= j < i + 1 && pend[j].0@ == k2);
                assert(s_new =~= s_old.insert(k)) by {
                    assert(pend[i as int].0@ == k);
                }
                assert(old(self)@.restrict(s_old).insert(k, old(self)@[k]) =~= old(self)@.restrict(s_new));
                assert(old(self)@.insert(k, old(self)@[k]) =~= old(self)@);
                let np2 = puts.push(c);
                assert forall|j: int| 0 <= j < np2.len() implies encodable(#[trigger] np2[j]) by {
                    if j < puts.len() {
                        assert(np2[j] == puts[j]);
                    }
                }
                puts = np2;
                copies = copies.push(p);
                assert(copies =~= positions(pend).subrange(0, i + 1));
            }
            let ghost idx_before = self.entries();
            index_insert(&mut self.index, key, np);
            new_pos = new_pos + p.len;
            i = i + 1;
            proof {
                assert(np == moved_to(pend, i - 1, compaction_gen));
                assert(record_at(self.logs@, np) == piece);
                assert forall|a: int| 0 <= a < i implies self.entries()[#[trigger] pend[a].0@] == moved_to(
                    pend,
                    a,
                    compaction_gen,
                ) by {
                    if a < i - 1 {
                        assert(pend[a].0@ != k);
                    }
                }
                assert forall|a: int| i <= a < n implies self.entries()[#[trigger] pend[a].0@] == pend[a].1 by {
                    assert(pend[a].0@ != pend[i - 1].0@);
                }
                assert(self.entries().dom() =~= entries0.dom());
                assert forall|k2: Seq<u8>|
                    #![trigger self.entries()[k2]]
                    self.entries().contains_key(k2) implies points_at(
                        self.log_files(),
                        self.entries()[k2],
                        k2,
                        self@[k2],
                    ) && self.entries()[k2].gen >= self.safe_point by {
                    if k2 == k {
                        assert(self.entries()[k2] == np);
                        assert(points_at(logs0, p, k, self@[k]));
                        assert(self.log_files().contains_key(compaction_gen));
                    } else {
                        let q = idx_before[k2];
                        assert(self.entries()[k2] == q);
                        assert(points_at(before, q, k2, self@[k2]));
                        assert(record_at(self.logs@, q) == record_at(before, q));
                    }
                }
                assert forall|g: u64| #[trigger]
                    self.log_files().contains_key(g) implies self.safe_point <= g <= self.current_gen by {
                    assert(logs0.contains_key(g));
                }
            }
        }
        proof {
            assert(copies =~= positions(pend));
            assert forall|k: Seq<u8>| #[trigger] self.entries().contains_key(k) implies self.entries()[
                k].gen == compaction_gen by {
                let a = choose|a: int| 0 <= a < pend.len() && #[trigger] pend[a].0@ == k;
            }
        }
        let ghost before = self.logs@;
        self.logs = Ghost(
            Map::<u64, Seq<u8>>::empty().insert(compaction_gen, copied_bytes(logs0, copies)).insert(
                active_gen,
                Seq::<u8>::empty(),
            ),
        );
        self.order = Ghost(Seq::<u64>::empty().push(compaction_gen).push(active_gen));
        self.safe_point = compaction_gen;
        self.uncompacted = 0;
        self.compacting = false;
        self.floor = active_gen;
        proof {
            let all = Set::new(|k: Seq<u8>| exists|j: int| 0 <= j < i && pend[j].0@ == k);
            assert(all =~= old(self)@.dom()) by {
                assert forall|k: Seq<u8>| all.contains(k) implies old(self)@.dom().contains(k) by {
                    let j = choose|j: int| 0 <= j < i && pend[j].0@ == k;
                    assert(entries0.contains_key(pend[j].0@));
                }
                assert forall|k: Seq<u8>| old(self)@.dom().contains(k) implies all.contains(k) by {
                    assert(entries0.contains_key(k));
                    let a = choose|a: int| 0 <= a < pend.len() && #[trigger] pend[a].0@ == k;
                }
            }
            assert(old(self)@.restrict(all) =~= old(self)@);
            assert forall|k2: Seq<u8>|
                #![trigger self.entries()[k2]]
                self.entries().contains_key(k2) implies points_at(
                    self.log_files(),
                    self.entries()[k2],
                    k2,
                    self@[k2],
                ) && self.entries()[k2].gen >= self.safe_point by {
                assert(points_at(before, self.entries()[k2], k2, self@[k2]));
            }
            let o = self.order@;
            let copied = copied_bytes(logs0, copies);
            lemma_commands_of_empty();
            assert(log_of(puts) + Seq::<u8>::empty() =~= log_of(puts));
            lemma_log_round_trip(puts, Seq::<u8>::empty());
            assert(commands_of(copied) == puts);
            assert(o.last() == active_gen);
            assert(o.drop_last().last() == compaction_gen);
            assert(o.drop_last().drop_last() =~= Seq::<u64>::empty());
            assert(replay(self.log_files(), o) == apply_all(replay(self.log_files(), o.drop_last()), Seq::<CommandSpec>::empty()));
            assert(replay(self.log_files(), Seq::<u64>::empty()) == KvMap::empty());
            assert(self.log_files()[compaction_gen] == copied);
            assert(replay(self.log_files(), o.drop_last()) == apply_all(
                replay(self.log_files(), o.drop_last().drop_last()),
                commands_of(self.log_files()[compaction_gen]),
            ));
            assert(replay(self.log_files(), o.drop_last()) == apply_all(KvMap::empty(), puts));
            assert(self@ == replay(self.log_files(), o));
            assert(log_of(Seq::<CommandSpec>::empty()) =~= Seq::<u8>::empty());
            assert forall|g: u64| self.log_files().contains_key(g) <==> o.contains(g) by {
                if g == compaction_gen {
                    assert(o[0] == g);
                }
                if g == active_gen {
                    assert(o[1] == g);
                }
            }
            assert(forall|j: int| 0 <= j < o.len() - 1 ==> #[trigger] o[j] < self.floor);
            assert(self.logs_ok());
            assert(self.index_ok());
        }
        Ok(())
    }

    /// Where the record of `key`'s live value lies, if the key is in the
    /// store.
    pub fn locate(&self, key: &Vec<u8>) -> (r: Option<CommandPos>)
        requires
            self.wf(),
        ensures
            r is Some <==> self@.contains_key(key@),
            r matches Some(p) ==> p == self.entries()[key@] && value_in_record(
                record_at(self.log_files(), p),
            ) == Some(self@[key@]),
    {
        let r = index_get(&self.index, key);
        proof {
            if self.entries().contains_key(key@) {
                assert(points_at(self.log_files(), self.entries()[key@], key@, self@[key@]));
            }
        }
        r
    }

}

} // verus!

verus! {

/// The value held in `record`, the bytes that the index locates for a key.
///
/// Any other record, or bytes that are no whole record, mean that the log and
/// the index disagree: `UnexpectedCommandType`.
pub fn value_from_record(record: &[u8]) -> (r: Result<Vec<u8>, KvsError>)
    ensures
        match value_in_record(record@) {
            Some(v) => r matches Ok(w) && w@ == v,
            None => r == Err::<Vec<u8>, KvsError>(KvsError::UnexpectedCommandType),
        },
{
    match decode(record) {
        Ok((Command::Put { value, .. }, _)) => Ok(value),
        _ => Err(KvsError::UnexpectedCommandType),
    }
}

} // verus!
