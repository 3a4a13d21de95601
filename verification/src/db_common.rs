//! When the memtable is frozen, and how one that was replayed from the write-ahead log
//! takes its place.

use crate::error::SlateDBError;
use std::collections::VecDeque;
use vstd::prelude::*;

verus! {

/// How many write-ahead log flushes may pass before the memtable is frozen.
pub const MAX_WAL_FLUSHES_BEFORE_L0_FLUSH: u64 = 4096;

/// A memtable, as far as freezing goes: which one it is, zero for one that has yet to get
/// entries, and how much it holds.
#[derive(Clone, Copy, Debug, PartialEq, Eq, Structural)]
pub struct Memtable {
    pub id: u64,
    pub entry_num: usize,
    pub entries_size_in_bytes: usize,
}

impl Memtable {
    pub open spec fn is_empty_spec(self) -> bool {
        self.entry_num == 0
    }

    /// A memtable without entries.
    pub fn empty() -> (r: Memtable)
        ensures
            r == (Memtable { id: 0, entry_num: 0, entries_size_in_bytes: 0 }),
    {
        Memtable { id: 0, entry_num: 0, entries_size_in_bytes: 0 }
    }

    /// Whether there are no entries.
    pub fn is_empty(&self) -> (r: bool)
        ensures
            r == self.is_empty_spec(),
    {
        self.entry_num == 0
    }
}

/// A frozen memtable, with the last write-ahead log flush before it was frozen.
#[derive(Clone, Copy, Debug, PartialEq, Eq, Structural)]
pub struct ImmutableMemtable {
    pub table: Memtable,
    pub recent_flushed_wal_id: u64,
}

/// A memtable rebuilt from the write-ahead log.
#[derive(Clone, Copy, Debug, PartialEq, Eq, Structural)]
pub struct ReplayedMemtable {
    pub table: Memtable,
    pub last_wal_id: u64,
    pub last_seq: u64,
}

/// The part of the database state that freezing and replay work on.
pub struct DbInner {
    pub memtable: Memtable,
    /// The frozen memtables, newest first.
    pub imm_memtable: VecDeque<ImmutableMemtable>,
    /// The last write-ahead log flush.
    pub recent_flushed_wal_id: u64,
    /// What the manifest says was flushed when the database was opened.
    pub replay_after_wal_id: u64,
    pub next_wal_sst_id: u64,
    pub last_seq: u64,
    pub last_committed_seq: u64,
    /// The size at which a memtable is worth an SST.
    pub l0_sst_size_bytes: usize,
}

impl DbInner {
    /// The write-ahead log flush at which a memtable was last frozen.
    pub open spec fn last_freeze_wal_id(self) -> u64 {
        if self.imm_memtable@.len() > 0 {
            self.imm_memtable@[0].recent_flushed_wal_id
        } else {
            self.replay_after_wal_id
        }
    }

    /// The memtable is worth freezing: many flushes have passed, or it is large.
    pub open spec fn is_due(self, l0_sst_size_est: usize) -> bool {
        self.recent_flushed_wal_id - self.last_freeze_wal_id() >= MAX_WAL_FLUSHES_BEFORE_L0_FLUSH
            || l0_sst_size_est >= self.l0_sst_size_bytes
    }

    /// The state after the memtable was frozen at `wal_id`. An empty memtable stays.
    pub open spec fn is_frozen_at(self, after: DbInner, wal_id: u64) -> bool {
        &&& after.recent_flushed_wal_id == self.recent_flushed_wal_id
        &&& after.replay_after_wal_id == self.replay_after_wal_id
        &&& after.next_wal_sst_id == self.next_wal_sst_id
        &&& after.last_seq == self.last_seq
        &&& after.last_committed_seq == self.last_committed_seq
        &&& after.l0_sst_size_bytes == self.l0_sst_size_bytes
        &&& if self.memtable.is_empty_spec() {
            &&& after.memtable == self.memtable
            &&& after.imm_memtable@ == self.imm_memtable@
        } else {
            &&& after.memtable == (Memtable { id: 0, entry_num: 0, entries_size_in_bytes: 0 })
            &&& after.imm_memtable@ == seq![
                ImmutableMemtable { table: self.memtable, recent_flushed_wal_id: wal_id },
            ] + self.imm_memtable@
        }
    }

    /// No memtable was frozen after the last flush.
    pub open spec fn wf(self) -> bool {
        &&& self.replay_after_wal_id <= self.recent_flushed_wal_id
        &&& forall|i: int|
            0 <= i < self.imm_memtable@.len() ==> (#[trigger] self.imm_memtable@[i]).recent_flushed_wal_id
                <= self.recent_flushed_wal_id
    }

    /// Freezes the memtable at `wal_id`. Returns whether there was something to freeze, which
    /// the flusher is then told.
    pub fn freeze_memtable(&mut self, wal_id: u64) -> (r: Result<bool, SlateDBError>)
        ensures
            old(self).is_frozen_at(*final(self), wal_id),
            r == Ok::<bool, SlateDBError>(!old(self).memtable.is_empty_spec()),
    {
        if self.memtable.is_empty() {
            return Ok(false);
        }
        let ghost before = self.imm_memtable@;
        let table = self.memtable;
        self.imm_memtable.push_front(ImmutableMemtable { table, recent_flushed_wal_id: wal_id });
        self.memtable = Memtable::empty();
        assert(self.imm_memtable@ =~= seq![
            ImmutableMemtable { table, recent_flushed_wal_id: wal_id },
        ] + before);
        Ok(true)
    }

    /// Freezes the memtable at the last flush.
    pub fn freeze_current_memtable(&mut self) -> (r: Result<bool, SlateDBError>)
        ensures
            old(self).is_frozen_at(*final(self), old(self).recent_flushed_wal_id),
            old(self).wf() ==> final(self).wf(),
            r == Ok::<bool, SlateDBError>(!old(self).memtable.is_empty_spec()),
    {
        let wal_id: u64 = self.recent_flushed_wal_id;
        let ghost before = *self;
        let r = self.freeze_memtable(wal_id);
        proof {
            if before.wf() {
                lemma_freeze_keeps_order(before, *self, wal_id);
            }
        }
        r
    }

    /// Freezes the memtable at the last flush if it is worth it. `l0_sst_size_est` is the size
    /// of the SST that it would make. Fails if the log is behind the last freeze.
    pub fn maybe_freeze_current_memtable(&mut self, l0_sst_size_est: usize) -> (r: Result<
        bool,
        SlateDBError,
    >)
        ensures
            old(self).wf() ==> r is Ok && final(self).wf(),
            has_maybe_frozen(*old(self), *final(self), l0_sst_size_est, r),
    {
        let wal_id: u64 = self.recent_flushed_wal_id;
        let ghost before = *self;
        let last_freeze_wal_id: u64 = if self.imm_memtable.len() > 0 {
            self.imm_memtable[0].recent_flushed_wal_id
        } else {
            self.replay_after_wal_id
        };
        let wal_id_gap: u64 = match wal_id.checked_sub(last_freeze_wal_id) {
            Some(gap) => gap,
            None => {
                return Err(SlateDBError::InvalidDBState);
            },
        };
        if wal_id_gap >= MAX_WAL_FLUSHES_BEFORE_L0_FLUSH || l0_sst_size_est
            >= self.l0_sst_size_bytes {
            let r = self.freeze_memtable(wal_id);
            proof {
                if before.wf() {
                    lemma_freeze_keeps_order(before, *self, wal_id);
                }
            }
            r
        } else {
            Ok(false)
        }
    }

    /// Puts a memtable that was replayed from the write-ahead log into the place of the
    /// current one, which is frozen first. `tick` is the answer of the clock when it was set
    /// to the last tick of the replay. Sequence numbers must not go backwards.
    ///
    /// A log segment may reach across memtables, so only the one before the last counts as
    /// flushed.
    pub fn replay_memtable(
        &mut self,
        replayed: ReplayedMemtable,
        tick: Result<(), SlateDBError>,
    ) -> (r: Result<bool, SlateDBError>)
        requires
            old(self).last_seq <= replayed.last_seq,
            old(self).last_committed_seq <= replayed.last_seq,
            replayed.last_wal_id < u64::MAX,
        ensures
            old(self).wf() ==> final(self).wf(),
            has_replayed(*old(self), *final(self), replayed, tick, r),
    {
        let flushed: u64 = if replayed.last_wal_id > 0 {
            replayed.last_wal_id - 1
        } else {
            0
        };
        if flushed > self.recent_flushed_wal_id {
            self.recent_flushed_wal_id = flushed;
        }
        let ghost raised = *self;
        let frozen = self.freeze_memtable(flushed);
        proof {
            if raised.wf() {
                lemma_freeze_keeps_order(raised, *self, flushed);
            }
        }
        self.last_seq = replayed.last_seq;
        self.last_committed_seq = replayed.last_seq;
        match tick {
            Err(e) => Err(e),
            Ok(()) => {
                self.next_wal_sst_id = replayed.last_wal_id + 1;
                self.memtable = replayed.table;
                frozen
            },
        }
    }
}

/// `after` is `before` when it has been asked to freeze its memtable if that is worth it, and
/// has answered `r`.
pub open spec fn has_maybe_frozen(
    before: DbInner,
    after: DbInner,
    l0_sst_size_est: usize,
    r: Result<bool, SlateDBError>,
) -> bool {
    &&& r is Err <==> before.recent_flushed_wal_id < before.last_freeze_wal_id()
    &&& r matches Err(e) ==> e == SlateDBError::InvalidDBState && after == before
    &&& r matches Ok(frozen) ==> if before.is_due(l0_sst_size_est) {
        &&& before.is_frozen_at(after, before.recent_flushed_wal_id)
        &&& frozen == !before.memtable.is_empty_spec()
    } else {
        !frozen && after == before
    }
}

/// `after` is `before` when a replayed memtable has taken the place of its own, or the clock
/// has refused the tick of the replay, and it has answered `r`.
pub open spec fn has_replayed(
    before: DbInner,
    after: DbInner,
    replayed: ReplayedMemtable,
    tick: Result<(), SlateDBError>,
    r: Result<bool, SlateDBError>,
) -> bool {
    let flushed = flushed_before(replayed.last_wal_id);
    let frozen = !before.memtable.is_empty_spec();
    &&& after.recent_flushed_wal_id == if flushed > before.recent_flushed_wal_id {
        flushed
    } else {
        before.recent_flushed_wal_id as int
    }
    &&& after.replay_after_wal_id == before.replay_after_wal_id
    &&& after.l0_sst_size_bytes == before.l0_sst_size_bytes
    &&& after.last_seq == replayed.last_seq
    &&& after.last_committed_seq == replayed.last_seq
    &&& after.imm_memtable@ == if frozen {
        seq![
            ImmutableMemtable { table: before.memtable, recent_flushed_wal_id: flushed as u64 },
        ] + before.imm_memtable@
    } else {
        before.imm_memtable@
    }
    &&& tick is Ok ==> after.memtable == replayed.table && after.next_wal_sst_id
        == replayed.last_wal_id + 1 && r == Ok::<bool, SlateDBError>(frozen)
    &&& tick matches Err(e) ==> after.memtable == (if frozen {
        Memtable { id: 0, entry_num: 0, entries_size_in_bytes: 0 }
    } else {
        before.memtable
    }) && after.next_wal_sst_id == before.next_wal_sst_id && r == Err::<bool, SlateDBError>(e)
}

/// The last log segment that is known to be flushed when `last_wal_id` was replayed.
pub open spec fn flushed_before(last_wal_id: u64) -> int {
    if last_wal_id > 0 {
        last_wal_id - 1
    } else {
        0
    }
}

/// Freezing keeps every freeze at or before the last flush, so that the next freeze finds the
/// database in order.
pub proof fn lemma_freeze_keeps_order(before: DbInner, after: DbInner, wal_id: u64)
    requires
        before.wf(),
        wal_id <= before.recent_flushed_wal_id,
        before.is_frozen_at(after, wal_id),
    ensures
        after.wf(),
        after.last_freeze_wal_id() <= after.recent_flushed_wal_id,
        !before.memtable.is_empty_spec() ==> after.last_freeze_wal_id() == wal_id,
{
    if !before.memtable.is_empty_spec() {
        assert forall|i: int| 0 <= i < after.imm_memtable@.len() implies (
        #[trigger] after.imm_memtable@[i]).recent_flushed_wal_id <= after.recent_flushed_wal_id by {
            if i > 0 {
                assert(after.imm_memtable@[i] == before.imm_memtable@[i - 1]);
            }
        }
    }
}

/// Freezing twice in a row freezes once: what is left after the first time is empty.
pub proof fn lemma_freeze_is_idempotent(a: DbInner, b: DbInner, c: DbInner, wal_id: u64, again: u64)
    requires
        a.is_frozen_at(b, wal_id),
        b.is_frozen_at(c, again),
    ensures
        c.memtable == b.memtable,
        c.imm_memtable@ == b.imm_memtable@,
{
}

/// The frozen memtables of `after` are `table`, frozen at `wal_id`, and then those of `before`.
pub open spec fn has_one_more_frozen(
    before: DbInner,
    after: DbInner,
    table: Memtable,
    wal_id: u64,
) -> bool {
    &&& after.imm_memtable@.len() == before.imm_memtable@.len() + 1
    &&& after.imm_memtable@[0].table == table
    &&& after.imm_memtable@[0].recent_flushed_wal_id == wal_id
    &&& forall|i: int|
        0 <= i < before.imm_memtable@.len() ==> #[trigger] before.imm_memtable@[i]
            == after.imm_memtable@[i + 1]
}

/// A freeze moves the memtable, if it has entries, to the front of the frozen ones and leaves
/// an empty one behind. Nothing else changes, and nothing is lost.
pub proof fn lemma_freeze_moves_memtable(before: DbInner, after: DbInner, wal_id: u64)
    requires
        before.is_frozen_at(after, wal_id),
    ensures
        before.memtable.entry_num > 0 ==> has_one_more_frozen(before, after, before.memtable, wal_id)
            && after.memtable.entry_num == 0 && after.memtable.entries_size_in_bytes == 0,
        before.memtable.entry_num == 0 ==> after.memtable == before.memtable
            && after.imm_memtable@ == before.imm_memtable@,
        after.recent_flushed_wal_id == before.recent_flushed_wal_id,
        after.last_seq == before.last_seq,
        after.last_committed_seq == before.last_committed_seq,
        after.next_wal_sst_id == before.next_wal_sst_id,
        after.replay_after_wal_id == before.replay_after_wal_id,
        after.l0_sst_size_bytes == before.l0_sst_size_bytes,
{
}

/// A memtable with entries is frozen exactly when its SST would be at least as large as an SST
/// is to be, or 4096 log flushes or more have passed since the last freeze, which is the one of
/// the newest frozen memtable, or else the one that the database was opened with. A log that
/// is behind that freeze is an error, and then nothing changes.
pub proof fn lemma_memtable_is_frozen_when_due(
    before: DbInner,
    after: DbInner,
    l0_sst_size_est: usize,
    r: Result<bool, SlateDBError>,
    last_freeze: int,
)
    requires
        has_maybe_frozen(before, after, l0_sst_size_est, r),
        before.memtable.entry_num > 0,
        before.imm_memtable@.len() > 0 ==> last_freeze
            == before.imm_memtable@[0].recent_flushed_wal_id,
        before.imm_memtable@.len() == 0 ==> last_freeze == before.replay_after_wal_id,
    ensures
        last_freeze > before.recent_flushed_wal_id ==> r == Err::<bool, SlateDBError>(
            SlateDBError::InvalidDBState,
        ) && after == before,
        last_freeze <= before.recent_flushed_wal_id && (l0_sst_size_est >= before.l0_sst_size_bytes
            || last_freeze + 4096 <= before.recent_flushed_wal_id) ==> r == Ok::<
            bool,
            SlateDBError,
        >(true) && after.memtable.entry_num == 0 && has_one_more_frozen(
            before,
            after,
            before.memtable,
            before.recent_flushed_wal_id,
        ),
        last_freeze <= before.recent_flushed_wal_id && l0_sst_size_est < before.l0_sst_size_bytes
            && before.recent_flushed_wal_id < last_freeze + 4096 ==> r == Ok::<bool, SlateDBError>(
            false,
        ) && after == before,
{
    assert(MAX_WAL_FLUSHES_BEFORE_L0_FLUSH == 4096);
}

/// A memtable that is worth freezing stays so as it grows, as the log moves on, and as less is
/// asked of it.
pub proof fn lemma_due_is_monotone(
    before: DbInner,
    later: DbInner,
    l0_sst_size_est: usize,
    larger_est: usize,
)
    requires
        before.is_due(l0_sst_size_est),
        l0_sst_size_est <= larger_est,
        before.recent_flushed_wal_id <= later.recent_flushed_wal_id,
        later.imm_memtable@ == before.imm_memtable@,
        later.replay_after_wal_id == before.replay_after_wal_id,
        later.l0_sst_size_bytes <= before.l0_sst_size_bytes,
    ensures
        later.is_due(larger_est),
{
}

/// A memtable without entries is never frozen.
pub proof fn lemma_empty_memtable_is_not_frozen(
    before: DbInner,
    after: DbInner,
    l0_sst_size_est: usize,
    r: Result<bool, SlateDBError>,
)
    requires
        has_maybe_frozen(before, after, l0_sst_size_est, r),
        before.memtable.entry_num == 0,
    ensures
        r != Ok::<bool, SlateDBError>(true),
        after.memtable == before.memtable,
        after.imm_memtable@ == before.imm_memtable@,
{
}

/// A replay loses no memtable and never moves the log back. The memtable that was there, if it
/// has entries, is frozen at the segment before the last one that was replayed. The replayed
/// one takes its place, and the next segment is the one behind the last, unless the clock has
/// refused.
pub proof fn lemma_replay_moves_forward(
    before: DbInner,
    after: DbInner,
    replayed: ReplayedMemtable,
    tick: Result<(), SlateDBError>,
    r: Result<bool, SlateDBError>,
    flushed: u64,
)
    requires
        has_replayed(before, after, replayed, tick, r),
        flushed + 1 == replayed.last_wal_id || (flushed == 0 && replayed.last_wal_id == 0),
    ensures
        after.recent_flushed_wal_id >= before.recent_flushed_wal_id,
        after.recent_flushed_wal_id >= flushed,
        after.recent_flushed_wal_id == before.recent_flushed_wal_id || after.recent_flushed_wal_id
            == flushed,
        after.last_seq == replayed.last_seq && after.last_committed_seq == replayed.last_seq,
        after.replay_after_wal_id == before.replay_after_wal_id,
        after.l0_sst_size_bytes == before.l0_sst_size_bytes,
        before.memtable.entry_num > 0 ==> has_one_more_frozen(
            before,
            after,
            before.memtable,
            flushed,
        ),
        before.memtable.entry_num == 0 ==> after.imm_memtable@ == before.imm_memtable@,
        tick is Ok ==> after.memtable == replayed.table && after.next_wal_sst_id
            == replayed.last_wal_id + 1 && r == Ok::<bool, SlateDBError>(
            before.memtable.entry_num > 0,
        ),
        tick matches Err(e) ==> r == Err::<bool, SlateDBError>(e) && after.next_wal_sst_id
            == before.next_wal_sst_id && after.memtable.entry_num == 0,
{
}

} // verus!
