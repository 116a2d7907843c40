//! The flush coordinator: one memtable that takes the writes and one that
//! is being persisted, and the hand-over between them.

use crate::entries::ascending;
use crate::memtable::{answer, lemma_entries_view, shown, Memtable, ValTomb, Written, KV};
use vstd::prelude::*;

verus! {

/// Whether a flush has begun.
#[derive(Clone, Copy, Debug, PartialEq, Eq)]
pub enum Status {
    /// The flush has begun and the entries to persist are at hand.
    Proceed,
    /// A flush is already in progress: the request is to be made again
    /// later.
    AlreadyInProgress,
}

/// The answer to a request to begin a flush: `Proceed` with the entries to
/// persist, in ascending key order, or `AlreadyInProgress` with none.
#[derive(Debug)]
pub struct PrepareFlushStatus {
    pub status: Status,
    pub flushing: Vec<KV>,
}

/// The two memtables of a store: `current` takes the writes, `flushing` is
/// empty or holds what is being persisted.
pub struct FlushCoordinator {
    pub(crate) current: Memtable,
    pub(crate) flushing: Memtable,
}

impl FlushCoordinator {
    /// What holds of the coordinator between any two operations.
    pub open(crate) spec fn wf(&self) -> bool {
        &&& self.current.wf()
        &&& self.flushing.wf()
    }

    /// What the memtable that takes the writes holds.
    pub closed spec fn current(&self) -> Map<Seq<char>, Written> {
        self.current@
    }

    /// The entries of the memtable that takes the writes, in ascending key
    /// order.
    pub closed spec fn current_entries(&self) -> Seq<(Seq<char>, Written)> {
        self.current.entries()
    }

    /// What the memtable that is being persisted holds.
    pub closed spec fn flushing(&self) -> Map<Seq<char>, Written> {
        self.flushing@
    }

    /// Whether a flush is in progress.
    pub open spec fn in_flight(&self) -> bool {
        self.flushing() != Map::<Seq<char>, Written>::empty()
    }

    /// A coordinator with nothing written and no flush in progress.
    pub fn new() -> (c: FlushCoordinator)
        ensures
            c.wf(),
            c.current() == Map::<Seq<char>, Written>::empty(),
            !c.in_flight(),
    {
        FlushCoordinator { current: Memtable::new(), flushing: Memtable::new() }
    }
}

/// Records `value` as the latest write to `key`.
pub fn update(c: &mut FlushCoordinator, key: &str, value: &str)
    requires
        old(c).wf(),
    ensures
        final(c).wf(),
        final(c).current() == old(c).current().insert(key@, Written::Value(value@)),
        final(c).flushing() == old(c).flushing(),
{
    c.current.update(key, value);
}

/// Records that `key` was deleted.
pub fn delete(c: &mut FlushCoordinator, key: &str)
    requires
        old(c).wf(),
    ensures
        final(c).wf(),
        final(c).current() == old(c).current().insert(key@, Written::Tombstone),
        final(c).flushing() == old(c).flushing(),
{
    c.current.delete(key);
}

/// The latest write to `key` since the last flush began.
pub fn query(c: &FlushCoordinator, key: &str) -> (r: ValTomb)
    requires
        c.wf(),
    ensures
        r@ == answer(c.current(), key@),
{
    c.current.query(key)
}

/// What a request to begin a flush does: while a flush is in progress it
/// changes nothing and answers `AlreadyInProgress` with no entries;
/// otherwise what was written is set aside, writing starts afresh, and the
/// answer is `Proceed` with the entries that were written, in ascending
/// key order.
pub open spec fn flush_prepared(
    before: &FlushCoordinator,
    after: &FlushCoordinator,
    r: &PrepareFlushStatus,
) -> bool {
    if before.in_flight() {
        &&& r.status == Status::AlreadyInProgress
        &&& r.flushing@.len() == 0
        &&& after.current() == before.current()
        &&& after.current_entries() == before.current_entries()
        &&& after.flushing() == before.flushing()
    } else {
        &&& r.status == Status::Proceed
        &&& after.flushing() == before.current()
        &&& after.current() == Map::<Seq<char>, Written>::empty()
        &&& r.flushing@.len() == before.current_entries().len()
        &&& forall|i: int|
            0 <= i < r.flushing@.len() ==> (#[trigger] r.flushing@[i])@ == (
                before.current_entries()[i].0,
                shown(before.current_entries()[i].1),
            )
    }
}

/// Begins a flush unless one is in progress: what was written so far is
/// set aside to be persisted and returned in ascending key order, and
/// writing starts afresh.
pub fn prepare_flush(c: &mut FlushCoordinator) -> (r: PrepareFlushStatus)
    requires
        old(c).wf(),
    ensures
        final(c).wf(),
        flush_prepared(old(c), final(c), &r),
{
    if !c.flushing.is_empty() {
        PrepareFlushStatus { status: Status::AlreadyInProgress, flushing: Vec::new() }
    } else {
        let kvs_out = to_kvs(&c.current);
        let mut taken = Memtable::new();
        core::mem::swap(&mut c.current, &mut taken);
        c.flushing = taken;
        PrepareFlushStatus { status: Status::Proceed, flushing: kvs_out }
    }
}

/// The entries of `table` in ascending key order, as shown to a caller.
pub(crate) fn to_kvs(table: &Memtable) -> (r: Vec<KV>)
    requires
        table.wf(),
    ensures
        r@.len() == table.entries().len(),
        forall|i: int|
            0 <= i < r@.len() ==> (#[trigger] r@[i])@ == (
                table.entries()[i].0,
                shown(table.entries()[i].1),
            ),
{
    table.snapshot_entries()
}

/// Ends a flush: what was set aside is discarded.
pub fn finalize_flush(c: &mut FlushCoordinator)
    requires
        old(c).wf(),
    ensures
        final(c).wf(),
        !final(c).in_flight(),
        final(c).current() == old(c).current(),
        final(c).current_entries() == old(c).current_entries(),
{
    c.flushing = Memtable::new();
}

/// Discards what was written and what was set aside.
pub fn clear(c: &mut FlushCoordinator)
    requires
        old(c).wf(),
    ensures
        final(c).wf(),
        !final(c).in_flight(),
        final(c).current() == Map::<Seq<char>, Written>::empty(),
{
    c.current = Memtable::new();
    c.flushing = Memtable::new();
}

/// After a flush of a table that was not empty has begun, and until it is
/// finalized, a second request answers `AlreadyInProgress` with no entries
/// and leaves what was written since in place.
pub proof fn lemma_single_flight(
    idle: &FlushCoordinator,
    begun: &FlushCoordinator,
    written: &FlushCoordinator,
    again: &FlushCoordinator,
    first: &PrepareFlushStatus,
    second: &PrepareFlushStatus,
    key: Seq<char>,
    entry: Written,
)
    requires
        !idle.in_flight(),
        idle.current() != Map::<Seq<char>, Written>::empty(),
        flush_prepared(idle, begun, first),
        written.current() == begun.current().insert(key, entry),
        written.flushing() == begun.flushing(),
        flush_prepared(written, again, second),
    ensures
        first.status == Status::Proceed,
        second.status == Status::AlreadyInProgress,
        second.flushing@.len() == 0,
        again.current() == written.current(),
        again.current().contains_key(key),
        again.current()[key] == entry,
        again.flushing() == idle.current(),
{
}

/// The entries that a flush hands over are those of the table, each key
/// once, in ascending order.
pub proof fn lemma_current_entries(c: &FlushCoordinator)
    requires
        c.wf(),
    ensures
        ascending::<String, Written>(c.current_entries()),
        c.current().dom().finite(),
        c.current_entries().len() == c.current().len(),
        forall|i: int|
            0 <= i < c.current_entries().len() ==> c.current().contains_key(
                (#[trigger] c.current_entries()[i]).0,
            ) && c.current()[c.current_entries()[i].0] == c.current_entries()[i].1,
        forall|k: Seq<char>|
            c.current().contains_key(k) ==> exists|i: int|
                0 <= i < c.current_entries().len() && (#[trigger] c.current_entries()[i]).0 == k,
{
    lemma_entries_view(&c.current);
    assert forall|k: Seq<char>| c.current().contains_key(k) implies exists|i: int|
        0 <= i < c.current_entries().len() && (#[trigger] c.current_entries()[i]).0 == k by {
        assert(c.current@.contains_key(k));
        let i = choose|i: int|
            0 <= i < c.current.entries().len() && (#[trigger] c.current.entries()[i]).0 == k;
        assert(c.current_entries()[i].0 == k);
    }
}

} // verus!
