//! The shared ledger store.
//!
//! One long-lived store owns the ledger for the whole process; every
//! concurrent command handler works through it.  All access goes through a
//! single reader/writer lock: readers share, a grant holds the writer side
//! only for its read-modify-write, and persistence works from a snapshot
//! taken under the lock so that slow file writes never hold the store.
//! The lock's invariant keeps the resident ledger well-formed.

use vstd::prelude::*;
use vstd::rwlock::RwLock;
use vstd::rwlock::RwLockPredicate;

use crate::ledger::total_of;
use crate::ledger::PointsLedger;

verus! {

/// The resident ledger is always well-formed.
pub struct LedgerInv;

impl RwLockPredicate<PointsLedger> for LedgerInv {
    open spec fn inv(self, v: PointsLedger) -> bool {
        v.wf()
    }
}

/// A concurrency-safe owner of the ledger.  The map and its lock are never
/// handed out; callers get only the operations below.
pub struct LedgerStore {
    lock: RwLock<PointsLedger, LedgerInv>,
}

impl LedgerStore {
    /// Take ownership of a loaded ledger, typically the decoded startup
    /// snapshot.
    pub fn new(initial: PointsLedger) -> (s: Self)
        requires
            initial.wf(),
    {
        LedgerStore { lock: RwLock::new(initial, Ghost(LedgerInv {})) }
    }

    /// Atomically add `amount` to `target`'s total under the writer lock.
    ///
    /// Returns the total before the grant, the total after it, and a
    /// consistent snapshot for persistence — or nothing, with the store
    /// untouched, when the resident total could not absorb `amount` within
    /// the signed 64-bit range.  Concurrent grants serialise on the writer
    /// lock, so no update is lost; which resident total this call saw is
    /// deliberately unspecified.
    pub fn add_points(&self, target: u64, amount: i64) -> (r: Option<(i64, i64, PointsLedger)>)
        requires
            1 <= amount,
        ensures
            match r {
                Some(p) => p.1 == p.0 + amount && p.2.wf() && total_of(p.2@, target) == p.1,
                None => true,
            },
    {
        let (mut ledger, handle) = self.lock.acquire_write();
        let before = ledger.get_points(target);
        if before <= i64::MAX - amount {
            let after = ledger.add_points(target, amount);
            let snap = ledger.snapshot();
            handle.release_write(ledger);
            Some((before, after, snap))
        } else {
            handle.release_write(ledger);
            None
        }
    }

    /// Current total of `target`, under a shared reader lock.
    pub fn get_points(&self, target: u64) -> i64 {
        let handle = self.lock.acquire_read();
        let total = handle.borrow().get_points(target);
        handle.release_read();
        total
    }

    /// A consistent point-in-time copy of the ledger, under a shared
    /// reader lock: reporting and persistence never observe a half-applied
    /// grant.
    pub fn snapshot(&self) -> (l: PointsLedger)
        ensures
            l.wf(),
    {
        let handle = self.lock.acquire_read();
        let copy = handle.borrow().snapshot();
        handle.release_read();
        copy
    }
}

} // verus!
