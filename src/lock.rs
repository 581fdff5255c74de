//! The reentrant system lock: two independent counters, one per lock domain
//! (the outer lock over the package lists, the inner lock over applying
//! changes). The system lock of a domain is engaged only when its counter
//! leaves 0 and disengaged only when it returns to 0; engaging and
//! disengaging are the caller's to perform, as the functions here direct.
use vstd::prelude::*;

verus! {

/// Why the system lock could not be engaged, in the engine's own words
/// (an unopenable lock file, or a lock held by another process).
pub struct LockError {
    pub message: String,
}

/// How many times this process holds each lock.
pub struct LockState {
    outer: u64,
    inner: u64,
}

/// Taking a lock held `count` times engages the system lock.
pub open spec fn engages(count: nat) -> bool {
    count == 0
}

/// Giving back a lock held `count` times disengages the system lock.
pub open spec fn disengages(count: nat) -> bool {
    count == 1
}

impl LockState {
    pub closed spec fn outer_count(&self) -> nat {
        self.outer as nat
    }

    pub closed spec fn inner_count(&self) -> nat {
        self.inner as nat
    }

    /// No lock held.
    pub fn new() -> (r: LockState)
        ensures
            r.outer_count() == 0,
            r.inner_count() == 0,
    {
        LockState { outer: 0, inner: 0 }
    }

    /// How many times the outer lock is held.
    pub fn outer_held(&self) -> (r: u64)
        ensures
            r == self.outer_count(),
    {
        self.outer
    }

    /// How many times the inner lock is held.
    pub fn inner_held(&self) -> (r: u64)
        ensures
            r == self.inner_count(),
    {
        self.inner
    }

    /// Whether taking the outer lock now must engage the system lock.
    pub fn engages_outer(&self) -> (r: bool)
        ensures
            r == engages(self.outer_count()),
    {
        self.outer == 0
    }

    /// Whether taking the inner lock now must engage the system lock.
    pub fn engages_inner(&self) -> (r: bool)
        ensures
            r == engages(self.inner_count()),
    {
        self.inner == 0
    }
}

/// Takes the outer lock once more. `engaged` is the outcome of engaging the
/// system lock, which the caller attempts only where `engages_outer` says so;
/// it is not read otherwise. A failure leaves the count as it was.
pub fn apt_lock(state: &mut LockState, engaged: Result<(), LockError>) -> (r: Result<(), LockError>)
    requires
        old(state).outer_count() < u64::MAX,
    ensures
        final(state).inner_count() == old(state).inner_count(),
        !engages(old(state).outer_count()) ==> r is Ok,
        engages(old(state).outer_count()) ==> r == engaged,
        r is Ok ==> final(state).outer_count() == old(state).outer_count() + 1,
        r is Err ==> final(state).outer_count() == old(state).outer_count(),
{
    if state.outer == 0 {
        if engaged.is_ok() {
            state.outer = 1;
        }
        engaged
    } else {
        state.outer = state.outer + 1;
        Ok(())
    }
}

/// Gives back the outer lock once; returns whether the caller must now
/// disengage the system lock.
pub fn apt_unlock(state: &mut LockState) -> (r: bool)
    requires
        old(state).outer_count() > 0,
    ensures
        final(state).outer_count() == old(state).outer_count() - 1,
        final(state).inner_count() == old(state).inner_count(),
        r == disengages(old(state).outer_count()),
{
    state.outer = state.outer - 1;
    state.outer == 0
}

/// Takes the inner lock once more, as `apt_lock` does the outer one.
pub fn apt_lock_inner(state: &mut LockState, engaged: Result<(), LockError>) -> (r: Result<(), LockError>)
    requires
        old(state).inner_count() < u64::MAX,
    ensures
        final(state).outer_count() == old(state).outer_count(),
        !engages(old(state).inner_count()) ==> r is Ok,
        engages(old(state).inner_count()) ==> r == engaged,
        r is Ok ==> final(state).inner_count() == old(state).inner_count() + 1,
        r is Err ==> final(state).inner_count() == old(state).inner_count(),
{
    if state.inner == 0 {
        if engaged.is_ok() {
            state.inner = 1;
        }
        engaged
    } else {
        state.inner = state.inner + 1;
        Ok(())
    }
}

/// Gives back the inner lock once; returns whether the caller must now
/// disengage the system lock.
pub fn apt_unlock_inner(state: &mut LockState) -> (r: bool)
    requires
        old(state).inner_count() > 0,
    ensures
        final(state).inner_count() == old(state).inner_count() - 1,
        final(state).outer_count() == old(state).outer_count(),
        r == disengages(old(state).inner_count()),
{
    state.inner = state.inner - 1;
    state.inner == 0
}

/// Whether this process holds either lock.
pub fn apt_is_locked(state: &LockState) -> (r: bool)
    ensures
        r == (state.outer_count() > 0 || state.inner_count() > 0),
{
    state.outer > 0 || state.inner > 0
}

/// How many times a domain is held after a run of successful calls on it
/// (`true`: take, `false`: give back), starting from none.
pub open spec fn count_after(ops: Seq<bool>) -> int
    decreases ops.len(),
{
    if ops.len() == 0 {
        0
    } else {
        count_after(ops.drop_last()) + if ops.last() {
            1int
        } else {
            -1int
        }
    }
}

/// No prefix of the run gives the lock back more often than it took it.
pub open spec fn respects_reentrancy(ops: Seq<bool>) -> bool {
    forall|i: int| 0 <= i <= ops.len() ==> #[trigger] count_after(ops.take(i)) >= 0
}

/// How many calls of the run engage the system lock.
pub open spec fn engagements(ops: Seq<bool>) -> nat
    decreases ops.len(),
{
    if ops.len() == 0 {
        0
    } else {
        let prev = count_after(ops.drop_last());
        engagements(ops.drop_last()) + if ops.last() && engages(prev as nat) {
            1nat
        } else {
            0nat
        }
    }
}

/// How many calls of the run disengage the system lock.
pub open spec fn disengagements(ops: Seq<bool>) -> nat
    decreases ops.len(),
{
    if ops.len() == 0 {
        0
    } else {
        let prev = count_after(ops.drop_last());
        disengagements(ops.drop_last()) + if !ops.last() && disengages(prev as nat) {
            1nat
        } else {
            0nat
        }
    }
}

/// However deeply takes and give-backs nest, the system lock is engaged once
/// for each time the count leaves 0 and disengaged once for each time it
/// returns there: it is engaged one time more than disengaged exactly while
/// the lock is held, and as often as disengaged once it is free again.
pub proof fn nesting_engages_once(ops: Seq<bool>)
    requires
        respects_reentrancy(ops),
    ensures
        count_after(ops) >= 0,
        engagements(ops) == disengagements(ops) + if count_after(ops) > 0 {
            1nat
        } else {
            0nat
        },
    decreases ops.len(),
{
    assert(ops.take(ops.len() as int) =~= ops);
    assert(count_after(ops.take(ops.len() as int)) >= 0);
    if ops.len() > 0 {
        let p = ops.drop_last();
        assert forall|i: int| 0 <= i <= p.len() implies #[trigger] count_after(p.take(i)) >= 0 by {
            assert(p.take(i) =~= ops.take(i));
            assert(count_after(ops.take(i)) >= 0);
        }
        nesting_engages_once(p);
    }
}

} // verus!
