use vstd::prelude::*;

verus! {

/// A hint to the processor that the caller is spinning; it does nothing
/// observable.
pub fn asm_pause() {
}

/// A lock flag guarding a VM instance. Exclusive access to the lock (`&mut`)
/// already rules out a second holder, so taking it never has to wait.
pub struct SpinLock {
    locked: bool,
}

impl SpinLock {
    pub closed spec fn is_locked(&self) -> bool {
        self.locked
    }

    /// A lock that nobody holds.
    pub fn new() -> (r: SpinLock)
        ensures
            !r.is_locked(),
    {
        SpinLock { locked: false }
    }

    /// Whether the lock is held.
    pub fn locked(&self) -> (r: bool)
        ensures
            r == self.is_locked(),
    {
        self.locked
    }

    /// Takes the lock, which must be free.
    pub fn lock(&mut self)
        requires
            !old(self).is_locked(),
        ensures
            final(self).is_locked(),
    {
        self.locked = true;
    }

    /// Takes the lock if it is free; returns whether it did.
    pub fn try_lock(&mut self) -> (r: bool)
        ensures
            r == !old(self).is_locked(),
            final(self).is_locked(),
    {
        if self.locked {
            false
        } else {
            self.locked = true;
            true
        }
    }

    /// Releases the lock.
    pub fn unlock(&mut self)
        ensures
            !final(self).is_locked(),
    {
        self.locked = false;
    }
}

} // verus!
