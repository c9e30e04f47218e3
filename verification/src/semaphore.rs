use vstd::prelude::*;

verus! {

/// The counting core of a semaphore. Blocking belongs to the condvar wait
/// around it, outside the library; the permit arithmetic is all here.
pub struct Semaphore {
    pub count: isize,
}

impl Semaphore {
    /// `count` permits, none taken.
    pub fn new(count: isize) -> (r: Semaphore)
        ensures
            r.count == count,
    {
        Semaphore { count }
    }

    /// Takes one permit: succeeds exactly when one is free, and then one
    /// fewer remains; otherwise nothing changes.
    pub fn try_acquire(&mut self) -> (r: bool)
        ensures
            r <==> old(self).count > 0,
            final(self).count as int == (if old(self).count > 0 {
                old(self).count - 1
            } else {
                old(self).count as int
            }),
    {
        if self.count > 0 {
            self.count = self.count - 1;
            true
        } else {
            false
        }
    }

    /// Returns one permit.
    pub fn release(&mut self)
        requires
            old(self).count < isize::MAX,
        ensures
            final(self).count == old(self).count + 1,
    {
        self.count = self.count + 1;
    }
}

} // verus!
