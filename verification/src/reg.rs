//! Stack-discipline allocator over the virtual machine's fixed register bank.
//!
//! The allocator keeps the currently free register ids as a LIFO stack,
//! initialized in reverse order so the lowest ids are reused first.  Its
//! invariant: no id is ever handed out twice while outstanding, which is
//! captured by the free list holding no duplicates.

use vstd::prelude::*;

verus! {

/// Number of slots in the virtual machine's register file.
pub const REGISTER_COUNT: usize = 32;

/// LIFO free-list register allocator used exclusively by the compiler.
pub struct RegisterAllocator {
    pub free: Vec<u8>,
}

impl RegisterAllocator {
    /// The free list holds no duplicates and only ids of real registers.
    pub open spec fn wf(self) -> bool {
        &&& self.free@.no_duplicates()
        &&& forall|i: int| 0 <= i < self.free@.len() ==> (self.free@[i] as usize) < REGISTER_COUNT
    }

    /// A fresh allocator: every register free, lowest ids on top of the stack.
    pub fn new() -> (r: Self)
        ensures
            r.wf(),
            r.free@.len() == REGISTER_COUNT,
            forall|i: int| 0 <= i < REGISTER_COUNT ==> r.free@[i] as int == REGISTER_COUNT - 1 - i,
    {
        let mut free: Vec<u8> = Vec::new();
        let mut i: usize = 0;
        while i < REGISTER_COUNT
            invariant
                i <= REGISTER_COUNT,
                free@.len() == i,
                forall|j: int| 0 <= j < i ==> free@[j] as int == REGISTER_COUNT - 1 - j,
            decreases REGISTER_COUNT - i,
        {
            free.push((REGISTER_COUNT - 1 - i) as u8);
            i = i + 1;
        }
        proof {
            assert forall|a: int, b: int| 0 <= a < free@.len() && 0 <= b < free@.len() && a != b
                implies free@[a] != free@[b] by {
                assert(free@[a] as int == REGISTER_COUNT - 1 - a);
                assert(free@[b] as int == REGISTER_COUNT - 1 - b);
            }
            assert(free@.no_duplicates());
        }
        RegisterAllocator { free }
    }

    /// Pops the top free id.  Exhaustion is a compiler-internal defect, so a
    /// caller must know a register is available.
    pub fn allocate(&mut self) -> (r: u8)
        requires
            old(self).wf(),
            old(self).free@.len() > 0,
        ensures
            final(self).wf(),
            r == old(self).free@.last(),
            final(self).free@ == old(self).free@.drop_last(),
            (r as usize) < REGISTER_COUNT,
            !final(self).free@.contains(r),
    {
        let r = if let Some(x) = self.free.pop() {
            x
        } else {
            unreached()
        };
        proof {
            assert forall|i: int| 0 <= i < self.free@.len() implies self.free@[i] != r by {
                assert(old(self).free@[i] == self.free@[i]);
                assert(old(self).free@[old(self).free@.len() - 1] == r);
            }
        }
        r
    }

    /// Like `allocate`, but reports exhaustion instead of requiring headroom.
    pub fn try_allocate(&mut self) -> (r: Option<u8>)
        requires
            old(self).wf(),
        ensures
            final(self).wf(),
            old(self).free@.len() > 0 ==> r == Some(old(self).free@.last())
                && final(self).free@ == old(self).free@.drop_last(),
            old(self).free@.len() == 0 ==> r == None::<u8> && *final(self) == *old(self),
    {
        if self.free.len() > 0 {
            Some(self.allocate())
        } else {
            None
        }
    }

    /// Returns `r` to the free stack.  Callers must not double-free: the id
    /// may not already be on the stack.
    pub fn free(&mut self, r: u8)
        requires
            old(self).wf(),
            (r as usize) < REGISTER_COUNT,
            !old(self).free@.contains(r),
        ensures
            final(self).wf(),
            final(self).free@ == old(self).free@.push(r),
    {
        self.free.push(r);
        proof {
            assert forall|a: int, b: int|
                0 <= a < self.free@.len() && 0 <= b < self.free@.len() && a != b
                implies self.free@[a] != self.free@[b] by {
                if a < self.free@.len() - 1 && b < self.free@.len() - 1 {
                    assert(old(self).free@[a] == self.free@[a]);
                    assert(old(self).free@[b] == self.free@[b]);
                } else if a == self.free@.len() - 1 {
                    assert(!old(self).free@.contains(r));
                    assert(old(self).free@[b] == self.free@[b]);
                } else {
                    assert(!old(self).free@.contains(r));
                    assert(old(self).free@[a] == self.free@[a]);
                }
            }
            assert(self.free@.no_duplicates());
        }
    }

    /// The teardown check: true exactly when every register id has been
    /// returned, i.e. the compiler leaked no register.
    pub fn all_free(&self) -> (b: bool)
        ensures
            b == (self.free@.len() == REGISTER_COUNT),
    {
        self.free.len() == REGISTER_COUNT
    }

    /// How many registers are currently free.
    pub fn available(&self) -> (n: usize)
        ensures
            n == self.free@.len(),
    {
        self.free.len()
    }
}

} // verus!
