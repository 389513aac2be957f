//! The pool of compressor slots: lease and release of a worker's slot, and
//! the measurement that borrows a slot for one call.

use vstd::prelude::*;
use crate::error::NcdError;
use crate::oracle::CompressorSlot;
use crate::oracle::measured_size;
use crate::oracle::DEFAULT_FLAGS;

verus! {

/// What a caller sees of a pool from one worker's position: whether a
/// slot is to be had, and how large the scratch buffers are.
pub struct Oracle {
    pub available: bool,
    pub capacity: nat,
}

impl Oracle {
    /// The compressed size that this position yields for `bytes`.
    pub open spec fn size(self, bytes: Seq<u8>) -> Result<u64, NcdError> {
        if self.available {
            measured_size(DEFAULT_FLAGS as int, bytes, self.capacity)
        } else {
            Err(NcdError::ResourcePoolExhausted)
        }
    }
}

/// A fixed number of compressor slots, all with the default compressor
/// and scratch buffers of one size. A worker's slot is the one at its
/// index modulo the number of slots.
pub struct CompressorPool {
    slots: Vec<Option<CompressorSlot>>,
    capacity: usize,
}

impl CompressorPool {
    /// Every slot that is in the pool has the pool's configuration.
    pub closed spec fn wf(&self) -> bool {
        forall|i: int|
            0 <= i < self.slots@.len() ==> match #[trigger] self.slots@[i] {
                Some(slot) => slot.flags() == DEFAULT_FLAGS && slot.capacity() == self.capacity,
                None => true,
            }
    }

    /// The number of slots.
    pub closed spec fn slot_count(&self) -> nat {
        self.slots@.len()
    }

    /// The size of each scratch buffer, in bytes.
    pub closed spec fn capacity(&self) -> nat {
        self.capacity as nat
    }

    /// Which slots are in the pool (`true`) and which are on lease.
    pub closed spec fn free(&self) -> Seq<bool> {
        Seq::new(self.slots@.len(), |i: int| self.slots@[i] is Some)
    }

    /// The slot that serves `worker`. Meaningful on a pool with slots.
    pub open spec fn slot_of(&self, worker: usize) -> int {
        (worker as int) % (self.slot_count() as int)
    }

    /// Whether `worker` can have its slot right now.
    pub open spec fn can_lease(&self, worker: usize) -> bool {
        self.slot_count() > 0 && self.free()[self.slot_of(worker)]
    }

    /// Whether no slot is on lease.
    pub open spec fn idle(&self) -> bool {
        forall|i: int| 0 <= i < self.slot_count() ==> self.free()[i]
    }

    /// The pool as `worker` sees it.
    pub open spec fn oracle(&self, worker: usize) -> Oracle {
        Oracle { available: self.can_lease(worker), capacity: self.capacity() }
    }

    /// On a pool with slots and nothing on lease, every worker sees the
    /// same oracle.
    pub proof fn lemma_idle_oracle(&self, worker: usize)
        requires
            self.idle(),
            self.slot_count() > 0,
        ensures
            self.oracle(worker) == (Oracle { available: true, capacity: self.capacity() }),
    {
        let i = self.slot_of(worker);
        assert(0 <= i < self.slot_count()) by (nonlinear_arith)
            requires
                i == (worker as int) % (self.slot_count() as int),
                self.slot_count() > 0,
        ;
    }

    /// The measurement is a function of the configuration and the bytes:
    /// pools with buffers of one size give one answer for the same
    /// bytes, whichever of their free slots measures them, and however
    /// often.
    pub proof fn lemma_same_configuration_same_size(
        &self,
        worker: usize,
        other: CompressorPool,
        other_worker: usize,
        bytes: Seq<u8>,
    )
        requires
            self.can_lease(worker),
            other.can_lease(other_worker),
            self.capacity() == other.capacity(),
        ensures
            self.oracle(worker).size(bytes) == other.oracle(other_worker).size(bytes),
    {
    }

    /// A pool of `slots` slots with scratch buffers of `capacity` bytes,
    /// none on lease.
    pub fn new(slots: usize, capacity: usize) -> (pool: Self)
        ensures
            pool.wf(),
            pool.slot_count() == slots,
            pool.capacity() == capacity,
            pool.idle(),
    {
        let mut v: Vec<Option<CompressorSlot>> = Vec::new();
        let mut made: usize = 0;
        while made < slots
            invariant
                made <= slots,
                v@.len() == made,
                forall|i: int|
                    0 <= i < v@.len() ==> (#[trigger] v@[i]) is Some && v@[i].unwrap().flags()
                        == DEFAULT_FLAGS && v@[i].unwrap().capacity() == capacity,
            decreases slots - made,
        {
            v.push(Some(CompressorSlot::new(capacity)));
            made = made + 1;
        }
        CompressorPool { slots: v, capacity }
    }

    /// Takes the slot of `worker` out of the pool. Fails, and leaves the
    /// pool as it is, when that slot is on lease or the pool has no slot.
    pub fn lease(&mut self, worker: usize) -> (r: Result<CompressorSlot, NcdError>)
        requires
            old(self).wf(),
        ensures
            final(self).wf(),
            final(self).slot_count() == old(self).slot_count(),
            final(self).capacity() == old(self).capacity(),
            match r {
                Ok(slot) => {
                    &&& old(self).can_lease(worker)
                    &&& slot.flags() == DEFAULT_FLAGS
                    &&& slot.capacity() == old(self).capacity()
                    &&& final(self).free() == old(self).free().update(
                        old(self).slot_of(worker),
                        false,
                    )
                },
                Err(e) => {
                    &&& e == NcdError::ResourcePoolExhausted
                    &&& !old(self).can_lease(worker)
                    &&& final(self).free() == old(self).free()
                },
            },
    {
        let n = self.slots.len();
        if n == 0 {
            return Err(NcdError::ResourcePoolExhausted);
        }
        let idx = worker % n;
        let taken = self.slots[idx].take();
        match taken {
            Some(slot) => Ok(slot),
            None => Err(NcdError::ResourcePoolExhausted),
        }
    }

    /// Puts a slot back at the position of `worker`.
    pub fn release(&mut self, worker: usize, slot: CompressorSlot)
        requires
            old(self).wf(),
            old(self).slot_count() > 0,
            slot.flags() == DEFAULT_FLAGS,
            slot.capacity() == old(self).capacity(),
        ensures
            final(self).wf(),
            final(self).slot_count() == old(self).slot_count(),
            final(self).capacity() == old(self).capacity(),
            final(self).free() == old(self).free().update(old(self).slot_of(worker), true),
    {
        let n = self.slots.len();
        let idx = worker % n;
        self.slots[idx] = Some(slot);
    }

    /// The size of each scratch buffer, in bytes.
    pub fn buffer_capacity(&self) -> (n: usize)
        ensures
            n == self.capacity(),
    {
        self.capacity
    }

    /// The number of slots.
    pub fn len(&self) -> (n: usize)
        ensures
            n == self.slot_count(),
    {
        self.slots.len()
    }

    /// Measures the compressed size of `bytes` on the slot of `worker`:
    /// the slot is leased for this one call and back in the pool when it
    /// returns, whatever the measurement gave.
    pub fn compressed_size_at(&mut self, worker: usize, bytes: &[u8]) -> (r: Result<u64, NcdError>)
        requires
            old(self).wf(),
        ensures
            final(self).wf(),
            final(self).slot_count() == old(self).slot_count(),
            final(self).capacity() == old(self).capacity(),
            final(self).free() == old(self).free(),
            r == old(self).oracle(worker).size(bytes@),
    {
        match self.lease(worker) {
            Err(e) => Err(e),
            Ok(slot) => {
                let mut slot = slot;
                let r = slot.measure(bytes);
                self.release(worker, slot);
                r
            },
        }
    }
}

/// `rayon::current_thread_index`: the index of the calling thread in its
/// rayon pool, if it is in one. Nothing is claimed of the value.
#[verifier::external_body]
fn rayon_thread_index() -> Option<usize> {
    rayon::current_thread_index()
}

/// The worker position of the calling thread: its index in the rayon
/// pool that runs it, and 0 outside of one.
pub fn current_worker() -> usize {
    worker_position(rayon_thread_index())
}

/// Measures the compressed size of `x` on the slot of the calling thread.
/// Which slot that is depends on the thread; on a pool with nothing on
/// lease every slot gives the same answer.
pub fn compressed_size(pool: &mut CompressorPool, x: &[u8]) -> (r: Result<u64, NcdError>)
    requires
        old(pool).wf(),
    ensures
        final(pool).wf(),
        final(pool).slot_count() == old(pool).slot_count(),
        final(pool).capacity() == old(pool).capacity(),
        final(pool).free() == old(pool).free(),
        exists|worker: usize| r == #[trigger] old(pool).oracle(worker).size(x@),
        old(pool).idle() && old(pool).slot_count() > 0 ==> r == old(pool).oracle(0).size(x@),
{
    let worker = current_worker();
    let r = pool.compressed_size_at(worker, x);
    proof {
        if old(pool).idle() && old(pool).slot_count() > 0 {
            old(pool).lemma_idle_oracle(worker);
            old(pool).lemma_idle_oracle(0);
        }
    }
    r
}

/// The worker position that a thread index stands for: the index itself,
/// and 0 for a thread that is in no pool.
pub open spec fn position_of(index: Option<usize>) -> usize {
    match index {
        Some(i) => i,
        None => 0,
    }
}

/// Turns the index that a thread has in its pool, if it is in one, into
/// its worker position.
pub fn worker_position(index: Option<usize>) -> (w: usize)
    ensures
        w == position_of(index),
{
    match index {
        Some(i) => i,
        None => 0,
    }
}

} // verus!
