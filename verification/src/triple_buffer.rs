//! Triple buffering for CPU-to-GPU uploads: the CPU writes one slot while the
//! GPU reads the published one; the write slot is always the one after the
//! published slot, so a write never touches what is being read.

use vstd::prelude::*;

verus! {

struct Slot<T> {
    data: T,
    generation: u64,
}

/// Three slots with a published (read) index, the index last handed to the
/// writer and a generation counter for completed writes.
pub struct TripleBuffer<T> {
    slots: Vec<Slot<T>>,
    write_idx: usize,
    read_idx: usize,
    published_gen: u64,
    next_gen: u64,
}

/// The slot the writer gets while `read` is published.
pub open spec fn next_write_slot(read: int) -> int {
    (read + 1) % 3
}

impl<T: Clone + Default> TripleBuffer<T> {
    /// Published slot.
    pub closed spec fn read_slot(self) -> int {
        self.read_idx as int
    }

    /// Slot last handed to the writer.
    pub closed spec fn write_slot(self) -> int {
        self.write_idx as int
    }

    /// Generation of the last published write.
    pub closed spec fn published(self) -> u64 {
        self.published_gen
    }

    /// Generation the next completed write gets.
    pub closed spec fn next_generation(self) -> u64 {
        self.next_gen
    }

    /// Data of slot `i`.
    pub closed spec fn slot_data(self, i: int) -> T {
        self.slots@[i].data
    }

    /// Generation stamped on slot `i`.
    pub closed spec fn slot_generation(self, i: int) -> u64 {
        self.slots@[i].generation
    }

    /// Three slots, both indices among them.
    pub closed spec fn wf(self) -> bool {
        &&& self.slots@.len() == 3
        &&& self.write_idx < 3
        &&& self.read_idx < 3
    }

    /// Slot 1 published, slot 0 with the writer, all data default and all
    /// generations 0; the first completed write gets generation 1.
    pub fn new() -> (b: Self)
        ensures
            b.wf(),
            b.read_slot() == 1,
            b.write_slot() == 0,
            b.published() == 0,
            b.next_generation() == 1,
            forall|i: int| 0 <= i < 3 ==> #[trigger] b.slot_generation(i) == 0,
    {
        let mut slots: Vec<Slot<T>> = Vec::new();
        slots.push(Slot { data: T::default(), generation: 0 });
        slots.push(Slot { data: T::default(), generation: 0 });
        slots.push(Slot { data: T::default(), generation: 0 });
        TripleBuffer { slots, write_idx: 0, read_idx: 1, published_gen: 0, next_gen: 1 }
    }

    /// Hands the writer the slot after the published one; it is never the
    /// published slot.
    pub fn begin_cpu_write(&mut self) -> (idx: usize)
        requires
            old(self).wf(),
        ensures
            final(self).wf(),
            idx == next_write_slot(old(self).read_slot()),
            idx != old(self).read_slot(),
            final(self).write_slot() == idx,
            final(self).read_slot() == old(self).read_slot(),
            final(self).published() == old(self).published(),
            final(self).next_generation() == old(self).next_generation(),
            forall|i: int| 0 <= i < 3 ==> #[trigger] final(self).slot_data(i) == old(self).slot_data(i),
            forall|i: int| 0 <= i < 3 ==> #[trigger] final(self).slot_generation(i) == old(self).slot_generation(i),
    {
        let free = (self.read_idx + 1) % 3;
        self.write_idx = free;
        free
    }

    /// Writes `data` into the writer's slot, stamps it with the next
    /// generation (the counter wraps like an atomic add) and publishes it;
    /// returns the slot.
    pub fn write_and_publish(&mut self, data: T) -> (idx: usize)
        requires
            old(self).wf(),
        ensures
            final(self).wf(),
            idx == next_write_slot(old(self).read_slot()),
            final(self).read_slot() == idx,
            final(self).write_slot() == idx,
            final(self).slot_data(idx as int) == data,
            final(self).slot_generation(idx as int) == old(self).next_generation(),
            final(self).published() == old(self).next_generation(),
            final(self).next_generation() == (old(self).next_generation() + 1) % 0x1_0000_0000_0000_0000,
            (final(self).published(), final(self).next_generation()) == write_step(
                (old(self).published(), old(self).next_generation()),
            ),
            forall|i: int| 0 <= i < 3 && i != idx ==> #[trigger] final(self).slot_data(i) == old(self).slot_data(i),
            forall|i: int| 0 <= i < 3 && i != idx ==> #[trigger] final(self).slot_generation(i) == old(self).slot_generation(i),
    {
        let idx = self.begin_cpu_write();
        let ghost before = self.slots@;
        assert forall|i: int| 0 <= i < 3 implies before[i] == old(self).slots@[i] by {
            assert(self.slot_data(i) == old(self).slot_data(i));
            assert(self.slot_generation(i) == old(self).slot_generation(i));
        }
        let gen = self.next_gen;
        self.next_gen = self.next_gen.wrapping_add(1);
        self.slots.set(idx, Slot { data, generation: gen });
        assert(forall|i: int| 0 <= i < 3 && i != idx ==> self.slots@[i] == before[i]);
        self.end_cpu_write(idx);
        assert forall|i: int| 0 <= i < 3 && i != idx implies self.slots@[i] == old(self).slots@[i] by {
            assert(self.slot_data(i) == before[i].data);
            assert(self.slot_generation(i) == before[i].generation);
        }
        idx
    }

    /// Lets `f` fill the writer's slot in place, then stamps and publishes
    /// it as [`Self::write_and_publish`] does.
    pub fn with_cpu_write<R, F: FnOnce(&mut T) -> R>(&mut self, f: F) -> (r: R)
        requires
            old(self).wf(),
            forall|d: &mut T| f.requires((d,)),
        ensures
            final(self).wf(),
            final(self).read_slot() == next_write_slot(old(self).read_slot()),
            final(self).write_slot() == final(self).read_slot(),
            final(self).slot_generation(final(self).read_slot()) == old(self).next_generation(),
            final(self).published() == old(self).next_generation(),
            final(self).next_generation() == (old(self).next_generation() + 1) % 0x1_0000_0000_0000_0000,
            (final(self).published(), final(self).next_generation()) == write_step(
                (old(self).published(), old(self).next_generation()),
            ),
            forall|i: int|
                0 <= i < 3 && i != final(self).read_slot() ==> #[trigger] final(self).slot_data(i) == old(self).slot_data(i),
            forall|i: int|
                0 <= i < 3 && i != final(self).read_slot() ==> #[trigger] final(self).slot_generation(i)
                    == old(self).slot_generation(i),
            exists|d: &mut T|
                {
                    &&& *d == old(self).slot_data(next_write_slot(old(self).read_slot()))
                    &&& #[trigger] f.ensures((d,), r)
                    &&& *final(d) == final(self).slot_data(final(self).read_slot())
                },
    {
        let idx = self.begin_cpu_write();
        let ghost before = self.slots@;
        assert forall|i: int| 0 <= i < 3 implies before[i] == old(self).slots@[i] by {
            assert(self.slot_data(i) == old(self).slot_data(i));
            assert(self.slot_generation(i) == old(self).slot_generation(i));
        }
        let mut slot = Slot { data: T::default(), generation: 0 };
        std::mem::swap(&mut slot, &mut self.slots[idx]);
        let result = f(&mut slot.data);
        slot.generation = self.next_gen;
        self.next_gen = self.next_gen.wrapping_add(1);
        self.slots.set(idx, slot);
        assert(forall|i: int| 0 <= i < 3 && i != idx ==> self.slots@[i] == before[i]);
        self.end_cpu_write(idx);
        assert forall|i: int| 0 <= i < 3 && i != idx implies self.slots@[i] == old(self).slots@[i] by {
            assert(self.slot_data(i) == before[i].data);
            assert(self.slot_generation(i) == before[i].generation);
        }
        result
    }

    /// Publishes slot `idx`: it becomes the read slot and its generation the
    /// published one.
    pub fn end_cpu_write(&mut self, idx: usize)
        requires
            old(self).wf(),
            idx < 3,
        ensures
            final(self).wf(),
            final(self).read_slot() == idx,
            final(self).write_slot() == old(self).write_slot(),
            final(self).published() == old(self).slot_generation(idx as int),
            final(self).next_generation() == old(self).next_generation(),
            forall|i: int| 0 <= i < 3 ==> #[trigger] final(self).slot_data(i) == old(self).slot_data(i),
            forall|i: int| 0 <= i < 3 ==> #[trigger] final(self).slot_generation(i) == old(self).slot_generation(i),
    {
        self.read_idx = idx;
        self.published_gen = self.slots[idx].generation;
    }

    /// A copy of the published slot's data.
    pub fn begin_gpu_read(&self) -> (d: T)
        requires
            self.wf(),
        ensures
            cloned::<T>(self.slot_data(self.read_slot()), d),
    {
        self.slots[self.read_idx].data.clone()
    }

    pub fn published_generation(&self) -> (g: u64)
        ensures
            g == self.published(),
    {
        self.published_gen
    }

    /// Index of the published slot.
    pub fn published_index(&self) -> (i: usize)
        ensures
            i == self.read_slot(),
    {
        self.read_idx
    }
}

impl<T: Clone + Default> Default for TripleBuffer<T> {
    fn default() -> (b: Self)
        ensures
            b.wf(),
            b.read_slot() == 1,
            b.write_slot() == 0,
            b.published() == 0,
            b.next_generation() == 1,
    {
        Self::new()
    }
}

/// Generations (published, next) after one completed write.
pub open spec fn write_step(g: (u64, u64)) -> (u64, u64) {
    (g.1, ((g.1 + 1) % 0x1_0000_0000_0000_0000) as u64)
}

/// Generations after `k` completed writes from `g`.
pub open spec fn after_writes(g: (u64, u64), k: nat) -> (u64, u64)
    decreases k,
{
    if k == 0 {
        g
    } else {
        write_step(after_writes(g, (k - 1) as nat))
    }
}

/// Generation law: from a fresh buffer (published 0, next 1), the `k`-th
/// completed write publishes generation `k`.
pub proof fn lemma_kth_write_publishes_k(k: nat)
    requires
        k < u64::MAX,
    ensures
        after_writes((0u64, 1u64), k) == (k as u64, (k + 1) as u64),
    decreases k,
{
    if k > 0 {
        lemma_kth_write_publishes_k((k - 1) as nat);
    }
}

/// The writer's slot is never the published one, and after a write it is the
/// published one: writes cycle 2, 0, 1, 2, ... from a fresh buffer.
pub proof fn lemma_write_slot_never_published(read: int)
    requires
        0 <= read < 3,
    ensures
        next_write_slot(read) != read,
        0 <= next_write_slot(read) < 3,
        next_write_slot(next_write_slot(next_write_slot(read))) == read,
{
}

} // verus!
