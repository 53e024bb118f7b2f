//! Frame stutter guards: a per-frame bump arena (allocations are offsets into
//! one chunk, all freed at once at frame end), and time slicing of a backlog
//! of work items under a per-frame microsecond budget, the rest deferred to
//! later frames.

use std::collections::VecDeque;
use vstd::prelude::*;

verus! {

/// Sum of reported costs.
pub open spec fn cost_sum(c: Seq<u32>) -> int
    decreases c.len(),
{
    if c.len() == 0 {
        0
    } else {
        cost_sum(c.drop_last()) + c.last()
    }
}

/// Per-frame work budget with a FIFO backlog.
pub struct TimeSlice<T> {
    pub budget_us: u32,
    backlog: VecDeque<T>,
    pub completed: u64,
    pub deferred: u64,
}

/// Per-frame statistics.
#[derive(Debug, Clone, Copy, Default)]
pub struct FramePerfSample {
    pub frame_us: u32,
    pub arena_used: usize,
    pub arena_allocs: u32,
    pub deferred_work: usize,
}

impl<T> TimeSlice<T> {
    /// Microsecond budget per frame.
    pub closed spec fn budget(self) -> u32 {
        self.budget_us
    }

    /// Items completed so far.
    pub closed spec fn completed_count(self) -> u64 {
        self.completed
    }

    /// Deferred-item tally.
    pub closed spec fn deferred_count(self) -> u64 {
        self.deferred
    }

    /// The queued items, oldest first.
    pub closed spec fn queue(self) -> Seq<T> {
        self.backlog@
    }

    /// The budget is raised to at least 200 microseconds.
    pub fn new(budget_us: u32) -> (ts: Self)
        ensures
            ts.budget() == if budget_us < 200 {
                200
            } else {
                budget_us
            },
            ts.queue() == Seq::<T>::empty(),
            ts.completed_count() == 0,
            ts.deferred_count() == 0,
    {
        Self {
            budget_us: if budget_us < 200 { 200 } else { budget_us },
            backlog: VecDeque::new(),
            completed: 0,
            deferred: 0,
        }
    }

    pub fn push(&mut self, item: T)
        ensures
            final(self).queue() == old(self).queue().push(item),
            final(self).budget() == old(self).budget(),
            final(self).completed_count() == old(self).completed_count(),
            final(self).deferred_count() == old(self).deferred_count(),
    {
        self.backlog.push_back(item);
    }

    pub fn backlog_len(&self) -> (n: usize)
        ensures
            n == self.queue().len(),
    {
        self.backlog.len()
    }

    /// Processes queued items in order while the time spent so far does not
    /// exceed the budget (the item that crosses it still runs); `process`
    /// reports each item's cost in microseconds. Returns how many ran; the
    /// number left over is added to `deferred`.
    pub fn run_frame<F: Fn(&T) -> u32>(&mut self, process: F) -> (done: usize)
        requires
            forall|i: int| 0 <= i < old(self).queue().len() ==> process.requires((&old(self).queue()[i],)),
            old(self).completed_count() + old(self).queue().len() <= u64::MAX,
            old(self).deferred_count() + old(self).queue().len() <= u64::MAX,
        ensures
            done <= old(self).queue().len(),
            final(self).queue() == old(self).queue().skip(done as int),
            final(self).budget() == old(self).budget(),
            final(self).completed_count() == old(self).completed_count() + done,
            final(self).deferred_count() == old(self).deferred_count() + (old(self).queue().len() - done),
            exists|costs: Seq<u32>|
                {
                    &&& costs.len() == done
                    &&& forall|j: int| 0 <= j < done ==> process.ensures((&old(self).queue()[j],), #[trigger] costs[j])
                    &&& forall|j: int| 0 <= j < done ==> cost_sum(#[trigger] costs.take(j)) <= old(self).budget()
                    &&& done < old(self).queue().len() ==> cost_sum(costs) > old(self).budget()
                },
    {
        let ghost q = self.backlog@;
        let ghost costs: Seq<u32> = Seq::empty();
        let mut spent: u64 = 0;
        let mut done: usize = 0;
        assert(q.len() == self.backlog.len());
        while self.backlog.len() > 0
            invariant
                done <= q.len(),
                q.len() <= usize::MAX,
                self.backlog@ == q.skip(done as int),
                self.budget_us == old(self).budget_us,
                self.completed == old(self).completed + done,
                self.deferred == old(self).deferred,
                q == old(self).queue(),
                old(self).completed + q.len() <= u64::MAX,
                forall|i: int| 0 <= i < q.len() ==> process.requires((&q[i],)),
                costs.len() == done,
                spent == cost_sum(costs),
                forall|j: int| 0 <= j < done ==> process.ensures((&q[j],), #[trigger] costs[j]),
                forall|j: int| 0 <= j < done ==> cost_sum(#[trigger] costs.take(j)) <= self.budget_us,
                spent <= self.budget_us as int + u32::MAX as int,
            ensures
                done <= q.len(),
                self.backlog@ == q.skip(done as int),
                self.budget_us == old(self).budget_us,
                self.completed == old(self).completed + done,
                self.deferred == old(self).deferred,
                costs.len() == done,
                forall|j: int| 0 <= j < done ==> process.ensures((&q[j],), #[trigger] costs[j]),
                forall|j: int| 0 <= j < done ==> cost_sum(#[trigger] costs.take(j)) <= self.budget_us,
                done < q.len() ==> cost_sum(costs) > self.budget_us,
            decreases q.len() - done,
        {
            if spent > self.budget_us as u64 {
                break;
            }
            assert(q.skip(done as int)[0] == q[done as int]);
            let cost = process(&self.backlog[0]);
            let ghost old_costs = costs;
            proof {
                costs = costs.push(cost);
                assert(costs.drop_last() =~= old_costs);
                assert(costs.take(done as int) =~= old_costs);
                assert forall|j: int| 0 <= j < done + 1 implies cost_sum(#[trigger] costs.take(j)) <= self.budget_us by {
                    if j < done {
                        assert(costs.take(j) =~= old_costs.take(j));
                    }
                }
            }
            spent = spent + cost as u64;
            self.backlog.pop_front();
            assert(self.backlog@ =~= q.skip(done + 1));
            done += 1;
            self.completed += 1;
        }
        if self.backlog.len() > 0 {
            self.deferred += self.backlog.len() as u64;
        }
        assert(costs.take(done as int) =~= costs);
        done
    }
}

/// `n` rounded up to a multiple of 8.
pub open spec fn round8(n: int) -> int {
    (n + 7) / 8 * 8
}

/// Arena state: chunk capacity, bytes handed out, live allocations.
pub struct ArenaState {
    pub cap: nat,
    pub used: nat,
    pub allocations: nat,
}

/// Per-frame bump allocator over one chunk of at least 4096 bytes; blocks
/// are byte offsets into the chunk, 8-byte aligned.
pub struct FrameArena {
    chunk: Vec<u8>,
    used: usize,
    chunk_size: usize,
    allocations: u32,
}

impl View for FrameArena {
    type V = ArenaState;

    closed spec fn view(&self) -> ArenaState {
        ArenaState { cap: self.chunk@.len(), used: self.used as nat, allocations: self.allocations as nat }
    }
}

impl FrameArena {
    /// The arena's own invariant: blocks stay inside the chunk.
    pub closed spec fn wf(&self) -> bool {
        &&& self.used <= self.chunk@.len()
        &&& self.chunk@.len() == self.chunk_size
        &&& self.chunk_size >= 4096
    }

    /// An empty arena with a chunk of `max(chunk_size, 4096)` bytes.
    pub fn new(chunk_size: usize) -> (a: Self)
        ensures
            a.wf(),
            a@.cap == if chunk_size < 4096 { 4096 } else { chunk_size },
            a@.used == 0,
            a@.allocations == 0,
    {
        let size = if chunk_size < 4096 { 4096 } else { chunk_size };
        FrameArena { chunk: vec![0u8; size], used: 0, chunk_size: size, allocations: 0 }
    }

    /// A block of `n` bytes rounded up to 8: its offset, or `None` (and no
    /// change) when the chunk has no room left.
    pub fn alloc_bytes(&mut self, n: usize) -> (r: Option<usize>)
        requires
            old(self).wf(),
            n + 7 <= usize::MAX,
            old(self)@.used + round8(n as int) <= usize::MAX,
            old(self)@.used + round8(n as int) <= old(self)@.cap ==> old(self)@.allocations < u32::MAX,
        ensures
            final(self).wf(),
            final(self)@.cap == old(self)@.cap,
            old(self)@.used + round8(n as int) > old(self)@.cap ==> r is None && final(self)@ == old(self)@,
            old(self)@.used + round8(n as int) <= old(self)@.cap ==> r == Some(old(self)@.used as usize)
                && final(self)@.used == old(self)@.used + round8(n as int) && final(self)@.allocations
                == old(self)@.allocations + 1,
    {
        let m = (n + 7) & !7usize;
        assert(m == round8(n as int)) by {
            let k = (n + 7) as usize;
            assert(k & !7usize == k / 8 * 8) by (bit_vector);
        }
        if self.used + m > self.chunk.len() {
            return None;
        }
        let at = self.used;
        self.used = self.used + m;
        self.allocations = self.allocations + 1;
        Some(at)
    }

    /// A block for `n` values of `T` (`n * size_of::<T>()` bytes), as
    /// `alloc_bytes` gives it.
    pub fn alloc_pod_slice<T: Sized>(&mut self, n: usize) -> (r: Option<usize>)
        requires
            old(self).wf(),
            n * vstd::layout::size_of::<T>() + 7 <= usize::MAX,
            old(self)@.used + round8(n * vstd::layout::size_of::<T>()) <= usize::MAX,
            old(self)@.used + round8(n * vstd::layout::size_of::<T>()) <= old(self)@.cap ==> old(self)@.allocations
                < u32::MAX,
        ensures
            final(self).wf(),
            final(self)@.cap == old(self)@.cap,
            old(self)@.used + round8(n * vstd::layout::size_of::<T>()) > old(self)@.cap ==> r is None && final(self)@
                == old(self)@,
            old(self)@.used + round8(n * vstd::layout::size_of::<T>()) <= old(self)@.cap ==> r == Some(
                old(self)@.used as usize,
            ) && final(self)@.used == old(self)@.used + round8(n * vstd::layout::size_of::<T>())
                && final(self)@.allocations == old(self)@.allocations + 1,
    {
        let bytes = n * core::mem::size_of::<T>();
        self.alloc_bytes(bytes)
    }

    /// Frame end: every block is released at once.
    pub fn reset(&mut self)
        requires
            old(self).wf(),
        ensures
            final(self).wf(),
            final(self)@.cap == old(self)@.cap,
            final(self)@.used == 0,
            final(self)@.allocations == 0,
    {
        self.used = 0;
        self.allocations = 0;
    }

    pub fn used(&self) -> (r: usize)
        ensures
            r == self@.used,
    {
        self.used
    }

    pub fn allocations(&self) -> (r: u32)
        ensures
            r == self@.allocations,
    {
        self.allocations
    }

    pub fn capacity(&self) -> (r: usize)
        ensures
            r == self@.cap,
    {
        self.chunk.len()
    }
}

} // verus!
