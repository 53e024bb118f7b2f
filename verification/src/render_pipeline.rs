//! Counters of the vanilla render hooks (model quad queries and chunk layer
//! renders) that the host reports; readers take deltas of the totals.

use vstd::prelude::*;

verus! {

/// The counters after one hook call: a model quad query when `quads`,
/// else a chunk layer render.
pub open spec fn after_hook(c: VanillaHookCounters, quads: bool) -> VanillaHookCounters {
    if quads {
        VanillaHookCounters { get_quads: (c.get_quads + 1) as u64, ..c }
    } else {
        VanillaHookCounters { chunk_layer: (c.chunk_layer + 1) as u64, ..c }
    }
}

/// The counters after the hook calls `calls`, in order.
pub open spec fn after_hooks(c: VanillaHookCounters, calls: Seq<bool>) -> VanillaHookCounters
    decreases calls.len(),
{
    if calls.len() == 0 {
        c
    } else {
        after_hook(after_hooks(c, calls.drop_last()), calls.last())
    }
}

/// Number of model quad queries among `calls`.
pub open spec fn quad_calls(calls: Seq<bool>) -> nat
    decreases calls.len(),
{
    if calls.len() == 0 {
        0
    } else {
        quad_calls(calls.drop_last()) + if calls.last() {
            1nat
        } else {
            0nat
        }
    }
}

/// Totals of the two vanilla render hooks.
#[derive(Debug, Clone, Copy, PartialEq, Eq, Structural)]
pub struct VanillaHookCounters {
    pub get_quads: u64,
    pub chunk_layer: u64,
}

impl VanillaHookCounters {
    /// Both totals at zero.
    pub fn new() -> (c: Self)
        ensures
            c.get_quads == 0,
            c.chunk_layer == 0,
    {
        VanillaHookCounters { get_quads: 0, chunk_layer: 0 }
    }

    /// Records one model quad query; returns the new total.
    pub fn note_vanilla_get_quads_hook(&mut self) -> (total: u64)
        requires
            old(self).get_quads < u64::MAX,
        ensures
            total == old(self).get_quads + 1,
            final(self).get_quads == total,
            final(self).chunk_layer == old(self).chunk_layer,
            *final(self) == after_hook(*old(self), true),
    {
        self.get_quads = self.get_quads + 1;
        self.get_quads
    }

    /// Records one chunk layer render; returns the new total.
    pub fn note_vanilla_chunk_layer_hook(&mut self) -> (total: u64)
        requires
            old(self).chunk_layer < u64::MAX,
        ensures
            total == old(self).chunk_layer + 1,
            final(self).chunk_layer == total,
            final(self).get_quads == old(self).get_quads,
            *final(self) == after_hook(*old(self), false),
    {
        self.chunk_layer = self.chunk_layer + 1;
        self.chunk_layer
    }

    /// Snapshot of both totals: (quad queries, chunk layer renders).
    pub fn vanilla_render_hook_hits(&self) -> (r: (u64, u64))
        ensures
            r == (self.get_quads, self.chunk_layer),
    {
        (self.get_quads, self.chunk_layer)
    }
}

/// Counting law: after any run of hook calls (no total overflowing), each
/// total has grown by exactly the number of calls of its hook, so snapshots
/// never decrease.
pub proof fn lemma_hook_totals(c: VanillaHookCounters, calls: Seq<bool>)
    requires
        c.get_quads + quad_calls(calls) <= u64::MAX,
        c.chunk_layer + (calls.len() - quad_calls(calls)) <= u64::MAX,
    ensures
        quad_calls(calls) <= calls.len(),
        after_hooks(c, calls).get_quads == c.get_quads + quad_calls(calls),
        after_hooks(c, calls).chunk_layer == c.chunk_layer + (calls.len() - quad_calls(calls)),
    decreases calls.len(),
{
    if calls.len() > 0 {
        lemma_hook_totals(c, calls.drop_last());
    }
}

} // verus!
