//! Hints for tile-based deferred renderers: which attachments can stay in tile
//! memory (transient, lazily allocated).

use vstd::prelude::*;

verus! {

/// Where an attachment must live.
#[derive(Debug, Clone, Copy, PartialEq, Eq, Structural)]
pub enum AttachmentUsage {
    Transient,
    Persistent,
}

/// How one render pass uses an attachment.
pub struct TbdrPass {
    /// Written inside the pass.
    pub writes: bool,
    /// Read by a later pass.
    pub reads_outside_pass: bool,
}

impl TbdrPass {
    /// Transient exactly when written in the pass and never read outside it.
    pub fn recommended_usage(&self) -> (u: AttachmentUsage)
        ensures
            u == (if self.writes && !self.reads_outside_pass {
                AttachmentUsage::Transient
            } else {
                AttachmentUsage::Persistent
            }),
    {
        if self.writes && !self.reads_outside_pass {
            AttachmentUsage::Transient
        } else {
            AttachmentUsage::Persistent
        }
    }

    /// Lazy allocation is recommended for transient attachments.
    pub fn lazy_allocated(&self) -> (b: bool)
        ensures
            b == (self.writes && !self.reads_outside_pass),
    {
        self.recommended_usage() == AttachmentUsage::Transient
    }
}

} // verus!
