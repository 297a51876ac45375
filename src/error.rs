use vstd::prelude::*;

verus! {

/// Failures reported by the virtqueue driver.
#[derive(Debug, Clone, Copy, PartialEq, Eq, Structural)]
pub enum VirtioError {
    /// A malformed queue size, or a request that names no buffer.
    InvalidParam,
    /// The queue index is already configured on the transport.
    AlreadyUsed,
    /// Not enough free descriptors for the requested chain.
    BufferTooSmall,
    /// Staging allocation failed, or the bounce-buffer registry is inconsistent.
    DmaError,
    /// No completed chain is waiting in the used ring.
    NotReady,
}

} // verus!
