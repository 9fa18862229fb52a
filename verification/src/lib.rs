//! Sparse, time-indexed, multi-channel event store and the step-function
//! compiler built on top of it.
//!
//! The library records per-channel state changes at discrete integer time
//! points, answers floor queries ("the value of channel `c` at or before
//! time `t`") under zero-order-hold semantics, offers whole-timeline
//! boolean algebra and value-exact compaction, reinterprets byte-granular
//! channel layouts as wider typed layouts, compiles per-channel change
//! history into bounded closed-form step expressions, and assembles those
//! expressions into a directed node graph with a 16-bit index space.
//!
//! Decoding the MIDI-like input event stream and serializing the node
//! graph to its persisted form are jobs of outside collaborators; this
//! crate consumes and produces plain values only.

use vstd::prelude::*;

pub mod algebra;
pub mod encoder;
pub mod graph;
pub mod multisequence;
pub mod multisequenceview;
pub mod optionarray;
pub mod pack;
pub mod render;
pub mod sequence;
pub mod sequenceview;
pub mod timebytesequence;
pub mod value;

verus! {

/// The failures the pipeline can report.  Construction of a result either
/// fully succeeds or yields one of these; partial output is never handed
/// out.
#[derive(Clone, Copy, Debug, PartialEq, Eq, Structural)]
pub enum Error {
    /// A node allocation went past the fixed 16-bit index bound.
    CapacityExceeded { count: usize, bound: usize },
    /// An indexed access lay beyond the configured channel capacity.
    OutOfRange { index: usize, bound: usize },
    /// The input time base could not be normalized to one integer tick
    /// scale.
    UnsupportedInputTiming,
    /// A node or channel count would not fit the 16-bit index space; this
    /// is raised before any graph is emitted.
    IntegerNarrowing { count: usize, bound: usize },
}

} // verus!
