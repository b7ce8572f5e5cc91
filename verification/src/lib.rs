//! Sample-accurate event sequencing and overlap-add resynthesis scheduling.
//!
//! The crate contains two cores that share nothing but a notion of time
//! measured in whole samples:
//!
//! * a sequencer that promotes scheduled events to an active set, retires
//!   expired ones, and describes per-block rendering work (index ranges and
//!   fade envelopes) for an audio layer to execute;
//! * the window bookkeeping of a four-fold overlap-add resynthesizer, which
//!   decides at every sample which of the four staggered analysis windows
//!   must run its transform.
//!
//! All floating-point work (unit rendering, fade gain evaluation, the FFT
//! itself) happens outside this crate; the types here carry the exact integer
//! decisions that drive it.

pub mod backend;
pub mod event;
pub mod fade;
pub mod resynth;
pub mod sequencer;
