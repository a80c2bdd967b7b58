use vstd::prelude::*;

verus! {

/// The failures the pipeline surfaces instead of panicking.
///
/// All of them are detected at construction time or at one specific
/// operation boundary, so none has to unwind through the stages.
#[derive(Clone, Copy, Debug, PartialEq, Eq, Structural)]
pub enum PipelineError {
    /// A mapping rule whose length is not positive.
    InvalidRule,
    /// A range whose start does not lie strictly below its end.
    InvalidRange,
    /// A minimum was asked of an empty range set.
    EmptyResult,
    /// A translated bound would not fit in a 64-bit signed integer.
    ArithmeticOverflow,
}

} // verus!
