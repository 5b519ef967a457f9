//! The fatal conditions of the pipeline.  None of them is recoverable:
//! the run aborts without a report, and the payload identifies the
//! offending line or probe where there is one.

use vstd::prelude::*;

verus! {

#[derive(PartialEq, Eq, Structural, Clone, Copy, Debug)]
pub enum PipelineError {
    /// A record line holds no `;` delimiter; the payload is the index of
    /// the line within its chunk.
    MissingDelimiter(usize),
    /// The value field of a record line is not a well-formed decimal;
    /// the payload is the index of the line within its chunk.
    BadNumeral(usize),
    /// A boundary probe window holds no line break, so no line-aligned
    /// chunk boundary can be placed there; the payload is the index of
    /// the probe.
    NoLineBreak(usize),
    /// Merging two aggregates would overflow their record counter, a
    /// machine limit rather than an input fault.
    StatOverflow,
}

impl PipelineError {
    /// A short diagnostic name for the condition, for the process that
    /// reports the abort.
    pub fn describe(&self) -> &'static str {
        match self {
            PipelineError::MissingDelimiter(_) => "record line holds no delimiter",
            PipelineError::BadNumeral(_) => "record value is not a well-formed decimal",
            PipelineError::NoLineBreak(_) => "no line break inside a boundary probe",
            PipelineError::StatOverflow => "record counter would overflow",
        }
    }
}

} // verus!
