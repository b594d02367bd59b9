//! Why a processor could not be prepared.

use crate::text::{decimal_text, push_decimal};
use vstd::prelude::*;
use vstd::string::StringExecFns;

verus! {

/// A configuration that a processor rejects.
#[derive(Clone, Copy, Debug, PartialEq, Eq)]
#[non_exhaustive]
pub enum DspError {
    /// A parameter was outside its valid range or otherwise invalid.
    InvalidParam(&'static str),
    /// The rate, channel count, or block size is unsupported.
    UnsupportedSpec(&'static str),
    /// The smallest footprint of the configuration exceeds the memory cap.
    OverBudget {
        /// Bytes the processor needs at minimum.
        needed: usize,
        /// The cap that was given.
        cap: usize,
    },
}

impl DspError {
    /// The message that [`message`](DspError::message) returns.
    pub open spec fn text(&self) -> Seq<char> {
        match *self {
            DspError::InvalidParam(m) => "invalid parameter: "@ + m@,
            DspError::UnsupportedSpec(m) => "unsupported spec: "@ + m@,
            DspError::OverBudget { needed, cap } => "over memory budget: needs "@ + decimal_text(
                needed as nat,
            ) + " bytes, cap is "@ + decimal_text(cap as nat),
        }
    }

    /// One line for a person to read.
    pub fn message(&self) -> (r: String)
        ensures
            r@ == self.text(),
    {
        match self {
            DspError::InvalidParam(m) => {
                let mut r = String::from_str("invalid parameter: ");
                r.append(m);
                r
            },
            DspError::UnsupportedSpec(m) => {
                let mut r = String::from_str("unsupported spec: ");
                r.append(m);
                r
            },
            DspError::OverBudget { needed, cap } => {
                let mut r = String::from_str("over memory budget: needs ");
                push_decimal(&mut r, *needed as u64);
                r.append(" bytes, cap is ");
                push_decimal(&mut r, *cap as u64);
                r
            },
        }
    }
}

} // verus!
