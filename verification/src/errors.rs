//! Error kinds shared by the core operations.
//!
//! Every core operation is atomic: an error means the operation performed no
//! state change at all. An insufficiently liquid swap is not an error; it is a
//! partial fill, reported in the swap result itself.

use vstd::prelude::*;

verus! {

/// The ways a core operation can fail.
#[derive(Clone, Copy, Debug, PartialEq, Eq, Structural)]
pub enum LbError {
    /// An intermediate value did not fit its fixed-width integer type.
    /// The whole operation is aborted; nothing saturates silently.
    ArithmeticOverflow,
    /// An oracle lookup asked for a timestamp outside the retained history.
    OracleRangeError,
    /// Static fee parameters violate their configured bounds.
    InvalidParameters,
    /// A bin mutation disagreed with the presence tree: an invariant
    /// violation that must fail loudly rather than be silently corrected.
    StaleBinState,
}

impl LbError {
    /// A human-readable name for the error kind.
    pub fn as_str(&self) -> (r: &'static str)
        ensures
            (*self is ArithmeticOverflow) ==> r@ == "arithmetic overflow"@,
            (*self is OracleRangeError) ==> r@ == "oracle lookup out of range"@,
            (*self is InvalidParameters) ==> r@ == "invalid parameters"@,
            (*self is StaleBinState) ==> r@ == "stale bin state"@,
    {
        match self {
            LbError::ArithmeticOverflow => "arithmetic overflow",
            LbError::OracleRangeError => "oracle lookup out of range",
            LbError::InvalidParameters => "invalid parameters",
            LbError::StaleBinState => "stale bin state",
        }
    }
}

} // verus!
