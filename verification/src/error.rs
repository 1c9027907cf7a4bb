//! The errors that splitting and recovering report.

use vstd::prelude::*;

verus! {

/// Why a pair of split parameters was refused.
#[derive(Clone, Copy, Debug, PartialEq, Eq, Structural)]
pub enum ParameterFault {
    /// More shares are required for recovery than are dealt.
    ThresholdAboveShares,
    /// The threshold is under the policy minimum.
    ThresholdBelowMinimum,
    /// More shares are asked for than there are nonzero x-coordinates.
    SharesAboveMaximum,
}

/// Every way in which an operation of this library fails.
#[derive(Clone, Copy, Debug, PartialEq, Eq, Structural)]
pub enum Error {
    /// The threshold is greater than the share count or under the minimum,
    /// or more shares are asked for than one split can deal.
    InvalidParameters(ParameterFault),
    /// Fewer shares than the policy minimum were supplied.
    InsufficientShares,
    /// A token is no base64 text, its bytes are too few for a share, or the
    /// x-coordinate is zero.
    MalformedShare,
    /// The shares differ in length or two of them have the same x-coordinate.
    InconsistentShares,
    /// The recovered bytes are no UTF-8 text.
    NonUtf8Secret,
    /// The system's random source gave no entropy; nothing was dealt.
    RandomnessFailure,
}

/// The least threshold, and the least number of shares to recover from.
pub const MIN_THRESHOLD: usize = 3;

/// The greatest number of shares one split can deal: the nonzero bytes.
pub const MAX_SHARES: usize = 255;

impl Error {
    /// The text that `message` returns.
    pub open spec fn description(self) -> Seq<char> {
        match self {
            Error::InvalidParameters(ParameterFault::ThresholdAboveShares) =>
                "Threshold cannot be greater than number of shares"@,
            Error::InvalidParameters(ParameterFault::ThresholdBelowMinimum) =>
                "Threshold must be at least 3"@,
            Error::InvalidParameters(ParameterFault::SharesAboveMaximum) =>
                "Number of shares cannot be greater than 255"@,
            Error::InsufficientShares => "At least 3 shares are required"@,
            Error::MalformedShare => "Failed to parse share"@,
            Error::InconsistentShares => "Failed to recover secret"@,
            Error::NonUtf8Secret => "Recovered secret is not valid UTF-8"@,
            Error::RandomnessFailure => "The secure random source is unavailable"@,
        }
    }

    /// A sentence for the user.
    pub fn message(&self) -> (r: String)
        ensures
            r@ == self.description(),
    {
        let text: &str = match self {
            Error::InvalidParameters(ParameterFault::ThresholdAboveShares) =>
                "Threshold cannot be greater than number of shares",
            Error::InvalidParameters(ParameterFault::ThresholdBelowMinimum) =>
                "Threshold must be at least 3",
            Error::InvalidParameters(ParameterFault::SharesAboveMaximum) =>
                "Number of shares cannot be greater than 255",
            Error::InsufficientShares => "At least 3 shares are required",
            Error::MalformedShare => "Failed to parse share",
            Error::InconsistentShares => "Failed to recover secret",
            Error::NonUtf8Secret => "Recovered secret is not valid UTF-8",
            Error::RandomnessFailure => "The secure random source is unavailable",
        };
        text.to_owned()
    }
}

} // verus!
