use vstd::prelude::*;

verus! {

/// The errors the envelope reports.
#[derive(Debug, Clone, PartialEq, Eq)]
pub enum EnvelopeError {
    /// Reading or writing the input or the output failed, or the system's
    /// random number generator did.
    IoError,
    /// The header is truncated, too large, does not decode, repeats an option
    /// name or has no option.
    HeaderMalformed,
    /// The chosen option names a factor (its name's bytes) that the registry
    /// does not hold.
    UnknownFactor(Vec<u8>),
    /// A factor could not produce its key: the factor's name and the reason.
    FactorFailed(Vec<u8>, Vec<u8>),
    /// An authentication tag did not verify.
    DecryptionFailed,
    /// The payload has more chunks than the 32-bit segment counter numbers.
    PayloadTooLarge,
    /// An option without factors, an empty or repeated option name, or no
    /// option at all.
    InvalidConfiguration,
}

/// Whether a result is `Ok` with the bytes `p`.
pub open spec fn decrypts_to(r: Result<Vec<u8>, EnvelopeError>, p: Seq<u8>) -> bool {
    r matches Ok(q) && q@ == p
}

} // verus!
