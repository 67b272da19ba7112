//! Error values surfaced by the VCF reader, writer and parsers.

use vstd::prelude::*;

verus! {

/// `std::io::Error` is carried through unchanged when the underlying stream
/// fails; the type itself is opaque to the verifier.
#[verifier::external_type_specification]
#[verifier::external_body]
pub struct ExIoError(std::io::Error);

/// Everything that can go wrong while reading or writing VCF data.
#[derive(Debug)]
pub enum VCFError {
    /// A `##` or `#` header line failed the header grammar; holds the
    /// one-based line number.
    HeaderParseError(u64),
    /// A data line failed the record grammar; holds the one-based line number.
    RecordParseError(u64),
    /// The underlying stream failed.
    IoError(std::io::Error),
    /// Raw bytes were not valid UTF-8 where text was required.
    Utf8Error,
}

impl From<std::io::Error> for VCFError {
    fn from(e: std::io::Error) -> (r: VCFError) {
        VCFError::IoError(e)
    }
}

impl vstd::std_specs::convert::FromSpecImpl<std::io::Error> for VCFError {
    open spec fn obeys_from_spec() -> bool {
        true
    }

    open spec fn from_spec(e: std::io::Error) -> VCFError {
        VCFError::IoError(e)
    }
}

} // verus!
