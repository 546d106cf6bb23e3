use vstd::prelude::*;

verus! {

/// The ways in which encoding or decoding a message can fail.
#[derive(Debug, Clone, Copy, PartialEq, Eq, Structural)]
pub enum FixError {
    /// A field span, a tag or the checksum text is malformed, or a header
    /// field stands where another was expected.
    InvalidFormat,
    /// The checksum carried by the message disagrees with its bytes.
    InvalidChecksum,
    /// A required field is absent; it carries the tag.
    MissingField(u32),
    /// Reserved for validation of field contents.
    InvalidFieldValue,
    /// Reserved for validation of the declared body length.
    InvalidBodyLength,
}

} // verus!
