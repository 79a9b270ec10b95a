//! The two closed error taxonomies: one for decoding, one for encoding.
//! Every failure is reported to the caller with its diagnostic payload;
//! nothing is retried or recovered internally.
use vstd::prelude::*;

verus! {

/// An error that can arise decoding ASN.1 primitive blocks.
#[derive(Clone, Debug, PartialEq, Eq)]
pub enum ASN1DecodeErr {
    /// The buffer handed to the top-level decoder held no blocks at all.
    EmptyBuffer,
    /// A boolean block whose content was not exactly one byte long.
    BadBooleanLength(usize),
    /// A length field whose own byte count cannot fit the platform's
    /// addressable size.
    LengthTooLarge(usize),
    /// A string body that is not valid UTF-8.
    UTF8DecodeFailure,
    /// A printable string body that is not valid UTF-8.
    PrintableStringDecodeFailure,
    /// A time body that does not follow the expected digit layout, carried
    /// back as the text that failed to parse.
    InvalidDateValue(String),
    /// A bit string whose content is too short for a bit count.
    InvalidBitStringLength(isize),
    /// Not a valid ASN.1 class.
    ///
    /// Retained for interface symmetry: every 2-bit pattern maps to a class,
    /// so no input byte actually produces it.
    InvalidClass(u8),
    /// Expected more input.
    ///
    /// Invalid ASN.1 input can lead to this error.
    Incomplete,
    /// A value too large for the requested narrower integer type.
    Overflow,
}

/// An error that can arise encoding ASN.1 primitive blocks.
#[derive(Clone, Debug, PartialEq, Eq)]
pub enum ASN1EncodeErr {
    /// An object identifier with fewer than two components.
    ObjectIdentHasTooFewFields,
    /// An object identifier whose first component is over 2.
    ObjectIdentVal1TooLarge,
    /// An object identifier whose second component is over the bound its
    /// first component allows.
    ObjectIdentVal2TooLarge,
}

} // verus!
