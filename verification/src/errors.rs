//! The error taxonomies of the encoder and the decoder.

use vstd::prelude::*;
use crate::signature;

verus! {

/// The ways encoding a value can fail. Signature problems keep their own
/// error so callers can see which rule a type broke.
#[derive(Copy, Clone, Debug, Eq, PartialEq, Structural)]
pub enum MarshalError {
    Signature(signature::Error),
    StringContainsNullByte,
    InvalidObjectPath,
    ArrayElementTypeMismatch,
    DictKeyTypeMismatch,
    DictValueTypeMismatch,
    DictDuplicateKey,
    ValueTooLarge,
}

/// The ways decoding a buffer can fail.
#[derive(Copy, Clone, Debug, Eq, PartialEq, Structural)]
pub enum UnmarshalError {
    NotEnoughBytes,
    PaddingContainedNonZero,
    InvalidBoolean,
    InvalidUtf8,
    InvalidObjectPath,
    InvalidSignature,
    UnixFdIndexOutOfRange,
    ArraySizeTooLarge,
    NestingTooDeep,
}

} // verus!
