//! Decoding and encoding of BER-TLV (tag, length, value) structures with
//! definite-form lengths, as used by smart-card protocols.
//!
//! A byte buffer is decoded into a tree of [`tlv::Tlv`] nodes, a tree is
//! encoded back into bytes, and a value inside a tree is found by a
//! slash-separated path of hexadecimal tag numbers.
//!
//! Every function states what it returns over the mathematical model of
//! [`model`], [`wire`] and [`path`], and is proved to return just that;
//! [`round_trip`] proves that decoding and encoding undo each other.
use vstd::prelude::*;

pub mod bytes;
pub mod dump;
pub mod model;
pub mod path;
pub mod round_trip;
pub mod text;
pub mod tlv;
pub mod wire;

verus! {

/// What can go wrong while decoding, building or searching a TLV tree.
#[derive(Debug, Clone, Copy, PartialEq, Eq, Structural)]
pub enum TlvError {
    /// The input ended inside a tag or length field.
    TruncatedTlv,
    /// A length field is malformed or names a length that does not fit `usize`.
    InvalidLength,
    /// A tag number is zero or does not fit `usize`.
    InvalidTagNumber,
    /// A length field names `expected` value bytes where only `found` are
    /// left.
    TooShortBody { expected: usize, found: usize },
    /// A primitive tag was given a list of children.
    ValExpected { tag_number: usize },
    /// A constructed tag was given raw bytes.
    TlvListExpected { tag_number: usize },
    /// A tag path is not a `/`-separated list of hexadecimal numbers.
    TagPathError,
}

} // verus!
