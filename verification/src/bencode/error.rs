//! What can be wrong with a bencoded input.
use crate::text::{hex_char, number_text, nybble, push_number, text};
use vstd::prelude::*;

verus! {

/// A decoding failure and where it was found.
#[derive(Debug, Clone, Copy, PartialEq, Eq, Structural)]
pub struct DecodeError {
    /// Byte offset of the failure in the input.
    pub offset: usize,
    /// What went wrong.
    pub kind: DecodeErrorKind,
}

/// The ways in which an input is not acceptable.
#[derive(Debug, Clone, Copy, PartialEq, Eq, Structural)]
#[non_exhaustive]
pub enum DecodeErrorKind {
    /// The input ended inside a value.
    UnexpectedEof,
    /// A byte that starts no value.
    UnexpectedByte {
        /// The byte found.
        byte: u8,
    },
    /// No digits, a leading zero, `-0`, or a missing `e`.
    InvalidInteger,
    /// The integer does not fit in an `i64`.
    IntegerOverflow,
    /// No digits, a leading zero, or a missing `:`.
    InvalidLength,
    /// The length does not fit the address space.
    LengthOverflow,
    /// The length runs past the end of the input.
    LengthExceedsInput,
    /// A dictionary key sorts before the one in front of it.
    UnsortedDictKeys,
    /// A dictionary key occurs twice.
    DuplicateDictKey,
    /// Values nest deeper than allowed.
    DepthExceeded {
        /// The limit that was in force.
        max: u32,
    },
    /// The input holds more values than allowed.
    NodeLimitExceeded {
        /// The limit that was in force.
        max: u32,
    },
    /// Bytes follow the root value.
    TrailingData,
}

impl DecodeErrorKind {
    /// The name of the kind and its field.
    pub open spec fn spelled(self) -> Seq<char> {
        match self {
            DecodeErrorKind::UnexpectedEof => "UnexpectedEof"@,
            DecodeErrorKind::UnexpectedByte { byte } => "UnexpectedByte { byte: "@ + number_text(
                byte as nat,
            ) + " }"@,
            DecodeErrorKind::InvalidInteger => "InvalidInteger"@,
            DecodeErrorKind::IntegerOverflow => "IntegerOverflow"@,
            DecodeErrorKind::InvalidLength => "InvalidLength"@,
            DecodeErrorKind::LengthOverflow => "LengthOverflow"@,
            DecodeErrorKind::LengthExceedsInput => "LengthExceedsInput"@,
            DecodeErrorKind::UnsortedDictKeys => "UnsortedDictKeys"@,
            DecodeErrorKind::DuplicateDictKey => "DuplicateDictKey"@,
            DecodeErrorKind::DepthExceeded { max } => "DepthExceeded { max: "@ + number_text(
                max as nat,
            ) + " }"@,
            DecodeErrorKind::NodeLimitExceeded { max } => "NodeLimitExceeded { max: "@
                + number_text(max as nat) + " }"@,
            DecodeErrorKind::TrailingData => "TrailingData"@,
        }
    }

    /// What the kind says to a reader.
    pub open spec fn said(self) -> Seq<char> {
        match self {
            DecodeErrorKind::UnexpectedEof => "unexpected end of input"@,
            DecodeErrorKind::UnexpectedByte { byte } => "unexpected byte 0x"@ + seq![
                hex_char(byte / 16),
                hex_char(byte % 16),
            ],
            DecodeErrorKind::InvalidInteger => "invalid integer syntax"@,
            DecodeErrorKind::IntegerOverflow => "integer does not fit in i64"@,
            DecodeErrorKind::InvalidLength => "invalid length prefix"@,
            DecodeErrorKind::LengthOverflow => "length prefix overflows usize"@,
            DecodeErrorKind::LengthExceedsInput => "length prefix exceeds remaining input"@,
            DecodeErrorKind::UnsortedDictKeys => "dictionary keys not in lexicographic order"@,
            DecodeErrorKind::DuplicateDictKey => "duplicate dictionary key"@,
            DecodeErrorKind::DepthExceeded { max } => "nesting depth exceeded maximum of "@
                + number_text(max as nat),
            DecodeErrorKind::NodeLimitExceeded { max } => "value count exceeded maximum of "@
                + number_text(max as nat),
            DecodeErrorKind::TrailingData => "trailing data after root value"@,
        }
    }

    /// The name of the kind and its field.
    pub fn debug_text(&self) -> (r: String)
        ensures
            r@ == self.spelled(),
    {
        match self {
            DecodeErrorKind::UnexpectedEof => text("UnexpectedEof"),
            DecodeErrorKind::UnexpectedByte { byte } => {
                let mut s = text("UnexpectedByte { byte: ");
                push_number(&mut s, *byte as u64);
                s.push_str(" }");
                s
            },
            DecodeErrorKind::InvalidInteger => text("InvalidInteger"),
            DecodeErrorKind::IntegerOverflow => text("IntegerOverflow"),
            DecodeErrorKind::InvalidLength => text("InvalidLength"),
            DecodeErrorKind::LengthOverflow => text("LengthOverflow"),
            DecodeErrorKind::LengthExceedsInput => text("LengthExceedsInput"),
            DecodeErrorKind::UnsortedDictKeys => text("UnsortedDictKeys"),
            DecodeErrorKind::DuplicateDictKey => text("DuplicateDictKey"),
            DecodeErrorKind::DepthExceeded { max } => {
                let mut s = text("DepthExceeded { max: ");
                push_number(&mut s, *max as u64);
                s.push_str(" }");
                s
            },
            DecodeErrorKind::NodeLimitExceeded { max } => {
                let mut s = text("NodeLimitExceeded { max: ");
                push_number(&mut s, *max as u64);
                s.push_str(" }");
                s
            },
            DecodeErrorKind::TrailingData => text("TrailingData"),
        }
    }

    /// What the kind says to a reader.
    pub fn message(&self) -> (r: String)
        ensures
            r@ == self.said(),
    {
        match self {
            DecodeErrorKind::UnexpectedEof => text("unexpected end of input"),
            DecodeErrorKind::UnexpectedByte { byte } => {
                let mut s = text("unexpected byte 0x");
                s.push(nybble(*byte / 16));
                s.push(nybble(*byte % 16));
                assert(s@ =~= self.said());
                s
            },
            DecodeErrorKind::InvalidInteger => text("invalid integer syntax"),
            DecodeErrorKind::IntegerOverflow => text("integer does not fit in i64"),
            DecodeErrorKind::InvalidLength => text("invalid length prefix"),
            DecodeErrorKind::LengthOverflow => text("length prefix overflows usize"),
            DecodeErrorKind::LengthExceedsInput => text("length prefix exceeds remaining input"),
            DecodeErrorKind::UnsortedDictKeys => text(
                "dictionary keys not in lexicographic order",
            ),
            DecodeErrorKind::DuplicateDictKey => text("duplicate dictionary key"),
            DecodeErrorKind::DepthExceeded { max } => {
                let mut s = text("nesting depth exceeded maximum of ");
                push_number(&mut s, *max as u64);
                s
            },
            DecodeErrorKind::NodeLimitExceeded { max } => {
                let mut s = text("value count exceeded maximum of ");
                push_number(&mut s, *max as u64);
                s
            },
            DecodeErrorKind::TrailingData => text("trailing data after root value"),
        }
    }
}

impl DecodeError {
    /// The failure with its fields.
    pub open spec fn spelled(self) -> Seq<char> {
        "DecodeError { offset: "@ + number_text(self.offset as nat) + ", kind: "@
            + self.kind.spelled() + " }"@
    }

    /// The failure with its fields.
    pub fn debug_text(&self) -> (r: String)
        ensures
            r@ == self.spelled(),
    {
        let mut s = text("DecodeError { offset: ");
        push_number(&mut s, self.offset as u64);
        s.push_str(", kind: ");
        s.push_str(self.kind.debug_text().as_str());
        s.push_str(" }");
        s
    }

    /// What the failure says to a reader.
    pub fn message(&self) -> (r: String)
        ensures
            r@ == "bencode decode error at offset "@ + number_text(self.offset as nat) + ": "@
                + self.kind.said(),
    {
        let mut s = text("bencode decode error at offset ");
        push_number(&mut s, self.offset as u64);
        s.push_str(": ");
        s.push_str(self.kind.message().as_str());
        s
    }
}

} // verus!
