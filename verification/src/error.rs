//! What the store answers when it cannot do what was asked.

use crate::segment::{CorruptRegion, DivergentBatch};
use crate::text::{decimal, push_decimal};
use vstd::prelude::*;
use vstd::string::*;

verus! {

/// The protocol errors that the store answers with.
#[derive(Clone, Copy, Debug, PartialEq, Eq, Structural)]
pub enum ErrorCode {
    NoError,
    UnknownServerError,
    OutOfOrderSequenceNumber,
    ProducerFenced,
    KafkaStorageError,
    NotLeaderOrFollower,
}

/// Why a segment footer cannot be read.
#[derive(Clone, Copy, Debug, PartialEq, Eq, Structural)]
pub enum FooterError {
    /// The footer ends before what it declares.
    Truncated,
    /// A topic name is not UTF-8.
    TopicNotUtf8,
    /// A format version that this reader does not know.
    UnsupportedVersion(u16),
    /// The footer length exceeds the bytes it was read from.
    LengthExceedsTail,
}

/// Why a segment footer cannot be read, in words.
pub open spec fn footer_message(error: FooterError) -> Seq<char> {
    match error {
        FooterError::Truncated => "truncated segment footer"@,
        FooterError::TopicNotUtf8 => "segment footer topic is not UTF-8"@,
        FooterError::UnsupportedVersion(version) => "unsupported segment format version "@
            + decimal(version as nat),
        FooterError::LengthExceedsTail => "segment footer length exceeds tail"@,
    }
}

impl FooterError {
    /// Why a segment footer cannot be read, in words.
    pub fn message(&self) -> (text: String)
        ensures
            text@ == footer_message(*self),
    {
        match self {
            FooterError::Truncated => String::from_str("truncated segment footer"),
            FooterError::TopicNotUtf8 => String::from_str("segment footer topic is not UTF-8"),
            FooterError::UnsupportedVersion(version) => {
                let mut text = String::from_str("unsupported segment format version ");
                push_decimal(&mut text, *version as u64);
                text
            },
            FooterError::LengthExceedsTail => String::from_str(
                "segment footer length exceeds tail",
            ),
        }
    }
}

/// An error of the store.
#[derive(Clone, Debug)]
pub enum Error {
    /// A lock was poisoned by a panic of its holder.
    Poison,
    /// A protocol error.
    Api(ErrorCode),
    /// A region that does not hold what its footer entry says.
    CorruptSegment(CorruptRegion),
    /// A batch whose header misdeclares its own length.
    DivergentBatch(DivergentBatch),
    /// The object store failed, for the reason named.
    ObjectStore(String),
    /// Something else, in words.
    Message(String),
}

} // verus!
