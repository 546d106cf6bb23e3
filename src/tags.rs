use vstd::prelude::*;

verus! {

/// Well-known field tags.
#[derive(Debug, Clone, Copy, PartialEq, Eq, Hash)]
pub enum Tag {
    BeginString,
    BodyLength,
    CheckSum,
    MsgType,
    MsgSeqNum,
    SenderCompID,
    TargetCompID,
    SendingTime,
}

impl Tag {
    /// The numeric tag that this name stands for on the wire.
    pub open spec fn spec_value(self) -> u32 {
        match self {
            Tag::BeginString => 8,
            Tag::BodyLength => 9,
            Tag::CheckSum => 10,
            Tag::MsgType => 35,
            Tag::MsgSeqNum => 34,
            Tag::SenderCompID => 49,
            Tag::TargetCompID => 56,
            Tag::SendingTime => 52,
        }
    }

    pub fn value(&self) -> (r: u32)
        ensures
            r == self.spec_value(),
    {
        match self {
            Tag::BeginString => 8,
            Tag::BodyLength => 9,
            Tag::CheckSum => 10,
            Tag::MsgType => 35,
            Tag::MsgSeqNum => 34,
            Tag::SenderCompID => 49,
            Tag::TargetCompID => 56,
            Tag::SendingTime => 52,
        }
    }
}

/// Tag of the begin-string field, which opens every message.
pub const BEGIN_STRING_TAG: u32 = 8;

/// Tag of the body-length field, which follows the begin-string field.
pub const BODY_LENGTH_TAG: u32 = 9;

/// Tag of the checksum field, which closes every message.
pub const CHECKSUM_TAG: u32 = 10;

/// Tag of the message-type field, which opens the body.
pub const MSG_TYPE_TAG: u32 = 35;

} // verus!
