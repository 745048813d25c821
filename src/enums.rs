//! Message kinds, transports and decoding errors.
use vstd::prelude::*;

verus! {

/// The closed set of message kinds carried in the type byte of the header.
#[derive(Debug, Copy, Clone, PartialEq, Eq, Structural)]
pub enum MessageType {
    Connection,
    Text,
    File,
    ListClients,
    SetName,
    Broadcast,
    Disconnect,
    Error,
    Success,
}

/// Why a byte sequence could not be read as a message.
#[derive(Debug, Copy, Clone, PartialEq, Eq, Structural)]
pub enum DecodeError {
    /// Fewer bytes than the header (or the declared payload) needs.
    Truncated,
    /// The type byte names no message kind.
    InvalidType,
}

/// The transport a message travels over.
#[derive(Debug, Copy, Clone, PartialEq, Eq, Structural)]
pub enum Protocol {
    TCP,
    UDP,
}

/// The wire byte of each message kind.
pub open spec fn type_byte(t: MessageType) -> u8 {
    match t {
        MessageType::Connection => 0,
        MessageType::Text => 1,
        MessageType::File => 2,
        MessageType::ListClients => 3,
        MessageType::SetName => 4,
        MessageType::Broadcast => 5,
        MessageType::Disconnect => 6,
        MessageType::Error => 7,
        MessageType::Success => 8,
    }
}

/// The message kind a wire byte stands for, if any.
pub open spec fn type_of_byte(b: u8) -> Option<MessageType> {
    if b == 0 {
        Some(MessageType::Connection)
    } else if b == 1 {
        Some(MessageType::Text)
    } else if b == 2 {
        Some(MessageType::File)
    } else if b == 3 {
        Some(MessageType::ListClients)
    } else if b == 4 {
        Some(MessageType::SetName)
    } else if b == 5 {
        Some(MessageType::Broadcast)
    } else if b == 6 {
        Some(MessageType::Disconnect)
    } else if b == 7 {
        Some(MessageType::Error)
    } else if b == 8 {
        Some(MessageType::Success)
    } else {
        None
    }
}

/// Reading back the byte of a kind gives that kind.
pub proof fn lemma_type_byte_round_trip(t: MessageType)
    ensures
        type_of_byte(type_byte(t)) == Some(t),
{
}

impl MessageType {
    /// The wire byte of this kind.
    pub fn to_byte(self) -> (r: u8)
        ensures
            r == type_byte(self),
    {
        match self {
            MessageType::Connection => 0,
            MessageType::Text => 1,
            MessageType::File => 2,
            MessageType::ListClients => 3,
            MessageType::SetName => 4,
            MessageType::Broadcast => 5,
            MessageType::Disconnect => 6,
            MessageType::Error => 7,
            MessageType::Success => 8,
        }
    }

    /// The kind a wire byte stands for, or `None` for a byte outside the set.
    pub fn from_byte(b: u8) -> (r: Option<MessageType>)
        ensures
            r == type_of_byte(b),
    {
        match b {
            0 => Some(MessageType::Connection),
            1 => Some(MessageType::Text),
            2 => Some(MessageType::File),
            3 => Some(MessageType::ListClients),
            4 => Some(MessageType::SetName),
            5 => Some(MessageType::Broadcast),
            6 => Some(MessageType::Disconnect),
            7 => Some(MessageType::Error),
            8 => Some(MessageType::Success),
            _ => None,
        }
    }
}

impl From<MessageType> for u8 {
    fn from(message_type: MessageType) -> (r: u8) {
        message_type.to_byte()
    }
}

impl vstd::std_specs::convert::FromSpecImpl<MessageType> for u8 {
    open spec fn obeys_from_spec() -> bool {
        true
    }

    open spec fn from_spec(v: MessageType) -> u8 {
        type_byte(v)
    }
}

impl TryFrom<u8> for MessageType {
    type Error = DecodeError;

    fn try_from(value: u8) -> (r: Result<MessageType, DecodeError>) {
        match MessageType::from_byte(value) {
            Some(t) => Ok(t),
            None => Err(DecodeError::InvalidType),
        }
    }
}

impl vstd::std_specs::convert::TryFromSpecImpl<u8> for MessageType {
    open spec fn obeys_try_from_spec() -> bool {
        true
    }

    open spec fn try_from_spec(v: u8) -> Result<MessageType, DecodeError> {
        match type_of_byte(v) {
            Some(t) => Ok(t),
            None => Err(DecodeError::InvalidType),
        }
    }
}

} // verus!
