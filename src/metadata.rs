//! The message header and its wire layout.
use vstd::bytes::*;
use vstd::prelude::*;
use vstd::slice::slice_subrange;

use crate::enums::{type_byte, type_of_byte, DecodeError, MessageType};

verus! {

/// Length of the header of a message on the reliable transport.
pub const HEADER_LEN: usize = 13;

/// Length of the header of a fragment on the unreliable transport.
pub const FRAGMENT_HEADER_LEN: usize = 17;

/// Where a fragment sits: the logical message it belongs to and its position in it.
#[derive(Debug, Copy, Clone, PartialEq, Eq, Structural)]
pub struct FragmentPos {
    pub id: u16,
    pub seq: u16,
}

/// The header of a message. `fragment` is present exactly for traffic of the
/// unreliable transport, so a half-filled fragment position cannot be built.
#[derive(Debug, Copy, Clone, PartialEq, Eq, Structural)]
pub struct MsgMetadata {
    pub key: u16,
    pub receiver_id: u16,
    pub message_type: MessageType,
    pub message_length: u64,
    pub fragment: Option<FragmentPos>,
}

/// The fragment position given by an optional id and an optional sequence number.
pub open spec fn fragment_of(udp_id: Option<u16>, udp_seq: Option<u16>) -> Option<FragmentPos> {
    match (udp_id, udp_seq) {
        (Some(id), Some(seq)) => Some(FragmentPos { id, seq }),
        _ => None,
    }
}

pub open spec fn header_len(is_fragment: bool) -> nat {
    if is_fragment {
        FRAGMENT_HEADER_LEN as nat
    } else {
        HEADER_LEN as nat
    }
}

/// The header bytes: key, receiver, type byte and payload length, all
/// little-endian, then the fragment id and sequence number when present.
pub open spec fn encode_header(m: MsgMetadata) -> Seq<u8> {
    spec_u16_to_le_bytes(m.key) + spec_u16_to_le_bytes(m.receiver_id) + seq![type_byte(m.message_type)]
        + spec_u64_to_le_bytes(m.message_length) + match m.fragment {
        Some(f) => spec_u16_to_le_bytes(f.id) + spec_u16_to_le_bytes(f.seq),
        None => Seq::<u8>::empty(),
    }
}

/// The header read from the front of `data`.
pub open spec fn decode_header(data: Seq<u8>, is_fragment: bool) -> Result<MsgMetadata, DecodeError> {
    if data.len() < header_len(is_fragment) {
        Err(DecodeError::Truncated)
    } else {
        match type_of_byte(data[4]) {
            None => Err(DecodeError::InvalidType),
            Some(t) => Ok(
                MsgMetadata {
                    key: spec_u16_from_le_bytes(data.subrange(0, 2)),
                    receiver_id: spec_u16_from_le_bytes(data.subrange(2, 4)),
                    message_type: t,
                    message_length: spec_u64_from_le_bytes(data.subrange(5, 13)),
                    fragment: if is_fragment {
                        Some(
                            FragmentPos {
                                id: spec_u16_from_le_bytes(data.subrange(13, 15)),
                                seq: spec_u16_from_le_bytes(data.subrange(15, 17)),
                            },
                        )
                    } else {
                        None
                    },
                },
            ),
        }
    }
}

/// Builds the fragment position from an optional id and sequence number;
/// the two are present together or absent together.
pub fn fragment_pos(udp_id: Option<u16>, udp_seq: Option<u16>) -> (r: Option<FragmentPos>)
    requires
        udp_id.is_some() == udp_seq.is_some(),
    ensures
        r == fragment_of(udp_id, udp_seq),
        r.is_some() == udp_id.is_some(),
{
    match (udp_id, udp_seq) {
        (Some(id), Some(seq)) => Some(FragmentPos { id, seq }),
        _ => None,
    }
}

impl MsgMetadata {
    pub fn new(
        key: u16,
        receiver_id: u16,
        message_type: MessageType,
        message_length: u64,
        udp_id: Option<u16>,
        udp_seq: Option<u16>,
    ) -> (r: MsgMetadata)
        requires
            udp_id.is_some() == udp_seq.is_some(),
        ensures
            r == (MsgMetadata {
                key,
                receiver_id,
                message_type,
                message_length,
                fragment: fragment_of(udp_id, udp_seq),
            }),
    {
        MsgMetadata {
            key,
            receiver_id,
            message_type,
            message_length,
            fragment: fragment_pos(udp_id, udp_seq),
        }
    }

    /// The fragment id, present only for unreliable-transport traffic.
    pub fn udp_id(&self) -> (r: Option<u16>)
        ensures
            r == match self.fragment {
                Some(f) => Some(f.id),
                None => None::<u16>,
            },
    {
        match self.fragment {
            Some(f) => Some(f.id),
            None => None,
        }
    }

    /// The fragment sequence number, present only for unreliable-transport traffic.
    pub fn udp_seq(&self) -> (r: Option<u16>)
        ensures
            r == match self.fragment {
                Some(f) => Some(f.seq),
                None => None::<u16>,
            },
    {
        match self.fragment {
            Some(f) => Some(f.seq),
            None => None,
        }
    }

    /// The header bytes of this metadata.
    pub fn serialize(&self) -> (r: Vec<u8>)
        ensures
            r@ == encode_header(*self),
            r@.len() == header_len(self.fragment.is_some()),
    {
        proof {
            lemma_auto_spec_u16_to_from_le_bytes();
            lemma_auto_spec_u64_to_from_le_bytes();
        }
        let mut bytes = u16_to_le_bytes(self.key);
        let mut part = u16_to_le_bytes(self.receiver_id);
        bytes.append(&mut part);
        bytes.push(self.message_type.to_byte());
        let mut part = u64_to_le_bytes(self.message_length);
        bytes.append(&mut part);
        match self.fragment {
            Some(f) => {
                let mut part = u16_to_le_bytes(f.id);
                bytes.append(&mut part);
                let mut part = u16_to_le_bytes(f.seq);
                bytes.append(&mut part);
            },
            None => {},
        }
        assert(bytes@ =~= encode_header(*self));
        bytes
    }

    /// Reads a header from the front of `data`; `is_udp` says whether the
    /// two fragment fields follow the fixed part.
    pub fn deserialize(data: &[u8], is_udp: bool) -> (r: Result<MsgMetadata, DecodeError>)
        ensures
            r == decode_header(data@, is_udp),
    {
        let need = if is_udp {
            FRAGMENT_HEADER_LEN
        } else {
            HEADER_LEN
        };
        if data.len() < need {
            return Err(DecodeError::Truncated);
        }
        let message_type = match MessageType::from_byte(data[4]) {
            Some(t) => t,
            None => {
                return Err(DecodeError::InvalidType);
            },
        };
        let key = u16_from_le_bytes(slice_subrange(data, 0, 2));
        let receiver_id = u16_from_le_bytes(slice_subrange(data, 2, 4));
        let message_length = u64_from_le_bytes(slice_subrange(data, 5, 13));
        let fragment = if is_udp {
            let id = u16_from_le_bytes(slice_subrange(data, 13, 15));
            let seq = u16_from_le_bytes(slice_subrange(data, 15, 17));
            Some(FragmentPos { id, seq })
        } else {
            None
        };
        Ok(MsgMetadata { key, receiver_id, message_type, message_length, fragment })
    }

    /// Whether `content_size` bytes make up the whole declared payload.
    pub fn is_complete(&self, content_size: u64) -> (r: bool)
        ensures
            r == (self.message_length == content_size),
    {
        self.message_length == content_size
    }
}

/// Reading back the header bytes of `m`, followed by anything, gives `m`.
pub proof fn lemma_header_round_trip(m: MsgMetadata, rest: Seq<u8>)
    ensures
        decode_header(encode_header(m) + rest, m.fragment.is_some()) == Ok::<MsgMetadata, DecodeError>(m),
        encode_header(m).len() == header_len(m.fragment.is_some()),
{
    lemma_auto_spec_u16_to_from_le_bytes();
    lemma_auto_spec_u64_to_from_le_bytes();
    let e = encode_header(m);
    let d = e + rest;
    assert(d.subrange(0, 2) =~= spec_u16_to_le_bytes(m.key));
    assert(d.subrange(2, 4) =~= spec_u16_to_le_bytes(m.receiver_id));
    assert(d[4] == type_byte(m.message_type));
    assert(d.subrange(5, 13) =~= spec_u64_to_le_bytes(m.message_length));
    match m.fragment {
        Some(f) => {
            assert(d.subrange(13, 15) =~= spec_u16_to_le_bytes(f.id));
            assert(d.subrange(15, 17) =~= spec_u16_to_le_bytes(f.seq));
        },
        None => {},
    }
}

} // verus!
