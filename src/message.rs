//! Messages: constructors and the wire codec.
use vstd::prelude::*;
use vstd::slice::{slice_subrange, slice_to_vec};
use vstd::string::StrSliceExecFns;
use vstd::utf8::encode_utf8;

use crate::enums::{DecodeError, MessageType};
use crate::metadata::{
    decode_header, encode_header, fragment_of, header_len, lemma_header_round_trip, MsgMetadata,
    FRAGMENT_HEADER_LEN, HEADER_LEN,
};
use crate::text::{clients_json, clients_to_json, clients_view};

verus! {

/// A header and the payload bytes that follow it.
#[derive(Debug, Clone)]
pub struct Message {
    pub metadata: MsgMetadata,
    pub content: Vec<u8>,
}

/// What a message is: its header and its payload.
pub struct MessageModel {
    pub metadata: MsgMetadata,
    pub payload: Seq<u8>,
}

impl View for Message {
    type V = MessageModel;

    open spec fn view(&self) -> MessageModel {
        MessageModel { metadata: self.metadata, payload: self.content@ }
    }
}

/// A message whose header and payload agree: on the reliable transport the
/// declared length is the payload's length. (A fragment declares the length
/// of the whole logical message instead.)
pub open spec fn well_formed(m: MessageModel) -> bool {
    m.metadata.fragment.is_none() ==> m.payload.len() == m.metadata.message_length
}

/// The bytes of a message: its header, then its payload.
pub open spec fn encode(m: MessageModel) -> Seq<u8> {
    encode_header(m.metadata) + m.payload
}

/// The message read from `data`. On the reliable transport the payload is
/// the declared number of bytes after the header; a fragment's payload is
/// the rest of the datagram.
pub open spec fn decode(data: Seq<u8>, is_fragment: bool) -> Result<MessageModel, DecodeError> {
    match decode_header(data, is_fragment) {
        Err(e) => Err(e),
        Ok(h) => {
            let start = header_len(is_fragment) as int;
            if is_fragment {
                Ok(MessageModel { metadata: h, payload: data.subrange(start, data.len() as int) })
            } else if data.len() - start < h.message_length {
                Err(DecodeError::Truncated)
            } else {
                Ok(
                    MessageModel {
                        metadata: h,
                        payload: data.subrange(start, start + h.message_length),
                    },
                )
            }
        },
    }
}

/// A header with no fragment fields.
pub open spec fn plain_header(key: u16, receiver_id: u16, t: MessageType, len: nat) -> MsgMetadata {
    MsgMetadata {
        key,
        receiver_id,
        message_type: t,
        message_length: len as u64,
        fragment: None,
    }
}

/// The payload-less `Success` or `Error` answer to a request.
pub open spec fn generic_response(key: u16, receiver_id: u16, success: bool) -> MessageModel {
    MessageModel {
        metadata: plain_header(
            key,
            receiver_id,
            if success {
                MessageType::Success
            } else {
                MessageType::Error
            },
            0,
        ),
        payload: Seq::<u8>::empty(),
    }
}

/// The `Success` answer to a directory request, carrying the listing as JSON.
pub open spec fn list_clients_response(
    key: u16,
    receiver_id: u16,
    clients: Seq<(u16, Seq<char>)>,
) -> MessageModel {
    MessageModel {
        metadata: plain_header(key, receiver_id, MessageType::Success, clients_json(clients).len()),
        payload: clients_json(clients),
    }
}

/// Encoding a well-formed message and decoding the bytes on the same
/// transport gives the message back.
pub proof fn lemma_round_trip(m: MessageModel)
    requires
        well_formed(m),
    ensures
        decode(encode(m), m.metadata.fragment.is_some()) == Ok::<MessageModel, DecodeError>(m),
{
    let f = m.metadata.fragment.is_some();
    lemma_header_round_trip(m.metadata, m.payload);
    let data = encode(m);
    let start = header_len(f) as int;
    assert(encode_header(m.metadata).len() == start);
    assert(data.subrange(start, data.len() as int) =~= m.payload);
    if !f {
        assert(data.subrange(start, start + m.metadata.message_length) =~= m.payload);
    }
}

/// Builds a message whose type and payload come from the arguments and whose
/// declared length is the payload's length.
fn with_payload(
    key: u16,
    receiver_id: u16,
    message_type: MessageType,
    content: Vec<u8>,
    udp_id: Option<u16>,
    udp_seq: Option<u16>,
) -> (r: Message)
    requires
        udp_id.is_some() == udp_seq.is_some(),
    ensures
        r@ == (MessageModel {
            metadata: MsgMetadata {
                key,
                receiver_id,
                message_type,
                message_length: content@.len() as u64,
                fragment: fragment_of(udp_id, udp_seq),
            },
            payload: content@,
        }),
{
    let metadata = MsgMetadata::new(
        key,
        receiver_id,
        message_type,
        content.len() as u64,
        udp_id,
        udp_seq,
    );
    Message { metadata, content }
}

/// Relies on `rand::random`: a value from the thread-local generator, of
/// which nothing is promised.
pub assume_specification<T>[ rand::random::<T> ]() -> (r: T)
    where
        rand::distributions::Standard: rand::distributions::Distribution<T>,
;

impl Message {
    pub fn new(metadata: MsgMetadata, content: Vec<u8>) -> (r: Message)
        ensures
            r@ == (MessageModel { metadata, payload: content@ }),
    {
        Message { metadata, content }
    }

    /// A `Text` message carrying the UTF-8 bytes of `content`.
    pub fn new_text(
        key: u16,
        receiver_id: u16,
        content: String,
        udp_id: Option<u16>,
        udp_seq: Option<u16>,
    ) -> (r: Message)
        requires
            udp_id.is_some() == udp_seq.is_some(),
        ensures
            r@ == (MessageModel {
                metadata: MsgMetadata {
                    key,
                    receiver_id,
                    message_type: MessageType::Text,
                    message_length: encode_utf8(content@).len() as u64,
                    fragment: fragment_of(udp_id, udp_seq),
                },
                payload: encode_utf8(content@),
            }),
    {
        let bytes = content.as_str().as_bytes_vec();
        with_payload(key, receiver_id, MessageType::Text, bytes, udp_id, udp_seq)
    }

    /// A `Connection` request proposing `name` as the sender's display name.
    pub fn new_connection_request(key: u16, name: String) -> (r: Message)
        ensures
            r@ == (MessageModel {
                metadata: plain_header(
                    key,
                    0,
                    MessageType::Connection,
                    encode_utf8(name@).len(),
                ),
                payload: encode_utf8(name@),
            }),
    {
        let bytes = name.as_str().as_bytes_vec();
        with_payload(key, 0, MessageType::Connection, bytes, None, None)
    }

    /// A `ListClients` request, addressed to the server, with no payload.
    pub fn new_list_clients_request(key: u16) -> (r: Message)
        ensures
            r@ == (MessageModel {
                metadata: plain_header(key, 0, MessageType::ListClients, 0),
                payload: Seq::<u8>::empty(),
            }),
    {
        with_payload(key, 0, MessageType::ListClients, Vec::new(), None, None)
    }

    /// The `Success` answer to a directory request: the JSON array of the
    /// `(id, name)` pairs.
    pub fn new_list_clients_response(
        key: u16,
        receiver_id: u16,
        clients: Vec<(u16, String)>,
        udp_id: Option<u16>,
        udp_seq: Option<u16>,
    ) -> (r: Message)
        requires
            udp_id.is_some() == udp_seq.is_some(),
        ensures
            r@ == (MessageModel {
                metadata: MsgMetadata {
                    key,
                    receiver_id,
                    message_type: MessageType::Success,
                    message_length: clients_json(clients_view(clients@)).len() as u64,
                    fragment: fragment_of(udp_id, udp_seq),
                },
                payload: clients_json(clients_view(clients@)),
            }),
    {
        let bytes = clients_to_json(&clients);
        with_payload(key, receiver_id, MessageType::Success, bytes, udp_id, udp_seq)
    }

    /// A `SetName` request proposing `name` as the sender's new display name.
    pub fn new_set_name_request(
        key: u16,
        name: String,
        udp_id: Option<u16>,
        udp_seq: Option<u16>,
    ) -> (r: Message)
        requires
            udp_id.is_some() == udp_seq.is_some(),
        ensures
            r@ == (MessageModel {
                metadata: MsgMetadata {
                    key,
                    receiver_id: 0,
                    message_type: MessageType::SetName,
                    message_length: encode_utf8(name@).len() as u64,
                    fragment: fragment_of(udp_id, udp_seq),
                },
                payload: encode_utf8(name@),
            }),
    {
        let bytes = name.as_str().as_bytes_vec();
        with_payload(key, 0, MessageType::SetName, bytes, udp_id, udp_seq)
    }

    /// The payload-less `Success` (or, when `success` is false, `Error`) answer.
    pub fn new_generic_response(key: u16, receiver_id: u16, success: bool) -> (r: Message)
        ensures
            r@ == generic_response(key, receiver_id, success),
    {
        let t = if success {
            MessageType::Success
        } else {
            MessageType::Error
        };
        with_payload(key, receiver_id, t, Vec::new(), None, None)
    }

    /// Reads one datagram of the unreliable transport as a fragment.
    pub fn new_udp_packet(data: Vec<u8>) -> (r: Result<Message, DecodeError>)
        ensures
            match r {
                Ok(m) => decode(data@, true) == Ok::<MessageModel, DecodeError>(m@),
                Err(e) => decode(data@, true) == Err::<MessageModel, DecodeError>(e),
            },
    {
        Message::deserialize(data.as_slice(), true)
    }

    /// Reads a message from `data`; `is_fragment` says whether it is a
    /// fragment of the unreliable transport.
    pub fn deserialize(data: &[u8], is_fragment: bool) -> (r: Result<Message, DecodeError>)
        ensures
            match r {
                Ok(m) => decode(data@, is_fragment) == Ok::<MessageModel, DecodeError>(m@),
                Err(e) => decode(data@, is_fragment) == Err::<MessageModel, DecodeError>(e),
            },
    {
        let metadata = match MsgMetadata::deserialize(data, is_fragment) {
            Ok(h) => h,
            Err(e) => {
                return Err(e);
            },
        };
        let start = if is_fragment {
            FRAGMENT_HEADER_LEN
        } else {
            HEADER_LEN
        };
        let end = if is_fragment {
            data.len()
        } else {
            if ((data.len() - start) as u64) < metadata.message_length {
                return Err(DecodeError::Truncated);
            }
            start + metadata.message_length as usize
        };
        let content = slice_to_vec(slice_subrange(data, start, end));
        Ok(Message { metadata, content })
    }

    /// The bytes of this message: its header, then its payload.
    pub fn serialize(&self) -> (r: Vec<u8>)
        ensures
            r@ == encode(self@),
    {
        let mut bytes = self.metadata.serialize();
        let mut payload = slice_to_vec(self.content.as_slice());
        bytes.append(&mut payload);
        bytes
    }

    /// Whether the payload has the declared length.
    pub fn is_complete(&self) -> (r: bool)
        ensures
            r == (self.metadata.message_length == self.content@.len()),
    {
        self.metadata.is_complete(self.content.len() as u64)
    }

    /// A fresh random correlation key.
    pub fn generate_key() -> u16 {
        rand::random::<u16>()
    }
}

} // verus!
