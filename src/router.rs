//! The relay router: one inbound message to the messages it causes.
use vstd::prelude::*;
use vstd::slice::slice_to_vec;

use crate::enums::MessageType;
use crate::message::{generic_response, list_clients_response, plain_header, Message, MessageModel};
use crate::registry::{
    after_set_name, can_take_name, snapshot_of, without_id, Registry, RegistryModel,
};
use crate::ids::sorted_ids;
use crate::text::{lossy_text, text_from_bytes, trim_text, trimmed};

verus! {

/// Router output seen as values: each destination with its message.
pub open spec fn outputs_view(s: Seq<(u16, Message)>) -> Seq<(u16, MessageModel)> {
    s.map_values(|p: (u16, Message)| (p.0, p.1@))
}

/// `payload` as a message of type `t` for `receiver_id`, with no fragment fields.
pub open spec fn relayed(key: u16, receiver_id: u16, t: MessageType, payload: Seq<u8>) -> MessageModel {
    MessageModel { metadata: plain_header(key, receiver_id, t, payload.len()), payload }
}

/// The broadcast copies for the first `n` ids of `ids`, skipping the sender.
pub open spec fn broadcast_upto(ids: Seq<u16>, from: u16, key: u16, payload: Seq<u8>, n: int) -> Seq<(u16, MessageModel)>
    decreases n,
{
    if n <= 0 {
        Seq::<(u16, MessageModel)>::empty()
    } else {
        let rest = broadcast_upto(ids, from, key, payload, n - 1);
        let id = ids[n - 1];
        if id == from {
            rest
        } else {
            rest.push((id, relayed(key, id, MessageType::Broadcast, payload)))
        }
    }
}

/// One copy of the payload for every registered id but the sender, in
/// ascending id order.
pub open spec fn broadcast_outputs(reg: RegistryModel, from: u16, key: u16, payload: Seq<u8>) -> Seq<(u16, MessageModel)> {
    let ids = sorted_ids(reg.ids.dom());
    broadcast_upto(ids, from, key, payload, ids.len() as int)
}

/// The display name proposed by a `Connection` or `SetName` payload.
pub open spec fn proposed_name(payload: Seq<u8>) -> Seq<char> {
    trimmed(lossy_text(payload))
}

/// What the router sends for message `m` from `from`, and the registry after it.
pub open spec fn route(reg: RegistryModel, m: MessageModel, from: u16) -> (Seq<(u16, MessageModel)>, RegistryModel) {
    let key = m.metadata.key;
    let to = m.metadata.receiver_id;
    match m.metadata.message_type {
        MessageType::Text | MessageType::File => {
            if reg.ids.contains_key(to) {
                (
                    seq![
                        (to, relayed(key, to, m.metadata.message_type, m.payload)),
                        (from, generic_response(key, to, true)),
                    ],
                    reg,
                )
            } else {
                (seq![(from, generic_response(key, to, false))], reg)
            }
        },
        MessageType::Connection | MessageType::SetName => {
            let name = proposed_name(m.payload);
            (
                seq![(from, generic_response(key, from, can_take_name(reg, from, name)))],
                after_set_name(reg, from, name),
            )
        },
        MessageType::ListClients => (
            seq![(from, list_clients_response(key, from, snapshot_of(reg)))],
            reg,
        ),
        MessageType::Broadcast => (broadcast_outputs(reg, from, key, m.payload), reg),
        MessageType::Disconnect => (Seq::<(u16, MessageModel)>::empty(), without_id(reg, from)),
        MessageType::Error | MessageType::Success => (Seq::<(u16, MessageModel)>::empty(), reg),
    }
}

fn relay_copy(key: u16, receiver_id: u16, t: MessageType, payload: &Vec<u8>) -> (r: Message)
    ensures
        r@ == relayed(key, receiver_id, t, payload@),
{
    let content = slice_to_vec(payload.as_slice());
    Message::new(
        crate::metadata::MsgMetadata {
            key,
            receiver_id,
            message_type: t,
            message_length: content.len() as u64,
            fragment: None,
        },
        content,
    )
}

/// Turns one inbound message from `from` into the messages to deliver, each
/// with its destination id, and applies the registry changes it asks for.
pub fn process_message(message: &Message, from: u16, registry: &mut Registry) -> (r: Vec<(u16, Message)>)
    requires
        old(registry).wf(),
    ensures
        final(registry).wf(),
        outputs_view(r@) == route(old(registry)@, message@, from).0,
        r@.len() == route(old(registry)@, message@, from).0.len(),
        forall|i: int|
            0 <= i < r@.len() ==> ((#[trigger] r@[i]).0, r@[i].1@) == route(
                old(registry)@,
                message@,
                from,
            ).0[i],
        final(registry)@ == route(old(registry)@, message@, from).1,
{
    let key = message.metadata.key;
    let to = message.metadata.receiver_id;
    let mut out: Vec<(u16, Message)> = Vec::new();
    match message.metadata.message_type {
        MessageType::Text | MessageType::File => {
            if registry.contains(to) {
                let copy = relay_copy(key, to, message.metadata.message_type, &message.content);
                out.push((to, copy));
                out.push((from, Message::new_generic_response(key, to, true)));
            } else {
                out.push((from, Message::new_generic_response(key, to, false)));
            }
        },
        MessageType::Connection | MessageType::SetName => {
            let text = text_from_bytes(&message.content);
            let name = trim_text(&text);
            let ok = registry.set_name(from, name);
            out.push((from, Message::new_generic_response(key, from, ok)));
        },
        MessageType::ListClients => {
            let clients = registry.snapshot();
            out.push((from, Message::new_list_clients_response(key, from, clients, None, None)));
        },
        MessageType::Broadcast => {
            let ids = registry.registered_ids();
            let mut i: usize = 0;
            while i < ids.len()
                invariant
                    i <= ids@.len(),
                    ids@ == sorted_ids(registry@.ids.dom()),
                    outputs_view(out@) == broadcast_upto(ids@, from, key, message.content@, i as int),
                decreases ids@.len() - i,
            {
                let id = ids[i];
                if id != from {
                    let copy = relay_copy(key, id, MessageType::Broadcast, &message.content);
                    out.push((id, copy));
                }
                i += 1;
                assert(outputs_view(out@) =~= broadcast_upto(ids@, from, key, message.content@, i as int));
            }
        },
        MessageType::Disconnect => {
            registry.remove(from);
        },
        MessageType::Error | MessageType::Success => {},
    }
    assert(outputs_view(out@) =~= route(old(registry)@, message@, from).0);
    assert forall|i: int| 0 <= i < out@.len() implies ((#[trigger] out@[i]).0, out@[i].1@) == route(
        old(registry)@,
        message@,
        from,
    ).0[i] by {
        assert(outputs_view(out@)[i] == (out@[i].0, out@[i].1@));
    }
    out
}

} // verus!
