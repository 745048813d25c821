//! The datagram path and the release of identities.
use vstd::prelude::*;

use crate::message::{decode, Message, MessageModel};
use crate::reassembly::{accept_spec, forget_spec, Reassembler};
use crate::registry::{without_id, Registry};
use crate::router::{outputs_view, process_message, route};

verus! {

/// Reads datagram `bytes` from `sender` as a fragment and gives it to the
/// reassembly engine. Returns the logical message if this fragment completed
/// one; a datagram that does not decode is dropped.
pub fn build_udp_message(bytes: Vec<u8>, sender: u16, engine: &mut Reassembler) -> (r: Option<Message>)
    requires
        old(engine).wf(),
    ensures
        final(engine).wf(),
        match decode(bytes@, true) {
            Err(_) => r.is_none() && final(engine)@ == old(engine)@,
            Ok(f) => {
                &&& final(engine)@ == accept_spec(old(engine)@, sender, f).0
                &&& match r {
                    Some(m) => accept_spec(old(engine)@, sender, f).1 == Some(m@),
                    None => accept_spec(old(engine)@, sender, f).1 == None::<MessageModel>,
                }
            },
        },
{
    match Message::new_udp_packet(bytes) {
        Ok(fragment) => engine.accept(sender, fragment),
        Err(_) => None,
    }
}

/// Handles one datagram from `sender`: a fragment that completes a logical
/// message has that message routed exactly as one of the reliable transport.
pub fn relay_fragment(
    registry: &mut Registry,
    engine: &mut Reassembler,
    sender: u16,
    bytes: Vec<u8>,
) -> (r: Vec<(u16, Message)>)
    requires
        old(registry).wf(),
        old(engine).wf(),
    ensures
        final(registry).wf(),
        final(engine).wf(),
        match decode(bytes@, true) {
            Err(_) => r@.len() == 0 && final(engine)@ == old(engine)@ && final(registry)@
                == old(registry)@,
            Ok(f) => {
                &&& final(engine)@ == accept_spec(old(engine)@, sender, f).0
                &&& match accept_spec(old(engine)@, sender, f).1 {
                    None => r@.len() == 0 && final(registry)@ == old(registry)@,
                    Some(m) => outputs_view(r@) == route(old(registry)@, m, sender).0
                        && final(registry)@ == route(old(registry)@, m, sender).1,
                }
            },
        },
{
    match build_udp_message(bytes, sender, engine) {
        Some(m) => process_message(&m, sender, registry),
        None => Vec::new(),
    }
}

/// Releases identity `id` when its peer goes away: its registry entry, its
/// name, its open fragment buffers and its record of delivered messages.
pub fn release_identity(registry: &mut Registry, engine: &mut Reassembler, id: u16)
    requires
        old(registry).wf(),
        old(engine).wf(),
    ensures
        final(registry).wf(),
        final(engine).wf(),
        final(registry)@ == without_id(old(registry)@, id),
        final(engine)@ == forget_spec(old(engine)@, id),
{
    registry.remove(id);
    engine.forget_sender(id);
}

} // verus!
