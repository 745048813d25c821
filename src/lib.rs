//! Message relay core: the binary wire codec, the identity registry, the
//! relay router and the fragment reassembly engine.
pub mod command;
pub mod enums;
pub mod id_table;
pub mod ids;
pub mod message;
pub mod metadata;
pub mod reassembly;
pub mod registry;
pub mod relay;
pub mod router;
pub mod text;

pub use command::create_command;
pub use enums::{DecodeError, MessageType, Protocol};
pub use message::Message;
pub use metadata::{FragmentPos, MsgMetadata, FRAGMENT_HEADER_LEN, HEADER_LEN};
pub use reassembly::{Reassembler, MAX_OPEN_PER_SENDER};
pub use registry::{Registry, NO_NAME};
pub use relay::{build_udp_message, relay_fragment, release_identity};
pub use router::process_message;
