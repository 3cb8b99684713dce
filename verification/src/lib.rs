//! Building blocks of the oni network protocol: sequence numbers and
//! sequence buffers, packet headers, replay protection, encrypted packet
//! framing and connect tokens.

pub mod seq;
pub mod bytes;
pub mod reliable_io;
pub mod reliable;
pub mod crypto;
pub mod utils;
pub mod protection;
pub mod packet;
pub mod protocol;
pub mod encrypted;
pub mod token;
pub mod challenge;
pub mod addr;
pub mod assoc;
pub mod server_list;
pub mod encryption_manager;
pub mod incoming;
pub mod chan;
pub mod client;
pub mod server;
pub mod netcode;
pub mod xx;
pub mod packet_queue;
pub mod qos;
pub mod endpoint;

pub use crate::protocol::{Packet, MAX_PAYLOAD};
pub use crate::token::{PublicToken, USER, DATA};
pub use crate::utils::{keygen, crypto_random};
pub use crate::client::{Client, State, ConnectingState, Error};
pub use crate::server::Server;
pub use crate::server_list::ServerList;
pub use crate::incoming::Incoming;
