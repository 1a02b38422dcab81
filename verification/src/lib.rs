//! Verified protocol logic for packet-radio and Reticulum peers.

pub mod address_book;
pub mod advert;
pub mod advertisement;
pub mod airtime;
pub mod announce;
pub mod application;
pub mod buffer;
pub mod bytes;
pub mod bytestream;
pub mod channel;
pub mod completion;
pub mod crypto;
pub mod delivery;
pub mod destination;
pub mod driver;
pub mod entropy;
pub mod error;
pub mod forwarding;
pub mod hash;
pub mod hdlc;
pub mod honesty;
pub mod identity;
pub mod kiss;
pub mod leniency;
pub mod link;
pub mod lora;
pub mod lossless;
pub mod modem;
pub mod msgpack;
pub mod node;
pub mod pacing;
pub mod packet;
pub mod path;
pub mod phy;
pub mod progress;
pub mod recovery;
pub mod reliable;
pub mod resource;
pub mod resource_transfer;
pub mod rns_identity;
pub mod router;
pub mod stream;
pub mod stuffing;
pub mod table;
pub mod text;
pub mod token;
pub mod transport;
