//! A client library for a LinuxTuples tuple-space server: the wire form of tuples, the
//! requests a client sends and what it makes of the replies, with proofs that what a
//! receiver reads back is what a sender wrote.
pub mod wire;
pub mod tuple;
pub mod roundtrip;
pub mod frame;
pub mod client;

pub use tuple::{E, DecodeError, encode_tuple, decode_tuple, string_area_fits};
pub use frame::{tuple_bytes_needed, dump_bytes_needed, decode_tuples};
pub use client::{
    LinuxTuplesConnection, ClientError, PUT, GET, READ, GET_NB, READ_NB, DUMP, COUNT, LOG, REPLACE,
};
pub use wire::{ti, ciot};
