//! Verified core of three small TCP services: an echo service, a binary
//! price service (inserts and mean queries), and a line-delimited JSON
//! primality service.
//!
//! The sockets, threads and JSON (de)serialisation live outside this crate,
//! and so does the one decision that needs floating point (whether a JSON
//! float holds an integer); every other decision those services make on the
//! bytes they receive is taken here, with a contract.

pub mod echo_server;
pub mod means_to_an_end_server;
pub mod prime_time_server;
