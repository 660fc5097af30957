//! Decoding of CAN bus traffic: a catalog of message layouts, a decoder that
//! extracts raw signal fields from 8-byte payloads, a parser for candump log
//! lines, and the byte classification used when dumping payloads.
use vstd::prelude::*;

pub mod byte;
pub mod candump_parser;
pub mod signal;
pub mod stats;

verus! {

} // verus!
