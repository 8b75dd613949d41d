//! SEQA: a capture forwarder's wire protocol and the logic on both of its ends.
//!
//! An agent captures packets and streams them to whoever dials in; a sink
//! consumes that stream and can write it down as a `.pcap` file. Sockets,
//! threads and the capture device live outside this crate. What is here are the
//! decisions and the data formats, each with a contract that is proved.

pub mod backoff;
pub mod capture;
pub mod cli;
pub mod frame;
pub mod le;
pub mod pcap_file;
pub mod proto;
pub mod proto_laws;
pub mod pump;
pub mod ring;
pub mod ring_laws;
pub mod sender;
pub mod session;
pub mod session_laws;
pub mod sink;
pub mod stream_laws;
pub mod text;
pub mod wire_laws;
