//! A single-node key-value store: fixed-width records, an append-only
//! write-ahead log, a sorted index in memory and a chunked wire protocol.
//!
//! The crate decides and computes; it does no I/O. Whoever runs it owns the
//! socket and the log file, and hands the crate bytes and outcomes:
//!
//! * [`kvstorage`] is the engine: keys and values, the index, the log's
//!   records and the replay that rebuilds the index from them.
//! * [`chunktps`] frames the messages of a byte stream.
//! * [`kvserver`] says what answers each request, and its [`kvserver::protocol`]
//!   how requests and replies are spelled in bytes.
//!
//! Every function states what it returns over a plain model of its data
//! (byte sequences, a map from key codes to values, a sequence of log
//! records), and the laws that tie the functions together are proved beside
//! them: the key encoding keeps the order of the keys, a put is seen by the
//! next get, a scan has exactly one result, and replaying the log gives an
//! index that answers as the live one did.

pub mod bytes;
pub mod chunktps;
pub mod kvserver;
pub mod kvstorage;
