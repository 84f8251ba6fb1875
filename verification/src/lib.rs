//! A minimal durable message broker core: the binary wire protocol with
//! streaming reassembly, the offset ledger, the write-ahead log record
//! format with crash-tolerant replay, the fan-out engine and the
//! per-connection commit path that ties them together.
//!
//! * [`frame`], [`stream`]: the wire protocol and its streaming reassembly.
//! * [`ledger`], [`invariants`]: offset assignment and its ordering rule.
//! * [`record`], [`storage`], [`layout`]: the write-ahead log, its replay,
//!   the storage it is kept in and the names of its files.
//! * [`fanout`]: subscription and broadcast.
//! * [`server`], [`dispatch`], [`connection`]: the commit path, from the
//!   bytes a connection reads to the answers it sends.
//! * [`entry`], [`log`]: a small in-memory log of timestamped entries, apart
//!   from the broker.
//! * [`le`]: the little-endian integers of both formats.

pub mod connection;
pub mod dispatch;
pub mod entry;
pub mod fanout;
pub mod frame;
pub mod invariants;
pub mod layout;
pub mod le;
pub mod ledger;
pub mod log;
pub mod record;
pub mod server;
pub mod storage;
pub mod stream;
