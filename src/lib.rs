//! A persistent, multi-index state store for a group-messaging engine and an
//! ecash wallet engine, with a lossless text codec for its snapshots.
//!
//! Each store keeps its indexes in memory. After every change its owner writes
//! the store's snapshot text to the persistence medium; on start the store is
//! built from what the medium holds, and text that does not read counts as no
//! prior state.
pub mod base64text;
pub mod codec;
pub mod decimal;
pub mod engine_store;
pub mod framing;
pub mod hexcode;
pub mod protocol;
pub mod records;
pub mod settings;
pub mod table;
pub mod wallet;
pub mod wallet_records;

pub use protocol::MdkHybridStorage;
pub use records::{ByteList, EventRecord, ExporterSecret, Group, Message};
pub use table::{EpochKey, Table};
pub use wallet::{HybridWalletDatabase, WalletError};
pub use wallet_records::{Counter, Entry, EntryList, MintEntry, ProofInfo, ProofState, Transaction, TransactionDirection};
