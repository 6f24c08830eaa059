//! An in-memory pub/sub log store organized into rooms. Each room keeps
//! sequence-numbered value logs per key, changes them with four actions
//! (relay, append, replace, compact), decides which subscriber receives
//! what, and turns each change into instructions a durable key-value
//! storage can replay.

pub mod db;
pub mod key_seq_pair;
pub mod laws;
pub mod replication;
pub mod room;
pub mod store;
pub mod subject_tree;
pub mod types;

pub use db::{DatabaseInner, Outcome};
pub use key_seq_pair::KeyAndSeq;
pub use replication::{load_store, storage_ops, StorageOp};
pub use room::{Configuration, RoomResult};
pub use store::{
    ApplyResult, DeleteInstruction, PushInstruction, Store, StoreInstruction, ValueLog,
};
pub use subject_tree::{SubjectTree, SubjectTreeNode};
pub use types::{
    Action, Key, MessageFromDatabase, MessageToDatabase, SequenceNumber, SequenceValue, Subject,
    Value,
};
