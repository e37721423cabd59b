//! Verified control and placement logic for a sharded reverse-query matcher.
pub mod allocator;
pub mod autoscale;
pub mod clog;
pub mod codec;
pub mod control;
pub mod control_laws;
pub mod control_raft;
pub mod control_store;
pub mod control_wire;
pub mod coordinator;
pub mod endpoint;
pub mod order;
pub mod ownership;
pub mod rank;
pub mod seqs;
pub mod shard;
pub mod text;
