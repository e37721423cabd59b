//! The replicated control plane: the log and the state machine that consensus drives, and what is
//! made of the answers of the consensus engine.
pub mod builders;
pub mod fault;
pub mod hard_state;
pub mod log_store;
pub mod state_machine;
