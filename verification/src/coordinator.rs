//! The coordinator: everything it decides between the calls it makes to shards, to the control
//! plane and to the disk.
pub mod buckets;
pub mod checkpoint;
pub mod config;
pub mod connect;
pub mod control_plane;
pub mod exhaustive;
pub mod exhaustive_run;
pub mod fan_out;
pub mod gc;
pub mod gc_run;
pub mod group_move;
pub mod group_move_laws;
pub mod group_plan;
pub mod group_run;
pub mod handoff;
pub mod layout;
pub mod ledger;
pub mod lifecycle;
pub mod logical_ids;
pub mod matching;
pub mod pit;
pub mod ranked;
pub mod ranked_batch;
pub mod ranked_batch_laws;
pub mod ranked_fetch;
pub mod reassign;
pub mod recovery;
pub mod repair;
pub mod resize;
pub mod scaling;
pub mod single_move;
pub mod sweep;
pub mod sweep_run;
pub mod waves;
