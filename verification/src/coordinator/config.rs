//! How a cluster is set up.
use vstd::prelude::*;

verus! {

/// Points that each shard has on the ring, unless set otherwise.
pub const DEFAULT_VNODES: u32 = 128;

/// The settings of a cluster.
#[derive(Clone, Debug)]
pub struct ClusterConfig {
    /// How many shards; at least one.
    pub num_shards: usize,
    /// How many points each shard has on the ring.
    pub vnodes: u32,
    /// How many copies each position has; at least one.
    pub replication_factor: usize,
    /// Whether the broad lane is evaluated unless a request says otherwise.
    pub include_broad: bool,
    /// Where the cluster is kept; nowhere for one in memory.
    pub data_dir: Option<String>,
    /// Whether every append to the log is forced to disk.
    pub wal_sync_on_write: bool,
    /// How many passes a move drains before it fences the source.
    pub handoff_drain_passes: usize,
    /// How many passes a move drains after it, before it gives up.
    pub handoff_final_drain_cap: usize,
}

impl ClusterConfig {
    /// Passes that a move drains before it fences the source, unless set otherwise.
    pub const DEFAULT_HANDOFF_DRAIN_PASSES: usize = 8;

    /// Passes that a move drains after it, unless set otherwise.
    pub const DEFAULT_HANDOFF_FINAL_DRAIN_CAP: usize = 1024;
}

impl Default for ClusterConfig {
    fn default() -> (r: Self)
        ensures
            r == (ClusterConfig {
                num_shards: 8,
                vnodes: 128,
                replication_factor: 1,
                include_broad: true,
                data_dir: None,
                wal_sync_on_write: false,
                handoff_drain_passes: 8,
                handoff_final_drain_cap: 1024,
            }),
    {
        ClusterConfig {
            num_shards: 8,
            vnodes: DEFAULT_VNODES,
            replication_factor: 1,
            include_broad: true,
            data_dir: None,
            wal_sync_on_write: false,
            handoff_drain_passes: Self::DEFAULT_HANDOFF_DRAIN_PASSES,
            handoff_final_drain_cap: Self::DEFAULT_HANDOFF_FINAL_DRAIN_CAP,
        }
    }
}

/// Where the copies of one position are: a primary and its replicas.
#[derive(Clone, Debug)]
pub struct ShardGroup {
    /// The endpoint of the primary.
    pub primary: String,
    /// The endpoints of the replicas, each on another node.
    pub replicas: Vec<String>,
}

} // verus!
