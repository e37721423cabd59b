//! What can go wrong on the way to a shard.
use crate::rank::TopKAdmissionError;
use vstd::prelude::*;

verus! {

/// A failed shard, log or control-plane operation.
#[derive(Clone, Debug, PartialEq, Eq)]
pub enum ShardError {
    /// The request or the assembly is not one the cluster supports.
    Config(String),
    /// The control plane refused or could not answer.
    ControlPlane(String),
    /// The cluster log failed.
    Log(String),
    /// A remote shard failed.
    Remote(String),
    /// A remote shard answered against the protocol.
    Protocol(String),
    /// Two feature dictionaries that must agree do not.
    DictMismatch { expected: u64, actual: u64 },
    /// A logical id that is already taken.
    DuplicateLogicalId(u64),
    /// The deadline passed.
    DeadlineExceeded,
    /// A request that asks for too much.
    Admission(TopKAdmissionError),
    /// The sources that were asked for do not fit this many bytes.
    EnrichmentLimit { limit: usize },
    /// A shard was asked under an ownership that does not hold.
    OwnershipMismatch(String),
    /// A mutation that some of its shards applied and others did not.
    PartiallyApplied { logical: u64, applied: Vec<usize>, failed: Vec<usize>, detail: String },
}

/// A shard error, as a mathematical value.
pub ghost enum ShardErrorView {
    Config(Seq<char>),
    ControlPlane(Seq<char>),
    Log(Seq<char>),
    Remote(Seq<char>),
    Protocol(Seq<char>),
    DictMismatch { expected: u64, actual: u64 },
    DuplicateLogicalId(u64),
    DeadlineExceeded,
    Admission(TopKAdmissionError),
    EnrichmentLimit { limit: usize },
    OwnershipMismatch(Seq<char>),
    PartiallyApplied { logical: u64, applied: Seq<usize>, failed: Seq<usize>, detail: Seq<char> },
}

impl View for ShardError {
    type V = ShardErrorView;

    open spec fn view(&self) -> ShardErrorView {
        match self {
            ShardError::Config(m) => ShardErrorView::Config(m@),
            ShardError::ControlPlane(m) => ShardErrorView::ControlPlane(m@),
            ShardError::Log(m) => ShardErrorView::Log(m@),
            ShardError::Remote(m) => ShardErrorView::Remote(m@),
            ShardError::Protocol(m) => ShardErrorView::Protocol(m@),
            ShardError::DictMismatch { expected, actual } => ShardErrorView::DictMismatch {
                expected: *expected,
                actual: *actual,
            },
            ShardError::DuplicateLogicalId(id) => ShardErrorView::DuplicateLogicalId(*id),
            ShardError::DeadlineExceeded => ShardErrorView::DeadlineExceeded,
            ShardError::Admission(e) => ShardErrorView::Admission(*e),
            ShardError::EnrichmentLimit { limit } => ShardErrorView::EnrichmentLimit {
                limit: *limit,
            },
            ShardError::OwnershipMismatch(m) => ShardErrorView::OwnershipMismatch(m@),
            ShardError::PartiallyApplied { logical, applied, failed, detail } =>
                ShardErrorView::PartiallyApplied {
                logical: *logical,
                applied: applied@,
                failed: failed@,
                detail: detail@,
            },
        }
    }
}

} // verus!
