//! Building, reopening and backing up a cluster: what is checked, and what is reported.
use crate::shard::{ShardError, ShardErrorView};
use crate::text::{decimal, push_decimal, with_number};
use vstd::prelude::*;

verus! {

/// Whether a cluster can be built: it needs a shard, and a copy of it.
pub fn check_build(num_shards: usize, replication_factor: usize) -> (r: Result<(), ShardError>)
    ensures
        match r {
            Ok(_) => num_shards > 0 && replication_factor > 0,
            Err(e) => if num_shards == 0 {
                e@ == ShardErrorView::Config("cluster needs at least one shard"@)
            } else {
                replication_factor == 0 && e@ == ShardErrorView::Config(
                    "replication_factor must be ≥ 1 (1 = primary only)"@,
                )
            },
        },
{
    if num_shards == 0 {
        return Err(ShardError::Config(String::from_str("cluster needs at least one shard")));
    }
    if replication_factor == 0 {
        return Err(
            ShardError::Config(
                String::from_str("replication_factor must be ≥ 1 (1 = primary only)"),
            ),
        );
    }
    Ok(())
}

/// Whether the parts of a cluster fit: as many shards as the ring has.
pub fn check_parts(shards: usize, ring_shards: usize) -> (r: Result<(), ShardError>)
    ensures
        match r {
            Ok(_) => shards == ring_shards,
            Err(e) => shards != ring_shards && e@ == ShardErrorView::Config(
                "shard count "@ + decimal(shards as nat) + " must match the ring's shard count "@
                    + decimal(ring_shards as nat),
            ),
        },
{
    if shards != ring_shards {
        let mut m = with_number(
            "shard count ",
            shards as u64,
            " must match the ring's shard count ",
        );
        push_decimal(&mut m, ring_shards as u64);
        return Err(ShardError::Config(m));
    }
    Ok(())
}

/// How the copies of a position serve as one shard.
#[derive(Clone, Copy, Debug, PartialEq, Eq, Structural)]
pub enum Assembly {
    /// The primary alone.
    Single,
    /// The primary and this many replicas.
    Replicated(usize),
}

/// How the copies of a position serve as one shard; there must be one.
pub fn assemble(copies: usize) -> (r: Result<Assembly, ShardError>)
    ensures
        match r {
            Ok(Assembly::Single) => copies == 1,
            Ok(Assembly::Replicated(n)) => copies > 1 && n == copies - 1,
            Err(e) => copies == 0 && e@ == ShardErrorView::Config(
                "internal: a shard position has no copies (replication_factor must be ≥ 1)"@,
            ),
        },
{
    if copies == 0 {
        Err(
            ShardError::Config(
                String::from_str(
                    "internal: a shard position has no copies (replication_factor must be ≥ 1)",
                ),
            ),
        )
    } else if copies == 1 {
        Ok(Assembly::Single)
    } else {
        Ok(Assembly::Replicated(copies - 1))
    }
}

/// How many copies of each position a reopened cluster has: as configured, and at least one.
pub fn copies_on_open(configured: Option<usize>) -> (r: usize)
    ensures
        r == match configured {
            Some(n) => if n == 0 {
                1
            } else {
                n
            },
            None => 1,
        },
{
    match configured {
        Some(n) => if n == 0 {
            1
        } else {
            n
        },
        None => 1,
    }
}

/// What of a manifest is checked before any shard is attached.
#[derive(Clone, Copy, Debug, PartialEq, Eq, Structural)]
pub struct ManifestHead {
    /// Whether the broad lane is on every shard.
    pub broad_replicate_all: bool,
    /// The fingerprint of the dictionary that the cluster was built with.
    pub dict_fingerprint: u64,
    pub num_shards: u32,
    /// For how many shards segments are listed.
    pub registry: usize,
    /// For how many shards the next segment number is listed.
    pub next_seg_ids: usize,
}

/// The error for a cluster whose broad lane is on one shard alone.
pub open spec fn old_layout_text(dir: Seq<char>) -> Seq<char> {
    "cluster at "@ + dir
        + " predates ADR-080's replicate-to-all broad layout (its broad lane lives on shard 0 only); reopening it here would mis-route broad queries — rebuild the cluster with this binary"@
}

/// The error for a manifest whose columns differ in length.
pub open spec fn inconsistent_text(h: ManifestHead) -> Seq<char> {
    "cluster manifest is inconsistent: num_shards="@ + decimal(h.num_shards as nat)
        + " but registry has "@ + decimal(h.registry as nat) + " shard list(s) and "@ + decimal(
        h.next_seg_ids as nat,
    ) + " next-seg-id(s)"@
}

/// Why a cluster is not reopened from its manifest. `dict` is the fingerprint of the dictionary in
/// the manifest, or why that dictionary does not decode.
pub open spec fn manifest_fault(h: ManifestHead, dir: Seq<char>, dict: Result<u64, Seq<char>>) -> Option<
    ShardErrorView,
> {
    if !h.broad_replicate_all {
        Some(ShardErrorView::Config(old_layout_text(dir)))
    } else {
        match dict {
            Err(e) => Some(ShardErrorView::Config("deserializing cluster dict: "@ + e)),
            Ok(actual) => if actual != h.dict_fingerprint {
                Some(ShardErrorView::DictMismatch { expected: h.dict_fingerprint, actual })
            } else if h.registry != h.num_shards || h.next_seg_ids != h.num_shards {
                Some(ShardErrorView::Config(inconsistent_text(h)))
            } else {
                None
            },
        }
    }
}

/// The result of decoding the dictionary, as a mathematical value.
pub open spec fn dict_view(dict: Result<u64, String>) -> Result<u64, Seq<char>> {
    match dict {
        Ok(f) => Ok(f),
        Err(e) => Err(e@),
    }
}

/// Whether a cluster can be reopened from its manifest: the broad lane is where routing looks for
/// it, the dictionary is the one it was built with, and every shard is listed. Anything else would
/// miss matches without a sign.
pub fn check_manifest(h: &ManifestHead, dir: &str, dict: Result<u64, String>) -> (r: Result<
    (),
    ShardError,
>)
    ensures
        match r {
            Ok(_) => manifest_fault(*h, dir@, dict_view(dict)) is None,
            Err(e) => manifest_fault(*h, dir@, dict_view(dict)) == Some(e@),
        },
{
    if !h.broad_replicate_all {
        let mut m = String::from_str("cluster at ");
        m.append(dir);
        m.append(
            " predates ADR-080's replicate-to-all broad layout (its broad lane lives on shard 0 only); reopening it here would mis-route broad queries — rebuild the cluster with this binary",
        );
        return Err(ShardError::Config(m));
    }
    match dict {
        Err(e) => {
            let mut m = String::from_str("deserializing cluster dict: ");
            m.append(e.as_str());
            return Err(ShardError::Config(m));
        },
        Ok(actual) => {
            if actual != h.dict_fingerprint {
                return Err(ShardError::DictMismatch { expected: h.dict_fingerprint, actual });
            }
        },
    }
    if h.registry != h.num_shards as usize || h.next_seg_ids != h.num_shards as usize {
        let mut m = with_number(
            "cluster manifest is inconsistent: num_shards=",
            h.num_shards as u64,
            " but registry has ",
        );
        push_decimal(&mut m, h.registry as u64);
        m.append(" shard list(s) and ");
        push_decimal(&mut m, h.next_seg_ids as u64);
        m.append(" next-seg-id(s)");
        assert(m@ =~= inconsistent_text(*h));
        return Err(ShardError::Config(m));
    }
    Ok(())
}

/// The error for a directory without a manifest.
pub fn no_manifest(path: &str) -> (r: ShardError)
    ensures
        r@ == ShardErrorView::Config(
            "no cluster manifest at "@ + path@ + "; use build() to create a durable cluster"@,
        ),
{
    let mut m = String::from_str("no cluster manifest at ");
    m.append(path);
    m.append("; use build() to create a durable cluster");
    ShardError::Config(m)
}

/// What is reported where the log ends in a torn record.
pub struct TornTail {
    pub detail: String,
    pub error: String,
}

/// What is reported of the bytes that recovery skipped at the end of the log, if any.
pub fn torn_tail(skipped: usize) -> (r: Option<TornTail>)
    ensures
        match r {
            None => skipped == 0,
            Some(t) => skipped > 0 && t.detail@ == "cluster log torn tail: "@ + decimal(
                skipped as nat,
            ) + " trailing byte(s) skipped during recovery"@ && t.error@ == decimal(skipped as nat)
                + " bytes"@,
        },
{
    if skipped == 0 {
        return None;
    }
    let detail = with_number(
        "cluster log torn tail: ",
        skipped as u64,
        " trailing byte(s) skipped during recovery",
    );
    let error = with_number("", skipped as u64, " bytes");
    proof {
        reveal_strlit("");
        assert(error@ =~= decimal(skipped as nat) + " bytes"@);
    }
    Some(TornTail { detail, error })
}

/// Where a backup stopped.
pub enum BackupFault {
    /// The copy failed.
    Copy(String),
    /// The copy does not verify.
    Verify(String),
}

/// Whether a cluster can be backed up: it must be on disk.
pub fn check_backup(durable: bool) -> (r: Result<(), ShardError>)
    ensures
        match r {
            Ok(_) => durable,
            Err(e) => !durable && e@ == ShardErrorView::Config(
                "cluster is in-memory (no data_dir): nothing to back up"@,
            ),
        },
{
    if durable {
        Ok(())
    } else {
        Err(
            ShardError::Config(
                String::from_str("cluster is in-memory (no data_dir): nothing to back up"),
            ),
        )
    }
}

/// The error of a backup that failed.
pub fn backup_error(f: BackupFault) -> (r: ShardError)
    ensures
        r@ == ShardErrorView::Log(
            match f {
                BackupFault::Copy(e) => "cluster backup copy: "@ + e@,
                BackupFault::Verify(e) => "cluster backup verify: "@ + e@,
            },
        ),
{
    match f {
        BackupFault::Copy(e) => {
            let mut m = String::from_str("cluster backup copy: ");
            m.append(e.as_str());
            ShardError::Log(m)
        },
        BackupFault::Verify(e) => {
            let mut m = String::from_str("cluster backup verify: ");
            m.append(e.as_str());
            ShardError::Log(m)
        },
    }
}

/// A manifest is accepted only where the dictionary is the one the segments were written with.
pub proof fn law_accepted_manifest_has_its_dictionary(
    h: ManifestHead,
    dir: Seq<char>,
    dict: Result<u64, Seq<char>>,
)
    requires
        manifest_fault(h, dir, dict) is None,
    ensures
        dict == Ok::<u64, Seq<char>>(h.dict_fingerprint),
        h.broad_replicate_all,
        h.registry == h.num_shards,
        h.next_seg_ids == h.num_shards,
{
}

/// A manifest is refused only for a reason: one whose broad lane is on every shard, whose
/// dictionary decodes to the fingerprint it names and which lists every shard in both columns is
/// accepted. Another dictionary is reported with both fingerprints.
pub proof fn law_a_sound_manifest_is_accepted(
    h: ManifestHead,
    dir: Seq<char>,
    dict: Result<u64, Seq<char>>,
)
    ensures
        h.broad_replicate_all && dict == Ok::<u64, Seq<char>>(h.dict_fingerprint) && h.registry
            == h.num_shards && h.next_seg_ids == h.num_shards ==> manifest_fault(h, dir, dict)
            is None,
        h.broad_replicate_all && (dict matches Ok(actual) && actual != h.dict_fingerprint)
            ==> manifest_fault(h, dir, dict) == Some(
            ShardErrorView::DictMismatch { expected: h.dict_fingerprint, actual: dict->Ok_0 },
        ),
        !h.broad_replicate_all || dict is Err ==> (manifest_fault(h, dir, dict) matches Some(e)
            && e is Config),
{
}

} // verus!
