//! Fetching the sources of the winners, each from the position that owns it.
use crate::coordinator::ranked::{
    ClusterRankedError, ClusterRankedHit, ClusterRankedMatch, RankedErrorView,
};
use crate::ownership::PlacementGeneration;
use crate::rank::FetchedMatch;
use crate::text::{decimal, push_decimal, with_number};
use std::collections::HashSet;
use vstd::prelude::*;

verus! {

broadcast use vstd::std_specs::hash::group_hash_axioms;

/// The winners that one position is asked for: their index among the winners, and their id.
#[derive(Clone, Debug)]
pub struct FetchGroup {
    pub position: usize,
    pub rows: Vec<(usize, u64)>,
}

/// The winners that one position is asked for, as a mathematical value.
pub ghost struct FetchView {
    pub position: usize,
    pub rows: Seq<(usize, u64)>,
}

/// The groups as mathematical values.
pub open spec fn fetch_views(v: Seq<FetchGroup>) -> Seq<FetchView> {
    v.map_values(|g: FetchGroup| FetchView { position: g.position, rows: g.rows@ })
}

/// The winners that a position owns, in order.
pub open spec fn rows_of(hits: Seq<ClusterRankedHit>, position: nat) -> Seq<(usize, u64)>
    decreases hits.len(),
{
    if hits.len() == 0 {
        Seq::empty()
    } else {
        let r = rows_of(hits.drop_last(), position);
        if hits.last().owner_position == position {
            r.push(((hits.len() - 1) as usize, hits.last().logical_id))
        } else {
            r
        }
    }
}

/// The groups of the first `n` positions: one for each that owns a winner, in order.
pub open spec fn fetch_groups(hits: Seq<ClusterRankedHit>, n: nat) -> Seq<FetchView>
    decreases n,
{
    if n == 0 {
        Seq::empty()
    } else {
        let g = fetch_groups(hits, (n - 1) as nat);
        let rows = rows_of(hits, (n - 1) as nat);
        if rows.len() == 0 {
            g
        } else {
            g.push(FetchView { position: (n - 1) as usize, rows })
        }
    }
}

/// The ids of the winners.
pub open spec fn winner_ids(hits: Seq<ClusterRankedHit>) -> Seq<u64> {
    hits.map_values(|h: ClusterRankedHit| h.logical_id)
}

/// What is wrong with the winners, if anything: the first that names an owner out of range or an id
/// that came before.
pub open spec fn winner_fault(hits: Seq<ClusterRankedHit>, num_shards: u32) -> Option<RankedErrorView>
    decreases hits.len(),
{
    if hits.len() == 0 {
        None
    } else {
        let d = hits.drop_last();
        let h = hits.last();
        match winner_fault(d, num_shards) {
            Some(e) => Some(e),
            None => if h.owner_position >= num_shards {
                Some(
                    RankedErrorView::InvalidShardReply {
                        position: h.owner_position as usize,
                        detail: "winner names an out-of-range owner"@,
                    },
                )
            } else if winner_ids(d).contains(h.logical_id) {
                Some(RankedErrorView::DuplicateLogicalId(h.logical_id))
            } else {
                None
            },
        }
    }
}

proof fn lemma_winner_fault_prefix(hits: Seq<ClusterRankedHit>, num_shards: u32, n: int)
    requires
        0 <= n <= hits.len(),
        winner_fault(hits.take(n), num_shards) is Some,
    ensures
        winner_fault(hits, num_shards) == winner_fault(hits.take(n), num_shards),
    decreases hits.len() - n,
{
    if n < hits.len() {
        assert(hits.take(n + 1).drop_last() =~= hits.take(n));
        lemma_winner_fault_prefix(hits, num_shards, n + 1);
    } else {
        assert(hits.take(n) =~= hits);
    }
}

/// Whether the placement has changed since the winners were collected.
pub open spec fn placement_drifted(
    ranked_generation: PlacementGeneration,
    ranked_shards: u32,
    generation: PlacementGeneration,
    num_shards: u32,
) -> bool {
    generation != ranked_generation || num_shards != ranked_shards
}

/// The error of a placement that changed between collecting and fetching.
pub fn check_placement(
    ranked_generation: PlacementGeneration,
    ranked_shards: u32,
    generation: PlacementGeneration,
    num_shards: u32,
) -> (r: Result<(), ClusterRankedError>)
    ensures
        r is Ok <==> !placement_drifted(ranked_generation, ranked_shards, generation, num_shards),
        r matches Err(e) ==> e@ == (RankedErrorView::InvalidShardReply {
            position: 0,
            detail: "placement generation or shard count changed between collect and fetch"@,
        }),
{
    if generation.0 != ranked_generation.0 || num_shards != ranked_shards {
        Err(
            ClusterRankedError::InvalidShardReply {
                position: 0,
                detail: String::from_str(
                    "placement generation or shard count changed between collect and fetch",
                ),
            },
        )
    } else {
        Ok(())
    }
}

/// Plans which position is asked for which winners.
pub fn plan_fetch(
    ranked: &ClusterRankedMatch,
    generation: PlacementGeneration,
    num_shards: u32,
) -> (r: Result<Vec<FetchGroup>, ClusterRankedError>)
    ensures
        if placement_drifted(
            ranked.placement_generation,
            ranked.num_shards,
            generation,
            num_shards,
        ) {
            r matches Err(e) && e@ == (RankedErrorView::InvalidShardReply {
                position: 0,
                detail: "placement generation or shard count changed between collect and fetch"@,
            })
        } else {
            match winner_fault(ranked.hits@, num_shards) {
                Some(e) => r matches Err(x) && x@ == e,
                None => r matches Ok(g) && fetch_views(g@) == fetch_groups(
                    ranked.hits@,
                    num_shards as nat,
                ),
            }
        },
{
    match check_placement(ranked.placement_generation, ranked.num_shards, generation, num_shards) {
        Ok(_) => {},
        Err(e) => {
            return Err(e);
        },
    }
    let ghost hits = ranked.hits@;
    let mut groups: Vec<Vec<(usize, u64)>> = Vec::new();
    let mut p: u32 = 0;
    while p < num_shards
        invariant
            p <= num_shards,
            hits == ranked.hits@,
            groups@.len() == p,
            forall|k: int| 0 <= k < p ==> (#[trigger] groups@[k])@ == rows_of(hits.take(0), k as nat),
        decreases num_shards - p,
    {
        groups.push(Vec::new());
        assert(groups@[p as int]@ =~= rows_of(hits.take(0), p as nat));
        p = p + 1;
    }
    let mut seen: HashSet<u64> = HashSet::new();
    let n: usize = ranked.hits.len();
    let mut i: usize = 0;
    assert(winner_ids(hits.take(0)).to_set() =~= Set::empty());
    while i < n
        invariant
            n == ranked.hits@.len(),
            hits == ranked.hits@,
            i <= n,
            groups@.len() == num_shards,
            forall|k: int|
                0 <= k < num_shards ==> (#[trigger] groups@[k])@ == rows_of(
                    hits.take(i as int),
                    k as nat,
                ),
            seen@ == winner_ids(hits.take(i as int)).to_set(),
            winner_fault(hits.take(i as int), num_shards) is None,
            !placement_drifted(
                ranked.placement_generation,
                ranked.num_shards,
                generation,
                num_shards,
            ),
        decreases n - i,
    {
        let h = ranked.hits[i];
        let ghost t = hits.take(i as int);
        proof {
            assert(hits.take(i + 1).drop_last() =~= t);
            assert(hits.take(i + 1).last() == h);
            assert(winner_ids(hits.take(i + 1)) =~= winner_ids(t).push(h.logical_id));
            winner_ids(t).lemma_push_to_set_commute(h.logical_id);
            if winner_fault(hits.take(i + 1), num_shards) is Some {
                lemma_winner_fault_prefix(hits, num_shards, i + 1);
            }
        }
        if h.owner_position >= num_shards {
            return Err(
                ClusterRankedError::InvalidShardReply {
                    position: h.owner_position as usize,
                    detail: String::from_str("winner names an out-of-range owner"),
                },
            );
        }
        if !seen.insert(h.logical_id) {
            assert(winner_ids(t).contains(h.logical_id));
            return Err(ClusterRankedError::DuplicateLogicalId(h.logical_id));
        }
        let o: usize = h.owner_position as usize;
        let ghost before = groups@;
        groups[o].push((i, h.logical_id));
        proof {
            assert forall|k: int| 0 <= k < num_shards implies (#[trigger] groups@[k])@ == rows_of(
                hits.take(i + 1),
                k as nat,
            ) by {
                if k != o {
                    assert(groups@[k] == before[k]);
                } else {
                    assert(groups@[k]@ == before[k]@.push((i, h.logical_id)));
                }
            }
        }
        i = i + 1;
    }
    assert(hits.take(n as int) =~= hits);
    let mut out: Vec<FetchGroup> = Vec::new();
    let ghost gs = groups@;
    assert(fetch_views(out@) =~= fetch_groups(hits, 0));
    let mut position: usize = 0;
    for rows in it: groups.into_iter()
        invariant
            it.seq() == gs,
            gs.len() == num_shards,
            position == it.index(),
            forall|k: int| 0 <= k < num_shards ==> (#[trigger] gs[k])@ == rows_of(hits, k as nat),
            fetch_views(out@) == fetch_groups(hits, it.index() as nat),
    {
        assert(gs[position as int]@ == rows_of(hits, position as nat));
        if rows.len() > 0 {
            let ghost before = out@;
            let ghost rv = rows@;
            out.push(FetchGroup { position, rows });
            assert(fetch_views(out@) =~= fetch_views(before).push(
                FetchView { position, rows: rv },
            ));
        }
        position = position + 1;
    }
    Ok(out)
}

/// What is wrong with the rows that one position sent, if anything.
pub open spec fn group_fault(group: FetchView, rows: Seq<FetchedMatch>) -> Option<RankedErrorView> {
    if rows.len() != group.rows.len() {
        Some(
            RankedErrorView::InvalidShardReply {
                position: group.position,
                detail: "source stream returned "@ + decimal(rows.len()) + " rows for "@ + decimal(
                    group.rows.len(),
                ) + " requested winners"@,
            },
        )
    } else {
        row_fault(group, rows, 0)
    }
}

/// The first row at or behind `from` that is not the one asked for.
pub open spec fn row_fault(group: FetchView, rows: Seq<FetchedMatch>, from: nat) -> Option<
    RankedErrorView,
>
    decreases rows.len() - from,
{
    if from >= rows.len() {
        None
    } else if rows[from as int].logical_id != group.rows[from as int].1 {
        Some(
            RankedErrorView::InvalidShardReply {
                position: group.position,
                detail: "source stream returned id "@ + decimal(
                    rows[from as int].logical_id as nat,
                ) + " where "@ + decimal(group.rows[from as int].1 as nat) + " was requested"@,
            },
        )
    } else {
        row_fault(group, rows, from + 1)
    }
}

/// Checks the rows that one position sent.
pub fn check_group(group: &FetchGroup, rows: &Vec<FetchedMatch>) -> (r: Result<
    (),
    ClusterRankedError,
>)
    ensures
        match group_fault(FetchView { position: group.position, rows: group.rows@ }, rows@) {
            Some(e) => r matches Err(x) && x@ == e,
            None => r is Ok && rows@.len() == group.rows@.len() && forall|j: int|
                0 <= j < rows@.len() ==> (#[trigger] rows@[j]).logical_id == group.rows@[j].1,
        },
{
    let ghost g = FetchView { position: group.position, rows: group.rows@ };
    let n: usize = rows.len();
    if n != group.rows.len() {
        let mut m = with_number("source stream returned ", n as u64, " rows for ");
        push_decimal(&mut m, group.rows.len() as u64);
        m.append(" requested winners");
        return Err(
            ClusterRankedError::InvalidShardReply { position: group.position, detail: m },
        );
    }
    let mut j: usize = 0;
    while j < n
        invariant
            n == rows@.len(),
            n == group.rows@.len(),
            g == (FetchView { position: group.position, rows: group.rows@ }),
            j <= n,
            row_fault(g, rows@, 0) == row_fault(g, rows@, j as nat),
            forall|k: int| 0 <= k < j ==> (#[trigger] rows@[k]).logical_id == group.rows@[k].1,
        decreases n - j,
    {
        if rows[j].logical_id != group.rows[j].1 {
            let mut m = with_number(
                "source stream returned id ",
                rows[j].logical_id,
                " where ",
            );
            push_decimal(&mut m, group.rows[j].1);
            m.append(" was requested");
            return Err(
                ClusterRankedError::InvalidShardReply { position: group.position, detail: m },
            );
        }
        j = j + 1;
    }
    Ok(())
}

/// The first fault among the replies of the groups, in order.
pub open spec fn fetch_fault(groups: Seq<FetchView>, replies: Seq<Seq<FetchedMatch>>) -> Option<
    RankedErrorView,
>
    decreases groups.len(),
{
    if groups.len() == 0 {
        None
    } else {
        match fetch_fault(groups.drop_last(), replies.drop_last()) {
            Some(e) => Some(e),
            None => group_fault(groups.last(), replies.last()),
        }
    }
}

/// The replies as mathematical values.
pub open spec fn reply_rows(v: Seq<Vec<FetchedMatch>>) -> Seq<Seq<FetchedMatch>> {
    v.map_values(|r: Vec<FetchedMatch>| r@)
}

/// The source of the winner at `i` among the replies of the first `n` groups.
pub open spec fn source_at(
    groups: Seq<FetchView>,
    replies: Seq<Seq<FetchedMatch>>,
    i: int,
) -> Option<Seq<char>>
    decreases groups.len(),
{
    if groups.len() == 0 {
        None
    } else {
        match row_source(groups.last().rows, replies.last(), i) {
            Some(t) => Some(t),
            None => source_at(groups.drop_last(), replies.drop_last(), i),
        }
    }
}

/// The source of the winner at `i` among one group's rows: the last that was asked for under it.
pub open spec fn row_source(rows: Seq<(usize, u64)>, reply: Seq<FetchedMatch>, i: int) -> Option<
    Seq<char>,
>
    decreases rows.len(),
{
    if rows.len() == 0 {
        None
    } else if rows.last().0 == i {
        Some(reply[rows.len() - 1].source@)
    } else {
        row_source(rows.drop_last(), reply, i)
    }
}

/// The optional texts as mathematical values.
pub open spec fn opt_texts(v: Seq<Option<String>>) -> Seq<Option<Seq<char>>> {
    v.map_values(|t: Option<String>| crate::text::opt_text(t))
}

/// Every row asks for a winner that exists.
pub open spec fn rows_in_range(groups: Seq<FetchView>, n: nat) -> bool {
    forall|g: int, j: int|
        0 <= g < groups.len() && 0 <= j < (#[trigger] groups[g]).rows.len() ==> (#[trigger] groups[g].rows[j]).0
            < n
}

/// Puts the sources in the order of the winners.
pub fn assemble_sources(
    hits: &Vec<ClusterRankedHit>,
    groups: &Vec<FetchGroup>,
    replies: Vec<Vec<FetchedMatch>>,
) -> (r: Result<Vec<String>, ClusterRankedError>)
    requires
        groups@.len() == replies@.len(),
        rows_in_range(fetch_views(groups@), hits@.len()),
    ensures
        ({
            let g = fetch_views(groups@);
            let rs = reply_rows(replies@);
            match fetch_fault(g, rs) {
                Some(e) => r matches Err(x) && x@ == e,
                None => match r {
                    Ok(sources) => sources@.len() == hits@.len() && forall|i: int|
                        0 <= i < hits@.len() ==> source_at(g, rs, i) == Some(
                            (#[trigger] sources@[i])@,
                        ),
                    Err(x) => exists|i: int|
                        #![trigger hits@[i]]
                        0 <= i < hits@.len() && source_at(g, rs, i) is None && (forall|k: int|
                            0 <= k < i ==> #[trigger] source_at(g, rs, k) is Some) && x@ == (
                        RankedErrorView::InvalidShardReply {
                            position: hits@[i].owner_position as usize,
                            detail: "source stream omitted winner "@ + decimal(
                                hits@[i].logical_id as nat,
                            ) + ""@,
                        }),
                },
            }
        }),
{
    let ghost gv = fetch_views(groups@);
    let ghost rs = reply_rows(replies@);
    let ghost all = replies@;
    let n: usize = hits.len();
    let mut found: Vec<Option<String>> = Vec::new();
    let mut i: usize = 0;
    while i < n
        invariant
            i <= n,
            found@.len() == i,
            forall|k: int| 0 <= k < i ==> (#[trigger] found@[k]) is None,
        decreases n - i,
    {
        found.push(None);
        i = i + 1;
    }
    let mut g: usize = 0;
    let count: usize = groups.len();
    proof {
        assert(gv.take(0).len() == 0);
        assert forall|k: int| 0 <= k < n implies #[trigger] opt_texts(found@)[k] == source_at(
            gv.take(0),
            rs.take(0),
            k,
        ) by {}
    }
    for rows in it: replies.into_iter()
        invariant
            it.seq() == all,
            g == it.index(),
            n == hits@.len(),
            count == groups@.len(),
            groups@.len() == all.len(),
            gv == fetch_views(groups@),
            rs == reply_rows(all),
            rows_in_range(gv, n as nat),
            found@.len() == n,
            fetch_fault(gv.take(g as int), rs.take(g as int)) is None,
            forall|k: int|
                0 <= k < n ==> #[trigger] opt_texts(found@)[k] == source_at(
                    gv.take(g as int),
                    rs.take(g as int),
                    k,
                ),
    {
        let group = &groups[g];
        let ghost mine = gv[g as int];
        let ghost reply = rows@;
        proof {
            assert(gv.take(g + 1).drop_last() =~= gv.take(g as int));
            assert(rs.take(g + 1).drop_last() =~= rs.take(g as int));
            assert(rs[g as int] == reply);
            assert(mine == (FetchView { position: group.position, rows: group.rows@ }));
        }
        match check_group(group, &rows) {
            Ok(_) => {},
            Err(e) => {
                proof {
                    lemma_fetch_fault_prefix(gv, rs, g + 1);
                }
                return Err(e);
            },
        }
        let ghost before = opt_texts(found@);
        let m: usize = rows.len();
        let mut j: usize = 0;
        proof {
            assert(mine.rows.take(0).len() == 0);
        }
        for row in jt: rows.into_iter()
            invariant
                jt.seq() == reply,
                j == jt.index(),
                m == reply.len(),
                m == group.rows@.len(),
                mine.rows == group.rows@,
                n == found@.len(),
                before.len() == n,
                0 <= g < gv.len(),
                gv[g as int] == mine,
                rows_in_range(gv, n as nat),
                forall|k: int|
                    0 <= k < n ==> #[trigger] opt_texts(found@)[k] == match row_source(
                        mine.rows.take(j as int),
                        reply,
                        k,
                    ) {
                        Some(t) => Some(t),
                        None => before[k],
                    },
        {
            let at: usize = group.rows[j].0;
            assert(gv[g as int].rows[j as int].0 < n);
            let ghost t = row.source@;
            let ghost f0 = found@;
            found.set(at, Some(row.source));
            proof {
                let p = mine.rows.take(j + 1);
                assert(p.drop_last() =~= mine.rows.take(j as int));
                assert(p.last() == mine.rows[j as int]);
                assert forall|k: int| 0 <= k < n implies #[trigger] opt_texts(found@)[k]
                    == match row_source(p, reply, k) {
                    Some(t) => Some(t),
                    None => before[k],
                } by {
                    if k != at {
                        assert(opt_texts(found@)[k] == opt_texts(f0)[k]);
                    }
                }
            }
            j = j + 1;
        }
        proof {
            assert(mine.rows.take(m as int) =~= mine.rows);
        }
        g = g + 1;
    }
    proof {
        assert(gv.take(g as int) =~= gv);
        assert(rs.take(g as int) =~= rs);
    }
    let mut out: Vec<String> = Vec::new();
    let mut i: usize = 0;
    let ghost fv = opt_texts(found@);
    let ghost fs = found@;
    for f in ft: found.into_iter()
        invariant
            ft.seq() == fs,
            i == ft.index(),
            n == fs.len(),
            n == hits@.len(),
            fv == opt_texts(fs),
            forall|k: int| 0 <= k < n ==> #[trigger] fv[k] == source_at(gv, rs, k),
            fetch_fault(gv, rs) is None,
            gv == fetch_views(groups@),
            all == replies@,
            rs == reply_rows(all),
            out@.len() == i,
            forall|k: int| 0 <= k < i ==> source_at(gv, rs, k) == Some((#[trigger] out@[k])@),
    {
        match f {
            Some(t) => {
                assert(fv[i as int] == Some(t@));
                out.push(t);
            },
            None => {
                let detail = with_number("source stream omitted winner ", hits[i].logical_id, "");
                proof {
                    assert(fv[i as int] is None);
                    assert(source_at(gv, rs, i as int) is None);
                    assert forall|k: int| 0 <= k < i implies #[trigger] source_at(
                        gv,
                        rs,
                        k,
                    ) is Some by {
                        assert(source_at(gv, rs, k) == Some(out@[k]@));
                    }
                }
                return Err(
                    ClusterRankedError::InvalidShardReply {
                        position: hits[i].owner_position as usize,
                        detail,
                    },
                );
            },
        }
        i = i + 1;
    }
    Ok(out)
}

proof fn lemma_fetch_fault_prefix(
    groups: Seq<FetchView>,
    replies: Seq<Seq<FetchedMatch>>,
    n: int,
)
    requires
        groups.len() == replies.len(),
        0 <= n <= groups.len(),
        fetch_fault(groups.take(n), replies.take(n)) is Some,
    ensures
        fetch_fault(groups, replies) == fetch_fault(groups.take(n), replies.take(n)),
    decreases groups.len() - n,
{
    if n < groups.len() {
        assert(groups.take(n + 1).drop_last() =~= groups.take(n));
        assert(replies.take(n + 1).drop_last() =~= replies.take(n));
        lemma_fetch_fault_prefix(groups, replies, n + 1);
    } else {
        assert(groups.take(n) =~= groups);
        assert(replies.take(n) =~= replies);
    }
}

// ---- laws ----

/// The planned groups ask for winners that exist.
pub proof fn law_planned_rows_are_winners(hits: Seq<ClusterRankedHit>, n: nat)
    requires
        hits.len() <= usize::MAX,
    ensures
        rows_in_range(fetch_groups(hits, n), hits.len()),
    decreases n,
{
    if n > 0 {
        law_planned_rows_are_winners(hits, (n - 1) as nat);
        let rows = rows_of(hits, (n - 1) as nat);
        lemma_rows_of(hits, (n - 1) as nat);
        let gs = fetch_groups(hits, n);
        assert forall|g: int, j: int|
            0 <= g < gs.len() && 0 <= j < (#[trigger] gs[g]).rows.len() implies (
        #[trigger] gs[g].rows[j]).0 < hits.len() by {
            let before = fetch_groups(hits, (n - 1) as nat);
            if g < before.len() {
                assert(gs[g] == before[g]);
            } else {
                assert(gs[g].rows == rows);
            }
        }
    }
}

proof fn lemma_rows_of(hits: Seq<ClusterRankedHit>, position: nat)
    requires
        hits.len() <= usize::MAX,
    ensures
        forall|j: int|
            0 <= j < rows_of(hits, position).len() ==> {
                let r = #[trigger] rows_of(hits, position)[j];
                r.0 < hits.len() && hits[r.0 as int].owner_position == position && hits[r.0 as int].logical_id
                    == r.1
            },
    decreases hits.len(),
{
    if hits.len() > 0 {
        let d = hits.drop_last();
        lemma_rows_of(d, position);
        let r = rows_of(hits, position);
        let rd = rows_of(d, position);
        assert forall|j: int| 0 <= j < r.len() implies {
            let x = #[trigger] r[j];
            x.0 < hits.len() && hits[x.0 as int].owner_position == position
                && hits[x.0 as int].logical_id == x.1
        } by {
            if j < rd.len() {
                assert(r[j] == rd[j]);
            }
        }
    }
}

/// Every winner is asked for from its owner: a plan and its replies leave none out.
pub proof fn law_no_winner_is_omitted(
    hits: Seq<ClusterRankedHit>,
    n: nat,
    replies: Seq<Seq<FetchedMatch>>,
    i: int,
)
    requires
        hits.len() <= usize::MAX,
        0 <= i < hits.len(),
        hits[i].owner_position < n,
        replies.len() == fetch_groups(hits, n).len(),
    ensures
        source_at(fetch_groups(hits, n), replies, i) is Some,
    decreases n,
{
    let gs = fetch_groups(hits, n);
    let before = fetch_groups(hits, (n - 1) as nat);
    let rows = rows_of(hits, (n - 1) as nat);
    if hits[i].owner_position == n - 1 {
        lemma_row_found(hits, (n - 1) as nat, i, hits.len() as int);
        assert(hits.take(hits.len() as int) =~= hits);
        lemma_row_source(rows, replies.last(), i);
    } else if rows.len() == 0 {
        law_no_winner_is_omitted(hits, (n - 1) as nat, replies, i);
    } else {
        assert(gs.drop_last() =~= before);
        law_no_winner_is_omitted(hits, (n - 1) as nat, replies.drop_last(), i);
    }
}

proof fn lemma_row_found(hits: Seq<ClusterRankedHit>, position: nat, i: int, k: int)
    requires
        hits.len() <= usize::MAX,
        0 <= i < k <= hits.len(),
        hits[i].owner_position == position,
    ensures
        exists|j: int|
            0 <= j < rows_of(hits.take(k), position).len() && (#[trigger] rows_of(
                hits.take(k),
                position,
            )[j]).0 == i,
    decreases k,
{
    let t = hits.take(k);
    assert(t.drop_last() =~= hits.take(k - 1));
    let r = rows_of(t, position);
    if i == k - 1 {
        assert(r[r.len() - 1].0 == i);
    } else {
        lemma_row_found(hits, position, i, k - 1);
        let rd = rows_of(hits.take(k - 1), position);
        let j = choose|j: int| 0 <= j < rd.len() && (#[trigger] rd[j]).0 == i;
        assert(r[j].0 == i);
    }
}

proof fn lemma_row_source(rows: Seq<(usize, u64)>, reply: Seq<FetchedMatch>, i: int)
    requires
        exists|j: int| 0 <= j < rows.len() && (#[trigger] rows[j]).0 == i,
    ensures
        row_source(rows, reply, i) is Some,
    decreases rows.len(),
{
    let j = choose|j: int| 0 <= j < rows.len() && (#[trigger] rows[j]).0 == i;
    if rows.last().0 != i {
        assert(rows.drop_last()[j].0 == i);
        lemma_row_source(rows.drop_last(), reply, i);
    }
}

/// Each row of the plan asks a position for a winner that it owns, by its index and its id; the
/// positions ascend, and none is asked for nothing.
pub proof fn law_owners_are_asked_for_their_winners(
    hits: Seq<ClusterRankedHit>,
    n: nat,
    g: int,
    h: int,
    j: int,
)
    requires
        hits.len() <= usize::MAX,
        n <= u32::MAX + 1,
        0 <= g < fetch_groups(hits, n).len(),
    ensures
        fetch_groups(hits, n)[g].position < n,
        g < h < fetch_groups(hits, n).len() ==> fetch_groups(hits, n)[g].position < fetch_groups(
            hits,
            n,
        )[h].position,
        fetch_groups(hits, n)[g].rows.len() > 0,
        0 <= j < fetch_groups(hits, n)[g].rows.len() ==> {
            let r = fetch_groups(hits, n)[g].rows[j];
            &&& r.0 < hits.len()
            &&& hits[r.0 as int].owner_position == fetch_groups(hits, n)[g].position
            &&& hits[r.0 as int].logical_id == r.1
        },
        0 < j < fetch_groups(hits, n)[g].rows.len() ==> fetch_groups(hits, n)[g].rows[j - 1].0
            < fetch_groups(hits, n)[g].rows[j].0,
    decreases n,
{
    let gs = fetch_groups(hits, n);
    if n > 0 {
        let before = fetch_groups(hits, (n - 1) as nat);
        if g < before.len() {
            assert(gs[g] == before[g]);
            if g < h < before.len() {
                assert(gs[h] == before[h]);
            }
            law_owners_are_asked_for_their_winners(hits, (n - 1) as nat, g, h, j);
        } else {
            lemma_rows_of(hits, (n - 1) as nat);
            lemma_rows_rise(hits, (n - 1) as nat);
            if 0 <= j < gs[g].rows.len() {
                assert(gs[g].rows[j] == rows_of(hits, (n - 1) as nat)[j]);
            }
        }
    }
}

proof fn lemma_rows_rise(hits: Seq<ClusterRankedHit>, position: nat)
    requires
        hits.len() <= usize::MAX,
    ensures
        forall|j: int|
            0 < j < rows_of(hits, position).len() ==> rows_of(hits, position)[j - 1].0 < (
            #[trigger] rows_of(hits, position)[j]).0,
    decreases hits.len(),
{
    if hits.len() > 0 {
        let d = hits.drop_last();
        lemma_rows_rise(d, position);
        lemma_rows_of(d, position);
        let r = rows_of(hits, position);
        let rd = rows_of(d, position);
        assert forall|j: int| 0 < j < r.len() implies r[j - 1].0 < (#[trigger] r[j]).0 by {
            assert(r[j - 1] == rd[j - 1]);
            if j < rd.len() {
                assert(r[j] == rd[j]);
            }
        }
    }
}

/// Every winner whose owner is in range is asked for, from that owner.
pub proof fn law_every_winner_is_asked_for(hits: Seq<ClusterRankedHit>, n: nat, i: int)
    requires
        hits.len() <= usize::MAX,
        n <= u32::MAX + 1,
        0 <= i < hits.len(),
        hits[i].owner_position < n,
    ensures
        exists|g: int, j: int|
            #![trigger fetch_groups(hits, n)[g].rows[j]]
            0 <= g < fetch_groups(hits, n).len() && 0 <= j < fetch_groups(hits, n)[g].rows.len()
                && fetch_groups(hits, n)[g].position == hits[i].owner_position && fetch_groups(
                hits,
                n,
            )[g].rows[j] == (i as usize, hits[i].logical_id),
    decreases n,
{
    let gs = fetch_groups(hits, n);
    let before = fetch_groups(hits, (n - 1) as nat);
    let rows = rows_of(hits, (n - 1) as nat);
    if hits[i].owner_position == n - 1 {
        lemma_row_found(hits, (n - 1) as nat, i, hits.len() as int);
        assert(hits.take(hits.len() as int) =~= hits);
        let j = choose|j: int| 0 <= j < rows.len() && (#[trigger] rows[j]).0 == i;
        lemma_rows_of(hits, (n - 1) as nat);
        assert(gs[before.len() as int].rows[j] == rows[j]);
    } else {
        law_every_winner_is_asked_for(hits, (n - 1) as nat, i);
        let (g, j) = choose|g: int, j: int|
            #![trigger before[g].rows[j]]
            0 <= g < before.len() && 0 <= j < before[g].rows.len() && before[g].position
                == hits[i].owner_position && before[g].rows[j] == (i as usize, hits[i].logical_id);
        assert(gs[g].rows[j] == before[g].rows[j]);
    }
}

/// Winners can be fetched exactly where each names an owner in range and no id occurs twice.
pub proof fn law_only_sound_winners_are_fetched(hits: Seq<ClusterRankedHit>, num_shards: u32)
    ensures
        winner_fault(hits, num_shards) is None <==> {
            &&& forall|i: int|
                0 <= i < hits.len() ==> (#[trigger] hits[i]).owner_position < num_shards
            &&& forall|i: int, j: int|
                0 <= i < j < hits.len() ==> (#[trigger] hits[i]).logical_id != (
                #[trigger] hits[j]).logical_id
        },
    decreases hits.len(),
{
    if hits.len() > 0 {
        let d = hits.drop_last();
        let n = hits.len() - 1;
        law_only_sound_winners_are_fetched(d, num_shards);
        assert forall|i: int| 0 <= i < n implies hits[i] == #[trigger] d[i] by {}
        if winner_fault(hits, num_shards) is None {
            assert forall|i: int, j: int| 0 <= i < j < hits.len() implies (
            #[trigger] hits[i]).logical_id != (#[trigger] hits[j]).logical_id by {
                if j == n {
                    assert(winner_ids(d)[i] == hits[i].logical_id);
                } else {
                    assert(d[i].logical_id != d[j].logical_id);
                }
            }
            assert forall|i: int| 0 <= i < hits.len() implies (#[trigger] hits[i]).owner_position
                < num_shards by {
                if i < n {
                    assert(d[i].owner_position < num_shards);
                }
            }
        } else if winner_fault(d, num_shards) is Some {
            if exists|i: int| 0 <= i < d.len() && (#[trigger] d[i]).owner_position >= num_shards {
                let i = choose|i: int|
                    0 <= i < d.len() && (#[trigger] d[i]).owner_position >= num_shards;
                assert(hits[i].owner_position >= num_shards);
            } else {
                let (i, j) = choose|i: int, j: int|
                    0 <= i < j < d.len() && (#[trigger] d[i]).logical_id == (
                    #[trigger] d[j]).logical_id;
                assert(hits[i].logical_id == hits[j].logical_id);
            }
        } else if hits.last().owner_position < num_shards {
            let i = choose|i: int| 0 <= i < d.len() && winner_ids(d)[i] == hits.last().logical_id;
            assert(hits[i].logical_id == hits[n].logical_id);
        }
    }
}

/// A position's reply is accepted exactly where it has a row for each winner asked for, with its
/// id, in that order.
pub proof fn law_only_the_rows_asked_for_are_accepted(group: FetchView, rows: Seq<FetchedMatch>)
    ensures
        group_fault(group, rows) is None <==> rows.len() == group.rows.len() && forall|j: int|
            0 <= j < rows.len() ==> (#[trigger] rows[j]).logical_id == group.rows[j].1,
        group_fault(group, rows) matches Some(e) ==> (
        e matches RankedErrorView::InvalidShardReply { position, .. } && position
            == group.position),
{
    lemma_row_fault(group, rows, 0);
}

proof fn lemma_row_fault(group: FetchView, rows: Seq<FetchedMatch>, from: nat)
    ensures
        row_fault(group, rows, from) is None <==> forall|j: int|
            from <= j < rows.len() ==> (#[trigger] rows[j]).logical_id == group.rows[j].1,
        row_fault(group, rows, from) matches Some(e) ==> (
        e matches RankedErrorView::InvalidShardReply { position, .. } && position
            == group.position),
    decreases rows.len() - from,
{
    if from < rows.len() {
        lemma_row_fault(group, rows, from + 1);
        if row_fault(group, rows, from) is None {
            assert forall|j: int| from <= j < rows.len() implies (#[trigger] rows[j]).logical_id
                == group.rows[j].1 by {}
        }
    }
}

/// All replies are accepted exactly where each of them is.
pub proof fn law_every_reply_is_checked(groups: Seq<FetchView>, replies: Seq<Seq<FetchedMatch>>)
    requires
        groups.len() == replies.len(),
    ensures
        fetch_fault(groups, replies) is None <==> forall|g: int|
            0 <= g < groups.len() ==> group_fault(#[trigger] groups[g], replies[g]) is None,
    decreases groups.len(),
{
    if groups.len() > 0 {
        let d = groups.drop_last();
        let r = replies.drop_last();
        law_every_reply_is_checked(d, r);
        let n = groups.len() - 1;
        assert forall|g: int| 0 <= g < n implies groups[g] == #[trigger] d[g] && replies[g]
            == r[g] by {}
        if fetch_fault(groups, replies) is None {
            assert forall|g: int| 0 <= g < groups.len() implies group_fault(
                #[trigger] groups[g],
                replies[g],
            ) is None by {
                if g < n {
                    assert(group_fault(d[g], r[g]) is None);
                }
            }
        } else if fetch_fault(d, r) is Some {
            let g = choose|g: int| 0 <= g < d.len() && group_fault(#[trigger] d[g], r[g]) is Some;
            assert(group_fault(groups[g], replies[g]) is Some);
        } else {
            assert(group_fault(groups[n], replies[n]) is Some);
        }
    }
}

/// A winner's source is one that its owner sent under its id.
pub proof fn law_each_winner_gets_its_own_source(
    hits: Seq<ClusterRankedHit>,
    n: nat,
    replies: Seq<Seq<FetchedMatch>>,
    i: int,
)
    requires
        hits.len() <= usize::MAX,
        n <= u32::MAX + 1,
        0 <= i < hits.len(),
        hits[i].owner_position < n,
        replies.len() == fetch_groups(hits, n).len(),
        fetch_fault(fetch_groups(hits, n), replies) is None,
    ensures
        exists|g: int, j: int|
            #![trigger replies[g][j]]
            0 <= g < replies.len() && 0 <= j < replies[g].len() && fetch_groups(
                hits,
                n,
            )[g].position == hits[i].owner_position && replies[g][j].logical_id
                == hits[i].logical_id && source_at(fetch_groups(hits, n), replies, i) == Some(
                replies[g][j].source@,
            ),
{
    let gs = fetch_groups(hits, n);
    law_no_winner_is_omitted(hits, n, replies, i);
    lemma_source_at(gs, replies, i);
    let (g, j) = choose|g: int, j: int|
        #![trigger gs[g].rows[j]]
        0 <= g < gs.len() && 0 <= j < gs[g].rows.len() && gs[g].rows[j].0 == i && source_at(
            gs,
            replies,
            i,
        ) == Some(replies[g][j].source@);
    law_owners_are_asked_for_their_winners(hits, n, g, g, j);
    law_every_reply_is_checked(gs, replies);
    assert(group_fault(gs[g], replies[g]) is None);
    law_only_the_rows_asked_for_are_accepted(gs[g], replies[g]);
    assert(replies[g][j].logical_id == gs[g].rows[j].1);
}

proof fn lemma_source_at(groups: Seq<FetchView>, replies: Seq<Seq<FetchedMatch>>, i: int)
    requires
        groups.len() == replies.len(),
        source_at(groups, replies, i) is Some,
    ensures
        exists|g: int, j: int|
            #![trigger groups[g].rows[j]]
            0 <= g < groups.len() && 0 <= j < groups[g].rows.len() && groups[g].rows[j].0 == i
                && source_at(groups, replies, i) == Some(replies[g][j].source@),
    decreases groups.len(),
{
    let last = groups.len() - 1;
    if row_source(groups.last().rows, replies.last(), i) is Some {
        lemma_row_source_at(groups.last().rows, replies.last(), i);
        let rows = groups.last().rows;
        let j = choose|j: int|
            0 <= j < rows.len() && (#[trigger] rows[j]).0 == i && row_source(
                rows,
                replies.last(),
                i,
            ) == Some(replies.last()[j].source@);
        assert(groups[last].rows[j] == rows[j]);
    } else {
        let d = groups.drop_last();
        let r = replies.drop_last();
        lemma_source_at(d, r, i);
        let (g, j) = choose|g: int, j: int|
            #![trigger d[g].rows[j]]
            0 <= g < d.len() && 0 <= j < d[g].rows.len() && d[g].rows[j].0 == i && source_at(
                d,
                r,
                i,
            ) == Some(r[g][j].source@);
        assert(groups[g].rows[j] == d[g].rows[j]);
    }
}

proof fn lemma_row_source_at(rows: Seq<(usize, u64)>, reply: Seq<FetchedMatch>, i: int)
    requires
        row_source(rows, reply, i) is Some,
    ensures
        exists|j: int|
            0 <= j < rows.len() && (#[trigger] rows[j]).0 == i && row_source(rows, reply, i) == Some(
                reply[j].source@,
            ),
    decreases rows.len(),
{
    if rows.last().0 == i {
        assert(rows[rows.len() - 1].0 == i);
    } else {
        let d = rows.drop_last();
        lemma_row_source_at(d, reply, i);
        let j = choose|j: int|
            0 <= j < d.len() && (#[trigger] d[j]).0 == i && row_source(d, reply, i) == Some(
                reply[j].source@,
            );
        assert(rows[j] == d[j]);
    }
}

/// Winners are fetched only under the placement that they were collected under: the same generation
/// and the same number of shards.
pub proof fn law_only_the_same_placement_is_fetched_from(
    ranked_generation: PlacementGeneration,
    ranked_shards: u32,
    generation: PlacementGeneration,
    num_shards: u32,
)
    ensures
        placement_drifted(ranked_generation, ranked_shards, generation, num_shards) <==> !(
        ranked_generation.0 == generation.0 && ranked_shards == num_shards),
{
}

} // verus!
