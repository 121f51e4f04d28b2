use vstd::prelude::*;

use crate::models::{DuelResult, NewFractal, SubmitDetails};
use crate::store::StoreCommand;
use crate::MAX;

verus! {

/// Where a client is sent after a step of the rating.
#[derive(Clone, Copy, PartialEq, Eq, Debug)]
pub enum Next {
    /// Generate and rate a fresh fractal.
    Generate,
    /// Duel `candidate` again, bisecting the ranks from `high` to `low`.
    Rate { candidate: i64, high: i64, low: i64 },
    /// Show the ranking.
    Top,
}

/// The two fractals shown side by side in a duel, and the range of ranks
/// being bisected.
pub struct DuelSetup {
    pub aggressor: i64,
    pub defender: i64,
    pub high: i64,
    pub low: i64,
}

/// The table updates that settle one duel, and where the client goes next.
pub struct DuelPlan {
    pub commands: Vec<StoreCommand>,
    pub next: Next,
}

/// How far `offset_rank` parks the moved ranks before settling them, so that
/// no two rows hold the same rank in between.
pub open spec fn parking_distance(offset: i64) -> int {
    if MAX > MAX + offset {
        MAX as int
    } else {
        MAX + offset
    }
}

/// Whether every bound that `offset_rank` computes fits in `i64`.
pub open spec fn offset_rank_fits(min: i64, max: i64, offset: i64) -> bool {
    let d = parking_distance(offset);
    &&& MAX + offset <= i64::MAX
    &&& i64::MIN <= min + d <= i64::MAX
    &&& i64::MIN <= max + d <= i64::MAX
    &&& i64::MIN <= offset - d
}

/// The two shifts that move every rank from `min` to `max` by `offset`: out
/// to the parking range first, then back to their places.
pub open spec fn offset_rank_commands(min: i64, max: i64, offset: i64) -> Seq<StoreCommand> {
    let d = parking_distance(offset);
    seq![
        StoreCommand::ShiftRanks { lo: min, hi: max, delta: d as i64 },
        StoreCommand::ShiftRanks {
            lo: (min + d) as i64,
            hi: (max + d) as i64,
            delta: (offset - d) as i64,
        },
    ]
}

/// Moves all entries ranked from `min` to `max` by `offset` ranks.
pub fn offset_rank(min: i64, max: i64, offset: i64) -> (cs: Vec<StoreCommand>)
    requires
        offset_rank_fits(min, max, offset),
    ensures
        cs@ == offset_rank_commands(min, max, offset),
{
    let safe: i64 = if MAX > MAX + offset {
        MAX
    } else {
        MAX + offset
    };
    let mut cs: Vec<StoreCommand> = Vec::new();
    cs.push(StoreCommand::ShiftRanks { lo: min, hi: max, delta: safe });
    cs.push(StoreCommand::ShiftRanks { lo: min + safe, hi: max + safe, delta: offset - safe });
    assert(cs@ =~= offset_rank_commands(min, max, offset));
    cs
}

/// Rust's integer division by two, which rounds towards zero.
pub open spec fn half_toward_zero(s: int) -> int {
    if s >= 0 {
        s / 2
    } else {
        -((-s) / 2)
    }
}

/// The rank of the opponent of a candidate rated between `high` and `low`:
/// the middle of the range for a ranked candidate, the worst rank for a new one.
pub open spec fn opponent_rank_of(candidate_rank: Option<i64>, high: i64, low: i64) -> int {
    match candidate_rank {
        Some(_) => half_toward_zero(low + high),
        None => low as int,
    }
}

/// The rank of the fractal the candidate is compared with next.
pub fn opponent_rank(candidate_rank: Option<i64>, high: i64, low: i64) -> (r: i64)
    requires
        candidate_rank is Some ==> i64::MIN <= low + high <= i64::MAX,
    ensures
        r == opponent_rank_of(candidate_rank, high, low),
{
    match candidate_rank {
        Some(_) => {
            let s: i64 = low + high;
            if s >= 0 {
                s / 2
            } else {
                let t: i128 = -(s as i128);
                -((t / 2) as i64)
            }
        },
        None => low,
    }
}

/// The commands that take the candidate out of the ranking, move the ranks
/// from `min` to `max` by `offset` to free the place `pivot_rank` of its
/// pivot, put the candidate there, and unrank whatever falls below `MAX`.
pub open spec fn reinsertion(candidate: i64, pivot_rank: i64, min: i64, max: i64, offset: i64) -> Seq<
    StoreCommand,
> {
    seq![StoreCommand::SetRank { id: candidate, rank: None }] + offset_rank_commands(
        min,
        max,
        offset,
    ) + seq![
        StoreCommand::SetRank { id: candidate, rank: Some(pivot_rank) },
        StoreCommand::ClearRanksAbove { limit: MAX },
    ]
}

fn reinsert(candidate: i64, pivot_rank: i64, min: i64, max: i64, offset: i64) -> (cs: Vec<
    StoreCommand,
>)
    requires
        offset_rank_fits(min, max, offset),
    ensures
        cs@ == reinsertion(candidate, pivot_rank, min, max, offset),
{
    let mut cs: Vec<StoreCommand> = Vec::new();
    cs.push(StoreCommand::SetRank { id: candidate, rank: None });
    let mut moves = offset_rank(min, max, offset);
    cs.append(&mut moves);
    cs.push(StoreCommand::SetRank { id: candidate, rank: Some(pivot_rank) });
    cs.push(StoreCommand::ClearRanksAbove { limit: MAX });
    assert(cs@ =~= reinsertion(candidate, pivot_rank, min, max, offset));
    cs
}

/// A duel of a fractal against itself: it happens only while the ranking is
/// empty, and makes the fractal the first ranked one.
pub fn self_duel(duel: &DuelResult) -> (p: Option<DuelPlan>)
    ensures
        p is Some <==> duel.pivot == duel.candidate,
        p matches Some(p) ==> p.commands@ == seq![
            StoreCommand::SetRank { id: duel.candidate, rank: Some(1) },
        ] && p.next == Next::Generate,
{
    if duel.pivot == duel.candidate {
        let mut cs: Vec<StoreCommand> = Vec::new();
        cs.push(StoreCommand::SetRank { id: duel.candidate, rank: Some(1) });
        assert(cs@ =~= seq![StoreCommand::SetRank { id: duel.candidate, rank: Some(1) }]);
        Some(DuelPlan { commands: cs, next: Next::Generate })
    } else {
        None
    }
}

pub open spec fn rank_or(rank: Option<i64>, default: int) -> int {
    match rank {
        Some(r) => r as int,
        None => default,
    }
}

/// Whether the candidate that lost against its pivot leaves the table: when
/// the pivot is last in the ranking, or the candidate has never been ranked.
pub open spec fn below_removes(pivot_rank: Option<i64>, candidate_rank: Option<i64>) -> bool {
    rank_or(pivot_rank, 1) == MAX || rank_or(candidate_rank, MAX + 1) == MAX + 1
}

/// Whether every number that `below_plan` computes fits in `i64`.
pub open spec fn below_fits(pivot_rank: Option<i64>, candidate_rank: Option<i64>) -> bool {
    let pr = rank_or(pivot_rank, 1);
    let cr = rank_or(candidate_rank, MAX + 1);
    !below_removes(pivot_rank, candidate_rank) ==> {
        &&& pr + 1 <= i64::MAX
        &&& pr > cr ==> offset_rank_fits(cr as i64, pr as i64, -1i64)
    }
}

/// The table updates after the candidate lost against its pivot: it leaves
/// the table when `below_removes`; when it ranked above its pivot, it takes
/// the pivot's place, and the fractals from just below it down to the pivot
/// move one place up.
pub open spec fn below_commands(duel: DuelResult, pivot_rank: Option<i64>, candidate_rank: Option<i64>) -> Seq<
    StoreCommand,
> {
    let pr = rank_or(pivot_rank, 1);
    let cr = rank_or(candidate_rank, MAX + 1);
    if below_removes(pivot_rank, candidate_rank) {
        seq![StoreCommand::Remove { id: duel.candidate }]
    } else if pr > cr {
        reinsertion(duel.candidate, pr as i64, cr as i64, pr as i64, -1i64)
    } else {
        seq![]
    }
}

/// Where the client goes after the candidate lost against its pivot: the
/// bisection goes on below the pivot, until the range is empty.
pub open spec fn below_next(duel: DuelResult, pivot_rank: Option<i64>, candidate_rank: Option<i64>) -> Next {
    let high = rank_or(pivot_rank, 1) + 1;
    if below_removes(pivot_rank, candidate_rank) || high == duel.low {
        Next::Generate
    } else {
        Next::Rate { candidate: duel.candidate, high: high as i64, low: duel.low }
    }
}

/// Settles a duel that the candidate lost, given the ranks that the pivot
/// and the candidate hold.
pub fn below_plan(duel: &DuelResult, pivot_rank: Option<i64>, candidate_rank: Option<i64>) -> (p:
    DuelPlan)
    requires
        below_fits(pivot_rank, candidate_rank),
    ensures
        p.commands@ == below_commands(*duel, pivot_rank, candidate_rank),
        p.next == below_next(*duel, pivot_rank, candidate_rank),
{
    let pr: i64 = match pivot_rank {
        Some(r) => r,
        None => 1,
    };
    let cr: i64 = match candidate_rank {
        Some(r) => r,
        None => MAX + 1,
    };
    if pr == MAX || cr == MAX + 1 {
        let mut cs: Vec<StoreCommand> = Vec::new();
        cs.push(StoreCommand::Remove { id: duel.candidate });
        assert(cs@ =~= seq![StoreCommand::Remove { id: duel.candidate }]);
        return DuelPlan { commands: cs, next: Next::Generate };
    }
    let cs = if pr > cr {
        reinsert(duel.candidate, pr, cr, pr, -1)
    } else {
        let cs: Vec<StoreCommand> = Vec::new();
        assert(cs@ =~= Seq::<StoreCommand>::empty());
        cs
    };
    let high = pr + 1;
    let next = if high == duel.low {
        Next::Generate
    } else {
        Next::Rate { candidate: duel.candidate, high, low: duel.low }
    };
    DuelPlan { commands: cs, next }
}

/// Whether every number that `above_plan` computes fits in `i64`.
pub open spec fn above_fits(pivot_rank: i64, candidate_rank: Option<i64>) -> bool {
    let cr = rank_or(candidate_rank, MAX + 1);
    pivot_rank < cr ==> offset_rank_fits(pivot_rank, cr as i64, 1)
}

/// The table updates after the candidate won against its pivot.
pub open spec fn above_commands(duel: DuelResult, pivot_rank: i64, candidate_rank: Option<i64>) -> Seq<
    StoreCommand,
> {
    let cr = rank_or(candidate_rank, MAX + 1);
    if pivot_rank < cr {
        reinsertion(duel.candidate, pivot_rank, pivot_rank, cr as i64, 1)
    } else {
        seq![]
    }
}

/// Where the client goes after the candidate won against its pivot: the
/// bisection goes on above the pivot, until the range is empty.
pub open spec fn above_next(duel: DuelResult, pivot_rank: i64) -> Next {
    if duel.high == pivot_rank {
        Next::Generate
    } else {
        Next::Rate { candidate: duel.candidate, high: duel.high, low: pivot_rank }
    }
}

/// Settles a duel that the candidate won, given the ranks that the pivot and
/// the candidate hold.
pub fn above_plan(duel: &DuelResult, pivot_rank: i64, candidate_rank: Option<i64>) -> (p: DuelPlan)
    requires
        above_fits(pivot_rank, candidate_rank),
    ensures
        p.commands@ == above_commands(*duel, pivot_rank, candidate_rank),
        p.next == above_next(*duel, pivot_rank),
{
    let cr: i64 = match candidate_rank {
        Some(r) => r,
        None => MAX + 1,
    };
    let cs = if pivot_rank < cr {
        reinsert(duel.candidate, pivot_rank, pivot_rank, cr, 1)
    } else {
        let cs: Vec<StoreCommand> = Vec::new();
        assert(cs@ =~= Seq::<StoreCommand>::empty());
        cs
    };
    let low = pivot_rank;
    let next = if duel.high == low {
        Next::Generate
    } else {
        Next::Rate { candidate: duel.candidate, high: duel.high, low }
    };
    DuelPlan { commands: cs, next }
}

/// The table updates that follow the consumption of the best fractal: the
/// ranks from 2 to `max_rank` (1 when nothing is ranked) move up by one.
pub open spec fn consume_followup_commands(max_rank: Option<i64>) -> Seq<StoreCommand> {
    offset_rank_commands(2, rank_or(max_rank, 1) as i64, -1i64)
}

pub fn consume_followup(max_rank: Option<i64>) -> (cs: Vec<StoreCommand>)
    requires
        rank_or(max_rank, 1) <= i64::MAX - MAX,
    ensures
        cs@ == consume_followup_commands(max_rank),
{
    let m: i64 = match max_rank {
        Some(r) => r,
        None => 1,
    };
    offset_rank(2, m, -1)
}

/// The table updates that move the fractal `id`, ranked `rank`, to the
/// trash at `time`: the ranks below it move up by one.
pub open spec fn delete_commands(id: i64, rank: i64, time: i64) -> Seq<StoreCommand> {
    seq![StoreCommand::MarkDeleted { id: id, time: time }] + offset_rank_commands(rank, MAX, -1i64)
}

pub fn delete_plan(id: i64, rank: i64, time: i64) -> (cs: Vec<StoreCommand>)
    requires
        rank <= i64::MAX - MAX,
    ensures
        cs@ == delete_commands(id, rank, time),
{
    let mut cs: Vec<StoreCommand> = Vec::new();
    cs.push(StoreCommand::MarkDeleted { id, time });
    let mut moves = offset_rank(rank, MAX, -1);
    cs.append(&mut moves);
    assert(cs@ =~= delete_commands(id, rank, time));
    cs
}

/// The rows to insert for a submitted fractal: into an empty ranking it first
/// goes ranked 1, then it always goes in once more unranked, to be rated.
pub open spec fn insertions(json: Seq<char>, ranking_empty: bool) -> Seq<(Seq<char>, Option<i64>)> {
    if ranking_empty {
        seq![(json, Some(1i64)), (json, None::<i64>)]
    } else {
        seq![(json, None::<i64>)]
    }
}

pub open spec fn new_fractal_view(f: NewFractal) -> (Seq<char>, Option<i64>) {
    (f.json@, f.rank)
}

pub fn fractals_to_insert(json: &String, ranking_empty: bool) -> (v: Vec<NewFractal>)
    ensures
        v@.map_values(|f: NewFractal| new_fractal_view(f)) == insertions(json@, ranking_empty),
{
    let mut v: Vec<NewFractal> = Vec::new();
    if ranking_empty {
        v.push(NewFractal { json: json.clone(), rank: Some(1) });
    }
    v.push(NewFractal { json: json.clone(), rank: None });
    assert(v@.map_values(|f: NewFractal| new_fractal_view(f)) =~= insertions(json@, ranking_empty));
    v
}

/// The details reported for the submitted fractal `id`: it is rated between
/// the best and the worst rank in the table (1 when nothing is ranked).
pub fn submit_details(id: i64, min_rank: Option<i64>, max_rank: Option<i64>) -> (d: SubmitDetails)
    ensures
        d.id == id,
        d.high == rank_or(min_rank, 1),
        d.low == rank_or(max_rank, 1),
{
    let high: i64 = match min_rank {
        Some(r) => r,
        None => 1,
    };
    let low: i64 = match max_rank {
        Some(r) => r,
        None => 1,
    };
    SubmitDetails { id, low, high }
}

} // verus!
