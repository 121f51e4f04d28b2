use vstd::prelude::*;

use crate::models::{DuelResult, Fractal, SubmitDetails};
use crate::ranking::{
    above_commands, above_fits, above_next, above_plan, below_commands, below_fits, below_next,
    below_plan, consume_followup, consume_followup_commands, delete_commands, delete_plan,
    offset_rank_commands, offset_rank_fits, opponent_rank, opponent_rank_of, parking_distance, rank_or,
    self_duel, submit_details, DuelSetup, Next,
};
use crate::store::{
    apply_command, apply_commands, command_fits, commands_fit, lemma_commands_append, FractalStore,
    StoreCommand,
};
use crate::MAX;

verus! {

/// The first row, in table order, that satisfies `p`.
pub open spec fn first_match(rows: Seq<Fractal>, p: spec_fn(Fractal) -> bool) -> Option<Fractal>
    decreases rows.len(),
{
    if rows.len() == 0 {
        None
    } else if p(rows[0]) {
        Some(rows[0])
    } else {
        first_match(rows.drop_first(), p)
    }
}

/// The row with id `id`.
pub open spec fn find_row(rows: Seq<Fractal>, id: i64) -> Option<Fractal> {
    first_match(rows, |f: Fractal| f.id == id)
}

/// The first row ranked `rank`.
pub open spec fn find_ranked(rows: Seq<Fractal>, rank: i64) -> Option<Fractal> {
    first_match(rows, |f: Fractal| f.rank == Some(rank))
}

/// The rank of the row `id`, when there is such a row.
pub open spec fn rank_of(rows: Seq<Fractal>, id: i64) -> Option<Option<i64>> {
    match find_row(rows, id) {
        Some(f) => Some(f.rank),
        None => None,
    }
}

pub open spec fn max_opt(a: Option<i64>, b: Option<i64>) -> Option<i64> {
    match (a, b) {
        (Some(x), Some(y)) => Some(if x >= y { x } else { y }),
        (Some(x), None) => Some(x),
        (None, _) => b,
    }
}

pub open spec fn min_opt(a: Option<i64>, b: Option<i64>) -> Option<i64> {
    match (a, b) {
        (Some(x), Some(y)) => Some(if x <= y { x } else { y }),
        (Some(x), None) => Some(x),
        (None, _) => b,
    }
}

/// The worst (largest) rank in the table.
pub open spec fn max_rank(rows: Seq<Fractal>) -> Option<i64>
    decreases rows.len(),
{
    if rows.len() == 0 {
        None
    } else {
        max_opt(max_rank(rows.drop_last()), rows.last().rank)
    }
}

/// The best (smallest) rank in the table.
pub open spec fn min_rank(rows: Seq<Fractal>) -> Option<i64>
    decreases rows.len(),
{
    if rows.len() == 0 {
        None
    } else {
        min_opt(min_rank(rows.drop_last()), rows.last().rank)
    }
}

/// The largest id in the table.
pub open spec fn max_id(rows: Seq<Fractal>) -> Option<i64>
    decreases rows.len(),
{
    if rows.len() == 0 {
        None
    } else {
        max_opt(max_id(rows.drop_last()), Some(rows.last().id))
    }
}

/// The id that the next inserted row receives.
pub open spec fn next_id(rows: Seq<Fractal>) -> int {
    match max_id(rows) {
        Some(m) => m + 1,
        None => 1,
    }
}

/// A ranked fractal that has not been consumed yet.
pub open spec fn consumable(f: Fractal) -> bool {
    &&& f.rank matches Some(r) && r > 0
    &&& !f.consumed
}

/// The best ranked consumable fractal, the first in table order among equals.
pub open spec fn best_consumable(rows: Seq<Fractal>) -> Option<Fractal>
    decreases rows.len(),
{
    if rows.len() == 0 {
        None
    } else {
        let f = rows.last();
        match best_consumable(rows.drop_last()) {
            None => if consumable(f) {
                Some(f)
            } else {
                None
            },
            Some(b) => if consumable(f) && f.rank.unwrap() < b.rank.unwrap() {
                Some(f)
            } else {
                Some(b)
            },
        }
    }
}

/// Whether `f` holds a rank of at most `limit`.
pub open spec fn ranked_at_most(f: Fractal, limit: int) -> bool {
    match f.rank {
        Some(r) => r <= limit,
        None => false,
    }
}

/// Whether some fractal holds a rank of at most `MAX`.
pub open spec fn has_ranking(rows: Seq<Fractal>) -> bool {
    exists|i: int| 0 <= i < rows.len() && #[trigger] ranked_at_most(rows[i], MAX as int)
}

/// Whether `f` is the row that inserting `json` with `rank` at time `now`
/// adds to a table holding `rows`.
pub open spec fn is_inserted_row(
    f: Fractal,
    rows: Seq<Fractal>,
    json: Seq<char>,
    rank: Option<i64>,
    now: i64,
) -> bool {
    &&& f.id == next_id(rows)
    &&& f.created_time == now
    &&& f.json@ == json
    &&& !f.consumed
    &&& f.consumed_time is None
    &&& !f.deleted
    &&& f.deleted_time is None
    &&& f.rank == rank
}

proof fn lemma_first_match_step(rows: Seq<Fractal>, p: spec_fn(Fractal) -> bool, i: int)
    requires
        0 <= i < rows.len(),
    ensures
        first_match(rows.skip(i), p) == if p(rows[i]) {
            Some(rows[i])
        } else {
            first_match(rows.skip(i + 1), p)
        },
{
    assert(rows.skip(i)[0] == rows[i]);
    assert(rows.skip(i).drop_first() =~= rows.skip(i + 1));
}

impl FractalStore {
    /// Index of the row with id `id`.
    fn position_of(&self, id: i64) -> (r: Option<usize>)
        ensures
            match r {
                Some(i) => i < self@.len() && find_row(self@, id) == Some(self@[i as int]),
                None => find_row(self@, id) is None,
            },
    {
        let rows = self.rows();
        let ghost p = |f: Fractal| f.id == id;
        assert(rows@.skip(0) =~= rows@);
        let mut i: usize = 0;
        while i < rows.len()
            invariant
                i <= rows@.len(),
                rows@ == self@,
                p == (|f: Fractal| f.id == id),
                first_match(rows@.skip(i as int), p) == find_row(self@, id),
            decreases rows.len() - i,
        {
            proof {
                lemma_first_match_step(rows@, p, i as int);
            }
            if rows[i].id == id {
                return Some(i);
            }
            i = i + 1;
        }
        assert(rows@.skip(i as int).len() == 0);
        None
    }

    /// Index of the first row ranked `rank`.
    fn position_ranked(&self, rank: i64) -> (r: Option<usize>)
        ensures
            match r {
                Some(i) => i < self@.len() && find_ranked(self@, rank) == Some(self@[i as int]),
                None => find_ranked(self@, rank) is None,
            },
    {
        let rows = self.rows();
        let ghost p = |f: Fractal| f.rank == Some(rank);
        assert(rows@.skip(0) =~= rows@);
        let mut i: usize = 0;
        while i < rows.len()
            invariant
                i <= rows@.len(),
                rows@ == self@,
                p == (|f: Fractal| f.rank == Some(rank)),
                first_match(rows@.skip(i as int), p) == find_ranked(self@, rank),
            decreases rows.len() - i,
        {
            proof {
                lemma_first_match_step(rows@, p, i as int);
            }
            if rows[i].rank == Some(rank) {
                return Some(i);
            }
            i = i + 1;
        }
        assert(rows@.skip(i as int).len() == 0);
        None
    }

    /// The rank of the row `id`, when there is such a row.
    pub fn rank_of(&self, id: i64) -> (r: Option<Option<i64>>)
        ensures
            r == rank_of(self@, id),
    {
        match self.position_of(id) {
            Some(i) => Some(self.rows()[i].rank),
            None => None,
        }
    }

    /// The worst and the best rank in the table.
    pub fn rank_extremes(&self) -> (r: (Option<i64>, Option<i64>))
        ensures
            r == (min_rank(self@), max_rank(self@)),
    {
        let rows = self.rows();
        let mut lo: Option<i64> = None;
        let mut hi: Option<i64> = None;
        for i in 0..rows.len()
            invariant
                rows@ == self@,
                lo == min_rank(rows@.take(i as int)),
                hi == max_rank(rows@.take(i as int)),
        {
            assert(rows@.take(i + 1).drop_last() =~= rows@.take(i as int));
            let r = rows[i].rank;
            lo = match (lo, r) {
                (Some(x), Some(y)) => Some(if x <= y { x } else { y }),
                (Some(x), None) => Some(x),
                (None, _) => r,
            };
            hi = match (hi, r) {
                (Some(x), Some(y)) => Some(if x >= y { x } else { y }),
                (Some(x), None) => Some(x),
                (None, _) => r,
            };
        }
        assert(rows@.take(rows@.len() as int) =~= rows@);
        (lo, hi)
    }

    /// Index of the best ranked consumable fractal.
    fn position_best_consumable(&self) -> (r: Option<usize>)
        ensures
            match r {
                Some(i) => i < self@.len() && best_consumable(self@) == Some(self@[i as int]),
                None => best_consumable(self@) is None,
            },
    {
        let rows = self.rows();
        let mut best: Option<usize> = None;
        for i in 0..rows.len()
            invariant
                rows@ == self@,
                match best {
                    Some(b) => b < i && best_consumable(rows@.take(i as int)) == Some(rows@[b as int])
                        && consumable(rows@[b as int]),
                    None => best_consumable(rows@.take(i as int)) is None,
                },
        {
            assert(rows@.take(i + 1).drop_last() =~= rows@.take(i as int));
            assert(rows@.take(i + 1).last() == rows@[i as int]);
            let f = &rows[i];
            let ok = match f.rank {
                Some(r) => r > 0 && !f.consumed,
                None => false,
            };
            match best {
                None => {
                    if ok {
                        best = Some(i);
                    }
                },
                Some(b) => {
                    if ok && f.rank.unwrap() < rows[b].rank.unwrap() {
                        best = Some(i);
                    }
                },
            }
        }
        assert(rows@.take(rows@.len() as int) =~= rows@);
        best
    }

    /// Whether some fractal holds a rank of at most `MAX`.
    pub fn has_ranking(&self) -> (b: bool)
        ensures
            b == has_ranking(self@),
    {
        let rows = self.rows();
        for i in 0..rows.len()
            invariant
                rows@ == self@,
                forall|j: int| 0 <= j < i ==> !#[trigger] ranked_at_most(rows@[j], MAX as int),
        {
            if let Some(r) = rows[i].rank {
                if r <= MAX {
                    assert(ranked_at_most(rows@[i as int], MAX as int));
                    return true;
                }
            }
        }
        false
    }

    fn max_id(&self) -> (r: Option<i64>)
        ensures
            r == max_id(self@),
    {
        let rows = self.rows();
        let mut m: Option<i64> = None;
        for i in 0..rows.len()
            invariant
                rows@ == self@,
                m == max_id(rows@.take(i as int)),
        {
            assert(rows@.take(i + 1).drop_last() =~= rows@.take(i as int));
            let id = rows[i].id;
            m = match m {
                Some(x) => Some(if x >= id { x } else { id }),
                None => Some(id),
            };
        }
        assert(rows@.take(rows@.len() as int) =~= rows@);
        m
    }
}

/// Whether `after` is `rows` with the fractal `json` added at time `now`:
/// into an empty ranking it first goes ranked 1, then it goes in once more
/// unranked.
pub open spec fn fractal_added(rows: Seq<Fractal>, after: Seq<Fractal>, json: Seq<char>, now: i64) -> bool {
    if has_ranking(rows) {
        &&& after.len() == rows.len() + 1
        &&& after.drop_last() == rows
        &&& is_inserted_row(after.last(), rows, json, None, now)
    } else {
        &&& after.len() == rows.len() + 2
        &&& after.drop_last().drop_last() == rows
        &&& is_inserted_row(after.drop_last().last(), rows, json, Some(1), now)
        &&& is_inserted_row(after.last(), after.drop_last(), json, None, now)
    }
}

/// Whether `below` can settle `duel` on `rows` without leaving `i64`.
pub open spec fn below_fits_rows(rows: Seq<Fractal>, duel: DuelResult) -> bool {
    duel.pivot != duel.candidate && rank_of(rows, duel.pivot) is Some && rank_of(rows, duel.candidate)
        is Some ==> {
        let pr = rank_of(rows, duel.pivot).unwrap();
        let cr = rank_of(rows, duel.candidate).unwrap();
        &&& below_fits(pr, cr)
        &&& commands_fit(rows, below_commands(duel, pr, cr))
    }
}

/// Whether `above` can settle `duel` on `rows` without leaving `i64`.
pub open spec fn above_fits_rows(rows: Seq<Fractal>, duel: DuelResult) -> bool {
    duel.pivot != duel.candidate && (rank_of(rows, duel.pivot) matches Some(Some(_))) && rank_of(
        rows,
        duel.candidate,
    ) is Some ==> {
        let cr = rank_of(rows, duel.candidate).unwrap();
        &&& above_fits(rank_of(rows, duel.pivot).unwrap().unwrap(), cr)
        &&& commands_fit(rows, above_commands(duel, rank_of(rows, duel.pivot).unwrap().unwrap(), cr))
    }
}

/// The rows after the cleanup that starts a consumption.
pub open spec fn cleaned(rows: Seq<Fractal>) -> Seq<Fractal> {
    apply_command(rows, StoreCommand::RemoveUnranked)
}

/// The rows once `f` is marked consumed at `now`, before the ranks move up.
pub open spec fn consumed_rows(rows: Seq<Fractal>, f: Fractal, now: i64) -> Seq<Fractal> {
    apply_command(cleaned(rows), StoreCommand::MarkConsumed { id: f.id, time: now })
}

proof fn lemma_shift_fits(rows: Seq<Fractal>, lo: i64, hi: i64, delta: i64)
    requires
        i64::MIN <= lo + delta,
        hi + delta <= i64::MAX,
    ensures
        command_fits_shift(rows, lo, hi, delta),
{
}

pub open spec fn command_fits_shift(rows: Seq<Fractal>, lo: i64, hi: i64, delta: i64) -> bool {
    command_fits(rows, StoreCommand::ShiftRanks { lo: lo, hi: hi, delta: delta })
}

/// The two shifts of `offset_rank` fit in `i64` on any table whose moved
/// ranks stay within `i64`.
proof fn lemma_offset_rank_fits(rows: Seq<Fractal>, min: i64, max: i64, offset: i64)
    requires
        offset_rank_fits(min, max, offset),
        i64::MIN <= min + offset,
        max + offset <= i64::MAX,
        i64::MIN <= min + parking_distance(offset),
        max + parking_distance(offset) <= i64::MAX,
    ensures
        commands_fit(rows, offset_rank_commands(min, max, offset)),
{
    let cs = offset_rank_commands(min, max, offset);
    let d = parking_distance(offset);
    lemma_shift_fits(rows, min, max, d as i64);
    lemma_shift_fits(apply_command(rows, cs[0]), (min + d) as i64, (max + d) as i64, (offset - d) as i64);
    assert(cs.drop_last().drop_last() =~= Seq::<StoreCommand>::empty());
    assert(cs.drop_last() =~= seq![cs[0]]);
    reveal_with_fuel(commands_fit, 3);
    reveal_with_fuel(apply_commands, 3);
}

proof fn lemma_next_id_after_insert(rows: Seq<Fractal>, after: Seq<Fractal>)
    requires
        after.len() == rows.len() + 1,
        after.drop_last() == rows,
        after.last().id == next_id(rows),
    ensures
        next_id(after) == next_id(rows) + 1,
{
}

impl FractalStore {
    /// Inserts `json` with `rank`, created at `now`, under the next free id.
    pub fn insert(&mut self, json: String, rank: Option<i64>, now: i64) -> (id: i64)
        requires
            next_id(old(self)@) <= i64::MAX,
        ensures
            id == next_id(old(self)@),
            final(self)@.len() == old(self)@.len() + 1,
            final(self)@.drop_last() == old(self)@,
            is_inserted_row(final(self)@.last(), old(self)@, json@, rank, now),
    {
        let id: i64 = match self.max_id() {
            Some(m) => m + 1,
            None => 1,
        };
        let f = Fractal {
            id,
            created_time: now,
            json,
            consumed: false,
            consumed_time: None,
            deleted: false,
            deleted_time: None,
            rank,
        };
        self.push_row(f);
        assert(self@.drop_last() =~= old(self)@);
        id
    }

    /// Moves all entries ranked from `min` to `max` by `offset` ranks, through
    /// the parking range (see `lemma_offset_rank_moves_range`).
    pub fn offset_rank(&mut self, min: i64, max: i64, offset: i64)
        requires
            offset_rank_fits(min, max, offset),
            commands_fit(old(self)@, offset_rank_commands(min, max, offset)),
        ensures
            final(self)@ == apply_commands(old(self)@, offset_rank_commands(min, max, offset)),
    {
        let cs = crate::ranking::offset_rank(min, max, offset);
        self.apply_all(&cs);
    }

    /// Sets up the next duel of the candidate `id`, rated between the ranks
    /// `high` and `low`: against the fractal in the middle of the range, or
    /// against the worst ranked one while the candidate is unranked. The
    /// candidate and its opponent must exist.
    pub fn rate(&self, id: i64, high: i64, low: i64) -> (r: DuelSetup)
        requires
            rank_of(self@, id) is Some,
            rank_of(self@, id) matches Some(Some(_)) ==> i64::MIN <= low + high <= i64::MAX,
            find_ranked(self@, opponent_rank_of(rank_of(self@, id).unwrap(), high, low) as i64) is Some,
        ensures
            r == (DuelSetup {
                aggressor: id,
                defender: find_ranked(
                    self@,
                    opponent_rank_of(rank_of(self@, id).unwrap(), high, low) as i64,
                ).unwrap().id,
                high: high,
                low: low,
            }),
    {
        let candidate_rank = self.rank_of(id).unwrap();
        let opponent = opponent_rank(candidate_rank, high, low);
        let i = self.position_ranked(opponent).unwrap();
        DuelSetup { aggressor: id, defender: self.rows()[i].id, high, low }
    }

    /// Settles a duel that the candidate lost against its pivot; returns where
    /// the client goes next. The pivot and the candidate must exist.
    pub fn below(&mut self, duel: &DuelResult) -> (r: Next)
        requires
            duel.pivot != duel.candidate ==> rank_of(old(self)@, duel.pivot) is Some && rank_of(
                old(self)@,
                duel.candidate,
            ) is Some,
            below_fits_rows(old(self)@, *duel),
        ensures
            if duel.pivot == duel.candidate {
                &&& r == Next::Generate
                &&& final(self)@ == apply_command(
                    old(self)@,
                    StoreCommand::SetRank { id: duel.candidate, rank: Some(1) },
                )
            } else {
                let pr = rank_of(old(self)@, duel.pivot).unwrap();
                let cr = rank_of(old(self)@, duel.candidate).unwrap();
                &&& r == below_next(*duel, pr, cr)
                &&& final(self)@ == apply_commands(old(self)@, below_commands(*duel, pr, cr))
            },
    {
        if let Some(plan) = self_duel(duel) {
            self.apply(plan.commands[0]);
            return plan.next;
        }
        let pivot_rank = self.rank_of(duel.pivot).unwrap();
        let candidate_rank = self.rank_of(duel.candidate).unwrap();
        let plan = below_plan(duel, pivot_rank, candidate_rank);
        self.apply_all(&plan.commands);
        plan.next
    }

    /// Settles a duel that the candidate won against its pivot; returns where
    /// the client goes next. The pivot must exist and be ranked, and the
    /// candidate must exist.
    pub fn above(&mut self, duel: &DuelResult) -> (r: Next)
        requires
            duel.pivot != duel.candidate ==> (rank_of(old(self)@, duel.pivot) matches Some(Some(_)))
                && rank_of(old(self)@, duel.candidate) is Some,
            above_fits_rows(old(self)@, *duel),
        ensures
            if duel.pivot == duel.candidate {
                &&& r == Next::Generate
                &&& final(self)@ == apply_command(
                    old(self)@,
                    StoreCommand::SetRank { id: duel.candidate, rank: Some(1) },
                )
            } else {
                let pr = rank_of(old(self)@, duel.pivot).unwrap().unwrap();
                let cr = rank_of(old(self)@, duel.candidate).unwrap();
                &&& r == above_next(*duel, pr)
                &&& final(self)@ == apply_commands(old(self)@, above_commands(*duel, pr, cr))
            },
    {
        if let Some(plan) = self_duel(duel) {
            self.apply(plan.commands[0]);
            return plan.next;
        }
        let pivot_rank = self.rank_of(duel.pivot).unwrap().unwrap();
        let candidate_rank = self.rank_of(duel.candidate).unwrap();
        let plan = above_plan(duel, pivot_rank, candidate_rank);
        self.apply_all(&plan.commands);
        plan.next
    }

    /// Removes the fractals that are neither consumed, deleted nor ranked.
    pub fn cleanup(&mut self)
        ensures
            final(self)@ == cleaned(old(self)@),
    {
        self.apply(StoreCommand::RemoveUnranked);
    }

    /// Consumes the best ranked fractal at time `now`, after a cleanup: it is
    /// marked consumed and unranked, and the ranks from 2 down move up by one.
    /// Returns its json. Some fractal must be left to consume.
    pub fn consume(&mut self, now: i64) -> (r: String)
        requires
            best_consumable(cleaned(old(self)@)) is Some,
            rank_or(
                max_rank(consumed_rows(old(self)@, best_consumable(cleaned(old(self)@)).unwrap(), now)),
                1,
            ) <= i64::MAX - MAX,
        ensures
            ({
                let f = best_consumable(cleaned(old(self)@)).unwrap();
                let marked = consumed_rows(old(self)@, f, now);
                &&& r@ == f.json@
                &&& final(self)@ == apply_commands(marked, consume_followup_commands(max_rank(marked)))
            }),
    {
        self.cleanup();
        let i = self.position_best_consumable().unwrap();
        let id = self.rows()[i].id;
        let json = self.rows()[i].json.clone();
        self.apply(StoreCommand::MarkConsumed { id, time: now });
        let (_, max_rank) = self.rank_extremes();
        let cs = consume_followup(max_rank);
        proof {
            let m = rank_or(max_rank, 1) as i64;
            lemma_offset_rank_fits(self@, 2, m, -1i64);
        }
        self.apply_all(&cs);
        json
    }

    /// Moves the ranked fractal `id` to the trash at time `now`: it is marked
    /// deleted and unranked, and the ranks below it move up by one.
    pub fn delete(&mut self, id: i64, now: i64) -> (r: Next)
        requires
            rank_of(old(self)@, id) matches Some(Some(rank)) && i64::MIN < rank <= i64::MAX - MAX,
        ensures
            r == Next::Top,
            final(self)@ == apply_commands(
                old(self)@,
                delete_commands(id, rank_of(old(self)@, id).unwrap().unwrap(), now),
            ),
    {
        let rank = self.rank_of(id).unwrap().unwrap();
        let cs = delete_plan(id, rank, now);
        proof {
            let marked = apply_command(self@, StoreCommand::MarkDeleted { id: id, time: now });
            lemma_offset_rank_fits(marked, rank, MAX, -1i64);
            let first = seq![StoreCommand::MarkDeleted { id: id, time: now }];
            reveal_with_fuel(commands_fit, 2);
            reveal_with_fuel(apply_commands, 2);
            assert(first.drop_last() =~= Seq::<StoreCommand>::empty());
            assert(apply_commands(self@, first) == marked);
            lemma_commands_append(self@, first, offset_rank_commands(rank, MAX, -1i64));
        }
        self.apply_all(&cs);
        Next::Top
    }

    /// Adds a submitted fractal to the table, to be rated: into an empty
    /// ranking it first goes ranked 1, then it goes in once more unranked.
    /// Reports the id of the row inserted last and the range of ranks to rate
    /// it in.
    pub fn add_fractal(&mut self, json: &String, now: i64) -> (d: SubmitDetails)
        requires
            next_id(old(self)@) < i64::MAX,
        ensures
            fractal_added(old(self)@, final(self)@, json@, now),
            d.id == final(self)@.last().id,
            d.high == rank_or(min_rank(final(self)@), 1),
            d.low == rank_or(max_rank(final(self)@), 1),
    {
        if !self.has_ranking() {
            self.insert(json.clone(), Some(1), now);
            proof {
                lemma_next_id_after_insert(old(self)@, self@);
            }
        }
        let id = self.insert(json.clone(), None, now);
        let (min_rank, max_rank) = self.rank_extremes();
        submit_details(id, min_rank, max_rank)
    }
}

} // verus!
