use vstd::prelude::*;

use crate::models::{copy_fractal, Fractal};

verus! {

/// One update of the fractal table, as the ranking logic issues it.
#[derive(Clone, Copy, PartialEq, Eq, Debug)]
pub enum StoreCommand {
    /// Set the rank of the fractal `id`.
    SetRank { id: i64, rank: Option<i64> },
    /// Add `delta` to every rank from `lo` to `hi`, both included.
    ShiftRanks { lo: i64, hi: i64, delta: i64 },
    /// Unrank every fractal ranked below `limit`.
    ClearRanksAbove { limit: i64 },
    /// Delete the fractal `id`.
    Remove { id: i64 },
    /// Mark the fractal `id` consumed at `time` and unrank it.
    MarkConsumed { id: i64, time: i64 },
    /// Mark the fractal `id` deleted at `time` and unrank it.
    MarkDeleted { id: i64, time: i64 },
    /// Delete every fractal that is neither consumed, deleted nor ranked.
    RemoveUnranked,
}

pub open spec fn with_rank(f: Fractal, rank: Option<i64>) -> Fractal {
    Fractal { rank: rank, ..f }
}

/// Whether `f` holds a rank from `lo` to `hi`.
pub open spec fn ranked_within(f: Fractal, lo: int, hi: int) -> bool {
    match f.rank {
        Some(r) => lo <= r <= hi,
        None => false,
    }
}

pub open spec fn shifted(f: Fractal, lo: i64, hi: i64, delta: i64) -> Fractal {
    if ranked_within(f, lo as int, hi as int) {
        with_rank(f, Some((f.rank.unwrap() + delta) as i64))
    } else {
        f
    }
}

pub open spec fn cleared_above(f: Fractal, limit: i64) -> Fractal {
    match f.rank {
        Some(r) => if r > limit {
            with_rank(f, None)
        } else {
            f
        },
        None => f,
    }
}

pub open spec fn consumed_at(f: Fractal, time: i64) -> Fractal {
    Fractal { consumed: true, consumed_time: Some(time), rank: None, ..f }
}

pub open spec fn deleted_at(f: Fractal, time: i64) -> Fractal {
    Fractal { deleted: true, deleted_time: Some(time), rank: None, ..f }
}

/// Whether a row survives the removal of unranked rows.
pub open spec fn kept_by_cleanup(f: Fractal) -> bool {
    f.consumed || f.deleted || f.rank is Some
}

/// The rows after applying `c` to `rows`.
pub open spec fn apply_command(rows: Seq<Fractal>, c: StoreCommand) -> Seq<Fractal> {
    match c {
        StoreCommand::SetRank { id, rank } => rows.map_values(
            |f: Fractal| if f.id == id { with_rank(f, rank) } else { f },
        ),
        StoreCommand::ShiftRanks { lo, hi, delta } => rows.map_values(
            |f: Fractal| shifted(f, lo, hi, delta),
        ),
        StoreCommand::ClearRanksAbove { limit } => rows.map_values(
            |f: Fractal| cleared_above(f, limit),
        ),
        StoreCommand::Remove { id } => rows.filter(|f: Fractal| f.id != id),
        StoreCommand::MarkConsumed { id, time } => rows.map_values(
            |f: Fractal| if f.id == id { consumed_at(f, time) } else { f },
        ),
        StoreCommand::MarkDeleted { id, time } => rows.map_values(
            |f: Fractal| if f.id == id { deleted_at(f, time) } else { f },
        ),
        StoreCommand::RemoveUnranked => rows.filter(|f: Fractal| kept_by_cleanup(f)),
    }
}

/// Whether applying `c` to `rows` keeps every rank within `i64`.
pub open spec fn command_fits(rows: Seq<Fractal>, c: StoreCommand) -> bool {
    match c {
        StoreCommand::ShiftRanks { lo, hi, delta } => forall|i: int|
            0 <= i < rows.len() && #[trigger] ranked_within(rows[i], lo as int, hi as int)
                ==> i64::MIN <= rows[i].rank.unwrap() + delta <= i64::MAX,
        _ => true,
    }
}

/// The rows after applying the commands `cs` in order.
pub open spec fn apply_commands(rows: Seq<Fractal>, cs: Seq<StoreCommand>) -> Seq<Fractal>
    decreases cs.len(),
{
    if cs.len() == 0 {
        rows
    } else {
        apply_command(apply_commands(rows, cs.drop_last()), cs.last())
    }
}

/// Whether every command of `cs` keeps every rank within `i64`.
pub open spec fn commands_fit(rows: Seq<Fractal>, cs: Seq<StoreCommand>) -> bool
    decreases cs.len(),
{
    if cs.len() == 0 {
        true
    } else {
        commands_fit(rows, cs.drop_last()) && command_fits(
            apply_commands(rows, cs.drop_last()),
            cs.last(),
        )
    }
}

/// The fractal table held in memory.
pub struct FractalStore {
    rows: Vec<Fractal>,
}

impl View for FractalStore {
    type V = Seq<Fractal>;

    closed spec fn view(&self) -> Seq<Fractal> {
        self.rows@
    }
}

fn update_row(f: &Fractal, c: StoreCommand) -> (g: Fractal)
    requires
        !(c is Remove),
        !(c is RemoveUnranked),
        command_fits(seq![*f], c),
    ensures
        apply_command(seq![*f], c) == seq![g],
{
    let mut g = copy_fractal(f);
    match c {
        StoreCommand::SetRank { id, rank } => {
            if f.id == id {
                g.rank = rank;
            }
        },
        StoreCommand::ShiftRanks { lo, hi, delta } => {
            if let Some(r) = f.rank {
                if lo <= r && r <= hi {
                    assert(ranked_within(seq![*f][0], lo as int, hi as int));
                    g.rank = Some(r + delta);
                }
            }
        },
        StoreCommand::ClearRanksAbove { limit } => {
            if let Some(r) = f.rank {
                if r > limit {
                    g.rank = None;
                }
            }
        },
        StoreCommand::MarkConsumed { id, time } => {
            if f.id == id {
                g.consumed = true;
                g.consumed_time = Some(time);
                g.rank = None;
            }
        },
        StoreCommand::MarkDeleted { id, time } => {
            if f.id == id {
                g.deleted = true;
                g.deleted_time = Some(time);
                g.rank = None;
            }
        },
        _ => {},
    }
    assert(apply_command(seq![*f], c) =~= seq![g]);
    g
}

fn keeps_row(f: &Fractal, c: StoreCommand) -> (keep: bool)
    requires
        c is Remove || c is RemoveUnranked,
    ensures
        keep == match c {
            StoreCommand::Remove { id } => f.id != id,
            _ => kept_by_cleanup(*f),
        },
{
    match c {
        StoreCommand::Remove { id } => f.id != id,
        _ => f.consumed || f.deleted || f.rank.is_some(),
    }
}

impl FractalStore {
    /// A store holding `rows`.
    pub fn new(rows: Vec<Fractal>) -> (s: Self)
        ensures
            s@ == rows@,
    {
        FractalStore { rows }
    }

    /// The rows of the store.
    pub fn rows(&self) -> (r: &Vec<Fractal>)
        ensures
            r@ == self@,
    {
        &self.rows
    }

    /// Appends the row `f` to the table.
    pub fn push_row(&mut self, f: Fractal)
        ensures
            final(self)@ == old(self)@.push(f),
    {
        self.rows.push(f);
    }

    /// Applies one command to the table.
    pub fn apply(&mut self, c: StoreCommand)
        requires
            command_fits(old(self)@, c),
        ensures
            final(self)@ == apply_command(old(self)@, c),
    {
        let n = self.rows.len();
        let mut out: Vec<Fractal> = Vec::new();
        let removes = match c {
            StoreCommand::Remove { .. } | StoreCommand::RemoveUnranked => true,
            _ => false,
        };
        if removes {
            let ghost pred = match c {
                StoreCommand::Remove { id } => |f: Fractal| f.id != id,
                _ => |f: Fractal| kept_by_cleanup(f),
            };
            assert(apply_command(self@, c) == self@.filter(pred));
            for i in 0..n
                invariant
                    n == self.rows@.len(),
                    c is Remove || c is RemoveUnranked,
                    pred == (match c {
                        StoreCommand::Remove { id } => |f: Fractal| f.id != id,
                        _ => |f: Fractal| kept_by_cleanup(f),
                    }),
                    out@ == self.rows@.take(i as int).filter(pred),
            {
                reveal_with_fuel(Seq::<_>::filter, 1);
                let keep = keeps_row(&self.rows[i], c);
                assert(keep == pred(self.rows@[i as int]));
                if keep {
                    out.push(copy_fractal(&self.rows[i]));
                }
                assert(self.rows@.take(i + 1).drop_last() =~= self.rows@.take(i as int));
            }
            assert(self.rows@.take(n as int) =~= self.rows@);
        } else {
            for i in 0..n
                invariant
                    n == self.rows@.len(),
                    !(c is Remove),
                    !(c is RemoveUnranked),
                    command_fits(self.rows@, c),
                    out@.len() == i,
                    forall|j: int| 0 <= j < i ==> seq![#[trigger] out@[j]] == apply_command(seq![self.rows@[j]], c),
            {
                let ghost f = self.rows@[i as int];
                assert(command_fits(seq![f], c)) by {
                    if c is ShiftRanks {
                        assert(seq![f][0] == self.rows@[i as int]);
                    }
                }
                let g = update_row(&self.rows[i], c);
                out.push(g);
                assert(seq![out@[i as int]] == apply_command(seq![f], c));
            }
            assert forall|j: int| 0 <= j < n implies out@[j] == #[trigger] apply_command(self@, c)[j] by {
                assert(seq![out@[j]] == apply_command(seq![self.rows@[j]], c));
                assert(seq![out@[j]][0] == apply_command(seq![self.rows@[j]], c)[0]);
            }
            assert(out@ =~= apply_command(self@, c));
        }
        self.rows = out;
    }

    /// Applies the commands `cs` in order.
    pub fn apply_all(&mut self, cs: &Vec<StoreCommand>)
        requires
            commands_fit(old(self)@, cs@),
        ensures
            final(self)@ == apply_commands(old(self)@, cs@),
    {
        let ghost start = self@;
        for i in 0..cs.len()
            invariant
                commands_fit(start, cs@),
                self@ == apply_commands(start, cs@.take(i as int)),
        {
            proof {
                lemma_commands_fit_prefix(start, cs@, (i + 1) as int);
                assert(cs@.take(i + 1).drop_last() =~= cs@.take(i as int));
            }
            self.apply(cs[i]);
        }
        assert(cs@.take(cs@.len() as int) =~= cs@);
    }
}

proof fn lemma_commands_fit_prefix(rows: Seq<Fractal>, cs: Seq<StoreCommand>, n: int)
    requires
        commands_fit(rows, cs),
        0 <= n <= cs.len(),
    ensures
        commands_fit(rows, cs.take(n)),
    decreases cs.len(),
{
    if n < cs.len() {
        assert(cs.drop_last().take(n) =~= cs.take(n));
        lemma_commands_fit_prefix(rows, cs.drop_last(), n);
    } else {
        assert(cs.take(n) =~= cs);
    }
}

/// Running `a` and then `b` is running `a + b`; the commands of `a + b`
/// fit when those of `a` fit and those of `b` fit on the rows `a` leaves.
pub proof fn lemma_commands_append(rows: Seq<Fractal>, a: Seq<StoreCommand>, b: Seq<StoreCommand>)
    ensures
        apply_commands(rows, a + b) == apply_commands(apply_commands(rows, a), b),
        commands_fit(rows, a) && commands_fit(apply_commands(rows, a), b) ==> commands_fit(rows, a + b),
    decreases b.len(),
{
    if b.len() == 0 {
        assert(a + b =~= a);
    } else {
        lemma_commands_append(rows, a, b.drop_last());
        assert((a + b).drop_last() =~= a + b.drop_last());
        assert((a + b).last() == b.last());
    }
}

} // verus!
