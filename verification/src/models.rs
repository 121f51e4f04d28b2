use vstd::prelude::*;

verus! {

/// One row of the fractal table.
pub struct Fractal {
    pub id: i64,
    pub created_time: i64,
    pub json: String,
    pub consumed: bool,
    pub consumed_time: Option<i64>,
    pub deleted: bool,
    pub deleted_time: Option<i64>,
    /// Place in the ranking, 1 being the best; `None` while unranked.
    pub rank: Option<i64>,
}

/// A row about to be inserted into the fractal table.
pub struct NewFractal {
    pub json: String,
    pub rank: Option<i64>,
}

/// What a client learns about a fractal it has just submitted: its id and the
/// range of ranks (`high` the best, `low` the worst) it will be rated in.
pub struct SubmitDetails {
    pub id: i64,
    pub low: i64,
    pub high: i64,
}

/// The outcome of one duel: `candidate` was compared against `pivot` while
/// bisecting the ranks from `high` (best) to `low` (worst).
pub struct DuelResult {
    pub candidate: i64,
    pub pivot: i64,
    pub low: i64,
    pub high: i64,
}

/// A copy of a row, field by field.
pub fn copy_fractal(f: &Fractal) -> (g: Fractal)
    ensures
        g == *f,
{
    Fractal {
        id: f.id,
        created_time: f.created_time,
        json: f.json.clone(),
        consumed: f.consumed,
        consumed_time: f.consumed_time,
        deleted: f.deleted,
        deleted_time: f.deleted_time,
        rank: f.rank,
    }
}

} // verus!
