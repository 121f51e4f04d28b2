use vstd::prelude::*;

use crate::farm::{
    above_fits_rows, find_ranked, below_fits_rows, best_consumable, cleaned, consumable, consumed_rows,
    find_row, first_match, fractal_added, has_ranking, max_rank,
    min_rank, next_id, rank_of, ranked_at_most,
};
use crate::models::{DuelResult, Fractal};
use crate::ranking::{
    above_commands, above_next, below_commands, below_next, consume_followup_commands, delete_commands,
    offset_rank_commands, offset_rank_fits, opponent_rank_of, parking_distance, rank_or,
    reinsertion, Next,
};
use crate::store::{
    apply_command, apply_commands, command_fits, commands_fit, consumed_at, deleted_at,
    kept_by_cleanup, lemma_commands_append, ranked_within, shifted, with_rank, StoreCommand,
};
use crate::MAX;

verus! {

/// Whether no rank of `rows` lies in the parking range of `offset_rank`
/// outside the range `[min, max]` being moved.
pub open spec fn parking_free(rows: Seq<Fractal>, min: i64, max: i64, offset: i64) -> bool {
    let d = parking_distance(offset);
    forall|i: int|
        0 <= i < rows.len() && #[trigger] ranked_within(rows[i], min + d, max + d) ==> ranked_within(
            rows[i],
            min as int,
            max as int,
        )
}

/// `offset_rank` moves every rank from `min` to `max` by `offset` and
/// leaves every other row as it was, provided no rank outside `[min, max]`
/// sits in its parking range.
pub proof fn lemma_offset_rank_moves_range(rows: Seq<Fractal>, min: i64, max: i64, offset: i64)
    requires
        offset_rank_fits(min, max, offset),
        parking_free(rows, min, max, offset),
        forall|i: int|
            0 <= i < rows.len() && #[trigger] ranked_within(rows[i], min as int, max as int)
                ==> i64::MIN <= rows[i].rank.unwrap() + offset <= i64::MAX,
    ensures
        apply_commands(rows, offset_rank_commands(min, max, offset)) == rows.map_values(
            |f: Fractal| shifted(f, min, max, offset),
        ),
{
    let cs = offset_rank_commands(min, max, offset);
    let d = parking_distance(offset);
    let s1 = cs[0];
    let s2 = cs[1];
    assert(cs.drop_last() =~= seq![s1]);
    assert(cs.drop_last().drop_last() =~= Seq::<StoreCommand>::empty());
    reveal_with_fuel(apply_commands, 3);
    let mid = apply_command(rows, s1);
    let after = apply_command(mid, s2);
    assert(apply_commands(rows, cs) == after);
    assert forall|i: int| 0 <= i < rows.len() implies after[i] == shifted(rows[i], min, max, offset) by {
        let f = rows[i];
        assert(mid[i] == shifted(f, min, max, d as i64));
        assert(after[i] == shifted(mid[i], (min + d) as i64, (max + d) as i64, (offset - d) as i64));
        if ranked_within(f, min as int, max as int) {
            assert(ranked_within(mid[i], min + d, max + d));
        } else {
            assert(!ranked_within(f, min + d, max + d));
        }
    }
    assert(after =~= rows.map_values(|f: Fractal| shifted(f, min, max, offset)));
}

/// Whether `f` holds the rank `r`.
pub open spec fn holds_rank(f: Fractal, r: int) -> bool {
    match f.rank {
        Some(x) => x == r,
        None => false,
    }
}

/// Whether some row holds the rank `r`.
pub open spec fn rank_taken(rows: Seq<Fractal>, r: int) -> bool {
    exists|i: int| 0 <= i < rows.len() && #[trigger] holds_rank(rows[i], r)
}

/// A well-kept ranking of `n` places: the ranked fractals hold the ranks 1
/// to `n`, one fractal each, none of them consumed or deleted, and no two
/// rows share an id.
pub open spec fn is_ladder(rows: Seq<Fractal>, n: int) -> bool {
    &&& 0 <= n <= MAX
    &&& forall|i: int|
        0 <= i < rows.len() && (#[trigger] rows[i]).rank is Some ==> {
            &&& 1 <= rows[i].rank.unwrap() <= n
            &&& !rows[i].consumed
            &&& !rows[i].deleted
        }
    &&& forall|i: int, j: int|
        0 <= i < rows.len() && 0 <= j < rows.len() && i != j && (#[trigger] rows[i]).rank is Some
            && (#[trigger] rows[j]).rank is Some ==> rows[i].rank != rows[j].rank
    &&& forall|r: int| 1 <= r <= n ==> #[trigger] rank_taken(rows, r)
    &&& forall|i: int, j: int|
        0 <= i < rows.len() && 0 <= j < rows.len() && i != j ==> (#[trigger] rows[i]).id != (
        #[trigger] rows[j]).id
}

proof fn lemma_first_match(rows: Seq<Fractal>, p: spec_fn(Fractal) -> bool)
    ensures
        first_match(rows, p) matches Some(f) ==> exists|i: int| 0 <= i < rows.len() && rows[i] == f && p(f),
        first_match(rows, p) is None ==> forall|i: int| 0 <= i < rows.len() ==> !p(#[trigger] rows[i]),
    decreases rows.len(),
{
    if rows.len() > 0 {
        lemma_first_match(rows.drop_first(), p);
        if !p(rows[0]) {
            if let Some(f) = first_match(rows, p) {
                let j = choose|j: int| 0 <= j < rows.drop_first().len() && rows.drop_first()[j] == f && p(f);
                assert(rows[j + 1] == f);
            } else {
                assert forall|i: int| 0 <= i < rows.len() implies !p(#[trigger] rows[i]) by {
                    if i > 0 {
                        assert(rows[i] == rows.drop_first()[i - 1]);
                    }
                }
            }
        }
    }
}

/// With unique ids, the row found for `rows[i].id` is `rows[i]`.
proof fn lemma_find_row_unique(rows: Seq<Fractal>, i: int)
    requires
        0 <= i < rows.len(),
        forall|a: int, b: int|
            0 <= a < rows.len() && 0 <= b < rows.len() && a != b ==> (#[trigger] rows[a]).id != (
            #[trigger] rows[b]).id,
    ensures
        find_row(rows, rows[i].id) == Some(rows[i]),
{
    let id = rows[i].id;
    lemma_first_match(rows, |f: Fractal| f.id == id);
    if let Some(f) = find_row(rows, id) {
        let j = choose|j: int| 0 <= j < rows.len() && rows[j] == f && f.id == id;
        assert(rows[j].id == rows[i].id);
    } else {
        assert(rows[i].id != id);
    }
}

/// The index of the row with id `id`, when `rank_of` finds one.
proof fn lemma_rank_of_index(rows: Seq<Fractal>, id: i64) -> (i: int)
    requires
        rank_of(rows, id) is Some,
    ensures
        0 <= i < rows.len(),
        rows[i].id == id,
        find_row(rows, id) == Some(rows[i]),
        rank_of(rows, id) == Some(rows[i].rank),
{
    lemma_first_match(rows, |f: Fractal| f.id == id);
    let f = find_row(rows, id).unwrap();
    choose|i: int| 0 <= i < rows.len() && rows[i] == f && f.id == id
}

proof fn lemma_single_command(rows: Seq<Fractal>, c: StoreCommand)
    ensures
        apply_commands(rows, seq![c]) == apply_command(rows, c),
        commands_fit(rows, seq![c]) == command_fits(rows, c),
{
    assert(seq![c].drop_last() =~= Seq::<StoreCommand>::empty());
    reveal_with_fuel(apply_commands, 2);
    reveal_with_fuel(commands_fit, 2);
}

/// How `above` changes one row of a well-kept ranking when the candidate
/// `c`, ranked `cr` (`MAX + 1` while unranked), takes the place `pr`.
pub open spec fn above_row(f: Fractal, c: i64, pr: i64, cr: int) -> Fractal {
    if f.id == c {
        with_rank(f, Some(pr))
    } else if ranked_within(f, pr as int, cr) {
        if f.rank.unwrap() + 1 > MAX {
            with_rank(f, None)
        } else {
            with_rank(f, Some((f.rank.unwrap() + 1) as i64))
        }
    } else {
        f
    }
}

proof fn lemma_reinsert_above_rows(rows: Seq<Fractal>, n: int, c: i64, pr: i64, cr: int)
    requires
        is_ladder(rows, n),
        1 <= pr < cr <= MAX + 1,
    ensures
        commands_fit(rows, reinsertion(c, pr, pr, cr as i64, 1)),
        apply_commands(rows, reinsertion(c, pr, pr, cr as i64, 1)) == rows.map_values(
            |f: Fractal| above_row(f, c, pr, cr),
        ),
{
    let a = seq![StoreCommand::SetRank { id: c, rank: None }];
    let b = offset_rank_commands(pr, cr as i64, 1);
    let tail = seq![
        StoreCommand::SetRank { id: c, rank: Some(pr) },
        StoreCommand::ClearRanksAbove { limit: MAX },
    ];
    assert(reinsertion(c, pr, pr, cr as i64, 1) == a + b + tail);
    lemma_single_command(rows, a[0]);
    let r1 = apply_command(rows, a[0]);
    // the moved ranks never reach the parking range
    assert(parking_free(r1, pr, cr as i64, 1)) by {
        assert forall|i: int| 0 <= i < r1.len() && #[trigger] ranked_within(r1[i], pr + parking_distance(1), cr + parking_distance(1))
            implies ranked_within(r1[i], pr as int, cr) by {
            assert(r1[i].rank is Some ==> r1[i].rank == rows[i].rank);
        }
    }
    assert forall|i: int| 0 <= i < r1.len() && #[trigger] ranked_within(r1[i], pr as int, cr)
        implies i64::MIN <= r1[i].rank.unwrap() + 1 <= i64::MAX by {
        assert(r1[i].rank == rows[i].rank);
    }
    lemma_offset_rank_moves_range(r1, pr, cr as i64, 1);
    let r2 = r1.map_values(|f: Fractal| shifted(f, pr, cr as i64, 1));
    // fitting
    assert(commands_fit(r1, b)) by {
        reveal_with_fuel(commands_fit, 3);
        reveal_with_fuel(apply_commands, 3);
        assert(b.drop_last() =~= seq![b[0]]);
        assert(b.drop_last().drop_last() =~= Seq::<StoreCommand>::empty());
        let m = apply_command(r1, b[0]);
        assert forall|i: int| 0 <= i < m.len() && #[trigger] ranked_within(m[i], pr + parking_distance(1), cr + parking_distance(1))
            implies i64::MIN <= m[i].rank.unwrap() + (1 - parking_distance(1)) <= i64::MAX by {
        }
    }
    lemma_commands_append(rows, a, b);
    assert(apply_commands(rows, a + b) == r2);
    let r3 = apply_command(r2, tail[0]);
    let r4 = apply_command(r3, tail[1]);
    assert(tail.drop_last() =~= seq![tail[0]]);
    assert(tail.drop_last().drop_last() =~= Seq::<StoreCommand>::empty());
    assert(apply_commands(r2, tail) == r4 && commands_fit(r2, tail)) by {
        reveal_with_fuel(commands_fit, 3);
        reveal_with_fuel(apply_commands, 3);
    }
    lemma_commands_append(rows, a + b, tail);
    assert forall|i: int| 0 <= i < rows.len() implies r4[i] == above_row(rows[i], c, pr, cr) by {
        assert(r1[i] == (if rows[i].id == c { with_rank(rows[i], None) } else { rows[i] }));
        assert(r2[i] == shifted(r1[i], pr, cr as i64, 1));
    }
    assert(r4 =~= rows.map_values(|f: Fractal| above_row(f, c, pr, cr)));
}

/// How a lost duel changes one row of a well-kept ranking when the
/// candidate `c`, ranked `cr`, ranked above its pivot, ranked `pr`: the
/// candidate takes the pivot's place and the ranks below it up to the pivot
/// move one place up.
pub open spec fn below_row(f: Fractal, c: i64, pr: i64, cr: i64) -> Fractal {
    if f.id == c {
        with_rank(f, Some(pr))
    } else if ranked_within(f, cr as int, pr as int) {
        with_rank(f, Some((f.rank.unwrap() - 1) as i64))
    } else {
        f
    }
}

proof fn lemma_reinsert_below_rows(rows: Seq<Fractal>, n: int, c: i64, pr: i64, cr: i64)
    requires
        is_ladder(rows, n),
        1 <= cr < pr <= n,
    ensures
        commands_fit(rows, reinsertion(c, pr, cr, pr, -1i64)),
        apply_commands(rows, reinsertion(c, pr, cr, pr, -1i64)) == rows.map_values(
            |f: Fractal| below_row(f, c, pr, cr),
        ),
{
    let a = seq![StoreCommand::SetRank { id: c, rank: None }];
    let b = offset_rank_commands(cr, pr, -1i64);
    let tail = seq![
        StoreCommand::SetRank { id: c, rank: Some(pr) },
        StoreCommand::ClearRanksAbove { limit: MAX },
    ];
    assert(reinsertion(c, pr, cr, pr, -1i64) == a + b + tail);
    lemma_single_command(rows, a[0]);
    let r1 = apply_command(rows, a[0]);
    assert(parking_free(r1, cr, pr, -1i64)) by {
        assert forall|i: int| 0 <= i < r1.len() && #[trigger] ranked_within(r1[i], cr + parking_distance(-1i64), pr + parking_distance(-1i64))
            implies ranked_within(r1[i], cr as int, pr as int) by {
            assert(r1[i].rank is Some ==> r1[i].rank == rows[i].rank);
        }
    }
    assert forall|i: int| 0 <= i < r1.len() && #[trigger] ranked_within(r1[i], cr as int, pr as int)
        implies i64::MIN <= r1[i].rank.unwrap() + -1 <= i64::MAX by {
        assert(r1[i].rank == rows[i].rank);
    }
    lemma_offset_rank_moves_range(r1, cr, pr, -1i64);
    let r2 = r1.map_values(|f: Fractal| shifted(f, cr, pr, -1i64));
    assert(commands_fit(r1, b)) by {
        reveal_with_fuel(commands_fit, 3);
        reveal_with_fuel(apply_commands, 3);
        assert(b.drop_last() =~= seq![b[0]]);
        assert(b.drop_last().drop_last() =~= Seq::<StoreCommand>::empty());
        let m = apply_command(r1, b[0]);
        assert forall|i: int| 0 <= i < m.len() && #[trigger] ranked_within(m[i], cr + parking_distance(-1i64), pr + parking_distance(-1i64))
            implies i64::MIN <= m[i].rank.unwrap() + (-1 - parking_distance(-1i64)) <= i64::MAX by {
        }
    }
    lemma_commands_append(rows, a, b);
    assert(apply_commands(rows, a + b) == r2);
    let r3 = apply_command(r2, tail[0]);
    let r4 = apply_command(r3, tail[1]);
    assert(tail.drop_last() =~= seq![tail[0]]);
    assert(tail.drop_last().drop_last() =~= Seq::<StoreCommand>::empty());
    assert(apply_commands(r2, tail) == r4 && commands_fit(r2, tail)) by {
        reveal_with_fuel(commands_fit, 3);
        reveal_with_fuel(apply_commands, 3);
    }
    lemma_commands_append(rows, a + b, tail);
    assert forall|i: int| 0 <= i < rows.len() implies r4[i] == below_row(rows[i], c, pr, cr) by {
        assert(r1[i] == (if rows[i].id == c { with_rank(rows[i], None) } else { rows[i] }));
        assert(r2[i] == shifted(r1[i], cr, pr, -1i64));
    }
    assert(r4 =~= rows.map_values(|f: Fractal| below_row(f, c, pr, cr)));
}

/// The ladder keeps its `n` places when the candidate `rows[ic]`, ranked
/// `cr`, takes the place `pr` below it.
proof fn lemma_below_row_ladder(rows: Seq<Fractal>, n: int, ic: int, pr: i64, cr: i64)
    requires
        is_ladder(rows, n),
        1 <= cr < pr <= n,
        0 <= ic < rows.len(),
        rows[ic].rank == Some(cr),
    ensures
        is_ladder(rows.map_values(|f: Fractal| below_row(f, rows[ic].id, pr, cr)), n),
{
    let c = rows[ic].id;
    let after = rows.map_values(|f: Fractal| below_row(f, c, pr, cr));
    assert forall|i: int| 0 <= i < rows.len() && i != ic implies rows[i].id != c by {}
    assert forall|i: int| 0 <= i < after.len() && (#[trigger] after[i]).rank is Some implies {
        &&& 1 <= after[i].rank.unwrap() <= n
        &&& !after[i].consumed
        &&& !after[i].deleted
    } by {
        assert(after[i] == below_row(rows[i], c, pr, cr));
        if i != ic && ranked_within(rows[i], cr as int, pr as int) {
            assert(rows[i].rank != rows[ic].rank);
        }
    }
    assert forall|i: int, j: int|
        0 <= i < after.len() && 0 <= j < after.len() && i != j && (#[trigger] after[i]).rank is Some
            && (#[trigger] after[j]).rank is Some implies after[i].rank != after[j].rank by {
        assert(after[i] == below_row(rows[i], c, pr, cr));
        assert(after[j] == below_row(rows[j], c, pr, cr));
        if rows[i].rank is Some && rows[j].rank is Some {
            assert(rows[i].rank != rows[j].rank);
        }
        if i != ic && j != ic {
            assert(rows[i].rank != rows[ic].rank);
            assert(rows[j].rank != rows[ic].rank);
        }
    }
    assert forall|r: int| 1 <= r <= n implies #[trigger] rank_taken(after, r) by {
        if r == pr {
            assert(holds_rank(after[ic], r));
        } else {
            let old_r = if cr <= r && r < pr {
                r + 1
            } else {
                r
            };
            assert(rank_taken(rows, old_r));
            let k = choose|k: int| 0 <= k < rows.len() && #[trigger] holds_rank(rows[k], old_r);
            assert(k != ic);
            assert(after[k] == below_row(rows[k], c, pr, cr));
            assert(holds_rank(after[k], r));
        }
    }
    assert forall|i: int, j: int|
        0 <= i < after.len() && 0 <= j < after.len() && i != j implies (#[trigger] after[i]).id != (
        #[trigger] after[j]).id by {
        assert(after[i].id == rows[i].id);
        assert(after[j].id == rows[j].id);
    }
}

/// The ladder after the candidate `rows[ic]`, ranked `cr` (`MAX + 1` while
/// unranked), takes the place `pr`: it keeps its `n` places when the
/// candidate was ranked, and grows by one place, up to `MAX`, when it was not.
proof fn lemma_above_row_ladder(rows: Seq<Fractal>, n: int, ic: int, pr: i64, cr: int)
    requires
        is_ladder(rows, n),
        1 <= pr <= n,
        pr < cr <= MAX + 1,
        0 <= ic < rows.len(),
        cr <= MAX ==> rows[ic].rank == Some(cr as i64),
        cr == MAX + 1 ==> rows[ic].rank is None,
        !rows[ic].consumed,
        !rows[ic].deleted,
    ensures
        is_ladder(
            rows.map_values(|f: Fractal| above_row(f, rows[ic].id, pr, cr)),
            if cr <= MAX || n == MAX {
                n
            } else {
                n + 1
            },
        ),
{
    let c = rows[ic].id;
    let after = rows.map_values(|f: Fractal| above_row(f, c, pr, cr));
    let n2 = if cr <= MAX || n == MAX {
        n
    } else {
        n + 1
    };
    assert forall|i: int| 0 <= i < rows.len() && i != ic implies rows[i].id != c by {}
    assert forall|i: int| 0 <= i < after.len() && (#[trigger] after[i]).rank is Some implies {
        &&& 1 <= after[i].rank.unwrap() <= n2
        &&& !after[i].consumed
        &&& !after[i].deleted
    } by {
        assert(after[i] == above_row(rows[i], c, pr, cr));
        if i != ic && ranked_within(rows[i], pr as int, cr) && cr <= MAX {
            assert(rows[i].rank != rows[ic].rank);
        }
    }
    assert forall|i: int, j: int|
        0 <= i < after.len() && 0 <= j < after.len() && i != j && (#[trigger] after[i]).rank is Some
            && (#[trigger] after[j]).rank is Some implies after[i].rank != after[j].rank by {
        assert(after[i] == above_row(rows[i], c, pr, cr));
        assert(after[j] == above_row(rows[j], c, pr, cr));
        if rows[i].rank is Some && rows[j].rank is Some {
            assert(rows[i].rank != rows[j].rank);
        }
        if i != ic && j != ic && cr <= MAX {
            assert(rows[i].rank != rows[ic].rank);
            assert(rows[j].rank != rows[ic].rank);
        }
    }
    assert forall|r: int| 1 <= r <= n2 implies #[trigger] rank_taken(after, r) by {
        if r == pr {
            assert(holds_rank(after[ic], r));
        } else {
            let old_r = if pr < r && r <= cr {
                r - 1
            } else {
                r
            };
            assert(1 <= old_r <= n);
            assert(rank_taken(rows, old_r));
            let k = choose|k: int| 0 <= k < rows.len() && #[trigger] holds_rank(rows[k], old_r);
            if k == ic {
                assert(cr <= MAX);
                assert(old_r == cr);
            }
            assert(k != ic);
            assert(after[k] == above_row(rows[k], c, pr, cr));
            assert(holds_rank(after[k], r));
        }
    }
    assert forall|i: int, j: int|
        0 <= i < after.len() && 0 <= j < after.len() && i != j implies (#[trigger] after[i]).id != (
        #[trigger] after[j]).id by {
        assert(after[i].id == rows[i].id);
        assert(after[j].id == rows[j].id);
    }
}

/// A won duel keeps the ranking well kept. When the candidate was ranked
/// below its pivot, or not ranked at all, it takes the pivot's place and the
/// fractals from the pivot down move one place down (the last one dropping
/// out once `MAX` places are taken); when it already ranked above its pivot,
/// nothing changes.
pub proof fn lemma_above_keeps_ladder(rows: Seq<Fractal>, duel: DuelResult, n: int)
    requires
        is_ladder(rows, n),
        duel.pivot != duel.candidate,
        rank_of(rows, duel.pivot) matches Some(Some(_)),
        find_row(rows, duel.candidate) matches Some(f) && !f.consumed && !f.deleted,
    ensures
        above_fits_rows(rows, duel),
        ({
            let pr = rank_of(rows, duel.pivot).unwrap().unwrap();
            let cr = rank_of(rows, duel.candidate).unwrap();
            let after = apply_commands(rows, above_commands(duel, pr, cr));
            &&& is_ladder(after, if cr is Some || n == MAX { n } else { n + 1 })
            &&& pr < rank_or(cr, MAX + 1) ==> rank_of(after, duel.candidate) == Some(Some(pr))
            &&& rank_or(cr, MAX + 1) < pr ==> after == rows
        }),
{
    let ip = lemma_rank_of_index(rows, duel.pivot);
    let ic = lemma_rank_of_index(rows, duel.candidate);
    let pr = rows[ip].rank.unwrap();
    let cr = rows[ic].rank;
    let crv = rank_or(cr, MAX + 1);
    assert(ip != ic);
    if cr is Some {
        assert(cr != rows[ip].rank);
    }
    let cs = above_commands(duel, pr, cr);
    if pr < crv {
        lemma_reinsert_above_rows(rows, n, duel.candidate, pr, crv);
        lemma_above_row_ladder(rows, n, ic, pr, crv);
        let after = rows.map_values(|f: Fractal| above_row(f, duel.candidate, pr, crv));
        assert(after[ic] == above_row(rows[ic], duel.candidate, pr, crv));
        lemma_find_row_unique(after, ic);
    } else {
        assert(cs =~= Seq::<StoreCommand>::empty());
    }
}

/// How a row of a well-kept ranking changes when the fractal `id`, ranked
/// `k`, moves to the trash at `time`.
pub open spec fn deleted_row(f: Fractal, id: i64, k: i64, time: i64) -> Fractal {
    if f.id == id {
        deleted_at(f, time)
    } else {
        shifted(f, k, MAX, -1i64)
    }
}

/// Shifting up by one every rank of a ladder below a place `k` that no row
/// holds any more closes the gap.
proof fn lemma_close_gap(rows: Seq<Fractal>, after: Seq<Fractal>, n: int, ik: int, k: i64)
    requires
        is_ladder(rows, n),
        0 <= ik < rows.len(),
        holds_rank(rows[ik], k as int),
        after.len() == rows.len(),
        after[ik].rank is None,
        forall|i: int| 0 <= i < rows.len() && i != ik ==> #[trigger] after[i] == shifted(rows[i], k, MAX, -1i64),
        forall|i: int| 0 <= i < rows.len() ==> (#[trigger] after[i]).id == rows[i].id,
    ensures
        is_ladder(after, n - 1),
{
    assert(1 <= k <= n);
    assert forall|i: int| 0 <= i < after.len() && (#[trigger] after[i]).rank is Some implies {
        &&& 1 <= after[i].rank.unwrap() <= n - 1
        &&& !after[i].consumed
        &&& !after[i].deleted
    } by {
        assert(i != ik);
        assert(rows[i].rank != rows[ik].rank);
    }
    assert forall|i: int, j: int|
        0 <= i < after.len() && 0 <= j < after.len() && i != j && (#[trigger] after[i]).rank is Some
            && (#[trigger] after[j]).rank is Some implies after[i].rank != after[j].rank by {
        assert(i != ik && j != ik);
        assert(rows[i].rank != rows[ik].rank);
        assert(rows[j].rank != rows[ik].rank);
        assert(rows[i].rank != rows[j].rank);
    }
    assert forall|r: int| 1 <= r <= n - 1 implies #[trigger] rank_taken(after, r) by {
        let old_r = if r >= k {
            r + 1
        } else {
            r
        };
        assert(rank_taken(rows, old_r));
        let w = choose|w: int| 0 <= w < rows.len() && #[trigger] holds_rank(rows[w], old_r);
        assert(w != ik);
        assert(holds_rank(after[w], r));
    }
    assert forall|i: int, j: int|
        0 <= i < after.len() && 0 <= j < after.len() && i != j implies (#[trigger] after[i]).id != (
        #[trigger] after[j]).id by {
        assert(after[i].id == rows[i].id);
        assert(after[j].id == rows[j].id);
    }
}

/// Moving a ranked fractal to the trash keeps the ranking well kept: it
/// loses its rank, and every fractal ranked below it moves one place up.
pub proof fn lemma_delete_keeps_ladder(rows: Seq<Fractal>, n: int, id: i64, time: i64)
    requires
        is_ladder(rows, n),
        rank_of(rows, id) matches Some(Some(_)),
    ensures
        ({
            let k = rank_of(rows, id).unwrap().unwrap();
            let after = apply_commands(rows, delete_commands(id, k, time));
            &&& commands_fit(rows, delete_commands(id, k, time))
            &&& after == rows.map_values(|f: Fractal| deleted_row(f, id, k, time))
            &&& is_ladder(after, n - 1)
            &&& find_row(after, id) matches Some(f) && f.deleted && f.rank is None
        }),
{
    let ik = lemma_rank_of_index(rows, id);
    let k = rows[ik].rank.unwrap();
    let first = seq![StoreCommand::MarkDeleted { id: id, time: time }];
    let b = offset_rank_commands(k, MAX, -1i64);
    assert(delete_commands(id, k, time) == first + b);
    lemma_single_command(rows, first[0]);
    let r1 = apply_command(rows, first[0]);
    assert forall|i: int| 0 <= i < r1.len() && #[trigger] ranked_within(r1[i], k + parking_distance(-1i64), MAX + parking_distance(-1i64))
        implies ranked_within(r1[i], k as int, MAX as int) by {
        assert(r1[i].rank is Some ==> r1[i].rank == rows[i].rank);
    }
    assert forall|i: int| 0 <= i < r1.len() && #[trigger] ranked_within(r1[i], k as int, MAX as int)
        implies i64::MIN <= r1[i].rank.unwrap() + -1 <= i64::MAX by {
        assert(r1[i].rank == rows[i].rank);
    }
    lemma_offset_rank_moves_range(r1, k, MAX, -1i64);
    assert(commands_fit(r1, b)) by {
        reveal_with_fuel(commands_fit, 3);
        reveal_with_fuel(apply_commands, 3);
        assert(b.drop_last() =~= seq![b[0]]);
        assert(b.drop_last().drop_last() =~= Seq::<StoreCommand>::empty());
    }
    lemma_commands_append(rows, first, b);
    let after = r1.map_values(|f: Fractal| shifted(f, k, MAX, -1i64));
    assert forall|i: int| 0 <= i < rows.len() implies after[i] == deleted_row(rows[i], id, k, time) by {
        assert(r1[i] == (if rows[i].id == id { deleted_at(rows[i], time) } else { rows[i] }));
        if i != ik {
            assert(rows[i].id != id);
        }
    }
    assert(after =~= rows.map_values(|f: Fractal| deleted_row(f, id, k, time)));
    assert forall|i: int| 0 <= i < rows.len() && i != ik implies #[trigger] after[i] == shifted(rows[i], k, MAX, -1i64) by {
        assert(rows[i].id != id);
    }
    assert(holds_rank(rows[ik], k as int));
    lemma_close_gap(rows, after, n, ik, k);
    lemma_find_row_unique(after, ik);
}

pub open spec fn unique_ids(rows: Seq<Fractal>) -> bool {
    forall|i: int, j: int|
        0 <= i < rows.len() && 0 <= j < rows.len() && i != j ==> (#[trigger] rows[i]).id != (
        #[trigger] rows[j]).id
}

proof fn lemma_filter_unique_ids(rows: Seq<Fractal>, p: spec_fn(Fractal) -> bool)
    requires
        unique_ids(rows),
    ensures
        unique_ids(rows.filter(p)),
    decreases rows.len(),
{
    reveal(Seq::filter);
    if rows.len() > 0 {
        let rest = rows.drop_last();
        assert(unique_ids(rest)) by {
            assert forall|i: int, j: int|
                0 <= i < rest.len() && 0 <= j < rest.len() && i != j implies (#[trigger] rest[i]).id != (
                #[trigger] rest[j]).id by {
                assert(rest[i] == rows[i] && rest[j] == rows[j]);
            }
        }
        lemma_filter_unique_ids(rest, p);
        let sub = rest.filter(p);
        if p(rows.last()) {
            let out = sub.push(rows.last());
            assert forall|i: int, j: int|
                0 <= i < out.len() && 0 <= j < out.len() && i != j implies (#[trigger] out[i]).id != (
                #[trigger] out[j]).id by {
                if i < sub.len() && j < sub.len() {
                    assert(out[i] == sub[i] && out[j] == sub[j]);
                } else {
                    let x = if i < sub.len() { i } else { j };
                    assert(out[x] == sub[x]);
                    assert(sub.contains(sub[x]));
                    rest.lemma_filter_contains_rev(p, sub[x]);
                    let w = choose|w: int| 0 <= w < rest.len() && rest[w] == sub[x];
                    assert(rows[w] == rest[w]);
                    assert(rows[rows.len() - 1] == rows.last());
                }
            }
        }
    }
}

/// Dropping rows keeps a well-kept ranking as long as no ranked row goes.
proof fn lemma_filter_keeps_ladder(rows: Seq<Fractal>, n: int, p: spec_fn(Fractal) -> bool)
    requires
        is_ladder(rows, n),
        forall|i: int| 0 <= i < rows.len() && (#[trigger] rows[i]).rank is Some ==> p(rows[i]),
    ensures
        is_ladder(rows.filter(p), n),
{
    let out = rows.filter(p);
    lemma_filter_unique_ids(rows, p);
    assert forall|i: int| 0 <= i < out.len() implies exists|w: int| 0 <= w < rows.len() && rows[w] == #[trigger] out[i] by {
        assert(out.contains(out[i]));
        rows.lemma_filter_contains_rev(p, out[i]);
    }
    assert forall|i: int, j: int|
        0 <= i < out.len() && 0 <= j < out.len() && i != j && (#[trigger] out[i]).rank is Some
            && (#[trigger] out[j]).rank is Some implies out[i].rank != out[j].rank by {
        let a = choose|w: int| 0 <= w < rows.len() && rows[w] == out[i];
        let b = choose|w: int| 0 <= w < rows.len() && rows[w] == out[j];
        assert(out[i].id != out[j].id);
    }
    assert forall|r: int| 1 <= r <= n implies #[trigger] rank_taken(out, r) by {
        assert(rank_taken(rows, r));
        let w = choose|w: int| 0 <= w < rows.len() && #[trigger] holds_rank(rows[w], r);
        rows.lemma_filter_contains(p, w);
        let k = choose|k: int| 0 <= k < out.len() && out[k] == rows[w];
        assert(holds_rank(out[k], r));
    }
}

/// The cleanup at the start of a consumption keeps a well-kept ranking.
proof fn lemma_cleanup_keeps_ladder(rows: Seq<Fractal>, n: int)
    requires
        is_ladder(rows, n),
    ensures
        is_ladder(cleaned(rows), n),
{
    lemma_filter_keeps_ladder(rows, n, |f: Fractal| kept_by_cleanup(f));
}

proof fn lemma_best_consumable(rows: Seq<Fractal>)
    ensures
        best_consumable(rows) matches Some(f) ==> {
            &&& consumable(f)
            &&& exists|w: int| 0 <= w < rows.len() && rows[w] == f
            &&& forall|i: int| 0 <= i < rows.len() && consumable(#[trigger] rows[i]) ==> f.rank.unwrap() <= rows[i].rank.unwrap()
        },
        best_consumable(rows) is None ==> forall|i: int| 0 <= i < rows.len() ==> !consumable(#[trigger] rows[i]),
    decreases rows.len(),
{
    if rows.len() > 0 {
        let rest = rows.drop_last();
        let n = rows.len() - 1;
        lemma_best_consumable(rest);
        assert forall|i: int| 0 <= i < rest.len() implies #[trigger] rest[i] == rows[i] by {}
        assert(rows.last() == rows[n]);
        let last = rows[n];
        match best_consumable(rest) {
            Some(b) => {
                let w = choose|w: int| 0 <= w < rest.len() && rest[w] == b;
                assert(rows[w] == b);
                if consumable(last) && last.rank.unwrap() < b.rank.unwrap() {
                    assert forall|i: int| 0 <= i < rows.len() && consumable(#[trigger] rows[i]) implies last.rank.unwrap() <= rows[i].rank.unwrap() by {
                        if i < n {
                            assert(consumable(rest[i]));
                        }
                    }
                } else {
                    assert forall|i: int| 0 <= i < rows.len() && consumable(#[trigger] rows[i]) implies b.rank.unwrap() <= rows[i].rank.unwrap() by {
                        if i < n {
                            assert(consumable(rest[i]));
                        }
                    }
                }
            },
            None => {
                if consumable(last) {
                    assert forall|i: int| 0 <= i < rows.len() && consumable(#[trigger] rows[i]) implies last.rank.unwrap() <= rows[i].rank.unwrap() by {
                        if i < n {
                            assert(!consumable(rest[i]));
                        }
                    }
                } else {
                    assert forall|i: int| 0 <= i < rows.len() implies !consumable(#[trigger] rows[i]) by {
                        if i < n {
                            assert(!consumable(rest[i]));
                        }
                    }
                }
            },
        }
    }
}

proof fn lemma_max_rank(rows: Seq<Fractal>)
    ensures
        max_rank(rows) matches Some(m) ==> {
            &&& exists|w: int| 0 <= w < rows.len() && rows[w].rank == Some(m)
            &&& forall|i: int| 0 <= i < rows.len() && (#[trigger] rows[i]).rank is Some ==> rows[i].rank.unwrap() <= m
        },
        max_rank(rows) is None ==> forall|i: int| 0 <= i < rows.len() ==> (#[trigger] rows[i]).rank is None,
    decreases rows.len(),
{
    if rows.len() > 0 {
        let rest = rows.drop_last();
        let n = rows.len() - 1;
        lemma_max_rank(rest);
        assert forall|i: int| 0 <= i < rest.len() implies #[trigger] rest[i] == rows[i] by {}
        assert(rows.last() == rows[n]);
        let last = rows[n];
        match max_rank(rest) {
            Some(m) => {
                let w = choose|w: int| 0 <= w < rest.len() && rest[w].rank == Some(m);
                assert(rows[w] == rest[w]);
                let mm = max_rank(rows).unwrap();
                assert forall|i: int| 0 <= i < rows.len() && (#[trigger] rows[i]).rank is Some implies rows[i].rank.unwrap() <= mm by {
                    if i < n {
                        assert(rest[i].rank is Some);
                    }
                }
            },
            None => {
                assert forall|i: int| 0 <= i < n implies (#[trigger] rows[i]).rank is None by {
                    assert(rest[i].rank is None);
                }
            },
        }
    }
}

/// Consuming keeps the ranking well kept: the fractal ranked first is
/// consumed and unranked, and every other ranked fractal moves one place up.
/// With nothing ranked, there is nothing to consume.
pub proof fn lemma_consume_keeps_ladder(rows: Seq<Fractal>, n: int, now: i64)
    requires
        is_ladder(rows, n),
    ensures
        n == 0 ==> best_consumable(cleaned(rows)) is None,
        n >= 1 ==> (best_consumable(cleaned(rows)) matches Some(f) && holds_rank(f, 1) && {
            let marked = consumed_rows(rows, f, now);
            let after = apply_commands(marked, consume_followup_commands(max_rank(marked)));
            &&& rank_or(max_rank(marked), 1) == n
            &&& after == marked.map_values(|g: Fractal| shifted(g, 2, n as i64, -1i64))
            &&& is_ladder(after, n - 1)
            &&& find_row(after, f.id) matches Some(g) && g.consumed && g.rank is None
        }),
{
    let c = cleaned(rows);
    lemma_cleanup_keeps_ladder(rows, n);
    lemma_best_consumable(c);
    if n == 0 {
        if let Some(f) = best_consumable(c) {
            let w = choose|w: int| 0 <= w < c.len() && c[w] == f;
            assert(c[w].rank is Some);
        }
    } else {
        assert(rank_taken(c, 1));
        let w1 = choose|w: int| 0 <= w < c.len() && #[trigger] holds_rank(c[w], 1);
        assert(consumable(c[w1]));
        let f = best_consumable(c).unwrap();
        let wf = choose|w: int| 0 <= w < c.len() && c[w] == f;
        assert(c[wf].rank is Some);
        assert(holds_rank(f, 1));
        let marked = consumed_rows(rows, f, now);
        assert(marked.len() == c.len());
        assert forall|i: int| 0 <= i < c.len() implies #[trigger] marked[i] == (if i == wf {
            consumed_at(c[i], now)
        } else {
            c[i]
        }) by {
            if i != wf {
                assert(c[i].id != c[wf].id);
            }
        }
        // the worst rank left is n, or nothing when n == 1
        lemma_max_rank(marked);
        if n >= 2 {
            assert(rank_taken(c, n));
            let wn = choose|w: int| 0 <= w < c.len() && #[trigger] holds_rank(c[w], n);
            assert(wn != wf);
            assert(marked[wn].rank == c[wn].rank);
            let m = max_rank(marked).unwrap();
            let wm = choose|w: int| 0 <= w < marked.len() && marked[w].rank == Some(m);
            assert(marked[wm].rank is Some);
            assert(marked[wm] == c[wm]);
        } else {
            if let Some(m) = max_rank(marked) {
                let wm = choose|w: int| 0 <= w < marked.len() && marked[w].rank == Some(m);
                assert(wm != wf);
                assert(marked[wm] == c[wm]);
                assert(c[wm].rank is Some);
                assert(c[wm].rank != c[wf].rank);
            }
        }
        assert(rank_or(max_rank(marked), 1) == n);
        let nn = n as i64;
        assert(consume_followup_commands(max_rank(marked)) == offset_rank_commands(2, nn, -1i64));
        assert forall|i: int| 0 <= i < marked.len() && #[trigger] ranked_within(marked[i], 2 + parking_distance(-1i64), nn + parking_distance(-1i64))
            implies ranked_within(marked[i], 2, nn as int) by {
            assert(marked[i].rank is Some ==> marked[i].rank == c[i].rank);
        }
        assert forall|i: int| 0 <= i < marked.len() && #[trigger] ranked_within(marked[i], 2, nn as int)
            implies i64::MIN <= marked[i].rank.unwrap() + -1 <= i64::MAX by {
        }
        lemma_offset_rank_moves_range(marked, 2, nn, -1i64);
        let after = marked.map_values(|g: Fractal| shifted(g, 2, nn, -1i64));
        assert forall|i: int| 0 <= i < c.len() && i != wf implies #[trigger] after[i] == shifted(c[i], 1, MAX, -1i64) by {
            assert(after[i] == shifted(marked[i], 2, nn, -1i64));
            assert(marked[i] == c[i]);
            if c[i].rank is Some {
                assert(c[i].rank != c[wf].rank);
            }
        }
        assert(after[wf] == shifted(marked[wf], 2, nn, -1i64));
        lemma_close_gap(c, after, n, wf, 1);
        lemma_find_row_unique(after, wf);
    }
}

proof fn lemma_max_id(rows: Seq<Fractal>)
    ensures
        forall|i: int| 0 <= i < rows.len() ==> (#[trigger] rows[i]).id < next_id(rows),
    decreases rows.len(),
{
    if rows.len() > 0 {
        let rest = rows.drop_last();
        lemma_max_id(rest);
        assert forall|i: int| 0 <= i < rows.len() implies (#[trigger] rows[i]).id < next_id(rows) by {
            if i < rows.len() - 1 {
                assert(rest[i] == rows[i]);
            }
        }
    }
}

/// A well-kept ranking has a ranking of at most `MAX` places exactly when it
/// has at least one place.
proof fn lemma_has_ranking(rows: Seq<Fractal>, n: int)
    requires
        is_ladder(rows, n),
    ensures
        has_ranking(rows) <==> n >= 1,
{
    if n >= 1 {
        assert(rank_taken(rows, 1));
        let w = choose|w: int| 0 <= w < rows.len() && #[trigger] holds_rank(rows[w], 1);
        assert(ranked_at_most(rows[w], MAX as int));
    }
    if has_ranking(rows) {
        let w = choose|w: int| 0 <= w < rows.len() && #[trigger] ranked_at_most(rows[w], MAX as int);
        assert(rows[w].rank is Some);
    }
}

proof fn lemma_push_keeps_ladder(rows: Seq<Fractal>, n: int, f: Fractal)
    requires
        is_ladder(rows, n),
        f.rank is None,
        f.id == next_id(rows),
    ensures
        is_ladder(rows.push(f), n),
{
    let out = rows.push(f);
    lemma_max_id(rows);
    assert forall|i: int| 0 <= i < rows.len() implies #[trigger] out[i] == rows[i] by {}
    assert forall|r: int| 1 <= r <= n implies #[trigger] rank_taken(out, r) by {
        assert(rank_taken(rows, r));
        let w = choose|w: int| 0 <= w < rows.len() && #[trigger] holds_rank(rows[w], r);
        assert(holds_rank(out[w], r));
    }
    assert forall|i: int, j: int|
        0 <= i < out.len() && 0 <= j < out.len() && i != j implies (#[trigger] out[i]).id != (
        #[trigger] out[j]).id by {
        if i < rows.len() && j < rows.len() {
        } else if i < rows.len() {
            assert(rows[i].id < next_id(rows));
        } else {
            assert(rows[j].id < next_id(rows));
        }
    }
}

/// Submitting a fractal keeps the ranking well kept: it goes in unranked,
/// to be rated; into an empty ranking a first copy goes ranked 1. The range
/// it is rated in spans the whole ranking, from rank 1 to the last rank.
pub proof fn lemma_add_keeps_ladder(
    rows: Seq<Fractal>,
    n: int,
    after: Seq<Fractal>,
    json: Seq<char>,
    now: i64,
)
    requires
        is_ladder(rows, n),
        fractal_added(rows, after, json, now),
    ensures
        is_ladder(after, if n == 0 { 1 } else { n }),
        after.last().rank is None,
        min_rank(after) == Some(1i64),
        max_rank(after) == Some((if n == 0 { 1 } else { n }) as i64),
{
    lemma_has_ranking(rows, n);
    let n2 = if n == 0 {
        1
    } else {
        n
    };
    if n >= 1 {
        assert(after =~= rows.push(after.last()));
        lemma_push_keeps_ladder(rows, n, after.last());
    } else {
        let first = after.drop_last().last();
        let mid = rows.push(first);
        assert(after.drop_last() =~= mid);
        assert(after =~= mid.push(after.last()));
        lemma_max_id(rows);
        assert forall|i: int| 0 <= i < rows.len() implies #[trigger] mid[i] == rows[i] by {}
        assert forall|i: int| 0 <= i < rows.len() implies (#[trigger] rows[i]).rank is None by {
            if rows[i].rank is Some {
                assert(1 <= rows[i].rank.unwrap() <= 0);
            }
        }
        assert(is_ladder(mid, 1)) by {
            assert(holds_rank(mid[rows.len() as int], 1));
            assert forall|i: int, j: int|
                0 <= i < mid.len() && 0 <= j < mid.len() && i != j implies (#[trigger] mid[i]).id != (
                #[trigger] mid[j]).id by {
                if i < rows.len() && j < rows.len() {
                } else if i < rows.len() {
                    assert(rows[i].id < next_id(rows));
                } else {
                    assert(rows[j].id < next_id(rows));
                }
            }
            assert forall|r: int| 1 <= r <= 1 implies #[trigger] rank_taken(mid, r) by {
                assert(holds_rank(mid[rows.len() as int], r));
            }
        }
        lemma_push_keeps_ladder(mid, 1, after.last());
    }
    // the extreme ranks of the ladder
    lemma_max_rank(after);
    lemma_min_rank(after);
    assert(rank_taken(after, 1));
    assert(rank_taken(after, n2));
    let w1 = choose|w: int| 0 <= w < after.len() && #[trigger] holds_rank(after[w], 1);
    let wn = choose|w: int| 0 <= w < after.len() && #[trigger] holds_rank(after[w], n2);
    assert(after[w1].rank is Some);
    assert(after[wn].rank is Some);
    let lo = min_rank(after).unwrap();
    let hi = max_rank(after).unwrap();
    let a = choose|w: int| 0 <= w < after.len() && after[w].rank == Some(lo);
    let b = choose|w: int| 0 <= w < after.len() && after[w].rank == Some(hi);
    assert(after[a].rank is Some);
    assert(after[b].rank is Some);
}

proof fn lemma_min_rank(rows: Seq<Fractal>)
    ensures
        min_rank(rows) matches Some(m) ==> {
            &&& exists|w: int| 0 <= w < rows.len() && rows[w].rank == Some(m)
            &&& forall|i: int| 0 <= i < rows.len() && (#[trigger] rows[i]).rank is Some ==> m <= rows[i].rank.unwrap()
        },
        min_rank(rows) is None ==> forall|i: int| 0 <= i < rows.len() ==> (#[trigger] rows[i]).rank is None,
    decreases rows.len(),
{
    if rows.len() > 0 {
        let rest = rows.drop_last();
        let n = rows.len() - 1;
        lemma_min_rank(rest);
        assert forall|i: int| 0 <= i < rest.len() implies #[trigger] rest[i] == rows[i] by {}
        assert(rows.last() == rows[n]);
        match min_rank(rest) {
            Some(m) => {
                let w = choose|w: int| 0 <= w < rest.len() && rest[w].rank == Some(m);
                assert(rows[w] == rest[w]);
                let mm = min_rank(rows).unwrap();
                assert forall|i: int| 0 <= i < rows.len() && (#[trigger] rows[i]).rank is Some implies mm <= rows[i].rank.unwrap() by {
                    if i < n {
                        assert(rest[i].rank is Some);
                    }
                }
            },
            None => {
                assert forall|i: int| 0 <= i < n implies (#[trigger] rows[i]).rank is None by {
                    assert(rest[i].rank is None);
                }
            },
        }
    }
}

/// A lost duel keeps the ranking well kept, unless the pivot holds the last
/// place `MAX` while the candidate is ranked: a new fractal that loses is
/// thrown away; a ranked one above its pivot takes the pivot's place, the
/// fractals from just below it down to the pivot moving one place up; a
/// ranked one below its pivot stays where it is.
pub proof fn lemma_below_keeps_ladder(rows: Seq<Fractal>, n: int, duel: DuelResult)
    requires
        is_ladder(rows, n),
        duel.pivot != duel.candidate,
        rank_of(rows, duel.pivot) is Some,
        rank_of(rows, duel.candidate) is Some,
        rank_of(rows, duel.candidate) matches Some(Some(_)) ==> (rank_of(rows, duel.pivot) matches Some(
            Some(pr),
        ) && pr < MAX),
    ensures
        below_fits_rows(rows, duel),
        ({
            let pr = rank_of(rows, duel.pivot).unwrap();
            let cr = rank_of(rows, duel.candidate).unwrap();
            let after = apply_commands(rows, below_commands(duel, pr, cr));
            &&& is_ladder(after, n)
            &&& cr is None ==> below_next(duel, pr, cr) == Next::Generate && find_row(after, duel.candidate)
                is None
            &&& (cr is Some && cr.unwrap() < pr.unwrap()) ==> {
                &&& after == rows.map_values(
                    |f: Fractal| below_row(f, duel.candidate, pr.unwrap(), cr.unwrap()),
                )
                &&& rank_of(after, duel.candidate) == Some(pr)
            }
            &&& (cr is Some && cr.unwrap() > pr.unwrap()) ==> after == rows
        }),
{
    let pr = rank_of(rows, duel.pivot).unwrap();
    let cr = rank_of(rows, duel.candidate).unwrap();
    let cs = below_commands(duel, pr, cr);
    let ic = lemma_rank_of_index(rows, duel.candidate);
    if cr is Some {
        let ip = lemma_rank_of_index(rows, duel.pivot);
        assert(rows[ip].rank is Some);
        assert(ip != ic);
        assert(rows[ip].rank != rows[ic].rank);
        let p = pr.unwrap();
        let c = cr.unwrap();
        if c < p {
            assert(cs == reinsertion(duel.candidate, p, c, p, -1i64));
            lemma_reinsert_below_rows(rows, n, duel.candidate, p, c);
            lemma_below_row_ladder(rows, n, ic, p, c);
            let after = rows.map_values(|f: Fractal| below_row(f, duel.candidate, p, c));
            assert(after[ic] == below_row(rows[ic], duel.candidate, p, c));
            lemma_find_row_unique(after, ic);
        } else {
            assert(cs =~= Seq::<StoreCommand>::empty());
        }
    } else {
        assert(cs == seq![StoreCommand::Remove { id: duel.candidate }]);
        lemma_single_command(rows, cs[0]);
        let p = |f: Fractal| f.id != duel.candidate;
        assert forall|i: int| 0 <= i < rows.len() && (#[trigger] rows[i]).rank is Some implies p(rows[i]) by {
            if rows[i].id == duel.candidate {
                assert(i == ic);
            }
        }
        lemma_filter_keeps_ladder(rows, n, p);
        let after = rows.filter(p);
        lemma_first_match(after, |f: Fractal| f.id == duel.candidate);
        if let Some(f) = find_row(after, duel.candidate) {
            let w = choose|w: int| 0 <= w < after.len() && after[w] == f && f.id == duel.candidate;
            after.lemma_filter_pred(p, w);
        }
    }
}

/// Settling a lost duel never depends on the upper end `high` of the range
/// being bisected: the next range starts just below the pivot.
pub proof fn lemma_below_ignores_high(
    d1: DuelResult,
    d2: DuelResult,
    pivot_rank: Option<i64>,
    candidate_rank: Option<i64>,
)
    requires
        d1.candidate == d2.candidate,
        d1.pivot == d2.pivot,
        d1.low == d2.low,
    ensures
        below_commands(d1, pivot_rank, candidate_rank) == below_commands(d2, pivot_rank, candidate_rank),
        below_next(d1, pivot_rank, candidate_rank) == below_next(d2, pivot_rank, candidate_rank),
{
}

/// Each duel narrows the bisection: the opponent of a ranked candidate
/// rated from `high` to `low` sits between them, so the range left after a
/// loss (below the opponent) or a win (up to the opponent) is smaller.
pub proof fn lemma_bisection_narrows(rank: i64, high: i64, low: i64)
    requires
        1 <= high < low,
    ensures
        high <= opponent_rank_of(Some(rank), high, low) < low,
{
}

/// On a well-kept ranking, rating a fractal within a range of existing
/// places always finds an opponent: the fractal holding the middle place of
/// the range, or the last place of the range while the candidate is unranked.
pub proof fn lemma_rate_finds_opponent(rows: Seq<Fractal>, n: int, id: i64, high: i64, low: i64)
    requires
        is_ladder(rows, n),
        rank_of(rows, id) is Some,
        1 <= high <= low <= n,
    ensures
        high <= opponent_rank_of(rank_of(rows, id).unwrap(), high, low) <= low,
        find_ranked(rows, opponent_rank_of(rank_of(rows, id).unwrap(), high, low) as i64) matches Some(
            f,
        ) && holds_rank(f, opponent_rank_of(rank_of(rows, id).unwrap(), high, low)),
{
    let o = opponent_rank_of(rank_of(rows, id).unwrap(), high, low);
    assert(rank_taken(rows, o));
    let w = choose|w: int| 0 <= w < rows.len() && #[trigger] holds_rank(rows[w], o);
    lemma_first_match(rows, |f: Fractal| f.rank == Some(o as i64));
    assert(rows[w].rank == Some(o as i64));
    let f = find_ranked(rows, o as i64).unwrap();
    let k = choose|k: int| 0 <= k < rows.len() && rows[k] == f && f.rank == Some(o as i64);
}

/// A candidate that has never been ranked meets the worst place of the
/// range first, whatever the range: it enters the ranking from the bottom.
pub proof fn lemma_newcomer_meets_worst(high: i64, low: i64)
    ensures
        opponent_rank_of(None, high, low) == low,
{
}

/// A ranked candidate meets the middle of the range: twice its opponent's
/// place is `high + low`, or one less when that sum is odd and not negative
/// (one more when it is odd and negative), so the halving rounds towards zero.
pub proof fn lemma_ranked_meets_middle(rank: i64, high: i64, low: i64)
    ensures
        high + low >= 0 ==> {
            let o = opponent_rank_of(Some(rank), high, low);
            2 * o == high + low || 2 * o == high + low - 1
        },
        high + low < 0 ==> {
            let o = opponent_rank_of(Some(rank), high, low);
            2 * o == high + low || 2 * o == high + low + 1
        },
{
}

/// A candidate that loses against its pivot at place `p` and stays in the
/// table is next rated from the place just below the pivot, `p + 1`, down to
/// the same lower end `low`; the rating ends only when `p + 1` is `low`.
pub proof fn lemma_loss_continues_below_pivot(
    duel: DuelResult,
    p: i64,
    candidate_rank: i64,
)
    requires
        p != MAX,
        candidate_rank != MAX + 1,
        p + 1 <= i64::MAX,
    ensures
        p + 1 == duel.low ==> below_next(duel, Some(p), Some(candidate_rank)) == Next::Generate,
        p + 1 != duel.low ==> below_next(duel, Some(p), Some(candidate_rank)) == (Next::Rate {
            candidate: duel.candidate,
            high: (p + 1) as i64,
            low: duel.low,
        }),
{
}

/// A pivot found unranked counts as holding place 1 when the candidate loses
/// against it: the table updates and the next range are those of a loss
/// against place 1.
pub proof fn lemma_loss_to_unranked_pivot(duel: DuelResult, candidate_rank: Option<i64>)
    ensures
        below_commands(duel, None, candidate_rank) == below_commands(duel, Some(1i64), candidate_rank),
        below_next(duel, None, candidate_rank) == below_next(duel, Some(1i64), candidate_rank),
{
}

/// A candidate that loses against the last place `MAX`, or that has never
/// been ranked, is deleted from the table, and a fresh fractal is generated.
pub proof fn lemma_loss_at_bottom_removes(
    duel: DuelResult,
    pivot_rank: Option<i64>,
    candidate_rank: Option<i64>,
)
    requires
        pivot_rank == Some(MAX) || candidate_rank is None,
    ensures
        below_commands(duel, pivot_rank, candidate_rank) == seq![
            StoreCommand::Remove { id: duel.candidate },
        ],
        below_next(duel, pivot_rank, candidate_rank) == Next::Generate,
{
}

/// A candidate that wins against its pivot at place `p` is next rated from
/// the same upper end `high` down to the pivot's place `p`; the rating ends
/// only when `p` is `high`.
pub proof fn lemma_win_continues_above_pivot(duel: DuelResult, p: i64)
    ensures
        duel.high == p ==> above_next(duel, p) == Next::Generate,
        duel.high != p ==> above_next(duel, p) == (Next::Rate {
            candidate: duel.candidate,
            high: duel.high,
            low: p,
        }),
{
}

/// Submitting a fractal keeps every row that was there, in its place, and
/// each row it adds holds the submitted json, was created at `now`, is
/// neither consumed nor deleted, and has an id above every row before it.
/// Into an empty ranking the first added row takes place 1; the last added
/// row is always unranked, to be rated.
pub proof fn lemma_add_inserts_submitted(
    rows: Seq<Fractal>,
    after: Seq<Fractal>,
    json: Seq<char>,
    now: i64,
)
    requires
        fractal_added(rows, after, json, now),
    ensures
        after.len() > rows.len(),
        after.take(rows.len() as int) == rows,
        forall|k: int|
            rows.len() <= k < after.len() ==> {
                &&& (#[trigger] after[k]).json@ == json
                &&& after[k].created_time == now
                &&& !after[k].consumed
                &&& after[k].consumed_time is None
                &&& !after[k].deleted
                &&& after[k].deleted_time is None
            },
        forall|k: int, i: int|
            rows.len() <= k < after.len() && 0 <= i < k ==> (#[trigger] after[i]).id < (
            #[trigger] after[k]).id,
        !has_ranking(rows) ==> after[rows.len() as int].rank == Some(1i64),
        has_ranking(rows) ==> after.len() == rows.len() + 1,
        after.last().rank is None,
{
    let m = rows.len() as int;
    if has_ranking(rows) {
        assert(after.take(m) =~= after.drop_last());
        lemma_max_id(rows);
        assert forall|k: int, i: int|
            rows.len() <= k < after.len() && 0 <= i < k implies (#[trigger] after[i]).id < (
            #[trigger] after[k]).id by {
            assert(after[i] == rows[i]);
        }
    } else {
        let mid = after.drop_last();
        assert(after.take(m) =~= mid.drop_last());
        lemma_max_id(rows);
        lemma_max_id(mid);
        assert(after[m] == mid.last());
        assert forall|k: int, i: int|
            rows.len() <= k < after.len() && 0 <= i < k implies (#[trigger] after[i]).id < (
            #[trigger] after[k]).id by {
            if k == m {
                assert(after[i] == rows[i]);
            } else {
                assert(after[i] == mid[i]);
            }
        }
    }
}

} // verus!
