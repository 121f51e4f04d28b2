use fractal_farm::models::DuelResult;
use fractal_farm::ranking::{
    above_plan, below_plan, consume_followup, delete_plan, fractals_to_insert, offset_rank,
    opponent_rank, self_duel, submit_details, Next,
};
use fractal_farm::store::StoreCommand;
use fractal_farm::MAX;

fn duel(candidate: i64, pivot: i64, high: i64, low: i64) -> DuelResult {
    DuelResult { candidate, pivot, low, high }
}

#[test]
fn offset_rank_parks_then_settles() {
    assert_eq!(
        offset_rank(3, 5, -1),
        vec![
            StoreCommand::ShiftRanks { lo: 3, hi: 5, delta: 100 },
            StoreCommand::ShiftRanks { lo: 103, hi: 105, delta: -101 },
        ]
    );
    assert_eq!(
        offset_rank(2, MAX + 1, 1),
        vec![
            StoreCommand::ShiftRanks { lo: 2, hi: 101, delta: 101 },
            StoreCommand::ShiftRanks { lo: 103, hi: 202, delta: -100 },
        ]
    );
}

#[test]
fn opponent_is_the_middle_or_the_worst() {
    assert_eq!(opponent_rank(Some(4), 1, 10), 5);
    assert_eq!(opponent_rank(Some(4), 3, 4), 3);
    assert_eq!(opponent_rank(Some(1), -3, 0), -1);
    assert_eq!(opponent_rank(None, 1, 10), 10);
}

#[test]
fn bisection_narrows() {
    for high in 1i64..20 {
        for low in (high + 1)..25 {
            let o = opponent_rank(Some(1), high, low);
            assert!(high <= o && o < low);
        }
    }
}

#[test]
fn self_duel_ranks_first() {
    let p = self_duel(&duel(7, 7, 1, 1)).unwrap();
    assert_eq!(p.commands, vec![StoreCommand::SetRank { id: 7, rank: Some(1) }]);
    assert_eq!(p.next, Next::Generate);
    assert!(self_duel(&duel(7, 8, 1, 1)).is_none());
}

#[test]
fn below_removes_newcomer_or_last_place() {
    let p = below_plan(&duel(9, 2, 1, 5), Some(3), None);
    assert_eq!(p.commands, vec![StoreCommand::Remove { id: 9 }]);
    assert_eq!(p.next, Next::Generate);
    let p = below_plan(&duel(9, 2, 1, 100), Some(MAX), Some(4));
    assert_eq!(p.commands, vec![StoreCommand::Remove { id: 9 }]);
    assert_eq!(p.next, Next::Generate);
}

#[test]
fn below_continues_under_the_pivot() {
    let p = below_plan(&duel(9, 2, 1, 8), Some(3), Some(6));
    assert!(p.commands.is_empty());
    assert_eq!(p.next, Next::Rate { candidate: 9, high: 4, low: 8 });
    let p = below_plan(&duel(9, 2, 1, 4), Some(3), Some(6));
    assert_eq!(p.next, Next::Generate);
    let p = below_plan(&duel(9, 2, 1, 8), None, Some(6));
    assert_eq!(p.next, Next::Rate { candidate: 9, high: 2, low: 8 });
}

#[test]
fn below_moves_better_ranked_candidate_to_pivot_place() {
    let p = below_plan(&duel(9, 2, 1, 8), Some(5), Some(2));
    assert_eq!(
        p.commands,
        vec![
            StoreCommand::SetRank { id: 9, rank: None },
            StoreCommand::ShiftRanks { lo: 2, hi: 5, delta: 100 },
            StoreCommand::ShiftRanks { lo: 102, hi: 105, delta: -101 },
            StoreCommand::SetRank { id: 9, rank: Some(5) },
            StoreCommand::ClearRanksAbove { limit: MAX },
        ]
    );
    assert_eq!(p.next, Next::Rate { candidate: 9, high: 6, low: 8 });
}

#[test]
fn above_takes_the_pivot_place() {
    let p = above_plan(&duel(9, 2, 1, 8), 4, None);
    assert_eq!(
        p.commands,
        vec![
            StoreCommand::SetRank { id: 9, rank: None },
            StoreCommand::ShiftRanks { lo: 4, hi: 101, delta: 101 },
            StoreCommand::ShiftRanks { lo: 105, hi: 202, delta: -100 },
            StoreCommand::SetRank { id: 9, rank: Some(4) },
            StoreCommand::ClearRanksAbove { limit: MAX },
        ]
    );
    assert_eq!(p.next, Next::Rate { candidate: 9, high: 1, low: 4 });
    let p = above_plan(&duel(9, 2, 4, 8), 4, Some(6));
    assert_eq!(p.commands.len(), 5);
    assert_eq!(p.next, Next::Generate);
    let p = above_plan(&duel(9, 2, 1, 8), 4, Some(2));
    assert!(p.commands.is_empty());
}

#[test]
fn consume_and_delete_close_the_gap() {
    assert_eq!(
        consume_followup(Some(7)),
        vec![
            StoreCommand::ShiftRanks { lo: 2, hi: 7, delta: 100 },
            StoreCommand::ShiftRanks { lo: 102, hi: 107, delta: -101 },
        ]
    );
    assert_eq!(consume_followup(None), offset_rank(2, 1, -1));
    assert_eq!(
        delete_plan(5, 3, 1234),
        vec![
            StoreCommand::MarkDeleted { id: 5, time: 1234 },
            StoreCommand::ShiftRanks { lo: 3, hi: 100, delta: 100 },
            StoreCommand::ShiftRanks { lo: 103, hi: 200, delta: -101 },
        ]
    );
}

#[test]
fn insertions_for_empty_and_filled_rankings() {
    let json = String::from("{\"a\":1}");
    let v = fractals_to_insert(&json, true);
    assert_eq!(v.len(), 2);
    assert_eq!((v[0].json.as_str(), v[0].rank), ("{\"a\":1}", Some(1)));
    assert_eq!((v[1].json.as_str(), v[1].rank), ("{\"a\":1}", None));
    let v = fractals_to_insert(&json, false);
    assert_eq!(v.len(), 1);
    assert_eq!(v[0].rank, None);
}

#[test]
fn submit_details_default_to_one() {
    let d = submit_details(12, Some(1), Some(40));
    assert_eq!((d.id, d.high, d.low), (12, 1, 40));
    let d = submit_details(3, None, None);
    assert_eq!((d.id, d.high, d.low), (3, 1, 1));
}
