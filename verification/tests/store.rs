use fractal_farm::models::{DuelResult, Fractal};
use fractal_farm::ranking::{offset_rank, DuelSetup, Next};
use fractal_farm::store::{FractalStore, StoreCommand};

fn row(id: i64, rank: Option<i64>) -> Fractal {
    Fractal {
        id,
        created_time: 0,
        json: format!("f{}", id),
        consumed: false,
        consumed_time: None,
        deleted: false,
        deleted_time: None,
        rank,
    }
}

fn ranks(s: &FractalStore) -> Vec<(i64, Option<i64>)> {
    s.rows().iter().map(|f| (f.id, f.rank)).collect()
}

fn ladder(n: i64) -> FractalStore {
    FractalStore::new((1..=n).map(|i| row(i, Some(i))).collect())
}

fn setup(s: &FractalStore, id: i64, high: i64, low: i64) -> (i64, i64, i64, i64) {
    let d: DuelSetup = s.rate(id, high, low);
    (d.aggressor, d.defender, d.high, d.low)
}

#[test]
fn commands_update_rows() {
    let mut s = FractalStore::new(vec![row(1, Some(1)), row(2, None), row(3, Some(150))]);
    s.apply(StoreCommand::SetRank { id: 2, rank: Some(2) });
    s.apply(StoreCommand::ClearRanksAbove { limit: 100 });
    assert_eq!(ranks(&s), vec![(1, Some(1)), (2, Some(2)), (3, None)]);
    s.apply(StoreCommand::MarkConsumed { id: 1, time: 77 });
    assert!(s.rows()[0].consumed);
    assert_eq!(s.rows()[0].consumed_time, Some(77));
    assert_eq!(s.rows()[0].rank, None);
    s.apply(StoreCommand::MarkDeleted { id: 2, time: 78 });
    assert!(s.rows()[1].deleted);
    assert_eq!(s.rows()[1].deleted_time, Some(78));
    s.apply(StoreCommand::RemoveUnranked);
    assert_eq!(ranks(&s), vec![(1, None), (2, None)]);
    s.apply(StoreCommand::Remove { id: 1 });
    assert_eq!(ranks(&s), vec![(2, None)]);
}

#[test]
fn offset_rank_moves_only_the_range() {
    let mut s = ladder(6);
    s.apply(StoreCommand::SetRank { id: 3, rank: None });
    s.apply_all(&offset_rank(4, 6, -1));
    assert_eq!(
        ranks(&s),
        vec![(1, Some(1)), (2, Some(2)), (3, None), (4, Some(3)), (5, Some(4)), (6, Some(5))]
    );
}

#[test]
fn first_submission_ranks_itself() {
    let mut s = FractalStore::new(Vec::new());
    let d = s.add_fractal(&String::from("j"), 50);
    assert_eq!((d.id, d.high, d.low), (2, 1, 1));
    assert_eq!(ranks(&s), vec![(1, Some(1)), (2, None)]);
    assert_eq!(s.rows()[1].json, "j");
    assert_eq!(s.rows()[1].created_time, 50);
    assert_eq!(setup(&s, 2, 1, 1), (2, 1, 1, 1));
}

#[test]
fn newcomer_wins_against_the_last() {
    let mut s = ladder(3);
    let d = s.add_fractal(&String::from("new"), 9);
    assert_eq!((d.id, d.high, d.low), (4, 1, 3));
    assert_eq!(setup(&s, 4, 1, 3), (4, 3, 1, 3));
    let next = s.above(&DuelResult { candidate: 4, pivot: 3, low: 3, high: 1 });
    assert_eq!(next, Next::Rate { candidate: 4, high: 1, low: 3 });
    assert_eq!(ranks(&s), vec![(1, Some(1)), (2, Some(2)), (3, Some(4)), (4, Some(3))]);
    // ranked now: the next duel is against the middle of the range
    assert_eq!(setup(&s, 4, 1, 3), (4, 2, 1, 3));
    let next = s.above(&DuelResult { candidate: 4, pivot: 2, low: 3, high: 1 });
    assert_eq!(next, Next::Rate { candidate: 4, high: 1, low: 2 });
    assert_eq!(ranks(&s), vec![(1, Some(1)), (2, Some(3)), (3, Some(4)), (4, Some(2))]);
    let next = s.below(&DuelResult { candidate: 4, pivot: 1, low: 2, high: 1 });
    assert_eq!(next, Next::Generate);
    assert_eq!(ranks(&s), vec![(1, Some(1)), (2, Some(3)), (3, Some(4)), (4, Some(2))]);
}

#[test]
fn newcomer_losing_is_discarded() {
    let mut s = ladder(3);
    s.add_fractal(&String::from("new"), 9);
    let next = s.below(&DuelResult { candidate: 4, pivot: 3, low: 3, high: 1 });
    assert_eq!(next, Next::Generate);
    assert_eq!(ranks(&s), vec![(1, Some(1)), (2, Some(2)), (3, Some(3))]);
}

#[test]
fn full_ranking_drops_the_last() {
    let mut s = ladder(100);
    s.add_fractal(&String::from("new"), 9);
    s.above(&DuelResult { candidate: 101, pivot: 50, low: 100, high: 1 });
    assert_eq!(s.rows()[100].rank, Some(50));
    assert_eq!(s.rows()[49].rank, Some(51));
    assert_eq!(s.rows()[98].rank, Some(100));
    assert_eq!(s.rows()[99].rank, None);
}

#[test]
fn self_duel_takes_first_place() {
    let mut s = FractalStore::new(vec![row(1, None)]);
    assert_eq!(s.below(&DuelResult { candidate: 1, pivot: 1, low: 1, high: 1 }), Next::Generate);
    assert_eq!(ranks(&s), vec![(1, Some(1))]);
}

#[test]
fn below_with_better_ranked_candidate_takes_pivot_place() {
    let mut s = ladder(5);
    let next = s.below(&DuelResult { candidate: 2, pivot: 4, low: 5, high: 1 });
    assert_eq!(next, Next::Generate);
    assert_eq!(ranks(&s), vec![(1, Some(1)), (2, Some(4)), (3, Some(2)), (4, Some(3)), (5, Some(5))]);
}

#[test]
fn consume_takes_the_best_and_moves_the_rest_up() {
    let mut s = ladder(3);
    s.apply(StoreCommand::SetRank { id: 1, rank: Some(2) });
    s.apply(StoreCommand::SetRank { id: 2, rank: Some(1) });
    s.add_fractal(&String::from("unrated"), 3);
    let json = s.consume(99);
    assert_eq!(json, String::from("f2"));
    assert_eq!(ranks(&s), vec![(1, Some(1)), (2, None), (3, Some(2))]);
    assert!(s.rows()[1].consumed);
    assert_eq!(s.rows()[1].consumed_time, Some(99));
    assert_eq!(s.consume(100), String::from("f1"));
    assert_eq!(s.consume(101), String::from("f3"));
}

#[test]
fn delete_trashes_and_moves_the_rest_up() {
    let mut s = ladder(4);
    assert_eq!(s.delete(2, 500), Next::Top);
    assert_eq!(ranks(&s), vec![(1, Some(1)), (2, None), (3, Some(2)), (4, Some(3))]);
    assert!(s.rows()[1].deleted);
    assert_eq!(s.rows()[1].deleted_time, Some(500));
}

#[test]
fn cleanup_keeps_ranked_consumed_and_deleted() {
    let mut s = FractalStore::new(vec![row(1, Some(1)), row(2, None), row(3, None), row(4, None)]);
    s.apply(StoreCommand::MarkDeleted { id: 3, time: 1 });
    s.apply(StoreCommand::MarkConsumed { id: 4, time: 1 });
    s.cleanup();
    assert_eq!(ranks(&s), vec![(1, Some(1)), (3, None), (4, None)]);
}

#[test]
fn rank_queries() {
    let s = FractalStore::new(vec![row(1, Some(3)), row(2, None), row(3, Some(1))]);
    assert_eq!(s.rank_of(1), Some(Some(3)));
    assert_eq!(s.rank_of(2), Some(None));
    assert_eq!(s.rank_of(5), None);
    assert_eq!(s.rank_extremes(), (Some(1), Some(3)));
    assert!(s.has_ranking());
    assert!(!FractalStore::new(vec![row(1, Some(101))]).has_ranking());
}

#[test]
fn store_offset_rank_moves_down() {
    let mut s = ladder(4);
    s.apply(StoreCommand::SetRank { id: 4, rank: None });
    s.offset_rank(2, 3, 1);
    assert_eq!(ranks(&s), vec![(1, Some(1)), (2, Some(3)), (3, Some(4)), (4, None)]);
}
