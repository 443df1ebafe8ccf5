use rankings::{Action, NumMetric, Ranking, RankingMethods};

fn rank_of(r: &Ranking) -> Vec<(String, isize)> {
    r.get_rank().iter().map(|e| (e.player_id().clone(), e.value())).collect()
}

fn wins_ranking() -> Ranking {
    Ranking::new(String::from("weekly-wins"), vec![Action::WonGame], (0, 100))
}

fn won(player: &str, ts: u32) -> NumMetric {
    NumMetric::create_won_game(String::from(player), ts, vec![], vec![])
}

fn card(player: &str, ts: u32) -> NumMetric {
    NumMetric::create_success_card_to_table(String::from(player), ts, vec![], vec![])
}

#[test]
fn new_ranking_is_empty() {
    let r = wins_ranking();
    assert!(r.get_rank().is_empty());
    assert_eq!(r.name(), &String::from("weekly-wins"));
    assert_eq!(r.affected_actions(), &vec![Action::WonGame]);
    assert_eq!(r.date_range(), (0, 100));
}

#[test]
fn equal_values_are_ordered_by_player_id() {
    let mut r = wins_ranking();
    r.update(&won("p1", 50));
    r.update(&won("p2", 60));
    assert_eq!(rank_of(&r), vec![(String::from("p1"), 1), (String::from("p2"), 1)]);
}

#[test]
fn tie_break_does_not_depend_on_arrival() {
    let mut r = wins_ranking();
    r.update(&won("p2", 60));
    r.update(&won("p1", 50));
    assert_eq!(rank_of(&r), vec![(String::from("p1"), 1), (String::from("p2"), 1)]);
}

#[test]
fn metric_after_the_range_is_ignored() {
    let mut r = wins_ranking();
    r.update(&won("p1", 150));
    assert!(rank_of(&r).is_empty());
}

#[test]
fn range_bounds_are_inclusive() {
    let mut r = wins_ranking();
    r.update(&won("a", 0));
    r.update(&won("b", 100));
    r.update(&won("c", 101));
    assert_eq!(rank_of(&r), vec![(String::from("a"), 1), (String::from("b"), 1)]);
}

#[test]
fn metrics_of_one_player_are_summed() {
    let mut r = wins_ranking();
    r.update(&won("p1", 10));
    r.update(&won("p1", 20));
    assert_eq!(rank_of(&r), vec![(String::from("p1"), 2)]);
}

#[test]
fn action_outside_the_ranking_is_ignored() {
    let mut r = wins_ranking();
    r.update(&won("p1", 10));
    r.update(&card("p2", 10));
    assert_eq!(rank_of(&r), vec![(String::from("p1"), 1)]);
}

#[test]
fn failing_metric_twice_is_like_not_at_all() {
    let mut r = wins_ranking();
    r.update(&won("p1", 10));
    let before = rank_of(&r);
    r.update(&won("p1", 500));
    r.update(&won("p1", 500));
    assert_eq!(rank_of(&r), before);
}

#[test]
fn invalid_metadata_leaves_rankings_untouched() {
    let mut r = wins_ranking();
    r.update(&won("p1", 10));
    let before = rank_of(&r);
    let meta = rankings::Metadata::WonGame(rankings::WonGameMeta {
        date: None,
        participants: vec![],
        results: vec![],
    });
    let built = NumMetric::from_metadata(String::from("p9"), meta);
    assert!(built.is_err());
    if let Ok(m) = built {
        r.update(&m);
    }
    assert_eq!(rank_of(&r), before);
}

#[test]
fn higher_totals_come_first() {
    let mut r = wins_ranking();
    r.update(&won("a", 1));
    r.update(&won("b", 2));
    r.update(&won("b", 3));
    r.update(&won("c", 4));
    r.update(&won("c", 5));
    r.update(&won("c", 6));
    assert_eq!(
        rank_of(&r),
        vec![(String::from("c"), 3), (String::from("b"), 2), (String::from("a"), 1)]
    );
}

#[test]
fn a_player_moves_up_when_credited() {
    let mut r = wins_ranking();
    r.update(&won("a", 1));
    r.update(&won("b", 1));
    r.update(&won("c", 1));
    r.update(&won("c", 2));
    assert_eq!(
        rank_of(&r),
        vec![(String::from("c"), 2), (String::from("a"), 1), (String::from("b"), 1)]
    );
}

#[test]
fn order_of_application_does_not_matter() {
    let events = [("x", 1), ("y", 2), ("x", 3), ("z", 4), ("y", 5), ("x", 6)];
    let mut forward = wins_ranking();
    for (p, ts) in events.iter() {
        forward.update(&won(p, *ts));
    }
    let mut backward = wins_ranking();
    for (p, ts) in events.iter().rev() {
        backward.update(&won(p, *ts));
    }
    assert_eq!(rank_of(&forward), rank_of(&backward));
    assert_eq!(
        rank_of(&forward),
        vec![(String::from("x"), 3), (String::from("y"), 2), (String::from("z"), 1)]
    );
}

#[test]
fn list_stays_sorted_and_unique() {
    let mut r = Ranking::new(
        String::from("all"),
        vec![Action::WonGame, Action::SuccessCardToTable],
        (0, 1000),
    );
    let ids = ["d", "b", "a", "c", "b", "ab", "a", "d", "d", ""];
    for (k, p) in ids.iter().enumerate() {
        if k % 2 == 0 {
            r.update(&won(p, k as u32));
        } else {
            r.update(&card(p, k as u32));
        }
        let ranked = rank_of(&r);
        for w in ranked.windows(2) {
            assert!(w[0].1 > w[1].1 || (w[0].1 == w[1].1 && w[0].0 < w[1].0));
        }
    }
    assert_eq!(
        rank_of(&r),
        vec![
            (String::from("d"), 3),
            (String::from("a"), 2),
            (String::from("b"), 2),
            (String::from(""), 1),
            (String::from("ab"), 1),
            (String::from("c"), 1),
        ]
    );
}

#[test]
fn record_credits_the_given_value() {
    let mut r = wins_ranking();
    r.record(&String::from("p1"), Action::WonGame, 5, 10);
    r.record(&String::from("p2"), Action::WonGame, 7, 10);
    r.record(&String::from("p1"), Action::WonGame, 4, 10);
    r.record(&String::from("p3"), Action::WonGame, 0, 10);
    assert_eq!(
        rank_of(&r),
        vec![(String::from("p1"), 9), (String::from("p2"), 7), (String::from("p3"), 0)]
    );
}

#[test]
fn accepts_follows_actions_and_range() {
    let r = wins_ranking();
    assert!(r.accepts(Action::WonGame, 0));
    assert!(r.accepts(Action::WonGame, 100));
    assert!(!r.accepts(Action::WonGame, 101));
    assert!(!r.accepts(Action::LostGame, 50));
}

#[test]
fn score_reports_a_players_total() {
    let mut r = wins_ranking();
    r.update(&won("p1", 10));
    r.update(&won("p1", 20));
    r.update(&won("p2", 20));
    assert_eq!(r.score(&String::from("p1")), 2);
    assert_eq!(r.score(&String::from("p2")), 1);
    assert_eq!(r.score(&String::from("p3")), 0);
}
