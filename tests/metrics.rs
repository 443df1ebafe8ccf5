use rankings::{
    Action, MemoryStore, Metadata, Metric, MetricError, NumMetric,
    SuccessCardToTableMeta, WonGameMeta,
};

#[test]
fn can_create_new_won_game() {
    let mock_users_list = vec![String::from("testId"), String::from("testId1")];
    let mock_results_list = vec![(String::from("testId"), 32), (String::from("testId1"), 24)];
    let won_game_event =
        NumMetric::create_won_game(String::from("testId"), 12345, mock_users_list, mock_results_list);
    let view_new_game_event = won_game_event.get_data();
    assert_eq!(view_new_game_event.0, String::from("testId"));
    assert_eq!(view_new_game_event.1, Action::WonGame);
}

#[test]
fn can_create_new_success_card_to_table() {
    let mock_users_list = vec![String::from("testId"), String::from("testId1")];
    let mock_results_list = vec![(String::from("testId"), 32), (String::from("testId1"), 24)];
    let success_card_to_table_event = NumMetric::create_success_card_to_table(
        String::from("testId"),
        12345,
        mock_users_list,
        mock_results_list,
    );
    let view_new_game_event = success_card_to_table_event.get_data();
    assert_eq!(view_new_game_event.0, String::from("testId"));
    assert_eq!(view_new_game_event.1, Action::SuccessCardToTable);
}

#[test]
fn named_constructors_count_one_occurrence_at_the_given_date() {
    let won = NumMetric::create_won_game(String::from("p1"), 77, vec![], vec![]);
    assert_eq!(won.get_data(), (String::from("p1"), Action::WonGame, 1, 77));
    let card = NumMetric::create_success_card_to_table(String::from("p2"), 0, vec![], vec![]);
    assert_eq!(card.get_data(), (String::from("p2"), Action::SuccessCardToTable, 1, 0));
}

#[test]
fn reading_a_metric_twice_gives_the_same_data() {
    let won = NumMetric::create_won_game(String::from("p1"), 9, vec![], vec![]);
    assert_eq!(won.get_data(), won.get_data());
}

#[test]
fn metadata_with_a_timestamp_builds_a_metric() {
    let meta = Metadata::WonGame(WonGameMeta {
        date: Some(42),
        participants: vec![String::from("p1"), String::from("p2")],
        results: vec![(String::from("p1"), 3)],
    });
    let m = NumMetric::from_metadata(String::from("p1"), meta).unwrap();
    assert_eq!(m.get_data(), (String::from("p1"), Action::WonGame, 1, 42));
    assert_eq!(m.metadata().timestamp(), Some(42));
}

#[test]
fn metadata_without_a_timestamp_is_invalid() {
    let meta = Metadata::SuccessCardToTable(SuccessCardToTableMeta {
        date: None,
        participants: vec![String::from("p1")],
        partial_results: vec![],
    });
    let r = NumMetric::from_metadata(String::from("p1"), meta);
    assert_eq!(
        r.err(),
        Some(MetricError::InvalidMetadata {
            player_id: String::from("p1"),
            action: Action::SuccessCardToTable,
        })
    );
}

#[test]
fn saving_hands_the_metric_to_the_store() {
    let mut store = MemoryStore::new();
    let m = NumMetric::create_won_game(String::from("p1"), 5, vec![], vec![]);
    assert!(m.save(&mut store).is_ok());
    assert_eq!(store.len(), 1);
    assert_eq!(store.record(0), (&String::from("p1"), Action::WonGame, 1, 5));
    let c = NumMetric::create_success_card_to_table(String::from("p2"), 8, vec![], vec![]);
    assert!(c.save(&mut store).is_ok());
    assert_eq!(store.len(), 2);
    assert_eq!(store.record(1), (&String::from("p2"), Action::SuccessCardToTable, 1, 8));
}

#[test]
fn a_storage_failure_is_passed_through() {
    let mut store = MemoryStore::new();
    store.close();
    assert!(store.is_closed());
    let m = NumMetric::create_won_game(String::from("p1"), 5, vec![], vec![]);
    let r = m.save(&mut store);
    assert_eq!(r.err().map(|e| e.reason), Some(String::from("the store is closed")));
    assert_eq!(store.len(), 0);
}

#[test]
fn closing_keeps_what_was_stored() {
    let mut store = MemoryStore::new();
    let m = NumMetric::create_won_game(String::from("p1"), 5, vec![], vec![]);
    assert!(m.save(&mut store).is_ok());
    store.close();
    let again = NumMetric::create_won_game(String::from("p1"), 6, vec![], vec![]);
    assert!(again.save(&mut store).is_err());
    assert_eq!(store.len(), 1);
    assert_eq!(store.record(0), (&String::from("p1"), Action::WonGame, 1, 5));
}

#[test]
fn constructors_keep_the_payload() {
    let users = vec![String::from("a"), String::from("b")];
    let results = vec![(String::from("a"), 3), (String::from("b"), 1)];
    let won = NumMetric::create_won_game(String::from("a"), 31, users.clone(), results.clone());
    match won.metadata() {
        Metadata::WonGame(meta) => {
            assert_eq!(meta.date, Some(31));
            assert_eq!(meta.participants, users);
            assert_eq!(meta.results, results);
        }
        _ => panic!("a won game keeps won-game metadata"),
    }
    assert_eq!(won.metadata().action(), Action::WonGame);
    let card = NumMetric::create_success_card_to_table(String::from("b"), 32, users.clone(), results.clone());
    match card.metadata() {
        Metadata::SuccessCardToTable(meta) => {
            assert_eq!(meta.date, Some(32));
            assert_eq!(meta.participants, users);
            assert_eq!(meta.partial_results, results);
        }
        _ => panic!("a card on the table keeps its own metadata"),
    }
    assert_eq!(card.metadata().timestamp(), Some(32));
}
