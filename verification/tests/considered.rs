use mz_rs::considered::{sequence_of_considered_visits, table_of_considered_visits};

#[test]
fn considered_visits_match_mctx() {
    assert_eq!(sequence_of_considered_visits(4, 8), vec![0, 0, 0, 0, 1, 1, 2, 2]);
    assert_eq!(sequence_of_considered_visits(2, 4), vec![0, 0, 1, 1]);
    assert_eq!(sequence_of_considered_visits(1, 5), vec![0, 1, 2, 3, 4]);
}

#[test]
fn considered_visit_sequences() {
    assert_eq!(sequence_of_considered_visits(4, 8), vec![0, 0, 0, 0, 1, 1, 2, 2]);
    assert_eq!(sequence_of_considered_visits(2, 4), vec![0, 0, 1, 1]);
    assert_eq!(sequence_of_considered_visits(1, 5), vec![0, 1, 2, 3, 4]);
    assert_eq!(sequence_of_considered_visits(0, 3), vec![0, 1, 2]);

    let table = table_of_considered_visits(16, 50);
    assert_eq!(table.len(), 17);
    for row in &table {
        assert_eq!(row.len(), 50);
    }
}

#[test]
fn considered_visits_start_with_top_m_draw() {
    let sequence = sequence_of_considered_visits(8, 32);
    assert!(sequence[..8].iter().all(|&v| v == 0));
    assert_ne!(sequence[8], 0);
}

/// Playing a sequence on as many actions as it considers at first always finds one with
/// the visits that are asked for.
#[test]
fn a_candidate_is_always_there() {
    for considered in 1..20 {
        let mut visits = vec![0usize; considered];
        for threshold in sequence_of_considered_visits(considered, 200) {
            let action = visits.iter().position(|&v| v == threshold).expect("a candidate");
            visits[action] += 1;
        }
        assert_eq!(visits.iter().sum::<usize>(), 200);
    }
}

#[test]
fn an_enormous_number_of_actions_is_no_trouble() {
    assert_eq!(sequence_of_considered_visits(usize::MAX, 3), vec![0, 0, 0]);
}
