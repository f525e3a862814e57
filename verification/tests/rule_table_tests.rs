use wasm_ca::rule_table::{rule_table_width, RuleTableDraft};

#[test]
fn width_has_an_entry_per_neighbourhood_sum() {
    assert_eq!(rule_table_width(1), 1);
    assert_eq!(rule_table_width(2), 4);
    assert_eq!(rule_table_width(4), 10);
    assert_eq!(rule_table_width(255), 763);
}

#[test]
fn draft_wants_draws_until_target_is_reached() {
    let mut d = RuleTableDraft::new(vec![1, 2, 3, 1, 2], 2);
    assert!(d.needs_more());
    d.offer(3);
    assert!(d.needs_more());
    d.offer(3);
    assert!(d.needs_more());
    d.offer(0);
    assert!(!d.needs_more());
    assert_eq!(d.finish(), vec![0, 2, 3, 0, 2]);
}

#[test]
fn draft_with_zero_target_keeps_all_entries() {
    let d = RuleTableDraft::new(vec![1, 1, 1, 1], 0);
    assert!(!d.needs_more());
    assert_eq!(d.finish(), vec![1, 1, 1, 1]);
}

#[test]
fn finished_table_has_target_zeros() {
    let entries = vec![3, 1, 2, 3, 1, 2, 3];
    let mut d = RuleTableDraft::new(entries, 3);
    let draws = [6usize, 2, 6, 2, 5];
    let mut k = 0;
    while d.needs_more() {
        d.offer(draws[k]);
        k += 1;
    }
    assert_eq!(k, 5);
    let table = d.finish();
    assert_eq!(table, vec![3, 1, 0, 3, 1, 0, 0]);
    assert_eq!(table.iter().filter(|&&x| x == 0).count(), 3);
}

#[test]
fn index_range_end_truncates_to_u8() {
    let d = RuleTableDraft::new(vec![1; 10], 0);
    assert_eq!(d.index_range_end(), 10);
    let d = RuleTableDraft::new(vec![1; rule_table_width(87)], 0);
    assert_eq!(d.index_range_end(), 3);
    let d = RuleTableDraft::new(vec![1; 256], 0);
    assert_eq!(d.index_range_end(), 0);
}
