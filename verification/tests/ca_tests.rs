use wasm_ca::ca::CA;

fn expand(rows: &[Vec<u8>]) -> Vec<u32> {
    let mut out = Vec::new();
    for row in rows {
        for &c in row {
            for _ in 0..6 {
                out.push(c as u32);
            }
        }
    }
    out
}

fn colors(ca: &CA) -> Vec<u32> {
    ca.cell_types().iter().copied().collect()
}

// Rule table for two states: a cell is alive when exactly one or two of its
// neighbourhood are alive.
fn two_state_rules() -> Vec<u8> {
    vec![0, 1, 1, 0]
}

#[test]
fn new_starts_with_dead_history_and_initial_row() {
    let ca = CA::new(5, 3, two_state_rules(), vec![0, 0, 1, 0, 0]);
    assert_eq!(ca.size(), 5);
    assert_eq!(ca.num_steps, 3);
    assert_eq!(ca.rule_table(), &vec![0, 1, 1, 0]);
    assert_eq!(
        ca.universe(),
        &vec![vec![0, 0, 0, 0, 0], vec![0, 0, 0, 0, 0], vec![0, 0, 1, 0, 0]]
    );
    assert_eq!(colors(&ca), vec![0u32; 5 * 3 * 6]);
}

#[test]
fn next_generation_applies_rule_to_neighbourhood_sums() {
    let mut ca = CA::new(5, 3, two_state_rules(), vec![0, 0, 1, 0, 0]);
    ca.next_generation();
    assert_eq!(
        ca.universe(),
        &vec![vec![0, 0, 0, 0, 0], vec![0, 0, 1, 0, 0], vec![0, 1, 1, 1, 0]]
    );
    ca.next_generation();
    // sums of [0,1,1,1,0]: 1, 2, 3, 2, 1
    assert_eq!(
        ca.universe(),
        &vec![vec![0, 0, 1, 0, 0], vec![0, 1, 1, 1, 0], vec![1, 1, 0, 1, 1]]
    );
}

#[test]
fn next_generation_wraps_around_row_ends() {
    let mut ca = CA::new(4, 2, two_state_rules(), vec![1, 0, 0, 0]);
    ca.next_generation();
    assert_eq!(ca.universe()[1], vec![1, 1, 0, 1]);
}

#[test]
fn next_generation_on_rows_of_one_and_two_cells() {
    let mut one = CA::new(1, 2, vec![0, 0, 0, 1], vec![1]);
    one.next_generation();
    // the single cell is its own left and right neighbour: sum 3
    assert_eq!(one.universe()[1], vec![1]);

    let mut two = CA::new(2, 2, vec![5, 6, 7, 8, 9, 10, 11], vec![2, 0]);
    two.next_generation();
    // cell 0: 0 + 2 + 0 = 2, cell 1: 2 + 0 + 2 = 4
    assert_eq!(two.universe()[1], vec![7, 9]);
}

#[test]
fn update_all_cell_colors_shows_whole_history() {
    let mut ca = CA::new(3, 2, vec![0, 2, 1, 0, 2, 1, 0], vec![1, 2, 0]);
    ca.next_generation();
    let entries = ca.update_all_cell_colors().to_vec();
    assert_eq!(entries.len(), 36);
    let rows: Vec<Vec<u8>> = ca.universe().clone();
    assert_eq!(rows, vec![vec![1, 2, 0], vec![0, 0, 0]]);
    assert_eq!(colors(&ca), expand(&rows));
    assert_eq!(entries, expand(&rows));
}

#[test]
fn update_cell_colors_scrolls_by_one_row() {
    let mut ca = CA::new(2, 3, two_state_rules(), vec![1, 0]);
    let mut expected = vec![0u32; 36];
    let entries = ca.update_cell_colors().to_vec();
    expected.drain(0..12);
    expected.extend(vec![1, 1, 1, 1, 1, 1, 0, 0, 0, 0, 0, 0]);
    assert_eq!(entries, expected);
    assert_eq!(colors(&ca), expected);
    let (front, back) = ca.cell_types().as_slices();
    assert_eq!(front.len(), 36);
    assert!(back.is_empty());
}

#[test]
fn generation_then_scroll_keeps_colors_in_sync() {
    let mut ca = CA::new(4, 3, two_state_rules(), vec![1, 0, 1, 0]);
    ca.update_all_cell_colors();
    for _ in 0..5 {
        ca.next_generation();
        ca.update_cell_colors();
        let rows = ca.universe().clone();
        assert_eq!(colors(&ca), expand(&rows));
    }
}

#[test]
fn num_verts_counts_six_per_cell() {
    let ca = CA::new(7, 4, two_state_rules(), vec![0; 7]);
    assert_eq!(ca.num_verts(), 168);
    assert_eq!(ca.num_verts() as usize, ca.cell_types().len());
}

#[test]
fn cell_verts_lists_two_triangles_per_cell_newest_row_first() {
    let ca = CA::new(2, 2, two_state_rules(), vec![0, 0]);
    let v = ca.cell_verts();
    assert_eq!(v.len(), 2 * 2 * 12);
    assert_eq!(v.len(), 2 * ca.cell_types().len());
    // first drawn row is step 1, column 0
    assert_eq!(&v[0..12], &[0, 2, 0, 1, 1, 1, 0, 2, 1, 1, 1, 2]);
    // step 1, column 1
    assert_eq!(&v[12..24], &[1, 2, 1, 1, 2, 1, 1, 2, 2, 1, 2, 2]);
    // step 0, column 0
    assert_eq!(&v[24..36], &[0, 1, 0, 0, 1, 0, 0, 1, 1, 0, 1, 1]);
}

#[test]
fn running_all_steps_draws_each_generation() {
    let mut ca = CA::new(5, 4, two_state_rules(), vec![0, 0, 1, 0, 0]);
    let steps = ca.num_steps;
    assert_eq!(ca.run_generations(steps - 1), 3);
    assert_eq!(
        ca.universe(),
        &vec![
            vec![0, 0, 1, 0, 0],
            vec![0, 1, 1, 1, 0],
            vec![1, 1, 0, 1, 1],
            vec![0, 1, 1, 1, 0],
        ]
    );
    ca.update_all_cell_colors();
    let rows = ca.universe().clone();
    assert_eq!(colors(&ca), expand(&rows));
}

#[test]
fn run_generations_of_zero_changes_nothing() {
    let mut ca = CA::new(3, 1, two_state_rules(), vec![1, 1, 0]);
    assert_eq!(ca.run_generations(0), 0);
    assert_eq!(ca.universe(), &vec![vec![1, 1, 0]]);
}

#[test]
fn can_build_checks_every_part() {
    let rules = two_state_rules();
    assert!(CA::can_build(3, 2, &rules, &vec![0, 1, 0]));
    assert!(!CA::can_build(3, 0, &rules, &vec![0, 1, 0]));
    assert!(!CA::can_build(3, 2, &rules, &vec![0, 1]));
    // an empty table is accepted too; no step can then be taken
    assert!(CA::can_build(3, 2, &vec![], &vec![0, 1, 0]));
    // states that do not fit the table are accepted: only a step refuses them
    assert!(CA::can_build(3, 2, &rules, &vec![0, 2, 0]));
    assert!(CA::can_build(1, 2, &vec![1], &vec![0]));
    assert!(!CA::can_build(usize::MAX, 2, &rules, &vec![]));
}

#[test]
fn one_cell_type_automaton_runs_until_its_table_is_outgrown() {
    // the table of an automaton with one cell type whose only rule is kept
    let mut ca = CA::new(2, 2, vec![1], vec![0, 0]);
    assert!(ca.can_step());
    let all = ca.update_cell_colors().to_vec();
    assert_eq!(all, vec![0u32; 24]);
    ca.next_generation();
    assert_eq!(ca.universe(), &vec![vec![0, 0], vec![1, 1]]);
    let entries = ca.update_all_cell_colors().to_vec();
    assert_eq!(entries, [vec![0u32; 12], vec![1u32; 12]].concat());
    // the next neighbourhoods sum to 3, past the one-entry table
    assert!(!ca.can_step());
}

#[test]
fn run_generations_stops_before_an_impossible_step() {
    let mut ca = CA::new(2, 3, vec![1], vec![0, 0]);
    assert_eq!(ca.run_generations(5), 1);
    assert_eq!(ca.universe(), &vec![vec![0, 0], vec![0, 0], vec![1, 1]]);
}

#[test]
fn can_step_needs_room_and_cells() {
    let ca = CA::new(3, 1, two_state_rules(), vec![0, 0, 0]);
    assert!(!ca.can_step());
    let ca = CA::new(0, 2, two_state_rules(), vec![]);
    assert!(!ca.can_step());
    let ca = CA::new(3, 2, two_state_rules(), vec![0, 1, 0]);
    assert!(ca.can_step());
}

#[test]
fn frames_from_new_automaton_keep_colors_in_sync() {
    let mut ca = CA::new(3, 4, two_state_rules(), vec![0, 1, 0]);
    for _ in 0..6 {
        let entries = ca.update_cell_colors().to_vec();
        let rows = ca.universe().clone();
        assert_eq!(entries, expand(&rows));
        ca.next_generation();
    }
}

#[test]
fn rotated_row_steps_to_rotated_row() {
    let mut a = CA::new(5, 2, two_state_rules(), vec![1, 1, 0, 0, 0]);
    let mut b = CA::new(5, 2, two_state_rules(), vec![0, 0, 0, 1, 1]);
    a.next_generation();
    b.next_generation();
    let mut rotated = a.universe()[1].clone();
    rotated.rotate_left(2);
    assert_eq!(b.universe()[1], rotated);
}
