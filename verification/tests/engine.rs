use knucklebones::Knucklebones;

fn new_game(columns: usize, rows: usize, max_die: u8) -> Knucklebones {
    Knucklebones::new(columns, rows, max_die)
}

#[test]
fn new_game_starts_empty_with_player_zero() {
    let g = new_game(3, 3, 6);
    assert_eq!(g.get_current_player(), 0);
    assert_eq!(g.get_number_of_elements(0), 0);
    assert_eq!(g.get_number_of_elements(1), 0);
    assert!(!g.is_game_over());
    let boards = g.get_boards();
    assert_eq!(boards.len(), 2);
    for b in &boards {
        let grid = b.get_board();
        assert_eq!(grid.len(), 3);
        for col in &grid {
            assert_eq!(col.len(), 3);
            assert!(col.iter().all(|&c| c == 0));
        }
    }
}

#[test]
fn initial_die_is_in_range() {
    for _ in 0..32 {
        let g = new_game(3, 3, 6);
        let d = g.get_dice_value();
        assert!((1..=6).contains(&d));
    }
    // With a single face the roll has no freedom at all.
    let g = new_game(2, 2, 1);
    assert_eq!(g.get_dice_value(), 1);
}

#[test]
fn placement_fills_lowest_empty_cell_and_counts() {
    let mut g = new_game(3, 3, 6);
    assert!(g.add_value_to_column(1, 0, 4));
    assert_eq!(g.get_number_of_elements(0), 1);
    assert_eq!(g.get_boards()[0].get_board()[1][0], 4);

    assert!(g.add_value_to_column(1, 0, 2));
    assert_eq!(g.get_number_of_elements(0), 2);
    assert_eq!(g.get_boards()[0].get_board()[1][1], 2);

    assert!(g.add_value_to_column(1, 0, 6));
    assert_eq!(g.get_number_of_elements(0), 3);
    assert_eq!(g.get_boards()[0].get_board()[1][2], 6);

    // A fourth drop into the same column must be rejected without change.
    assert!(!g.add_value_to_column(1, 0, 1));
    assert_eq!(g.get_number_of_elements(0), 3);
}

#[test]
fn removal_clears_every_match_without_compacting() {
    let mut g = new_game(3, 3, 6);
    assert!(g.add_value_to_column(0, 1, 5));
    assert!(g.add_value_to_column(0, 1, 3));
    assert!(g.add_value_to_column(0, 1, 5));
    assert_eq!(g.get_number_of_elements(1), 3);

    assert!(g.remove_value_from_column(0, 1, 5));
    assert_eq!(g.get_number_of_elements(1), 1);
    let col: Vec<u8> = g.get_boards()[1].get_board()[0].clone();
    // The 3 keeps its middle cell; the gap below it is not compacted.
    assert_eq!(col, vec![0, 3, 0]);

    // Removing a value that does not occur reports false and changes nothing.
    assert!(!g.remove_value_from_column(0, 1, 6));
    assert_eq!(g.get_number_of_elements(1), 1);
}

#[test]
fn make_move_applies_the_full_turn() {
    let mut g = new_game(3, 3, 6);
    // Give the opponent two 5s and a 3 in column 2 beforehand.
    assert!(g.add_value_to_column(2, 1, 5));
    assert!(g.add_value_to_column(2, 1, 3));
    assert!(g.add_value_to_column(2, 1, 5));

    g.set_dice_value(5);
    assert!(g.make_move(2));

    // The die landed on the mover's board...
    assert_eq!(g.get_boards()[0].get_board()[2][0], 5);
    assert_eq!(g.get_number_of_elements(0), 1);
    // ...and wiped the opponent's matching dice in the same column.
    assert_eq!(g.get_boards()[1].get_board()[2], vec![0, 3, 0]);
    assert_eq!(g.get_number_of_elements(1), 1);
    // The turn passed and a fresh die was rolled.
    assert_eq!(g.get_current_player(), 1);
    assert!((1..=6).contains(&g.get_dice_value()));
}

#[test]
fn make_move_rejects_out_of_range_column() {
    let mut g = new_game(3, 3, 6);
    g.set_dice_value(2);
    assert!(!g.make_move(3));
    assert_eq!(g.get_current_player(), 0);
    assert_eq!(g.get_dice_value(), 2);
    assert_eq!(g.get_number_of_elements(0), 0);
}

#[test]
fn make_move_on_full_board_changes_nothing() {
    let mut g = new_game(1, 1, 6);
    // Fill player 0's single cell directly; the board is then full.
    assert!(g.add_value_to_column(0, 0, 4));
    g.set_dice_value(3);
    let before = g.encode_game();
    assert!(!g.make_move(0));
    assert_eq!(g.get_current_player(), 0);
    assert_eq!(g.get_dice_value(), 3);
    assert_eq!(g.encode_game(), before);
}

#[test]
fn make_move_on_full_column_keeps_turn_and_die() {
    let mut g = new_game(2, 1, 6);
    // Fill player 0's column 0; the board itself still has room.
    assert!(g.add_value_to_column(0, 0, 2));
    g.set_dice_value(6);
    let before = g.encode_game();
    assert!(!g.make_move(0));
    assert_eq!(g.get_current_player(), 0);
    assert_eq!(g.get_dice_value(), 6);
    assert_eq!(g.encode_game(), before);
    // The open column is still accepted.
    assert!(g.make_move(1));
    assert_eq!(g.get_current_player(), 1);
}

#[test]
fn score_groups_values_within_a_column() {
    let mut g = new_game(1, 3, 6);
    assert!(g.add_value_to_column(0, 0, 6));
    assert!(g.add_value_to_column(0, 0, 6));
    assert!(g.add_value_to_column(0, 0, 5));
    // Two 6s and one 5: 6*2*2 + 5*1*1 = 29.
    assert_eq!(g.get_score(0), 29);
    assert_eq!(g.get_score(1), 0);
}

#[test]
fn score_ignores_column_order() {
    let mut a = new_game(2, 3, 6);
    assert!(a.add_value_to_column(0, 0, 6));
    assert!(a.add_value_to_column(0, 0, 6));
    assert!(a.add_value_to_column(0, 0, 5));
    assert!(a.add_value_to_column(1, 0, 1));
    assert!(a.add_value_to_column(1, 0, 2));

    let mut b = new_game(2, 3, 6);
    assert!(b.add_value_to_column(1, 0, 6));
    assert!(b.add_value_to_column(1, 0, 6));
    assert!(b.add_value_to_column(1, 0, 5));
    assert!(b.add_value_to_column(0, 0, 1));
    assert!(b.add_value_to_column(0, 0, 2));

    assert_eq!(a.get_score(0), b.get_score(0));
    assert_eq!(a.get_score(0), 29 + 1 + 2);
}

#[test]
fn score_is_sensitive_to_grouping() {
    // The same three values split over two columns score less than grouped.
    let mut grouped = new_game(2, 3, 6);
    assert!(grouped.add_value_to_column(0, 0, 6));
    assert!(grouped.add_value_to_column(0, 0, 6));

    let mut split = new_game(2, 3, 6);
    assert!(split.add_value_to_column(0, 0, 6));
    assert!(split.add_value_to_column(1, 0, 6));

    assert_eq!(grouped.get_score(0), 24);
    assert_eq!(split.get_score(0), 12);
}

#[test]
fn heuristic_is_score_differential() {
    let mut g = new_game(2, 2, 6);
    assert!(g.add_value_to_column(0, 0, 6));
    assert!(g.add_value_to_column(0, 1, 2));
    assert_eq!(g.get_heuristic_score(0), 6 - 2);
    assert_eq!(g.get_heuristic_score(1), 2 - 6);
}

#[test]
fn game_over_exactly_when_one_board_is_full() {
    let mut g = new_game(1, 2, 6);
    assert!(!g.is_game_over());
    assert!(g.add_value_to_column(0, 1, 3));
    assert!(!g.is_game_over());
    assert!(g.add_value_to_column(0, 1, 4));
    assert!(g.is_game_over());
}

#[test]
fn other_player_swaps_zero_and_one() {
    let g = new_game(2, 2, 6);
    assert_eq!(g.get_other_player(0), 1);
    assert_eq!(g.get_other_player(1), 0);
}

#[test]
fn column_fullness_and_available_columns() {
    let mut g = new_game(3, 1, 6);
    assert!(g.add_value_to_column(1, 0, 2));
    assert!(g.is_column_full(1, 0));
    assert!(!g.is_column_full(0, 0));
    assert!(!g.is_column_full(2, 0));
    assert_eq!(g.get_available_columns(0), vec![0, 2]);
    assert_eq!(g.get_available_columns(1), vec![0, 1, 2]);
}

#[test]
fn possible_moves_pair_every_face_with_open_columns() {
    let mut g = new_game(3, 1, 6);
    assert!(g.add_value_to_column(0, 0, 1));
    assert!(g.add_value_to_column(1, 0, 2));
    let moves = g.get_possible_moves();
    assert_eq!(moves.len(), 6);
    for (k, (die, columns)) in moves.iter().enumerate() {
        assert_eq!(*die, (k + 1) as u8);
        assert_eq!(columns, &vec![2]);
    }
}

#[test]
fn possible_moves_empty_on_full_board() {
    let mut g = new_game(1, 1, 6);
    assert!(g.add_value_to_column(0, 0, 5));
    assert!(g.get_possible_moves().is_empty());
}

#[test]
fn copy_is_equal_then_independent() {
    let mut g = new_game(2, 2, 6);
    assert!(g.add_value_to_column(0, 0, 3));
    g.set_dice_value(2);
    let mut snapshot = g.copy();
    assert_eq!(snapshot.encode_game(), g.encode_game());
    assert_eq!(snapshot.get_current_player(), g.get_current_player());

    // Mutating the original leaves the snapshot untouched.
    assert!(g.make_move(1));
    assert_eq!(snapshot.get_number_of_elements(0), 1);
    assert_eq!(snapshot.get_dice_value(), 2);
    assert_eq!(snapshot.get_current_player(), 0);

    // And mutating the snapshot leaves the original untouched.
    let original = g.encode_game();
    snapshot.set_dice_value(1);
    assert!(snapshot.make_move(0));
    assert_eq!(g.encode_game(), original);
}

#[test]
fn encode_is_deterministic_and_tracks_state() {
    let mut g = new_game(1, 1, 6);
    g.set_dice_value(4);
    assert_eq!(g.encode_game(), "0,0,4,0");
    assert_eq!(g.encode_game(), g.encode_game());

    let before = g.encode_game();
    g.set_dice_value(5);
    assert_ne!(g.encode_game(), before);

    let before = g.encode_game();
    assert!(g.make_move(0));
    assert_ne!(g.encode_game(), before);
}

#[test]
fn encode_writes_cells_in_storage_order() {
    let mut g = new_game(2, 2, 6);
    assert!(g.add_value_to_column(0, 0, 1));
    assert!(g.add_value_to_column(0, 0, 2));
    assert!(g.add_value_to_column(1, 0, 3));
    assert!(g.add_value_to_column(0, 1, 6));
    g.set_dice_value(4);
    assert_eq!(g.encode_game(), "1,2,3,0,6,0,0,0,4,0");
}

#[test]
fn encode_renders_multi_digit_values() {
    let mut g = new_game(1, 1, 255);
    assert!(g.add_value_to_column(0, 0, 255));
    g.set_dice_value(10);
    assert_eq!(g.encode_game(), "255,0,10,0");
}

#[test]
fn display_prints_rows_top_down() {
    let mut g = new_game(2, 2, 6);
    assert!(g.add_value_to_column(0, 0, 5));
    assert_eq!(g.display_board(0), "0 0 \n5 0 \n");
    assert_eq!(g.display_board(1), "0 0 \n0 0 \n");
}

#[test]
fn dice_override_is_visible() {
    let mut g = new_game(3, 3, 6);
    g.set_dice_value(3);
    assert_eq!(g.get_dice_value(), 3);
}

#[test]
fn a_scripted_game_runs_to_its_end() {
    let mut g = new_game(2, 1, 3);
    g.set_dice_value(1);
    assert!(g.make_move(0));
    assert!(!g.is_game_over());

    g.set_dice_value(2);
    assert!(g.make_move(1));
    assert!(!g.is_game_over());

    g.set_dice_value(3);
    assert!(g.make_move(1));
    assert!(g.is_game_over());

    assert_eq!(g.get_number_of_elements(0), 2);
    assert_eq!(g.get_number_of_elements(1), 1);
    assert_eq!(g.get_score(0), 1 + 3);
    assert_eq!(g.get_score(1), 2);
}
