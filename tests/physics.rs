use bilge::board::defs::{CLEARED, CRAB, JELLYFISH, PUFFERFISH};
use bilge::board::structure::GameState;

const C: u8 = CLEARED;

fn empty_state(water_level: u8) -> GameState {
    GameState { board: [C; 72], water_level }
}

/// Colour `(x + 2y) mod 6` at column x, row y: no three equal in a row or a column, and
/// dropping a column by three rows keeps every colour.
fn patterned(water_level: u8) -> GameState {
    let mut board = [0u8; 72];
    for pos in 0..72 {
        let x = pos % 6;
        let y = pos / 6;
        board[pos] = ((x + 2 * y) % 6) as u8;
    }
    GameState { board, water_level }
}

fn is_settled(state: &GameState) -> bool {
    for x in 0..6 {
        for y in 0..11 {
            if state.board[6 * (y + 1) + x] != C && state.board[6 * y + x] == C {
                return false;
            }
        }
    }
    true
}

#[test]
fn plain_match_scores_combo_and_clears_run() {
    let mut state = empty_state(3);
    state.board[0..6].copy_from_slice(&[1, 1, 2, 1, 3, 4]);
    state.board[6..12].copy_from_slice(&[5, 6, 5, 6, 5, 6]);

    let mut exchanged = state;
    exchanged.board[2] = 1;
    exchanged.board[3] = 2;
    assert_eq!(exchanged.get_combo(2), 3);

    let score = state.swap(2);
    assert_eq!(score, 6);
    assert_eq!(&state.board[0..6], &[5, 6, 5, 2, 3, 4]);
    assert_eq!(&state.board[6..12], &[C, C, C, 6, 5, 6]);
    assert!(state.board[12..].iter().all(|p| *p == C));
    assert!(is_settled(&state));
}

#[test]
fn no_combo_swap_scores_zero_and_exchanges() {
    let mut state = empty_state(3);
    state.board[0..6].copy_from_slice(&[1, 2, 3, 4, 5, 6]);
    assert_eq!(state.swap(0), 0);
    assert_eq!(&state.board[0..6], &[2, 1, 3, 4, 5, 6]);
}

#[test]
fn combo_with_two_runs_is_doubled() {
    // The board after a swap at 2: a run on each side.
    let mut state = empty_state(3);
    state.board[0..6].copy_from_slice(&[1, 1, 1, 2, 2, 2]);
    assert_eq!(state.get_combo(2), (3 + 3) * 2);
}

#[test]
fn column_run_of_four_scores_five() {
    let mut state = empty_state(3);
    // Column 0 holds 4 at rows 0, 1, 3 and the swapped-in 4 at row 2.
    state.board[0] = 4;
    state.board[6] = 4;
    state.board[12] = 4;
    state.board[18] = 4;
    state.board[13] = 1;
    assert_eq!(state.get_combo(12), 5);
}

#[test]
fn full_column_bonus() {
    let mut state = empty_state(3);
    // Both cells of the swap sit in the middle of five equal cells in their columns, and
    // both rows match too.
    for y in 0..5 {
        state.board[6 * y + 2] = 1;
        state.board[6 * y + 3] = 2;
    }
    state.board[12] = 1;
    state.board[13] = 1;
    state.board[16] = 2;
    state.board[17] = 2;
    assert_eq!(state.get_combo(14), 9999999);
    state.board[27] = 3;
    assert_eq!(state.get_combo(14), 999999);
}

#[test]
fn equal_pieces_are_refused() {
    let mut state = patterned(3);
    state.board[10] = state.board[11];
    let before = state.board;
    assert_eq!(state.swap(10), -30001);
    assert_eq!(state.board, before);
}

#[test]
fn crab_is_refused() {
    let mut state = patterned(3);
    state.board[20] = CRAB;
    let before = state.board;
    assert_eq!(state.swap(20), -9001);
    assert_eq!(state.board, before);
    assert_eq!(state.swap(19), -9001);
    assert_eq!(state.board, before);
}

#[test]
fn cleared_cell_is_refused() {
    let mut state = patterned(3);
    state.board[40] = C;
    let before = state.board;
    assert_eq!(state.swap(40), -20001);
    assert_eq!(state.board, before);
}

#[test]
fn pufferfish_clears_its_block() {
    let mut state = patterned(3);
    state.board[32] = PUFFERFISH;
    assert_eq!(state.swap(32), 9);
    for y in 9..12 {
        for x in 1..4 {
            assert_eq!(state.board[6 * y + x], C);
        }
    }
    assert!(is_settled(&state));
}

#[test]
fn pufferfish_on_the_right_of_the_swap() {
    let mut state = patterned(3);
    state.board[33] = PUFFERFISH;
    assert_eq!(state.swap(32), 9);
}

#[test]
fn pufferfish_in_a_corner_clears_four() {
    let mut state = patterned(3);
    state.board[0] = PUFFERFISH;
    assert_eq!(state.swap(0), 4);
    for y in 10..12 {
        for x in 0..2 {
            assert_eq!(state.board[6 * y + x], C);
        }
    }
}

#[test]
fn jellyfish_clears_every_tile_of_the_other_type() {
    let mut state = empty_state(3);
    state.board[0..6].copy_from_slice(&[JELLYFISH, 6, 1, 2, 6, 3]);
    state.board[6..12].copy_from_slice(&[6, 4, 5, 4, 5, 6]);
    assert_eq!(state.swap(0), 4);
    assert_eq!(&state.board[0..6], &[JELLYFISH, 4, 1, 2, 5, 3]);
    assert_eq!(&state.board[6..12], &[C, C, 5, 4, C, C]);
}

#[test]
fn water_washes_away_high_crabs_only() {
    let mut state = empty_state(3);
    for (y, p) in [1u8, 2, 1, 2, 1].iter().enumerate() {
        state.board[6 * y] = *p;
    }
    state.board[30] = CRAB;
    state.board[1] = 3;
    state.board[7] = 4;
    state.board[13] = CRAB;
    let score = state.clean_board();
    assert_eq!(score, 1 + 2 * 3);
    assert_eq!(state.board[30], C);
    assert_eq!(state.board[13], CRAB);
    assert_eq!(state.clean_board(), 0);
}

#[test]
fn resolution_of_a_stable_board_changes_nothing() {
    let mut state = patterned(3);
    let before = state.board;
    assert_eq!(state.clean_board(), 0);
    assert_eq!(state.board, before);
}

#[test]
fn cascade_counts_every_pass() {
    let mut state = empty_state(0);
    // Row 0: 1 1 1 ; above cell 0 a 2 that falls beside two more 2s.
    state.board[0..6].copy_from_slice(&[1, 1, 1, 3, 2, 2]);
    state.board[6..9].copy_from_slice(&[2, 2, 4]);
    // First pass: cells 0, 1, 2; then row 0 reads 2 2 4 3 2 2: nothing more.
    assert_eq!(state.clean_board(), 3);
    assert_eq!(&state.board[0..6], &[2, 2, 4, 3, 2, 2]);
    // Two passes: after 1 1 1 goes, the 2 above cell 2 falls beside two more 2s.
    let mut state = empty_state(0);
    state.board[0..6].copy_from_slice(&[1, 1, 1, 2, 2, 5]);
    state.board[6..9].copy_from_slice(&[3, 4, 2]);
    assert_eq!(state.clean_board(), 6);
    assert_eq!(&state.board[0..6], &[3, 4, C, C, C, 5]);
    // Two runs in one pass.
    let mut state = empty_state(0);
    state.board[0..6].copy_from_slice(&[1, 1, 1, 2, 5, 4]);
    state.board[6..9].copy_from_slice(&[2, 2, 2]);
    assert_eq!(state.clean_board(), 6);
}

#[test]
fn gravity_compacts_columns() {
    let mut state = empty_state(3);
    state.board[66] = 1;
    state.board[30] = 2;
    state.board[5] = 3;
    state.shift_everything();
    assert_eq!(state.board[0], 2);
    assert_eq!(state.board[6], 1);
    assert_eq!(state.board[5], 3);
    assert!(is_settled(&state));
    assert_eq!(state.board.iter().filter(|p| **p != C).count(), 3);
}

#[test]
fn legal_moves_of_a_board() {
    let mut state = empty_state(3);
    state.board[0..6].copy_from_slice(&[1, 2, 2, CRAB, 4, 5]);
    let moves = state.get_moves();
    assert_eq!(moves.as_slice(), &[0, 4]);
    let full = patterned(3);
    assert_eq!(full.get_moves().len(), 60);
}
