use bilge::board::defs::{CLEARED, CRAB};
use bilge::board::structure::GameState;

const C: u8 = CLEARED;

const ARRAY: [u8; 72] = [
    8, 8, 8, 8, 8, 8,
    1, 1, 1, 1, 1, 1,
    C, C, C, C, C, C,
    8, 8, 8, 8, 8, 8,
    2, 2, 2, 2, 2, 2,
    8, 8, 8, 8, 8, 8,
    C, C, C, C, C, C,
    C, C, C, C, C, C,
    8, 8, 8, 8, 8, 8,
    3, 3, 3, 3, 3, 3,
    8, 8, 8, 8, 8, 8,
    C, C, C, C, C, C,
];

#[test]
fn test_dropping() {
    let mut state = GameState { board: ARRAY, water_level: 0 };
    let rm_track = state.simple_tracker();
    println!("Counter {}\n\nrm tracker {:?}", rm_track.len(), rm_track);
    let expected_column = [8, 1, 8, 2, 8, 8, 3, 8, C, C, C, C];
    for x in 0..6 {
        for y in 0..12 {
            assert_eq!(state.board[6 * y + x], expected_column[y]);
        }
    }
    assert_eq!(rm_track.len(), 36);
    for c in 0..6 {
        for k in 0..6 {
            assert_eq!(rm_track[6 * c + k], 6 * (k + 2) + c);
        }
    }
}

fn stable_board() -> GameState {
    let mut state = GameState { board: [C; 72], water_level: 3 };
    state.board[0..6].copy_from_slice(&[1, 1, 2, 1, 3, 4]);
    state.board[6..12].copy_from_slice(&[5, 6, 2, 6, 5, 6]);
    state.board[12..18].copy_from_slice(&[2, 3, 4, 3, 4, 3]);
    state
}

#[test]
fn seeded_resolution_matches_full_rescan() {
    let mut exchanged = stable_board();
    exchanged.board.swap(2, 3);
    let mut full = exchanged;
    let mut seeded = exchanged;
    let a = full.clean_board();
    let b = seeded.clean_board_beta(2);
    assert_eq!(a, b);
    assert_eq!(full.board, seeded.board);
    assert!(a >= 3);
}

#[test]
fn seeded_resolution_follows_falling_tiles() {
    let mut state = GameState { board: [C; 72], water_level: 3 };
    state.board[0..6].copy_from_slice(&[1, 1, 3, 1, 4, 5]);
    state.board[6..12].copy_from_slice(&[5, 3, 3, 6, 5, 6]);
    state.board.swap(2, 3);
    let mut full = state;
    let mut seeded = state;
    assert_eq!(full.clean_board(), 6);
    assert_eq!(seeded.clean_board_beta(2), 6);
    assert_eq!(full.board, seeded.board);
    assert_eq!(&seeded.board[0..6], &[5, C, C, 6, 4, 5]);
    assert_eq!(&seeded.board[6..12], &[C, C, C, C, 5, 6]);
}

#[test]
fn crab_below_the_water_stays() {
    let mut state = GameState { board: [C; 72], water_level: 3 };
    state.board[0..6].copy_from_slice(&[1, 1, 3, 1, CRAB, 5]);
    state.board.swap(2, 3);
    let mut seeded = state;
    assert_eq!(seeded.clean_board_beta(2), 3);
    assert_eq!(seeded.board[4], CRAB);
}
