use bilge::board::defs::{dani_mapper, draw_piece, piece_from_num, str_to_enum, CLEARED, CRAB, NULL};
use bilge::board::generator::{board_from_array, board_from_str, copy_board, generate_game, generate_rand_board};
use bilge::board::helpers::{build_puffers, can_move, int_to_move, int_to_mover, move_to_dani_move, move_to_int};
use bilge::board::redundant_move_filter::{build_pair_array, check_if_previously_run, record_move};
use bilge::board::structure::Move;
use bilge::safe_getters::SafeGetters;

const TEST_BOARD: &str = "130154251324134140214034254524521234125231405023131010130530420204134014";

#[test]
fn reads_digits_and_skips_others() {
    assert_eq!(str_to_enum("1a2-3 9"), vec![1, 2, 3, 9]);
    assert_eq!(str_to_enum(""), Vec::<u8>::new());
    assert_eq!(dani_mapper(300), 44);
    assert_eq!(piece_from_num(7), 7);
}

#[test]
fn board_notation_round_trip() {
    let game = board_from_str(TEST_BOARD, 4);
    assert_eq!(game.water_level, 4);
    assert_eq!(game.board[0], 1);
    assert_eq!(game.board[71], 4);
    assert_eq!(game.as_dani_string(), TEST_BOARD);
    let mut other = game;
    other.board[5] = CLEARED;
    assert_eq!(&other.as_dani_string()[..6], "13015-");
}

#[test]
fn glyphs() {
    assert_eq!(draw_piece(0), "A");
    assert_eq!(draw_piece(CRAB), "H");
    assert_eq!(draw_piece(9), "J");
    assert_eq!(draw_piece(CLEARED), " ");
    assert_eq!(draw_piece(NULL), " ");
}

#[test]
fn constructors() {
    let g = generate_game();
    assert_eq!(g.water_level, 3);
    assert!(g.board.iter().all(|p| *p == CLEARED));
    let a = board_from_array([2; 72]);
    assert_eq!(a.water_level, 3);
    assert_eq!(a.board, [2; 72]);
    let c = copy_board(&a);
    assert!(c == a);
}

#[test]
fn random_board_has_no_equal_neighbours_in_order() {
    for _ in 0..20 {
        let g = generate_rand_board();
        assert_eq!(g.water_level, 3);
        for i in 0..72 {
            assert!((1..=6).contains(&g.board[i]));
            if i > 0 {
                assert_ne!(g.board[i], g.board[i - 1]);
            }
        }
    }
}

#[test]
fn move_coordinates() {
    assert_eq!(move_to_dani_move(0), 60);
    assert_eq!(move_to_dani_move(70), 5 + 4);
    let m = int_to_move(7);
    assert_eq!((m.x, m.y), (1, 1));
    let m = int_to_mover(40);
    assert_eq!((m.x, m.y), (4, 6));
    assert_eq!(move_to_int(&Move { x: 4, y: 6 }), 40);
    assert!(can_move(6));
    assert!(!can_move(CRAB));
    assert!(!can_move(CLEARED));
}

#[test]
fn puffer_masks() {
    let masks = build_puffers();
    let count = |p: (u64, u16)| p.0.count_ones() + p.1.count_ones();
    assert_eq!(count(masks[0]), 4);
    assert_eq!(count(masks[3]), 6);
    assert_eq!(count(masks[32]), 9);
    assert_eq!(count(masks[71]), 4);
    assert_eq!(masks[0], ((1 << 0) | (1 << 1) | (1 << 6) | (1 << 7), 0));
    assert_eq!(masks[71], (0, (1 << 0) | (1 << 1) | (1 << 6) | (1 << 7)));
}

#[test]
fn move_history() {
    let h = record_move(4, 4, 0, 20, false);
    assert_eq!(h, 20);
    let h = record_move(4, 3, h, 33, true);
    assert_eq!(h, 20 | ((33 | 0x80) << 8));
    assert_eq!(record_move(12, 3, 5, 20, false), 5);
    // 20 was recorded without a score, and the later move scored: no longer redundant.
    assert!(!check_if_previously_run(20, h));
    let h2 = record_move(4, 3, 20, 33, false);
    assert!(check_if_previously_run(20, h2));
    // A later move that shares a cell with 20 clears it.
    let h3 = record_move(4, 3, 20, 21, false);
    assert!(!check_if_previously_run(20, h3));
    assert!(!check_if_previously_run(30, h2));
    let pairs = build_pair_array();
    assert_eq!(pairs[0], [255, 1]);
    assert_eq!(pairs[5], [4, 255]);
    assert_eq!(pairs[20], [19, 21]);
}

#[test]
fn safe_getters() {
    let mut a = [1u8, 2, 3];
    assert_eq!(*a.get_safely(1), 2);
    *a.get_mut_safely(2) = 9;
    assert_eq!(a, [1, 2, 9]);
    let mut v = vec![4u8, 5];
    *v.get_mut_safely(0) = 7;
    assert_eq!(*v.get_safely(0), 7);
}

#[test]
fn puffer_mask_values() {
    let masks = build_puffers();
    assert_eq!(masks[0], (195, 0));
    assert_eq!(masks[7], (29127, 0));
    assert_eq!(masks[71], (0, 195));
    assert!(masks.iter().all(|m| m.1 < 256));
}
