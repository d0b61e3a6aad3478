use bilge::board::defs::{CLEARED, PUFFERFISH};
use bilge::board::generator::board_from_str;
use bilge::board::searcher::{find_best_move, find_best_move_list, rank_moves, search, Info, SCORE_SCALE};
use bilge::board::structure::GameState;
use bilge::board::table::TranspositionTable;

const C: u8 = CLEARED;

const TEST_BOARD: &str = "130154251324134140214034254524521234125231405023131010130530420204134014";

fn patterned(water_level: u8) -> GameState {
    let mut board = [0u8; 72];
    for pos in 0..72 {
        board[pos] = ((pos % 6 + 2 * (pos / 6)) % 6) as u8;
    }
    GameState { board, water_level }
}

#[test]
fn leaf_search_is_the_swap_score() {
    let state = patterned(3);
    let mut table = TranspositionTable::new();
    for mv in [0usize, 7, 32, 64] {
        let mut copy = state;
        let expected = copy.swap(mv) * SCORE_SCALE;
        assert_eq!(search(state, 1, 3, mv, &mut table, 0), expected);
    }
    let mut with_puffer = state;
    with_puffer.board[32] = PUFFERFISH;
    assert_eq!(search(with_puffer, 1, 1, 32, &mut table, 0), 9 * SCORE_SCALE);
}

#[test]
fn illegal_move_scores_its_sentinel_at_any_depth() {
    let mut state = patterned(3);
    state.board[10] = state.board[11];
    let mut table = TranspositionTable::new();
    assert_eq!(search(state, 3, 3, 10, &mut table, 0), -30001 * SCORE_SCALE);
    assert!(table.get(&state.board).is_none());
}

#[test]
fn deeper_cache_entry_is_reused() {
    let state = patterned(3);
    let mut after = state;
    after.swap(7);
    let mut table = TranspositionTable::new();
    table.put(after.board, 123456, 5);
    assert_eq!(search(state, 3, 3, 7, &mut table, 0), 123456);
    assert_eq!(table.get(&after.board).unwrap().depth, 5);
}

#[test]
fn shallower_cache_entry_is_recomputed() {
    let state = patterned(3);
    let mut after = state;
    after.swap(7);
    let mut fresh = TranspositionTable::new();
    let expected = search(state, 3, 3, 7, &mut fresh, 0);
    let mut table = TranspositionTable::new();
    table.put(after.board, 123456, 2);
    let got = search(state, 3, 3, 7, &mut table, 0);
    assert_eq!(got, expected);
    let entry = table.get(&after.board).unwrap();
    assert_eq!(entry.score, got);
    assert_eq!(entry.depth, 3);
}

#[test]
fn two_ply_adds_the_decayed_best_reply() {
    // Swap 0 scores nothing; then the best reply at depth 1 decides.
    let mut state = GameState { board: [C; 72], water_level: 3 };
    state.board[12..18].copy_from_slice(&[1, 2, 2, 3, 2, 4]);
    let mut table = TranspositionTable::new();
    // Moving cell 15 and 16 (3 and 2) makes 2 2 2 at cells 13..15.
    let reply = {
        let mut s = state;
        s.swap(15) * SCORE_SCALE
    };
    assert!(reply > 0);
    let got = search(state, 2, 2, 12, &mut table, 0);
    let mut s = state;
    let first = s.swap(12);
    assert_eq!(first, 0);
    // After swapping 12, row 2 reads 2 1 2 3 2 4: the reply at 15 is no longer a match.
    let mut best = 0;
    for pos in 12..56 {
        let x = pos % 6;
        if x < 4 && x > 1 {
            let mut t = s;
            let v = t.swap(pos);
            if v > best && s.board[pos] != s.board[pos + 1] && s.board[pos] != C && s.board[pos + 1] != C {
                best = v;
            }
        }
    }
    assert_eq!(got, first * SCORE_SCALE + best * SCORE_SCALE * 19 / 20);
}

#[test]
fn search_is_deterministic_with_fresh_tables() {
    let game = board_from_str(TEST_BOARD, 3);
    let mut t1 = TranspositionTable::new();
    let mut t2 = TranspositionTable::new();
    let a = find_best_move_list(&game, 2, false, &mut t1);
    let b = find_best_move_list(&game, 2, false, &mut t2);
    assert_eq!(a.turns.len(), b.turns.len());
    for (x, y) in a.turns.iter().zip(b.turns.iter()) {
        assert_eq!(x.turn, y.turn);
        assert_eq!(x.score, y.score);
    }
    let best1 = find_best_move(&game, 2, false, &mut TranspositionTable::new());
    let best2 = find_best_move(&game, 2, false, &mut TranspositionTable::new());
    assert_eq!(best1.turn, best2.turn);
    assert_eq!(best1.score, best2.score);
    assert_eq!(best1.turn, a.turns[0].turn);
}

#[test]
fn move_list_is_ranked_best_first() {
    let game = board_from_str(TEST_BOARD, 3);
    let list = find_best_move_list(&game, 1, false, &mut TranspositionTable::new());
    assert_eq!(list.turns.len(), game.get_moves().len());
    for w in list.turns.windows(2) {
        assert!(w[0].score > w[1].score || (w[0].score == w[1].score && w[0].turn < w[1].turn));
    }
    for info in list.turns.iter() {
        let mut copy = game;
        assert_eq!(info.score, copy.swap(info.turn) * SCORE_SCALE);
    }
    assert_eq!(list.info_str, "Done");
}

#[test]
fn best_move_line_names_the_move() {
    let game = board_from_str(TEST_BOARD, 3);
    let best = find_best_move(&game, 1, false, &mut TranspositionTable::new());
    assert_eq!(best.info_str, format!("Done, best move {} with score {}", best.turn, best.score));
}

#[test]
fn ranking_orders_by_score_then_position() {
    let items = vec![
        Info { turn: 3, score: 5 },
        Info { turn: 1, score: 7 },
        Info { turn: 2, score: 5 },
        Info { turn: 0, score: -30001 },
    ];
    let ranked = rank_moves(&items);
    let order: Vec<usize> = ranked.iter().map(|i| i.turn).collect();
    assert_eq!(order, vec![1, 2, 3, 0]);
}

#[test]
fn table_put_and_get() {
    let mut table = TranspositionTable::new();
    let state = patterned(3);
    assert!(table.get(&state.board).is_none());
    table.put(state.board, 10, 2);
    table.put(state.board, 20, 4);
    let e = table.get(&state.board).unwrap();
    assert_eq!((e.score, e.depth), (20, 4));
}
