use vstd::prelude::*;
use crate::board::defs::{Pieces, CLEARED, CRAB, NULL};
use crate::board::structure::{Board, GameState};
use crate::board::transforms::{swap_result, swap_bound, open_piece, valid_swap, legal_move, legal_moves, legal_moves_upto, lemma_legal_moves_upto};
use crate::board::move_list::{move_list_items, move_count, move_at};
use vstd::string::StringExecFns;
use crate::board::redundant_move_filter::{previously_run, recorded, check_if_previously_run, record_move};
use crate::board::table::{HashEntry, TranspositionTable, score_limit};

verus! {

/// Search scores are fixed-point: this many units to one point.
pub const SCORE_SCALE: i64 = 1000;

/// Each further ply counts `DECAY_NUM / DECAY_DEN` of the one before.
pub const DECAY_NUM: i64 = 19;

/// See `DECAY_NUM`.
pub const DECAY_DEN: i64 = 20;

/// A first move and its search score.
#[derive(Debug, Copy, Clone)]
pub struct Info {
    pub turn: usize,
    pub score: i64,
}

/// The first cell of the candidate window at a depth: near the horizon the search looks
/// only at the middle of the board.
pub open spec fn window_start(depth: u8) -> int {
    if depth > 2 {
        6
    } else {
        12
    }
}

/// The end (exclusive) of the candidate window at a depth.
pub open spec fn window_end(depth: u8) -> int {
    if depth > 2 {
        66
    } else {
        56
    }
}

/// Whether a search of the legal swap `mv` deeper than one ply finds, for the board the swap
/// leaves, an entry searched at least `depth` plies deep, which it then returns as it is.
pub open spec fn cache_hit(b: Seq<Pieces>, w: u8, depth: u8, mv: int, t: Map<Seq<u8>, HashEntry>) -> bool {
    let sw = swap_result(b, w, mv);
    &&& sw.0 >= 0
    &&& depth > 1
    &&& t.contains_key(sw.1)
    &&& t[sw.1].depth >= depth
}

/// Whether a search of the legal swap `mv` deeper than one ply finds no usable entry for the
/// board the swap leaves, and so computes the score and stores it with its depth.
pub open spec fn cache_miss(b: Seq<Pieces>, w: u8, depth: u8, mv: int, t: Map<Seq<u8>, HashEntry>) -> bool {
    let sw = swap_result(b, w, mv);
    &&& sw.0 >= 0
    &&& depth > 1
    &&& !(t.contains_key(sw.1) && t[sw.1].depth >= depth)
}

/// Whether the swap at `pos` is tried below a move `mv` that scored `score` and left
/// board `b`: inside the columns of the window (all but the last, or near the horizon only
/// the middle two), legal, not the same swap again after one that scored nothing, and not
/// one that undoes an earlier non-scoring swap of the branch.
pub open spec fn candidate(b: Seq<Pieces>, depth: u8, pos: int, score: int, mv: int, hist: u64) -> bool {
    &&& (if depth > 2 {
        pos % 6 < 5
    } else {
        pos % 6 < 4 && pos % 6 > 1
    })
    &&& open_piece(b[pos])
    &&& open_piece(b[pos + 1])
    &&& b[pos] != b[pos + 1]
    &&& !(score == 0 && pos == mv)
    &&& !previously_run(pos, hist)
}

/// A child's score as it counts for its parent: decayed by one ply, rounded down.
pub open spec fn decayed(best: int) -> int {
    best * 19 / 20
}

/// The search score of the swap `mv` on board `b` with water level `w`, `depth` plies
/// deep, in a search started `total` plies deep with branch history `hist`, with the
/// transposition table holding `t`; and what the table holds afterwards.
///
/// An illegal swap, or one at the last ply, scores its swap score. Otherwise a cached
/// entry for the resulting board searched at least this deep is returned as it is; else
/// the candidates are searched one after another (each seeing the table the one before
/// left), and the swap score plus the decayed best child score is stored and returned.
pub open spec fn search_value(
    b: Seq<Pieces>,
    w: u8,
    depth: u8,
    total: u8,
    mv: int,
    hist: u64,
    t: Map<Seq<u8>, HashEntry>,
) -> (int, Map<Seq<u8>, HashEntry>)
    decreases depth, 1int, 0int,
{
    let sw = swap_result(b, w, mv);
    let imm = sw.0;
    let nb = sw.1;
    if imm < 0 || depth <= 1 {
        (imm * 1000, t)
    } else if t.contains_key(nb) && t[nb].depth >= depth {
        (t[nb].score as int, t)
    } else {
        let nh = recorded(total, depth, hist, mv, imm > 0);
        let kids = best_child(nb, w, depth, total, mv, imm, hist, nh, t, window_start(depth), 0);
        let v = imm * 1000 + decayed(kids.0);
        (v, kids.1.insert(nb, HashEntry { score: v as i64, depth }))
    }
}

/// The best child score found from window position `pos` on, starting from `best`, below
/// the swap `mv` that left board `nb` and scored `imm`; and the table afterwards.
pub open spec fn best_child(
    nb: Seq<Pieces>,
    w: u8,
    depth: u8,
    total: u8,
    mv: int,
    imm: int,
    hist: u64,
    nh: u64,
    t: Map<Seq<u8>, HashEntry>,
    pos: int,
    best: int,
) -> (int, Map<Seq<u8>, HashEntry>)
    decreases depth, 0int, 72 - pos,
{
    if pos >= window_end(depth) || pos < 0 || depth == 0 {
        (best, t)
    } else if candidate(nb, depth, pos, imm, mv, hist) {
        let c = search_value(nb, w, (depth - 1) as u8, total, pos, nh, t);
        best_child(nb, w, depth, total, mv, imm, hist, nh, c.1, pos + 1, if c.0 > best { c.0 } else { best })
    } else {
        best_child(nb, w, depth, total, mv, imm, hist, nh, t, pos + 1, best)
    }
}

/// Whether the swap at `pos` is tried below a move `mv` that scored `score` and left board `b`.
fn is_candidate(b: &Board, depth: u8, pos: usize, score: i64, mv: usize, hist: u64) -> (r: bool)
    requires
        pos < 66,
    ensures
        r == candidate(b@, depth, pos as int, score as int, mv as int, hist),
{
    let x = pos % 6;
    let valid_col = if depth > 2 {
        x < 5
    } else {
        x < 4 && x > 1
    };
    if !valid_col {
        return false;
    }
    let left = b[pos];
    if left == CLEARED || left == NULL || left == CRAB {
        return false;
    }
    let right = b[pos + 1];
    if right == CLEARED || right == NULL || right == CRAB || right == left {
        return false;
    }
    if score == 0 && pos == mv {
        return false;
    }
    if check_if_previously_run(pos, hist) {
        return false;
    }
    true
}

/// Searches the swap `move_number` on `copy`, `depth` plies deep, in a search started
/// `total_depth` plies deep, with branch history `prev_move_map`. The board is a copy:
/// the caller's stays as it was. Scores are in thousandths of a point.
pub fn search(
    copy: GameState,
    depth: u8,
    total_depth: u8,
    move_number: usize,
    hasher: &mut TranspositionTable,
    prev_move_map: u64,
) -> (r: i64)
    requires
        1 <= depth <= total_depth,
        valid_swap(move_number as int),
        old(hasher).wf(),
    ensures
        r == search_value(copy.board@, copy.water_level, depth, total_depth, move_number as int,
            prev_move_map, old(hasher).view()).0,
        final(hasher).view() == search_value(copy.board@, copy.water_level, depth, total_depth,
            move_number as int, prev_move_map, old(hasher).view()).1,
        final(hasher).wf(),
        -30001 * 1000 <= r <= score_limit(),
        depth == 1 ==> r == swap_result(copy.board@, copy.water_level, move_number as int).0 * 1000
            && final(hasher).view() == old(hasher).view(),
        cache_hit(copy.board@, copy.water_level, depth, move_number as int, old(hasher).view()) ==> r
            == old(hasher).view()[swap_result(copy.board@, copy.water_level, move_number as int).1].score
            && final(hasher).view() == old(hasher).view(),
        cache_miss(copy.board@, copy.water_level, depth, move_number as int, old(hasher).view()) ==> (
        final(hasher).view()[swap_result(copy.board@, copy.water_level, move_number as int).1] == (
        HashEntry { score: r, depth })),
    decreases depth,
{
    let mut copy = copy;
    let ghost b = copy.board@;
    let ghost w = copy.water_level;
    let score = copy.swap(move_number);
    if score < 0 || depth == 1 {
        return score * SCORE_SCALE;
    }
    match hasher.get(&copy.board) {
        Some(entry) => {
            if entry.depth >= depth {
                return entry.score;
            }
        },
        None => {},
    }
    let new_mask = record_move(total_depth, depth, prev_move_map, move_number, score > 0);
    let base: usize = if depth > 2 {
        6
    } else {
        12
    };
    let end: usize = if depth > 2 {
        66
    } else {
        56
    };
    let ghost nb = copy.board@;
    let ghost t0 = hasher.view();
    let mut best: i64 = 0;
    let mut pos: usize = base;
    while pos < end
        invariant
            base == window_start(depth),
            end == window_end(depth),
            base <= pos <= end,
            2 <= depth <= total_depth,
            0 <= score <= swap_bound(),
            copy.board@ == nb,
            copy.water_level == w,
            new_mask == recorded(total_depth, depth, prev_move_map, move_number as int, score > 0),
            hasher.wf(),
            0 <= best <= score_limit(),
            best_child(nb, w, depth, total_depth, move_number as int, score as int, prev_move_map,
                new_mask, t0, base as int, 0) == best_child(nb, w, depth, total_depth,
                move_number as int, score as int, prev_move_map, new_mask, hasher.view(), pos as int,
                best as int),
        decreases end - pos,
    {
        if is_candidate(&copy.board, depth, pos, score, move_number, prev_move_map) {
            let v = search(copy, depth - 1, total_depth, pos, hasher, new_mask);
            if v > best {
                best = v;
            }
        }
        pos = pos + 1;
    }
    let kept = ((best as u64) * (DECAY_NUM as u64) / (DECAY_DEN as u64)) as i64;
    assert(kept == decayed(best as int));
    assert(swap_bound() == 12649095);
    assert(score_limit() == 252981900000);
    assert(score * 1000 + kept <= score_limit()) by (nonlinear_arith)
        requires
            0 <= score <= swap_bound(),
            0 <= kept <= best * 19 / 20,
            best <= score_limit(),
            score_limit() == 20 * 1000 * swap_bound(),
    ;
    let total = score * SCORE_SCALE + kept;
    hasher.put(copy.board, total, depth);
    total
}

/// Every first move with its score, best first.
pub struct TurnList {
    pub turns: Vec<Info>,
    pub info_str: String,
}

/// The best first move, its score, and a line that describes it.
#[derive(Debug)]
pub struct TurnInfo {
    pub turn: usize,
    pub score: i64,
    pub info_str: String,
}

/// The order of a ranked list: higher score first, and on equal scores the lower position.
pub open spec fn ranks_before(a: Info, b: Info) -> bool {
    a.score > b.score || (a.score == b.score && a.turn < b.turn)
}

/// Each of `moves` from index `k` on, searched `depth` plies deep one after another on board
/// `b`, each seeing the table the one before left; and the table afterwards.
pub open spec fn evaluate_moves(
    b: Seq<Pieces>,
    w: u8,
    depth: u8,
    moves: Seq<usize>,
    k: int,
    t: Map<Seq<u8>, HashEntry>,
) -> (Seq<Info>, Map<Seq<u8>, HashEntry>)
    decreases moves.len() - k,
{
    if k < 0 || k >= moves.len() {
        (Seq::empty(), t)
    } else {
        let s = search_value(b, w, depth, depth, moves[k] as int, 0, t);
        let rest = evaluate_moves(b, w, depth, moves, k + 1, s.1);
        (seq![Info { turn: moves[k], score: s.0 as i64 }] + rest.0, rest.1)
    }
}

/// Every legal first move of `state` with its search score, `depth` plies deep, in order of
/// position; and the table afterwards.
pub open spec fn evaluate_all(state: GameState, depth: u8, t: Map<Seq<u8>, HashEntry>) -> (Seq<Info>, Map<Seq<u8>, HashEntry>) {
    evaluate_moves(state.board@, state.water_level, depth, legal_moves(state.board@), 0, t)
}

/// Whether `r` holds exactly the items of `items`, ranked: same length, the same items, and
/// strictly in ranking order (which, as no two items share a position, fixes the order).
pub open spec fn is_ranking(r: Seq<Info>, items: Seq<Info>) -> bool {
    &&& r.len() == items.len()
    &&& forall|i: int| 0 <= i < r.len() ==> items.contains(#[trigger] r[i])
    &&& forall|j: int| 0 <= j < items.len() ==> r.contains(#[trigger] items[j])
    &&& ranked(r)
}

/// Whether a list is strictly in ranking order.
pub open spec fn ranked(s: Seq<Info>) -> bool {
    forall|i: int, j: int| 0 <= i < j < s.len() ==> ranks_before(s[i], s[j])
}

/// Inserts `x` into a ranked list at its place.
fn insert_ranked(out: &mut Vec<Info>, x: Info)
    requires
        ranked(old(out)@),
        forall|i: int| 0 <= i < old(out)@.len() ==> old(out)@[i].turn != x.turn,
    ensures
        ranked(final(out)@),
        final(out)@.len() == old(out)@.len() + 1,
        forall|i: int| 0 <= i < final(out)@.len() ==> #[trigger] final(out)@[i] == x || old(out)@.contains(final(out)@[i]),
        forall|j: int| 0 <= j < old(out)@.len() ==> final(out)@.contains(#[trigger] old(out)@[j]),
        final(out)@.contains(x),
{
    let mut idx: usize = 0;
    while idx < out.len() && (out[idx].score > x.score || (out[idx].score == x.score && out[idx].turn < x.turn))
        invariant
            idx <= out@.len(),
            forall|i: int| 0 <= i < idx ==> ranks_before(#[trigger] out@[i], x),
        decreases out@.len() - idx,
    {
        idx = idx + 1;
    }
    proof {
        if idx < out@.len() {
            assert(ranks_before(x, out@[idx as int]));
            assert forall|i: int| idx <= i < out@.len() implies ranks_before(x, #[trigger] out@[i]) by {
                if i > idx {
                    assert(ranks_before(out@[idx as int], out@[i]));
                }
            }
        }
    }
    let ghost old_out = out@;
    out.insert(idx, x);
    proof {
        old_out.insert_ensures(idx as int, x);
        assert forall|i: int| 0 <= i < out@.len() implies #[trigger] out@[i] == x || old_out.contains(out@[i]) by {
            if i < idx {
                assert(out@[i] == old_out[i]);
            } else if i > idx {
                assert(out@[i] == old_out[i - 1]);
            }
        }
        assert forall|j: int| 0 <= j < old_out.len() implies out@.contains(#[trigger] old_out[j]) by {
            if j < idx {
                assert(out@[j] == old_out[j]);
            } else {
                assert(out@[j + 1] == old_out[j]);
            }
        }
        assert(out@[idx as int] == x);
        assert forall|a: int, c: int| 0 <= a < c < out@.len() implies ranks_before(out@[a], out@[c]) by {
            if c < idx {
            } else if c == idx {
                assert(out@[a] == old_out[a]);
            } else if a > idx {
                assert(out@[a] == old_out[a - 1] && out@[c] == old_out[c - 1]);
            } else if a == idx {
                assert(out@[c] == old_out[c - 1]);
            } else {
                assert(out@[a] == old_out[a] && out@[c] == old_out[c - 1]);
            }
        }
    }
}

/// Every item of `out` is one of the first `k` of `items`.
spec fn drawn_from(out: Seq<Info>, items: Seq<Info>, k: int) -> bool {
    forall|i: int| 0 <= i < out.len() ==> items.subrange(0, k).contains(#[trigger] out[i])
}

/// Each of the first `k` of `items` is in `out`.
#[verifier::opaque]
spec fn holds_all(out: Seq<Info>, items: Seq<Info>, k: int) -> bool {
    forall|j: int| 0 <= j < k ==> out.contains(#[trigger] items[j])
}

proof fn lemma_rank_step(old_out: Seq<Info>, out: Seq<Info>, items: Seq<Info>, k: int)
    requires
        0 <= k < items.len(),
        drawn_from(old_out, items, k),
        holds_all(old_out, items, k),
        forall|i: int| 0 <= i < out.len() ==> #[trigger] out[i] == items[k] || old_out.contains(out[i]),
        forall|j: int| 0 <= j < old_out.len() ==> out.contains(#[trigger] old_out[j]),
        out.contains(items[k]),
    ensures
        drawn_from(out, items, k + 1),
        holds_all(out, items, k + 1),
{
    reveal(holds_all);
    let pre = items.subrange(0, k);
    let post = items.subrange(0, k + 1);
    assert forall|i: int| 0 <= i < out.len() implies post.contains(#[trigger] out[i]) by {
        if out[i] != items[k] {
            let m = choose|m: int| 0 <= m < old_out.len() && old_out[m] == out[i];
            assert(pre.contains(old_out[m]));
            let j = choose|j: int| 0 <= j < pre.len() && pre[j] == old_out[m];
            assert(post[j] == out[i]);
        } else {
            assert(post[k] == out[i]);
        }
    }
    assert forall|j: int| 0 <= j < k + 1 implies out.contains(#[trigger] items[j]) by {
        if j < k {
            assert(old_out.contains(items[j]));
            let m = choose|m: int| 0 <= m < old_out.len() && old_out[m] == items[j];
            assert(out.contains(old_out[m]));
        }
    }
}

proof fn lemma_rank_fresh(out: Seq<Info>, items: Seq<Info>, k: int, x: Info)
    requires
        0 <= k < items.len(),
        x == items[k],
        forall|i: int, j: int| 0 <= i < j < items.len() ==> items[i].turn != items[j].turn,
        drawn_from(out, items, k),
    ensures
        forall|i: int| 0 <= i < out.len() ==> out[i].turn != x.turn,
{
    let pre = items.subrange(0, k);
    assert forall|i: int| 0 <= i < out.len() implies out[i].turn != x.turn by {
        assert(pre.contains(out[i]));
        let j = choose|j: int| 0 <= j < pre.len() && pre[j] == out[i];
        assert(items[j] == out[i]);
    }
}

proof fn lemma_rank_done(out: Seq<Info>, items: Seq<Info>)
    requires
        out.len() == items.len(),
        drawn_from(out, items, items.len() as int),
        holds_all(out, items, items.len() as int),
        ranked(out),
    ensures
        is_ranking(out, items),
{
    reveal(holds_all);
    assert(items.subrange(0, items.len() as int) =~= items);
}

/// Sorts first moves best first: higher score first, on equal scores the lower position.
pub fn rank_moves(items: &Vec<Info>) -> (r: Vec<Info>)
    requires
        forall|i: int, j: int| 0 <= i < j < items@.len() ==> items@[i].turn != items@[j].turn,
    ensures
        is_ranking(r@, items@),
{
    let mut out: Vec<Info> = Vec::new();
    let mut k: usize = 0;
    proof {
            reveal(holds_all);
    }
    while k < items.len()
        invariant
            k <= items@.len(),
            forall|i: int, j: int| 0 <= i < j < items@.len() ==> items@[i].turn != items@[j].turn,
            out@.len() == k,
            drawn_from(out@, items@, k as int),
            holds_all(out@, items@, k as int),
            ranked(out@),
        decreases items@.len() - k,
    {
        let x = items[k];
        proof {
            lemma_rank_fresh(out@, items@, k as int, x);
        }
        let ghost old_out = out@;
        insert_ranked(&mut out, x);
        proof {
            lemma_rank_step(old_out, out@, items@, k as int);
        }
        k = k + 1;
    }
    proof {
        lemma_rank_done(out@, items@);
    }
    out
}

/// Searches every legal first move of `board` `depth` plies deep, one after another with
/// the shared table, and ranks them best first.
pub fn find_best_move_list(board: &GameState, depth: u8, verbose: bool, hash_table: &mut TranspositionTable) -> (r: TurnList)
    requires
        depth >= 1,
        old(hash_table).wf(),
    ensures
        is_ranking(r.turns@, evaluate_all(*board, depth, old(hash_table).view()).0),
        final(hash_table).view() == evaluate_all(*board, depth, old(hash_table).view()).1,
        final(hash_table).wf(),
{
    let possible_moves = board.get_moves();
    let ghost moves = legal_moves(board.board@);
    let ghost b = board.board@;
    let ghost w = board.water_level;
    let ghost t0 = hash_table.view();
    proof {
        lemma_legal_moves_upto(b, 72);
    }
    let n = move_count(&possible_moves);
    let mut evaluated: Vec<Info> = Vec::new();
    let mut k: usize = 0;
    while k < n
        invariant
            n == moves.len(),
            moves == move_list_items(possible_moves),
            moves == legal_moves(b),
            b == board.board@,
            w == board.water_level,
            k <= n,
            depth >= 1,
            hash_table.wf(),
            evaluated@.len() == k,
            forall|i: int| 0 <= i < k ==> #[trigger] evaluated@[i].turn == moves[i],
            evaluate_moves(b, w, depth, moves, 0, t0).0 == evaluated@ + evaluate_moves(b, w, depth, moves, k as int, hash_table.view()).0,
            evaluate_moves(b, w, depth, moves, 0, t0).1 == evaluate_moves(b, w, depth, moves, k as int, hash_table.view()).1,
        decreases n - k,
    {
        let m = move_at(&possible_moves, k);
        proof {
            lemma_legal_moves_upto(b, 72);
        }
        assert(moves[k as int] == legal_moves_upto(b, 72)[k as int]);
        assert(legal_move(b, moves[k as int] as int));
        let ghost t = hash_table.view();
        let score = search(*board, depth, depth, m, hash_table, 0);
        let ghost rest = evaluate_moves(b, w, depth, moves, k as int + 1, hash_table.view());
        evaluated.push(Info { turn: m, score });
        assert(evaluate_moves(b, w, depth, moves, k as int, t).0 == seq![Info { turn: m, score }] + rest.0);
        assert(evaluated@ + rest.0 =~= evaluated@.drop_last() + (seq![Info { turn: m, score }] + rest.0));
        k = k + 1;
    }
    assert(evaluated@ + evaluate_moves(b, w, depth, moves, n as int, hash_table.view()).0 =~= evaluated@);
    let turns = rank_moves(&evaluated);
    TurnList { turns, info_str: String::from_str("Done") }
}

/// Whether `r` is one of `items` and ranks before every other.
pub open spec fn is_best(r: Info, items: Seq<Info>) -> bool {
    &&& exists|j: int| 0 <= j < items.len() && r == #[trigger] items[j]
    &&& forall|j: int| 0 <= j < items.len() ==> r == #[trigger] items[j] || ranks_before(r, items[j])
}

/// The best first move of `board`, searched `depth` plies deep: the first of
/// `find_best_move_list`, with a line that describes it.
pub fn find_best_move(board: &GameState, depth: u8, verbose: bool, hash_table: &mut TranspositionTable) -> (r: TurnInfo)
    requires
        depth >= 1,
        old(hash_table).wf(),
        legal_moves(board.board@).len() > 0,
    ensures
        is_best((Info { turn: r.turn, score: r.score }), evaluate_all(*board, depth, old(hash_table).view()).0),
        final(hash_table).view() == evaluate_all(*board, depth, old(hash_table).view()).1,
        final(hash_table).wf(),
{
    let ghost ev = evaluate_all(*board, depth, old(hash_table).view()).0;
    proof {
        lemma_evaluate_len(board.board@, board.water_level, depth, legal_moves(board.board@), 0, old(hash_table).view());
    }
    let move_list = find_best_move_list(board, depth, verbose, hash_table);
    let best_move = move_list.turns[0];
    proof {
        lemma_first_is_best(move_list.turns@, ev);
    }
    let mut info_str = String::from_str("Done, best move ");
    info_str.append(&best_move.turn.to_string());
    info_str.append(" with score ");
    info_str.append(&best_move.score.to_string());
    TurnInfo { turn: best_move.turn, score: best_move.score, info_str }
}

proof fn lemma_first_is_best(ts: Seq<Info>, ev: Seq<Info>)
    requires
        is_ranking(ts, ev),
        ts.len() > 0,
    ensures
        is_best(ts[0], ev),
{
    assert forall|j: int| 0 <= j < ev.len() implies ts[0] == #[trigger] ev[j] || ranks_before(ts[0], ev[j]) by {
        let i = choose|i: int| 0 <= i < ts.len() && ts[i] == ev[j];
        if i > 0 {
            assert(ranks_before(ts[0], ts[i]));
        }
    }
    let j0 = choose|j: int| 0 <= j < ev.len() && #[trigger] ts[0] == ev[j];
    assert(ts[0] == ev[j0]);
}

proof fn lemma_evaluate_len(b: Seq<Pieces>, w: u8, depth: u8, moves: Seq<usize>, k: int, t: Map<Seq<u8>, HashEntry>)
    requires
        0 <= k <= moves.len(),
    ensures
        evaluate_moves(b, w, depth, moves, k, t).0.len() == moves.len() - k,
    decreases moves.len() - k,
{
    if k < moves.len() {
        let s = search_value(b, w, depth, depth, moves[k] as int, 0, t);
        lemma_evaluate_len(b, w, depth, moves, k + 1, s.1);
    }
}

/// Two strictly ranked lists with the same items are the same list.
proof fn lemma_ranking_unique(r1: Seq<Info>, r2: Seq<Info>)
    requires
        r1.len() == r2.len(),
        ranked(r1),
        ranked(r2),
        forall|i: int| 0 <= i < r1.len() ==> r2.contains(#[trigger] r1[i]),
        forall|i: int| 0 <= i < r2.len() ==> r1.contains(#[trigger] r2[i]),
    ensures
        r1 == r2,
    decreases r1.len(),
{
    if r1.len() > 0 {
        assert(r2.contains(r1[0]));
        assert(r1.contains(r2[0]));
        let j = choose|j: int| 0 <= j < r2.len() && r2[j] == r1[0];
        let i = choose|i: int| 0 <= i < r1.len() && r1[i] == r2[0];
        if i > 0 && j > 0 {
            assert(ranks_before(r1[0], r1[i]));
            assert(ranks_before(r2[0], r2[j]));
        }
        assert(r1[0] == r2[0]);
        let t1 = r1.drop_first();
        let t2 = r2.drop_first();
        assert forall|a: int| 0 <= a < t1.len() implies t2.contains(#[trigger] t1[a]) by {
            assert(r2.contains(r1[a + 1]));
            let c = choose|c: int| 0 <= c < r2.len() && r2[c] == r1[a + 1];
            assert(ranks_before(r1[0], r1[a + 1]));
            assert(c != 0);
            assert(t2[c - 1] == t1[a]);
        }
        assert forall|a: int| 0 <= a < t2.len() implies t1.contains(#[trigger] t2[a]) by {
            assert(r1.contains(r2[a + 1]));
            let c = choose|c: int| 0 <= c < r1.len() && r1[c] == r2[a + 1];
            assert(ranks_before(r2[0], r2[a + 1]));
            assert(c != 0);
            assert(t1[c - 1] == t2[a]);
        }
        lemma_ranking_unique(t1, t2);
        assert forall|k: int| 0 <= k < r1.len() implies r1[k] == r2[k] by {
            if k > 0 {
                assert(r1[k] == t1[k - 1]);
                assert(r2[k] == t2[k - 1]);
            }
        }
        assert(r1 =~= r2);
    }
}

/// Searching the same board with the same water level to the same depth, each time with a
/// fresh table, ranks the same moves with the same scores in the same order.
pub proof fn lemma_search_deterministic(s1: GameState, s2: GameState, depth: u8, r1: Seq<Info>, r2: Seq<Info>)
    requires
        s1.board@ == s2.board@,
        s1.water_level == s2.water_level,
        is_ranking(r1, evaluate_all(s1, depth, Map::empty()).0),
        is_ranking(r2, evaluate_all(s2, depth, Map::empty()).0),
    ensures
        r1 == r2,
{
    let ev = evaluate_all(s1, depth, Map::empty()).0;
    assert(evaluate_all(s2, depth, Map::empty()).0 == ev);
    assert forall|i: int| 0 <= i < r1.len() implies r2.contains(#[trigger] r1[i]) by {
        assert(ev.contains(r1[i]));
        let j = choose|j: int| 0 <= j < ev.len() && ev[j] == r1[i];
        assert(r2.contains(ev[j]));
    }
    assert forall|i: int| 0 <= i < r2.len() implies r1.contains(#[trigger] r2[i]) by {
        assert(ev.contains(r2[i]));
        let j = choose|j: int| 0 <= j < ev.len() && ev[j] == r2[i];
        assert(r1.contains(ev[j]));
    }
    lemma_ranking_unique(r1, r2);
}

} // verus!
