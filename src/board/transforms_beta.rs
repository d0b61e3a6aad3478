use vstd::prelude::*;
use crate::board::defs::{Pieces, CLEARED, CRAB};
use crate::board::helpers::{movable, can_move};
use crate::board::structure::GameState;
use crate::board::transforms::{
    exchanged, valid_swap,
    ClearSet, solid, hrun_at, vrun_at, crab_washed, marked, clear_marks, anything_marked,
    count_crabs, removed, column, settle, solids, gravity, cascade, cascade_step, tile_count,
    step_bound, clear_count, lemma_step_decreases, lemma_step_score_bound, lemma_tile_count_bound,
    lemma_cell, lemma_cell_of,
};

verus! {

/// How many cells right of `t`, up to two, hold the same piece, without a break.
pub open spec fn reach_right(b: Seq<Pieces>, t: int) -> int {
    if t % 6 < 5 && b[t + 1] == b[t] {
        if t % 6 < 4 && b[t + 2] == b[t] {
            2
        } else {
            1
        }
    } else {
        0
    }
}

/// How many cells left of `t`, up to two, hold the same piece, without a break.
pub open spec fn reach_left(b: Seq<Pieces>, t: int) -> int {
    if t % 6 > 0 && b[t - 1] == b[t] {
        if t % 6 > 1 && b[t - 2] == b[t] {
            2
        } else {
            1
        }
    } else {
        0
    }
}

/// How many cells above `t`, up to two, hold the same piece, without a break.
pub open spec fn reach_up(b: Seq<Pieces>, t: int) -> int {
    if t / 6 < 11 && b[t + 6] == b[t] {
        if t / 6 < 10 && b[t + 12] == b[t] {
            2
        } else {
            1
        }
    } else {
        0
    }
}

/// How many cells below `t`, up to two, hold the same piece, without a break.
pub open spec fn reach_down(b: Seq<Pieces>, t: int) -> int {
    if t / 6 > 0 && b[t - 6] == b[t] {
        if t / 6 > 1 && b[t - 12] == b[t] {
            2
        } else {
            1
        }
    } else {
        0
    }
}

/// Whether looking around cell `t` marks cell `i`: a crab above the water level marks
/// itself; a colour tile with three or more equal in its row (or column) marks that run.
pub open spec fn marks_from(b: Seq<Pieces>, w: u8, t: int, i: int) -> bool {
    let l = reach_left(b, t);
    let r = reach_right(b, t);
    let d = reach_down(b, t);
    let u = reach_up(b, t);
    ||| crab_washed(b, w, t) && i == t
    ||| movable(b[t]) && l + r > 1 && t - l <= i <= t + r
    ||| movable(b[t]) && d + u > 1 && (i == t || (i == t - 6 && d >= 1) || (i == t - 12 && d >= 2) || (i
        == t + 6 && u >= 1) || (i == t + 12 && u >= 2))
}

/// Whether position `p` is among the seeds.
pub open spec fn seeded(seeds: Seq<usize>, p: int) -> bool {
    exists|k: int| 0 <= k < seeds.len() && seeds[k] as int == p
}

/// Whether looking around the seeds marks cell `i`.
pub open spec fn marked_from_seeds(b: Seq<Pieces>, w: u8, seeds: Seq<usize>, i: int) -> bool {
    exists|k: int| 0 <= k < seeds.len() && #[trigger] marks_from(b, w, seeds[k] as int, i)
}

/// The number of seeds among the first `n` that hold a crab above the water level.
pub open spec fn tracked_crabs(b: Seq<Pieces>, w: u8, seeds: Seq<usize>, n: int) -> nat
    decreases n,
{
    if n <= 0 {
        0
    } else {
        tracked_crabs(b, w, seeds, n - 1) + if crab_washed(b, w, seeds[n - 1] as int) {
            1nat
        } else {
            0nat
        }
    }
}

/// Whether the seeds are board cells and touch every run of three and every crab above
/// the water level: then looking around the seeds finds all that a full rescan finds.
pub open spec fn seeds_cover(b: Seq<Pieces>, w: u8, seeds: Seq<usize>) -> bool {
    &&& forall|k: int| 0 <= k < seeds.len() ==> #[trigger] seeds[k] < 72
    &&& forall|s: int| #[trigger] hrun_at(b, s) ==> seeded(seeds, s) || seeded(seeds, s + 1) || seeded(seeds, s + 2)
    &&& forall|s: int| #[trigger] vrun_at(b, s) ==> seeded(seeds, s) || seeded(seeds, s + 6) || seeded(seeds, s + 12)
    &&& forall|i: int| 0 <= i < 72 && #[trigger] crab_washed(b, w, i) ==> seeded(seeds, i)
}

/// What looking around a cell marks is part of what a full rescan marks.
proof fn lemma_marks_from_sound(b: Seq<Pieces>, w: u8, t: int, i: int)
    requires
        b.len() == 72,
        0 <= t < 72,
        marks_from(b, w, t, i),
    ensures
        0 <= i < 72,
        marked(b, w, i),
{
    let l = reach_left(b, t);
    let r = reach_right(b, t);
    let d = reach_down(b, t);
    let u = reach_up(b, t);
    lemma_cell(t);
    if crab_washed(b, w, t) && i == t {
    } else if movable(b[t]) && l + r > 1 && t - l <= i <= t + r {
        let s = t - l;
        assert(hrun_at(b, s)) by {
            assert((t - l) % 6 == t % 6 - l);
        }
        if l + r == 2 {
            assert(hrun_at(b, i) || hrun_at(b, i - 1) || hrun_at(b, i - 2));
        } else if l + r == 3 {
            assert(hrun_at(b, s + 1)) by {
                assert((t - l + 1) % 6 == t % 6 - l + 1);
            }
        } else {
            assert(hrun_at(b, s + 1)) by {
                assert((t - l + 1) % 6 == t % 6 - l + 1);
            }
            assert(hrun_at(b, s + 2)) by {
                assert((t - l + 2) % 6 == t % 6 - l + 2);
            }
        }
    } else {
        let s = t - 6 * d;
        assert(vrun_at(b, s));
        if d + u == 3 {
            assert(vrun_at(b, s + 6));
        } else if d + u == 4 {
            assert(vrun_at(b, s + 6));
            assert(vrun_at(b, s + 12));
        }
    }
}

/// With covering seeds, everything a full rescan marks is marked around some seed.
proof fn lemma_marks_from_complete(b: Seq<Pieces>, w: u8, seeds: Seq<usize>, i: int)
    requires
        b.len() == 72,
        0 <= i < 72,
        seeds_cover(b, w, seeds),
        marked(b, w, i),
    ensures
        marked_from_seeds(b, w, seeds, i),
{
    if crab_washed(b, w, i) {
        let k = choose|k: int| 0 <= k < seeds.len() && seeds[k] as int == i;
        assert(marks_from(b, w, seeds[k] as int, i));
    } else {
        let s = if hrun_at(b, i) {
            i
        } else if hrun_at(b, i - 1) {
            i - 1
        } else if hrun_at(b, i - 2) {
            i - 2
        } else if vrun_at(b, i) {
            i
        } else if vrun_at(b, i - 6) {
            i - 6
        } else {
            i - 12
        };
        if hrun_at(b, i) || hrun_at(b, i - 1) || hrun_at(b, i - 2) {
            assert(hrun_at(b, s) && s <= i <= s + 2);
            let k = choose|k: int|
                0 <= k < seeds.len() && (seeds[k] as int == s || seeds[k] as int == s + 1 || seeds[k] as int == s + 2);
            let t = seeds[k] as int;
            assert(s % 6 < 4);
            assert(t - reach_left(b, t) <= s && s + 2 <= t + reach_right(b, t)) by {
                assert((s + 1) % 6 == s % 6 + 1);
                assert((s + 2) % 6 == s % 6 + 2);
            }
            assert(marks_from(b, w, t, i));
        } else {
            assert(vrun_at(b, s));
            let k = choose|k: int|
                0 <= k < seeds.len() && (seeds[k] as int == s || seeds[k] as int == s + 6 || seeds[k] as int == s + 12);
            let t = seeds[k] as int;
            assert((s + 6) / 6 == s / 6 + 1 && (s + 12) / 6 == s / 6 + 2);
            assert(0 <= s / 6 < 10);
            assert(t - 6 * reach_down(b, t) <= s && s + 12 <= t + 6 * reach_up(b, t));
            assert(i == s || i == s + 6 || i == s + 12);
            assert(marks_from(b, w, t, i));
        }
    }
}

/// With covering seeds, looking around the seeds marks exactly what a full rescan marks.
pub proof fn lemma_seeded_marks_exact(b: Seq<Pieces>, w: u8, seeds: Seq<usize>)
    requires
        b.len() == 72,
        seeds_cover(b, w, seeds),
    ensures
        forall|i: int| 0 <= i < 72 ==> (marked_from_seeds(b, w, seeds, i) <==> #[trigger] marked(b, w, i)),
{
    assert forall|i: int| 0 <= i < 72 implies (marked_from_seeds(b, w, seeds, i) <==> #[trigger] marked(b, w, i)) by {
        if marked_from_seeds(b, w, seeds, i) {
            let k = choose|k: int| 0 <= k < seeds.len() && #[trigger] marks_from(b, w, seeds[k] as int, i);
            lemma_marks_from_sound(b, w, seeds[k] as int, i);
        }
        if marked(b, w, i) {
            lemma_marks_from_complete(b, w, seeds, i);
        }
    }
}

/// After a full pass and gravity, the tiles that moved cover the new board: a run or a
/// crab that no moved tile touches stood there before, and the pass would have removed it.
proof fn lemma_moved_cover(b: Seq<Pieces>, w: u8, nb: Seq<Pieces>, seeds: Seq<usize>)
    requires
        b.len() == 72,
        nb.len() == 72,
        forall|k: int| 0 <= k < seeds.len() ==> #[trigger] seeds[k] < 72,
        forall|p: int|
            0 <= p < 72 && solid(#[trigger] nb[p]) && !seeded(seeds, p) ==> nb[p] == removed(b, clear_marks(b, w))[p],
    ensures
        seeds_cover(nb, w, seeds),
{
    let m = clear_marks(b, w);
    assert forall|s: int| #[trigger] hrun_at(nb, s) implies seeded(seeds, s) || seeded(seeds, s + 1) || seeded(seeds, s + 2) by {
        if !(seeded(seeds, s) || seeded(seeds, s + 1) || seeded(seeds, s + 2)) {
            assert(solid(nb[s]) && solid(nb[s + 1]) && solid(nb[s + 2]));
            assert(!m[s] && !m[s + 1] && !m[s + 2]);
            assert(hrun_at(b, s));
            assert(marked(b, w, s));
        }
    }
    assert forall|s: int| #[trigger] vrun_at(nb, s) implies seeded(seeds, s) || seeded(seeds, s + 6) || seeded(seeds, s + 12) by {
        if !(seeded(seeds, s) || seeded(seeds, s + 6) || seeded(seeds, s + 12)) {
            assert(solid(nb[s]) && solid(nb[s + 6]) && solid(nb[s + 12]));
            assert(!m[s] && !m[s + 6] && !m[s + 12]);
            assert(vrun_at(b, s));
            assert(marked(b, w, s));
        }
    }
    assert forall|i: int| 0 <= i < 72 && #[trigger] crab_washed(nb, w, i) implies seeded(seeds, i) by {
        if !seeded(seeds, i) {
            assert(solid(nb[i]));
            assert(!m[i]);
            assert(crab_washed(b, w, i));
        }
    }
}

/// The new cells, bottom-up, of the tiles among the first `n` cells of column `c` (column
/// `x` of the board) that gravity moves: each solid tile with a gap below it.
pub open spec fn moved_upto(c: Seq<Pieces>, x: int, n: int) -> Seq<usize>
    decreases n,
{
    if n <= 0 {
        Seq::empty()
    } else {
        let dst = solids(c.take(n - 1)).len() as int;
        moved_upto(c, x, n - 1) + if solid(c[n - 1]) && dst != n - 1 {
            seq![(6 * dst + x) as usize]
        } else {
            Seq::empty()
        }
    }
}

/// The new cells, bottom-up, of the tiles of column `x` that gravity moves.
pub open spec fn moved_in_column(b: Seq<Pieces>, x: int) -> Seq<usize> {
    moved_upto(column(b, x), x, 12)
}

/// The new cells of the tiles that gravity moves in the first `n` columns, column by
/// column, each bottom-up.
pub open spec fn moved_cells_upto(b: Seq<Pieces>, n: int) -> Seq<usize>
    decreases n,
{
    if n <= 0 {
        Seq::empty()
    } else {
        moved_cells_upto(b, n - 1) + moved_in_column(b, n - 1)
    }
}

/// The new cells of the tiles that gravity moves, column by column, each bottom-up.
pub open spec fn moved_cells(b: Seq<Pieces>) -> Seq<usize> {
    moved_cells_upto(b, 6)
}

proof fn lemma_moved_upto_len(c: Seq<Pieces>, x: int, n: int)
    requires
        0 <= n,
    ensures
        moved_upto(c, x, n).len() <= n,
    decreases n,
{
    if n > 0 {
        lemma_moved_upto_len(c, x, n - 1);
    }
}

/// At most one cell for each cell of the board.
pub proof fn lemma_moved_cells_len(b: Seq<Pieces>, n: int)
    requires
        0 <= n <= 6,
    ensures
        moved_cells_upto(b, n).len() <= 12 * n,
    decreases n,
{
    if n > 0 {
        lemma_moved_cells_len(b, n - 1);
        lemma_moved_upto_len(column(b, n - 1), n - 1, 12);
    }
}

impl GameState {
    /// Adds to `to_clear` what looking around each tracked cell finds: a crab above the
    /// water level, or the run of three to five equal colour tiles in its row or column.
    /// Returns whether this pass marked anything, and twice the water level for each tracked
    /// crab above the water level.
    fn mark_clears_targetted(&self, removing_tracker: &Vec<usize>, to_clear: &mut ClearSet) -> (r: (bool, i64))
        requires
            removing_tracker@.len() <= 72,
            forall|k: int| 0 <= k < removing_tracker@.len() ==> #[trigger] removing_tracker@[k] < 72,
        ensures
            forall|i: int|
                0 <= i < 72 ==> #[trigger] final(to_clear)@[i] == (old(to_clear)@[i] || marked_from_seeds(self.board@,
                    self.water_level, removing_tracker@, i)),
            r.0 == exists|i: int| 0 <= i < 72 && marked_from_seeds(self.board@, self.water_level, removing_tracker@, i),
            r.1 == 2 * self.water_level * tracked_crabs(self.board@, self.water_level, removing_tracker@, removing_tracker@.len() as int),
            (forall|i: int| 0 <= i < 72 ==> !old(to_clear)@[i]) ==> (r.0 == exists|i: int| 0 <= i < 72 && final(to_clear)@[i]),
    {
        let ghost start = to_clear@;
        let mut marks: ClearSet = [false; 72];
        let mut bonus: i64 = 0;
        let ghost b = self.board@;
        let ghost w = self.water_level;
        let ghost seeds = removing_tracker@;
        let mut returning = false;
        let mut k: usize = 0;
        assert(tracked_crabs(b, w, seeds, 0) == 0);
        while k < removing_tracker.len()
            invariant
                b == self.board@,
                w == self.water_level,
                seeds == removing_tracker@,
                k <= seeds.len(),
                forall|j: int| 0 <= j < seeds.len() ==> #[trigger] seeds[j] < 72,
                forall|i: int|
                    0 <= i < 72 ==> marks@[i] == exists|j: int| 0 <= j < k && #[trigger] marks_from(b, w, seeds[j] as int, i),
                returning == exists|i: int| 0 <= i < 72 && marks@[i],
                bonus == 2 * w * tracked_crabs(b, w, seeds, k as int),
                0 <= bonus <= 510 * k,
                seeds.len() <= 72,
            decreases seeds.len() - k,
        {
            let pos = removing_tracker[k];
            if self.board[pos] == CRAB && pos / 6 > self.water_level as usize {
                proof {
                    let c = tracked_crabs(b, w, seeds, k as int);
                    assert(2 * w * (c + 1) == 2 * w * c + 2 * w) by (nonlinear_arith);
                }
                bonus = bonus + 2 * self.water_level as i64;
            }
            let ghost before = marks@;
            self.mark_around(pos, &mut marks);
            proof {
                assert forall|i: int| 0 <= i < 72 implies marks@[i] == exists|j: int| 0 <= j < k + 1 && #[trigger] marks_from(b, w, seeds[j] as int, i) by {
                    if marks_from(b, w, seeds[k as int] as int, i) {
                        assert(marks@[i]);
                    } else if marks@[i] {
                        assert(before[i]);
                        let j = choose|j: int| 0 <= j < k && #[trigger] marks_from(b, w, seeds[j] as int, i);
                    } else {
                        assert(!before[i]);
                    }
                }
            }
            returning = returning || self.any_new(pos);
            proof {
                if returning {
                    if exists|i: int| 0 <= i < 72 && before[i] {
                        let i = choose|i: int| 0 <= i < 72 && before[i];
                        assert(marks@[i]);
                    } else {
                        let i = choose|i: int| 0 <= i < 72 && marks_from(b, w, pos as int, i);
                        assert(marks@[i]);
                    }
                } else {
                    assert forall|i: int| 0 <= i < 72 implies !marks@[i] by {
                        assert(!before[i]);
                    }
                }
            }
            k = k + 1;
        }
        proof {
            assert forall|i: int| 0 <= i < 72 implies marks@[i] == marked_from_seeds(b, w, seeds, i) by {
                if marks@[i] {
                    let j = choose|j: int| 0 <= j < seeds.len() && #[trigger] marks_from(b, w, seeds[j] as int, i);
                }
            }
        }
        let mut i: usize = 0;
        while i < 72
            invariant
                i <= 72,
                start == old(to_clear)@,
                forall|j: int| 0 <= j < 72 ==> #[trigger] marks@[j] == marked_from_seeds(b, w, seeds, j),
                forall|j: int| 0 <= j < i ==> #[trigger] to_clear@[j] == (start[j] || marks@[j]),
                forall|j: int| i <= j < 72 ==> #[trigger] to_clear@[j] == start[j],
            decreases 72 - i,
        {
            let merged = to_clear[i] || marks[i];
            to_clear[i] = merged;
            i = i + 1;
        }
        proof {
            if returning {
                let i = choose|i: int| 0 <= i < 72 && marks@[i];
                assert(marked_from_seeds(b, w, seeds, i));
                assert(to_clear@[i]);
            } else {
                assert forall|i: int| 0 <= i < 72 implies !marked_from_seeds(b, w, seeds, i) by {
                    assert(!marks@[i]);
                }
                if forall|i: int| 0 <= i < 72 ==> !start[i] {
                    assert forall|i: int| 0 <= i < 72 implies !to_clear@[i] by {
                        assert(!start[i] && !marks@[i]);
                    }
                }
            }
        }
        (returning, bonus)
    }

    /// Whether looking around cell `pos` marks anything.
    fn any_new(&self, pos: usize) -> (r: bool)
        requires
            pos < 72,
        ensures
            r == exists|i: int| 0 <= i < 72 && marks_from(self.board@, self.water_level, pos as int, i),
    {
        let ghost b = self.board@;
        let ghost w = self.water_level;
        let piece = self.board[pos];
        let (l, r, d, u) = self.reaches(pos);
        let res = (piece == CRAB && pos / 6 > self.water_level as usize) || (can_move(piece) && (l + r > 1 || d + u > 1));
        proof {
            if res {
                assert(marks_from(b, w, pos as int, pos as int));
            } else {
                assert forall|i: int| 0 <= i < 72 implies !marks_from(b, w, pos as int, i) by {
                }
            }
        }
        res
    }

    /// The reaches left, right, down and up from cell `pos`.
    fn reaches(&self, pos: usize) -> (r: (usize, usize, usize, usize))
        requires
            pos < 72,
        ensures
            r.0 == reach_left(self.board@, pos as int),
            r.1 == reach_right(self.board@, pos as int),
            r.2 == reach_down(self.board@, pos as int),
            r.3 == reach_up(self.board@, pos as int),
    {
        let piece = self.board[pos];
        let x = pos % 6;
        let y = pos / 6;
        let mut x_left_range: usize = 0;
        let mut x_right_range: usize = 0;
        let mut y_up_range: usize = 0;
        let mut y_down_range: usize = 0;
        if x < 5 && piece == self.board[pos + 1] {
            x_right_range = 1;
            if x < 4 && piece == self.board[pos + 2] {
                x_right_range = 2;
            }
        }
        if x > 0 && piece == self.board[pos - 1] {
            x_left_range = 1;
            if x > 1 && piece == self.board[pos - 2] {
                x_left_range = 2;
            }
        }
        if y < 11 && piece == self.board[pos + 6] {
            y_up_range = 1;
            if y < 10 && piece == self.board[pos + 12] {
                y_up_range = 2;
            }
        }
        if y > 0 && piece == self.board[pos - 6] {
            y_down_range = 1;
            if y > 1 && piece == self.board[pos - 12] {
                y_down_range = 2;
            }
        }
        (x_left_range, x_right_range, y_down_range, y_up_range)
    }

    /// Adds to `to_clear` what looking around cell `pos` marks.
    fn mark_around(&self, pos: usize, to_clear: &mut ClearSet)
        requires
            pos < 72,
        ensures
            forall|i: int|
                0 <= i < 72 ==> final(to_clear)@[i] == (old(to_clear)@[i] || marks_from(self.board@, self.water_level, pos as int, i)),
    {
        let ghost b = self.board@;
        let ghost w = self.water_level;
        let piece = self.board[pos];
        if piece == CRAB && pos / 6 > self.water_level as usize {
            to_clear[pos] = true;
            return;
        }
        if !can_move(piece) {
            return;
        }
        let (l, r, d, u) = self.reaches(pos);
        if l + r > 1 {
            let mut i: usize = pos - l;
            while i <= pos + r
                invariant
                    pos < 72,
                    pos + r < 72,
                    l <= pos,
                    pos - l <= i <= pos + r + 1,
                    forall|j: int|
                        0 <= j < 72 ==> to_clear@[j] == (old(to_clear)@[j] || (pos - l <= j < i)),
                decreases pos + r + 1 - i,
            {
                to_clear[i] = true;
                i = i + 1;
            }
        }
        if d + u > 1 {
            to_clear[pos] = true;
            if d >= 1 {
                to_clear[pos - 6] = true;
            }
            if d >= 2 {
                to_clear[pos - 12] = true;
            }
            if u >= 1 {
                to_clear[pos + 6] = true;
            }
            if u >= 2 {
                to_clear[pos + 12] = true;
            }
        }
        proof {
            lemma_cell(pos as int);
        }
    }

    /// Twice the water level for each marked crab above the water level.
    fn washed_bonus(&self, to_clear: &ClearSet) -> (r: i64)
        requires
            to_clear@ == clear_marks(self.board@, self.water_level),
        ensures
            r == 2 * self.water_level * count_crabs(self.board@, self.water_level, 72),
    {
        let ghost b = self.board@;
        let ghost w = self.water_level;
        let mut bonus: i64 = 0;
        let mut i: usize = 0;
        assert(count_crabs(b, w, 0) == 0);
        while i < 72
            invariant
                i <= 72,
                b == self.board@,
                w == self.water_level,
                to_clear@ == clear_marks(b, w),
                bonus == 2 * w * count_crabs(b, w, i as int),
                0 <= bonus <= 510 * i,
            decreases 72 - i,
        {
            if to_clear[i] && self.board[i] == CRAB && i / 6 > self.water_level as usize {
                proof {
                    let c = count_crabs(b, w, i as int);
                    assert(2 * w * (c + 1) == 2 * w * c + 2 * w) by (nonlinear_arith);
                }
                bonus = bonus + 2 * self.water_level as i64;
            }
            i = i + 1;
        }
        bonus
    }

    /// Gravity on column `x`, adding to `removing_tracker` the cell of every tile that moved.
    fn settle_column_tracked(&mut self, x: usize, removing_tracker: &mut Vec<usize>)
        requires
            x < 6,
            forall|k: int| 0 <= k < old(removing_tracker)@.len() ==> #[trigger] old(removing_tracker)@[k] < 72,
        ensures
            column(final(self).board@, x as int) == settle(column(old(self).board@, x as int)),
            forall|i: int| 0 <= i < 72 && i % 6 != x ==> final(self).board@[i] == old(self).board@[i],
            final(self).water_level == old(self).water_level,
            final(removing_tracker)@ == old(removing_tracker)@ + moved_in_column(old(self).board@, x as int),
            forall|k: int| 0 <= k < final(removing_tracker)@.len() ==> #[trigger] final(removing_tracker)@[k] < 72,
            forall|p: int| 0 <= p < old(removing_tracker)@.len() ==> seeded(final(removing_tracker)@, old(removing_tracker)@[p] as int),
            forall|y: int|
                0 <= y < 12 && solid(#[trigger] final(self).board@[6 * y + x]) && !seeded(final(removing_tracker)@, 6 * y + x)
                    ==> final(self).board@[6 * y + x] == old(self).board@[6 * y + x],
    {
        let ghost b0 = self.board@;
        let ghost t0 = removing_tracker@;
        let ghost col0 = column(b0, x as int);
        let mut dst: usize = 0;
        let mut src: usize = 0;
        while src < 12
            invariant
                x < 6,
                src <= 12,
                dst <= src,
                b0 == old(self).board@,
                t0 == old(removing_tracker)@,
                col0 == column(b0, x as int),
                self.water_level == old(self).water_level,
                dst == solids(col0.take(src as int)).len(),
                removing_tracker@ == t0 + moved_upto(col0, x as int, src as int),
                forall|y: int| 0 <= y < dst ==> #[trigger] self.board@[6 * y + x] == solids(col0.take(src as int))[y],
                forall|y: int| src <= y < 12 ==> #[trigger] self.board@[6 * y + x] == col0[y],
                forall|i: int| 0 <= i < 72 && i % 6 != x ==> self.board@[i] == b0[i],
                forall|k: int| 0 <= k < removing_tracker@.len() ==> #[trigger] removing_tracker@[k] < 72,
                removing_tracker@.len() >= t0.len(),
                forall|k: int| 0 <= k < t0.len() ==> removing_tracker@[k] == t0[k],
                forall|y: int|
                    0 <= y < dst && !seeded(removing_tracker@, 6 * y + x) ==> #[trigger] self.board@[6 * y + x] == b0[6 * y + x],
            decreases 12 - src,
        {
            proof {
                lemma_cell_of(src as int, x as int);
                lemma_cell_of(dst as int, x as int);
            }
            let c = self.board[src * 6 + x];
            assert(col0.take(src as int + 1).drop_last() =~= col0.take(src as int));
            assert(c == col0[src as int]);
            if c != CLEARED && c <= 128 {
                if src != dst {
                    self.board[dst * 6 + x] = c;
                    let ghost before = removing_tracker@;
                    removing_tracker.push(dst * 6 + x);
                    proof {
                        assert(removing_tracker@ =~= t0 + moved_upto(col0, x as int, src as int + 1));
                        assert(removing_tracker@[before.len() as int] == dst * 6 + x);
                        assert forall|y: int|
                            0 <= y < dst && !seeded(removing_tracker@, 6 * y + x) implies #[trigger] self.board@[6 * y + x] == b0[6 * y + x] by {
                            if seeded(before, 6 * y + x) {
                                let k = choose|k: int| 0 <= k < before.len() && before[k] as int == 6 * y + x;
                                assert(removing_tracker@[k] == before[k]);
                            }
                        }
                    }
                } else {
                    assert(self.board@[6 * dst + x] == b0[6 * dst + x]);
                    assert(removing_tracker@ =~= t0 + moved_upto(col0, x as int, src as int + 1));
                    proof {
                        assert forall|y: int|
                            0 <= y < dst + 1 && !seeded(removing_tracker@, 6 * y + x) implies #[trigger] self.board@[6 * y + x] == b0[6 * y + x] by {
                        }
                    }
                }
                dst = dst + 1;
            } else {
                assert(removing_tracker@ =~= t0 + moved_upto(col0, x as int, src as int + 1));
            }
            src = src + 1;
        }
        assert(col0.take(12) =~= col0);
        proof {
            crate::board::transforms::lemma_solids_len(col0);
        }
        let ghost filled = dst;
        let mut y: usize = dst;
        while y < 12
            invariant
                x < 6,
                filled <= y <= 12,
                filled == solids(col0).len(),
                self.water_level == old(self).water_level,
                forall|k: int| 0 <= k < filled ==> #[trigger] self.board@[6 * k + x] == solids(col0)[k],
                forall|k: int| filled <= k < y ==> #[trigger] self.board@[6 * k + x] == CLEARED,
                forall|i: int| 0 <= i < 72 && i % 6 != x ==> self.board@[i] == b0[i],
                removing_tracker@ == t0 + moved_in_column(b0, x as int),
                forall|k: int| 0 <= k < removing_tracker@.len() ==> #[trigger] removing_tracker@[k] < 72,
                removing_tracker@.len() >= t0.len(),
                forall|k: int| 0 <= k < t0.len() ==> removing_tracker@[k] == t0[k],
                forall|k: int|
                    0 <= k < filled && !seeded(removing_tracker@, 6 * k + x) ==> #[trigger] self.board@[6 * k + x] == b0[6 * k + x],
            decreases 12 - y,
        {
            proof {
                lemma_cell_of(y as int, x as int);
            }
            self.board[y * 6 + x] = CLEARED;
            y = y + 1;
        }
        assert(column(self.board@, x as int) =~= settle(col0));
        proof {
            assert forall|p: int| 0 <= p < t0.len() implies seeded(removing_tracker@, t0[p] as int) by {
                assert(removing_tracker@[p] == t0[p]);
            }
        }
    }

    /// Gravity on the whole board. Returns the cells of the tiles that moved.
    pub fn simple_tracker(&mut self) -> (removing_tracker: Vec<usize>)
        ensures
            final(self).board@ == gravity(old(self).board@),
            final(self).water_level == old(self).water_level,
            removing_tracker@ == moved_cells(old(self).board@),
            removing_tracker@.len() <= 72,
            forall|k: int| 0 <= k < removing_tracker@.len() ==> #[trigger] removing_tracker@[k] < 72,
            forall|p: int|
                0 <= p < 72 && solid(#[trigger] final(self).board@[p]) && !seeded(removing_tracker@, p) ==> final(self).board@[p]
                    == old(self).board@[p],
    {
        let ghost b0 = self.board@;
        let mut removing_tracker: Vec<usize> = Vec::new();
        let mut x: usize = 0;
        while x < 6
            invariant
                x <= 6,
                b0 == old(self).board@,
                self.water_level == old(self).water_level,
                forall|i: int| 0 <= i < 72 && i % 6 < x ==> self.board@[i] == gravity(b0)[i],
                forall|i: int| 0 <= i < 72 && i % 6 >= x ==> self.board@[i] == b0[i],
                removing_tracker@ == moved_cells_upto(b0, x as int),
                forall|k: int| 0 <= k < removing_tracker@.len() ==> #[trigger] removing_tracker@[k] < 72,
                forall|p: int|
                    0 <= p < 72 && p % 6 < x && solid(#[trigger] self.board@[p]) && !seeded(removing_tracker@, p) ==> self.board@[p] == b0[p],
            decreases 6 - x,
        {
            assert(column(self.board@, x as int) =~= column(b0, x as int)) by {
                assert forall|y: int| 0 <= y < 12 implies #[trigger] self.board@[6 * y + x] == b0[6 * y + x] by {
                    lemma_cell_of(y, x as int);
                }
            }
            let ghost before = self.board@;
            let ghost seeds_before = removing_tracker@;
            self.settle_column_tracked(x, &mut removing_tracker);
            assert(removing_tracker@ == moved_cells_upto(b0, x as int + 1));
            proof {
                assert forall|i: int| 0 <= i < 72 && i % 6 == x implies self.board@[i] == gravity(b0)[i] by {
                    lemma_cell(i);
                    assert(self.board@[i] == column(self.board@, x as int)[i / 6]);
                }
                assert forall|p: int|
                    0 <= p < 72 && p % 6 < x + 1 && solid(#[trigger] self.board@[p]) && !seeded(removing_tracker@, p) implies self.board@[p] == b0[p] by {
                    lemma_cell(p);
                    if p % 6 < x {
                        if seeded(seeds_before, p) {
                            let k = choose|k: int| 0 <= k < seeds_before.len() && seeds_before[k] as int == p;
                            assert(seeded(removing_tracker@, seeds_before[k] as int));
                        }
                        assert(self.board@[p] == before[p]);
                    } else {
                        let y = p / 6;
                        assert(self.board@[6 * y + x] == before[6 * y + x]);
                    }
                }
            }
            x = x + 1;
        }
        assert(self.board@ =~= gravity(b0));
        proof {
            lemma_moved_cells_len(b0, 6);
        }
        removing_tracker
    }

    /// Cascade resolution after a swap at `pos`, looking for matches only around the cells
    /// that changed: first the two swapped cells, then the tiles that fell. When every run
    /// of three and every crab above the water level touches a swapped cell, this gives the
    /// same score and board as the full rescan of `clean_board`.
    pub fn clean_board_beta(&mut self, pos: usize) -> (r: i64)
        requires
            pos < 71,
            seeds_cover(old(self).board@, old(self).water_level, seq![pos, (pos + 1) as usize]),
        ensures
            r == cascade(old(self).board@, old(self).water_level).0,
            final(self).board@ == cascade(old(self).board@, old(self).water_level).1,
            final(self).water_level == old(self).water_level,
    {
        let ghost b0 = self.board@;
        let ghost w = self.water_level;
        proof {
            lemma_tile_count_bound(b0);
        }
        let mut removing_tracker: Vec<usize> = Vec::new();
        removing_tracker.push(pos);
        removing_tracker.push(pos + 1);
        assert(removing_tracker@ =~= seq![pos, (pos + 1) as usize]);
        let mut extra: i64 = 0;
        let mut to_clear: ClearSet = [false; 72];
        let mut any = self.mark_clears_targetted(&removing_tracker, &mut to_clear).0;
        proof {
            lemma_seeded_marks_exact(self.board@, w, removing_tracker@);
            lemma_exact_marks(self.board@, w, to_clear@, any);
        }
        while any
            invariant
                w == self.water_level,
                w == old(self).water_level,
                self.board@.len() == 72,
                to_clear@ == clear_marks(self.board@, w),
                any == anything_marked(self.board@, w),
                cascade(b0, w).0 == extra + cascade(self.board@, w).0,
                cascade(b0, w).1 == cascade(self.board@, w).1,
                0 <= extra,
                extra + step_bound() * tile_count(self.board@) <= 72 * step_bound(),
            decreases tile_count(self.board@),
        {
            proof {
                lemma_step_score_bound(self.board@, w);
                lemma_step_decreases(self.board@, w);
            }
            let ghost b = self.board@;
            let bonus = self.washed_bonus(&to_clear);
            let n = clear_count(&to_clear);
            extra = extra + n as i64 + bonus;
            self.remove_clears(&to_clear);
            removing_tracker = self.simple_tracker();
            proof {
                lemma_moved_cover(b, w, self.board@, removing_tracker@);
            }
            to_clear = [false; 72];
            any = self.mark_clears_targetted(&removing_tracker, &mut to_clear).0;
            proof {
                lemma_seeded_marks_exact(self.board@, w, removing_tracker@);
                lemma_exact_marks(self.board@, w, to_clear@, any);
            }
        }
        extra
    }
}

proof fn lemma_exact_marks(b: Seq<Pieces>, w: u8, to_clear: Seq<bool>, any: bool)
    requires
        to_clear.len() == 72,
        forall|i: int| 0 <= i < 72 ==> to_clear[i] == (marked(b, w, i)),
        any == exists|i: int| 0 <= i < 72 && to_clear[i],
    ensures
        to_clear == clear_marks(b, w),
        any == anything_marked(b, w),
{
    assert(to_clear =~= clear_marks(b, w));
    if any {
        let i = choose|i: int| 0 <= i < 72 && to_clear[i];
        assert(marked(b, w, i));
    } else {
        assert forall|i: int| 0 <= i < 72 implies !marked(b, w, i) by {
            assert(!to_clear[i]);
        }
    }
}

/// On a board where nothing would be removed, a swap creates runs and exposed crabs only
/// through the two swapped cells: so resolution seeded at them (`clean_board_beta`) and the
/// full rescan (`clean_board`) agree after the swap.
pub proof fn lemma_swap_seeds_cover(b: Seq<Pieces>, w: u8, pos: int)
    requires
        b.len() == 72,
        valid_swap(pos),
        !anything_marked(b, w),
    ensures
        seeds_cover(exchanged(b, pos), w, seq![pos as usize, (pos + 1) as usize]),
{
    let nb = exchanged(b, pos);
    let seeds = seq![pos as usize, (pos + 1) as usize];
    assert(seeded(seeds, pos));
    assert(seeded(seeds, pos + 1));
    assert forall|s: int| #[trigger] hrun_at(nb, s) implies seeded(seeds, s) || seeded(seeds, s + 1) || seeded(seeds, s + 2) by {
        if !(s == pos || s + 1 == pos || s + 2 == pos || s == pos + 1 || s + 1 == pos + 1 || s + 2 == pos + 1) {
            assert(hrun_at(b, s));
            assert(marked(b, w, s));
        }
    }
    assert forall|s: int| #[trigger] vrun_at(nb, s) implies seeded(seeds, s) || seeded(seeds, s + 6) || seeded(seeds, s + 12) by {
        if !(s == pos || s + 6 == pos || s + 12 == pos || s == pos + 1 || s + 6 == pos + 1 || s + 12 == pos + 1) {
            assert(vrun_at(b, s));
            assert(marked(b, w, s));
        }
    }
    assert forall|i: int| 0 <= i < 72 && #[trigger] crab_washed(nb, w, i) implies seeded(seeds, i) by {
        if i != pos && i != pos + 1 {
            assert(crab_washed(b, w, i));
            assert(marked(b, w, i));
        }
    }
}

} // verus!
