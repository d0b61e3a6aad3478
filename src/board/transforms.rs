use vstd::prelude::*;
use crate::board::defs::{Pieces, CLEARED, CRAB, JELLYFISH, NULL, PUFFERFISH};
use crate::board::move_list::{MoveList, move_list_items, empty_move_list, push_move};
use crate::board::helpers::{movable, can_move, in_moore, row_of, col_of};
use crate::board::structure::GameState;

verus! {

/// A set of board indices, held as one flag per cell.
pub type ClearSet = [bool; 72];

/// Whether a cell holds a tile that gravity moves: anything but a cleared cell
/// or a code above 128 (`NULL`).
pub open spec fn solid(p: Pieces) -> bool {
    p != CLEARED && p <= 128
}

/// Three equal colour tiles in a row, starting at `s` and going right.
pub open spec fn hrun_at(b: Seq<Pieces>, s: int) -> bool {
    &&& 0 <= s < 72
    &&& s % 6 < 4
    &&& movable(b[s])
    &&& b[s + 1] == b[s]
    &&& b[s + 2] == b[s]
}

/// Three equal colour tiles in a column, starting at `s` and going up.
pub open spec fn vrun_at(b: Seq<Pieces>, s: int) -> bool {
    &&& 0 <= s < 60
    &&& movable(b[s])
    &&& b[s + 6] == b[s]
    &&& b[s + 12] == b[s]
}

/// A crab in a row strictly above the water level.
pub open spec fn crab_washed(b: Seq<Pieces>, w: u8, i: int) -> bool {
    b[i] == CRAB && i / 6 > w
}

/// Whether cell `i` lies in three equal colour tiles in a row or in a column.
pub open spec fn in_match(b: Seq<Pieces>, i: int) -> bool {
    ||| hrun_at(b, i)
    ||| hrun_at(b, i - 1)
    ||| hrun_at(b, i - 2)
    ||| vrun_at(b, i)
    ||| vrun_at(b, i - 6)
    ||| vrun_at(b, i - 12)
}

/// Whether one pass of cascade resolution removes cell `i`.
pub open spec fn marked(b: Seq<Pieces>, w: u8, i: int) -> bool {
    crab_washed(b, w, i) || in_match(b, i)
}

/// The cells that one pass of cascade resolution removes.
pub open spec fn clear_marks(b: Seq<Pieces>, w: u8) -> Seq<bool> {
    Seq::new(72, |i: int| marked(b, w, i))
}

/// Whether one pass of cascade resolution removes anything.
pub open spec fn anything_marked(b: Seq<Pieces>, w: u8) -> bool {
    exists|i: int| 0 <= i < 72 && marked(b, w, i)
}

/// The number of set flags.
pub open spec fn count_true(s: Seq<bool>) -> nat
    decreases s.len(),
{
    if s.len() == 0 {
        0
    } else {
        count_true(s.drop_last()) + if s.last() {
            1nat
        } else {
            0nat
        }
    }
}

/// The number of crabs above the water level among the first `n` cells.
pub open spec fn count_crabs(b: Seq<Pieces>, w: u8, n: int) -> nat
    decreases n,
{
    if n <= 0 {
        0
    } else {
        count_crabs(b, w, n - 1) + if crab_washed(b, w, n - 1) {
            1nat
        } else {
            0nat
        }
    }
}

/// The board with every flagged cell cleared.
pub open spec fn removed(b: Seq<Pieces>, m: Seq<bool>) -> Seq<Pieces> {
    Seq::new(72, |i: int| if m[i] { CLEARED } else { b[i] })
}

/// Column `x` of a board, bottom first.
pub open spec fn column(b: Seq<Pieces>, x: int) -> Seq<Pieces> {
    Seq::new(12, |y: int| b[6 * y + x])
}

/// The solid tiles of a sequence, in order.
pub open spec fn solids(s: Seq<Pieces>) -> Seq<Pieces>
    decreases s.len(),
{
    if s.len() == 0 {
        Seq::empty()
    } else {
        solids(s.drop_last()) + if solid(s.last()) {
            seq![s.last()]
        } else {
            Seq::empty()
        }
    }
}

/// `n` cleared cells.
pub open spec fn clears(n: int) -> Seq<Pieces> {
    Seq::new(n as nat, |i: int| CLEARED)
}

/// A column after gravity: its solid tiles from the bottom, in order, then cleared cells.
pub open spec fn settle(c: Seq<Pieces>) -> Seq<Pieces> {
    solids(c) + clears(c.len() - solids(c).len())
}

/// The board after gravity has acted on every column.
pub open spec fn gravity(b: Seq<Pieces>) -> Seq<Pieces> {
    Seq::new(72, |i: int| settle(column(b, i % 6))[i / 6])
}

/// The number of solid tiles on the board.
pub open spec fn tile_count(b: Seq<Pieces>) -> nat {
    solids(column(b, 0)).len() + solids(column(b, 1)).len() + solids(column(b, 2)).len()
        + solids(column(b, 3)).len() + solids(column(b, 4)).len() + solids(column(b, 5)).len()
}

/// The board after one pass of cascade resolution.
pub open spec fn cascade_step(b: Seq<Pieces>, w: u8) -> Seq<Pieces> {
    gravity(removed(b, clear_marks(b, w)))
}

/// What one pass of cascade resolution scores: one point per removed tile, and twice
/// the water level for each crab washed away.
pub open spec fn step_score(b: Seq<Pieces>, w: u8) -> int {
    count_true(clear_marks(b, w)) + 2 * w * count_crabs(b, w, 72)
}

/// Cascade resolution: passes until nothing is removed. The total score, and the final board.
pub open spec fn cascade(b: Seq<Pieces>, w: u8) -> (int, Seq<Pieces>)
    decreases tile_count(b),
    when b.len() == 72
    via cascade_decreases
{
    if anything_marked(b, w) {
        let rest = cascade(cascade_step(b, w), w);
        (step_score(b, w) + rest.0, rest.1)
    } else {
        (0, b)
    }
}

pub proof fn lemma_solids_len(s: Seq<Pieces>)
    ensures
        solids(s).len() <= s.len(),
    decreases s.len(),
{
    if s.len() > 0 {
        lemma_solids_len(s.drop_last());
    }
}

proof fn lemma_solids_add(a: Seq<Pieces>, b: Seq<Pieces>)
    ensures
        solids(a + b) == solids(a) + solids(b),
    decreases b.len(),
{
    if b.len() == 0 {
        assert(a + b =~= a);
        assert(solids(a) + solids(b) =~= solids(a));
    } else {
        assert((a + b).drop_last() =~= a + b.drop_last());
        lemma_solids_add(a, b.drop_last());
        assert(solids(a + b) =~= solids(a) + solids(b));
    }
}

proof fn lemma_solids_of_solids(s: Seq<Pieces>)
    ensures
        solids(solids(s)) == solids(s),
    decreases s.len(),
{
    if s.len() > 0 {
        lemma_solids_of_solids(s.drop_last());
        let tail = if solid(s.last()) { seq![s.last()] } else { Seq::<Pieces>::empty() };
        lemma_solids_add(solids(s.drop_last()), tail);
        if solid(s.last()) {
            assert(tail.drop_last() =~= Seq::<Pieces>::empty());
            assert(solids(tail.drop_last()) =~= Seq::<Pieces>::empty());
            assert(solids(tail) =~= tail);
        } else {
            assert(tail.len() == 0);
            assert(solids(tail) =~= tail);
        }
    }
}

proof fn lemma_solids_clears(n: int)
    requires
        n >= 0,
    ensures
        solids(clears(n)) =~= Seq::<Pieces>::empty(),
    decreases n,
{
    if n > 0 {
        assert(clears(n).drop_last() =~= clears(n - 1));
        lemma_solids_clears(n - 1);
    }
}

/// Clearing cells never adds solid tiles, and clearing a solid tile removes one.
proof fn lemma_solids_shrink(s: Seq<Pieces>, t: Seq<Pieces>)
    requires
        s.len() == t.len(),
        forall|k: int| 0 <= k < s.len() ==> t[k] == s[k] || t[k] == CLEARED,
    ensures
        solids(t).len() <= solids(s).len(),
        (exists|k: int| 0 <= k < s.len() && solid(s[k]) && t[k] == CLEARED) ==> solids(t).len()
            < solids(s).len(),
    decreases s.len(),
{
    if s.len() > 0 {
        lemma_solids_shrink(s.drop_last(), t.drop_last());
        if exists|k: int| 0 <= k < s.len() && solid(s[k]) && t[k] == CLEARED {
            let k = choose|k: int| 0 <= k < s.len() && solid(s[k]) && t[k] == CLEARED;
            if k < s.len() - 1 {
                assert(solid(s.drop_last()[k]) && t.drop_last()[k] == CLEARED);
            }
        }
    }
}

proof fn lemma_settle_count(c: Seq<Pieces>)
    ensures
        solids(settle(c)).len() == solids(c).len(),
        settle(c).len() == c.len(),
{
    lemma_solids_len(c);
    lemma_solids_add(solids(c), clears(c.len() - solids(c).len()));
    lemma_solids_of_solids(c);
    lemma_solids_clears(c.len() - solids(c).len());
}

proof fn lemma_column_of_gravity(b: Seq<Pieces>, x: int)
    requires
        0 <= x < 6,
    ensures
        column(gravity(b), x) =~= settle(column(b, x)),
{
    lemma_settle_count(column(b, x));
    assert forall|y: int| 0 <= y < 12 implies column(gravity(b), x)[y] == settle(column(b, x))[y] by {
        assert((6 * y + x) % 6 == x && (6 * y + x) / 6 == y) by (nonlinear_arith)
            requires
                0 <= x < 6,
                0 <= y,
        ;
    }
}

pub proof fn lemma_tile_count_bound(b: Seq<Pieces>)
    ensures
        tile_count(b) <= 72,
{
    lemma_solids_len(column(b, 0));
    lemma_solids_len(column(b, 1));
    lemma_solids_len(column(b, 2));
    lemma_solids_len(column(b, 3));
    lemma_solids_len(column(b, 4));
    lemma_solids_len(column(b, 5));
}

proof fn lemma_gravity_keeps_count(b: Seq<Pieces>)
    ensures
        tile_count(gravity(b)) == tile_count(b),
{
    lemma_column_of_gravity(b, 0);
    lemma_column_of_gravity(b, 1);
    lemma_column_of_gravity(b, 2);
    lemma_column_of_gravity(b, 3);
    lemma_column_of_gravity(b, 4);
    lemma_column_of_gravity(b, 5);
    lemma_settle_count(column(b, 0));
    lemma_settle_count(column(b, 1));
    lemma_settle_count(column(b, 2));
    lemma_settle_count(column(b, 3));
    lemma_settle_count(column(b, 4));
    lemma_settle_count(column(b, 5));
}

proof fn lemma_removed_column(b: Seq<Pieces>, m: Seq<bool>, x: int)
    requires
        0 <= x < 6,
        b.len() == 72,
        m.len() == 72,
        forall|i: int| 0 <= i < 72 && m[i] ==> solid(b[i]),
    ensures
        solids(column(removed(b, m), x)).len() <= solids(column(b, x)).len(),
        (exists|i: int| 0 <= i < 72 && i % 6 == x && m[i]) ==> solids(column(removed(b, m), x)).len()
            < solids(column(b, x)).len(),
{
    let s = column(b, x);
    let t = column(removed(b, m), x);
    assert forall|k: int| 0 <= k < 12 implies t[k] == s[k] || t[k] == CLEARED by {
        assert(0 <= 6 * k + x < 72);
    }
    if exists|i: int| 0 <= i < 72 && i % 6 == x && m[i] {
        let i = choose|i: int| 0 <= i < 72 && i % 6 == x && m[i];
        let k = i / 6;
        assert(i == 6 * k + x);
        assert(solid(s[k]) && t[k] == CLEARED);
    }
    lemma_solids_shrink(s, t);
}

/// Removing at least one solid tile lowers the tile count.
proof fn lemma_removed_count(b: Seq<Pieces>, m: Seq<bool>)
    requires
        b.len() == 72,
        m.len() == 72,
        forall|i: int| 0 <= i < 72 && m[i] ==> solid(b[i]),
        exists|i: int| 0 <= i < 72 && m[i],
    ensures
        tile_count(removed(b, m)) < tile_count(b),
{
    let i = choose|i: int| 0 <= i < 72 && m[i];
    assert(i % 6 == i % 6);
    lemma_removed_column(b, m, 0);
    lemma_removed_column(b, m, 1);
    lemma_removed_column(b, m, 2);
    lemma_removed_column(b, m, 3);
    lemma_removed_column(b, m, 4);
    lemma_removed_column(b, m, 5);
}

pub proof fn lemma_step_decreases(b: Seq<Pieces>, w: u8)
    requires
        b.len() == 72,
        anything_marked(b, w),
    ensures
        tile_count(cascade_step(b, w)) < tile_count(b),
{
    let m = clear_marks(b, w);
    let i = choose|i: int| 0 <= i < 72 && marked(b, w, i);
    assert(m[i]);
    lemma_removed_count(b, m);
    lemma_gravity_keeps_count(removed(b, m));
}

#[via_fn]
proof fn cascade_decreases(b: Seq<Pieces>, w: u8) {
    if b.len() == 72 && anything_marked(b, w) {
        lemma_step_decreases(b, w);
    }
}

/// The largest score one pass of cascade resolution can give: 72 tiles and 72 crabs at
/// the highest water level.
pub open spec fn step_bound() -> int {
    36792
}

proof fn lemma_count_true_bound(s: Seq<bool>)
    ensures
        count_true(s) <= s.len(),
    decreases s.len(),
{
    if s.len() > 0 {
        lemma_count_true_bound(s.drop_last());
    }
}

proof fn lemma_count_crabs_bound(b: Seq<Pieces>, w: u8, n: int)
    requires
        n >= 0,
    ensures
        count_crabs(b, w, n) <= n,
    decreases n,
{
    if n > 0 {
        lemma_count_crabs_bound(b, w, n - 1);
    }
}

pub proof fn lemma_step_score_bound(b: Seq<Pieces>, w: u8)
    ensures
        0 <= step_score(b, w) <= step_bound(),
{
    lemma_count_true_bound(clear_marks(b, w));
    lemma_count_crabs_bound(b, w, 72);
    let c = count_crabs(b, w, 72);
    assert(0 <= 2 * w * c <= 2 * 255 * 72) by (nonlinear_arith)
        requires
            0 <= c <= 72,
            0 <= w <= 255,
    ;
}

pub proof fn lemma_cell(i: int)
    requires
        0 <= i < 72,
    ensures
        i == 6 * (i / 6) + i % 6,
        0 <= i % 6 < 6,
        0 <= i / 6 < 12,
{
}

pub proof fn lemma_cell_of(y: int, x: int)
    requires
        0 <= y < 12,
        0 <= x < 6,
    ensures
        (6 * y + x) % 6 == x,
        (6 * y + x) / 6 == y,
        0 <= 6 * y + x < 72,
{
    assert((6 * y + x) % 6 == x && (6 * y + x) / 6 == y) by (nonlinear_arith)
        requires
            0 <= x < 6,
            0 <= y,
    ;
}

/// Cells of one pass of marking that are settled once the first `n` cells have been looked at.
spec fn marked_upto(b: Seq<Pieces>, w: u8, i: int, n: int) -> bool {
    ||| crab_washed(b, w, i) && i < n
    ||| hrun_at(b, i) && i < n
    ||| hrun_at(b, i - 1) && i - 1 < n
    ||| hrun_at(b, i - 2) && i - 2 < n
    ||| vrun_at(b, i) && i < n
    ||| vrun_at(b, i - 6) && i - 6 < n
    ||| vrun_at(b, i - 12) && i - 12 < n
}

/// The number of cells in a clear set.
pub fn clear_count(to_clear: &ClearSet) -> (r: usize)
    ensures
        r == count_true(to_clear@),
        r <= 72,
{
    let mut n: usize = 0;
    let mut i: usize = 0;
    while i < 72
        invariant
            i <= 72,
            n <= i,
            n == count_true(to_clear@.take(i as int)),
        decreases 72 - i,
    {
        assert(to_clear@.take(i as int + 1).drop_last() =~= to_clear@.take(i as int));
        if to_clear[i] {
            n = n + 1;
        }
        i = i + 1;
    }
    assert(to_clear@.take(72) =~= to_clear@);
    n
}

impl GameState {
    /// Adds to `to_clear` every cell that one pass of cascade resolution removes: each cell
    /// of three equal colour tiles in a row or a column, and each crab above the water level.
    /// Returns whether this pass marked anything, and the water bonus of the marked crabs.
    fn mark_clears(&self, to_clear: &mut ClearSet) -> (r: (bool, i64))
        ensures
            forall|i: int|
                0 <= i < 72 ==> final(to_clear)@[i] == (old(to_clear)@[i] || marked(self.board@, self.water_level, i)),
            (forall|i: int| 0 <= i < 72 ==> !old(to_clear)@[i]) ==> final(to_clear)@ == clear_marks(self.board@,
                self.water_level),
            r.0 == anything_marked(self.board@, self.water_level),
            r.1 == 2 * self.water_level * count_crabs(self.board@, self.water_level, 72),
    {
        let ghost b = self.board@;
        let ghost w = self.water_level;
        let mut marks: ClearSet = [false; 72];
        let mut returning = false;
        let mut bonus: i64 = 0;
        let mut pos: usize = 0;
        assert(count_crabs(b, w, 0) == 0);
        while pos < 72
            invariant
                pos <= 72,
                b == self.board@,
                w == self.water_level,
                forall|i: int| 0 <= i < 72 ==> marks@[i] == marked_upto(b, w, i, pos as int),
                returning == exists|i: int| 0 <= i < 72 && marks@[i],
                bonus == 2 * w * count_crabs(b, w, pos as int),
                0 <= bonus <= 510 * pos,
            decreases 72 - pos,
        {
            let piece = self.board[pos];
            let y = pos / 6;
            if y > self.water_level as usize && piece == CRAB {
                marks[pos] = true;
                returning = true;
                bonus = bonus + (self.water_level as i64) * 2;
                proof {
                    assert(marks@[pos as int]);
                    let c = count_crabs(b, w, pos as int);
                    assert(count_crabs(b, w, pos as int + 1) == c + 1);
                    assert(2 * w * (c + 1) == 2 * w * c + 2 * w) by (nonlinear_arith);
                }
                pos = pos + 1;
                continue;
            }
            if !can_move(piece) {
                pos = pos + 1;
                continue;
            }
            let x = pos % 6;
            if x < 4 && piece == self.board[pos + 1] && piece == self.board[pos + 2] {
                marks[pos] = true;
                marks[pos + 1] = true;
                marks[pos + 2] = true;
                returning = true;
                proof {
                    assert(marks@[pos as int]);
                }
            }
            if pos < 60 && piece == self.board[pos + 6] && piece == self.board[pos + 12] {
                marks[pos] = true;
                marks[pos + 6] = true;
                marks[pos + 12] = true;
                returning = true;
                proof {
                    assert(marks@[pos as int]);
                }
            }
            pos = pos + 1;
        }
        assert(marks@ =~= clear_marks(b, w));
        let ghost start = to_clear@;
        let mut i: usize = 0;
        while i < 72
            invariant
                i <= 72,
                start == old(to_clear)@,
                marks@ == clear_marks(b, w),
                forall|j: int| 0 <= j < i ==> #[trigger] to_clear@[j] == (start[j] || marks@[j]),
                forall|j: int| i <= j < 72 ==> #[trigger] to_clear@[j] == start[j],
            decreases 72 - i,
        {
            let merged = to_clear[i] || marks[i];
            to_clear[i] = merged;
            i = i + 1;
        }
        proof {
            if forall|j: int| 0 <= j < 72 ==> !start[j] {
                assert forall|j: int| 0 <= j < 72 implies to_clear@[j] == clear_marks(b, w)[j] by {
                    assert(!start[j]);
                }
                assert(to_clear@ =~= clear_marks(b, w));
            }
        }
        if returning {
            let ghost i = choose|i: int| 0 <= i < 72 && marks@[i];
            assert(marked(b, w, i));
        } else {
            assert forall|i: int| 0 <= i < 72 implies !marked(b, w, i) by {
                assert(!marks@[i]);
            }
        }
        (returning, bonus)
    }

    /// Clears every cell of `to_clear`.
    pub fn remove_clears(&mut self, to_clear: &ClearSet)
        ensures
            final(self).board@ == removed(old(self).board@, to_clear@),
            final(self).water_level == old(self).water_level,
    {
        let ghost b0 = self.board@;
        let mut i: usize = 0;
        while i < 72
            invariant
                i <= 72,
                self.water_level == old(self).water_level,
                b0 == old(self).board@,
                forall|j: int| 0 <= j < i ==> self.board@[j] == removed(b0, to_clear@)[j],
                forall|j: int| i <= j < 72 ==> self.board@[j] == b0[j],
            decreases 72 - i,
        {
            if to_clear[i] {
                self.board[i] = CLEARED;
            }
            i = i + 1;
        }
        assert(self.board@ =~= removed(b0, to_clear@));
    }

    /// Gravity on column `x`: its solid tiles fall to the bottom in order, cleared cells above.
    fn settle_column(&mut self, x: usize)
        requires
            x < 6,
        ensures
            column(final(self).board@, x as int) == settle(column(old(self).board@, x as int)),
            forall|i: int| 0 <= i < 72 && i % 6 != x ==> final(self).board@[i] == old(self).board@[i],
            final(self).water_level == old(self).water_level,
    {
        let ghost b0 = self.board@;
        let ghost col0 = column(b0, x as int);
        let mut dst: usize = 0;
        let mut src: usize = 0;
        while src < 12
            invariant
                x < 6,
                src <= 12,
                dst <= src,
                b0 == old(self).board@,
                col0 == column(b0, x as int),
                self.water_level == old(self).water_level,
                dst == solids(col0.take(src as int)).len(),
                forall|y: int| 0 <= y < dst ==> self.board@[6 * y + x] == solids(col0.take(src as int))[y],
                forall|y: int| src <= y < 12 ==> self.board@[6 * y + x] == col0[y],
                forall|i: int| 0 <= i < 72 && i % 6 != x ==> self.board@[i] == b0[i],
            decreases 12 - src,
        {
            proof {
                lemma_cell_of(src as int, x as int);
                lemma_cell_of(dst as int, x as int);
            }
            let c = self.board[src * 6 + x];
            assert(col0.take(src as int + 1).drop_last() =~= col0.take(src as int));
            assert(c == col0[src as int]);
            if c != CLEARED && c <= 128 {
                self.board[dst * 6 + x] = c;
                dst = dst + 1;
            }
            src = src + 1;
        }
        assert(col0.take(12) =~= col0);
        proof {
            lemma_solids_len(col0);
        }
        let ghost filled = dst;
        let mut y: usize = dst;
        while y < 12
            invariant
                x < 6,
                filled <= y <= 12,
                filled == solids(col0).len(),
                self.water_level == old(self).water_level,
                forall|k: int| 0 <= k < filled ==> self.board@[6 * k + x] == solids(col0)[k],
                forall|k: int| filled <= k < y ==> #[trigger] self.board@[6 * k + x] == CLEARED,
                forall|i: int| 0 <= i < 72 && i % 6 != x ==> self.board@[i] == b0[i],
            decreases 12 - y,
        {
            proof {
                lemma_cell_of(y as int, x as int);
            }
            self.board[y * 6 + x] = CLEARED;
            y = y + 1;
        }
        assert(column(self.board@, x as int) =~= settle(col0));
    }

    /// Gravity on the whole board.
    pub fn shift_everything(&mut self)
        ensures
            final(self).board@ == gravity(old(self).board@),
            final(self).water_level == old(self).water_level,
    {
        let ghost b0 = self.board@;
        let mut x: usize = 0;
        while x < 6
            invariant
                x <= 6,
                b0 == old(self).board@,
                self.water_level == old(self).water_level,
                forall|i: int| 0 <= i < 72 && i % 6 < x ==> self.board@[i] == gravity(b0)[i],
                forall|i: int| 0 <= i < 72 && i % 6 >= x ==> self.board@[i] == b0[i],
            decreases 6 - x,
        {
            assert(column(self.board@, x as int) =~= column(b0, x as int)) by {
                assert forall|y: int| 0 <= y < 12 implies #[trigger] self.board@[6 * y + x] == b0[6 * y + x] by {
                    lemma_cell_of(y, x as int);
                }
            }
            self.settle_column(x);
            assert forall|i: int| 0 <= i < 72 && i % 6 == x implies self.board@[i] == gravity(b0)[i] by {
                lemma_cell(i);
                assert(self.board@[i] == column(self.board@, x as int)[i / 6]);
            }
            x = x + 1;
        }
        assert(self.board@ =~= gravity(b0));
    }

    /// Cascade resolution by full rescans: removes every match and every crab above the
    /// water level, lets the tiles fall, and repeats until nothing is removed. Returns the
    /// number of tiles removed plus twice the water level for each crab washed away.
    pub fn clean_board(&mut self) -> (r: i64)
        ensures
            r == cascade(old(self).board@, old(self).water_level).0,
            final(self).board@ == cascade(old(self).board@, old(self).water_level).1,
            final(self).water_level == old(self).water_level,
            0 <= r <= 72 * step_bound(),
            !anything_marked(old(self).board@, old(self).water_level) ==> r == 0 && final(self).board@
                == old(self).board@,
    {
        let ghost b0 = self.board@;
        let ghost w = self.water_level;
        proof {
            lemma_tile_count_bound(b0);
        }
        let mut extra: i64 = 0;
        let mut to_clear: ClearSet = [false; 72];
        let mut res = self.mark_clears(&mut to_clear);
        while res.0
            invariant
                w == self.water_level,
                w == old(self).water_level,
                self.board@.len() == 72,
                to_clear@ == clear_marks(self.board@, w),
                res.0 == anything_marked(self.board@, w),
                res.1 == 2 * w * count_crabs(self.board@, w, 72),
                cascade(b0, w).0 == extra + cascade(self.board@, w).0,
                cascade(b0, w).1 == cascade(self.board@, w).1,
                0 <= extra,
                extra + step_bound() * tile_count(self.board@) <= 72 * step_bound(),
            decreases tile_count(self.board@),
        {
            proof {
                lemma_step_score_bound(self.board@, w);
                lemma_step_decreases(self.board@, w);
            }
            let n = clear_count(&to_clear);
            extra = extra + n as i64 + res.1;
            self.remove_clears(&to_clear);
            self.shift_everything();
            to_clear = [false; 72];
            res = self.mark_clears(&mut to_clear);
        }
        extra
    }
}

/// The run to the left of a swap: 3 when the two cells left of `pos` match the piece now at `pos`.
pub open spec fn left_run(b: Seq<Pieces>, pos: int) -> int {
    if pos % 6 >= 2 && b[pos - 1] == b[pos] && b[pos - 2] == b[pos] {
        3
    } else {
        0
    }
}

/// The run to the right of a swap: 3 when the two cells right of `pos + 1` match the piece
/// now at `pos + 1`.
pub open spec fn right_run(b: Seq<Pieces>, pos: int) -> int {
    if pos % 6 < 3 && b[pos + 2] == b[pos + 1] && b[pos + 3] == b[pos + 1] {
        3
    } else {
        0
    }
}

/// The length of the run of equal pieces in the column through `c`, looking at most two
/// cells down and two cells up.
pub open spec fn col_run(b: Seq<Pieces>, c: int) -> int {
    1 + (if c > 5 && b[c - 6] == b[c] {
        1 + if c > 11 && b[c - 12] == b[c] {
            1int
        } else {
            0
        }
    } else {
        0
    }) + (if c < 66 && b[c + 6] == b[c] {
        1 + if c < 60 && b[c + 12] == b[c] {
            1int
        } else {
            0
        }
    } else {
        0
    })
}

/// A column run that counts: three or more, else nothing.
pub open spec fn counted(n: int) -> int {
    if n >= 3 {
        n
    } else {
        0
    }
}

/// The points for one run: 3 for three, 5 for four, 7 for five.
pub open spec fn row_score(n: int) -> int {
    if n == 3 {
        3
    } else if n == 4 {
        5
    } else if n == 5 {
        7
    } else {
        0
    }
}

/// The multiplier for the number of runs that count.
pub open spec fn promote(n: int) -> int {
    if n == 2 {
        2
    } else if n == 3 {
        100
    } else if n == 4 {
        10000
    } else {
        n
    }
}

/// The number of the four runs of a swap that count.
pub open spec fn mult_count(b: Seq<Pieces>, pos: int) -> int {
    (if left_run(b, pos) == 3 { 1int } else { 0 }) + (if right_run(b, pos) == 3 { 1int } else { 0 })
        + (if counted(col_run(b, pos)) >= 3 { 1int } else { 0 }) + (if counted(col_run(b, pos + 1))
        >= 3 { 1int } else { 0 })
}

/// The combo score of the swap at `pos` on the board after the swap.
pub open spec fn combo(b: Seq<Pieces>, pos: int) -> int {
    let l = left_run(b, pos);
    let r = right_run(b, pos);
    let lc = counted(col_run(b, pos));
    let rc = counted(col_run(b, pos + 1));
    let m = mult_count(b, pos);
    if m == 0 {
        0
    } else if m == 4 && rc == 5 && lc == 5 {
        9999999
    } else if m == 4 && (rc == 5 || lc == 5) {
        999999
    } else {
        (row_score(l) + row_score(r) + row_score(lc) + row_score(rc)) * promote(m)
    }
}

/// The cells of the 3x3 block centred on `pos`.
pub open spec fn moore_marks(pos: int) -> Seq<bool> {
    Seq::new(72, |j: int| in_moore(pos, j))
}

/// The cells that hold piece `t`.
pub open spec fn piece_marks(b: Seq<Pieces>, t: Pieces) -> Seq<bool> {
    Seq::new(72, |j: int| b[j] == t)
}

/// Removing a set of cells by a special tile: the number removed, then the cascade on the
/// board after gravity.
pub open spec fn blast(b: Seq<Pieces>, w: u8, m: Seq<bool>) -> (int, Seq<Pieces>) {
    let rest = cascade(gravity(removed(b, m)), w);
    (count_true(m) + rest.0, rest.1)
}

/// The board with the cells at `pos` and `pos + 1` exchanged.
pub open spec fn exchanged(b: Seq<Pieces>, pos: int) -> Seq<Pieces> {
    b.update(pos, b[pos + 1]).update(pos + 1, b[pos])
}

/// The score of swapping the cells at `pos` and `pos + 1`, and the board afterwards.
pub open spec fn swap_result(b: Seq<Pieces>, w: u8, pos: int) -> (int, Seq<Pieces>) {
    let one = b[pos];
    let two = b[pos + 1];
    if one == CLEARED || two == CLEARED {
        (-20001, b)
    } else if one == two {
        (-30001, b)
    } else if one == CRAB || two == CRAB {
        (-9001, b)
    } else if one == PUFFERFISH || two == PUFFERFISH {
        blast(b, w, moore_marks(if one == PUFFERFISH { pos } else { pos + 1 }))
    } else if one == JELLYFISH || two == JELLYFISH {
        blast(b, w, piece_marks(b, if one == JELLYFISH { two } else { one }))
    } else {
        let s = exchanged(b, pos);
        let c = combo(s, pos);
        if c > 0 {
            let rest = cascade(s, w);
            (c + rest.0, rest.1)
        } else {
            (c, s)
        }
    }
}

/// The largest score of any swap: the full-column bonus, then 72 tiles and 72 cascade passes.
pub open spec fn swap_bound() -> int {
    9999999 + 72 + 72 * step_bound()
}

/// Whether `pos` names a swap inside one row: `0 <= pos <= 70` and not the last column.
pub open spec fn valid_swap(pos: int) -> bool {
    0 <= pos < 71 && pos % 6 != 5
}

impl GameState {
    /// The combo score of the swap at `pos`, read on the board after the swap.
    pub fn get_combo(&self, pos: usize) -> (r: i64)
        requires
            valid_swap(pos as int),
        ensures
            r == combo(self.board@, pos as int),
            0 <= r <= 9999999,
    {
        let ghost b = self.board@;
        let x = pos % 6;
        let left_piece = self.board[pos];
        let right_piece = self.board[pos + 1];
        let mut mult_ct: i64 = 0;
        let mut left: i64 = 0;
        let mut l_col: i64 = 1;
        let mut right: i64 = 0;
        let mut r_col: i64 = 1;
        if x >= 2 && self.board[pos - 1] == left_piece && self.board[pos - 2] == left_piece {
            left = 3;
            mult_ct = 1;
        }
        if x < 3 && self.board[pos + 2] == right_piece && self.board[pos + 3] == right_piece {
            right = 3;
            mult_ct = mult_ct + 1;
        }
        if pos > 5 && self.board[pos - 6] == left_piece {
            l_col = l_col + 1;
            if pos > 11 && self.board[pos - 12] == left_piece {
                l_col = l_col + 1;
            }
        }
        if pos < 66 && self.board[pos + 6] == left_piece {
            l_col = l_col + 1;
            if pos < 60 && self.board[pos + 12] == left_piece {
                l_col = l_col + 1;
            }
        }
        if pos > 4 && self.board[pos - 5] == right_piece {
            r_col = r_col + 1;
            if pos > 10 && self.board[pos - 11] == right_piece {
                r_col = r_col + 1;
            }
        }
        if pos < 65 && self.board[pos + 7] == right_piece {
            r_col = r_col + 1;
            if pos < 59 && self.board[pos + 13] == right_piece {
                r_col = r_col + 1;
            }
        }
        assert(left == left_run(b, pos as int));
        assert(right == right_run(b, pos as int));
        assert(l_col == col_run(b, pos as int));
        assert(r_col == col_run(b, pos as int + 1));
        if r_col < 3 {
            r_col = 0;
        }
        if l_col < 3 {
            l_col = 0;
        }
        if l_col >= 3 {
            mult_ct = mult_ct + 1;
        }
        if r_col >= 3 {
            mult_ct = mult_ct + 1;
        }
        if mult_ct == 0 {
            return 0;
        }
        if mult_ct == 4 && (r_col == 5 && l_col == 5) {
            return 9999999;
        }
        if mult_ct == 4 && (r_col == 5 || l_col == 5) {
            return 999999;
        }
        (row_score_of(left) + row_score_of(right) + row_score_of(l_col) + row_score_of(r_col))
            * promote_of(mult_ct)
    }

    /// Adds to `to_clear` the 3x3 block centred on `pos`, clipped at the edges of the board.
    fn puff(&self, to_clear: &mut ClearSet, pos: usize)
        requires
            pos < 72,
        ensures
            forall|i: int| 0 <= i < 72 ==> #[trigger] final(to_clear)@[i] == (old(to_clear)@[i] || in_moore(pos as int, i)),
            (forall|i: int| 0 <= i < 72 ==> !old(to_clear)@[i]) ==> final(to_clear)@ == moore_marks(pos as int),
    {
        let ghost start = to_clear@;
        let px = pos % 6;
        let py = pos / 6;
        let mut j: usize = 0;
        while j < 72
            invariant
                j <= 72,
                pos < 72,
                px == pos % 6,
                py == pos / 6,
                start == old(to_clear)@,
                forall|i: int| 0 <= i < j ==> #[trigger] to_clear@[i] == (start[i] || in_moore(pos as int, i)),
                forall|i: int| j <= i < 72 ==> #[trigger] to_clear@[i] == start[i],
            decreases 72 - j,
        {
            let jx = j % 6;
            let jy = j / 6;
            if jx + 1 >= px && jx <= px + 1 && jy + 1 >= py && jy <= py + 1 {
                to_clear[j] = true;
            }
            j = j + 1;
        }
        proof {
            if forall|i: int| 0 <= i < 72 ==> !start[i] {
                assert forall|i: int| 0 <= i < 72 implies #[trigger] to_clear@[i] == moore_marks(pos as int)[i] by {
                    assert(!start[i]);
                }
                assert(to_clear@ =~= moore_marks(pos as int));
            }
        }
    }

    /// Adds to `to_clear` every cell that holds piece `clearing`.
    pub fn jelly(&self, to_clear: &mut ClearSet, clearing: Pieces)
        ensures
            forall|i: int| 0 <= i < 72 ==> #[trigger] final(to_clear)@[i] == (old(to_clear)@[i] || self.board@[i] == clearing),
            (forall|i: int| 0 <= i < 72 ==> !old(to_clear)@[i]) ==> final(to_clear)@ == piece_marks(self.board@, clearing),
    {
        let ghost start = to_clear@;
        let mut j: usize = 0;
        while j < 72
            invariant
                j <= 72,
                start == old(to_clear)@,
                forall|i: int| 0 <= i < j ==> #[trigger] to_clear@[i] == (start[i] || self.board@[i] == clearing),
                forall|i: int| j <= i < 72 ==> #[trigger] to_clear@[i] == start[i],
            decreases 72 - j,
        {
            if self.board[j] == clearing {
                to_clear[j] = true;
            }
            j = j + 1;
        }
        proof {
            if forall|i: int| 0 <= i < 72 ==> !start[i] {
                assert forall|i: int| 0 <= i < 72 implies #[trigger] to_clear@[i] == piece_marks(self.board@, clearing)[i] by {
                    assert(!start[i]);
                }
                assert(to_clear@ =~= piece_marks(self.board@, clearing));
            }
        }
    }

    /// Removes the marked cells, lets the tiles fall, and resolves the cascade. Returns the
    /// number of marked cells plus the cascade's score.
    fn blast_marked(&mut self, to_clear: &ClearSet) -> (r: i64)
        ensures
            r == blast(old(self).board@, old(self).water_level, to_clear@).0,
            final(self).board@ == blast(old(self).board@, old(self).water_level, to_clear@).1,
            final(self).water_level == old(self).water_level,
            0 <= r <= 72 + 72 * step_bound(),
    {
        let n = clear_count(to_clear);
        self.remove_clears(to_clear);
        self.shift_everything();
        let extra = self.clean_board();
        n as i64 + extra
    }

    /// Swaps the cells at `pos` and `pos + 1` and resolves what follows. Returns the score:
    /// `-20001` when either cell is cleared, `-30001` when both hold the same piece, `-9001`
    /// when either is a crab (the board then stays as it was); for a pufferfish, the number
    /// of cells of its 3x3 block; for a jellyfish, the number of cells that hold the other
    /// piece (both then plus the cascade that follows); otherwise the combo score of the
    /// exchanged pieces, plus the cascade when that is positive.
    pub fn swap(&mut self, pos: usize) -> (r: i64)
        requires
            valid_swap(pos as int),
        ensures
            r == swap_result(old(self).board@, old(self).water_level, pos as int).0,
            final(self).board@ == swap_result(old(self).board@, old(self).water_level, pos as int).1,
            final(self).water_level == old(self).water_level,
            -30001 <= r <= swap_bound(),
            old(self).board@[pos as int] != CLEARED && old(self).board@[pos as int] == old(self).board@[pos
                + 1] ==> r == -30001 && final(self).board@ == old(self).board@,
            old(self).board@[pos as int] != CLEARED && old(self).board@[pos + 1] != CLEARED && old(self).board@[pos
                as int] != old(self).board@[pos + 1] && (old(self).board@[pos as int] == CRAB || old(self).board@[pos
                + 1] == CRAB) ==> r == -9001 && final(self).board@ == old(self).board@,
    {
        let one = self.board[pos];
        let two = self.board[pos + 1];
        if one == CLEARED || two == CLEARED {
            return -20001;
        } else if one == two {
            return -30001;
        } else if one == CRAB || two == CRAB {
            return -9001;
        } else if one == PUFFERFISH || two == PUFFERFISH {
            let mut to_clear: ClearSet = [false; 72];
            if one == PUFFERFISH {
                self.puff(&mut to_clear, pos);
            } else {
                self.puff(&mut to_clear, pos + 1);
            }
            self.blast_marked(&to_clear)
        } else if one == JELLYFISH || two == JELLYFISH {
            let mut to_clear: ClearSet = [false; 72];
            if one == JELLYFISH {
                self.jelly(&mut to_clear, two);
            } else {
                self.jelly(&mut to_clear, one);
            }
            self.blast_marked(&to_clear)
        } else {
            let ghost b = self.board@;
            self.board[pos] = two;
            self.board[pos + 1] = one;
            assert(self.board@ =~= exchanged(b, pos as int));
            let score = self.get_combo(pos);
            if score > 0 {
                let extra = self.clean_board();
                score + extra
            } else {
                score
            }
        }
    }
}

/// The points for one run: 3 for three, 5 for four, 7 for five.
fn row_score_of(n: i64) -> (r: i64)
    ensures
        r == row_score(n as int),
{
    match n {
        3 => 3,
        4 => 5,
        5 => 7,
        _ => 0,
    }
}

/// The multiplier for the number of runs that count.
fn promote_of(n: i64) -> (r: i64)
    ensures
        r == promote(n as int),
{
    match n {
        2 => 2,
        3 => 100,
        4 => 10000,
        _ => n,
    }
}

/// Whether a piece may take part in a swap: not cleared, not outside the board, not a crab.
pub open spec fn open_piece(p: Pieces) -> bool {
    p != CLEARED && p != NULL && p != CRAB
}

/// Whether the swap at `pos` is structurally legal: inside one row, both cells open, and
/// the two pieces different.
pub open spec fn legal_move(b: Seq<Pieces>, pos: int) -> bool {
    &&& 0 <= pos < 71
    &&& pos % 6 != 5
    &&& open_piece(b[pos])
    &&& open_piece(b[pos + 1])
    &&& b[pos] != b[pos + 1]
}

/// The legal swaps among the first `n` positions, in increasing order.
pub open spec fn legal_moves_upto(b: Seq<Pieces>, n: int) -> Seq<usize>
    decreases n,
{
    if n <= 0 {
        Seq::empty()
    } else {
        legal_moves_upto(b, n - 1) + if legal_move(b, n - 1) {
            seq![(n - 1) as usize]
        } else {
            Seq::empty()
        }
    }
}

/// Every legal swap of the board, in increasing order.
pub open spec fn legal_moves(b: Seq<Pieces>) -> Seq<usize> {
    legal_moves_upto(b, 72)
}

impl GameState {
    /// Every structurally legal swap of the board, in increasing order of position.
    pub fn get_moves(&self) -> (r: MoveList)
        ensures
            move_list_items(r) == legal_moves(self.board@),
    {
        let mut moves = empty_move_list();
        let mut pos: usize = 0;
        while pos < 72
            invariant
                pos <= 72,
                move_list_items(moves) == legal_moves_upto(self.board@, pos as int),
                move_list_items(moves).len() <= 5 * (pos / 6) + pos % 6,
            decreases 72 - pos,
        {
            if pos % 6 != 5 {
                let left = self.board[pos];
                let right = self.board[pos + 1];
                if left != CLEARED && left != NULL && left != CRAB && right != CLEARED && right != NULL
                    && right != CRAB && right != left {
                    push_move(&mut moves, pos);
                }
            }
            pos = pos + 1;
        }
        moves
    }
}

/// Every listed swap is legal and below `n`, and the list is strictly increasing.
pub proof fn lemma_legal_moves_upto(b: Seq<Pieces>, n: int)
    ensures
        forall|i: int|
            0 <= i < legal_moves_upto(b, n).len() ==> legal_move(b, #[trigger] legal_moves_upto(b, n)[i] as int)
                && legal_moves_upto(b, n)[i] < n,
        forall|i: int, j: int|
            0 <= i < j < legal_moves_upto(b, n).len() ==> legal_moves_upto(b, n)[i] < legal_moves_upto(b, n)[j],
    decreases n,
{
    if n > 0 {
        lemma_legal_moves_upto(b, n - 1);
        let p = legal_moves_upto(b, n - 1);
        if legal_move(b, n - 1) {
            assert(legal_moves_upto(b, n) =~= p.push((n - 1) as usize));
        } else {
            assert(legal_moves_upto(b, n) =~= p);
        }
    }
}

/// Whether every column is settled: its non-cleared cells form one run from row 0 up, with
/// only cleared cells above.
pub open spec fn settled(b: Seq<Pieces>) -> bool {
    forall|y: int, x: int|
        0 <= y < 11 && 0 <= x < 6 && #[trigger] b[6 * (y + 1) + x] != CLEARED ==> b[6 * y + x] != CLEARED
}

proof fn lemma_solids_not_cleared(s: Seq<Pieces>)
    ensures
        forall|i: int| 0 <= i < solids(s).len() ==> solids(s)[i] != CLEARED,
    decreases s.len(),
{
    if s.len() > 0 {
        lemma_solids_not_cleared(s.drop_last());
        let p = solids(s.drop_last());
        if solid(s.last()) {
            assert(solids(s) =~= p.push(s.last()));
        } else {
            assert(solids(s) =~= p);
        }
    }
}

/// After gravity every column is settled.
pub proof fn lemma_gravity_settles(b: Seq<Pieces>)
    ensures
        settled(gravity(b)),
{
    assert forall|y: int, x: int|
        0 <= y < 11 && 0 <= x < 6 && #[trigger] gravity(b)[6 * (y + 1) + x] != CLEARED implies gravity(b)[6 * y
        + x] != CLEARED by {
        let c = column(b, x);
        lemma_settle_count(c);
        lemma_solids_not_cleared(c);
        lemma_cell_of(y, x);
        lemma_cell_of(y + 1, x);
        assert(gravity(b)[6 * (y + 1) + x] == settle(c)[y + 1]);
        assert(gravity(b)[6 * y + x] == settle(c)[y]);
        if y + 1 >= solids(c).len() {
            assert(settle(c)[y + 1] == CLEARED);
        }
    }
}

/// Cascade resolution leaves every column settled when it removes anything, and keeps a
/// settled board settled.
pub proof fn lemma_cascade_settles(b: Seq<Pieces>, w: u8)
    requires
        b.len() == 72,
        settled(b) || anything_marked(b, w),
    ensures
        settled(cascade(b, w).1),
    decreases tile_count(b),
{
    if anything_marked(b, w) {
        lemma_step_decreases(b, w);
        lemma_gravity_settles(removed(b, clear_marks(b, w)));
        lemma_cascade_settles(cascade_step(b, w), w);
    }
}

/// A swap on a settled board leaves it settled: after any resolution, in every column the
/// non-cleared cells form one run from row 0 up.
pub proof fn lemma_swap_keeps_settled(b: Seq<Pieces>, w: u8, pos: int)
    requires
        b.len() == 72,
        valid_swap(pos),
        settled(b),
    ensures
        settled(swap_result(b, w, pos).1),
{
    let one = b[pos];
    let two = b[pos + 1];
    if one == CLEARED || two == CLEARED || one == two || one == CRAB || two == CRAB {
    } else if one == PUFFERFISH || two == PUFFERFISH || one == JELLYFISH || two == JELLYFISH {
        let m = if one == PUFFERFISH || two == PUFFERFISH {
            moore_marks(if one == PUFFERFISH { pos } else { pos + 1 })
        } else {
            piece_marks(b, if one == JELLYFISH { two } else { one })
        };
        lemma_gravity_settles(removed(b, m));
        lemma_cascade_settles(gravity(removed(b, m)), w);
    } else {
        let s = exchanged(b, pos);
        assert forall|y: int, x: int|
            0 <= y < 11 && 0 <= x < 6 && #[trigger] s[6 * (y + 1) + x] != CLEARED implies s[6 * y + x] != CLEARED by {
            assert(b[6 * (y + 1) + x] != CLEARED || 6 * (y + 1) + x == pos || 6 * (y + 1) + x == pos + 1);
        }
        if combo(s, pos) > 0 {
            lemma_cascade_settles(s, w);
        }
    }
}

/// Each tile that gravity keeps comes from the same or a higher cell.
proof fn lemma_solids_from_above(s: Seq<Pieces>)
    ensures
        forall|k: int|
            0 <= k < solids(s).len() ==> exists|j: int| k <= j < s.len() && s[j] == #[trigger] solids(s)[k],
    decreases s.len(),
{
    if s.len() > 0 {
        let p = s.drop_last();
        lemma_solids_from_above(p);
        lemma_solids_len(p);
        if solid(s.last()) {
            assert(solids(s) =~= solids(p).push(s.last()));
        } else {
            assert(solids(s) =~= solids(p));
        }
        assert forall|k: int| 0 <= k < solids(s).len() implies exists|j: int| k <= j < s.len() && s[j] == #[trigger] solids(s)[k] by {
            if k < solids(p).len() {
                let j = choose|j: int| k <= j < p.len() && p[j] == #[trigger] solids(p)[k];
                assert(s[j] == solids(s)[k]);
            } else {
                assert(s[s.len() - 1] == solids(s)[k]);
            }
        }
    }
}

/// The water rule: in one pass of cascade resolution a crab is removed exactly when it
/// stands in a row above the water level, whatever lies around it.
pub proof fn lemma_water_rule(b: Seq<Pieces>, w: u8, i: int)
    requires
        b.len() == 72,
        0 <= i < 72,
        b[i] == CRAB,
    ensures
        clear_marks(b, w)[i] <==> i / 6 > w,
{
}

/// After a pass of cascade resolution no crab stands above the water level: gravity only
/// moves tiles down. So every later pass removes no crab at all.
pub proof fn lemma_no_crab_above_water_after_pass(b: Seq<Pieces>, w: u8)
    requires
        b.len() == 72,
    ensures
        forall|i: int| 0 <= i < 72 ==> !crab_washed(cascade_step(b, w), w, i),
{
    let r = removed(b, clear_marks(b, w));
    assert forall|i: int| 0 <= i < 72 implies !crab_washed(cascade_step(b, w), w, i) by {
        if crab_washed(cascade_step(b, w), w, i) {
            lemma_cell(i);
            let x = i % 6;
            let y = i / 6;
            let c = column(r, x);
            lemma_settle_count(c);
            lemma_solids_from_above(c);
            assert(gravity(r)[i] == settle(c)[y]);
            if y >= solids(c).len() {
                assert(settle(c)[y] == CLEARED);
            } else {
                assert(settle(c)[y] == solids(c)[y]);
                let j = choose|j: int| y <= j < c.len() && c[j] == #[trigger] solids(c)[y];
                lemma_cell_of(j, x);
                assert(c[j] == r[6 * j + x]);
                assert(r[6 * j + x] == CRAB);
                assert(b[6 * j + x] == CRAB && !clear_marks(b, w)[6 * j + x]);
                assert((6 * j + x) / 6 == j);
            }
        }
    }
}

/// In every column, gravity keeps the solid tiles in their order from the bottom up and
/// puts cleared cells above them.
pub proof fn lemma_gravity_keeps_tiles(b: Seq<Pieces>, x: int)
    requires
        0 <= x < 6,
    ensures
        column(gravity(b), x) == solids(column(b, x)) + clears(12 - solids(column(b, x)).len()),
{
    lemma_column_of_gravity(b, x);
}

} // verus!
