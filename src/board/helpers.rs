use vstd::prelude::*;
use crate::board::defs::{Pieces, WIDTH};
use crate::board::structure::Move;

verus! {

/// Whether a piece is an ordinary colour tile, the only kind that can form a match.
pub open spec fn movable(piece: Pieces) -> bool {
    piece < 7
}

/// Whether a piece can be part of a match: the colour tiles, all below 7.
pub fn can_move(piece: Pieces) -> (r: bool)
    ensures
        r == movable(piece),
{
    piece < 7
}

/// The column of a board index.
pub open spec fn col_of(pos: int) -> int {
    pos % 6
}

/// The row of a board index.
pub open spec fn row_of(pos: int) -> int {
    pos / 6
}

/// The column of board index `x`.
pub fn x_pos_fast(x: usize) -> (r: usize)
    requires
        x < 72,
    ensures
        r == col_of(x as int),
{
    x % 6
}

/// The row of board index `x`.
pub fn y_pos_fast(x: usize) -> (r: usize)
    requires
        x < 72,
    ensures
        r == row_of(x as int),
{
    x / 6
}

/// Whether board index `j` lies in the 3x3 block centred on board index `pos`
/// (clipped at the edges of the board).
pub open spec fn in_moore(pos: int, j: int) -> bool {
    &&& 0 <= pos < 72
    &&& 0 <= j < 72
    &&& -1 <= row_of(j) - row_of(pos) <= 1
    &&& -1 <= col_of(j) - col_of(pos) <= 1
}

/// Whether bit `j` of the 72-bit set held as a (low 64 bits, high 8 bits) pair is set.
pub open spec fn pair_has(pair: (u64, u16), j: int) -> bool {
    if j < 64 {
        (pair.0 >> (j as u64)) & 1 == 1
    } else {
        (pair.1 >> ((j - 64) as u16)) & 1 == 1
    }
}

proof fn lemma_or_bit_u64(x: u64, k: u64, j: u64)
    requires
        k < 64,
        j < 64,
    ensures
        ((x | (1u64 << k)) >> j) & 1 == 1 <==> ((x >> j) & 1 == 1 || j == k),
{
    assert(((x | (1u64 << k)) >> j) & 1 == 1 <==> ((x >> j) & 1 == 1 || j == k)) by (bit_vector)
        requires
            k < 64,
            j < 64,
    ;
}

proof fn lemma_or_bit_u16(x: u16, k: u16, j: u16)
    requires
        k < 16,
        j < 16,
    ensures
        ((x | (1u16 << k)) >> j) & 1 == 1 <==> ((x >> j) & 1 == 1 || j == k),
{
    assert(((x | (1u16 << k)) >> j) & 1 == 1 <==> ((x >> j) & 1 == 1 || j == k)) by (bit_vector)
        requires
            k < 16,
            j < 16,
    ;
}

proof fn lemma_empty_bits(j: u64, i: u16)
    requires
        j < 64,
        i < 16,
    ensures
        (0u64 >> j) & 1 == 0,
        (0u16 >> i) & 1 == 0,
{
    assert((0u64 >> j) & 1 == 0) by (bit_vector);
    assert((0u16 >> i) & 1 == 0) by (bit_vector);
}

/// Adds board index `pos` to a 72-bit set.
fn add_to_pair(pair: (u64, u16), pos: usize) -> (r: (u64, u16))
    requires
        pos < 72,
    ensures
        forall|j: int| 0 <= j < 72 ==> (pair_has(r, j) <==> (pair_has(pair, j) || j == pos)),
        pair.1 < 256 ==> r.1 < 256,
{
    if pos >= 64 {
        let k = (pos - 64) as u16;
        let h = pair.1;
        assert(h < 256 && k < 8 ==> (h | (1u16 << k)) < 256) by (bit_vector);
    }
    let r = if pos >= 64 {
        (pair.0, pair.1 | (1u16 << ((pos - 64) as u16)))
    } else {
        (pair.0 | (1u64 << (pos as u64)), pair.1)
    };
    assert forall|j: int| 0 <= j < 72 implies (pair_has(r, j) <==> (pair_has(pair, j) || j == pos)) by {
        if j < 64 {
            if pos < 64 {
                lemma_or_bit_u64(pair.0, pos as u64, j as u64);
            }
        } else {
            if pos >= 64 {
                lemma_or_bit_u16(pair.1, (pos - 64) as u16, (j - 64) as u16);
            }
        }
    }
    r
}

/// For each board index, the set of indices in its 3x3 block (clipped at the edges),
/// as a pair of bit masks: bit `j` of the first for `j < 64`, bit `j - 64` of the second.
pub fn build_puffers() -> (r: [(u64, u16); 72])
    ensures
        forall|pos: int, j: int|
            0 <= pos < 72 && 0 <= j < 72 ==> (#[trigger] pair_has(r@[pos], j) <==> in_moore(pos, j)),
        forall|pos: int| 0 <= pos < 72 ==> (#[trigger] r@[pos]).1 < 256,
{
    let mut end: [(u64, u16); 72] = [(0u64, 0u16); 72];
    let mut pos: usize = 0;
    while pos < 72
        invariant
            pos <= 72,
            forall|p: int, j: int|
                0 <= p < pos && 0 <= j < 72 ==> (#[trigger] pair_has(end@[p], j) <==> in_moore(p, j)),
            forall|p: int| 0 <= p < pos ==> (#[trigger] end@[p]).1 < 256,
        decreases 72 - pos,
    {
        let x = pos % 6;
        let y = pos / 6;
        let mut pair: (u64, u16) = (0, 0);
        assert forall|j: int| 0 <= j < 72 implies !pair_has(pair, j) by {
            if j < 64 {
                lemma_empty_bits(j as u64, 0);
            } else {
                lemma_empty_bits(0, (j - 64) as u16);
            }
        }
        pair = add_to_pair(pair, pos);
        let up = y > 0;
        let down = y < 11;
        let right = x < 5;
        let left = x > 0;
        if up {
            pair = add_to_pair(pair, pos - 6);
        }
        if down {
            pair = add_to_pair(pair, pos + 6);
        }
        if left {
            pair = add_to_pair(pair, pos - 1);
        }
        if right {
            pair = add_to_pair(pair, pos + 1);
        }
        if up && right {
            pair = add_to_pair(pair, pos - 5);
        }
        if up && left {
            pair = add_to_pair(pair, pos - 7);
        }
        if down && right {
            pair = add_to_pair(pair, pos + 7);
        }
        if down && left {
            pair = add_to_pair(pair, pos + 5);
        }
        assert forall|j: int| 0 <= j < 72 implies (pair_has(pair, j) <==> in_moore(pos as int, j)) by {
            let dy = row_of(j) - row_of(pos as int);
            let dx = col_of(j) - col_of(pos as int);
            if in_moore(pos as int, j) {
                assert(j == pos as int + 6 * dy + dx);
            }
        }
        end[pos] = pair;
        pos = pos + 1;
    }
    end
}

/// The board notation of the interface that reads moves: the cell index of the
/// left cell of a swap with rows counted from the top, five swaps to a row.
pub fn move_to_dani_move(movement: usize) -> (r: usize)
    requires
        movement < 72,
    ensures
        r == (12 - movement / 6) * 5 + movement % 6,
{
    let x = x_pos_fast(movement);
    let y = 12 - y_pos_fast(movement);
    (y * 5) + x
}

/// The swap numbered `move_num` (from 1, five to a row) as a column and a row.
pub fn int_to_move(move_num: usize) -> (r: Move)
    requires
        move_num >= 1,
    ensures
        r.y == (move_num - 1) / 5,
        r.x == (move_num - 1) % 5,
{
    Move { y: (move_num - 1) / 5, x: (move_num - 1) % 5 }
}

/// A board index as a column and a row.
pub fn int_to_mover(move_num: usize) -> (r: Move)
    ensures
        r.y == move_num / 6,
        r.x == move_num % 6,
{
    Move { y: move_num / 6, x: move_num % 6 }
}

/// The board index of a cell given by column and row.
pub fn move_to_int(move_num: &Move) -> (r: usize)
    requires
        move_num.x + move_num.y * 6 <= usize::MAX,
    ensures
        r == move_num.x + move_num.y * 6,
{
    move_num.x + (move_num.y * WIDTH as usize)
}

} // verus!
