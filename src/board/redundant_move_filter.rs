use vstd::prelude::*;

verus! {

// The history of a search branch is a u64 of eight one-byte slots, slot `i` for the move
// made `i` plies below the root: the low seven bits hold the position, the top bit whether
// the move scored.

const MOVE_MASK: u64 = 0x7f;
const SCORED_MASK: u64 = 0x80;

/// The position recorded in slot `i`.
pub open spec fn slot_move(lookup: u64, i: int) -> u64 {
    (lookup >> ((8 * i) as u64)) & 0x7f
}

/// Whether the move recorded in slot `i` scored.
pub open spec fn slot_scored(lookup: u64, i: int) -> bool {
    (lookup >> ((8 * i) as u64)) & 0x80 != 0
}

/// The swap left of `pos` in its row, which shares a cell with it (255 when there is none).
pub open spec fn left_neighbour(pos: int) -> u64 {
    if pos % 6 > 0 {
        (pos - 1) as u64
    } else {
        255
    }
}

/// The swap right of `pos` in its row, which shares a cell with it (255 when there is none).
pub open spec fn right_neighbour(pos: int) -> u64 {
    if pos % 6 < 5 {
        (pos + 1) as u64
    } else {
        255
    }
}

/// Whether slot `j` leaves a recorded move at `pos` redundant: it did not score and does
/// not touch the cells of `pos`.
pub open spec fn slot_keeps(pos: int, lookup: u64, j: int) -> bool {
    &&& !slot_scored(lookup, j)
    &&& slot_move(lookup, j) != left_neighbour(pos)
    &&& slot_move(lookup, j) != right_neighbour(pos)
}

/// Whether the swap at `pos` would undo a non-scoring swap of this branch: some slot
/// records `pos` without a score, and no later slot scored or touched its cells.
pub open spec fn previously_run(pos: int, lookup: u64) -> bool {
    exists|i: int|
        0 <= i < 8 && slot_move(lookup, i) == pos && !slot_scored(lookup, i) && (forall|j: int|
            i < j < 8 ==> #[trigger] slot_keeps(pos, lookup, j))
}

/// Whether the swap at `checking` would undo an earlier non-scoring swap of this branch.
pub fn check_if_previously_run(checking: usize, lookup: u64) -> (r: bool)
    requires
        checking < 72,
    ensures
        r == previously_run(checking as int, lookup),
{
    let mut returning = false;
    let left: u64 = if checking % 6 > 0 {
        checking as u64 - 1
    } else {
        255
    };
    let right: u64 = if checking % 6 < 5 {
        checking as u64 + 1
    } else {
        255
    };
    let mut i: u64 = 0;
    while i < 8
        invariant
            i <= 8,
            checking < 72,
            left == left_neighbour(checking as int),
            right == right_neighbour(checking as int),
            returning == exists|k: int|
                0 <= k < i && slot_move(lookup, k) == checking && !slot_scored(lookup, k) && (forall|j: int|
                    k < j < i ==> #[trigger] slot_keeps(checking as int, lookup, j)),
        decreases 8 - i,
    {
        let shifted = lookup >> (i * 8);
        let scored = shifted & SCORED_MASK;
        let move_position = shifted & MOVE_MASK;
        assert(move_position == slot_move(lookup, i as int));
        assert((scored > 0) == slot_scored(lookup, i as int));
        let ghost before = returning;
        if move_position == checking as u64 {
            returning = true;
        }
        if scored > 0 {
            returning = false;
        }
        if left == move_position || right == move_position {
            returning = false;
        }
        proof {
            let p = checking as int;
            let n = i as int + 1;
            if returning {
                if slot_move(lookup, i as int) == checking {
                    assert(forall|j: int| i < j < n ==> #[trigger] slot_keeps(p, lookup, j));
                } else {
                    let k = choose|k: int|
                        0 <= k < i && slot_move(lookup, k) == checking && !slot_scored(lookup, k)
                            && (forall|j: int| k < j < i ==> #[trigger] slot_keeps(p, lookup, j));
                    assert(slot_keeps(p, lookup, i as int));
                    assert(forall|j: int| k < j < n ==> #[trigger] slot_keeps(p, lookup, j));
                }
            } else {
                assert forall|k: int|
                    0 <= k < n && slot_move(lookup, k) == checking && !slot_scored(lookup, k) implies !(
                    forall|j: int| k < j < n ==> #[trigger] slot_keeps(p, lookup, j)) by {
                    if k < i {
                        if slot_keeps(p, lookup, i as int) {
                            assert(!before);
                            assert(!(forall|j: int| k < j < i ==> #[trigger] slot_keeps(p, lookup, j)));
                        } else {
                            assert(!slot_keeps(p, lookup, i as int));
                        }
                    }
                }
            }
        }
        i = i + 1;
    }
    returning
}

/// The history with the move at `move_loc`, made `total_depth - curr_depth` plies below
/// the root, recorded in its slot; unchanged when that is eight plies or more.
pub open spec fn recorded(total_depth: u8, curr_depth: u8, curr_mask: u64, move_loc: int, scored: bool) -> u64 {
    let ply = total_depth - curr_depth;
    if ply >= 8 {
        curr_mask
    } else {
        let entry = if scored {
            (move_loc as u64) | 0x80u64
        } else {
            move_loc as u64
        };
        curr_mask | (entry << ((8 * ply) as u64))
    }
}

/// Records the move at `move_loc`, and whether it scored, in the history of a branch.
pub fn record_move(total_depth: u8, curr_depth: u8, curr_mask: u64, move_loc: usize, scored: bool) -> (r: u64)
    requires
        curr_depth <= total_depth,
        move_loc < 128,
    ensures
        r == recorded(total_depth, curr_depth, curr_mask, move_loc as int, scored),
{
    let actual_depth = total_depth - curr_depth;
    let mut move_loc = move_loc as u64;
    if actual_depth >= 8 {
        return curr_mask;
    }
    if scored {
        move_loc = move_loc | SCORED_MASK;
    }
    curr_mask | (move_loc << (actual_depth as u64 * 8))
}

/// For each position, the swaps left and right of it in its row (255 where there is none).
pub fn build_pair_array() -> (r: [[u64; 2]; 72])
    ensures
        forall|p: int|
            0 <= p < 72 ==> (#[trigger] r@[p])@[0] == left_neighbour(p) && r@[p]@[1] == right_neighbour(p),
{
    let mut end: [[u64; 2]; 72] = [[255u64; 2]; 72];
    let mut cntr: usize = 0;
    while cntr < 72
        invariant
            cntr <= 72,
            forall|p: int|
                0 <= p < cntr ==> (#[trigger] end@[p])@[0] == left_neighbour(p) && end@[p]@[1]
                    == right_neighbour(p),
        decreases 72 - cntr,
    {
        let x = cntr % 6;
        let mut pair: [u64; 2] = [255u64; 2];
        if x > 0 {
            pair[0] = cntr as u64 - 1;
        }
        if x < 5 {
            pair[1] = cntr as u64 + 1;
        }
        end[cntr] = pair;
        cntr = cntr + 1;
    }
    end
}

proof fn lemma_single_slot(e: u64, p: u64, i: u64)
    requires
        e < 256,
        p < 8,
        i < 8,
    ensures
        ((e << (8 * p)) >> (8 * i)) & 0x7f == (if i == p { e & 0x7f } else { 0 }),
        ((e << (8 * p)) >> (8 * i)) & 0x80 == (if i == p { e & 0x80 } else { 0 }),
{
    assert(((e << (8 * p)) >> (8 * i)) & 0x7f == (if i == p { e & 0x7f } else { 0 })) by (bit_vector)
        requires
            e < 256,
            p < 8,
            i < 8,
    ;
    assert(((e << (8 * p)) >> (8 * i)) & 0x80 == (if i == p { e & 0x80 } else { 0 })) by (bit_vector)
        requires
            e < 256,
            p < 8,
            i < 8,
    ;
}

/// In a fresh branch history, a move recorded without a score is then seen as one that a
/// later swap at the same position would undo; recorded with a score, it is not. (Positions
/// 0 and 1 are left out: the empty slots read as position 0.)
pub proof fn lemma_record_then_check(total_depth: u8, curr_depth: u8, pos: int, scored: bool)
    requires
        curr_depth <= total_depth,
        total_depth - curr_depth < 8,
        2 <= pos < 72,
    ensures
        previously_run(pos, recorded(total_depth, curr_depth, 0, pos, scored)) == !scored,
{
    let ply = (total_depth - curr_depth) as int;
    let h = recorded(total_depth, curr_depth, 0, pos, scored);
    let pv: u64 = pos as u64;
    let sh: u64 = (8 * ply) as u64;
    let e: u64 = if scored { pv | 0x80u64 } else { pv };
    assert(e < 256 && e & 0x7f == pv && (e & 0x80 != 0) == scored) by (bit_vector)
        requires
            2 <= pv < 72,
            e == (if scored { pv | 0x80u64 } else { pv }),
    ;
    assert(h == 0u64 | (e << sh));
    assert(h == e << sh) by (bit_vector)
        requires
            h == 0u64 | (e << sh),
    ;
    assert forall|i: int| 0 <= i < 8 implies #[trigger] slot_move(h, i) == (if i == ply { pos as u64 } else { 0 })
        && slot_scored(h, i) == (i == ply && scored) by {
        lemma_single_slot(e, ply as u64, i as u64);
        assert((8 * i) as u64 == 8 * (i as u64));
        assert((8 * ply) as u64 == 8 * (ply as u64));
    }
    if !scored {
        assert forall|j: int| ply < j < 8 implies #[trigger] slot_keeps(pos, h, j) by {
            assert(slot_move(h, j) == 0);
        }
        assert(slot_move(h, ply) == pos && !slot_scored(h, ply));
    } else {
        if previously_run(pos, h) {
            let i = choose|i: int|
                0 <= i < 8 && slot_move(h, i) == pos && !slot_scored(h, i) && (forall|j: int|
                    i < j < 8 ==> #[trigger] slot_keeps(pos, h, j));
            assert(slot_move(h, i) == pos);
        }
    }
}

} // verus!
