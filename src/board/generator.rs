use vstd::prelude::*;
use rand::Rng;
use crate::board::defs::{Pieces, CLEARED, digits_of, is_digit, digit_value, str_to_enum, piece_from_num};
use crate::board::structure::{Board, GameState};

verus! {

/// Relies on `rand::thread_rng` and `Rng::gen_range`: a value drawn from `lo..hi`, which
/// must not be empty.
#[verifier::external_body]
fn random_in(lo: i16, hi: i16) -> (r: i16)
    requires
        lo < hi,
    ensures
        lo <= r < hi,
{
    rand::thread_rng().gen_range(lo..hi)
}

/// A random full board of colour tiles 1 to 6, no tile equal to the one before it in
/// row-major order, water level 3.
pub fn generate_rand_board() -> (r: GameState)
    ensures
        r.water_level == 3,
        forall|i: int| 0 <= i < 72 ==> 1 <= #[trigger] r.board@[i] <= 6,
        forall|i: int| 0 < i < 72 ==> #[trigger] r.board@[i] != r.board@[i - 1],
{
    let mut board: Board = [CLEARED; 72];
    let mut last: Pieces = piece_from_num(random_in(1, 7));
    board[0] = last;
    let mut i: usize = 1;
    while i < 72
        invariant
            1 <= i <= 72,
            last == board@[i - 1],
            forall|j: int| 0 <= j < i ==> 1 <= #[trigger] board@[j] <= 6,
            forall|j: int| 0 < j < i ==> #[trigger] board@[j] != board@[j - 1],
        decreases 72 - i,
    {
        // Draw among the five pieces other than the last one.
        let d = piece_from_num(random_in(1, 6));
        let to_use: Pieces = if d >= last {
            d + 1
        } else {
            d
        };
        board[i] = to_use;
        last = to_use;
        i = i + 1;
    }
    GameState { water_level: 3, board }
}

/// A copy of a game state.
pub fn copy_board(copying: &GameState) -> (r: GameState)
    ensures
        r.board@ == copying.board@,
        r.water_level == copying.water_level,
{
    *copying
}

/// A game state with the given board and water level 3.
pub fn board_from_array(board: Board) -> (r: GameState)
    ensures
        r.board@ == board@,
        r.water_level == 3,
{
    GameState { water_level: 3, board }
}

/// A game state read from the board notation: the 72 digits of `in_str`, row-major from
/// the bottom row, each the code of a piece; other characters are skipped.
pub fn board_from_str(in_str: &str, water_level: u8) -> (r: GameState)
    requires
        digits_of(in_str@).len() == 72,
    ensures
        r.board@ == digits_of(in_str@),
        r.water_level == water_level,
{
    let brd = str_to_enum(in_str);
    let mut board: Board = [CLEARED; 72];
    let mut i: usize = 0;
    while i < 72
        invariant
            i <= 72,
            brd@ == digits_of(in_str@),
            brd@.len() == 72,
            forall|j: int| 0 <= j < i ==> board@[j] == brd@[j],
        decreases 72 - i,
    {
        board[i] = brd[i];
        i = i + 1;
    }
    assert(board@ =~= brd@);
    GameState { water_level, board }
}

/// An empty board: every cell cleared, water level 3.
pub fn generate_game() -> (r: GameState)
    ensures
        r.water_level == 3,
        forall|i: int| 0 <= i < 72 ==> #[trigger] r.board@[i] == CLEARED,
{
    GameState { water_level: 3, board: [CLEARED; 72] }
}

/// The character that stands for a piece in the board notation: its digit, or `-` for a
/// code above 9.
pub open spec fn dani_char(p: Pieces) -> char {
    if p == 0 {
        '0'
    } else if p == 1 {
        '1'
    } else if p == 2 {
        '2'
    } else if p == 3 {
        '3'
    } else if p == 4 {
        '4'
    } else if p == 5 {
        '5'
    } else if p == 6 {
        '6'
    } else if p == 7 {
        '7'
    } else if p == 8 {
        '8'
    } else if p == 9 {
        '9'
    } else {
        '-'
    }
}

/// The board notation of a sequence of pieces.
pub open spec fn dani_string(b: Seq<Pieces>) -> Seq<char> {
    Seq::new(b.len(), |i: int| dani_char(b[i]))
}

fn dani_str(p: Pieces) -> (r: &'static str)
    ensures
        r@ == seq![dani_char(p)],
{
    match p {
        0 => {
            proof { reveal_strlit("0"); }
            "0"
        },
        1 => {
            proof { reveal_strlit("1"); }
            "1"
        },
        2 => {
            proof { reveal_strlit("2"); }
            "2"
        },
        3 => {
            proof { reveal_strlit("3"); }
            "3"
        },
        4 => {
            proof { reveal_strlit("4"); }
            "4"
        },
        5 => {
            proof { reveal_strlit("5"); }
            "5"
        },
        6 => {
            proof { reveal_strlit("6"); }
            "6"
        },
        7 => {
            proof { reveal_strlit("7"); }
            "7"
        },
        8 => {
            proof { reveal_strlit("8"); }
            "8"
        },
        9 => {
            proof { reveal_strlit("9"); }
            "9"
        },
        _ => {
            proof { reveal_strlit("-"); }
            "-"
        },
    }
}

proof fn lemma_digits_of_add(a: Seq<char>, b: Seq<char>)
    ensures
        digits_of(a + b) == digits_of(a) + digits_of(b),
    decreases b.len(),
{
    if b.len() == 0 {
        assert(a + b =~= a);
        assert(digits_of(a) + digits_of(b) =~= digits_of(a));
    } else {
        assert((a + b).drop_last() =~= a + b.drop_last());
        lemma_digits_of_add(a, b.drop_last());
        assert(digits_of(a + b) =~= digits_of(a) + digits_of(b));
    }
}

/// Reading the notation of a board whose pieces are all digits gives the board back.
pub proof fn lemma_dani_round_trip(b: Seq<Pieces>)
    requires
        forall|i: int| 0 <= i < b.len() ==> #[trigger] b[i] <= 9,
    ensures
        digits_of(dani_string(b)) == b,
    decreases b.len(),
{
    if b.len() > 0 {
        let p = b.drop_last();
        lemma_dani_round_trip(p);
        assert(dani_string(b) =~= dani_string(p) + seq![dani_char(b.last())]);
        lemma_digits_of_add(dani_string(p), seq![dani_char(b.last())]);
        assert(seq![dani_char(b.last())].drop_last() =~= Seq::<char>::empty());
        assert(digits_of(Seq::<char>::empty()) =~= Seq::<u8>::empty());
        assert(is_digit(dani_char(b.last())));
        assert(digit_value(dani_char(b.last())) == b.last());
        assert(b =~= p.push(b.last()));
    }
}

proof fn lemma_digit_char(c: char)
    requires
        is_digit(c),
    ensures
        dani_char(digit_value(c)) == c,
{
    let v = c as u32;
    assert(48 <= v <= 57);
    if v == 48 {
        assert(c == '0');
    } else if v == 49 {
        assert(c == '1');
    } else if v == 50 {
        assert(c == '2');
    } else if v == 51 {
        assert(c == '3');
    } else if v == 52 {
        assert(c == '4');
    } else if v == 53 {
        assert(c == '5');
    } else if v == 54 {
        assert(c == '6');
    } else if v == 55 {
        assert(c == '7');
    } else if v == 56 {
        assert(c == '8');
    } else {
        assert(c == '9');
    }
}

/// Writing the notation of a string of digits read as a board gives the digits back.
pub proof fn lemma_dani_reads_back(s: Seq<char>)
    requires
        forall|i: int| 0 <= i < s.len() ==> is_digit(#[trigger] s[i]),
    ensures
        dani_string(digits_of(s)) == s,
    decreases s.len(),
{
    if s.len() > 0 {
        lemma_dani_reads_back(s.drop_last());
        let c = s.last();
        assert(digits_of(s) == digits_of(s.drop_last()) + seq![digit_value(c)]);
        lemma_digit_char(c);
        assert(dani_string(digits_of(s)) =~= dani_string(digits_of(s.drop_last())) + seq![c]);
        assert(s =~= s.drop_last() + seq![c]);
    }
}

impl GameState {
    /// The board in the notation `board_from_str` reads: one digit per cell, row-major
    /// from the bottom row (`-` for a code above 9).
    pub fn as_dani_string(&self) -> (r: String)
        ensures
            r@ == dani_string(self.board@),
    {
        let mut out = String::new();
        let mut i: usize = 0;
        while i < 72
            invariant
                i <= 72,
                out@ == dani_string(self.board@.take(i as int)),
            decreases 72 - i,
        {
            out.append(dani_str(self.board[i]));
            assert(dani_string(self.board@.take(i as int + 1)) =~= dani_string(self.board@.take(i as int))
                + seq![dani_char(self.board@[i as int])]);
            i = i + 1;
        }
        assert(self.board@.take(72) =~= self.board@);
        out
    }
}

} // verus!
