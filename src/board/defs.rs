use vstd::prelude::*;

verus! {

/// Number of columns of the board.
pub const WIDTH: i16 = 6;

/// A tile code: a colour (0..=6), a special tile, `CLEARED` or `NULL`.
pub type Pieces = u8;

pub const BLUE_PENTAGON: u8 = 0;
pub const GREEN_SQUARE: u8 = 1;
pub const BLUE_CIRCLE: u8 = 2;
pub const BREEN_OCTAGON: u8 = 3;
pub const DARK_BLUE_SQUARE: u8 = 4;
pub const PALE_CIRCLE: u8 = 5;
pub const WAVY_SQUARE: u8 = 6;
pub const CRAB: u8 = 7;
pub const PUFFERFISH: u8 = 8;
pub const JELLYFISH: u8 = 9;
pub const CLEARED: u8 = 10;
/// A cell outside the playfield, or one that could not be recognised.
pub const NULL: u8 = 255;

/// Whether `c` is an ASCII decimal digit.
pub open spec fn is_digit(c: char) -> bool {
    '0' <= c && c <= '9'
}

/// The value of the decimal digit `c`.
pub open spec fn digit_value(c: char) -> u8 {
    (c as u32 - '0' as u32) as u8
}

/// The digits of `s`, in order, each as its value; other characters are skipped.
pub open spec fn digits_of(s: Seq<char>) -> Seq<u8>
    decreases s.len(),
{
    if s.len() == 0 {
        Seq::empty()
    } else {
        let last = s.last();
        digits_of(s.drop_last()) + if is_digit(last) {
            seq![digit_value(last)]
        } else {
            Seq::empty()
        }
    }
}

/// Reads every decimal digit of `input`, in order, as a piece code.
pub fn str_to_enum(input: &str) -> (r: Vec<Pieces>)
    ensures
        r@ == digits_of(input@),
{
    let n = input.unicode_len();
    let mut out: Vec<Pieces> = Vec::new();
    let mut i: usize = 0;
    while i < n
        invariant
            n == input@.len(),
            i <= n,
            out@ == digits_of(input@.take(i as int)),
        decreases n - i,
    {
        let c = input.get_char(i);
        assert(input@.take(i as int + 1).drop_last() =~= input@.take(i as int));
        if '0' <= c && c <= '9' {
            out.push(dani_mapper((c as u32 - '0' as u32) as i16));
        }
        i = i + 1;
    }
    assert(input@.take(n as int) =~= input@);
    out
}

/// The piece code of a number read from the board notation.
pub fn dani_mapper(val: i16) -> (r: Pieces)
    ensures
        r == val as u8,
{
    val as u8
}

/// The piece code of a number.
pub fn piece_from_num(val: i16) -> (r: Pieces)
    ensures
        r == val as u8,
{
    val as u8
}

/// The glyph that stands for a piece on a drawn board.
pub open spec fn glyph(piece: Pieces) -> char {
    if piece == BLUE_PENTAGON {
        'A'
    } else if piece == GREEN_SQUARE {
        'B'
    } else if piece == BLUE_CIRCLE {
        'C'
    } else if piece == BREEN_OCTAGON {
        'D'
    } else if piece == DARK_BLUE_SQUARE {
        'E'
    } else if piece == PALE_CIRCLE {
        'F'
    } else if piece == WAVY_SQUARE {
        'G'
    } else if piece == CRAB {
        'H'
    } else if piece == PUFFERFISH {
        'I'
    } else if piece == JELLYFISH {
        'J'
    } else {
        ' '
    }
}

/// One-character text for a piece: a letter, or a space for cleared and unknown cells.
pub fn draw_piece(piece: Pieces) -> (r: &'static str)
    ensures
        r@ == seq![glyph(piece)],
{
    match piece {
        BLUE_PENTAGON => {
            proof { reveal_strlit("A"); }
            "A"
        },
        GREEN_SQUARE => {
            proof { reveal_strlit("B"); }
            "B"
        },
        BLUE_CIRCLE => {
            proof { reveal_strlit("C"); }
            "C"
        },
        BREEN_OCTAGON => {
            proof { reveal_strlit("D"); }
            "D"
        },
        DARK_BLUE_SQUARE => {
            proof { reveal_strlit("E"); }
            "E"
        },
        PALE_CIRCLE => {
            proof { reveal_strlit("F"); }
            "F"
        },
        WAVY_SQUARE => {
            proof { reveal_strlit("G"); }
            "G"
        },
        CRAB => {
            proof { reveal_strlit("H"); }
            "H"
        },
        PUFFERFISH => {
            proof { reveal_strlit("I"); }
            "I"
        },
        JELLYFISH => {
            proof { reveal_strlit("J"); }
            "J"
        },
        _ => {
            proof { reveal_strlit(" "); }
            " "
        },
    }
}

} // verus!
