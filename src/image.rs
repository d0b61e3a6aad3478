use vstd::prelude::*;
use crate::board::defs::{Pieces, BLUE_CIRCLE, BLUE_PENTAGON, BREEN_OCTAGON, CRAB, DARK_BLUE_SQUARE, GREEN_SQUARE, NULL, PALE_CIRCLE, PUFFERFISH, WAVY_SQUARE};

verus! {

/// A grey level.
pub type Pixel = u8;

/// The grey level of a colour: a third of each channel, each rounded down.
pub fn gray_of(r: u8, g: u8, b: u8) -> (p: Pixel)
    ensures
        p == r / 3 + g / 3 + b / 3,
{
    r / 3 + g / 3 + b / 3
}

/// The piece a screen colour shows, above and under water; `NULL` for any other colour.
pub open spec fn colour_piece(c: Seq<u8>) -> Pieces {
    if c == seq![87u8, 189, 245, 255] || c == seq![35u8, 121, 195, 255] {
        WAVY_SQUARE
    } else if c == seq![59u8, 135, 150, 255] || c == seq![24u8, 99, 157, 255] {
        BREEN_OCTAGON
    } else if c == seq![25u8, 200, 243, 255] || c == seq![10u8, 125, 194, 255] {
        BLUE_CIRCLE
    } else if c == seq![136u8, 226, 197, 255] || c == seq![54u8, 135, 176, 255] {
        PALE_CIRCLE
    } else if c == seq![25u8, 136, 202, 255] || c == seq![10u8, 99, 178, 255] {
        DARK_BLUE_SQUARE
    } else if c == seq![4u8, 220, 204, 255] || c == seq![2u8, 133, 179, 255] {
        GREEN_SQUARE
    } else if c == seq![7u8, 122, 235, 255] || c == seq![3u8, 94, 191, 255] {
        BLUE_PENTAGON
    } else if c == seq![250u8, 242, 68, 255] || c == seq![100u8, 142, 124, 255] {
        PUFFERFISH
    } else if c == seq![26u8, 71, 123, 255] {
        CRAB
    } else {
        NULL
    }
}

fn is_colour(p: &Vec<u8>, r: u8, g: u8, b: u8, a: u8) -> (m: bool)
    requires
        p@.len() >= 4,
    ensures
        m == (p@.take(4) == seq![r, g, b, a]),
{
    let m = p[0] == r && p[1] == g && p[2] == b && p[3] == a;
    if m {
        assert(p@.take(4) =~= seq![r, g, b, a]);
    } else {
        assert(p@.take(4)[0] != r || p@.take(4)[1] != g || p@.take(4)[2] != b || p@.take(4)[3] != a);
    }
    m
}

/// The piece shown by a pixel given as red, green, blue and alpha.
pub fn get_piece_from_pixel(pixel: &Vec<u8>) -> (r: Pieces)
    requires
        pixel@.len() >= 4,
    ensures
        r == colour_piece(pixel@.take(4)),
{
    if is_colour(pixel, 87, 189, 245, 255) || is_colour(pixel, 35, 121, 195, 255) {
        WAVY_SQUARE
    } else if is_colour(pixel, 59, 135, 150, 255) || is_colour(pixel, 24, 99, 157, 255) {
        BREEN_OCTAGON
    } else if is_colour(pixel, 25, 200, 243, 255) || is_colour(pixel, 10, 125, 194, 255) {
        BLUE_CIRCLE
    } else if is_colour(pixel, 136, 226, 197, 255) || is_colour(pixel, 54, 135, 176, 255) {
        PALE_CIRCLE
    } else if is_colour(pixel, 25, 136, 202, 255) || is_colour(pixel, 10, 99, 178, 255) {
        DARK_BLUE_SQUARE
    } else if is_colour(pixel, 4, 220, 204, 255) || is_colour(pixel, 2, 133, 179, 255) {
        GREEN_SQUARE
    } else if is_colour(pixel, 7, 122, 235, 255) || is_colour(pixel, 3, 94, 191, 255) {
        BLUE_PENTAGON
    } else if is_colour(pixel, 250, 242, 68, 255) || is_colour(pixel, 100, 142, 124, 255) {
        PUFFERFISH
    } else if is_colour(pixel, 26, 71, 123, 255) {
        CRAB
    } else {
        NULL
    }
}

/// Where a search for an image found it.
#[derive(Clone, Copy, Debug)]
pub struct Location {
    pub found: bool,
    pub x: u32,
    pub y: u32,
}

/// Whether `needle` (`nh` rows of `nw` grey levels) lies in `haystack` with its top-left
/// corner at row `oy`, column `ox`, wholly inside the `h` rows of `w` pixels.
pub open spec fn matches_at(haystack: Seq<Vec<u8>>, needle: Seq<Vec<u8>>, w: int, h: int, nw: int, nh: int, oy: int, ox: int) -> bool {
    &&& 0 <= oy && oy + nh <= h
    &&& 0 <= ox && ox + nw <= w
    &&& forall|iy: int, ix: int|
        0 <= iy < nh && 0 <= ix < nw ==> #[trigger] haystack[oy + iy]@[ox + ix] == needle[iy]@[ix]
}

/// Whether the needle lies in the haystack at any corner before row `oy`, column `ox`
/// in row-major order.
pub open spec fn matches_before(haystack: Seq<Vec<u8>>, needle: Seq<Vec<u8>>, w: int, h: int, nw: int, nh: int, oy: int, ox: int) -> bool {
    exists|y: int, x: int|
        0 <= y && 0 <= x < w && (y < oy || (y == oy && x < ox)) && #[trigger] matches_at(haystack, needle, w, h, nw, nh, y, x)
}

/// Searches `haystack` (`screen_height` rows of `screen_width` grey levels) for `needle`
/// (`needle_height` rows of `needle_width`), row by row: the first corner where it lies
/// wholly inside, or `found == false` when there is none.
pub fn find_needle(
    haystack: &Vec<Vec<u8>>,
    screen_width: usize,
    screen_height: usize,
    needle: &Vec<Vec<u8>>,
    needle_width: usize,
    needle_height: usize,
) -> (r: Location)
    requires
        haystack@.len() == screen_height,
        forall|y: int| 0 <= y < screen_height ==> (#[trigger] haystack@[y])@.len() == screen_width,
        needle@.len() == needle_height,
        forall|y: int| 0 <= y < needle_height ==> (#[trigger] needle@[y])@.len() == needle_width,
        screen_width <= u32::MAX,
        screen_height <= u32::MAX,
    ensures
        r.found == matches_before(haystack@, needle@, screen_width as int, screen_height as int,
            needle_width as int, needle_height as int, screen_height as int, 0),
        r.found ==> matches_at(haystack@, needle@, screen_width as int, screen_height as int,
            needle_width as int, needle_height as int, r.y as int, r.x as int) && !matches_before(haystack@,
            needle@, screen_width as int, screen_height as int, needle_width as int, needle_height as int,
            r.y as int, r.x as int),
{
    let ghost hs = haystack@;
    let ghost ns = needle@;
    let ghost w = screen_width as int;
    let ghost h = screen_height as int;
    let ghost nw = needle_width as int;
    let ghost nh = needle_height as int;
    let mut oy: usize = 0;
    while oy < screen_height
        invariant
            hs == haystack@,
            ns == needle@,
            w == screen_width as int,
            h == screen_height as int,
            nw == needle_width as int,
            nh == needle_height as int,
            oy <= screen_height,
            haystack@.len() == screen_height,
            forall|y: int| 0 <= y < screen_height ==> (#[trigger] haystack@[y])@.len() == screen_width,
            needle@.len() == needle_height,
            forall|y: int| 0 <= y < needle_height ==> (#[trigger] needle@[y])@.len() == needle_width,
            screen_height <= u32::MAX,
            screen_width <= u32::MAX,
            !matches_before(hs, ns, w, h, nw, nh, oy as int, 0),
        decreases screen_height - oy,
    {
        let mut ox: usize = 0;
        while ox < screen_width
            invariant
                hs == haystack@,
                ns == needle@,
                w == screen_width as int,
                h == screen_height as int,
                nw == needle_width as int,
                nh == needle_height as int,
                oy < screen_height,
                ox <= screen_width,
                haystack@.len() == screen_height,
                forall|y: int| 0 <= y < screen_height ==> (#[trigger] haystack@[y])@.len() == screen_width,
                needle@.len() == needle_height,
                forall|y: int| 0 <= y < needle_height ==> (#[trigger] needle@[y])@.len() == needle_width,
                screen_height <= u32::MAX,
                screen_width <= u32::MAX,
                !matches_before(hs, ns, w, h, nw, nh, oy as int, ox as int),
            decreases screen_width - ox,
        {
            if fits_at(haystack, needle, screen_width, screen_height, needle_width, needle_height, oy, ox) {
                assert(matches_at(hs, ns, w, h, nw, nh, oy as int, ox as int));
                assert(matches_before(hs, ns, w, h, nw, nh, h, 0));
                let r = Location { found: true, x: ox as u32, y: oy as u32 };
                assert(r.x as int == ox && r.y as int == oy);
                return r;
            }
            proof {
                lemma_search_step(hs, ns, w, h, nw, nh, oy as int, ox as int);
            }
            ox = ox + 1;
        }
        proof {
            lemma_search_row(hs, ns, w, h, nw, nh, oy as int);
        }
        oy = oy + 1;
    }
    Location { found: false, x: 0, y: 0 }
}

proof fn lemma_search_step(hs: Seq<Vec<u8>>, ns: Seq<Vec<u8>>, w: int, h: int, nw: int, nh: int, oy: int, ox: int)
    requires
        !matches_before(hs, ns, w, h, nw, nh, oy, ox),
        !matches_at(hs, ns, w, h, nw, nh, oy, ox),
    ensures
        !matches_before(hs, ns, w, h, nw, nh, oy, ox + 1),
{
    if matches_before(hs, ns, w, h, nw, nh, oy, ox + 1) {
        let (y, x) = choose|y: int, x: int|
            0 <= y && 0 <= x < w && (y < oy || (y == oy && x < ox + 1)) && #[trigger] matches_at(hs, ns, w, h, nw, nh, y, x);
        if y == oy && x == ox {
        } else {
            assert(matches_before(hs, ns, w, h, nw, nh, oy, ox));
        }
    }
}

proof fn lemma_search_row(hs: Seq<Vec<u8>>, ns: Seq<Vec<u8>>, w: int, h: int, nw: int, nh: int, oy: int)
    requires
        !matches_before(hs, ns, w, h, nw, nh, oy, w),
    ensures
        !matches_before(hs, ns, w, h, nw, nh, oy + 1, 0),
{
    if matches_before(hs, ns, w, h, nw, nh, oy + 1, 0) {
        let (y, x) = choose|y: int, x: int|
            0 <= y && 0 <= x < w && (y < oy + 1 || (y == oy + 1 && x < 0)) && #[trigger] matches_at(hs, ns, w, h, nw, nh, y, x);
        assert(matches_before(hs, ns, w, h, nw, nh, oy, w));
    }
}

/// Whether the needle lies wholly inside the haystack with its corner at row `oy`, column `ox`.
fn fits_at(
    haystack: &Vec<Vec<u8>>,
    needle: &Vec<Vec<u8>>,
    screen_width: usize,
    screen_height: usize,
    needle_width: usize,
    needle_height: usize,
    oy: usize,
    ox: usize,
) -> (r: bool)
    requires
        haystack@.len() == screen_height,
        forall|y: int| 0 <= y < screen_height ==> (#[trigger] haystack@[y])@.len() == screen_width,
        needle@.len() == needle_height,
        forall|y: int| 0 <= y < needle_height ==> (#[trigger] needle@[y])@.len() == needle_width,
    ensures
        r == matches_at(haystack@, needle@, screen_width as int, screen_height as int, needle_width as int,
            needle_height as int, oy as int, ox as int),
{
    if needle_height > screen_height || oy > screen_height - needle_height {
        return false;
    }
    if needle_width > screen_width || ox > screen_width - needle_width {
        return false;
    }
    let mut iy: usize = 0;
    while iy < needle_height
        invariant
            iy <= needle_height,
            oy + needle_height <= screen_height,
            ox + needle_width <= screen_width,
            haystack@.len() == screen_height,
            forall|y: int| 0 <= y < screen_height ==> (#[trigger] haystack@[y])@.len() == screen_width,
            needle@.len() == needle_height,
            forall|y: int| 0 <= y < needle_height ==> (#[trigger] needle@[y])@.len() == needle_width,
            forall|y: int, x: int|
                0 <= y < iy && 0 <= x < needle_width ==> #[trigger] haystack@[oy + y]@[ox + x] == needle@[y]@[x],
        decreases needle_height - iy,
    {
        let mut ix: usize = 0;
        while ix < needle_width
            invariant
                iy < needle_height,
                ix <= needle_width,
                oy + needle_height <= screen_height,
                ox + needle_width <= screen_width,
                haystack@.len() == screen_height,
                forall|y: int| 0 <= y < screen_height ==> (#[trigger] haystack@[y])@.len() == screen_width,
                needle@.len() == needle_height,
                forall|y: int| 0 <= y < needle_height ==> (#[trigger] needle@[y])@.len() == needle_width,
                forall|y: int, x: int|
                    0 <= y < iy && 0 <= x < needle_width ==> #[trigger] haystack@[oy + y]@[ox + x] == needle@[y]@[x],
                forall|x: int| 0 <= x < ix ==> #[trigger] haystack@[oy + iy]@[ox + x] == needle@[iy as int]@[x],
            decreases needle_width - ix,
        {
            if haystack[oy + iy][ox + ix] != needle[iy][ix] {
                return false;
            }
            ix = ix + 1;
        }
        iy = iy + 1;
    }
    true
}

} // verus!
