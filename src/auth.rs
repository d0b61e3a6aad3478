use vstd::prelude::*;

verus! {

/// Whether `code` is the code point of a character: not a surrogate, at most 0x10FFFF.
pub open spec fn is_char_code(code: int) -> bool {
    (0 <= code < 0xD800) || (0xE000 <= code <= 0x10FFFF)
}

/// Whether `d` is `c` moved up ten code points, or `c` itself where that is no character.
pub open spec fn shifts_to(c: char, d: char) -> bool {
    if is_char_code(c as int + 10) {
        d as int == c as int + 10
    } else {
        d == c
    }
}

/// The characters of `s` other than `-`, in order.
pub open spec fn without_dashes(s: Seq<char>) -> Seq<char>
    decreases s.len(),
{
    if s.len() == 0 {
        Seq::empty()
    } else {
        without_dashes(s.drop_last()) + if s.last() != '-' {
            seq![s.last()]
        } else {
            Seq::empty()
        }
    }
}

/// Whether `t` is `s` with its dashes dropped and every other character moved up ten code
/// points (kept where that is no character).
pub open spec fn scrambled(s: Seq<char>, t: Seq<char>) -> bool {
    let kept = without_dashes(s);
    &&& t.len() == kept.len()
    &&& forall|i: int| 0 <= i < t.len() ==> shifts_to(kept[i], #[trigger] t[i])
}

/// The standard base64 encoding (with padding) of the UTF-8 bytes of `text`.
pub uninterp spec fn base64_of(text: Seq<char>) -> Seq<char>;

/// Relies on `char::from_u32`: the character with code point `code`, when there is one.
#[verifier::external_body]
fn char_from_code(code: u32) -> (r: Option<char>)
    ensures
        r is Some <==> is_char_code(code as int),
        r is Some ==> r->0 as int == code as int,
{
    std::char::from_u32(code)
}

/// Relies on collecting characters into a `String`: the same characters, in order.
#[verifier::external_body]
fn string_from_chars(chars: &Vec<char>) -> (r: String)
    ensures
        r@ == chars@,
{
    chars.iter().collect()
}

/// Relies on `base64::encode`: the standard encoding, with padding, of the text's UTF-8
/// bytes; it depends on the text alone.
#[verifier::external_body]
fn base64_text(text: &String) -> (r: String)
    ensures
        r@ == base64_of(text@),
{
    base64::encode(text)
}

/// Drops the dashes of `text` and moves every other character up ten code points.
pub fn scramble(text: &String) -> (r: String)
    ensures
        scrambled(text@, r@),
{
    let s = text.as_str();
    let n = s.unicode_len();
    let mut out: Vec<char> = Vec::new();
    let mut i: usize = 0;
    while i < n
        invariant
            s@ == text@,
            n == s@.len(),
            i <= n,
            scrambled(s@.take(i as int), out@),
        decreases n - i,
    {
        let c = s.get_char(i);
        assert(s@.take(i as int + 1).drop_last() =~= s@.take(i as int));
        let ghost kept = without_dashes(s@.take(i as int));
        if c != '-' {
            let d = match char_from_code(c as u32 + 10) {
                Some(d) => d,
                None => c,
            };
            out.push(d);
            assert(without_dashes(s@.take(i as int + 1)) == kept.push(c));
        } else {
            assert(without_dashes(s@.take(i as int + 1)) =~= kept);
        }
        i = i + 1;
    }
    assert(s@.take(n as int) =~= s@);
    string_from_chars(&out)
}

/// The key derived from a serial number: twice, drop the dashes, move every character up
/// ten code points, and encode the result in base64.
pub fn enc_string(input: String) -> (r: String)
    ensures
        exists|once: Seq<char>, twice: Seq<char>|
            scrambled(input@, once) && scrambled(base64_of(once), twice) && r@ == base64_of(twice),
{
    let first = scramble(&input);
    let encoded = base64_text(&first);
    let second = scramble(&encoded);
    let r = base64_text(&second);
    assert(scrambled(input@, first@) && scrambled(base64_of(first@), second@) && r@ == base64_of(second@));
    r
}

} // verus!
