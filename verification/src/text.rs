use vstd::prelude::*;

verus! {

/// The UTF-8 encoding of a string, which is how byte offsets and columns
/// count it.
pub open spec fn bytes_of(s: Seq<char>) -> Seq<u8> {
    vstd::utf8::encode_utf8(s)
}

/// ASCII punctuation: the bytes that CommonMark lets a backslash escape.
pub open spec fn is_ascii_punctuation(b: u8) -> bool {
    (0x21 <= b <= 0x2f) || (0x3a <= b <= 0x40) || (0x5b <= b <= 0x60) || (0x7b <= b <= 0x7e)
}

/// Whether `b` is a byte of ASCII punctuation.
pub fn ascii_punctuation(b: u8) -> (r: bool)
    ensures
        r == is_ascii_punctuation(b),
{
    (0x21 <= b && b <= 0x2f) || (0x3a <= b && b <= 0x40) || (0x5b <= b && b <= 0x60) || (0x7b
        <= b && b <= 0x7e)
}

/// The characters with the Unicode `White_Space` property, which is what
/// `char::is_whitespace` and the `trim` family of `str` test for.
pub open spec fn is_white_space(c: char) -> bool {
    ||| ('\u{9}' <= c <= '\u{d}')
    ||| c == ' '
    ||| c == '\u{85}'
    ||| c == '\u{a0}'
    ||| c == '\u{1680}'
    ||| ('\u{2000}' <= c <= '\u{200a}')
    ||| c == '\u{2028}'
    ||| c == '\u{2029}'
    ||| c == '\u{202f}'
    ||| c == '\u{205f}'
    ||| c == '\u{3000}'
}

/// Whether `s` starts with a character of the Unicode `White_Space` property.
pub open spec fn starts_with_white_space(s: Seq<char>) -> bool {
    s.len() > 0 && is_white_space(s[0])
}

/// Whether `s` ends with a character of the Unicode `White_Space` property.
pub open spec fn ends_with_white_space(s: Seq<char>) -> bool {
    s.len() > 0 && is_white_space(s.last())
}

/// Whether `c` has the Unicode `White_Space` property.
pub fn white_space(c: char) -> (r: bool)
    ensures
        r == is_white_space(c),
{
    ('\u{9}' <= c && c <= '\u{d}') || c == ' ' || c == '\u{85}' || c == '\u{a0}' || c
        == '\u{1680}' || ('\u{2000}' <= c && c <= '\u{200a}') || c == '\u{2028}' || c
        == '\u{2029}' || c == '\u{202f}' || c == '\u{205f}' || c == '\u{3000}'
}

/// The bytes of a string.
pub fn bytes(s: &str) -> (b: &[u8])
    ensures
        b@ == bytes_of(s@),
{
    s.as_bytes()
}

/// The characters of a string, in order.
pub fn chars_of(s: &str) -> (v: Vec<char>)
    ensures
        v@ == s@,
{
    broadcast use vstd::string::group_string_axioms;

    let mut v: Vec<char> = Vec::new();
    for c in iter: s.chars()
        invariant
            v@ == iter.seq().take(iter.index() as int),
    {
        v.push(c);
    }
    assert(v@ =~= s@);
    v
}

} // verus!
