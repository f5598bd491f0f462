//! Byte-level reading of UTF-8 text: white space, character boundaries,
//! slicing, comparison and the few pieces of formatting the messages need.

use vstd::prelude::*;
use vstd::string::StringSliceAdditionalSpecFns;
use vstd::string::StringExecFns;
use vstd::utf8::*;

verus! {

/// The number of bytes taken by the white-space character whose encoding
/// starts at `i`, or 0 when no white-space character starts there.
///
/// White space is every character that Unicode classes as `White_Space`:
/// U+0009..U+000D, U+0020, U+0085, U+00A0, U+1680, U+2000..U+200A, U+2028,
/// U+2029, U+202F, U+205F and U+3000, each recognised by its encoding.
pub open spec fn space_width(s: Seq<u8>, i: int) -> int {
    if i < 0 || i >= s.len() {
        0
    } else if (0x09 <= s[i] <= 0x0D) || s[i] == 0x20 {
        1
    } else if i + 1 < s.len() && s[i] == 0xC2 && (s[i + 1] == 0x85 || s[i + 1] == 0xA0) {
        2
    } else if i + 2 < s.len() && s[i] == 0xE1 && s[i + 1] == 0x9A && s[i + 2] == 0x80 {
        3
    } else if i + 2 < s.len() && s[i] == 0xE2 && s[i + 1] == 0x80 && (0x80 <= s[i + 2] <= 0x8A
        || s[i + 2] == 0xA8 || s[i + 2] == 0xA9 || s[i + 2] == 0xAF) {
        3
    } else if i + 2 < s.len() && s[i] == 0xE2 && s[i + 1] == 0x81 && s[i + 2] == 0x9F {
        3
    } else if i + 2 < s.len() && s[i] == 0xE3 && s[i + 1] == 0x80 && s[i + 2] == 0x80 {
        3
    } else {
        0
    }
}

/// The first position at or after `i` where no white-space character starts.
pub open spec fn skip_space(s: Seq<u8>, i: int) -> int
    decreases s.len() - i,
{
    if space_width(s, i) > 0 {
        skip_space(s, i + space_width(s, i))
    } else {
        i
    }
}

/// The number of bytes that a character takes whose encoding starts with `b`.
pub open spec fn scalar_width(b: u8) -> int {
    if b < 0x80 {
        1
    } else if b < 0xE0 {
        2
    } else if b < 0xF0 {
        3
    } else {
        4
    }
}

/// `i` lies between two characters of the UTF-8 text `s`, or at one of its ends.
pub open spec fn boundary(s: Seq<u8>, i: int) -> bool {
    0 <= i <= s.len() && is_char_boundary(s, i)
}

/// The characters that the bytes of `s` from `from` up to `to` encode.
pub open spec fn text_between(s: Seq<u8>, from: int, to: int) -> Seq<char> {
    decode_utf8(s.subrange(from, to))
}

pub proof fn lemma_skip_space_bounds(s: Seq<u8>, i: int)
    ensures
        i <= skip_space(s, i),
        i <= s.len() ==> skip_space(s, i) <= s.len(),
        space_width(s, skip_space(s, i)) == 0,
        skip_space(s, skip_space(s, i)) == skip_space(s, i),
    decreases s.len() - i,
{
    if space_width(s, i) > 0 {
        lemma_skip_space_bounds(s, i + space_width(s, i));
    }
}

/// The character that starts at a boundary ends at a boundary.
pub proof fn lemma_boundary_next(s: Seq<u8>, i: int)
    requires
        valid_utf8(s),
        boundary(s, i),
        i < s.len(),
    ensures
        i + scalar_width(s[i]) <= s.len(),
        boundary(s, i + scalar_width(s[i])),
        scalar_width(s[i]) == length_of_first_scalar(s.subrange(i, s.len() as int)),
{
    let n = s.len() as int;
    let t = s.subrange(i, n);
    valid_utf8_split(s, i);
    assert(valid_utf8(t));
    assert(t.len() > 0);
    assert(valid_first_scalar(t));
    assert(t[0] == s[i]);
    let w = length_of_first_scalar(t);
    assert(w == scalar_width(s[i]));
    assert(w <= t.len());
    let rest = pop_first_scalar(t);
    assert(valid_utf8(rest));
    assert(rest =~= s.subrange(i + w, n));
    if i + w < n {
        assert(rest.len() > 0);
        assert(valid_first_scalar(rest));
        assert(rest[0] == s[i + w]);
        is_char_boundary_iff_is_leading_byte(s, i + w);
    } else {
        is_char_boundary_start_end_of_seq(s);
    }
}

/// Text is told apart by its bytes.
pub proof fn lemma_same_bytes_same_text(a: Seq<char>, b: Seq<char>)
    requires
        encode_utf8(a) == encode_utf8(b),
    ensures
        a == b,
{
    encode_utf8_decode_utf8(a);
    encode_utf8_decode_utf8(b);
}

/// The width of the white-space character at byte `i` of `src`, or 0.
pub fn space_width_at(src: &str, i: usize) -> (w: usize)
    ensures
        w == space_width(src.spec_bytes(), i as int),
{
    let bytes = src.as_bytes();
    let n = bytes.len();
    if i >= n {
        return 0;
    }
    let b0 = bytes[i];
    if (0x09 <= b0 && b0 <= 0x0D) || b0 == 0x20 {
        return 1;
    }
    if n - i >= 2 {
        let b1 = bytes[i + 1];
        if b0 == 0xC2 && (b1 == 0x85 || b1 == 0xA0) {
            return 2;
        }
        if n - i >= 3 {
            let b2 = bytes[i + 2];
            if b0 == 0xE1 && b1 == 0x9A && b2 == 0x80 {
                return 3;
            }
            if b0 == 0xE2 && b1 == 0x80 && ((0x80 <= b2 && b2 <= 0x8A) || b2 == 0xA8 || b2 == 0xA9
                || b2 == 0xAF) {
                return 3;
            }
            if b0 == 0xE2 && b1 == 0x81 && b2 == 0x9F {
                return 3;
            }
            if b0 == 0xE3 && b1 == 0x80 && b2 == 0x80 {
                return 3;
            }
        }
    }
    0
}

/// Steps over the white space that starts at byte `i` of `src`.
pub fn skip_space_from(src: &str, i: usize) -> (j: usize)
    requires
        i <= src.spec_bytes().len(),
    ensures
        j == skip_space(src.spec_bytes(), i as int),
        i <= j <= src.spec_bytes().len(),
        boundary(src.spec_bytes(), i as int) ==> boundary(src.spec_bytes(), j as int),
{
    let ghost s = src.spec_bytes();
    let n: usize = src.as_bytes().len();
    let mut j: usize = i;
    loop
        invariant
            s == src.spec_bytes(),
            n == s.len(),
            i <= j <= s.len(),
            skip_space(s, i as int) == skip_space(s, j as int),
            boundary(s, i as int) ==> boundary(s, j as int),
        decreases s.len() - j,
    {
        let w: usize = space_width_at(src, j);
        if w == 0 {
            return j;
        }
        proof {
            if boundary(s, i as int) {
                encode_utf8_valid_utf8(src@);
                lemma_boundary_next(s, j as int);
            }
        }
        j = j + w;
    }
}

/// The part of `src` between two of its boundaries.
pub fn slice<'a>(src: &'a str, from: usize, to: usize) -> (part: &'a str)
    requires
        from <= to,
        boundary(src.spec_bytes(), from as int),
        boundary(src.spec_bytes(), to as int),
    ensures
        part.spec_bytes() == src.spec_bytes().subrange(from as int, to as int),
        part@ == text_between(src.spec_bytes(), from as int, to as int),
{
    let ghost s = src.spec_bytes();
    proof {
        encode_utf8_valid_utf8(src@);
    }
    let (head, _) = src.split_at(to);
    proof {
        let h = head.spec_bytes();
        encode_utf8_valid_utf8(head@);
        assert(h =~= s.subrange(0, to as int));
        if from < to {
            is_char_boundary_iff_is_leading_byte(s, from as int);
            is_char_boundary_iff_is_leading_byte(h, from as int);
        } else {
            is_char_boundary_start_end_of_seq(h);
        }
    }
    let (_, part) = head.split_at(from);
    proof {
        assert(part.spec_bytes() =~= s.subrange(from as int, to as int));
        encode_utf8_decode_utf8(part@);
    }
    part
}

/// Whether two texts are the same.
pub fn same_text(a: &str, b: &str) -> (same: bool)
    ensures
        same == (a@ == b@),
{
    let x = a.as_bytes();
    let y = b.as_bytes();
    if x.len() != y.len() {
        return false;
    }
    let mut i: usize = 0;
    while i < x.len()
        invariant
            x@ == a.spec_bytes(),
            y@ == b.spec_bytes(),
            x@.len() == y@.len(),
            i <= x@.len(),
            forall|k: int| 0 <= k < i ==> x@[k] == y@[k],
        decreases x@.len() - i,
    {
        if x[i] != y[i] {
            return false;
        }
        i = i + 1;
    }
    proof {
        assert(x@ =~= y@);
        lemma_same_bytes_same_text(a@, b@);
    }
    true
}

/// A text as `{:?}` writes it: between double quotes, with the characters
/// escaped that cannot stand in a string literal as they are.
pub uninterp spec fn quoted(text: Seq<char>) -> Seq<char>;

/// Writes `text` through `<str as core::fmt::Debug>::fmt`, which `{:?}`
/// calls. Nothing is proved of what that writes: the result has a name only.
#[verifier::external_body]
pub(crate) fn quote(text: &str) -> (written: String)
    ensures
        written@ == quoted(text@),
{
    format!("{:?}", text)
}

/// A character as `{:?}` writes it: between single quotes, escaped where it
/// cannot stand in a character literal as it is.
pub uninterp spec fn quoted_char(c: char) -> Seq<char>;

/// Writes `c` through `<char as core::fmt::Debug>::fmt`, which `{:?}` calls.
/// Nothing is proved of what that writes: the result has a name only.
#[verifier::external_body]
pub(crate) fn quote_char(c: char) -> (written: String)
    ensures
        written@ == quoted_char(c),
{
    format!("{:?}", c)
}

/// The character that writes a digit.
pub open spec fn digit_char(d: int) -> char {
    if d == 0 {
        '0'
    } else if d == 1 {
        '1'
    } else if d == 2 {
        '2'
    } else if d == 3 {
        '3'
    } else if d == 4 {
        '4'
    } else if d == 5 {
        '5'
    } else if d == 6 {
        '6'
    } else if d == 7 {
        '7'
    } else if d == 8 {
        '8'
    } else {
        '9'
    }
}

/// A number written in decimal digits, without leading zeros.
pub open spec fn decimal(n: nat) -> Seq<char>
    decreases n,
{
    if n < 10 {
        seq![digit_char(n as int)]
    } else {
        decimal(n / 10).push(digit_char((n % 10) as int))
    }
}

fn digit_text(d: usize) -> (text: &'static str)
    requires
        d < 10,
    ensures
        text@ == seq![digit_char(d as int)],
{
    proof {
        reveal_strlit("0");
        reveal_strlit("1");
        reveal_strlit("2");
        reveal_strlit("3");
        reveal_strlit("4");
        reveal_strlit("5");
        reveal_strlit("6");
        reveal_strlit("7");
        reveal_strlit("8");
        reveal_strlit("9");
    }
    let text = if d == 0 {
        "0"
    } else if d == 1 {
        "1"
    } else if d == 2 {
        "2"
    } else if d == 3 {
        "3"
    } else if d == 4 {
        "4"
    } else if d == 5 {
        "5"
    } else if d == 6 {
        "6"
    } else if d == 7 {
        "7"
    } else if d == 8 {
        "8"
    } else {
        "9"
    };
    assert(text@ =~= seq![digit_char(d as int)]);
    text
}

/// Writes `n` in decimal digits at the end of `out`.
pub fn append_decimal(out: &mut String, n: usize)
    ensures
        final(out)@ == old(out)@ + decimal(n as nat),
    decreases n,
{
    let ghost before = out@;
    if n >= 10 {
        append_decimal(out, n / 10);
    }
    out.append(digit_text(n % 10));
    proof {
        if n >= 10 {
            assert((before + decimal((n / 10) as nat)) + seq![digit_char((n % 10) as int)]
                =~= before + decimal(n as nat));
        } else {
            assert(before + seq![digit_char((n % 10) as int)] =~= before + decimal(n as nat));
        }
    }
}

} // verus!
