//! Splitting a text into the words that white space separates.

use vstd::prelude::*;
use vstd::string::StringSliceAdditionalSpecFns;
use vstd::utf8::{valid_utf8, encode_utf8, encode_utf8_valid_utf8, is_char_boundary_iff_is_leading_byte, is_char_boundary_start_end_of_seq};
use crate::text::{boundary, lemma_skip_space_bounds, skip_space, skip_space_from, slice, space_width, space_width_at, text_between};

verus! {

/// The first position at or after `i` where a white-space character starts,
/// or the end of `s`.
pub open spec fn word_end(s: Seq<u8>, i: int) -> int
    decreases s.len() - i,
{
    if i >= s.len() || space_width(s, i) > 0 {
        i
    } else {
        word_end(s, i + 1)
    }
}

pub proof fn lemma_word_end_bounds(s: Seq<u8>, i: int)
    requires
        0 <= i <= s.len(),
    ensures
        i <= word_end(s, i) <= s.len(),
        i < s.len() && space_width(s, i) == 0 ==> i < word_end(s, i),
    decreases s.len() - i,
{
    if i < s.len() && space_width(s, i) == 0 {
        lemma_word_end_bounds(s, i + 1);
    }
}

/// The words of `s` that start at or after `i`, in order.
pub open spec fn words_from(s: Seq<u8>, i: int) -> Seq<Seq<char>>
    decreases s.len() - i,
{
    let start = skip_space(s, i);
    let end = word_end(s, start);
    if 0 <= i <= start < end <= s.len() {
        seq![text_between(s, start, end)] + words_from(s, end)
    } else {
        Seq::empty()
    }
}

/// The words of a text: its longest parts without white space, in order.
pub open spec fn words(text: Seq<char>) -> Seq<Seq<char>> {
    words_from(encode_utf8(text), 0)
}

/// What a list of texts holds.
pub open spec fn texts(list: Seq<&str>) -> Seq<Seq<char>> {
    Seq::new(list.len(), |i: int| list[i]@)
}

/// The words of `src`, in order.
pub fn split_words<'a>(src: &'a str) -> (list: Vec<&'a str>)
    ensures
        texts(list@) == words(src@),
{
    let ghost s = src.spec_bytes();
    let n: usize = src.as_bytes().len();
    let mut list: Vec<&'a str> = Vec::new();
    let mut i: usize = 0;
    proof {
        encode_utf8_valid_utf8(src@);
        is_char_boundary_start_end_of_seq(s);
        assert(texts(list@) + words_from(s, 0) =~= words(src@));
    }
    loop
        invariant
            s == src.spec_bytes(),
            n == s.len(),
            i <= n,
            valid_utf8(s),
            boundary(s, i as int),
            texts(list@) + words_from(s, i as int) == words(src@),
        decreases n - i,
    {
        let start: usize = skip_space_from(src, i);
        proof {
            lemma_skip_space_bounds(s, i as int);
            lemma_word_end_bounds(s, start as int);
        }
        if start >= n {
            assert(words_from(s, i as int) =~= Seq::empty());
            assert(texts(list@) + words_from(s, i as int) =~= texts(list@));
            return list;
        }
        let mut end: usize = start + 1;
        while end < n && space_width_at(src, end) == 0
            invariant
                s == src.spec_bytes(),
                n == s.len(),
                start < end <= n,
                word_end(s, start as int) == word_end(s, end as int),
            decreases n - end,
        {
            end = end + 1;
        }
        proof {
            assert(word_end(s, start as int) == end);
            if end < n {
                is_char_boundary_iff_is_leading_byte(s, end as int);
            } else {
                is_char_boundary_start_end_of_seq(s);
            }
        }
        let word = slice(src, start, end);
        proof {
            assert(texts(list@.push(word)) =~= texts(list@) + seq![word@]);
            assert(words_from(s, i as int) =~= seq![word@] + words_from(s, end as int));
            assert(texts(list@.push(word)) + words_from(s, end as int) =~= texts(list@)
                + words_from(s, i as int));
        }
        list.push(word);
        i = end;
    }
}

} // verus!
