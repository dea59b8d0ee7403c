//! Contiguous containment of one sequence in another, and the executable
//! check of it on strings.

use crate::encoding::{lemma_encode_concat, lemma_valid_prefix_ends_at_boundary};
use vstd::prelude::*;
use vstd::utf8::*;

verus! {

/// `needle` stands in `haystack` at offset `at`.
pub open spec fn occurs_at<T>(needle: Seq<T>, haystack: Seq<T>, at: int) -> bool {
    &&& 0 <= at
    &&& at + needle.len() <= haystack.len()
    &&& haystack.subrange(at, at + needle.len()) == needle
}

/// `needle` stands somewhere in `haystack` as a contiguous run.
pub open spec fn is_substring<T>(needle: Seq<T>, haystack: Seq<T>) -> bool {
    exists|at: int| occurs_at(needle, haystack, at)
}

/// Whether `needle` stands in `haystack` at offset `at`, byte by byte.
fn bytes_occur_at(needle: &[u8], haystack: &[u8], at: usize) -> (found: bool)
    requires
        at + needle@.len() <= haystack@.len(),
    ensures
        found == occurs_at(needle@, haystack@, at as int),
{
    let ghost window = haystack@.subrange(at as int, at + needle@.len());
    assert(haystack@.len() == haystack.len());
    let mut i: usize = 0;
    while i < needle.len()
        invariant
            i <= needle@.len(),
            at + needle@.len() <= haystack@.len() <= usize::MAX,
            window == haystack@.subrange(at as int, at + needle@.len()),
            forall|j: int| 0 <= j < i ==> window[j] == needle@[j],
        decreases needle@.len() - i,
    {
        if haystack[at + i] != needle[i] {
            assert(window[i as int] != needle@[i as int]);
            return false;
        }
        i += 1;
    }
    assert(window =~= needle@);
    true
}

/// Whether `needle` stands somewhere in `haystack`.
fn bytes_contain(needle: &[u8], haystack: &[u8]) -> (found: bool)
    ensures
        found == is_substring(needle@, haystack@),
{
    if needle.len() > haystack.len() {
        return false;
    }
    let last: usize = haystack.len() - needle.len();
    let mut at: usize = 0;
    loop
        invariant
            at <= last,
            last + needle@.len() == haystack@.len(),
            forall|k: int| 0 <= k < at ==> !occurs_at(needle@, haystack@, k),
        decreases last - at,
    {
        if bytes_occur_at(needle, haystack, at) {
            return true;
        }
        if at == last {
            return false;
        }
        at += 1;
    }
}

/// A text that stands in another also stands there once both are encoded.
proof fn lemma_substring_encodes(needle: Seq<char>, haystack: Seq<char>, at: int)
    requires
        occurs_at(needle, haystack, at),
    ensures
        occurs_at(
            encode_utf8(needle),
            encode_utf8(haystack),
            encode_utf8(haystack.take(at)).len() as int,
        ),
{
    let before = haystack.take(at);
    let after = haystack.skip(at + needle.len());
    assert(haystack =~= before + needle + after);
    lemma_encode_concat(before + needle, after);
    lemma_encode_concat(before, needle);
    let start = encode_utf8(before).len() as int;
    assert(encode_utf8(haystack).subrange(start, start + encode_utf8(needle).len())
        =~= encode_utf8(needle));
}

/// An encoded text that stands in the encoding of another stands in that
/// other text itself: an occurrence among the bytes begins and ends at
/// character boundaries.
proof fn lemma_substring_decodes(needle: Seq<char>, haystack: Seq<char>, at: int)
    requires
        occurs_at(encode_utf8(needle), encode_utf8(haystack), at),
    ensures
        is_substring(needle, haystack),
{
    broadcast use encode_utf8_valid_utf8, encode_utf8_decode_utf8;

    let small = encode_utf8(needle);
    let large = encode_utf8(haystack);
    if small.len() == 0 {
        assert(needle =~= decode_utf8(small));
        assert(haystack.subrange(0, 0) =~= needle);
        assert(occurs_at(needle, haystack, 0));
    } else {
        let n = large.len() as int;
        let m = small.len() as int;
        assert(large[at] == small[0]) by {
            assert(large.subrange(at, at + m)[0] == small[0]);
        }
        is_char_boundary_iff_not_is_continuation_byte(large, at);
        valid_utf8_split(large, at);
        decode_utf8_split(large, at);
        let tail = large.subrange(at, n);
        assert(small.is_prefix_of(tail)) by {
            assert(tail.subrange(0, m) =~= large.subrange(at, at + m));
        }
        lemma_valid_prefix_ends_at_boundary(tail, small);
        decode_utf8_split(tail, m);
        assert(tail.subrange(0, m) =~= small);
        let before = decode_utf8(large.subrange(0, at));
        let after = decode_utf8(tail.subrange(m, tail.len() as int));
        let start = before.len() as int;
        assert(haystack =~= before + needle + after);
        assert(haystack.subrange(start, start + needle.len()) =~= needle);
        assert(occurs_at(needle, haystack, start));
    }
}

/// Containment among characters and containment among their UTF-8 bytes are
/// the same thing.
pub proof fn lemma_substring_of_encoding(needle: Seq<char>, haystack: Seq<char>)
    ensures
        is_substring(encode_utf8(needle), encode_utf8(haystack)) <==> is_substring(
            needle,
            haystack,
        ),
{
    if is_substring(needle, haystack) {
        let at = choose|at: int| occurs_at(needle, haystack, at);
        lemma_substring_encodes(needle, haystack, at);
    }
    if is_substring(encode_utf8(needle), encode_utf8(haystack)) {
        let at = choose|at: int| occurs_at(encode_utf8(needle), encode_utf8(haystack), at);
        lemma_substring_decodes(needle, haystack, at);
    }
}

/// Whether `haystack` contains `needle` as a contiguous run of characters.
/// The empty needle is contained in every haystack.
pub fn contains(haystack: &str, needle: &str) -> (found: bool)
    ensures
        found == is_substring(needle@, haystack@),
{
    proof {
        lemma_substring_of_encoding(needle@, haystack@);
    }
    bytes_contain(needle.as_bytes(), haystack.as_bytes())
}

} // verus!
