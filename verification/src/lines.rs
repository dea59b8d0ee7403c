//! The lines of a text.
//!
//! A line ends at a line feed, or at the end of the text. The line feed is
//! not part of the line, and neither is a carriage return that stands
//! directly before it. A text that ends with a line feed has no further,
//! empty line after it.

use crate::encoding::{lemma_ascii_absent, lemma_ascii_last, lemma_decode_around_ascii};
use crate::substring::{is_substring, occurs_at};
use vstd::prelude::*;
use vstd::string::StringSliceAdditionalSpecFns;
use vstd::utf8::*;

verus! {

/// `line` without the carriage return at its end, if it has one.
pub open spec fn without_carriage_return(line: Seq<char>) -> Seq<char> {
    if line.len() > 0 && line.last() == '\r' {
        line.drop_last()
    } else {
        line
    }
}

/// The first line of `text`: what stands before the first line feed, less a
/// carriage return at its end; the whole text where it has no line feed.
pub open spec fn first_line(text: Seq<char>) -> Seq<char> {
    match text.index_of_first('\n') {
        Some(at) => without_carriage_return(text.take(at)),
        None => text,
    }
}

/// What follows the first line feed of `text`; nothing where it has none.
pub open spec fn after_first_line(text: Seq<char>) -> Seq<char> {
    match text.index_of_first('\n') {
        Some(at) => text.skip(at + 1),
        None => Seq::empty(),
    }
}

/// The lines of `text`, in order. The empty text has no lines.
pub open spec fn lines(text: Seq<char>) -> Seq<Seq<char>>
    decreases text.len(),
    via lines_terminates
{
    if text.len() == 0 {
        Seq::empty()
    } else {
        seq![first_line(text)] + lines(after_first_line(text))
    }
}

#[via_fn]
proof fn lines_terminates(text: Seq<char>) {
    text.index_of_first_ensures('\n');
}

/// Every line of a text stands in that text as a contiguous run of its
/// characters, and holds no line feed.
pub proof fn lemma_line_is_slice_of_text(text: Seq<char>, i: int)
    requires
        0 <= i < lines(text).len(),
    ensures
        is_substring(lines(text)[i], text),
        !lines(text)[i].contains('\n'),
    decreases text.len(),
{
    text.index_of_first_ensures('\n');
    let line = lines(text)[i];
    if i == 0 {
        assert(line == first_line(text));
        assert(text.subrange(0, line.len() as int) =~= line);
        assert(occurs_at(line, text, 0));
        if line.contains('\n') {
            let j = choose|j: int| 0 <= j < line.len() && line[j] == '\n';
            assert(text[j] == '\n');
            assert(text.contains('\n'));
        }
    } else {
        let rest = after_first_line(text);
        let skipped = text.len() - rest.len();
        assert(line == lines(rest)[i - 1]);
        lemma_line_is_slice_of_text(rest, i - 1);
        let at = choose|at: int| occurs_at(line, rest, at);
        assert(text.subrange(skipped + at, skipped + at + line.len()) =~= rest.subrange(
            at,
            at + line.len(),
        ));
        assert(occurs_at(line, text, skipped + at));
    }
}

/// The first line feed of `text` is where `head` ends, given that `text` is
/// `head`, a line feed and `rest`, and that `head` holds no line feed.
proof fn lemma_first_line_feed(text: Seq<char>, head: Seq<char>, rest: Seq<char>)
    requires
        text == head.push('\n') + rest,
        !head.contains('\n'),
    ensures
        text.index_of_first('\n') == Some(head.len() as int),
        text.take(head.len() as int) == head,
        text.skip(head.len() as int + 1) == rest,
{
    let at = head.len() as int;
    text.index_of_first_ensures('\n');
    assert(text[at] == '\n');
    assert(text.contains('\n'));
    let first = text.index_of_first('\n').unwrap();
    if first < at {
        assert(head[first] == text[first]);
        assert(head.contains('\n'));
    }
    assert(text.take(at) =~= head);
    assert(text.skip(at + 1) =~= rest);
}

/// Splits `text` at its first line feed into its first line and what
/// follows that line. Both parts are slices of `text`.
pub fn split_first_line<'a>(text: &'a str) -> (parts: (&'a str, &'a str))
    ensures
        parts.0@ == first_line(text@),
        parts.1@ == after_first_line(text@),
{
    broadcast use encode_utf8_valid_utf8, encode_utf8_decode_utf8, decode_utf8_encode_utf8;

    let bytes = text.as_bytes();
    let n = bytes.len();
    let mut end: usize = 0;
    while end < n && bytes[end] != 0x0a
        invariant
            end <= n == bytes@.len(),
            forall|j: int| 0 <= j < end ==> bytes@[j] != 0x0a,
        decreases n - end,
    {
        end += 1;
    }
    if end == n {
        proof {
            lemma_ascii_absent(text@, '\n');
            text@.index_of_first_ensures('\n');
            is_char_boundary_start_end_of_seq(bytes@);
        }
        let (_, nothing) = text.split_at(n);
        assert(nothing@ =~= decode_utf8(nothing.spec_bytes()));
        return (text, nothing);
    }
    proof {
        lemma_decode_around_ascii(bytes@, end as int);
    }
    let (head, _) = text.split_at(end);
    let (_, rest) = text.split_at(end + 1);
    proof {
        assert(head@ == decode_utf8(bytes@.subrange(0, end as int)));
        assert(rest@ == decode_utf8(bytes@.subrange(end + 1, n as int)));
        assert(!head.spec_bytes().contains(0x0au8));
        lemma_ascii_absent(head@, '\n');
        lemma_first_line_feed(text@, head@, rest@);
        lemma_ascii_last(head@, '\r');
    }
    if end > 0 && bytes[end - 1] == 0x0d {
        proof {
            lemma_decode_around_ascii(head.spec_bytes(), end - 1);
        }
        let (line, _) = head.split_at(end - 1);
        assert(line@ == decode_utf8(head.spec_bytes().drop_last()));
        (line, rest)
    } else {
        (head, rest)
    }
}

} // verus!
