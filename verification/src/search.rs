//! Searching the lines of a text for a query.

use crate::lines::{after_first_line, first_line, lines, split_first_line};
use crate::substring::{contains, is_substring, occurs_at};
use vstd::prelude::*;
use vstd::string::StringExecFns;

verus! {

/// The lowercase form of one character, as `char::to_lowercase` of the
/// standard library gives it: one character or several. Nothing is stated of
/// it but that it depends on the character alone.
pub uninterp spec fn lowercase_of_char(c: char) -> Seq<char>;

/// The lowercase form of `text`: the lowercase forms of its characters, one
/// after the other. Each character is folded by itself, whatever stands
/// around it.
pub open spec fn lowercase(text: Seq<char>) -> Seq<char>
    decreases text.len(),
{
    if text.len() == 0 {
        Seq::empty()
    } else {
        lowercase(text.drop_last()) + lowercase_of_char(text.last())
    }
}

/// The texts of a list of string slices.
pub open spec fn texts(slices: Seq<&str>) -> Seq<Seq<char>> {
    slices.map_values(|slice: &str| slice@)
}

/// The test that a search applies to each line: the line contains `needle`,
/// the line itself where `fold` is false, its lowercase form where it is
/// true.
pub open spec fn line_test(needle: Seq<char>, fold: bool) -> spec_fn(Seq<char>) -> bool {
    |line: Seq<char>| is_substring(needle, if fold { lowercase(line) } else { line })
}

/// The lines of `contents` that contain `query`, in their order.
pub open spec fn matching_lines(query: Seq<char>, contents: Seq<char>) -> Seq<Seq<char>> {
    lines(contents).filter(line_test(query, false))
}

/// The lines of `contents` whose lowercase form contains the lowercase form
/// of `query`, in their order and as they stand in `contents`.
pub open spec fn matching_lines_ignoring_case(query: Seq<char>, contents: Seq<char>) -> Seq<
    Seq<char>,
> {
    lines(contents).filter(line_test(lowercase(query), true))
}

/// What a search for `query` in `contents` finds, with or without regard to
/// case.
pub open spec fn lines_found(query: Seq<char>, contents: Seq<char>, ignore_case: bool) -> Seq<
    Seq<char>,
> {
    if ignore_case {
        matching_lines_ignoring_case(query, contents)
    } else {
        matching_lines(query, contents)
    }
}

/// `part` is what stands in `whole` at the positions `at`, and those
/// positions rise.
pub open spec fn stands_at<T>(part: Seq<T>, whole: Seq<T>, at: Seq<int>) -> bool {
    &&& at.len() == part.len()
    &&& forall|i: int|
        0 <= i < at.len() ==> 0 <= #[trigger] at[i] < whole.len() && whole[at[i]] == part[i]
    &&& forall|i: int, j: int| 0 <= i < j < at.len() ==> #[trigger] at[i] < #[trigger] at[j]
}

/// `part` holds the items of `whole` that pass `test`, each as often as it
/// passes and all in the order of `whole`: it is what stands at rising
/// positions of `whole`, and a position is among them exactly when the item
/// there passes.
pub open spec fn selects<T>(part: Seq<T>, whole: Seq<T>, test: spec_fn(T) -> bool) -> bool {
    exists|at: Seq<int>|
        {
            &&& #[trigger] stands_at(part, whole, at)
            &&& forall|p: int|
                0 <= p < whole.len() ==> (at.contains(p) <==> test(#[trigger] whole[p]))
        }
}

/// Calls `char::to_lowercase` of the standard library and collects the
/// characters that it yields. The result is a function of the character
/// alone, which the contract names `lowercase_of_char`; what the lowercase
/// form of a given character is, is not stated and not proved.
#[verifier::external_body]
fn lower_char(c: char) -> (lowered: String)
    ensures
        lowered@ == lowercase_of_char(c),
{
    c.to_lowercase().collect()
}

/// The lowercase form of `text`, folded character by character.
fn to_lowercase(text: &str) -> (lowered: String)
    ensures
        lowered@ == lowercase(text@),
{
    let mut lowered = String::new();
    for c in walk: text.chars()
        invariant
            walk.seq() == text@,
            lowered@ == lowercase(text@.take(walk.index() as int)),
    {
        let ghost done = text@.take(walk.index() as int);
        let piece = lower_char(c);
        lowered.append(piece.as_str());
        proof {
            let next = text@.take(walk.index() + 1);
            assert(next.drop_last() =~= done);
            assert(next.last() == c);
        }
    }
    assert(text@.take(text@.len() as int) =~= text@);
    lowered
}

/// A text with at least one character is longer than what follows its first
/// line, and its lines are its first line and the lines of what follows.
proof fn lemma_lines_unfold(text: Seq<char>)
    requires
        text.len() > 0,
    ensures
        after_first_line(text).len() < text.len(),
        lines(text) == seq![first_line(text)] + lines(after_first_line(text)),
{
    text.index_of_first_ensures('\n');
}

/// The lines of `contents` that pass `line_test(needle, fold)`, as slices
/// of `contents`.
fn select_lines<'a>(needle: &str, contents: &'a str, fold: bool) -> (found: Vec<&'a str>)
    ensures
        texts(found@) == lines(contents@).filter(line_test(needle@, fold)),
{
    let ghost test = line_test(needle@, fold);
    let ghost mut seen: Seq<Seq<char>> = Seq::empty();
    let mut found: Vec<&'a str> = Vec::new();
    let mut rest: &'a str = contents;
    assert(seen + lines(rest@) =~= lines(contents@));
    assert(texts(found@) =~= seen.filter(test)) by {
        reveal(Seq::filter);
    }
    while !rest.is_empty()
        invariant
            test == line_test(needle@, fold),
            lines(contents@) == seen + lines(rest@),
            texts(found@) == seen.filter(test),
        decreases rest@.len(),
    {
        let (line, tail) = split_first_line(rest);
        let folded: String;
        let passes = if fold {
            folded = to_lowercase(line);
            contains(folded.as_str(), needle)
        } else {
            contains(line, needle)
        };
        assert(passes == test(line@));
        proof {
            lemma_lines_unfold(rest@);
            seen.lemma_filter_push(line@, test);
            assert(seen.push(line@) + lines(tail@) =~= seen + lines(rest@));
        }
        if passes {
            found.push(line);
            assert(texts(found@) =~= seen.filter(test).push(line@));
        }
        proof {
            seen = seen.push(line@);
        }
        rest = tail;
    }
    assert(seen + lines(rest@) =~= seen);
    found
}

/// The lines of `contents` that contain `query`, in the order in which they
/// stand there. Each is a slice of `contents`. The empty query is contained
/// in every line.
pub fn search<'a>(query: &str, contents: &'a str) -> (found: Vec<&'a str>)
    ensures
        texts(found@) == matching_lines(query@, contents@),
{
    select_lines(query, contents, false)
}

/// The lines of `contents` whose lowercase form contains the lowercase form
/// of `query`, in the order in which they stand there. Each is a slice of
/// `contents`, in its own case. Query and lines are lowercased character by
/// character: what a character becomes does not depend on its neighbours.
pub fn search_case_insensitive<'a>(query: &str, contents: &'a str) -> (found: Vec<&'a str>)
    ensures
        texts(found@) == matching_lines_ignoring_case(query@, contents@),
{
    let needle = to_lowercase(query);
    select_lines(needle.as_str(), contents, true)
}

/// Filtering keeps exactly the items that pass the test, in their order.
pub proof fn lemma_filter_selects<T>(whole: Seq<T>, test: spec_fn(T) -> bool)
    ensures
        selects(whole.filter(test), whole, test),
    decreases whole.len(),
{
    reveal(Seq::filter);
    let part = whole.filter(test);
    if whole.len() == 0 {
        let at = Seq::<int>::empty();
        assert(stands_at(part, whole, at));
    } else {
        let shorter = whole.drop_last();
        let last = whole.len() - 1;
        lemma_filter_selects(shorter, test);
        let before = choose|at: Seq<int>|
            {
                &&& #[trigger] stands_at(shorter.filter(test), shorter, at)
                &&& forall|p: int|
                    0 <= p < shorter.len() ==> (at.contains(p) <==> test(#[trigger] shorter[p]))
            };
        let at = if test(whole.last()) {
            before.push(last)
        } else {
            before
        };
        assert forall|i: int| 0 <= i < at.len() implies 0 <= #[trigger] at[i] < whole.len()
            && whole[at[i]] == part[i] by {
            if i < before.len() {
                assert(0 <= before[i] < shorter.len());
                assert(shorter[before[i]] == whole[before[i]]);
            }
        }
        assert forall|i: int, j: int| 0 <= i < j < at.len() implies #[trigger] at[i]
            < #[trigger] at[j] by {
            assert(0 <= before[i] < shorter.len());
        }
        assert(stands_at(part, whole, at));
        assert forall|p: int| 0 <= p < whole.len() implies (at.contains(p) <==> test(
            #[trigger] whole[p],
        )) by {
            if p < last {
                assert(shorter[p] == whole[p]);
                if before.contains(p) {
                    let i = choose|i: int| 0 <= i < before.len() && before[i] == p;
                    assert(at[i] == p);
                }
                if at.contains(p) {
                    let i = choose|i: int| 0 <= i < at.len() && at[i] == p;
                    assert(before[i] == p);
                }
            } else {
                if test(whole.last()) {
                    assert(at[at.len() - 1] == p);
                }
                if at.contains(p) {
                    let i = choose|i: int| 0 <= i < at.len() && at[i] == p;
                    if i < before.len() {
                        assert(0 <= before[i] < shorter.len());
                    }
                }
            }
        }
    }
}

/// Every line that a case-sensitive search finds contains the query as it
/// is written, and the lines found are those lines of the contents that
/// contain it, none left out and in the order of the contents.
pub proof fn lemma_search_finds_matches_in_order(query: Seq<char>, contents: Seq<char>)
    ensures
        forall|i: int|
            0 <= i < matching_lines(query, contents).len() ==> is_substring(
                query,
                #[trigger] matching_lines(query, contents)[i],
            ),
        selects(matching_lines(query, contents), lines(contents), line_test(query, false)),
        matching_lines(query, contents).len() <= lines(contents).len(),
{
    let test = line_test(query, false);
    lemma_filter_selects(lines(contents), test);
    lines(contents).lemma_filter_len(test);
    assert forall|i: int| 0 <= i < matching_lines(query, contents).len() implies is_substring(
        query,
        #[trigger] matching_lines(query, contents)[i],
    ) by {
        lines(contents).lemma_filter_pred(test, i);
    }
}

/// Every line that a search ignoring case finds contains the query once both
/// are lowercased, and the lines found are those lines of the contents of
/// which this holds, none left out and in the order of the contents: a line
/// is found if and only if its lowercase form contains the lowercase form of
/// the query.
pub proof fn lemma_search_ignoring_case_finds_matches_in_order(
    query: Seq<char>,
    contents: Seq<char>,
)
    ensures
        forall|i: int|
            0 <= i < matching_lines_ignoring_case(query, contents).len() ==> is_substring(
                lowercase(query),
                lowercase(#[trigger] matching_lines_ignoring_case(query, contents)[i]),
            ),
        selects(
            matching_lines_ignoring_case(query, contents),
            lines(contents),
            line_test(lowercase(query), true),
        ),
        matching_lines_ignoring_case(query, contents).len() <= lines(contents).len(),
{
    let test = line_test(lowercase(query), true);
    lemma_filter_selects(lines(contents), test);
    lines(contents).lemma_filter_len(test);
    assert forall|i: int|
        0 <= i < matching_lines_ignoring_case(query, contents).len() implies is_substring(
        lowercase(query),
        lowercase(#[trigger] matching_lines_ignoring_case(query, contents)[i]),
    ) by {
        lines(contents).lemma_filter_pred(test, i);
    }
}

/// A sequence all of whose items pass a test is its own filtering.
proof fn lemma_filter_keeps_all<T>(whole: Seq<T>, test: spec_fn(T) -> bool)
    requires
        forall|i: int| 0 <= i < whole.len() ==> test(#[trigger] whole[i]),
    ensures
        whole.filter(test) == whole,
    decreases whole.len(),
{
    reveal(Seq::filter);
    if whole.len() > 0 {
        let shorter = whole.drop_last();
        assert forall|i: int| 0 <= i < shorter.len() implies test(#[trigger] shorter[i]) by {
            assert(shorter[i] == whole[i]);
        }
        lemma_filter_keeps_all(shorter, test);
        assert(shorter.push(whole.last()) =~= whole);
    }
}

/// A case-sensitive search for the empty query finds every line of the
/// contents, unchanged and in order.
pub proof fn lemma_empty_query_finds_every_line(contents: Seq<char>)
    ensures
        matching_lines(Seq::empty(), contents) == lines(contents),
{
    let nothing = Seq::<char>::empty();
    let test = line_test(nothing, false);
    assert forall|i: int| 0 <= i < lines(contents).len() implies test(
        #[trigger] lines(contents)[i],
    ) by {
        let line = lines(contents)[i];
        assert(line.subrange(0, 0) =~= nothing);
        assert(occurs_at(nothing, line, 0));
    }
    lemma_filter_keeps_all(lines(contents), test);
}

/// The lowercase form of a text in two parts is the lowercase form of the
/// first part followed by that of the second.
pub proof fn lemma_lowercase_concat(left: Seq<char>, right: Seq<char>)
    ensures
        lowercase(left + right) == lowercase(left) + lowercase(right),
    decreases right.len(),
{
    if right.len() == 0 {
        assert(left + right =~= left);
        assert(lowercase(left) + lowercase(right) =~= lowercase(left));
    } else {
        let whole = left + right;
        assert(whole.drop_last() =~= left + right.drop_last());
        assert(whole.last() == right.last());
        lemma_lowercase_concat(left, right.drop_last());
        assert(lowercase(whole) =~= lowercase(left) + lowercase(right));
    }
}

/// A text that stands in another still stands in it once both are
/// lowercased.
pub proof fn lemma_lowercase_keeps_substring(needle: Seq<char>, haystack: Seq<char>)
    requires
        is_substring(needle, haystack),
    ensures
        is_substring(lowercase(needle), lowercase(haystack)),
{
    let at = choose|at: int| occurs_at(needle, haystack, at);
    let before = haystack.take(at);
    let after = haystack.skip(at + needle.len());
    assert(haystack =~= before + needle + after);
    lemma_lowercase_concat(before + needle, after);
    lemma_lowercase_concat(before, needle);
    let start = lowercase(before).len() as int;
    assert(lowercase(haystack).subrange(start, start + lowercase(needle).len()) =~= lowercase(
        needle,
    ));
    assert(occurs_at(lowercase(needle), lowercase(haystack), start));
}

/// Every line that contains the query as it is written passes the test of
/// the search ignoring case: what a case-sensitive search finds, a search
/// ignoring case finds too.
pub proof fn lemma_exact_matches_are_found_ignoring_case(query: Seq<char>, contents: Seq<char>)
    ensures
        forall|p: int|
            0 <= p < lines(contents).len() && line_test(query, false)(
                #[trigger] lines(contents)[p],
            ) ==> line_test(lowercase(query), true)(lines(contents)[p]),
{
    assert forall|p: int|
        0 <= p < lines(contents).len() && line_test(query, false)(
            #[trigger] lines(contents)[p],
        ) implies line_test(lowercase(query), true)(lines(contents)[p]) by {
        lemma_lowercase_keeps_substring(query, lines(contents)[p]);
    }
}

/// A search ignoring case for the empty query finds every line of the
/// contents, unchanged and in order.
pub proof fn lemma_empty_query_finds_every_line_ignoring_case(contents: Seq<char>)
    ensures
        matching_lines_ignoring_case(Seq::empty(), contents) == lines(contents),
{
    let nothing = Seq::<char>::empty();
    let test = line_test(lowercase(nothing), true);
    assert(lowercase(nothing) =~= nothing);
    assert forall|i: int| 0 <= i < lines(contents).len() implies test(
        #[trigger] lines(contents)[i],
    ) by {
        let folded = lowercase(lines(contents)[i]);
        assert(folded.subrange(0, 0) =~= nothing);
        assert(occurs_at(nothing, folded, 0));
    }
    lemma_filter_keeps_all(lines(contents), test);
}

/// Searching twice for the same query in the same contents, in the same
/// mode, finds the same lines in the same order.
pub proof fn lemma_search_repeats(
    query: Seq<char>,
    contents: Seq<char>,
    ignore_case: bool,
    first: Seq<&str>,
    second: Seq<&str>,
)
    requires
        texts(first) == lines_found(query, contents, ignore_case),
        texts(second) == lines_found(query, contents, ignore_case),
    ensures
        first.len() == second.len(),
        forall|i: int| 0 <= i < first.len() ==> first[i]@ == second[i]@,
{
    assert(texts(first).len() == first.len());
    assert(texts(second).len() == second.len());
    assert forall|i: int| 0 <= i < first.len() implies first[i]@ == second[i]@ by {
        assert(texts(first)[i] == first[i]@);
        assert(texts(second)[i] == second[i]@);
    }
}

} // verus!
