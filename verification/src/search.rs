//! The two searches: the lines of a text that contain a query, as they stand
//! or after both have been put in lower case.

use vstd::prelude::*;
use vstd::string::*;
use crate::lines::{line_spans, lines_of, spanned};
use crate::text::{chars_of, contains, occurs_at, range_contains, str_contains, Span};

verus! {

/// The lower-case form of a string, as `str::to_lowercase` of the standard
/// library gives it.
pub uninterp spec fn lowercase_of(s: Seq<char>) -> Seq<char>;

/// Calls `str::to_lowercase`: the result is the lower-case form of `s`, which
/// depends on the characters of `s` alone.
#[verifier::external_body]
fn to_lowercase(s: &str) -> (lowered: String)
    ensures
        lowered@ == lowercase_of(s@),
{
    s.to_lowercase()
}

/// `line` contains `query`, character for character.
pub open spec fn matches_exactly(query: Seq<char>, line: Seq<char>) -> bool {
    contains(line, query)
}

/// `line` contains `query` once both are in lower case.
pub open spec fn matches_folded(query: Seq<char>, line: Seq<char>) -> bool {
    contains(lowercase_of(line), lowercase_of(query))
}

/// The lines of `content` that contain `query`, in the order of `content`.
pub open spec fn matching_lines(query: Seq<char>, content: Seq<char>) -> Seq<Seq<char>> {
    lines_of(content).filter(|line: Seq<char>| matches_exactly(query, line))
}

/// The lines of `content` that contain `query` without regard to case, in
/// the order of `content` and as they stand in it.
pub open spec fn matching_lines_folded(query: Seq<char>, content: Seq<char>) -> Seq<Seq<char>> {
    lines_of(content).filter(|line: Seq<char>| matches_folded(query, line))
}

/// The lines that a search for `query` in `content` finds, without regard to
/// case where `ignore_case` is set.
pub open spec fn selected_lines(query: Seq<char>, ignore_case: bool, content: Seq<char>) -> Seq<
    Seq<char>,
> {
    if ignore_case {
        matching_lines_folded(query, content)
    } else {
        matching_lines(query, content)
    }
}

/// The text of each of `lines`.
pub open spec fn line_views(lines: Seq<&str>) -> Seq<Seq<char>> {
    lines.map_values(|line: &str| line@)
}

/// Filtering the first `k + 1` items is filtering the first `k` and then
/// deciding on item `k`.
proof fn lemma_filter_take_next<A>(s: Seq<A>, pred: spec_fn(A) -> bool, k: int)
    requires
        0 <= k < s.len(),
    ensures
        s.take(k + 1).filter(pred) == if pred(s[k]) {
            s.take(k).filter(pred).push(s[k])
        } else {
            s.take(k).filter(pred)
        },
{
    reveal(Seq::filter);
    assert(s.take(k + 1).drop_last() =~= s.take(k));
}

/// The lines of `contents` that contain `query`, in order, each borrowed from
/// `contents`.
pub fn search<'a>(query: &str, contents: &'a str) -> (found: Vec<&'a str>)
    ensures
        line_views(found@) == matching_lines(query@, contents@),
{
    let wanted = chars_of(query);
    let text = chars_of(contents);
    let spans = line_spans(&text);
    let ghost lines = lines_of(contents@);
    let ghost pred = |line: Seq<char>| matches_exactly(query@, line);
    let mut found: Vec<&'a str> = Vec::new();
    let mut k: usize = 0;
    proof {
        reveal(Seq::filter);
        assert(lines.take(0).filter(pred) =~= line_views(found@));
    }
    while k < spans.len()
        invariant
            k <= spans.len(),
            text@ == contents@,
            wanted@ == query@,
            lines == lines_of(contents@),
            pred == |line: Seq<char>| matches_exactly(query@, line),
            forall|j: int| 0 <= j < spans.len() ==> (#[trigger] spans[j]).within(text@),
            spanned(text@, spans@) == lines,
            line_views(found@) == lines.take(k as int).filter(pred),
        decreases spans.len() - k,
    {
        let span: Span = spans[k];
        proof {
            assert(span.within(text@));
            assert(spanned(text@, spans@)[k as int] == span.of(text@));
            lemma_filter_take_next(lines, pred, k as int);
        }
        if range_contains(&text, span.start, span.end, &wanted) {
            let line = span.slice(contents);
            proof {
                assert(line_views(found@.push(line)) =~= line_views(found@).push(line@));
            }
            found.push(line);
        }
        k += 1;
    }
    proof {
        assert(lines.take(k as int) =~= lines);
    }
    found
}

/// The lines of `contents` that contain `query` once line and query are both
/// in lower case, in order, each borrowed from `contents` as it stands there.
pub fn search_case_insensitive<'a>(query: &str, contents: &'a str) -> (found: Vec<&'a str>)
    ensures
        line_views(found@) == matching_lines_folded(query@, contents@),
{
    let folded_query = to_lowercase(query);
    let text = chars_of(contents);
    let spans = line_spans(&text);
    let ghost lines = lines_of(contents@);
    let ghost pred = |line: Seq<char>| matches_folded(query@, line);
    let mut found: Vec<&'a str> = Vec::new();
    let mut k: usize = 0;
    proof {
        reveal(Seq::filter);
        assert(lines.take(0).filter(pred) =~= line_views(found@));
    }
    while k < spans.len()
        invariant
            k <= spans.len(),
            text@ == contents@,
            folded_query@ == lowercase_of(query@),
            lines == lines_of(contents@),
            pred == |line: Seq<char>| matches_folded(query@, line),
            forall|j: int| 0 <= j < spans.len() ==> (#[trigger] spans[j]).within(text@),
            spanned(text@, spans@) == lines,
            line_views(found@) == lines.take(k as int).filter(pred),
        decreases spans.len() - k,
    {
        let span: Span = spans[k];
        proof {
            assert(span.within(text@));
            assert(spanned(text@, spans@)[k as int] == span.of(text@));
            lemma_filter_take_next(lines, pred, k as int);
        }
        let line = span.slice(contents);
        let folded_line = to_lowercase(line);
        if str_contains(folded_line.as_str(), folded_query.as_str()) {
            proof {
                assert(line_views(found@.push(line)) =~= line_views(found@).push(line@));
            }
            found.push(line);
        }
        k += 1;
    }
    proof {
        assert(lines.take(k as int) =~= lines);
    }
    found
}

/// The positions in `all` of the items that meet `pred`, in ascending order:
/// `all.filter(pred)` holds the items at exactly these positions, in this
/// order.
pub proof fn lemma_filter_positions<A>(all: Seq<A>, pred: spec_fn(A) -> bool) -> (positions: Seq<
    int,
>)
    ensures
        positions.len() == all.filter(pred).len(),
        forall|k: int|
            0 <= k < positions.len() ==> 0 <= #[trigger] positions[k] < all.len()
                && all.filter(pred)[k] == all[positions[k]],
        forall|j: int, k: int|
            0 <= j < k < positions.len() ==> #[trigger] positions[j] < #[trigger] positions[k],
        forall|p: int| 0 <= p < all.len() ==> (pred(#[trigger] all[p]) <==> positions.contains(p)),
    decreases all.len(),
{
    reveal(Seq::filter);
    if all.len() == 0 {
        Seq::empty()
    } else {
        let init = all.drop_last();
        let last = all.len() - 1;
        let before = lemma_filter_positions(init, pred);
        let positions = if pred(all[last]) {
            before.push(last)
        } else {
            before
        };
        assert forall|p: int| 0 <= p < all.len() implies (pred(#[trigger] all[p])
            <==> positions.contains(p)) by {
            if p < last {
                assert(all[p] == init[p]);
                if before.contains(p) {
                    let k = choose|k: int| 0 <= k < before.len() && before[k] == p;
                    assert(positions[k] == p);
                }
                if positions.contains(p) {
                    let k = choose|k: int| 0 <= k < positions.len() && positions[k] == p;
                    assert(before[k] == p);
                }
            } else {
                if pred(all[last]) {
                    assert(positions[positions.len() - 1] == last);
                }
                if positions.contains(p) {
                    let k = choose|k: int| 0 <= k < positions.len() && positions[k] == p;
                    assert(k == before.len());
                }
            }
        }
        positions
    }
}

/// Where every item meets `pred`, the filter keeps them all.
pub proof fn lemma_filter_keeps_all<A>(all: Seq<A>, pred: spec_fn(A) -> bool)
    requires
        forall|p: int| 0 <= p < all.len() ==> pred(#[trigger] all[p]),
    ensures
        all.filter(pred) == all,
    decreases all.len(),
{
    reveal(Seq::filter);
    if all.len() > 0 {
        lemma_filter_keeps_all(all.drop_last(), pred);
        assert(all.drop_last().push(all.last()) =~= all);
    } else {
        assert(all.filter(pred) =~= all);
    }
}

/// Where every item that meets `narrow` meets `wide`, what `narrow` keeps is
/// what it keeps of the items that `wide` keeps.
pub proof fn lemma_filter_narrows<A>(
    all: Seq<A>,
    narrow: spec_fn(A) -> bool,
    wide: spec_fn(A) -> bool,
)
    requires
        forall|p: int| 0 <= p < all.len() ==> (narrow(#[trigger] all[p]) ==> wide(all[p])),
    ensures
        all.filter(narrow) == all.filter(wide).filter(narrow),
        all.filter(narrow).len() <= all.filter(wide).len(),
    decreases all.len(),
{
    reveal(Seq::filter);
    if all.len() > 0 {
        let init = all.drop_last();
        lemma_filter_narrows(init, narrow, wide);
        if wide(all.last()) {
            assert(init.filter(wide).push(all.last()).drop_last() =~= init.filter(wide));
        }
    }
}

/// A search keeps lines of the content, in the order of the content, and
/// keeps exactly those that contain the query: the positions returned are
/// those of the lines found.
pub proof fn search_finds_the_containing_lines(query: Seq<char>, content: Seq<char>) -> (positions:
    Seq<int>)
    ensures
        positions.len() == matching_lines(query, content).len(),
        forall|k: int|
            0 <= k < positions.len() ==> 0 <= #[trigger] positions[k] < lines_of(content).len()
                && matching_lines(query, content)[k] == lines_of(content)[positions[k]],
        forall|j: int, k: int|
            0 <= j < k < positions.len() ==> #[trigger] positions[j] < #[trigger] positions[k],
        forall|p: int|
            0 <= p < lines_of(content).len() ==> (contains(#[trigger] lines_of(content)[p], query)
                <==> positions.contains(p)),
{
    lemma_filter_positions(lines_of(content), |line: Seq<char>| matches_exactly(query, line))
}

/// The search without regard to case finds every line that the exact search
/// finds, at least as many and in the same order, for a query and a content
/// in which each line that contains the query still contains it once both
/// are in lower case.
pub proof fn folded_search_finds_no_less(query: Seq<char>, content: Seq<char>)
    requires
        forall|p: int|
            0 <= p < lines_of(content).len() ==> (matches_exactly(
                query,
                #[trigger] lines_of(content)[p],
            ) ==> matches_folded(query, lines_of(content)[p])),
    ensures
        matching_lines(query, content).len() <= matching_lines_folded(query, content).len(),
        matching_lines(query, content) == matching_lines_folded(query, content).filter(
            |line: Seq<char>| matches_exactly(query, line),
        ),
{
    lemma_filter_narrows(
        lines_of(content),
        |line: Seq<char>| matches_exactly(query, line),
        |line: Seq<char>| matches_folded(query, line),
    );
}

/// Two searches for the same query in the same content find the same lines:
/// what is found depends on nothing else.
pub proof fn search_is_repeatable(
    query: Seq<char>,
    content: Seq<char>,
    ignore_case: bool,
    first: Seq<&str>,
    second: Seq<&str>,
)
    requires
        line_views(first) == selected_lines(query, ignore_case, content),
        line_views(second) == selected_lines(query, ignore_case, content),
    ensures
        first.len() == second.len(),
        forall|k: int| 0 <= k < first.len() ==> (#[trigger] first[k])@ == second[k]@,
{
    assert(line_views(first).len() == first.len());
    assert(line_views(second).len() == second.len());
    assert forall|k: int| 0 <= k < first.len() implies (#[trigger] first[k])@ == second[k]@ by {
        assert(line_views(first)[k] == line_views(second)[k]);
    }
}

/// The empty query is found in every line.
pub proof fn empty_query_finds_every_line(content: Seq<char>)
    ensures
        matching_lines(Seq::empty(), content) == lines_of(content),
{
    let lines = lines_of(content);
    let pred = |line: Seq<char>| matches_exactly(Seq::empty(), line);
    assert forall|p: int| 0 <= p < lines.len() implies pred(#[trigger] lines[p]) by {
        assert(lines[p].subrange(0, 0) =~= Seq::<char>::empty());
        assert(occurs_at(lines[p], Seq::empty(), 0));
    }
    lemma_filter_keeps_all(lines, pred);
}

} // verus!
