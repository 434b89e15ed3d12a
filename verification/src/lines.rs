//! The lines of a text. A line ends at a line feed, or at the end of the
//! text; a carriage return directly before the line feed belongs to the line
//! break. A text that ends in a line break has no empty last line.

use vstd::prelude::*;
use crate::text::{
    first_index_of, lemma_first_index_of_is, lemma_utf8_len_take, utf8_len, utf8_width, Span,
};

verus! {

/// `line` without the carriage return at its end, if it has one.
pub open spec fn without_cr(line: Seq<char>) -> Seq<char> {
    if line.len() > 0 && line.last() == '\r' {
        line.drop_last()
    } else {
        line
    }
}

/// The lines of `text`, in order, without their line breaks.
pub open spec fn lines_of(text: Seq<char>) -> Seq<Seq<char>>
    decreases text.len(),
{
    if text.len() == 0 {
        Seq::empty()
    } else {
        let stop = first_index_of(text, '\n');
        if stop >= text.len() {
            seq![text]
        } else {
            seq![without_cr(text.take(stop as int))] + lines_of(text.skip(stop as int + 1))
        }
    }
}

/// The parts of `text` that `spans` cover, in the order of `spans`.
pub open spec fn spanned(text: Seq<char>, spans: Seq<Span>) -> Seq<Seq<char>> {
    spans.map_values(|span: Span| span.of(text))
}

/// The ranges of the lines of `text`, in order.
pub fn line_spans(text: &Vec<char>) -> (spans: Vec<Span>)
    requires
        utf8_len(text@) <= usize::MAX,
    ensures
        forall|k: int| 0 <= k < spans.len() ==> (#[trigger] spans[k]).within(text@),
        spanned(text@, spans@) == lines_of(text@),
{
    let n = text.len();
    let mut spans: Vec<Span> = Vec::new();
    let mut start: usize = 0;
    let mut byte_start: usize = 0;
    let mut offset: usize = 0;
    let mut i: usize = 0;
    proof {
        assert(text@.skip(0) =~= text@);
        assert(spanned(text@, spans@) + lines_of(text@) =~= lines_of(text@));
    }
    while i < n
        invariant
            n == text.len(),
            start <= i <= n,
            utf8_len(text@) <= usize::MAX,
            offset == utf8_len(text@.take(i as int)),
            byte_start == utf8_len(text@.take(start as int)),
            forall|j: int| start <= j < i ==> text[j] != '\n',
            forall|k: int| 0 <= k < spans.len() ==> (#[trigger] spans[k]).within(text@),
            lines_of(text@) == spanned(text@, spans@) + lines_of(text@.skip(start as int)),
        decreases n - i,
    {
        let c = text[i];
        if c == '\n' {
            let span = if i > start && text[i - 1] == '\r' {
                proof {
                    lemma_utf8_len_take(text@, i as int);
                }
                Span { start, end: i - 1, byte_start, byte_end: offset - utf8_width('\r') }
            } else {
                Span { start, end: i, byte_start, byte_end: offset }
            };
            proof {
                let rest = text@.skip(start as int);
                let raw = text@.subrange(start as int, i as int);
                lemma_first_index_of_is(rest, '\n', i - start);
                assert(rest.take(i - start) =~= raw);
                assert(rest.skip(i - start + 1) =~= text@.skip(i + 1));
                assert(span.of(text@) =~= without_cr(raw));
                assert(spanned(text@, spans@.push(span)) =~= spanned(text@, spans@) + seq![
                    span.of(text@),
                ]);
                assert(lines_of(text@) =~= spanned(text@, spans@.push(span)) + lines_of(
                    text@.skip(i + 1),
                ));
            }
            spans.push(span);
        }
        proof {
            lemma_utf8_len_take(text@, i + 1);
        }
        offset += utf8_width(c);
        i += 1;
        if c == '\n' {
            start = i;
            byte_start = offset;
        }
    }
    if start < n {
        let span = Span { start, end: n, byte_start, byte_end: offset };
        proof {
            let rest = text@.skip(start as int);
            lemma_first_index_of_is(rest, '\n', n - start);
            assert(span.of(text@) =~= rest);
            assert(spanned(text@, spans@.push(span)) =~= spanned(text@, spans@) + seq![rest]);
        }
        spans.push(span);
    } else {
        proof {
            assert(spanned(text@, spans@) + lines_of(text@.skip(start as int)) =~= spanned(
                text@,
                spans@,
            ));
        }
    }
    spans
}

} // verus!
