//! Strings as sequences of characters: the characters of a `&str`, ranges of
//! them with their place among the bytes of the string, and the search for
//! one sequence inside another.

use vstd::prelude::*;
use vstd::string::*;
use vstd::utf8::*;

verus! {

/// `needle` stands in `hay` at position `at`.
pub open spec fn occurs_at(hay: Seq<char>, needle: Seq<char>, at: int) -> bool {
    &&& 0 <= at
    &&& at + needle.len() <= hay.len()
    &&& hay.subrange(at, at + needle.len()) == needle
}

/// `needle` is a contiguous part of `hay`.
pub open spec fn contains(hay: Seq<char>, needle: Seq<char>) -> bool {
    exists|at: int| occurs_at(hay, needle, at)
}

/// The position of the first `c` in `s`, or the length of `s` where it holds none.
pub open spec fn first_index_of(s: Seq<char>, c: char) -> nat
    decreases s.len(),
{
    if s.len() == 0 || s[0] == c {
        0
    } else {
        1 + first_index_of(s.drop_first(), c)
    }
}

/// What `first_index_of` finds is in range, nothing before it is `c`, and a
/// position inside `s` holds `c`.
pub proof fn lemma_first_index_of(s: Seq<char>, c: char)
    ensures
        first_index_of(s, c) <= s.len(),
        forall|i: int| 0 <= i < first_index_of(s, c) ==> s[i] != c,
        first_index_of(s, c) < s.len() ==> s[first_index_of(s, c) as int] == c,
    decreases s.len(),
{
    if s.len() != 0 && s[0] != c {
        let rest = s.drop_first();
        lemma_first_index_of(rest, c);
        assert forall|i: int| 0 <= i < first_index_of(s, c) implies s[i] != c by {
            if i > 0 {
                assert(s[i] == rest[i - 1]);
            }
        }
    }
}

/// A position `at` with no `c` before it, which holds `c` or is the end of
/// `s`, is the one that `first_index_of` finds.
pub proof fn lemma_first_index_of_is(s: Seq<char>, c: char, at: int)
    requires
        0 <= at <= s.len(),
        forall|i: int| 0 <= i < at ==> s[i] != c,
        at < s.len() ==> s[at] == c,
    ensures
        first_index_of(s, c) == at,
{
    lemma_first_index_of(s, c);
    let found = first_index_of(s, c) as int;
    if found < at {
        assert(s[found] == c);
    } else if at < found {
        assert(s[at] != c);
    }
}

/// The number of bytes that `s` takes in UTF-8.
pub open spec fn utf8_len(s: Seq<char>) -> nat {
    encode_utf8(s).len()
}

/// The encoding of two sequences joined is the two encodings joined.
pub proof fn lemma_encode_joined(a: Seq<char>, b: Seq<char>)
    ensures
        encode_utf8(a + b) == encode_utf8(a) + encode_utf8(b),
        utf8_len(a + b) == utf8_len(a) + utf8_len(b),
    decreases a.len(),
{
    if a.len() == 0 {
        assert(a + b =~= b);
        assert(encode_utf8(a) + encode_utf8(b) =~= encode_utf8(b));
    } else {
        lemma_encode_joined(a.drop_first(), b);
        assert((a + b).drop_first() =~= a.drop_first() + b);
        assert(encode_utf8(a + b) =~= encode_utf8(a) + encode_utf8(b));
    }
}

/// In the encoding of two sequences joined, the second starts on a character
/// boundary.
pub proof fn lemma_boundary_between(a: Seq<char>, b: Seq<char>)
    ensures
        is_char_boundary(encode_utf8(a + b), utf8_len(a) as int),
    decreases a.len(),
{
    broadcast use encode_utf8_valid_utf8;

    if a.len() > 0 {
        let bytes = encode_utf8(a + b);
        encode_utf8_first_scalar(a + b);
        lemma_encode_joined(a, b);
        lemma_boundary_between(a.drop_first(), b);
        assert((a + b).drop_first() =~= a.drop_first() + b);
        assert(pop_first_scalar(bytes) =~= encode_utf8(a.drop_first() + b));
    }
}

/// The first `k` characters of `s` take as many bytes as those before them
/// and character `k - 1` together, and no more than all of `s`.
pub proof fn lemma_utf8_len_take(s: Seq<char>, k: int)
    requires
        0 <= k <= s.len(),
    ensures
        utf8_len(s.take(k)) <= utf8_len(s),
        k > 0 ==> utf8_len(s.take(k)) == utf8_len(s.take(k - 1)) + utf8_len(seq![s[k - 1]]),
{
    lemma_encode_joined(s.take(k), s.skip(k));
    assert(s.take(k) + s.skip(k) =~= s);
    if k > 0 {
        lemma_encode_joined(s.take(k - 1), seq![s[k - 1]]);
        assert(s.take(k - 1) + seq![s[k - 1]] =~= s.take(k));
    }
}

/// The characters of `s`, in order.
pub fn chars_of(s: &str) -> (chars: Vec<char>)
    ensures
        chars@ == s@,
        utf8_len(chars@) <= usize::MAX,
{
    let bytes = s.as_bytes();
    let byte_len: usize = bytes.len();
    let mut chars: Vec<char> = Vec::new();
    for c in it: s.chars()
        invariant
            chars@ == it.seq().take(it.index() as int),
            it.seq() == s@,
    {
        chars.push(c);
    }
    chars
}

/// The number of bytes that `c` takes in UTF-8.
pub fn utf8_width(c: char) -> (width: usize)
    ensures
        width == utf8_len(seq![c]),
        1 <= width <= 4,
{
    proof {
        char_is_scalar(c);
        reveal_with_fuel(encode_utf8, 2);
        assert(seq![c].drop_first() =~= Seq::<char>::empty());
        assert(encode_utf8(seq![c]) =~= encode_scalar(c as u32));
    }
    let code: u32 = c as u32;
    if code < 0x80 {
        1
    } else if code < 0x800 {
        2
    } else if code < 0x10000 {
        3
    } else {
        4
    }
}

/// A range of a text: the characters from position `start` up to, not
/// including, `end`, which take the bytes from `byte_start` up to
/// `byte_end` of the text in UTF-8.
#[derive(Clone, Copy, Debug, PartialEq, Eq)]
pub struct Span {
    pub start: usize,
    pub end: usize,
    pub byte_start: usize,
    pub byte_end: usize,
}

impl Span {
    /// The range lies inside `text`, and its byte positions are those of its
    /// character positions.
    pub open spec fn within(self, text: Seq<char>) -> bool {
        &&& self.start <= self.end <= text.len()
        &&& self.byte_start == utf8_len(text.take(self.start as int))
        &&& self.byte_end == utf8_len(text.take(self.end as int))
    }

    /// The characters of `text` that the range covers.
    pub open spec fn of(self, text: Seq<char>) -> Seq<char> {
        text.subrange(self.start as int, self.end as int)
    }

    /// The range of `text[from..to]`.
    pub fn locate(text: &Vec<char>, from: usize, to: usize) -> (span: Span)
        requires
            from <= to <= text.len(),
            utf8_len(text@) <= usize::MAX,
        ensures
            span.within(text@),
            span.start == from,
            span.end == to,
    {
        let mut byte_start: usize = 0;
        let mut offset: usize = 0;
        let mut i: usize = 0;
        while i < to
            invariant
                from <= to <= text.len(),
                utf8_len(text@) <= usize::MAX,
                i <= to,
                offset == utf8_len(text@.take(i as int)),
                byte_start == utf8_len(text@.take(if i <= from { i as int } else { from as int })),
            decreases to - i,
        {
            proof {
                lemma_utf8_len_take(text@, i + 1);
            }
            offset += utf8_width(text[i]);
            i += 1;
            if i <= from {
                byte_start = offset;
            }
        }
        Span { start: from, end: to, byte_start, byte_end: offset }
    }

    /// The part of `s` that the range covers, borrowed from `s`.
    pub fn slice<'a>(&self, s: &'a str) -> (part: &'a str)
        requires
            self.within(s@),
        ensures
            part@ == self.of(s@),
    {
        broadcast use encode_utf8_decode_utf8;

        let ghost before = s@.take(self.start as int);
        let ghost covered = s@.subrange(self.start as int, self.end as int);
        let ghost after = s@.skip(self.end as int);
        proof {
            assert(s@ =~= (before + covered) + after);
            assert(s@.take(self.end as int) =~= before + covered);
            lemma_boundary_between(before + covered, after);
            lemma_encode_joined(before + covered, after);
        }
        let (head, _) = s.split_at(self.byte_end);
        proof {
            assert(encode_utf8(head@) =~= encode_utf8(before + covered));
            assert(decode_utf8(encode_utf8(head@)) == decode_utf8(encode_utf8(before + covered)));
            assert(head@ == before + covered);
            lemma_boundary_between(before, covered);
            lemma_encode_joined(before, covered);
        }
        let (_, part) = head.split_at(self.byte_start);
        proof {
            assert(encode_utf8(part@) =~= encode_utf8(covered));
            assert(decode_utf8(encode_utf8(part@)) == decode_utf8(encode_utf8(covered)));
        }
        part
    }
}

/// Whether `needle` stands in `text[from..to]` at offset `at` of that range.
fn occurs_here(text: &Vec<char>, from: usize, to: usize, needle: &Vec<char>, at: usize) -> (hit: bool)
    requires
        from <= to <= text.len(),
        at + needle.len() <= to - from,
    ensures
        hit == occurs_at(text@.subrange(from as int, to as int), needle@, at as int),
{
    let ghost hay = text@.subrange(from as int, to as int);
    let mut k: usize = 0;
    while k < needle.len()
        invariant
            from <= to <= text.len(),
            at + needle.len() <= to - from,
            k <= needle.len(),
            hay == text@.subrange(from as int, to as int),
            forall|j: int| 0 <= j < k ==> hay[at + j] == needle[j],
        decreases needle.len() - k,
    {
        if text[from + at + k] != needle[k] {
            proof {
                assert(hay.subrange(at as int, at + needle.len())[k as int] == hay[at + k]);
            }
            return false;
        }
        k += 1;
    }
    proof {
        assert(hay.subrange(at as int, at + needle.len()) =~= needle@);
    }
    true
}

/// Whether `needle` is a contiguous part of `text[from..to]`.
pub fn range_contains(text: &Vec<char>, from: usize, to: usize, needle: &Vec<char>) -> (hit: bool)
    requires
        from <= to <= text.len(),
    ensures
        hit == contains(text@.subrange(from as int, to as int), needle@),
{
    let ghost hay = text@.subrange(from as int, to as int);
    if needle.len() > to - from {
        return false;
    }
    let last: usize = to - from - needle.len();
    let mut at: usize = 0;
    loop
        invariant
            from <= to <= text.len(),
            last == to - from - needle.len(),
            at <= last,
            hay == text@.subrange(from as int, to as int),
            forall|p: int| 0 <= p < at ==> !occurs_at(hay, needle@, p),
        decreases last - at,
    {
        if occurs_here(text, from, to, needle, at) {
            return true;
        }
        if at == last {
            return false;
        }
        at += 1;
    }
}

/// Whether `needle` is a contiguous part of `hay`.
pub fn str_contains(hay: &str, needle: &str) -> (hit: bool)
    ensures
        hit == contains(hay@, needle@),
{
    let text = chars_of(hay);
    let wanted = chars_of(needle);
    proof {
        assert(text@.subrange(0, text@.len() as int) =~= text@);
    }
    range_contains(&text, 0, text.len(), &wanted)
}

/// The position of the first `c` in `text`, or the length of `text` where it
/// holds none.
pub fn find_first(text: &Vec<char>, c: char) -> (at: usize)
    ensures
        at == first_index_of(text@, c),
        at <= text.len(),
{
    let mut at: usize = 0;
    while at < text.len() && text[at] != c
        invariant
            at <= text.len(),
            forall|i: int| 0 <= i < at ==> text[i] != c,
        decreases text.len() - at,
    {
        at += 1;
    }
    proof {
        lemma_first_index_of_is(text@, c, at as int);
    }
    at
}

/// Whether `text[from..to]` is exactly `other`.
pub fn range_equals(text: &Vec<char>, from: usize, to: usize, other: &Vec<char>) -> (same: bool)
    requires
        from <= to <= text.len(),
    ensures
        same == (text@.subrange(from as int, to as int) == other@),
{
    if to - from != other.len() {
        return false;
    }
    let hit = occurs_here(text, from, to, other, 0);
    proof {
        let hay = text@.subrange(from as int, to as int);
        assert(hay.subrange(0, hay.len() as int) =~= hay);
    }
    hit
}

} // verus!
