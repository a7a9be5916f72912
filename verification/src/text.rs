//! Strings as sequences of characters: the order of strings, prefixes,
//! substrings and lines.

use vstd::prelude::*;

verus! {

/// `String::push` of std appends one character to the end of the string.
pub assume_specification[ String::push ](s: &mut String, c: char)
    ensures
        final(s)@ == old(s)@.push(c),
;

/// The contents of a list of strings.
pub open spec fn texts(v: Seq<String>) -> Seq<Seq<char>> {
    Seq::new(v.len(), |i: int| v[i]@)
}

/// The contents of a string that may be missing.
pub open spec fn opt_text(s: Option<String>) -> Option<Seq<char>> {
    match s {
        Some(s) => Some(s@),
        None => None,
    }
}

/// The contents of a list of strings that may be missing.
pub open spec fn opt_texts(v: Option<Vec<String>>) -> Option<Seq<Seq<char>>> {
    match v {
        Some(v) => Some(texts(v@)),
        None => None,
    }
}

/// The contents of a list of character vectors.
pub open spec fn rows(v: Seq<Vec<char>>) -> Seq<Seq<char>> {
    Seq::new(v.len(), |i: int| v[i]@)
}

/// `a` comes strictly before `b` in the order of strings: at the first
/// place where the two differ `a` has ended or holds the smaller character.
pub open spec fn lex_lt(a: Seq<char>, b: Seq<char>) -> bool
    decreases a.len(),
{
    if b.len() == 0 {
        false
    } else if a.len() == 0 {
        true
    } else if a[0] == b[0] {
        lex_lt(a.drop_first(), b.drop_first())
    } else {
        (a[0] as u32) < (b[0] as u32)
    }
}

/// `a` equals `b` or comes before it.
pub open spec fn lex_le(a: Seq<char>, b: Seq<char>) -> bool {
    a == b || lex_lt(a, b)
}

/// Each element is at most the one after it.
pub open spec fn is_sorted(v: Seq<Seq<char>>) -> bool {
    forall|i: int, j: int| 0 <= i < j < v.len() ==> lex_le(#[trigger] v[i], #[trigger] v[j])
}

/// Each element comes strictly before the one after it.
pub open spec fn is_strictly_sorted(v: Seq<Seq<char>>) -> bool {
    forall|i: int, j: int| 0 <= i < j < v.len() ==> lex_lt(#[trigger] v[i], #[trigger] v[j])
}

/// `needle` stands in `hay` at index `at`.
pub open spec fn occurs_at(hay: Seq<char>, needle: Seq<char>, at: int) -> bool {
    0 <= at && at + needle.len() <= hay.len() && hay.subrange(at, at + needle.len()) == needle
}

/// `needle` stands somewhere in `hay`. The empty string stands in every string.
pub open spec fn contains(hay: Seq<char>, needle: Seq<char>) -> bool {
    exists|at: int| occurs_at(hay, needle, at)
}

/// The index of the first `c` in `s`, or the length of `s` where it holds none.
pub open spec fn first_or_len(s: Seq<char>, c: char) -> nat
    decreases s.len(),
{
    if s.len() == 0 || s[0] == c {
        0
    } else {
        1 + first_or_len(s.drop_first(), c)
    }
}

/// The index of the first line feed of `s`, or the length of `s` where it holds none.
pub open spec fn line_end(s: Seq<char>) -> nat {
    first_or_len(s, '\n')
}

/// `s` without one carriage return at its end.
pub open spec fn strip_cr(s: Seq<char>) -> Seq<char> {
    if s.len() > 0 && s.last() == '\r' {
        s.drop_last()
    } else {
        s
    }
}

/// The lines of `s`. A line ends at a line feed, or at a carriage return
/// directly followed by one; neither belongs to the line. What follows the
/// last line feed is a line only if it is not empty, and keeps a carriage
/// return at its end.
pub open spec fn lines(s: Seq<char>) -> Seq<Seq<char>>
    decreases s.len(),
{
    if s.len() == 0 {
        Seq::empty()
    } else {
        let end = line_end(s);
        if end >= s.len() {
            seq![s]
        } else {
            seq![strip_cr(s.take(end as int))] + lines(s.skip(end as int + 1))
        }
    }
}

/// `first_or_len` is the one index before which no `c` stands and at
/// which one does, or the text ends.
pub proof fn lemma_first_or_len(s: Seq<char>, c: char, end: int)
    requires
        0 <= end <= s.len(),
        forall|k: int| 0 <= k < end ==> s[k] != c,
        end == s.len() || s[end] == c,
    ensures
        first_or_len(s, c) == end,
    decreases s.len(),
{
    if s.len() == 0 || s[0] == c {
    } else {
        let rest = s.drop_first();
        assert forall|k: int| 0 <= k < end - 1 implies rest[k] != c by {
            assert(rest[k] == s[k + 1]);
        }
        lemma_first_or_len(rest, c, end - 1);
    }
}

/// The order of strings is irreflexive.
pub proof fn lemma_lex_lt_irreflexive(a: Seq<char>)
    ensures
        !lex_lt(a, a),
    decreases a.len(),
{
    if a.len() > 0 {
        lemma_lex_lt_irreflexive(a.drop_first());
    }
}

/// A common prefix does not change how two strings compare.
pub proof fn lemma_lex_lt_common_prefix(p: Seq<char>, a: Seq<char>, b: Seq<char>)
    ensures
        lex_lt(p + a, p + b) == lex_lt(a, b),
    decreases p.len(),
{
    if p.len() == 0 {
        assert(p + a == a);
        assert(p + b == b);
    } else {
        let q = p.drop_first();
        assert((p + a).drop_first() == q + a);
        assert((p + b).drop_first() == q + b);
        assert((p + a)[0] == (p + b)[0]);
        lemma_lex_lt_common_prefix(q, a, b);
    }
}

/// The characters of `s`, in order.
pub fn chars_of(s: &str) -> (out: Vec<char>)
    ensures
        out@ == s@,
{
    let mut out: Vec<char> = Vec::new();
    let chars = s.chars();
    for c in it: chars
        invariant
            it.seq() == s@,
            out@ == s@.take(it.index() as int),
    {
        out.push(c);
    }
    out
}

/// The string that holds the characters of `v`, in order.
pub fn string_of(v: &[char]) -> (out: String)
    ensures
        out@ == v@,
{
    let mut out = String::new();
    let mut i: usize = 0;
    while i < v.len()
        invariant
            i <= v.len(),
            out@ == v@.take(i as int),
        decreases v.len() - i,
    {
        out.push(v[i]);
        i += 1;
    }
    out
}

/// Appends the characters of `s` to `out`.
pub fn append_chars(out: &mut Vec<char>, s: &[char])
    ensures
        final(out)@ == old(out)@ + s@,
{
    let mut i: usize = 0;
    while i < s.len()
        invariant
            i <= s.len(),
            out@ == old(out)@ + s@.take(i as int),
        decreases s.len() - i,
    {
        out.push(s[i]);
        i += 1;
    }
}

/// The characters of `s` from index `from` up to index `to`.
pub fn copy_range(s: &[char], from: usize, to: usize) -> (out: Vec<char>)
    requires
        from <= to <= s.len(),
    ensures
        out@ == s@.subrange(from as int, to as int),
{
    let mut out: Vec<char> = Vec::new();
    let mut i: usize = from;
    while i < to
        invariant
            from <= i <= to <= s.len(),
            out@ == s@.subrange(from as int, i as int),
        decreases to - i,
    {
        out.push(s[i]);
        i += 1;
    }
    out
}

/// Whether `needle` stands in `hay` at index `at`.
pub fn matches_at(hay: &[char], needle: &[char], at: usize) -> (found: bool)
    ensures
        found == occurs_at(hay@, needle@, at as int),
{
    if at > hay.len() || needle.len() > hay.len() - at {
        return false;
    }
    let mut k: usize = 0;
    while k < needle.len()
        invariant
            k <= needle.len(),
            at + needle.len() <= hay.len(),
            hay@.subrange(at as int, at + k) == needle@.take(k as int),
        decreases needle.len() - k,
    {
        if hay[at + k] != needle[k] {
            proof {
                let sub = hay@.subrange(at as int, at + needle.len());
                assert(sub[k as int] != needle@[k as int]);
            }
            return false;
        }
        proof {
            assert(hay@.subrange(at as int, at + k + 1) == hay@.subrange(at as int, at + k).push(
                hay@[at + k],
            ));
            assert(needle@.take(k + 1) == needle@.take(k as int).push(needle@[k as int]));
        }
        k += 1;
    }
    proof {
        assert(needle@.take(k as int) == needle@);
    }
    true
}

/// Whether `a` and `b` hold the same characters.
pub fn same_chars(a: &[char], b: &[char]) -> (same: bool)
    ensures
        same == (a@ == b@),
{
    if a.len() != b.len() {
        return false;
    }
    let same = matches_at(a, b, 0);
    proof {
        assert(a@.subrange(0, a@.len() as int) == a@);
    }
    same
}

/// Whether `s` begins with `prefix`.
pub fn starts_with(s: &[char], prefix: &[char]) -> (yes: bool)
    ensures
        yes == prefix@.is_prefix_of(s@),
{
    let yes = matches_at(s, prefix, 0);
    proof {
        if prefix@.len() <= s@.len() {
            assert(s@.subrange(0, prefix@.len() as int) == s@.take(prefix@.len() as int));
        }
        // `is_prefix_of` compares index by index
        if yes {
            assert(prefix@.is_prefix_of(s@));
        }
        if prefix@.is_prefix_of(s@) {
            assert(s@.subrange(0, prefix@.len() as int) =~= prefix@);
        }
    }
    yes
}

/// Whether `needle` stands somewhere in `hay`.
pub fn contains_chars(hay: &[char], needle: &[char]) -> (found: bool)
    ensures
        found == contains(hay@, needle@),
{
    if needle.len() > hay.len() {
        return false;
    }
    let last: usize = hay.len() - needle.len();
    let mut at: usize = 0;
    loop
        invariant
            at <= last,
            last == hay.len() - needle.len(),
            needle.len() <= hay.len(),
            forall|k: int| 0 <= k < at ==> !occurs_at(hay@, needle@, k),
        decreases last - at,
    {
        if matches_at(hay, needle, at) {
            return true;
        }
        if at == last {
            return false;
        }
        at += 1;
    }
}

/// The index of the first `c` in `s` at or after `from`, or the length of
/// `s` where none follows.
pub fn find_from(s: &[char], from: usize, c: char) -> (end: usize)
    requires
        from <= s.len(),
    ensures
        from <= end <= s.len(),
        end - from == first_or_len(s@.skip(from as int), c),
{
    let mut end: usize = from;
    while end < s.len() && s[end] != c
        invariant
            from <= end <= s.len(),
            forall|k: int| from <= k < end ==> s@[k] != c,
        decreases s.len() - end,
    {
        end += 1;
    }
    proof {
        lemma_first_or_len(s@.skip(from as int), c, end - from);
    }
    end
}

/// The lines of `s`, as `lines` defines them.
pub fn split_lines(s: &[char]) -> (out: Vec<Vec<char>>)
    ensures
        rows(out@) == lines(s@),
{
    let mut out: Vec<Vec<char>> = Vec::new();
    let mut start: usize = 0;
    proof {
        assert(s@.skip(0) == s@);
        assert(rows(out@) + lines(s@) == lines(s@));
    }
    while start < s.len()
        invariant
            start <= s.len(),
            lines(s@) == rows(out@) + lines(s@.skip(start as int)),
        decreases s.len() - start,
    {
        let end = find_from(s, start, '\n');
        let ghost rest = s@.skip(start as int);
        let ghost before = rows(out@);
        if end == s.len() {
            let line = copy_range(s, start, end);
            out.push(line);
            proof {
                assert(s@.subrange(start as int, end as int) == rest);
                assert(lines(rest) == seq![rest]);
                assert(s@.skip(end as int).len() == 0);
                assert(rows(out@) == before + seq![rest]);
            }
            start = end;
        } else {
            let mut stop: usize = end;
            if stop > start && s[stop - 1] == '\r' {
                stop = stop - 1;
            }
            let line = copy_range(s, start, stop);
            out.push(line);
            proof {
                let whole = rest.take(end - start);
                assert(whole == s@.subrange(start as int, end as int));
                assert(line@ == strip_cr(whole));
                assert(rest.skip(end - start + 1) == s@.skip(end + 1));
                assert(rows(out@) == before + seq![strip_cr(whole)]);
            }
            start = end + 1;
        }
    }
    proof {
        assert(s@.skip(start as int).len() == 0);
    }
    out
}

} // verus!
