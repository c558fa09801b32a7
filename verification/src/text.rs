//! Character sequences: trimming, splitting on a separator, searching for
//! one text in another, and upper case.

use vstd::prelude::*;
use vstd::std_specs::iter::IteratorSpec;

verus! {

/// Whether `c` has the Unicode property White_Space.
pub open spec fn is_space(c: char) -> bool {
    ||| '\u{9}' <= c <= '\u{D}'
    ||| c == ' '
    ||| c == '\u{85}'
    ||| c == '\u{A0}'
    ||| c == '\u{1680}'
    ||| '\u{2000}' <= c <= '\u{200A}'
    ||| c == '\u{2028}'
    ||| c == '\u{2029}'
    ||| c == '\u{202F}'
    ||| c == '\u{205F}'
    ||| c == '\u{3000}'
}

/// `s` without its leading white space.
pub open spec fn trim_start(s: Seq<char>) -> Seq<char>
    decreases s.len(),
{
    if s.len() > 0 && is_space(s[0]) {
        trim_start(s.drop_first())
    } else {
        s
    }
}

/// `s` without its trailing white space.
pub open spec fn trim_end(s: Seq<char>) -> Seq<char>
    decreases s.len(),
{
    if s.len() > 0 && is_space(s.last()) {
        trim_end(s.drop_last())
    } else {
        s
    }
}

/// `s` without leading and trailing white space.
pub open spec fn trim(s: Seq<char>) -> Seq<char> {
    trim_end(trim_start(s))
}

/// A text is blank when nothing is left of it after trimming.
pub open spec fn is_blank(s: Seq<char>) -> bool {
    trim(s).len() == 0
}

/// The position of the first `c` in `s`, or `s.len()` if there is none.
pub open spec fn find(s: Seq<char>, c: char) -> int
    decreases s.len(),
{
    if s.len() == 0 || s[0] == c {
        0
    } else {
        1 + find(s.drop_first(), c)
    }
}

/// The pieces of `s` between occurrences of `c`. There is always at least one
/// piece; `n` separators give `n + 1` pieces, some of which may be empty.
pub open spec fn split(s: Seq<char>, c: char) -> Seq<Seq<char>>
    decreases s.len(),
{
    let k = find(s, c);
    if 0 <= k < s.len() {
        seq![s.take(k)] + split(s.skip(k + 1), c)
    } else {
        seq![s]
    }
}

/// `c` does not occur in `s`.
pub open spec fn free_of(s: Seq<char>, c: char) -> bool {
    forall|i: int| 0 <= i < s.len() ==> s[i] != c
}

/// The views of a vector of character vectors.
pub open spec fn views(parts: Seq<Vec<char>>) -> Seq<Seq<char>> {
    parts.map_values(|p: Vec<char>| p@)
}

/// The first `c` is at `k` when `c` is there, or `s` ends there, and no `c`
/// comes before.
pub proof fn lemma_find(s: Seq<char>, c: char, k: int)
    requires
        0 <= k <= s.len(),
        forall|j: int| 0 <= j < k ==> s[j] != c,
        k == s.len() || s[k] == c,
    ensures
        find(s, c) == k,
    decreases k,
{
    if k > 0 {
        lemma_find(s.drop_first(), c, k - 1);
    }
}

/// A text without the separator is its own single piece.
pub proof fn lemma_split_whole(s: Seq<char>, c: char)
    requires
        free_of(s, c),
    ensures
        split(s, c) == seq![s],
{
    lemma_find(s, c, s.len() as int);
}

/// Splitting `head`, a separator and `rest`, where `head` holds no separator,
/// gives `head` and then the pieces of `rest`.
pub proof fn lemma_split_first(head: Seq<char>, c: char, rest: Seq<char>)
    requires
        free_of(head, c),
    ensures
        split(head + seq![c] + rest, c) == seq![head] + split(rest, c),
{
    let s = head + seq![c] + rest;
    lemma_find(s, c, head.len() as int);
    assert(s.take(head.len() as int) =~= head);
    assert(s.skip(head.len() as int + 1) =~= rest);
}

/// The pieces of two texts put together are the pieces of the first but its
/// last, then its last piece continued by the first piece of the second,
/// then the other pieces of the second.
pub proof fn lemma_split_concat(a: Seq<char>, b: Seq<char>, c: char)
    ensures
        split(a, c).len() > 0,
        split(b, c).len() > 0,
        split(a + b, c) == split(a, c).drop_last() + seq![split(a, c).last() + split(b, c)[0]]
            + split(b, c).drop_first(),
    decreases a.len(),
{
    let k = find(a, c);
    lemma_find_bounds(a, c);
    lemma_find_bounds(b, c);
    if k < a.len() {
        let rest = a.skip(k + 1);
        lemma_find(a + b, c, k);
        lemma_split_concat(rest, b, c);
        assert((a + b).skip(k + 1) =~= rest + b);
        assert((a + b).take(k) =~= a.take(k));
    } else {
        let kb = find(b, c);
        lemma_find(a + b, c, a.len() + kb);
        if kb < b.len() {
            assert((a + b).take(a.len() + kb) =~= a + b.take(kb));
            assert((a + b).skip(a.len() + kb + 1) =~= b.skip(kb + 1));
        }
    }
}

/// The first `c` of `s` is within `s` or at its end; nothing before it is
/// `c`, and `c` is there unless `s` ends there.
pub proof fn lemma_find_bounds(s: Seq<char>, c: char)
    ensures
        0 <= find(s, c) <= s.len(),
        forall|j: int| 0 <= j < find(s, c) ==> s[j] != c,
        find(s, c) < s.len() ==> s[find(s, c)] == c,
    decreases s.len(),
{
    if s.len() == 0 || s[0] == c {
    } else {
        let rest = s.drop_first();
        lemma_find_bounds(rest, c);
        assert forall|j: int| 0 <= j < find(s, c) implies s[j] != c by {
            if j > 0 {
                assert(s[j] == rest[j - 1]);
            }
        }
    }
}

/// A text that neither starts nor ends with white space.
pub open spec fn is_trimmed(s: Seq<char>) -> bool {
    s.len() > 0 ==> !is_space(s[0]) && !is_space(s.last())
}

/// Trimming leaves a trimmed text alone.
pub proof fn lemma_trim_fixed(s: Seq<char>)
    requires
        is_trimmed(s),
    ensures
        trim(s) == s,
{
}

proof fn lemma_trim_start(s: Seq<char>)
    ensures
        trim_start(s).len() > 0 ==> !is_space(trim_start(s)[0]),
    decreases s.len(),
{
    if s.len() > 0 && is_space(s[0]) {
        lemma_trim_start(s.drop_first());
    }
}

proof fn lemma_trim_end(s: Seq<char>)
    ensures
        trim_end(s).len() <= s.len(),
        trim_end(s) == s.take(trim_end(s).len() as int),
        trim_end(s).len() > 0 ==> !is_space(trim_end(s).last()),
    decreases s.len(),
{
    if s.len() > 0 && is_space(s.last()) {
        lemma_trim_end(s.drop_last());
    }
}

/// What trimming gives is trimmed, so trimming it again changes nothing.
pub proof fn lemma_trim_is_trimmed(s: Seq<char>)
    ensures
        is_trimmed(trim(s)),
        trim(trim(s)) == trim(s),
{
    lemma_trim_start(s);
    lemma_trim_end(trim_start(s));
    lemma_trim_fixed(trim(s));
}

/// The characters of `s` from `from` to `to`, as a new vector.
pub fn copy_range(v: &Vec<char>, from: usize, to: usize) -> (out: Vec<char>)
    requires
        from <= to <= v.len(),
    ensures
        out@ == v@.subrange(from as int, to as int),
{
    let mut out: Vec<char> = Vec::new();
    let mut i: usize = from;
    while i < to
        invariant
            from <= i <= to <= v.len(),
            out@ == v@.subrange(from as int, i as int),
        decreases to - i,
    {
        out.push(v[i]);
        i += 1;
    }
    out
}

/// Whether `c` is white space.
pub fn is_whitespace(c: char) -> (b: bool)
    ensures
        b == is_space(c),
{
    ('\u{9}' <= c && c <= '\u{D}') || c == ' ' || c == '\u{85}' || c == '\u{A0}' || c == '\u{1680}'
        || ('\u{2000}' <= c && c <= '\u{200A}') || c == '\u{2028}' || c == '\u{2029}' || c
        == '\u{202F}' || c == '\u{205F}' || c == '\u{3000}'
}

/// `String::push`: appends one character.
#[verifier::external_body]
fn push_char(s: &mut String, c: char)
    ensures
        final(s)@ == old(s)@.push(c),
{
    s.push(c)
}

/// The characters of a string slice.
pub fn chars_of(s: &str) -> (out: Vec<char>)
    ensures
        out@ == s@,
{
    broadcast use vstd::string::group_string_axioms;

    let mut out: Vec<char> = Vec::new();
    let mut it = s.chars();
    loop
        invariant
            out@ + it.remaining() == s@,
            it.decrease() is Some,
        decreases it.decrease()->0,
    {
        match it.next() {
            Some(c) => {
                out.push(c);
                assert(out@ + it.remaining() =~= s@);
            },
            None => {
                return out;
            },
        }
    }
}

/// The string made of the characters of `v`.
pub fn string_of(v: &Vec<char>) -> (out: String)
    ensures
        out@ == v@,
{
    let mut out = String::new();
    let mut i: usize = 0;
    while i < v.len()
        invariant
            i <= v.len(),
            out@ == v@.take(i as int),
        decreases v.len() - i,
    {
        push_char(&mut out, v[i]);
        i += 1;
    }
    out
}

/// Trims white space from both ends.
pub fn trim_chars(v: &Vec<char>) -> (out: Vec<char>)
    ensures
        out@ == trim(v@),
{
    let n = v.len();
    let mut i: usize = 0;
    assert(v@.subrange(0, n as int) =~= v@);
    while i < n && is_whitespace(v[i])
        invariant
            i <= n == v.len(),
            trim_start(v@) == trim_start(v@.subrange(i as int, n as int)),
        decreases n - i,
    {
        assert(v@.subrange(i as int, n as int).drop_first() =~= v@.subrange(i + 1, n as int));
        i += 1;
    }
    let mut j: usize = n;
    while j > i && is_whitespace(v[j - 1])
        invariant
            i <= j <= n == v.len(),
            trim_end(v@.subrange(i as int, n as int)) == trim_end(v@.subrange(i as int, j as int)),
        decreases j,
    {
        assert(v@.subrange(i as int, j as int).drop_last() =~= v@.subrange(i as int, j - 1));
        j -= 1;
    }
    copy_range(v, i, j)
}

/// Splits on every occurrence of `sep`.
pub fn split_chars(v: &Vec<char>, sep: char) -> (parts: Vec<Vec<char>>)
    ensures
        views(parts@) == split(v@, sep),
{
    let n = v.len();
    let mut parts: Vec<Vec<char>> = Vec::new();
    let mut start: usize = 0;
    let mut i: usize = 0;
    assert(v@.subrange(0, n as int) =~= v@);
    while i < n
        invariant
            start <= i <= n == v.len(),
            forall|k: int| start <= k < i ==> v@[k] != sep,
            split(v@, sep) == views(parts@) + split(v@.subrange(start as int, n as int), sep),
        decreases n - i,
    {
        if v[i] == sep {
            let piece = copy_range(v, start, i);
            proof {
                let tail = v@.subrange(start as int, n as int);
                lemma_find(tail, sep, i - start);
                assert(tail.take(i - start) =~= piece@);
                assert(tail.skip(i - start + 1) =~= v@.subrange(i + 1, n as int));
            }
            parts.push(piece);
            start = i + 1;
        }
        i += 1;
    }
    let piece = copy_range(v, start, n);
    proof {
        lemma_split_whole(piece@, sep);
    }
    parts.push(piece);
    parts
}

/// The upper-case form of a text, as `str::to_uppercase` gives it.
pub uninterp spec fn uppercase(s: Seq<char>) -> Seq<char>;

/// `str::to_uppercase`: the text with every character replaced by its
/// upper-case mapping.
#[verifier::external_body]
pub(crate) fn to_upper(s: &str) -> (r: String)
    ensures
        r@ == uppercase(s@),
{
    s.to_uppercase()
}

/// `needle` occurs in `hay` as a run of consecutive characters.
pub open spec fn occurs_in(needle: Seq<char>, hay: Seq<char>) -> bool {
    exists|i: int|
        0 <= i <= hay.len() - needle.len() && #[trigger] hay.subrange(i, i + needle.len())
            == needle
}

fn occurs_at(needle: &Vec<char>, hay: &Vec<char>, at: usize) -> (b: bool)
    requires
        at + needle.len() <= hay.len(),
    ensures
        b == (hay@.subrange(at as int, at + needle.len()) == needle@),
{
    let mut j: usize = 0;
    while j < needle.len()
        invariant
            j <= needle.len(),
            at + needle.len() <= hay.len(),
            forall|k: int| 0 <= k < j ==> hay@[at + k] == needle@[k],
        decreases needle.len() - j,
    {
        if hay[at + j] != needle[j] {
            return false;
        }
        j += 1;
    }
    assert(hay@.subrange(at as int, at + needle.len()) =~= needle@);
    true
}

/// Whether `needle` occurs in `hay`.
pub fn occurs(needle: &Vec<char>, hay: &Vec<char>) -> (b: bool)
    ensures
        b == occurs_in(needle@, hay@),
{
    if needle.len() > hay.len() {
        return false;
    }
    let last = hay.len() - needle.len();
    let mut i: usize = 0;
    while i < last
        invariant
            i <= last,
            last == hay.len() - needle.len(),
            forall|k: int| 0 <= k < i ==> #[trigger] hay@.subrange(k, k + needle.len()) != needle@,
        decreases last - i,
    {
        if occurs_at(needle, hay, i) {
            return true;
        }
        i += 1;
    }
    occurs_at(needle, hay, last)
}

} // verus!
