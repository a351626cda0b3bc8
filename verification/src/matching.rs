//! Finding a pattern inside one haystack: substrings (case sensitive or
//! ASCII case insensitive) and regular expressions.

use regex::bytes::Regex;
use std::ops::Range;
use vstd::prelude::*;

verus! {

/// `b` with ASCII upper-case letters mapped to lower case.
pub open spec fn ascii_lower(b: u8) -> u8 {
    if 65 <= b <= 90 { (b + 32) as u8 } else { b }
}

/// `s` with every ASCII upper-case letter mapped to lower case.
pub open spec fn lower_seq(s: Seq<u8>) -> Seq<u8> {
    Seq::new(s.len(), |i: int| ascii_lower(s[i]))
}

/// `n` occurs in `h` at position `p`.
pub open spec fn is_match_at(h: Seq<u8>, n: Seq<u8>, p: int) -> bool {
    0 <= p && p + n.len() <= h.len() && h.subrange(p, p + n.len()) == n
}

/// Leftmost non-overlapping occurrences of a non-empty `n` in `h` at or
/// after `from`: the first occurrence, then the search resumes right after it.
pub open spec fn greedy_starts(h: Seq<u8>, n: Seq<u8>, from: int) -> Seq<int>
    decreases h.len() - from,
{
    if n.len() == 0 || from < 0 || from + n.len() > h.len() {
        Seq::empty()
    } else if is_match_at(h, n, from) {
        seq![from] + greedy_starts(h, n, from + n.len())
    } else {
        greedy_starts(h, n, from + 1)
    }
}

/// Every occurrence (overlapping ones included) of a non-empty `n` in `h` at
/// or after `from`.
pub open spec fn all_starts(h: Seq<u8>, n: Seq<u8>, from: int) -> Seq<int>
    decreases h.len() - from,
{
    if n.len() == 0 || from < 0 || from + n.len() > h.len() {
        Seq::empty()
    } else if is_match_at(h, n, from) {
        seq![from] + all_starts(h, n, from + 1)
    } else {
        all_starts(h, n, from + 1)
    }
}

/// Spans `[s, s + len)` of the given starts.
pub open spec fn spans_from_starts(starts: Seq<int>, len: int) -> Seq<(int, int)> {
    starts.map_values(|s: int| (s, s + len))
}

/// The spans a substring search of `n` in `h` reports: the leftmost
/// non-overlapping occurrences when case sensitive, every occurrence after
/// ASCII lower-casing both sides otherwise; none for an empty needle.
pub open spec fn substring_spans(h: Seq<u8>, n: Seq<u8>, case_sensitive: bool) -> Seq<(int, int)> {
    if n.len() == 0 || h.len() < n.len() {
        Seq::empty()
    } else if case_sensitive {
        spans_from_starts(greedy_starts(h, n, 0), n.len() as int)
    } else {
        spans_from_starts(all_starts(lower_seq(h), lower_seq(n), 0), n.len() as int)
    }
}

/// Spans of a list of ranges.
pub open spec fn spans_of(v: Seq<Range<usize>>) -> Seq<(int, int)> {
    v.map_values(|r: Range<usize>| (r.start as int, r.end as int))
}

/// Every start of `greedy_starts` is an occurrence, and they increase by at
/// least the needle's length.
pub proof fn lemma_greedy_starts_are_matches(h: Seq<u8>, n: Seq<u8>, from: int)
    ensures
        forall|i: int|
            0 <= i < greedy_starts(h, n, from).len() ==> is_match_at(
                h,
                n,
                #[trigger] greedy_starts(h, n, from)[i],
            ) && greedy_starts(h, n, from)[i] >= from,
        forall|i: int, j: int|
            0 <= i < j < greedy_starts(h, n, from).len() ==> greedy_starts(h, n, from)[i] + n.len()
                <= greedy_starts(h, n, from)[j],
    decreases h.len() - from,
{
    if n.len() == 0 || from < 0 || from + n.len() > h.len() {
    } else if is_match_at(h, n, from) {
        lemma_greedy_starts_are_matches(h, n, from + n.len());
        let rest = greedy_starts(h, n, from + n.len());
        assert(greedy_starts(h, n, from) == seq![from] + rest);
        assert forall|i: int, j: int|
            0 <= i < j < greedy_starts(h, n, from).len() implies greedy_starts(h, n, from)[i]
            + n.len() <= greedy_starts(h, n, from)[j] by {
            if i > 0 {
                assert(greedy_starts(h, n, from)[i] == rest[i - 1]);
            }
            assert(greedy_starts(h, n, from)[j] == rest[j - 1]);
        }
        assert forall|i: int| 0 <= i < greedy_starts(h, n, from).len() implies is_match_at(
            h,
            n,
            #[trigger] greedy_starts(h, n, from)[i],
        ) && greedy_starts(h, n, from)[i] >= from by {
            if i > 0 {
                assert(greedy_starts(h, n, from)[i] == rest[i - 1]);
            }
        }
    } else {
        lemma_greedy_starts_are_matches(h, n, from + 1);
        assert(greedy_starts(h, n, from) == greedy_starts(h, n, from + 1));
    }
}

/// The regular-expression engine.
#[verifier::external_type_specification]
#[verifier::external_body]
pub struct ExRegex(Regex);

/// A compiled regular expression together with the pattern it was compiled
/// from. Only [`compile_regex`] builds one, so the two always agree.
pub struct CompiledRegex {
    regex: Regex,
    pattern: String,
}

impl View for CompiledRegex {
    type V = Seq<char>;

    /// The pattern the regex was compiled from.
    closed spec fn view(&self) -> Seq<char> {
        self.pattern@
    }
}

/// What `regex::bytes::Regex::new` answers for a pattern: `None` when it
/// compiles, otherwise the text (`Display`) of its error.
pub uninterp spec fn regex_rejection(pattern: Seq<char>) -> Option<Seq<char>>;

/// The spans `(start, end)` that `regex::bytes::Regex::find_iter` yields for
/// the regex compiled from `pattern` on `haystack`.
pub uninterp spec fn regex_find_spans(pattern: Seq<char>, haystack: Seq<u8>) -> Seq<(usize, usize)>;

/// Compiles `pattern` with `regex::bytes::Regex::new`, turning the error
/// into its message (`regex::Error`'s `Display`).
///
/// Claimed: the outcome is [`regex_rejection`] of the pattern, and a
/// compiled regex remembers its pattern.
#[verifier::external_body]
pub(crate) fn compile_regex(pattern: &str) -> (res: std::result::Result<CompiledRegex, String>)
    ensures
        res is Ok <==> regex_rejection(pattern@) is None,
        res matches Ok(c) ==> c@ == pattern@,
        res matches Err(m) ==> regex_rejection(pattern@) == Some(m@),
{
    match Regex::new(pattern) {
        Ok(regex) => Ok(CompiledRegex { regex, pattern: pattern.to_owned() }),
        Err(error) => Err(error.to_string()),
    }
}

/// All matches of the regex in `haystack`, through
/// `regex::bytes::Regex::find_iter` and `Match::start` / `Match::end`.
///
/// Claimed: the spans are [`regex_find_spans`] of the regex's pattern and the
/// haystack, and, as the crate documents, each has `start <= end` inside the
/// haystack.
#[verifier::external_body]
pub(crate) fn regex_find_all(re: &CompiledRegex, haystack: &[u8]) -> (spans: Vec<(usize, usize)>)
    ensures
        spans@ == regex_find_spans(re@, haystack@),
        forall|i: int|
            0 <= i < spans@.len() ==> #[trigger] spans@[i].0 <= spans@[i].1 <= haystack@.len(),
{
    re.regex.find_iter(haystack).map(|found| (found.start(), found.end())).collect()
}

/// Start offsets of the leftmost non-overlapping occurrences of `needle`,
/// through `memchr::memmem::find_iter`.
///
/// Claimed, as the crate documents (and its iterator shows: each search
/// resumes right after the previous match): the starts are
/// [`greedy_starts`] of the needle from offset 0.
#[verifier::external_body]
pub(crate) fn memmem_find_all(haystack: &[u8], needle: &[u8]) -> (starts: Vec<usize>)
    requires
        needle@.len() > 0,
    ensures
        starts@.len() == greedy_starts(haystack@, needle@, 0).len(),
        forall|i: int|
            0 <= i < starts@.len() ==> #[trigger] starts@[i] == greedy_starts(haystack@, needle@, 0)[i],
{
    memchr::memmem::find_iter(haystack, needle).collect()
}

/// `s` with ASCII upper-case letters lowered.
fn to_ascii_lowercase_vec(s: &[u8]) -> (out: Vec<u8>)
    ensures
        out@ == lower_seq(s@),
{
    let mut out: Vec<u8> = Vec::new();
    let mut i: usize = 0;
    while i < s.len()
        invariant
            i <= s@.len(),
            out@ == lower_seq(s@).take(i as int),
        decreases s.len() - i,
    {
        let b = s[i];
        let lowered: u8 = if 65 <= b && b <= 90 { b + 32 } else { b };
        out.push(lowered);
        i = i + 1;
        assert(out@ =~= lower_seq(s@).take(i as int));
    }
    assert(out@ =~= lower_seq(s@));
    out
}

/// Whether `needle` occurs in `haystack` at `start`.
fn matches_at(haystack: &[u8], needle: &[u8], start: usize) -> (b: bool)
    requires
        start + needle@.len() <= haystack@.len(),
    ensures
        b == is_match_at(haystack@, needle@, start as int),
{
    let hl = haystack.len();
    let mut i: usize = 0;
    while i < needle.len()
        invariant
            hl == haystack@.len(),
            i <= needle@.len(),
            start + needle@.len() <= haystack@.len(),
            forall|k: int| 0 <= k < i ==> haystack@[start + k] == #[trigger] needle@[k],
        decreases needle.len() - i,
    {
        if haystack[start + i] != needle[i] {
            assert(haystack@.subrange(start as int, start + needle@.len())[i as int] != needle@[i as int]);
            return false;
        }
        i = i + 1;
    }
    assert(haystack@.subrange(start as int, start + needle@.len()) =~= needle@);
    true
}

/// Spans of the occurrences of `needle` in `haystack`: the leftmost
/// non-overlapping ones when `case_sensitive`, every occurrence under ASCII
/// case folding otherwise.
pub fn find_substring_offsets(haystack: &[u8], needle: &[u8], case_sensitive: bool) -> (ranges: Vec<
    Range<usize>,
>)
    ensures
        spans_of(ranges@) == substring_spans(haystack@, needle@, case_sensitive),
        forall|i: int|
            0 <= i < ranges@.len() ==> (#[trigger] ranges@[i]).start <= ranges@[i].end
                <= haystack@.len(),
{
    if needle.len() == 0 || haystack.len() < needle.len() {
        let empty: Vec<Range<usize>> = Vec::new();
        assert(spans_of(empty@) =~= Seq::<(int, int)>::empty());
        return empty;
    }
    if case_sensitive {
        let starts = memmem_find_all(haystack, needle);
        let ghost g = greedy_starts(haystack@, needle@, 0);
        proof {
            lemma_greedy_starts_are_matches(haystack@, needle@, 0);
        }
        let hl = haystack.len();
        let mut ranges: Vec<Range<usize>> = Vec::new();
        let mut i: usize = 0;
        while i < starts.len()
            invariant
                hl == haystack@.len(),
                i <= starts@.len(),
                starts@.len() == g.len(),
                forall|k: int| 0 <= k < starts@.len() ==> #[trigger] starts@[k] == g[k],
                forall|k: int| 0 <= k < g.len() ==> is_match_at(haystack@, needle@, #[trigger] g[k]),
                spans_of(ranges@) == spans_from_starts(g, needle@.len() as int).take(i as int),
                forall|k: int|
                    0 <= k < ranges@.len() ==> (#[trigger] ranges@[k]).start <= ranges@[k].end
                        <= haystack@.len(),
            decreases starts.len() - i,
        {
            let s = starts[i];
            assert(is_match_at(haystack@, needle@, g[i as int]));
            let ghost prev = ranges@;
            let r = Range { start: s, end: s + needle.len() };
            ranges.push(r);
            assert(ranges@ == prev.push(r));
            assert(spans_of(ranges@) =~= spans_of(prev).push((s as int, s + needle@.len())));
            i = i + 1;
            assert(spans_of(ranges@) =~= spans_from_starts(g, needle@.len() as int).take(i as int));
        }
        assert(spans_from_starts(g, needle@.len() as int).take(i as int) =~= spans_from_starts(
            g,
            needle@.len() as int,
        ));
        return ranges;
    }
    let hay = to_ascii_lowercase_vec(haystack);
    let pat = to_ascii_lowercase_vec(needle);
    let ghost lh = hay@;
    let ghost ln = pat@;
    let mut ranges: Vec<Range<usize>> = Vec::new();
    let mut start: usize = 0;
    assert(spans_of(ranges@) + spans_from_starts(all_starts(lh, ln, 0), ln.len() as int)
        =~= spans_from_starts(all_starts(lh, ln, 0), ln.len() as int));
    let limit = hay.len() - pat.len();
    while start <= limit
        invariant
            limit == lh.len() - ln.len(),
            hay@ == lh,
            pat@ == ln,
            ln.len() > 0,
            lh.len() == haystack@.len(),
            ln.len() == needle@.len(),
            spans_of(ranges@) + spans_from_starts(all_starts(lh, ln, start as int), ln.len() as int)
                == spans_from_starts(all_starts(lh, ln, 0), ln.len() as int),
            forall|k: int|
                0 <= k < ranges@.len() ==> (#[trigger] ranges@[k]).start <= ranges@[k].end
                    <= haystack@.len(),
            start <= lh.len(),
        decreases hay.len() - start,
    {
        let ghost before = ranges@;
        if matches_at(&hay, &pat, start) {
            ranges.push(Range { start, end: start + pat.len() });
            assert(spans_of(ranges@) =~= spans_of(before) + seq![(start as int, start + ln.len())]);
            assert(spans_from_starts(all_starts(lh, ln, start as int), ln.len() as int)
                =~= seq![(start as int, start + ln.len())] + spans_from_starts(
                all_starts(lh, ln, start + 1),
                ln.len() as int,
            ));
        } else {
            assert(all_starts(lh, ln, start as int) == all_starts(lh, ln, start + 1));
        }
        start = start + 1;
    }
    assert(all_starts(lh, ln, start as int) =~= Seq::<int>::empty());
    assert(spans_of(ranges@) + Seq::<(int, int)>::empty() =~= spans_of(ranges@));
    ranges
}

} // verus!
