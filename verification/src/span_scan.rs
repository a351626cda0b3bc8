//! The fast path of case-sensitive substring search: one scan of the whole
//! byte span of a group of lines, whose matches are then assigned to lines.
//! The proofs here show that it finds exactly what a line-by-line scan finds.

use crate::ingest::{lemma_byte_within_its_line, lemma_line_bounds, lemma_lines_of_buffer, IndexModel};
use crate::matching::{greedy_starts, is_match_at, lemma_greedy_starts_are_matches, substring_spans};
use crate::flags::{signals_cancelled, signals_quiet, signals_ready, HitSlots, Signal};
use crate::ingest::NewlineIndex;
use crate::matching::memmem_find_all;
use crate::search::{
    batch_covers_its_hits, batch_within, batches_well_formed, batches_within, streamed_ok,
    lemma_tail_of_prefix_in, flatten, hit_at, lemma_flatten_push,
    line_hits, line_range_byte_bounds, min_of, pass_outcome, range_hits, span_end, SearchBatch,
    SearchHit, SearchStage,
};
use crate::types::{ByteOffset, ByteRange, LineNumber, Result};
use std::ops::Range;
use vstd::slice::slice_subrange;
use vstd::prelude::*;

verus! {

/// Spans function of a case-sensitive substring query for needle `n`.
pub open spec fn sensitive_spans_fn(n: Seq<u8>) -> spec_fn(Seq<u8>) -> Seq<(int, int)> {
    |line: Seq<u8>| substring_spans(line, n, true)
}

/// The hits the fast path keeps from match starts `starts` (relative to
/// byte `base`): a match is kept, on the line holding its first byte, when
/// it ends inside that line.
pub open spec fn fast_hits(m: IndexModel, n_len: int, base: int, starts: Seq<int>) -> Seq<SearchHit>
    decreases starts.len(),
{
    if starts.len() == 0 {
        Seq::empty()
    } else {
        let prev = fast_hits(m, n_len, base, starts.drop_last());
        let abs = base + starts.last();
        let l = m.line_of_byte(abs);
        if abs + n_len <= m.line_end(l) {
            prev.push(hit_at(l, abs, abs + n_len))
        } else {
            prev
        }
    }
}

/// `s` with `k` added to every element.
pub open spec fn shift_int(s: Seq<int>, k: int) -> Seq<int> {
    s.map_values(|x: int| x + k)
}

proof fn lemma_fast_hits_concat(m: IndexModel, n_len: int, base: int, a: Seq<int>, b: Seq<int>)
    ensures
        fast_hits(m, n_len, base, a + b) == fast_hits(m, n_len, base, a) + fast_hits(
            m,
            n_len,
            base,
            b,
        ),
    decreases b.len(),
{
    if b.len() == 0 {
        assert(a + b =~= a);
        assert(fast_hits(m, n_len, base, a) + Seq::<SearchHit>::empty() =~= fast_hits(
            m,
            n_len,
            base,
            a,
        ));
    } else {
        assert((a + b).drop_last() =~= a + b.drop_last());
        lemma_fast_hits_concat(m, n_len, base, a, b.drop_last());
        let abs = base + b.last();
        let l = m.line_of_byte(abs);
        if abs + n_len <= m.line_end(l) {
            assert(fast_hits(m, n_len, base, a) + fast_hits(m, n_len, base, b) =~= (fast_hits(
                m,
                n_len,
                base,
                a,
            ) + fast_hits(m, n_len, base, b.drop_last())).push(hit_at(l, abs, abs + n_len)));
        }
    }
}

/// Matches that all lie inside line `l` are all kept, on line `l`.
proof fn lemma_fast_hits_in_line(m: IndexModel, n_len: int, base: int, p: Seq<int>, l: int)
    requires
        forall|i: int|
            0 <= i < p.len() ==> m.line_of_byte(base + #[trigger] p[i]) == l && base + p[i] + n_len
                <= m.line_end(l),
    ensures
        fast_hits(m, n_len, base, p) == p.map_values(|q: int| hit_at(l, base + q, base + q + n_len)),
    decreases p.len(),
{
    if p.len() > 0 {
        let q = p.drop_last();
        assert forall|i: int| 0 <= i < q.len() implies m.line_of_byte(base + #[trigger] q[i]) == l
            && base + q[i] + n_len <= m.line_end(l) by {
            assert(q[i] == p[i]);
        }
        lemma_fast_hits_in_line(m, n_len, base, q, l);
        assert(m.line_of_byte(base + p[p.len() - 1]) == l);
        assert(p.map_values(|x: int| hit_at(l, base + x, base + x + n_len)) =~= q.map_values(
            |x: int| hit_at(l, base + x, base + x + n_len),
        ).push(hit_at(l, base + p.last(), base + p.last() + n_len)));
    } else {
        assert(p.map_values(|q: int| hit_at(l, base + q, base + q + n_len)) =~= Seq::<
            SearchHit,
        >::empty());
    }
}

/// Leftmost matching from `x + y` in `h` is leftmost matching from `y` in
/// `h` without its first `x` bytes, shifted by `x`.
proof fn lemma_greedy_skip(h: Seq<u8>, n: Seq<u8>, x: int, y: int)
    requires
        0 <= x <= h.len(),
        0 <= y,
    ensures
        greedy_starts(h, n, x + y) == shift_int(greedy_starts(h.skip(x), n, y), x),
    decreases h.len() - x - y,
{
    let t = h.skip(x);
    if n.len() == 0 || x + y + n.len() > h.len() {
        assert(shift_int(greedy_starts(t, n, y), x) =~= Seq::<int>::empty());
    } else {
        assert(h.subrange(x + y, x + y + n.len()) =~= t.subrange(y, y + n.len()));
        if is_match_at(h, n, x + y) {
            lemma_greedy_skip(h, n, x, y + n.len());
            assert(shift_int(greedy_starts(t, n, y), x) =~= seq![x + y] + shift_int(
                greedy_starts(t, n, y + n.len()),
                x,
            ));
        } else {
            lemma_greedy_skip(h, n, x, y + 1);
        }
    }
}

/// A newline at `k` that the needle cannot contain splits leftmost matching:
/// the matches before it are those of `h` cut at `k`.
proof fn lemma_greedy_newline_split(h: Seq<u8>, n: Seq<u8>, from: int, k: int)
    requires
        0 <= from <= k < h.len(),
        h[k] == 10u8,
        n.len() > 0,
        forall|i: int| 0 <= i < n.len() ==> n[i] != 10u8,
    ensures
        greedy_starts(h, n, from) == greedy_starts(h.take(k), n, from) + greedy_starts(h, n, k + 1),
    decreases k - from,
{
    let t = h.take(k);
    if from + n.len() > k {
        assert(greedy_starts(t, n, from) =~= Seq::<int>::empty());
        if from + n.len() > h.len() {
            assert(greedy_starts(h, n, k + 1) =~= Seq::<int>::empty());
            assert(Seq::<int>::empty() + Seq::<int>::empty() =~= Seq::<int>::empty());
        } else {
            // a match at `from` would cover the newline at `k`
            if is_match_at(h, n, from) {
                assert(h.subrange(from, from + n.len())[k - from] == h[k]);
            }
            assert(greedy_starts(h, n, from) == greedy_starts(h, n, from + 1));
            if from + 1 <= k {
                lemma_greedy_newline_split(h, n, from + 1, k);
                assert(greedy_starts(t, n, from + 1) =~= Seq::<int>::empty());
            }
            assert(Seq::<int>::empty() + greedy_starts(h, n, k + 1) =~= greedy_starts(h, n, k + 1));
        }
    } else {
        assert(h.subrange(from, from + n.len()) =~= t.subrange(from, from + n.len()));
        if is_match_at(h, n, from) {
            if from + n.len() <= k {
                lemma_greedy_newline_split(h, n, from + n.len(), k);
            }
            assert(greedy_starts(h, n, from) =~= seq![from] + greedy_starts(h, n, from + n.len()));
            assert(greedy_starts(t, n, from) =~= seq![from] + greedy_starts(t, n, from + n.len()));
            assert(greedy_starts(h, n, from) =~= greedy_starts(t, n, from) + greedy_starts(
                h,
                n,
                k + 1,
            ));
        } else {
            lemma_greedy_newline_split(h, n, from + 1, k);
            assert(greedy_starts(h, n, from) == greedy_starts(h, n, from + 1));
            assert(greedy_starts(t, n, from) == greedy_starts(t, n, from + 1));
        }
    }
}

/// A needle holding a newline occurs nowhere in bytes without newlines.
proof fn lemma_greedy_no_newline_haystack(h: Seq<u8>, n: Seq<u8>, from: int, t: int)
    requires
        0 <= t < n.len(),
        n[t] == 10u8,
        forall|i: int| 0 <= i < h.len() ==> h[i] != 10u8,
    ensures
        greedy_starts(h, n, from) == Seq::<int>::empty(),
    decreases h.len() - from,
{
    if n.len() == 0 || from < 0 || from + n.len() > h.len() {
    } else {
        if is_match_at(h, n, from) {
            assert(h.subrange(from, from + n.len())[t] == h[from + t]);
        }
        lemma_greedy_no_newline_haystack(h, n, from + 1, t);
    }
}

/// A byte between the start and the end of line `l` belongs to line `l`.
pub proof fn lemma_line_of_byte_in_line(m: IndexModel, l: int, x: int)
    requires
        m.wf(),
        0 <= l < m.total_lines(),
        m.line_start(l) <= x <= m.line_end(l),
        x < m.file_len,
    ensures
        m.line_of_byte(x) == l,
{
    lemma_byte_within_its_line(m, x);
    let k = m.line_of_byte(x);
    if k < l {
        assert(m.offsets[k] < m.offsets[l - 1] + 1) by {
            if k < l - 1 {
                assert(m.offsets[k] < m.offsets[l - 1]);
            }
        }
    } else if k > l {
        assert(m.offsets[l] < m.offsets[k - 1] + 1) by {
            if l < k - 1 {
                assert(m.offsets[l] < m.offsets[k - 1]);
            }
        }
    }
}

/// Bytes further in the file never belong to earlier lines.
pub proof fn lemma_line_of_byte_monotone(m: IndexModel, x: int, y: int)
    requires
        m.wf(),
        0 <= x <= y < m.file_len,
    ensures
        m.line_of_byte(x) <= m.line_of_byte(y),
{
    lemma_byte_within_its_line(m, x);
    lemma_byte_within_its_line(m, y);
    let lx = m.line_of_byte(x);
    let ly = m.line_of_byte(y);
    if ly < lx {
        assert(m.offsets[ly] < m.offsets[lx - 1] + 1) by {
            if ly < lx - 1 {
                assert(m.offsets[ly] < m.offsets[lx - 1]);
            }
        }
    }
}

/// Forward unfolding of the hits of a line range.
proof fn lemma_range_hits_front(
    d: Seq<u8>,
    m: IndexModel,
    f: spec_fn(Seq<u8>) -> Seq<(int, int)>,
    a: int,
    b: int,
)
    requires
        a < b,
    ensures
        range_hits(d, m, f, a, b) == line_hits(d, m, f, a) + range_hits(d, m, f, a + 1, b),
    decreases b - a,
{
    if b == a + 1 {
        assert(range_hits(d, m, f, a, a) =~= Seq::<SearchHit>::empty());
        assert(range_hits(d, m, f, a + 1, b) =~= Seq::<SearchHit>::empty());
        assert(range_hits(d, m, f, a, b) =~= line_hits(d, m, f, a));
    } else {
        lemma_range_hits_front(d, m, f, a, b - 1);
    }
}


/// Line starts do not decrease.
proof fn lemma_line_start_monotone(m: IndexModel, a: int, l: int)
    requires
        m.wf(),
        0 <= a <= l < m.total_lines(),
    ensures
        m.line_start(a) <= m.line_start(l),
{
    if a > 0 && a < l {
        assert(m.offsets[a - 1] < m.offsets[l - 1]);
    }
}

/// The byte span of lines `[a, b)` ends where line `b - 1` ends.
proof fn lemma_span_end_is_line_end(m: IndexModel, b: int)
    requires
        m.wf(),
        1 <= b <= m.total_lines(),
    ensures
        span_end(m, b) == m.line_end(b - 1),
{
}

/// On a needle without newline, the hits of line `l` under the
/// case-sensitive spans are the leftmost matches inside the line.
proof fn lemma_sensitive_line_hits(d: Seq<u8>, m: IndexModel, n: Seq<u8>, l: int)
    requires
        n.len() > 0,
    ensures
        line_hits(d, m, sensitive_spans_fn(n), l) == greedy_starts(
            d.subrange(m.line_start(l), m.line_end(l)),
            n,
            0,
        ).map_values(|q: int| hit_at(l, m.line_start(l) + q, m.line_start(l) + q + n.len())),
{
    let line = d.subrange(m.line_start(l), m.line_end(l));
    let g = greedy_starts(line, n, 0);
    if line.len() < n.len() {
        assert(g =~= Seq::<int>::empty());
    }
    let ls = m.line_start(l);
    assert(line_hits(d, m, sensitive_spans_fn(n), l) =~= g.map_values(
        |q: int| hit_at(l, ls + q, ls + q + n.len()),
    ));
}

/// Lines `[l, b)` of a span starting at line `a`: the fast path over the span
/// from line `l` on finds what the line-by-line scan finds on those lines.
proof fn lemma_fast_path_from_line(d: Seq<u8>, n: Seq<u8>, a: int, l: int, b: int)
    requires
        IndexModel::of(d).describes(d),
        n.len() > 0,
        forall|i: int| 0 <= i < n.len() ==> n[i] != 10u8,
        0 <= a <= l < b <= IndexModel::of(d).total_lines(),
    ensures
        ({
            let m = IndexModel::of(d);
            let s = m.line_start(a);
            let h = d.subrange(s, span_end(m, b));
            fast_hits(m, n.len() as int, s, greedy_starts(h, n, m.line_start(l) - s)) == range_hits(
                d,
                m,
                sensitive_spans_fn(n),
                l,
                b,
            )
        }),
    decreases b - l,
{
    let m = IndexModel::of(d);
    crate::ingest::lemma_model_wf(d);
    let s = m.line_start(a);
    let e = span_end(m, b);
    lemma_span_end_is_line_end(m, b);
    lemma_line_start_monotone(m, a, l);
    lemma_line_bounds(m, l);
    lemma_line_bounds(m, b - 1);
    lemma_line_start_monotone(m, l, b - 1);
    lemma_lines_of_buffer(d, l);
    let h = d.subrange(s, e);
    let x = m.line_start(l) - s;
    let ls = m.line_start(l);
    let le = m.line_end(l);
    let line = d.subrange(ls, le);
    let nl = n.len() as int;
    let f = sensitive_spans_fn(n);
    lemma_sensitive_line_hits(d, m, n, l);
    let g = greedy_starts(line, n, 0);
    lemma_greedy_starts_are_matches(line, n, 0);
    // the leftmost matches inside line `l`, as offsets into the span
    let p = shift_int(g, x);
    assert forall|i: int| 0 <= i < p.len() implies m.line_of_byte(s + #[trigger] p[i]) == l && s
        + p[i] + nl <= m.line_end(l) by {
        assert(is_match_at(line, n, g[i]));
        lemma_line_of_byte_in_line(m, l, ls + g[i]);
    }
    lemma_fast_hits_in_line(m, nl, s, p, l);
    assert(p.map_values(|q: int| hit_at(l, s + q, s + q + nl)) =~= g.map_values(
        |q: int| hit_at(l, ls + q, ls + q + nl),
    ));
    assert(range_hits(d, m, f, l, l) =~= Seq::<SearchHit>::empty());
    if l == b - 1 {
        assert(h.skip(x) =~= line);
        lemma_greedy_skip(h, n, x, 0);
        assert(range_hits(d, m, f, l, b) =~= line_hits(d, m, f, l));
    } else {
        lemma_line_start_monotone(m, l + 1, b - 1);
        let k = le - s;
        assert(h[k] == d[le]);
        lemma_greedy_newline_split(h, n, x, k);
        assert(h.take(k).skip(x) =~= line);
        lemma_greedy_skip(h.take(k), n, x, 0);
        lemma_fast_path_from_line(d, n, a, l + 1, b);
        assert(k + 1 == m.line_start(l + 1) - s);
        lemma_fast_hits_concat(m, nl, s, p, greedy_starts(h, n, k + 1));
        lemma_range_hits_front(d, m, f, l, b);
    }
}

/// Hits kept by the fast path lie inside one line; a needle holding a
/// newline can therefore never be kept.
proof fn lemma_fast_hits_newline_needle(d: Seq<u8>, n: Seq<u8>, s: int, e: int, p: Seq<int>, t: int)
    requires
        IndexModel::of(d).describes(d),
        0 <= s <= e <= d.len(),
        0 <= t < n.len(),
        n[t] == 10u8,
        forall|i: int| 0 <= i < p.len() ==> is_match_at(d.subrange(s, e), n, #[trigger] p[i]),
    ensures
        fast_hits(IndexModel::of(d), n.len() as int, s, p) == Seq::<SearchHit>::empty(),
    decreases p.len(),
{
    let m = IndexModel::of(d);
    if p.len() > 0 {
        let q = p.drop_last();
        assert forall|i: int| 0 <= i < q.len() implies is_match_at(
            d.subrange(s, e),
            n,
            #[trigger] q[i],
        ) by {
            assert(q[i] == p[i]);
        }
        lemma_fast_hits_newline_needle(d, n, s, e, q, t);
        let last = p[p.len() - 1];
        assert(is_match_at(d.subrange(s, e), n, last));
        let abs = s + last;
        crate::ingest::lemma_model_wf(d);
        lemma_byte_within_its_line(m, abs);
        let l = m.line_of_byte(abs);
        if abs + n.len() <= m.line_end(l) {
            lemma_lines_of_buffer(d, l);
            assert(d.subrange(s, e).subrange(last, last + n.len())[t] == d[abs + t]);
        }
    }
}

proof fn lemma_range_hits_newline_needle(d: Seq<u8>, n: Seq<u8>, a: int, b: int, t: int)
    requires
        IndexModel::of(d).describes(d),
        0 <= t < n.len(),
        n[t] == 10u8,
        0 <= a,
        b <= IndexModel::of(d).total_lines(),
    ensures
        range_hits(d, IndexModel::of(d), sensitive_spans_fn(n), a, b) == Seq::<SearchHit>::empty(),
    decreases b - a,
{
    let m = IndexModel::of(d);
    if b > a {
        lemma_range_hits_newline_needle(d, n, a, b - 1, t);
        lemma_lines_of_buffer(d, b - 1);
        let line = d.subrange(m.line_start(b - 1), m.line_end(b - 1));
        lemma_greedy_no_newline_haystack(line, n, 0, t);
        lemma_sensitive_line_hits(d, m, n, b - 1);
        assert(line_hits(d, m, sensitive_spans_fn(n), b - 1) =~= Seq::<SearchHit>::empty());
        assert(range_hits(d, m, sensitive_spans_fn(n), a, b) =~= Seq::<SearchHit>::empty());
    }
}

/// One leftmost scan of the whole byte span of lines `[a, b)`, keeping the
/// matches that fit inside a line, finds exactly the hits a line-by-line
/// case-sensitive scan finds, in the same order.
pub proof fn lemma_fast_path_finds_line_hits(d: Seq<u8>, n: Seq<u8>, a: int, b: int)
    requires
        IndexModel::of(d).describes(d),
        n.len() > 0,
        0 <= a < b <= IndexModel::of(d).total_lines(),
    ensures
        ({
            let m = IndexModel::of(d);
            let s = m.line_start(a);
            fast_hits(m, n.len() as int, s, greedy_starts(d.subrange(s, span_end(m, b)), n, 0))
                == range_hits(d, m, sensitive_spans_fn(n), a, b)
        }),
{
    let m = IndexModel::of(d);
    crate::ingest::lemma_model_wf(d);
    let s = m.line_start(a);
    let e = span_end(m, b);
    lemma_span_end_is_line_end(m, b);
    lemma_line_start_monotone(m, a, b - 1);
    lemma_line_bounds(m, b - 1);
    if exists|t: int| 0 <= t < n.len() && n[t] == 10u8 {
        let t = choose|t: int| 0 <= t < n.len() && n[t] == 10u8;
        let h = d.subrange(s, e);
        lemma_greedy_starts_are_matches(h, n, 0);
        lemma_fast_hits_newline_needle(d, n, s, e, greedy_starts(h, n, 0), t);
        lemma_range_hits_newline_needle(d, n, a, b, t);
    } else {
        lemma_fast_path_from_line(d, n, a, a, b);
    }
}


proof fn lemma_fast_hits_prefix(m: IndexModel, n_len: int, base: int, all: Seq<int>, i: int)
    requires
        0 <= i <= all.len(),
    ensures
        fast_hits(m, n_len, base, all.take(i)).len() <= fast_hits(m, n_len, base, all).len(),
        fast_hits(m, n_len, base, all.take(i)) == fast_hits(m, n_len, base, all).take(
            fast_hits(m, n_len, base, all.take(i)).len() as int,
        ),
{
    assert(all =~= all.take(i) + all.skip(i));
    lemma_fast_hits_concat(m, n_len, base, all.take(i), all.skip(i));
    let x = fast_hits(m, n_len, base, all.take(i));
    let y = fast_hits(m, n_len, base, all.skip(i));
    assert((x + y).take(x.len() as int) =~= x);
}

/// Case-sensitive substring scan of lines `[start_line, end_line)` in one
/// pass over their bytes: each leftmost match of `needle` that fits inside a
/// line becomes a hit on that line, taking one slot; hits
/// are grouped into batches of `batch_hit_target`, a copy of each handed to
/// `on_batch` as soon as it is made when `stream` is set; the scan stops
/// early when cancellation is requested.
#[verifier::spinoff_prover]
#[verifier::rlimit(60)]
pub fn scan_line_span<S: Fn(Signal) -> bool, F: FnMut(SearchBatch)>(
    data: &[u8],
    index: &NewlineIndex,
    needle: &[u8],
    start_line: u64,
    end_line: u64,
    stage: SearchStage,
    batch_hit_target: usize,
    slots: &mut HitSlots,
    signals: &S,
    on_batch: &mut F,
    stream: bool,
) -> (res: Result<(Vec<SearchBatch>, bool)>)
    requires
        stream ==> forall|g: F, b: SearchBatch| streamed_ok(data@, index@, sensitive_spans_fn(needle@), start_line as int, end_line as int, stage, batch_hit_target as int, b) ==> call_requires(g, (b,)),
        index@.describes(data@),
        signals_ready(*signals),
        start_line <= end_line <= index@.total_lines(),
        batch_hit_target >= 1,
        needle@.len() > 0,
    ensures
        res matches Ok((bs, interrupted)) && pass_outcome(
            data@,
            index@,
            sensitive_spans_fn(needle@),
            start_line as int,
            end_line as int,
            stage,
            batch_hit_target as int,
            *old(slots),
            *final(slots),
            bs@,
            interrupted,
            signals_quiet(*signals),
            signals_cancelled(*signals),
        ),
{
    proof {
        use_type_invariant(index);
    }
    let ghost d = data@;
    let ghost m = index@;
    let ghost f = sensitive_spans_fn(needle@);
    let ghost nl = needle@.len() as int;
    let ghost before = *slots;
    let ghost target = batch_hit_target as int;
    let ghost h_all = range_hits(d, m, f, start_line as int, end_line as int);
    let byte_range = line_range_byte_bounds(index, Range { start: start_line, end: end_line })?;
    if byte_range.start >= byte_range.end {
        let empty: Vec<SearchBatch> = Vec::new();
        proof {
            assert(flatten(empty@) =~= Seq::<SearchHit>::empty());
            if start_line == end_line {
                assert(h_all =~= Seq::<SearchHit>::empty());
            } else {
                lemma_fast_path_finds_line_hits(d, needle@, start_line as int, end_line as int);
                let hb = d.subrange(byte_range.start as int, byte_range.end as int);
                crate::ingest::lemma_model_wf(d);
                lemma_line_start_monotone(m, start_line as int, end_line - 1);
                lemma_line_bounds(m, end_line - 1);
                lemma_span_end_is_line_end(m, end_line as int);
                assert(greedy_starts(d.subrange(m.line_start(start_line as int), span_end(m, end_line as int)), needle@, 0)
                    =~= Seq::<int>::empty());
                assert(fast_hits(m, nl, m.line_start(start_line as int), Seq::<int>::empty())
                    =~= Seq::<SearchHit>::empty());
            }
            assert(h_all.take(0) =~= Seq::<SearchHit>::empty());
        }
        return Ok((empty, false));
    }
    proof {
        crate::ingest::lemma_model_wf(d);
        lemma_line_start_monotone(m, start_line as int, end_line - 1);
        lemma_line_bounds(m, end_line - 1);
        lemma_span_end_is_line_end(m, end_line as int);
        lemma_fast_path_finds_line_hits(d, needle@, start_line as int, end_line as int);
        crate::ingest::lemma_line_start_roundtrip(m, start_line as int);
    }
    let mut current_line = start_line;
    let mut current_line_range = index.line_byte_range(LineNumber(current_line))?;
    let base = byte_range.start;
    let bytes = slice_subrange(data, base as usize, byte_range.end as usize);
    let starts = memmem_find_all(bytes, needle);
    let ghost s0 = base as int;
    let ghost e0 = byte_range.end as int;
    let ghost all = greedy_starts(bytes@, needle@, 0);
    proof {
        lemma_greedy_starts_are_matches(bytes@, needle@, 0);
    }
    let mut batches: Vec<SearchBatch> = Vec::new();
    let mut batch_hits: Vec<SearchHit> = Vec::new();
    let mut batch_start: Option<u64> = None;
    let mut interrupted = false;
    let mut stop = false;
    let mut i: usize = 0;
    assert(flatten(batches@) + batch_hits@ =~= Seq::<SearchHit>::empty());
    assert(all.take(0) =~= Seq::<int>::empty());
    while i < starts.len() && !stop
        invariant
            m == index@,
            d == data@,
            m.wf(),
            m.describes(d),
            d.len() == m.file_len,
            f == sensitive_spans_fn(needle@),
            nl == needle@.len(),
            nl > 0,
            target == batch_hit_target,
            target >= 1,
            start_line < end_line <= m.total_lines(),
            s0 == base,
            s0 == m.line_start(start_line as int),
            e0 == span_end(m, end_line as int),
            e0 == m.line_end(end_line - 1),
            s0 < e0 <= m.file_len,
            bytes@ == d.subrange(s0, e0),
            all == greedy_starts(bytes@, needle@, 0),
            h_all == range_hits(d, m, f, start_line as int, end_line as int),
            fast_hits(m, nl, s0, all) == h_all,
            starts@.len() == all.len(),
            forall|k: int| 0 <= k < starts@.len() ==> #[trigger] starts@[k] == all[k],
            forall|k: int| 0 <= k < all.len() ==> is_match_at(bytes@, needle@, #[trigger] all[k]),
            forall|k: int, j: int| 0 <= k < j < all.len() ==> all[k] + nl <= all[j],
            m.line_of_byte(m.line_start(start_line as int)) == start_line,
            i <= starts@.len(),
            start_line <= current_line < end_line,
            current_line_range.start.0 == m.line_start(current_line as int),
            current_line_range.end.0 == m.line_end(current_line as int),
            i == 0 ==> current_line == start_line,
            i > 0 ==> current_line == m.line_of_byte(s0 + all[i - 1]),
            ({
                let fi = fast_hits(m, nl, s0, all.take(i as int));
                let got = flatten(batches@) + batch_hits@;
                &&& got.len() <= fi.len()
                &&& got == fi.take(got.len() as int)
                &&& !stop ==> got.len() == fi.len()
                &&& (before is Budget <==> *slots is Budget)
                &&& before matches HitSlots::Budget(n0) ==> (*slots matches HitSlots::Budget(n)
                    && got.len() == n0 - n)
                &&& signals_quiet(*signals) && stop ==> *slots == HitSlots::Budget(0)
                &&& signals_cancelled(*signals) ==> got.len() == 0
            }),
            signals_ready(*signals),
            stream ==> forall|g: F, b: SearchBatch| streamed_ok(data@, index@, sensitive_spans_fn(needle@), start_line as int, end_line as int, stage, batch_hit_target as int, b) ==> call_requires(g, (b,)),
            signals_quiet(*signals) ==> !interrupted,
            batches_well_formed(batches@, stage, target),
            batches_within(batches@, start_line as int, end_line as int),
            forall|k: int| 0 <= k < batches@.len() ==> (#[trigger] batches@[k]).hits@.len() == target,
            batch_hits@.len() < target,
            batch_hits@.len() > 0 <==> batch_start is Some,
            batch_start matches Some(bs) ==> start_line <= bs && forall|k: int|
                0 <= k < batch_hits@.len() ==> bs <= (#[trigger] batch_hits@[k]).line.0
                    <= current_line,
            !stop ==> !interrupted,
        decreases starts.len() - i, if stop { 0int } else { 1int },
    {
        if signals(Signal::Cancelled) {
            interrupted = true;
            stop = true;
        } else {
            assert(!signals_cancelled(*signals));
            let p = starts[i];
            let ghost pi = all[i as int];
            assert(p == pi);
            assert(is_match_at(bytes@, needle@, pi));
            let absolute_start = base + p as u64;
            let absolute_end = absolute_start + needle.len() as u64;
            let ghost target_line = m.line_of_byte(absolute_start as int);
            proof {
                lemma_byte_within_its_line(m, absolute_start as int);
                if i == 0 {
                    lemma_line_of_byte_monotone(m, s0, absolute_start as int);
                } else {
                    assert(all[i - 1] + nl <= all[i as int]);
                    lemma_line_of_byte_monotone(m, s0 + all[i - 1], absolute_start as int);
                }
                if target_line >= end_line {
                    lemma_line_start_monotone(m, end_line as int, target_line);
                    lemma_line_bounds(m, end_line - 1);
                }
            }
            while current_line + 1 < end_line && absolute_start > current_line_range.end.0
                invariant
                    m == index@,
                    m.wf(),
                    start_line <= current_line <= target_line < end_line <= m.total_lines(),
                    target_line == m.line_of_byte(absolute_start as int),
                    m.line_start(target_line) <= absolute_start <= m.line_end(target_line),
                    current_line_range.start.0 == m.line_start(current_line as int),
                    current_line_range.end.0 == m.line_end(current_line as int),
                decreases end_line - current_line,
            {
                proof {
                    if current_line == target_line {
                        // cannot happen: the match starts inside the current line
                        assert(absolute_start <= m.line_end(current_line as int));
                    }
                }
                current_line = current_line + 1;
                current_line_range = index.line_byte_range(LineNumber(current_line))?;
            }
            proof {
                if current_line < target_line {
                    lemma_line_bounds(m, current_line as int);
                    lemma_line_start_monotone(m, current_line + 1, target_line);
                }
                assert(current_line == target_line);
                assert(all.take(i + 1).drop_last() =~= all.take(i as int));
            }
            if absolute_start < current_line_range.start.0
                || absolute_end > current_line_range.end.0 {
                // the match runs past the end of its line
                assert(fast_hits(m, nl, s0, all.take(i + 1)) == fast_hits(m, nl, s0, all.take(i as int)));
            } else if !slots.take(signals) {
                proof {
                    let fi = fast_hits(m, nl, s0, all.take(i as int));
                    let x = hit_at(target_line, absolute_start as int, absolute_end as int);
                    let got = flatten(batches@) + batch_hits@;
                    assert(fast_hits(m, nl, s0, all.take(i + 1)) == fi.push(x));
                    assert(got =~= fi.push(x).take(got.len() as int));
                }
                stop = true;
            } else {
                if batch_start.is_none() {
                    batch_start = Some(current_line);
                }
                let hit = SearchHit {
                    line: LineNumber(current_line),
                    byte_range: ByteRange::new(ByteOffset(absolute_start), ByteOffset(absolute_end))?,
                };
                let ghost fi = fast_hits(m, nl, s0, all.take(i as int));
                let ghost got = flatten(batches@) + batch_hits@;
                proof {
                    assert(fast_hits(m, nl, s0, all.take(i + 1)) == fi.push(hit));
                    assert(got.push(hit) =~= fi.push(hit).take(got.len() + 1int));
                }
                let ghost before = batch_hits@;
                batch_hits.push(hit);
                assert(flatten(batches@) + batch_hits@ =~= got.push(hit));
                proof {
                    let bs = batch_start->Some_0;
                    if before.len() > 0 {
                        assert(bs <= before[0].line.0);
                    }
                    assert forall|k: int| 0 <= k < batch_hits@.len() implies bs <= (
                    #[trigger] batch_hits@[k]).line.0 <= current_line by {
                        if k < before.len() {
                            assert(batch_hits@[k] == before[k]);
                        }
                    }
                }
                if batch_hits.len() >= batch_hit_target {
                    let range_start = match batch_start {
                        Some(s) => s,
                        None => current_line,
                    };
                    let ghost collected = batch_hits@;
                    let mut full: Vec<SearchHit> = Vec::new();
                    std::mem::swap(&mut full, &mut batch_hits);
                    assert(full@ == collected);
                    assert forall|k: int| 0 <= k < full@.len() implies range_start <= (
                    #[trigger] full@[k]).line.0 < current_line + 1 by {
                        assert(full@[k] == collected[k]);
                    }
                    let batch = SearchBatch {
                        stage,
                        line_range: Range {
                            start: LineNumber(range_start),
                            end: LineNumber(current_line + 1),
                        },
                        hits: full,
                    };
                    let ghost prev_batches = batches@;
                    if stream {
                        let copy = batch.clone();
                        proof {
                            assert(batch_covers_its_hits(batch));
                            assert(range_start <= batch.hits@[0].line.0);
                            lemma_fast_hits_prefix(m, nl, s0, all, i + 1);
                            assert(flatten(prev_batches) + collected =~= h_all.take((flatten(prev_batches) + collected).len() as int));
                            lemma_tail_of_prefix_in(flatten(prev_batches), collected, h_all);
                            assert(streamed_ok(d, m, f, start_line as int, end_line as int, stage, target, copy));
                        }
                        on_batch(copy);
                    }
                    batches.push(batch);
                    proof {
                        lemma_flatten_push(prev_batches, batch);
                        assert(batches@ == prev_batches.push(batch));
                        assert(flatten(batches@) + batch_hits@ =~= flatten(prev_batches) + full@);
                        assert(batch_covers_its_hits(batch));
                        assert(batch_within(batch, start_line as int, end_line as int));
                        assert forall|k: int| 0 <= k < batches@.len() implies batch_within(
                            #[trigger] batches@[k],
                            start_line as int,
                            end_line as int,
                        ) by {
                            if k < prev_batches.len() {
                                assert(batches@[k] == prev_batches[k]);
                            }
                        }
                        assert forall|k: int| 0 <= k < batches@.len() implies {
                            &&& (#[trigger] batches@[k]).stage == stage
                            &&& 1 <= batches@[k].hits@.len() <= target
                            &&& k < batches@.len() - 1 ==> batches@[k].hits@.len() == target
                            &&& batch_covers_its_hits(batches@[k])
                        } by {
                            if k < prev_batches.len() {
                                assert(batches@[k] == prev_batches[k]);
                            }
                        }
                    }
                    batch_start = None;
                }
            }
            i = i + 1;
        }
    }
    proof {
        lemma_fast_hits_prefix(m, nl, s0, all, i as int);
        if i == starts.len() {
            assert(all.take(i as int) =~= all);
        }
    }
    if batch_hits.len() > 0 {
        let range_start = match batch_start {
            Some(s) => s,
            None => start_line,
        };
        let ghost collected = batch_hits@;
        let batch = SearchBatch {
            stage,
            line_range: Range { start: LineNumber(range_start), end: LineNumber(current_line + 1) },
            hits: batch_hits,
        };
        assert(batch.hits@ == collected);
        assert forall|k: int| 0 <= k < batch.hits@.len() implies range_start <= (
        #[trigger] batch.hits@[k]).line.0 < current_line + 1 by {
            assert(batch.hits@[k] == collected[k]);
        }
        let ghost prev_batches = batches@;
        if stream {
            let copy = batch.clone();
            proof {
                assert(batch_covers_its_hits(batch));
                assert(range_start <= batch.hits@[0].line.0);
                lemma_fast_hits_prefix(m, nl, s0, all, i as int);
                assert(flatten(prev_batches) + collected =~= h_all.take((flatten(prev_batches) + collected).len() as int));
                lemma_tail_of_prefix_in(flatten(prev_batches), collected, h_all);
                assert(streamed_ok(d, m, f, start_line as int, end_line as int, stage, target, copy));
            }
            on_batch(copy);
        }
        batches.push(batch);
        proof {
            lemma_flatten_push(prev_batches, batch);
            assert(batches@ == prev_batches.push(batch));
            assert(batch_covers_its_hits(batch));
                        assert(range_start <= batch.hits@[0].line.0);
                        assert(batch_within(batch, start_line as int, end_line as int));
                        assert forall|k: int| 0 <= k < batches@.len() implies batch_within(
                            #[trigger] batches@[k],
                            start_line as int,
                            end_line as int,
                        ) by {
                            if k < prev_batches.len() {
                                assert(batches@[k] == prev_batches[k]);
                            }
                        }
            assert forall|k: int| 0 <= k < batches@.len() implies {
                &&& (#[trigger] batches@[k]).stage == stage
                &&& 1 <= batches@[k].hits@.len() <= target
                &&& k < batches@.len() - 1 ==> batches@[k].hits@.len() == target
                &&& batch_covers_its_hits(batches@[k])
            } by {
                if k < prev_batches.len() {
                    assert(batches@[k] == prev_batches[k]);
                }
            }
        }
    } else {
        assert(flatten(batches@) + batch_hits@ =~= flatten(batches@));
    }
    proof {
        let fi = fast_hits(m, nl, s0, all.take(i as int));
        let got = flatten(batches@);
        assert(got =~= h_all.take(got.len() as int));
    }
    Ok((batches, interrupted))
}

} // verus!
