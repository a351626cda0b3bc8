//! The visible-first search engine: the lines on screen are scanned first,
//! then the rest of the file in chunks of lines, in parallel.

use crate::flags::{
    ask_shared, flag_always_set, flag_never_set, lemma_shared_answers_cancelled,
    lemma_shared_answers_quiet, new_slot_pool, pools_never_dry,
    shared_answer, signals_cancelled, signals_quiet, signals_ready, HitSlots, Signal,
};
use crate::ingest::{lemma_line_bounds, lemma_lines_of_buffer, IndexModel, NewlineIndex};
use crate::span_scan::{scan_line_span, sensitive_spans_fn};
use rayon::iter::{IntoParallelRefIterator, ParallelIterator};
use crate::matching::{
    compile_regex, find_substring_offsets, regex_find_all, regex_find_spans, regex_rejection,
    spans_of, substring_spans, CompiledRegex,
};
use crate::types::{
    ByteOffset, ByteRange, LineNumber, Result, SearchMode, SearchQuery, TachyonError,
};
use std::ops::Range;
use std::sync::atomic::{AtomicBool, AtomicUsize};
use vstd::prelude::*;
use vstd::slice::slice_subrange;
use vstd::utf8::encode_utf8;

verus! {

/// One match: the line it is on and its bytes in the file.
#[derive(Debug, Clone, Copy, PartialEq, Eq, Structural)]
pub struct SearchHit {
    pub line: LineNumber,
    pub byte_range: ByteRange,
}

/// Which pass of the search produced a batch.
#[derive(Debug, Clone, Copy, PartialEq, Eq, Structural)]
pub enum SearchStage {
    Visible,
    Background,
}

/// A group of hits handed to the caller at once.
#[derive(Debug, PartialEq, Eq)]
pub struct SearchBatch {
    pub stage: SearchStage,
    pub line_range: Range<LineNumber>,
    pub hits: Vec<SearchHit>,
}

/// Tuning of a search: the lines scanned first, the size of the background
/// chunks, the hit limit and the preferred batch size.
#[derive(Debug)]
pub struct SearchConfig {
    pub visible_lines: Range<LineNumber>,
    pub chunk_lines: u64,
    pub max_hits: usize,
    pub batch_hit_target: usize,
}

impl Clone for SearchBatch {
    fn clone(&self) -> (c: SearchBatch)
        ensures
            c.stage == self.stage,
            c.line_range == self.line_range,
            c.hits@ == self.hits@,
    {
        SearchBatch {
            stage: self.stage,
            line_range: Range { start: self.line_range.start, end: self.line_range.end },
            hits: self.hits.clone(),
        }
    }
}

impl Clone for SearchConfig {
    fn clone(&self) -> (c: SearchConfig)
        ensures
            c == *self,
    {
        SearchConfig {
            visible_lines: Range { start: self.visible_lines.start, end: self.visible_lines.end },
            chunk_lines: self.chunk_lines,
            max_hits: self.max_hits,
            batch_hit_target: self.batch_hit_target,
        }
    }
}

impl SearchConfig {
    /// Default tuning around the given visible lines.
    pub fn with_visible_lines(visible_lines: Range<LineNumber>) -> (c: SearchConfig)
        ensures
            c.visible_lines == visible_lines,
            c.chunk_lines == 8192,
            c.max_hits == 5000,
            c.batch_hit_target == 256,
    {
        SearchConfig { visible_lines, chunk_lines: 8192, max_hits: 5000, batch_hit_target: 256 }
    }
}

/// A query made ready to run.
pub enum CompiledQuery {
    Substring { needle: Vec<u8>, case_sensitive: bool },
    Regex(CompiledRegex),
}

/// Regex spans as integers.
pub open spec fn int_spans(s: Seq<(usize, usize)>) -> Seq<(int, int)> {
    s.map_values(|p: (usize, usize)| (p.0 as int, p.1 as int))
}

/// The spans the query finds inside one line.
pub open spec fn query_spans(q: SearchQuery, line: Seq<u8>) -> Seq<(int, int)> {
    match q.mode {
        SearchMode::Substring { case_sensitive } => substring_spans(
            line,
            encode_utf8(q.pattern@),
            case_sensitive,
        ),
        SearchMode::Regex => int_spans(regex_find_spans(q.pattern@, line)),
    }
}

/// Whether a query can run: a substring query needs a pattern, a regex query
/// a pattern the regex engine accepts.
pub open spec fn query_accepted(q: SearchQuery) -> bool {
    match q.mode {
        SearchMode::Substring { .. } => q.pattern@.len() > 0,
        SearchMode::Regex => regex_rejection(q.pattern@) is None,
    }
}

/// The message of the error a rejected query gets.
pub open spec fn rejection_message(q: SearchQuery) -> Seq<char> {
    match q.mode {
        SearchMode::Substring { .. } => "substring pattern must not be empty"@,
        SearchMode::Regex => regex_rejection(q.pattern@)->Some_0,
    }
}

impl CompiledQuery {
    /// The spans this compiled query finds inside one line.
    pub open spec fn spans(&self, line: Seq<u8>) -> Seq<(int, int)> {
        match self {
            CompiledQuery::Substring { needle, case_sensitive } => substring_spans(
                line,
                needle@,
                *case_sensitive,
            ),
            CompiledQuery::Regex(re) => int_spans(regex_find_spans(re@, line)),
        }
    }

    /// This compiled query runs `q`.
    pub open spec fn implements(&self, q: SearchQuery) -> bool {
        match self {
            CompiledQuery::Substring { needle, case_sensitive } => q.mode == (SearchMode::Substring {
                case_sensitive: *case_sensitive,
            }) && needle@ == encode_utf8(q.pattern@) && q.pattern@.len() > 0,
            CompiledQuery::Regex(re) => q.mode == SearchMode::Regex && re@ == q.pattern@,
        }
    }

    /// Compiles `query`; an empty substring or a pattern the regex engine
    /// refuses is an invalid query.
    pub fn compile(query: &SearchQuery) -> (res: Result<CompiledQuery>)
        ensures
            res is Ok <==> query_accepted(*query),
            res matches Ok(c) ==> c.implements(*query),
            res matches Err(e) ==> (e matches TachyonError::InvalidQuery(m) && m@
                == rejection_message(*query)),
    {
        match &query.mode {
            SearchMode::Substring { case_sensitive } => {
                if query.pattern.as_str().is_empty() {
                    return Err(
                        TachyonError::InvalidQuery("substring pattern must not be empty".to_owned()),
                    );
                }
                let needle = vstd::slice::slice_to_vec(query.pattern.as_str().as_bytes());
                Ok(CompiledQuery::Substring { needle, case_sensitive: *case_sensitive })
            },
            SearchMode::Regex => match compile_regex(query.pattern.as_str()) {
                Ok(re) => Ok(CompiledQuery::Regex(re)),
                Err(message) => Err(TachyonError::InvalidQuery(message)),
            },
        }
    }

    /// The spans of the matches inside `line_bytes`.
    #[verifier::spinoff_prover]
    pub fn find_offsets(&self, line_bytes: &[u8]) -> (ranges: Vec<Range<usize>>)
        ensures
            spans_of(ranges@) == self.spans(line_bytes@),
            forall|i: int|
                0 <= i < ranges@.len() ==> (#[trigger] ranges@[i]).start <= ranges@[i].end
                    <= line_bytes@.len(),
    {
        match self {
            CompiledQuery::Substring { needle, case_sensitive } => find_substring_offsets(
                line_bytes,
                needle.as_slice(),
                *case_sensitive,
            ),
            CompiledQuery::Regex(re) => {
                let found = regex_find_all(re, line_bytes);
                let mut ranges: Vec<Range<usize>> = Vec::new();
                let mut i: usize = 0;
                while i < found.len()
                    invariant
                        i <= found@.len(),
                        found@ == regex_find_spans(re@, line_bytes@),
                        forall|k: int|
                            0 <= k < found@.len() ==> #[trigger] found@[k].0 <= found@[k].1
                                <= line_bytes@.len(),
                        spans_of(ranges@) == int_spans(found@).take(i as int),
                        forall|k: int|
                            0 <= k < ranges@.len() ==> (#[trigger] ranges@[k]).start
                                <= ranges@[k].end <= line_bytes@.len(),
                    decreases found.len() - i,
                {
                    let (s, e) = found[i];
                    let ghost prev = ranges@;
                    let r = Range { start: s, end: e };
                    ranges.push(r);
                    assert(ranges@ == prev.push(r));
                    assert(spans_of(ranges@) =~= spans_of(prev).push((s as int, e as int)));
                    i = i + 1;
                    assert(spans_of(ranges@) =~= int_spans(found@).take(i as int));
                }
                assert(int_spans(found@).take(i as int) =~= int_spans(found@));
                ranges
            },
        }
    }
}

/// A compiled query finds in a line exactly what the query it implements
/// finds there.
pub proof fn lemma_compiled_spans(c: CompiledQuery, q: SearchQuery, line: Seq<u8>)
    requires
        c.implements(q),
    ensures
        c.spans(line) == query_spans(q, line),
{
}


/// Spans function of a query.
pub open spec fn query_spans_fn(q: SearchQuery) -> spec_fn(Seq<u8>) -> Seq<(int, int)> {
    |line: Seq<u8>| query_spans(q, line)
}

impl CompiledQuery {
    /// Spans function of a compiled query.
    pub open spec fn spans_fn(&self) -> spec_fn(Seq<u8>) -> Seq<(int, int)> {
        |line: Seq<u8>| self.spans(line)
    }
}

/// The hit on line `l` covering bytes `[s, e)`.
pub open spec fn hit_at(l: int, s: int, e: int) -> SearchHit {
    SearchHit {
        line: LineNumber(l as u64),
        byte_range: ByteRange { start: ByteOffset(s as u64), end: ByteOffset(e as u64) },
    }
}

/// The hits on line `l` of buffer `d`: the spans `f` finds in the line's
/// bytes, made absolute.
pub open spec fn line_hits(
    d: Seq<u8>,
    m: IndexModel,
    f: spec_fn(Seq<u8>) -> Seq<(int, int)>,
    l: int,
) -> Seq<SearchHit> {
    let ls = m.line_start(l);
    f(d.subrange(ls, m.line_end(l))).map_values(|sp: (int, int)| hit_at(l, ls + sp.0, ls + sp.1))
}

/// The hits on lines `[a, b)`, line by line.
pub open spec fn range_hits(
    d: Seq<u8>,
    m: IndexModel,
    f: spec_fn(Seq<u8>) -> Seq<(int, int)>,
    a: int,
    b: int,
) -> Seq<SearchHit>
    decreases b - a,
{
    if b <= a {
        Seq::empty()
    } else {
        range_hits(d, m, f, a, b - 1) + line_hits(d, m, f, b - 1)
    }
}

/// The hits of a list of batches, in order.
pub open spec fn flatten(bs: Seq<SearchBatch>) -> Seq<SearchHit>
    decreases bs.len(),
{
    if bs.len() == 0 {
        Seq::empty()
    } else {
        flatten(bs.drop_last()) + bs.last().hits@
    }
}

/// The batch's line range lies inside lines `[a, b)` and does not run
/// backwards.
pub open spec fn batch_within(b: SearchBatch, a: int, e: int) -> bool {
    a <= b.line_range.start.0 <= b.line_range.end.0 <= e
}

/// Every batch's line range lies inside lines `[a, b)`.
pub open spec fn batches_within(bs: Seq<SearchBatch>, a: int, e: int) -> bool {
    forall|k: int| 0 <= k < bs.len() ==> batch_within(#[trigger] bs[k], a, e)
}

/// `x` is a run of consecutive hits of `r`: `r` holds them, in order and
/// with none left out between them, from some position on.
pub open spec fn is_run_of(x: Seq<SearchHit>, r: Seq<SearchHit>) -> bool {
    exists|s: int| 0 <= s && s + x.len() <= r.len() && #[trigger] r.skip(s).take(x.len() as int) == x
}

/// A batch that a scan of lines `[a, e)` may stream: of the scan's stage,
/// holding at least one hit and at most `target`, inside the scanned lines, covering its hits, and holding a run
/// of consecutive hits that the query finds on those lines.
pub open spec fn streamed_ok(
    d: Seq<u8>,
    m: IndexModel,
    f: spec_fn(Seq<u8>) -> Seq<(int, int)>,
    a: int,
    e: int,
    stage: SearchStage,
    target: int,
    b: SearchBatch,
) -> bool {
    &&& b.stage == stage
    &&& 1 <= b.hits@.len() <= target
    &&& batch_within(b, a, e)
    &&& batch_covers_its_hits(b)
    &&& is_run_of(b.hits@, range_hits(d, m, f, a, e))
}

/// The hits that follow `prefix` in a prefix of `r` are a run of
/// consecutive hits of `r`.
pub(crate) proof fn lemma_tail_of_prefix_in(prefix: Seq<SearchHit>, bh: Seq<SearchHit>, r: Seq<SearchHit>)
    requires
        (prefix + bh).len() <= r.len(),
        prefix + bh == r.take((prefix + bh).len() as int),
    ensures
        forall|k: int| 0 <= k < bh.len() ==> r.contains(#[trigger] bh[k]),
        is_run_of(bh, r),
{
    let p = prefix.len() as int;
    assert forall|k: int| 0 <= k < bh.len() implies r.skip(p).take(bh.len() as int)[k] == bh[k] by {
        assert((prefix + bh)[p + k] == bh[k]);
        assert(r[p + k] == bh[k]);
    }
    assert(r.skip(p).take(bh.len() as int) =~= bh);
    assert forall|k: int| 0 <= k < bh.len() implies r.contains(#[trigger] bh[k]) by {
        assert((prefix + bh)[prefix.len() + k] == bh[k]);
        assert(r[prefix.len() + k] == bh[k]);
    }
}

/// Every hit of the batch lies on a line of the batch's line range.
pub open spec fn batch_covers_its_hits(b: SearchBatch) -> bool {
    forall|j: int|
        0 <= j < b.hits@.len() ==> b.line_range.start.0 <= (#[trigger] b.hits@[j]).line.0
            < b.line_range.end.0
}

/// Batches of one stage, each non-empty, holding `target` hits except the
/// last one (which may hold fewer), each covering its hits.
pub open spec fn batches_well_formed(bs: Seq<SearchBatch>, stage: SearchStage, target: int) -> bool {
    forall|i: int|
        0 <= i < bs.len() ==> {
            &&& (#[trigger] bs[i]).stage == stage
            &&& 1 <= bs[i].hits@.len() <= target
            &&& i < bs.len() - 1 ==> bs[i].hits@.len() == target
            &&& batch_covers_its_hits(bs[i])
        }
}

/// `min(a, b)`.
pub open spec fn min_of(a: int, b: int) -> int {
    if a <= b { a } else { b }
}

/// Consecutive ranges of at most `cl` lines covering `[start, end)`.
pub open spec fn chunk_ranges(start: int, end: int, cl: int) -> Seq<(int, int)>
    decreases end - start,
{
    if start >= end || cl <= 0 {
        Seq::empty()
    } else {
        seq![(start, min_of(start + cl, end))] + chunk_ranges(min_of(start + cl, end), end, cl)
    }
}

/// Ranges of a list of `Range<u64>`.
pub open spec fn ranges_of(v: Seq<Range<u64>>) -> Seq<(int, int)> {
    v.map_values(|r: Range<u64>| (r.start as int, r.end as int))
}

/// The lines outside the visible window, cut into chunks of `cl` lines:
/// first those above it, then those below it.
pub open spec fn background_chunks(total: int, vis_start: int, vis_end: int, cl: int) -> Seq<(int, int)> {
    chunk_ranges(0, vis_start, cl) + chunk_ranges(vis_end, total, cl)
}

pub(crate) proof fn lemma_flatten_push(bs: Seq<SearchBatch>, b: SearchBatch)
    ensures
        flatten(bs.push(b)) == flatten(bs) + b.hits@,
{
    assert(bs.push(b).drop_last() =~= bs);
}

/// Clamps the visible window into the file; a window that runs backwards is
/// an invalid line range.
pub fn clamp_line_range(range: Range<LineNumber>, total_lines: u64) -> (res: Result<Range<LineNumber>>)
    ensures
        range.start.0 <= range.end.0 ==> (res matches Ok(r) && r.start.0 == min_of(
            range.start.0 as int,
            total_lines as int,
        ) && r.end.0 == min_of(range.end.0 as int, total_lines as int)),
        range.start.0 > range.end.0 ==> (res matches Err(
            TachyonError::InvalidLineRange { start, end, total },
        ) && start == range.start.0 && end == range.end.0 && total == total_lines),
{
    if range.start.0 > range.end.0 {
        return Err(
            TachyonError::InvalidLineRange {
                start: range.start.0,
                end: range.end.0,
                total: total_lines,
            },
        );
    }
    let start = if range.start.0 <= total_lines { range.start.0 } else { total_lines };
    let end = if range.end.0 <= total_lines { range.end.0 } else { total_lines };
    Ok(Range { start: LineNumber(start), end: LineNumber(end) })
}

/// Appends the chunks of at most `chunk_lines` lines covering
/// `[start, end)`.
fn push_chunks(start: u64, end: u64, chunk_lines: u64, output: &mut Vec<Range<u64>>)
    requires
        chunk_lines >= 1,
    ensures
        ranges_of(final(output)@) == ranges_of(old(output)@) + chunk_ranges(
            start as int,
            end as int,
            chunk_lines as int,
        ),
{
    if start >= end {
        assert(ranges_of(output@) + chunk_ranges(start as int, end as int, chunk_lines as int)
            =~= ranges_of(output@));
        return;
    }
    let mut line = start;
    assert(ranges_of(output@) + chunk_ranges(start as int, end as int, chunk_lines as int)
        =~= ranges_of(old(output)@) + chunk_ranges(line as int, end as int, chunk_lines as int));
    while line < end
        invariant
            chunk_lines >= 1,
            line <= end,
            ranges_of(output@) + chunk_ranges(line as int, end as int, chunk_lines as int)
                == ranges_of(old(output)@) + chunk_ranges(start as int, end as int, chunk_lines as int),
        decreases end - line,
    {
        // `min(line + chunk_lines, end)`, computed without overflow
        let chunk_end: u64 = if end - line <= chunk_lines { end } else { line + chunk_lines };
        let ghost prev = output@;
        let r = Range { start: line, end: chunk_end };
        output.push(r);
        assert(output@ == prev.push(r));
        assert(ranges_of(output@) =~= ranges_of(prev).push((line as int, chunk_end as int)));
        assert(chunk_ranges(line as int, end as int, chunk_lines as int) =~= seq![
            (line as int, chunk_end as int),
        ] + chunk_ranges(chunk_end as int, end as int, chunk_lines as int));
        assert(ranges_of(output@) + chunk_ranges(chunk_end as int, end as int, chunk_lines as int)
            =~= ranges_of(prev) + chunk_ranges(line as int, end as int, chunk_lines as int));
        line = chunk_end;
    }
    assert(ranges_of(output@) + chunk_ranges(line as int, end as int, chunk_lines as int)
        =~= ranges_of(output@));
}

/// The chunks the background pass scans: the lines above the visible window,
/// then those below it.
fn build_background_chunks(total_lines: u64, visible: Range<LineNumber>, chunk_lines: u64) -> (chunks:
    Vec<Range<u64>>)
    requires
        chunk_lines >= 1,
    ensures
        ranges_of(chunks@) == background_chunks(
            total_lines as int,
            visible.start.0 as int,
            visible.end.0 as int,
            chunk_lines as int,
        ),
{
    let mut chunks: Vec<Range<u64>> = Vec::new();
    assert(ranges_of(chunks@) =~= Seq::<(int, int)>::empty());
    push_chunks(0, visible.start.0, chunk_lines, &mut chunks);
    push_chunks(visible.end.0, total_lines, chunk_lines, &mut chunks);
    assert(ranges_of(chunks@) =~= background_chunks(
        total_lines as int,
        visible.start.0 as int,
        visible.end.0 as int,
        chunk_lines as int,
    ));
    chunks
}

/// The end of the byte span of lines `[a, b)`: the end of line `b - 1`, its
/// newline excluded.
pub open spec fn span_end(m: IndexModel, b: int) -> int {
    if b >= m.total_lines() { m.file_len as int } else { m.line_start(b) - 1 }
}

/// The bytes spanned by lines `[start, end)`, from the start of the first
/// line to the end of the last (its newline excluded); `0..0` for no line.
pub(crate) fn line_range_byte_bounds(index: &NewlineIndex, line_range: Range<u64>) -> (res: Result<Range<u64>>)
    requires
        index@.wf(),
    ensures
        line_range.start >= line_range.end ==> (res matches Ok(r) && r.start == 0 && r.end == 0),
        line_range.start < line_range.end && line_range.start >= index@.total_lines() ==> (res matches Err(
            TachyonError::LineOutOfBounds { requested, total },
        ) && requested == line_range.start && total == index@.total_lines()),
        line_range.start < line_range.end && line_range.start < index@.total_lines() ==> (res matches Ok(
            r,
        ) && r.start == index@.line_start(line_range.start as int) && r.end == span_end(
            index@,
            line_range.end as int,
        )),
{
    if line_range.start >= line_range.end {
        return Ok(Range { start: 0, end: 0 });
    }
    let start = index.line_to_byte(LineNumber(line_range.start))?.0;
    let end = if line_range.end >= index.total_lines() {
        index.file_len()
    } else {
        let next = index.line_to_byte(LineNumber(line_range.end))?.0;
        if next >= 1 {
            next - 1
        } else {
            0
        }
    };
    Ok(Range { start, end })
}


/// What one scanning pass over lines `[a, b)` delivered: its batches hold a
/// prefix of the hits of those lines; with a budget of slots, one slot per
/// hit, and unless cancellation was seen the prefix is as long as the budget
/// allows.
pub open spec fn pass_outcome(
    d: Seq<u8>,
    m: IndexModel,
    f: spec_fn(Seq<u8>) -> Seq<(int, int)>,
    a: int,
    b: int,
    stage: SearchStage,
    target: int,
    before: HitSlots,
    after: HitSlots,
    bs: Seq<SearchBatch>,
    interrupted: bool,
    quiet: bool,
    cancelled: bool,
) -> bool {
    let h = range_hits(d, m, f, a, b);
    let got = flatten(bs);
    &&& got.len() <= h.len()
    &&& got == h.take(got.len() as int)
    &&& batches_well_formed(bs, stage, target)
    &&& batches_within(bs, a, b)
    &&& (before is Budget <==> after is Budget)
    &&& before matches HitSlots::Budget(n0) ==> (after matches HitSlots::Budget(n1) && got.len()
        == n0 - n1)
    &&& quiet ==> !interrupted && got.len() == (match before {
        HitSlots::Budget(n0) => min_of(n0 as int, h.len() as int),
        HitSlots::Shared => h.len() as int,
    })
    &&& cancelled ==> got.len() == 0
}

proof fn lemma_take_extend(h: Seq<SearchHit>, l: Seq<SearchHit>, got: Seq<SearchHit>, x: SearchHit)
    requires
        got.len() < h.len() + l.len(),
        got == (h + l).take(got.len() as int),
        x == (h + l)[got.len() as int],
    ensures
        got.push(x) == (h + l).take(got.len() + 1int),
{
    assert(got.push(x) =~= (h + l).take(got.len() + 1int));
}

/// Scans lines `[start_line, end_line)` one by one with the compiled query,
/// taking one slot per hit, and groups the hits into batches
/// of `batch_hit_target`, handing a copy of each to `on_batch` as soon as it
/// is made when `stream` is set; stops early when cancellation is requested.
fn scan_each_line<S: Fn(Signal) -> bool, F: FnMut(SearchBatch)>(
    data: &[u8],
    index: &NewlineIndex,
    compiled: &CompiledQuery,
    start_line: u64,
    end_line: u64,
    stage: SearchStage,
    batch_hit_target: usize,
    slots: &mut HitSlots,
    signals: &S,
    on_batch: &mut F,
    stream: bool,
) -> (res: Result<(Vec<SearchBatch>, bool)>)
    requires
        stream ==> forall|g: F, b: SearchBatch| streamed_ok(data@, index@, compiled.spans_fn(), start_line as int, end_line as int, stage, batch_hit_target as int, b) ==> call_requires(g, (b,)),
        index@.wf(),
        index@.describes(data@),
        start_line <= end_line <= index@.total_lines(),
        batch_hit_target >= 1,
        signals_ready(*signals),
    ensures
        res matches Ok((bs, interrupted)) && pass_outcome(
            data@,
            index@,
            compiled.spans_fn(),
            start_line as int,
            end_line as int,
            stage,
            batch_hit_target as int,
            *old(slots),
            *final(slots),
            bs@,
            interrupted,
            signals_quiet(*signals),
            signals_cancelled(*signals),
        ),
{
    let ghost d = data@;
    let ghost m = index@;
    let ghost f = compiled.spans_fn();
    let ghost before = *slots;
    let ghost target = batch_hit_target as int;
    let mut batches: Vec<SearchBatch> = Vec::new();
    let mut batch_hits: Vec<SearchHit> = Vec::new();
    let mut batch_start: Option<u64> = None;
    let mut current_line = start_line;
    let mut interrupted = false;
    let mut stop = false;
    assert(flatten(batches@) + batch_hits@ =~= Seq::<SearchHit>::empty());
    assert(range_hits(d, m, f, start_line as int, start_line as int) =~= Seq::<SearchHit>::empty());
    while current_line < end_line && !stop
        invariant
            m == index@,
            d == data@,
            f == compiled.spans_fn(),
            m.wf(),
            m.describes(d),
            d.len() == m.file_len,
            target == batch_hit_target,
            target >= 1,
            start_line <= current_line <= end_line <= m.total_lines(),
            ({
                let h = range_hits(d, m, f, start_line as int, current_line as int);
                let got = flatten(batches@) + batch_hits@;
                &&& got.len() <= h.len()
                &&& got == h.take(got.len() as int)
                &&& !stop ==> got.len() == h.len()
                &&& (before is Budget <==> *slots is Budget)
                &&& before matches HitSlots::Budget(n0) ==> (*slots matches HitSlots::Budget(n)
                    && got.len() == n0 - n)
                &&& signals_quiet(*signals) && stop ==> *slots == HitSlots::Budget(0)
                &&& signals_cancelled(*signals) ==> got.len() == 0
            }),
            signals_ready(*signals),
            stream ==> forall|g: F, b: SearchBatch| streamed_ok(data@, index@, compiled.spans_fn(), start_line as int, end_line as int, stage, batch_hit_target as int, b) ==> call_requires(g, (b,)),
            signals_quiet(*signals) ==> !interrupted,
            batches_well_formed(batches@, stage, target),
            batches_within(batches@, start_line as int, end_line as int),
            forall|i: int| 0 <= i < batches@.len() ==> (#[trigger] batches@[i]).hits@.len() == target,
            batch_hits@.len() < target,
            batch_hits@.len() > 0 <==> batch_start is Some,
            batch_start matches Some(bs) ==> start_line <= bs && forall|k: int|
                0 <= k < batch_hits@.len() ==> bs <= (#[trigger] batch_hits@[k]).line.0
                    < current_line,
            !stop ==> !interrupted,
        decreases end_line - current_line, if stop { 0int } else { 1int },
    {
        if signals(Signal::Cancelled) {
            interrupted = true;
            stop = true;
        } else if slots.exhausted(signals) {
            stop = true;
        } else {
            assert(!signals_cancelled(*signals));
            let line = LineNumber(current_line);
            let range = index.line_byte_range(line)?;
            proof {
                lemma_line_bounds(m, current_line as int);
            }
            let line_bytes = slice_subrange(data, range.start.0 as usize, range.end.0 as usize);
            let offsets = compiled.find_offsets(line_bytes);
            let ghost h = range_hits(d, m, f, start_line as int, current_line as int);
            let ghost l = line_hits(d, m, f, current_line as int);
            let ghost ls = m.line_start(current_line as int);
            assert(l.len() == offsets@.len());
            let mut j: usize = 0;
            while j < offsets.len() && !stop
                invariant
                    m == index@,
                    d == data@,
                    f == compiled.spans_fn(),
                    m.wf(),
                    d.len() == m.file_len,
                    target == batch_hit_target,
                    target >= 1,
                    start_line <= current_line < end_line <= m.total_lines(),
                    h == range_hits(d, m, f, start_line as int, current_line as int),
                    l == line_hits(d, m, f, current_line as int),
                    ls == m.line_start(current_line as int),
                    range.start.0 == ls,
                    range.end.0 == m.line_end(current_line as int),
                    ls <= m.line_end(current_line as int) <= m.file_len,
                    line_bytes@ == d.subrange(ls, m.line_end(current_line as int)),
                    spans_of(offsets@) == compiled.spans(line_bytes@),
                    forall|i: int|
                        0 <= i < offsets@.len() ==> (#[trigger] offsets@[i]).start
                            <= offsets@[i].end <= line_bytes@.len(),
                    l.len() == offsets@.len(),
                    j <= offsets@.len(),
                    line == LineNumber(current_line),
                    ({
                        let got = flatten(batches@) + batch_hits@;
                        &&& got.len() <= h.len() + j
                        &&& got == (h + l).take(got.len() as int)
                        &&& !stop ==> got.len() == h.len() + j
                        &&& (before is Budget <==> *slots is Budget)
                        &&& before matches HitSlots::Budget(n0) ==> (*slots matches HitSlots::Budget(n)
                            && got.len() == n0 - n)
                        &&& signals_quiet(*signals) && stop ==> *slots == HitSlots::Budget(0)
                    }),
                    signals_ready(*signals),
                    stream ==> forall|g: F, b: SearchBatch| streamed_ok(data@, index@, compiled.spans_fn(), start_line as int, end_line as int, stage, batch_hit_target as int, b) ==> call_requires(g, (b,)),
                    !signals_cancelled(*signals),
                    !interrupted,
                    batches_well_formed(batches@, stage, target),
            batches_within(batches@, start_line as int, end_line as int),
                    forall|i: int|
                        0 <= i < batches@.len() ==> (#[trigger] batches@[i]).hits@.len() == target,
                    batch_hits@.len() < target,
                    batch_hits@.len() > 0 <==> batch_start is Some,
                    batch_start matches Some(bs) ==> start_line <= bs && forall|k: int|
                        0 <= k < batch_hits@.len() ==> bs <= (#[trigger] batch_hits@[k]).line.0
                            <= current_line,
                decreases offsets.len() - j, if stop { 0int } else { 1int },
            {
              if !slots.take(signals) {
                stop = true;
              } else {
                if batch_start.is_none() {
                    batch_start = Some(current_line);
                }
                let local_start = offsets[j].start;
                let local_end = offsets[j].end;
                assert(offsets@[j as int].end <= line_bytes@.len());
                assert(line_bytes@.len() == m.line_end(current_line as int) - ls);
                let byte_range = ByteRange::new(
                    ByteOffset(range.start.0 + local_start as u64),
                    ByteOffset(range.start.0 + local_end as u64),
                )?;
                let hit = SearchHit { line, byte_range };
                proof {
                    assert(spans_of(offsets@)[j as int] == (local_start as int, local_end as int));
                    assert(l[j as int] == hit);
                    lemma_take_extend(h, l, flatten(batches@) + batch_hits@, hit);
                }
                let ghost before = batch_hits@;
                batch_hits.push(hit);
                assert(flatten(batches@) + batch_hits@ =~= (flatten(batches@) + before).push(hit));
                proof {
                    let bs = batch_start->Some_0;
                    if before.len() > 0 {
                        assert(bs <= before[0].line.0);
                    }
                    assert forall|k: int| 0 <= k < batch_hits@.len() implies bs <= (
                    #[trigger] batch_hits@[k]).line.0 <= current_line by {
                        if k < before.len() {
                            assert(batch_hits@[k] == before[k]);
                        }
                    }
                }
                if batch_hits.len() >= batch_hit_target {
                    let range_start = match batch_start {
                        Some(s) => s,
                        None => current_line,
                    };
                    let ghost collected = batch_hits@;
                    let mut full: Vec<SearchHit> = Vec::new();
                    std::mem::swap(&mut full, &mut batch_hits);
                    assert(full@ == collected);
                    assert forall|k: int| 0 <= k < full@.len() implies range_start <= (
                    #[trigger] full@[k]).line.0 < current_line + 1 by {
                        assert(full@[k] == collected[k]);
                    }
                    let batch = SearchBatch {
                        stage,
                        line_range: Range {
                            start: LineNumber(range_start),
                            end: LineNumber(current_line + 1),
                        },
                        hits: full,
                    };
                    let ghost prev_batches = batches@;
                    if stream {
                        let copy = batch.clone();
                        proof {
                            let r = range_hits(d, m, f, start_line as int, end_line as int);
                            assert(batch_covers_its_hits(batch));
                            assert(range_start <= batch.hits@[0].line.0);
                            lemma_range_hits_monotone(d, m, f, start_line as int, current_line + 1, end_line as int);
                            assert(range_hits(d, m, f, start_line as int, current_line + 1) == h + l);
                            assert(flatten(prev_batches) + collected =~= r.take((flatten(prev_batches) + collected).len() as int));
                            lemma_tail_of_prefix_in(flatten(prev_batches), collected, r);
                            assert(streamed_ok(d, m, f, start_line as int, end_line as int, stage, target, copy));
                        }
                        on_batch(copy);
                    }
                    batches.push(batch);
                    proof {
                        lemma_flatten_push(prev_batches, batch);
                        assert(batches@ == prev_batches.push(batch));
                        assert(flatten(batches@) + batch_hits@ =~= flatten(prev_batches) + full@);
                        assert(batch_covers_its_hits(batch));
                        assert(batch_within(batch, start_line as int, end_line as int));
                        assert forall|k: int| 0 <= k < batches@.len() implies batch_within(
                            #[trigger] batches@[k],
                            start_line as int,
                            end_line as int,
                        ) by {
                            if k < prev_batches.len() {
                                assert(batches@[k] == prev_batches[k]);
                            }
                        }
                        assert forall|i: int| 0 <= i < batches@.len() implies {
                            &&& (#[trigger] batches@[i]).stage == stage
                            &&& 1 <= batches@[i].hits@.len() <= target
                            &&& i < batches@.len() - 1 ==> batches@[i].hits@.len() == target
                            &&& batch_covers_its_hits(batches@[i])
                        } by {
                            if i < prev_batches.len() {
                                assert(batches@[i] == prev_batches[i]);
                            }
                        }
                    }
                    batch_start = None;
                }
                j = j + 1;
              }
            }
            proof {
                if !stop {
                    assert(range_hits(d, m, f, start_line as int, current_line + 1) == h + l);
                    assert((h + l).take((h + l).len() as int) =~= h + l);
                } else {
                    assert(range_hits(d, m, f, start_line as int, current_line + 1) == h + l);
                }
            }
            current_line = current_line + 1;
        }
    }
    let ghost h = range_hits(d, m, f, start_line as int, end_line as int);
    proof {
        if !stop {
            assert(current_line == end_line);
        }
    }
    if batch_hits.len() > 0 {
        let range_start = match batch_start {
            Some(s) => s,
            None => start_line,
        };
        let ghost collected = batch_hits@;
        let batch = SearchBatch {
            stage,
            line_range: Range { start: LineNumber(range_start), end: LineNumber(current_line) },
            hits: batch_hits,
        };
        assert(batch.hits@ == collected);
        assert forall|k: int| 0 <= k < batch.hits@.len() implies range_start <= (
        #[trigger] batch.hits@[k]).line.0 < current_line by {
            assert(batch.hits@[k] == collected[k]);
        }
        let ghost prev_batches = batches@;
        if stream {
            let copy = batch.clone();
            proof {
                let r = range_hits(d, m, f, start_line as int, end_line as int);
                assert(batch_covers_its_hits(batch));
                assert(range_start <= batch.hits@[0].line.0);
                lemma_range_hits_monotone(d, m, f, start_line as int, current_line as int, end_line as int);
                assert(flatten(prev_batches) + collected =~= r.take((flatten(prev_batches) + collected).len() as int));
                lemma_tail_of_prefix_in(flatten(prev_batches), collected, r);
                assert(streamed_ok(d, m, f, start_line as int, end_line as int, stage, target, copy));
            }
            on_batch(copy);
        }
        batches.push(batch);
        proof {
            lemma_flatten_push(prev_batches, batch);
            assert(batches@ == prev_batches.push(batch));
            assert(batch_covers_its_hits(batch));
                        assert(range_start <= batch.hits@[0].line.0);
                        assert(batch_within(batch, start_line as int, end_line as int));
                        assert forall|k: int| 0 <= k < batches@.len() implies batch_within(
                            #[trigger] batches@[k],
                            start_line as int,
                            end_line as int,
                        ) by {
                            if k < prev_batches.len() {
                                assert(batches@[k] == prev_batches[k]);
                            }
                        }
            assert forall|i: int| 0 <= i < batches@.len() implies {
                &&& (#[trigger] batches@[i]).stage == stage
                &&& 1 <= batches@[i].hits@.len() <= target
                &&& i < batches@.len() - 1 ==> batches@[i].hits@.len() == target
                &&& batch_covers_its_hits(batches@[i])
            } by {
                if i < prev_batches.len() {
                    assert(batches@[i] == prev_batches[i]);
                }
            }
        }
    } else {
        assert(flatten(batches@) + batch_hits@ =~= flatten(batches@));
    }
    proof {
        lemma_range_hits_monotone(d, m, f, start_line as int, current_line as int, end_line as int);
        let hc = range_hits(d, m, f, start_line as int, current_line as int);
        let got = flatten(batches@);
        assert(got =~= h.take(got.len() as int));
    }
    Ok((batches, interrupted))
}

/// The hits of lines `[a, b)` start with the hits of `[a, c)` for `c <= b`.
proof fn lemma_range_hits_monotone(
    d: Seq<u8>,
    m: IndexModel,
    f: spec_fn(Seq<u8>) -> Seq<(int, int)>,
    a: int,
    c: int,
    b: int,
)
    requires
        a <= c <= b,
    ensures
        range_hits(d, m, f, a, c).len() <= range_hits(d, m, f, a, b).len(),
        range_hits(d, m, f, a, c) == range_hits(d, m, f, a, b).take(
            range_hits(d, m, f, a, c).len() as int,
        ),
    decreases b - c,
{
    if c < b {
        lemma_range_hits_monotone(d, m, f, a, c, b - 1);
        let x = range_hits(d, m, f, a, c);
        let y = range_hits(d, m, f, a, b - 1);
        assert(range_hits(d, m, f, a, b) == y + line_hits(d, m, f, b - 1));
        assert(x =~= (y + line_hits(d, m, f, b - 1)).take(x.len() as int));
    } else {
        let x = range_hits(d, m, f, a, c);
        assert(x.take(x.len() as int) =~= x);
    }
}


/// The needle of a compiled substring query is never empty.
proof fn lemma_needle_not_empty(c: CompiledQuery, q: SearchQuery)
    requires
        c.implements(q),
        c is Substring,
    ensures
        c->Substring_needle@.len() > 0,
{
    let chars = q.pattern@;
    assert(encode_utf8(chars) == vstd::utf8::encode_scalar(chars[0] as u32) + encode_utf8(
        chars.drop_first(),
    ));
}

/// Scans lines `[start_line, end_line)` for the compiled query: one pass over
/// the whole byte span for a case-sensitive substring, line by line
/// otherwise.
fn stream_line_range<S: Fn(Signal) -> bool, F: FnMut(SearchBatch)>(
    data: &[u8],
    index: &NewlineIndex,
    compiled: &CompiledQuery,
    query: Ghost<SearchQuery>,
    start_line: u64,
    end_line: u64,
    stage: SearchStage,
    batch_hit_target: usize,
    slots: &mut HitSlots,
    signals: &S,
    on_batch: &mut F,
    stream: bool,
) -> (res: Result<(Vec<SearchBatch>, bool)>)
    requires
        stream ==> forall|g: F, b: SearchBatch| streamed_ok(data@, index@, compiled.spans_fn(), start_line as int, end_line as int, stage, batch_hit_target as int, b) ==> call_requires(g, (b,)),
        index@.wf(),
        index@.describes(data@),
        compiled.implements(query@),
        signals_ready(*signals),
        start_line <= end_line <= index@.total_lines(),
        batch_hit_target >= 1,
    ensures
        res matches Ok((bs, interrupted)) && pass_outcome(
            data@,
            index@,
            compiled.spans_fn(),
            start_line as int,
            end_line as int,
            stage,
            batch_hit_target as int,
            *old(slots),
            *final(slots),
            bs@,
            interrupted,
            signals_quiet(*signals),
            signals_cancelled(*signals),
        ),
{
    if start_line >= end_line {
        let empty: Vec<SearchBatch> = Vec::new();
        assert(flatten(empty@) =~= Seq::<SearchHit>::empty());
        assert(range_hits(data@, index@, compiled.spans_fn(), start_line as int, end_line as int)
            =~= Seq::<SearchHit>::empty());
        assert(Seq::<SearchHit>::empty().take(0) =~= Seq::<SearchHit>::empty());
        return Ok((empty, false));
    }
    match compiled {
        CompiledQuery::Substring { needle, case_sensitive: true } => {
            proof {
                lemma_needle_not_empty(*compiled, query@);
                assert(compiled.spans_fn() =~= sensitive_spans_fn(needle@));
            }
            scan_line_span(
                data,
                index,
                needle.as_slice(),
                start_line,
                end_line,
                stage,
                batch_hit_target,
                slots,
                signals,
                on_batch,
                stream,
            )
        },
        _ => scan_each_line(
            data,
            index,
            compiled,
            start_line,
            end_line,
            stage,
            batch_hit_target,
            slots,
            signals,
            on_batch,
            stream,
        ),
    }
}

/// Everything the scan of one background chunk reads: the file, its index,
/// the query, and the signals it shares with the other chunks.
pub struct SearchScanContext<'a, S> {
    pub data: &'a [u8],
    pub index: &'a NewlineIndex,
    pub compiled: &'a CompiledQuery,
    pub query: Ghost<SearchQuery>,
    pub signals: &'a S,
}

impl<'a, S: Fn(Signal) -> bool> SearchScanContext<'a, S> {
    /// The file and the index agree, the compiled query runs the query, and
    /// the signals can be asked.
    pub open spec fn wf(&self) -> bool {
        &&& self.index@.wf()
        &&& self.index@.describes(self.data@)
        &&& self.compiled.implements(self.query@)
        &&& signals_ready(*self.signals)
    }

    /// Nobody cancels the search and the shared pool never runs dry.
    pub open spec fn quiet(&self) -> bool {
        signals_quiet(*self.signals)
    }

    /// Cancellation is seen at the first look.
    pub open spec fn cancelled(&self) -> bool {
        signals_cancelled(*self.signals)
    }

    /// The hits of lines `[a, b)` for this context.
    pub open spec fn hits_of(&self, a: int, b: int) -> Seq<SearchHit> {
        range_hits(self.data@, self.index@, self.compiled.spans_fn(), a, b)
    }
}

/// The hits of the lines of `chunk`, in order, until a slot of the shared
/// pool cannot be taken or cancellation is requested: always a prefix of
/// the chunk's hits, all of them when the signals are quiet, none when
/// cancellation is seen at once.
fn collect_chunk_hits<S: Fn(Signal) -> bool>(ctx: &SearchScanContext<S>, chunk: Range<u64>) -> (res: Result<Vec<SearchHit>>)
    requires
        ctx.wf(),
        chunk.start <= chunk.end <= ctx.index@.total_lines(),
    ensures
        res matches Ok(hits) && hits@ == ctx.hits_of(chunk.start as int, chunk.end as int).take(
            hits@.len() as int,
        ) && hits@.len() <= ctx.hits_of(chunk.start as int, chunk.end as int).len(),
        ctx.quiet() ==> (res matches Ok(hits) && hits@ == ctx.hits_of(chunk.start as int, chunk.end as int)),
        ctx.cancelled() ==> (res matches Ok(hits) && hits@.len() == 0),
{
    let mut slots = HitSlots::Shared;
    let mut ignore = drop_batch;
    let (batches, _) = stream_line_range(
        ctx.data,
        ctx.index,
        ctx.compiled,
        ctx.query,
        chunk.start,
        chunk.end,
        SearchStage::Background,
        usize::MAX,
        &mut slots,
        ctx.signals,
        &mut ignore,
        false,
    )?;
    proof {
        let h = ctx.hits_of(chunk.start as int, chunk.end as int);
        if ctx.quiet() {
            assert(h.take(h.len() as int) =~= h);
        }
    }
    Ok(concat_batches(batches))
}

/// The hits of all batches, in order.
fn concat_batches(batches: Vec<SearchBatch>) -> (hits: Vec<SearchHit>)
    ensures
        hits@ == flatten(batches@),
{
    let mut batches = batches;
    let ghost all = batches@;
    let mut reversed: Vec<SearchBatch> = Vec::new();
    while batches.len() > 0
        invariant
            batches@ == all.take(batches@.len() as int),
            batches@.len() + reversed@.len() == all.len(),
            forall|j: int|
                0 <= j < reversed@.len() ==> #[trigger] reversed@[j] == all[all.len() - 1 - j],
        decreases batches.len(),
    {
        let b = batches.pop().unwrap();
        reversed.push(b);
        assert(batches@ =~= all.take(batches@.len() as int));
    }
    let mut hits: Vec<SearchHit> = Vec::new();
    assert(all.take(0) =~= Seq::<SearchBatch>::empty());
    assert(hits@ =~= flatten(all.take(0)));
    while reversed.len() > 0
        invariant
            0 <= all.len() - reversed@.len() <= all.len(),
            forall|j: int|
                0 <= j < reversed@.len() ==> #[trigger] reversed@[j] == all[all.len() - 1 - j],
            hits@ == flatten(all.take(all.len() - reversed@.len())),
        decreases reversed.len(),
    {
        let ghost k = all.len() - reversed@.len();
        let mut b = reversed.pop().unwrap();
        assert(b == all[k]);
        hits.append(&mut b.hits);
        assert(all.take(k + 1).drop_last() =~= all.take(k));
    }
    assert(all.take(all.len() as int) =~= all);
    hits
}

/// Scans one background chunk unless the search was cancelled or ran out of
/// slots (`None`); an error (which a consistent index never causes) cancels
/// the other chunks.
fn scan_background_chunk<S: Fn(Signal) -> bool>(ctx: &SearchScanContext<S>, chunk: &Range<u64>) -> (res: Option<
    Result<Vec<SearchHit>>,
>)
    requires
        ctx.wf(),
        chunk.start <= chunk.end <= ctx.index@.total_lines(),
    ensures
        chunk_scanned(*ctx, *chunk, res),
{
    let stop = (ctx.signals)(Signal::Cancelled) || HitSlots::Shared.exhausted(ctx.signals);
    scan_chunk_unless_stopped(ctx, chunk, stop)
}

/// Scans one background chunk, unless `stop` says that cancellation was seen
/// or no hit slot was left: then the chunk is skipped (`None`). Otherwise it
/// gives a prefix of the chunk's hits; an error (which a consistent index
/// never causes) cancels the other chunks.
fn scan_chunk_unless_stopped<S: Fn(Signal) -> bool>(ctx: &SearchScanContext<S>, chunk: &Range<u64>, stop: bool) -> (res:
    Option<Result<Vec<SearchHit>>>)
    requires
        ctx.wf(),
        chunk.start <= chunk.end <= ctx.index@.total_lines(),
    ensures
        res is None <==> stop,
        chunk_prefix(*ctx, *chunk, res),
        !stop && ctx.quiet() ==> (res matches Some(Ok(hits)) && hits@ == ctx.hits_of(
            chunk.start as int,
            chunk.end as int,
        )),
{
    if stop {
        return None;
    }
    match collect_chunk_hits(ctx, Range { start: chunk.start, end: chunk.end }) {
        Ok(hits) => Some(Ok(hits)),
        Err(error) => {
            (ctx.signals)(Signal::RequestCancel);
            Some(Err(error))
        },
    }
}

/// What scanning a background chunk may give: nothing (skipped), or a
/// prefix of the chunk's hits.
pub open spec fn chunk_prefix<S: Fn(Signal) -> bool>(
    ctx: SearchScanContext<S>,
    chunk: Range<u64>,
    res: Option<Result<Vec<SearchHit>>>,
) -> bool {
    match res {
        None => true,
        Some(Ok(hits)) => hits@.len() <= ctx.hits_of(chunk.start as int, chunk.end as int).len()
            && hits@ == ctx.hits_of(chunk.start as int, chunk.end as int).take(hits@.len() as int),
        Some(Err(_)) => false,
    }
}

/// What scanning a background chunk gives: a prefix of its hits or nothing;
/// all its hits when the signals are quiet; nothing when cancellation is
/// seen at once.
pub open spec fn chunk_scanned<S: Fn(Signal) -> bool>(
    ctx: SearchScanContext<S>,
    chunk: Range<u64>,
    res: Option<Result<Vec<SearchHit>>>,
) -> bool {
    &&& chunk_prefix(ctx, chunk, res)
    &&& ctx.quiet() ==> (res matches Some(Ok(hits)) && hits@ == ctx.hits_of(
        chunk.start as int,
        chunk.end as int,
    ))
    &&& ctx.cancelled() ==> res is None
}

/// Scans the background chunks in parallel on rayon's pool.
///
/// Calls `par_iter`, `map` and `collect` of rayon's indexed parallel
/// iterators over the chunk list. Claimed, as rayon documents: every chunk is
/// scanned once by the verified [`scan_background_chunk`], and `collect`
/// keeps the results in chunk order, so each result meets that function's
/// postcondition for its chunk.
#[verifier::external_body]
fn scan_chunks_in_parallel<S: Fn(Signal) -> bool + Sync>(ctx: &SearchScanContext<S>, chunks: &Vec<Range<u64>>) -> (results: Vec<
    Option<Result<Vec<SearchHit>>>,
>)
    requires
        ctx.wf(),
        forall|i: int|
            0 <= i < chunks@.len() ==> (#[trigger] chunks@[i]).start <= chunks@[i].end
                <= ctx.index@.total_lines(),
    ensures
        results@.len() == chunks@.len(),
        forall|i: int|
            0 <= i < results@.len() ==> chunk_scanned(*ctx, chunks@[i], #[trigger] results@[i]),
{
    chunks.par_iter().map(|chunk| scan_background_chunk(ctx, chunk)).collect()
}


/// Chunks in increasing order, each inside `[0, total]`, none overlapping
/// the next.
pub open spec fn chunks_ordered(c: Seq<(int, int)>, total: int) -> bool {
    &&& forall|i: int| 0 <= i < c.len() ==> 0 <= (#[trigger] c[i]).0 <= c[i].1 <= total
    &&& forall|i: int, j: int| 0 <= i < j < c.len() ==> c[i].1 <= c[j].0
}

proof fn lemma_chunk_ranges_ordered(s: int, e: int, cl: int)
    requires
        0 <= s,
        cl >= 1,
    ensures
        forall|i: int|
            0 <= i < chunk_ranges(s, e, cl).len() ==> s <= (#[trigger] chunk_ranges(s, e, cl)[i]).0
                < chunk_ranges(s, e, cl)[i].1 <= e,
        forall|i: int, j: int|
            0 <= i < j < chunk_ranges(s, e, cl).len() ==> chunk_ranges(s, e, cl)[i].1
                <= chunk_ranges(s, e, cl)[j].0,
    decreases e - s,
{
    if s < e {
        let next = min_of(s + cl, e);
        lemma_chunk_ranges_ordered(next, e, cl);
        let c = chunk_ranges(s, e, cl);
        let rest = chunk_ranges(next, e, cl);
        assert(c == seq![(s, next)] + rest);
        assert forall|i: int| 0 <= i < c.len() implies s <= (#[trigger] c[i]).0 < c[i].1 <= e by {
            if i > 0 {
                assert(c[i] == rest[i - 1]);
            }
        }
        assert forall|i: int, j: int| 0 <= i < j < c.len() implies c[i].1 <= c[j].0 by {
            assert(c[j] == rest[j - 1]);
            if i > 0 {
                assert(c[i] == rest[i - 1]);
            }
        }
    }
}

/// The background chunks are ordered and cover only lines of the file.
proof fn lemma_background_chunks_ordered(total: int, vs: int, ve: int, cl: int)
    requires
        0 <= vs <= ve <= total,
        cl >= 1,
    ensures
        chunks_ordered(background_chunks(total, vs, ve, cl), total),
{
    lemma_chunk_ranges_ordered(0, vs, cl);
    lemma_chunk_ranges_ordered(ve, total, cl);
    let a = chunk_ranges(0, vs, cl);
    let b = chunk_ranges(ve, total, cl);
    let c = background_chunks(total, vs, ve, cl);
    assert forall|i: int| 0 <= i < c.len() implies 0 <= (#[trigger] c[i]).0 <= c[i].1 <= total by {
        if i < a.len() {
            assert(c[i] == a[i]);
        } else {
            assert(c[i] == b[i - a.len()]);
        }
    }
    assert forall|i: int, j: int| 0 <= i < j < c.len() implies c[i].1 <= c[j].0 by {
        if j < a.len() {
            assert(c[i] == a[i] && c[j] == a[j]);
        } else if i < a.len() {
            assert(c[i] == a[i] && c[j] == b[j - a.len()]);
        } else {
            assert(c[i] == b[i - a.len()] && c[j] == b[j - a.len()]);
        }
    }
}

/// The hits of the chunks `c`, chunk after chunk.
pub open spec fn chunks_hits(
    d: Seq<u8>,
    m: IndexModel,
    f: spec_fn(Seq<u8>) -> Seq<(int, int)>,
    c: Seq<(int, int)>,
) -> Seq<SearchHit>
    decreases c.len(),
{
    if c.len() == 0 {
        Seq::empty()
    } else {
        chunks_hits(d, m, f, c.drop_last()) + range_hits(d, m, f, c.last().0, c.last().1)
    }
}

/// The first `k` elements of `x`, or all of `x` when it is shorter.
pub open spec fn cut(x: Seq<SearchHit>, k: int) -> Seq<SearchHit> {
    x.take(min_of(k, x.len() as int))
}

proof fn lemma_cut_extend(x: Seq<SearchHit>, y: Seq<SearchHit>, k: int)
    requires
        k >= 0,
    ensures
        cut(x + y, k) == cut(x, k) + cut(y, k - cut(x, k).len()),
{
    if x.len() >= k {
        assert(cut(y, 0) =~= Seq::<SearchHit>::empty());
        assert(cut(x + y, k) =~= cut(x, k) + cut(y, k - cut(x, k).len()));
    } else {
        assert(cut(x + y, k) =~= cut(x, k) + cut(y, k - cut(x, k).len()));
    }
}

proof fn lemma_chunks_hits_concat(
    d: Seq<u8>,
    m: IndexModel,
    f: spec_fn(Seq<u8>) -> Seq<(int, int)>,
    a: Seq<(int, int)>,
    b: Seq<(int, int)>,
)
    ensures
        chunks_hits(d, m, f, a + b) == chunks_hits(d, m, f, a) + chunks_hits(d, m, f, b),
    decreases b.len(),
{
    if b.len() == 0 {
        assert(a + b =~= a);
        assert(chunks_hits(d, m, f, a) + chunks_hits(d, m, f, b) =~= chunks_hits(d, m, f, a));
    } else {
        lemma_chunks_hits_concat(d, m, f, a, b.drop_last());
        assert((a + b).drop_last() =~= a + b.drop_last());
        assert((a + b).last() == b.last());
        let x = range_hits(d, m, f, b.last().0, b.last().1);
        assert(chunks_hits(d, m, f, a + b) =~= chunks_hits(d, m, f, a) + chunks_hits(
            d,
            m,
            f,
            b.drop_last(),
        ) + x);
    }
}

/// The hits of lines `[a, c)` are those of `[a, b)` followed by those of
/// `[b, c)`.
proof fn lemma_range_hits_split(
    d: Seq<u8>,
    m: IndexModel,
    f: spec_fn(Seq<u8>) -> Seq<(int, int)>,
    a: int,
    b: int,
    c: int,
)
    requires
        a <= b <= c,
    ensures
        range_hits(d, m, f, a, c) == range_hits(d, m, f, a, b) + range_hits(d, m, f, b, c),
    decreases c - b,
{
    if b == c {
        assert(range_hits(d, m, f, b, c) =~= Seq::<SearchHit>::empty());
        assert(range_hits(d, m, f, a, b) + range_hits(d, m, f, b, c) =~= range_hits(d, m, f, a, b));
    } else {
        lemma_range_hits_split(d, m, f, a, b, c - 1);
        assert(range_hits(d, m, f, a, c) =~= range_hits(d, m, f, a, b) + range_hits(d, m, f, b, c));
    }
}

/// The chunks of `[s, e)` hold, one after the other, the hits of `[s, e)`.
proof fn lemma_chunk_ranges_hits(
    d: Seq<u8>,
    m: IndexModel,
    f: spec_fn(Seq<u8>) -> Seq<(int, int)>,
    s: int,
    e: int,
    cl: int,
)
    requires
        cl >= 1,
    ensures
        chunks_hits(d, m, f, chunk_ranges(s, e, cl)) == (if s < e {
            range_hits(d, m, f, s, e)
        } else {
            Seq::<SearchHit>::empty()
        }),
    decreases e - s,
{
    if s < e {
        let mid = min_of(s + cl, e);
        lemma_chunk_ranges_hits(d, m, f, mid, e, cl);
        let first = seq![(s, mid)];
        lemma_chunks_hits_concat(d, m, f, first, chunk_ranges(mid, e, cl));
        assert(first.drop_last() =~= Seq::<(int, int)>::empty());
        assert(chunks_hits(d, m, f, Seq::<(int, int)>::empty()) =~= Seq::<SearchHit>::empty());
        assert(first.last() == (s, mid));
        assert(chunks_hits(d, m, f, first) =~= range_hits(d, m, f, s, mid));
        lemma_range_hits_split(d, m, f, s, mid, e);
        if mid == e {
            assert(range_hits(d, m, f, s, e) + Seq::<SearchHit>::empty() =~= range_hits(d, m, f, s, e));
            assert(range_hits(d, m, f, mid, e) =~= Seq::<SearchHit>::empty());
        }
    } else {
        assert(chunk_ranges(s, e, cl) =~= Seq::<(int, int)>::empty());
    }
}

/// What the background pass delivered: at most `budget` hits, in batches
/// taken in chunk order, one per chunk at most, each holding a non-empty
/// prefix of the hits of its chunk and naming the chunk as its line range.
pub open spec fn background_outcome(
    d: Seq<u8>,
    m: IndexModel,
    f: spec_fn(Seq<u8>) -> Seq<(int, int)>,
    chunks: Seq<(int, int)>,
    budget: int,
    bs: Seq<SearchBatch>,
) -> bool {
    &&& flatten(bs).len() <= budget
    &&& forall|k: int|
        0 <= k < bs.len() ==> {
            let b = #[trigger] bs[k];
            let range = (b.line_range.start.0 as int, b.line_range.end.0 as int);
            &&& b.stage == SearchStage::Background
            &&& b.hits@.len() >= 1
            &&& chunks.contains(range)
            &&& b.hits@.len() <= range_hits(d, m, f, range.0, range.1).len()
            &&& b.hits@ == range_hits(d, m, f, range.0, range.1).take(b.hits@.len() as int)
        }
    &&& forall|k: int, j: int|
        0 <= k < j < bs.len() ==> bs[k].line_range.end.0 <= bs[j].line_range.start.0
}

/// Runs the background pass: all chunks in parallel, then their hits in
/// chunk order, cut so that no more than `budget` hits are delivered.
fn run_background_pass<S: Fn(Signal) -> bool + Sync>(ctx: &SearchScanContext<S>, chunks: &Vec<Range<u64>>, budget: usize) -> (res:
    Result<Vec<SearchBatch>>)
    requires
        ctx.wf(),
        chunks_ordered(ranges_of(chunks@), ctx.index@.total_lines()),
    ensures
        res matches Ok(bs) && background_outcome(
            ctx.data@,
            ctx.index@,
            ctx.compiled.spans_fn(),
            ranges_of(chunks@),
            budget as int,
            bs@,
        ),
        ctx.quiet() ==> (res matches Ok(bs) && flatten(bs@) == cut(
            chunks_hits(ctx.data@, ctx.index@, ctx.compiled.spans_fn(), ranges_of(chunks@)),
            budget as int,
        )),
        ctx.cancelled() ==> (res matches Ok(bs) && bs@.len() == 0),
{
    let ghost cr = ranges_of(chunks@);
    let ghost d = ctx.data@;
    let ghost m = ctx.index@;
    let ghost f = ctx.compiled.spans_fn();
    assert forall|i: int| 0 <= i < chunks@.len() implies (#[trigger] chunks@[i]).start
        <= chunks@[i].end <= ctx.index@.total_lines() by {
        assert(cr[i] == (chunks@[i].start as int, chunks@[i].end as int));
    }
    let results = scan_chunks_in_parallel(ctx, chunks);
    let ghost all = results@;
    let ghost n = all.len();
    let mut results = results;
    let mut reversed: Vec<Option<Result<Vec<SearchHit>>>> = Vec::new();
    while results.len() > 0
        invariant
            results@ == all.take(results@.len() as int),
            results@.len() + reversed@.len() == n,
            n == all.len(),
            forall|j: int| 0 <= j < reversed@.len() ==> #[trigger] reversed@[j] == all[n - 1 - j],
        decreases results.len(),
    {
        let r = results.pop().unwrap();
        reversed.push(r);
        assert(results@ =~= all.take(results@.len() as int));
    }
    let total_chunks = chunks.len();
    let mut batches: Vec<SearchBatch> = Vec::new();
    let mut first_error: Option<TachyonError> = None;
    let mut left: usize = budget;
    let mut i: usize = 0;
    let ghost mut idx: Seq<int> = Seq::empty();
    assert(flatten(batches@) =~= Seq::<SearchHit>::empty());
    while reversed.len() > 0
        invariant
            ctx.wf(),
            n == all.len(),
            n == chunks@.len(),
            n == total_chunks,
            cr == ranges_of(chunks@),
            chunks_ordered(cr, ctx.index@.total_lines()),
            forall|j: int|
                0 <= j < n ==> chunk_scanned(*ctx, chunks@[j], #[trigger] all[j]),
            i + reversed@.len() == n,
            forall|j: int| 0 <= j < reversed@.len() ==> #[trigger] reversed@[j] == all[n - 1 - j],
            left <= budget,
            flatten(batches@).len() == budget - left,
            idx.len() == batches@.len(),
            forall|k: int| 0 <= k < idx.len() ==> 0 <= #[trigger] idx[k] < i,
            forall|k: int, j: int| 0 <= k < j < idx.len() ==> idx[k] < idx[j],
            forall|k: int|
                0 <= k < batches@.len() ==> {
                    let b = #[trigger] batches@[k];
                    let range = (b.line_range.start.0 as int, b.line_range.end.0 as int);
                    &&& b.stage == SearchStage::Background
                    &&& b.hits@.len() >= 1
                    &&& range == cr[idx[k]]
                    &&& b.hits@.len() <= ctx.hits_of(range.0, range.1).len()
                    &&& b.hits@ == ctx.hits_of(range.0, range.1).take(b.hits@.len() as int)
                },
            first_error is None,
            d == ctx.data@,
            m == ctx.index@,
            f == ctx.compiled.spans_fn(),
            ctx.quiet() ==> flatten(batches@) == cut(chunks_hits(d, m, f, cr.take(i as int)), budget as int),
            ctx.cancelled() ==> batches@.len() == 0,
        decreases reversed.len(),
    {
        let r = reversed.pop().unwrap();
        assert(r == all[i as int]);
        let ghost before_batches = batches@;
        let ghost before_left = left;
        proof {
            let ci = cr[i as int];
            assert(cr.take(i + 1).drop_last() =~= cr.take(i as int));
            assert(cr.take(i + 1).last() == ci);
            assert(ci == (chunks@[i as int].start as int, chunks@[i as int].end as int));
            assert(chunks_hits(d, m, f, cr.take(i + 1)) == chunks_hits(d, m, f, cr.take(i as int))
                + range_hits(d, m, f, ci.0, ci.1));
            lemma_cut_extend(chunks_hits(d, m, f, cr.take(i as int)), range_hits(d, m, f, ci.0, ci.1), budget as int);
        }
        match r {
            Some(Ok(hits)) => {
                let ghost got_hits = hits@;
                if hits.len() > 0 && left > 0 {
                    let mut hits = hits;
                    let ghost full = hits@;
                    let ghost whole = ctx.hits_of(chunks@[i as int].start as int, chunks@[i as int].end as int);
                    if hits.len() > left {
                        hits.truncate(left);
                    }
                    let taken = hits.len();
                    left = left - taken;
                    let chunk_start = chunks[i].start;
                    let chunk_end = chunks[i].end;
                    let batch = SearchBatch {
                        stage: SearchStage::Background,
                        line_range: Range { start: LineNumber(chunk_start), end: LineNumber(chunk_end) },
                        hits,
                    };
                    let ghost prev = batches@;
                    batches.push(batch);
                    proof {
                        lemma_flatten_push(prev, batch);
                        assert(batches@ == prev.push(batch));
                        assert(batch.hits@ =~= whole.take(batch.hits@.len() as int));
                        assert(cr[i as int] == (chunk_start as int, chunk_end as int));
                        idx = idx.push(i as int);
                        assert forall|k: int| 0 <= k < batches@.len() implies {
                            let b = #[trigger] batches@[k];
                            let range = (b.line_range.start.0 as int, b.line_range.end.0 as int);
                            &&& b.stage == SearchStage::Background
                            &&& b.hits@.len() >= 1
                            &&& range == cr[idx[k]]
                            &&& b.hits@.len() <= ctx.hits_of(range.0, range.1).len()
                            &&& b.hits@ == ctx.hits_of(range.0, range.1).take(b.hits@.len() as int)
                        } by {
                            if k < prev.len() {
                                assert(batches@[k] == prev[k]);
                            }
                        }
                        assert(batch.hits@ =~= cut(full, before_left as int));
                        assert(flatten(batches@) == flatten(before_batches) + cut(got_hits, before_left as int));
                    }
                } else {
                    assert(cut(got_hits, before_left as int) =~= Seq::<SearchHit>::empty());
                    assert(flatten(batches@) =~= flatten(before_batches) + cut(got_hits, before_left as int));
                }
            },
            Some(Err(error)) => {
                if first_error.is_none() {
                    first_error = Some(error);
                }
            },
            None => {},
        }
        i = i + 1;
    }
    match first_error {
        Some(error) => Err(error),
        None => {
            proof {
                assert(cr.take(n as int) =~= cr);
                assert forall|k: int| 0 <= k < batches@.len() implies cr.contains(
                    ((#[trigger] batches@[k]).line_range.start.0 as int, batches@[k].line_range.end.0 as int),
                ) by {
                    assert(cr[idx[k]] == (batches@[k].line_range.start.0 as int, batches@[k].line_range.end.0 as int));
                }
                assert forall|k: int, j: int| 0 <= k < j < batches@.len() implies batches@[k].line_range.end.0
                    <= batches@[j].line_range.start.0 by {
                    assert(idx[k] < idx[j]);
                    assert(batches@[k].line_range.end.0 == cr[idx[k]].1);
                    assert(batches@[j].line_range.start.0 == cr[idx[j]].0);
                }
            }
            Ok(batches)
        },
    }
}


/// A search made ready to run: the compiled query, the visible window
/// clamped into the file, and the tuning with its floors applied.
struct SearchPlan {
    compiled: CompiledQuery,
    visible: Range<LineNumber>,
    total_lines: u64,
    chunk_lines: u64,
    batch_hit_target: usize,
    max_hits: usize,
}

/// The window that `visible` names once clamped into a file of `total` lines.
pub open spec fn clamped_start(visible: Range<LineNumber>, total: int) -> int {
    min_of(visible.start.0 as int, total)
}

/// End of the clamped visible window.
pub open spec fn clamped_end(visible: Range<LineNumber>, total: int) -> int {
    min_of(visible.end.0 as int, total)
}

/// `max(v, 1)`.
pub open spec fn at_least_one(v: int) -> int {
    if v >= 1 { v } else { 1 }
}

impl SearchPlan {
    spec fn fits(&self, index: IndexModel, query: SearchQuery, config: SearchConfig) -> bool {
        &&& self.compiled.implements(query)
        &&& self.total_lines == index.total_lines()
        &&& self.visible.start.0 == clamped_start(config.visible_lines, index.total_lines())
        &&& self.visible.end.0 == clamped_end(config.visible_lines, index.total_lines())
        &&& self.visible.start.0 <= self.visible.end.0
        &&& self.chunk_lines == at_least_one(config.chunk_lines as int)
        &&& self.batch_hit_target == at_least_one(config.batch_hit_target as int)
        &&& self.max_hits == config.max_hits
    }
}

/// Errors a search reports before scanning anything: an invalid query, then
/// a visible window that runs backwards.
pub open spec fn search_refusal(q: SearchQuery, config: SearchConfig, total: int, e: TachyonError) -> bool {
    if !query_accepted(q) {
        e matches TachyonError::InvalidQuery(msg) && msg@ == rejection_message(q)
    } else {
        e matches TachyonError::InvalidLineRange { start, end, total: t } && start
            == config.visible_lines.start.0 && end == config.visible_lines.end.0 && t == total
    }
}

/// Whether a search with this query and window is refused before scanning.
pub open spec fn search_refused(q: SearchQuery, config: SearchConfig) -> bool {
    !query_accepted(q) || config.visible_lines.start.0 > config.visible_lines.end.0
}

fn plan_search(index: &NewlineIndex, query: &SearchQuery, config: &SearchConfig) -> (res: Result<
    SearchPlan,
>)
    requires
        index@.wf(),
    ensures
        search_refused(*query, *config) <==> res is Err,
        res matches Err(e) ==> search_refusal(*query, *config, index@.total_lines(), e),
        res matches Ok(plan) ==> plan.fits(index@, *query, *config),
{
    let compiled = CompiledQuery::compile(query)?;
    let total_lines = index.total_lines();
    let visible = clamp_line_range(
        Range { start: config.visible_lines.start, end: config.visible_lines.end },
        total_lines,
    )?;
    let chunk_lines = if config.chunk_lines >= 1 { config.chunk_lines } else { 1 };
    let batch_hit_target = if config.batch_hit_target >= 1 { config.batch_hit_target } else { 1 };
    Ok(SearchPlan { compiled, visible, total_lines, chunk_lines, batch_hit_target, max_hits: config.max_hits })
}

/// Scans the visible window with the whole hit budget; returns its batches
/// and the budget left.
fn run_visible_stage<S: Fn(Signal) -> bool, F: FnMut(SearchBatch)>(
    data: &[u8],
    index: &NewlineIndex,
    plan: &SearchPlan,
    query: Ghost<SearchQuery>,
    signals: &S,
    on_batch: &mut F,
    stream: bool,
) -> (res: (Vec<SearchBatch>, usize, bool))
    requires
        signals_ready(*signals),
        stream ==> forall|g: F, b: SearchBatch| streamed_ok(data@, index@, query_spans_fn(query@), plan.visible.start.0 as int, plan.visible.end.0 as int, SearchStage::Visible, plan.batch_hit_target as int, b) ==> call_requires(g, (b,)),
        index@.wf(),
        index@.describes(data@),
        plan.compiled.implements(query@),
        plan.total_lines == index@.total_lines(),
        plan.visible.start.0 <= plan.visible.end.0 <= plan.total_lines,
        plan.batch_hit_target >= 1,
    ensures
        res.1 <= plan.max_hits,
        ({
            let h = range_hits(data@, index@, query_spans_fn(query@), plan.visible.start.0 as int, plan.visible.end.0 as int);
            let got = flatten(res.0@);
            &&& got.len() <= h.len()
            &&& got == h.take(got.len() as int)
            &&& got.len() == plan.max_hits - res.1
            &&& signals_quiet(*signals) ==> got.len() == min_of(plan.max_hits as int, h.len() as int)
            &&& signals_cancelled(*signals) ==> got.len() == 0
            &&& batches_well_formed(res.0@, SearchStage::Visible, plan.batch_hit_target as int)
            &&& batches_within(res.0@, plan.visible.start.0 as int, plan.visible.end.0 as int)
        }),
{
    let mut slots = HitSlots::Budget(plan.max_hits);
    proof {
        assert(plan.compiled.spans_fn() =~= query_spans_fn(query@));
    }
    let outcome = stream_line_range(
        data,
        index,
        &plan.compiled,
        query,
        plan.visible.start.0,
        plan.visible.end.0,
        SearchStage::Visible,
        plan.batch_hit_target,
        &mut slots,
        signals,
        on_batch,
        stream,
    );
    match outcome {
        Ok((batches, interrupted)) => {
            let left = match slots {
                HitSlots::Budget(n) => n,
                HitSlots::Shared => 0,
            };
            (batches, left, interrupted)
        },
        Err(_) => {
            let batches: Vec<SearchBatch> = Vec::new();
            (batches, plan.max_hits, true)
        },
    }
}

/// Scans the lines outside the visible window, in parallel chunks, sharing a
/// pool of `budget` hit slots.
fn run_background_stage<S: Fn(Signal) -> bool + Sync>(data: &[u8], index: &NewlineIndex, plan: &SearchPlan, query: Ghost<SearchQuery>, budget: usize, signals: &S) -> (res: Result<Vec<SearchBatch>>)
    requires
        signals_ready(*signals),
        index@.wf(),
        index@.describes(data@),
        plan.compiled.implements(query@),
        plan.total_lines == index@.total_lines(),
        plan.visible.start.0 <= plan.visible.end.0 <= plan.total_lines,
        plan.chunk_lines >= 1,
    ensures
        res matches Ok(bs) && background_outcome(
            data@,
            index@,
            query_spans_fn(query@),
            background_chunks(plan.total_lines as int, plan.visible.start.0 as int, plan.visible.end.0 as int, plan.chunk_lines as int),
            budget as int,
            bs@,
        ),
        signals_quiet(*signals) ==> (res matches Ok(bs) && flatten(bs@) == cut(
            background_hits(data@, index@, query_spans_fn(query@), plan.total_lines as int, plan.visible.start.0 as int, plan.visible.end.0 as int),
            budget as int,
        )),
{
    let chunks = build_background_chunks(plan.total_lines, Range { start: plan.visible.start, end: plan.visible.end }, plan.chunk_lines);
    proof {
        lemma_background_chunks_ordered(plan.total_lines as int, plan.visible.start.0 as int, plan.visible.end.0 as int, plan.chunk_lines as int);
        assert(plan.compiled.spans_fn() =~= query_spans_fn(query@));
        let d = data@;
        let m = index@;
        let f = query_spans_fn(query@);
        let cl = plan.chunk_lines as int;
        let vs = plan.visible.start.0 as int;
        let ve = plan.visible.end.0 as int;
        lemma_chunks_hits_concat(d, m, f, chunk_ranges(0, vs, cl), chunk_ranges(ve, plan.total_lines as int, cl));
        lemma_chunk_ranges_hits(d, m, f, 0, vs, cl);
        lemma_chunk_ranges_hits(d, m, f, ve, plan.total_lines as int, cl);
        assert(chunks_hits(d, m, f, background_chunks(plan.total_lines as int, vs, ve, cl)) =~= background_hits(
            d, m, f, plan.total_lines as int, vs, ve));
    }
    let ctx = SearchScanContext { data, index, compiled: &plan.compiled, query, signals };
    run_background_pass(&ctx, &chunks, budget)
}

/// The hits of the lines outside the visible window `[vs, ve)`: those
/// above it, then those below it.
pub open spec fn background_hits(
    d: Seq<u8>,
    m: IndexModel,
    f: spec_fn(Seq<u8>) -> Seq<(int, int)>,
    total: int,
    vs: int,
    ve: int,
) -> Seq<SearchHit> {
    range_hits(d, m, f, 0, vs) + range_hits(d, m, f, ve, total)
}

/// A sink for batches that nobody streams.
fn drop_batch(_batch: SearchBatch) {
}

/// The number of hits the batches hold.
fn count_hits(batches: &Vec<SearchBatch>) -> (n: usize)
    requires
        flatten(batches@).len() <= usize::MAX,
    ensures
        n == flatten(batches@).len(),
{
    let mut n: usize = 0;
    let mut i: usize = 0;
    assert(batches@.take(0) =~= Seq::<SearchBatch>::empty());
    while i < batches.len()
        invariant
            i <= batches@.len(),
            n == flatten(batches@.take(i as int)).len(),
            flatten(batches@).len() <= usize::MAX,
        decreases batches.len() - i,
    {
        proof {
            assert(batches@.take(i + 1).drop_last() =~= batches@.take(i as int));
            lemma_flatten_prefix_len(batches@, i + 1);
        }
        n = n + batches[i].hits.len();
        i = i + 1;
    }
    assert(batches@.take(i as int) =~= batches@);
    n
}

/// Hands the batches to `on_batch` in order, each as it is, and counts their
/// hits. `on_batch` need accept only the batches of the list: no other batch,
/// such as a part of one, can be handed over.
fn emit_batches<F: FnMut(SearchBatch)>(
    batches: Vec<SearchBatch>,
    on_batch: &mut F,
) -> (n: usize)
    requires
        forall|g: F, b: SearchBatch| batches@.contains(b) ==> call_requires(g, (b,)),
        flatten(batches@).len() <= usize::MAX,
    ensures
        n == flatten(batches@).len(),
{
    let mut batches = batches;
    let ghost all = batches@;
    let mut reversed: Vec<SearchBatch> = Vec::new();
    while batches.len() > 0
        invariant
            batches@ == all.take(batches@.len() as int),
            batches@.len() + reversed@.len() == all.len(),
            forall|j: int|
                0 <= j < reversed@.len() ==> #[trigger] reversed@[j] == all[all.len() - 1 - j],
        decreases batches.len(),
    {
        let b = batches.pop().unwrap();
        reversed.push(b);
        assert(batches@ =~= all.take(batches@.len() as int));
    }
    let mut emitted: usize = 0;
    assert(all.take(0) =~= Seq::<SearchBatch>::empty());
    while reversed.len() > 0
        invariant
            0 <= all.len() - reversed@.len() <= all.len(),
            forall|j: int|
                0 <= j < reversed@.len() ==> #[trigger] reversed@[j] == all[all.len() - 1 - j],
            emitted == flatten(all.take(all.len() - reversed@.len())).len(),
            flatten(all).len() <= usize::MAX,
            forall|g: F, b: SearchBatch| all.contains(b) ==> call_requires(g, (b,)),
        decreases reversed.len(),
    {
        let ghost k = all.len() - reversed@.len();
        let b = reversed.pop().unwrap();
        assert(b == all[k]);
        proof {
            assert(all.contains(b));
            assert(all.take(k + 1).drop_last() =~= all.take(k));
            lemma_flatten_prefix_len(all, k + 1);
        }
        let count = b.hits.len();
        on_batch(b);
        emitted = emitted + count;
    }
    assert(all.take(all.len() as int) =~= all);
    emitted
}

proof fn lemma_flatten_prefix_len(bs: Seq<SearchBatch>, k: int)
    requires
        0 <= k <= bs.len(),
    ensures
        flatten(bs.take(k)).len() <= flatten(bs).len(),
    decreases bs.len() - k,
{
    if k < bs.len() {
        lemma_flatten_prefix_len(bs, k + 1);
        assert(bs.take(k + 1).drop_last() =~= bs.take(k));
    } else {
        assert(bs.take(k) =~= bs);
    }
}

/// The visible part of a search's batches: Visible batches of at most
/// `target` hits each (all but the last full), each inside the visible
/// lines `[vs, ve)`, holding together a prefix of the visible lines' hits
/// of at most `max` hits.
pub open spec fn visible_part(
    d: Seq<u8>,
    m: IndexModel,
    f: spec_fn(Seq<u8>) -> Seq<(int, int)>,
    vs: int,
    ve: int,
    target: int,
    max: int,
    vb: Seq<SearchBatch>,
) -> bool {
    let vis = range_hits(d, m, f, vs, ve);
    let got = flatten(vb);
    &&& got.len() <= vis.len()
    &&& got == vis.take(got.len() as int)
    &&& got.len() <= max
    &&& batches_well_formed(vb, SearchStage::Visible, target)
    &&& batches_within(vb, vs, ve)
}

/// The batches a search hands over, in order: first the visible part, then
/// background batches, each a non-empty prefix of one chunk's hits, in
/// chunk order, within the slots the visible part left.
pub open spec fn batches_outcome(
    d: Seq<u8>,
    m: IndexModel,
    q: SearchQuery,
    config: SearchConfig,
    bs: Seq<SearchBatch>,
) -> bool {
    let total = m.total_lines();
    let vs = clamped_start(config.visible_lines, total);
    let ve = clamped_end(config.visible_lines, total);
    let f = query_spans_fn(q);
    exists|k: int|
        0 <= k <= bs.len() && #[trigger] visible_part(
            d,
            m,
            f,
            vs,
            ve,
            at_least_one(config.batch_hit_target as int),
            config.max_hits as int,
            bs.take(k),
        ) && background_outcome(
            d,
            m,
            f,
            background_chunks(total, vs, ve, at_least_one(config.chunk_lines as int)),
            config.max_hits - flatten(bs.take(k)).len(),
            bs.skip(k),
        )
}

proof fn lemma_flatten_concat(a: Seq<SearchBatch>, b: Seq<SearchBatch>)
    ensures
        flatten(a + b) == flatten(a) + flatten(b),
    decreases b.len(),
{
    if b.len() == 0 {
        assert(a + b =~= a);
        assert(flatten(a) + flatten(b) =~= flatten(a));
    } else {
        lemma_flatten_concat(a, b.drop_last());
        assert((a + b).drop_last() =~= a + b.drop_last());
        assert(flatten(a + b) =~= flatten(a) + flatten(b));
    }
}

/// Batches of at least one hit each hold at least as many hits as batches.
proof fn lemma_flatten_len_of_nonempty(bs: Seq<SearchBatch>)
    requires
        forall|i: int| 0 <= i < bs.len() ==> (#[trigger] bs[i]).hits@.len() >= 1,
    ensures
        flatten(bs).len() >= bs.len(),
    decreases bs.len(),
{
    if bs.len() > 0 {
        lemma_flatten_len_of_nonempty(bs.drop_last());
        assert(bs.last() == bs[bs.len() - 1]);
    }
}

/// A batch that the search may hand over: a batch of the visible window
/// that its scan may stream, or a background batch holding a non-empty
/// prefix of the hits of one of the background chunks.
pub open spec fn delivered_ok(
    d: Seq<u8>,
    m: IndexModel,
    q: SearchQuery,
    config: SearchConfig,
    b: SearchBatch,
) -> bool {
    let total = m.total_lines();
    let vs = clamped_start(config.visible_lines, total);
    let ve = clamped_end(config.visible_lines, total);
    let f = query_spans_fn(q);
    let range = (b.line_range.start.0 as int, b.line_range.end.0 as int);
    ||| streamed_ok(d, m, f, vs, ve, SearchStage::Visible, at_least_one(config.batch_hit_target as int), b)
    ||| {
        &&& b.stage == SearchStage::Background
        &&& b.hits@.len() >= 1
        &&& background_chunks(total, vs, ve, at_least_one(config.chunk_lines as int)).contains(range)
        &&& b.hits@.len() <= range_hits(d, m, f, range.0, range.1).len()
        &&& b.hits@ == range_hits(d, m, f, range.0, range.1).take(b.hits@.len() as int)
    }
}

/// Searches the file for `query`, the visible lines first, then the rest of
/// the file in chunks scanned in parallel, asking `signals` whether the
/// search was cancelled and for the hit slots of the pool it shares with the
/// chunks. Each batch of the visible lines goes to `on_batch` as soon as it
/// is full (the last one when that pass ends), then those of the chunks, in
/// chunk order, once the parallel pass ends; returns the number of hits
/// handed over. The batches handed
/// over are, in order, those [`search_batches_with`] returns: they meet
/// [`batches_outcome`]. When the signals are quiet they hold every hit of
/// the file, the visible ones first, cut at `config.max_hits`; when
/// cancellation is seen at once there is none.
#[verifier::spinoff_prover]
#[verifier::rlimit(40)]
pub fn search_streaming_with<S: Fn(Signal) -> bool + Sync, F: FnMut(SearchBatch)>(
    data: &[u8],
    index: &NewlineIndex,
    query: &SearchQuery,
    config: &SearchConfig,
    signals: &S,
    on_batch: F,
) -> (res: Result<usize>)
    requires
        index@.describes(data@),
        signals_ready(*signals),
        forall|g: F, b: SearchBatch| delivered_ok(data@, index@, *query, *config, b) ==> call_requires(g, (b,)),
    ensures
        search_refused(*query, *config) <==> res is Err,
        res matches Err(e) ==> search_refusal(*query, *config, index@.total_lines(), e),
        res matches Ok(n) ==> n <= config.max_hits,
        res matches Ok(n) ==> exists|hits: Seq<SearchHit>|
            #[trigger] search_outcome(data@, index@, *query, *config, hits) && hits.len() == n,
        signals_quiet(*signals) ==> (res matches Ok(n) ==> n == cut(
            complete_hits(data@, index@, *query, *config),
            config.max_hits as int,
        ).len()),
        signals_cancelled(*signals) ==> (res matches Ok(n) ==> n == 0),
        res matches Ok(n) ==> exists|bs: Seq<SearchBatch>|
            #[trigger] batches_outcome(data@, index@, *query, *config, bs) && flatten(bs).len() == n,
{
    proof {
        use_type_invariant(index);
    }
    let plan = plan_search(index, query, config)?;
    let ghost vis = range_hits(data@, index@, query_spans_fn(*query), plan.visible.start.0 as int, plan.visible.end.0 as int);
    let ghost bga = background_hits(data@, index@, query_spans_fn(*query), plan.total_lines as int, plan.visible.start.0 as int, plan.visible.end.0 as int);
    let ghost f = query_spans_fn(*query);
    let ghost chunks = background_chunks(plan.total_lines as int, plan.visible.start.0 as int, plan.visible.end.0 as int, plan.chunk_lines as int);
    proof {
        assert(complete_hits(data@, index@, *query, *config) == vis + bga);
    }
    if plan.max_hits == 0 {
        proof {
            let none = Seq::<SearchHit>::empty();
            let nb = Seq::<SearchBatch>::empty();
            assert(none.take(0) =~= vis.take(0));
            assert(search_outcome(data@, index@, *query, *config, none));
            assert(nb.take(0) =~= nb && nb.skip(0) =~= nb);
            assert(flatten(nb) =~= Seq::<SearchHit>::empty());
            assert(vis.take(0) =~= Seq::<SearchHit>::empty());
            assert(visible_part(data@, index@, f, plan.visible.start.0 as int, plan.visible.end.0 as int, plan.batch_hit_target as int, plan.max_hits as int, nb.take(0)));
            assert(batches_outcome(data@, index@, *query, *config, nb));
        }
        return Ok(0);
    }
    let mut on_batch = on_batch;
    let (visible_batches, left, _) = run_visible_stage(data, index, &plan, Ghost(*query), signals, &mut on_batch, true);
    let ghost vbs = visible_batches@;
    let ghost vb = flatten(visible_batches@);
    let mut emitted = count_hits(&visible_batches);
    if signals(Signal::Cancelled) || left == 0 {
        proof {
            assert(vb.take(vb.len() as int) =~= vb);
            assert(search_outcome(data@, index@, *query, *config, vb));
            let nb = Seq::<SearchBatch>::empty();
            assert(vbs.take(vbs.len() as int) =~= vbs && vbs.skip(vbs.len() as int) =~= nb);
            assert(visible_part(data@, index@, f, plan.visible.start.0 as int, plan.visible.end.0 as int, plan.batch_hit_target as int, plan.max_hits as int, vbs.take(vbs.len() as int)));
            assert(background_outcome(data@, index@, f, chunks, config.max_hits - flatten(vbs.take(vbs.len() as int)).len(), vbs.skip(vbs.len() as int)));
            assert(batches_outcome(data@, index@, *query, *config, vbs));
        }
        return Ok(emitted);
    }
    let background = match run_background_stage(data, index, &plan, Ghost(*query), left, signals) {
        Ok(batches) => batches,
        Err(error) => {
            return Err(error);
        },
    };
    let ghost bg = background@;
    proof {
        assert forall|i: int| 0 <= i < bg.len() implies delivered_ok(data@, index@, *query, *config, #[trigger] bg[i]) by {
            assert(bg[i].stage == SearchStage::Background);
        }
        assert forall|g: F, b: SearchBatch| bg.contains(b) implies call_requires(g, (b,)) by {
            let i = choose|i: int| 0 <= i < bg.len() && bg[i] == b;
            assert(delivered_ok(data@, index@, *query, *config, bg[i]));
        }
    }
    let more = emit_batches(background, &mut on_batch);
    proof {
        let hits = vb + flatten(bg);
        assert(hits.take(vb.len() as int) =~= vb);
        assert(hits.skip(vb.len() as int) =~= flatten(bg));
        assert(search_outcome(data@, index@, *query, *config, hits));
        if signals_quiet(*signals) {
            lemma_cut_extend(vis, bga, plan.max_hits as int);
        }
        let all = vbs + bg;
        lemma_flatten_concat(vbs, bg);
        assert(all.take(vbs.len() as int) =~= vbs && all.skip(vbs.len() as int) =~= bg);
        assert(visible_part(data@, index@, f, plan.visible.start.0 as int, plan.visible.end.0 as int, plan.batch_hit_target as int, plan.max_hits as int, all.take(vbs.len() as int)));
        assert(batches_outcome(data@, index@, *query, *config, all));
    }
    emitted = emitted + more;
    Ok(emitted)
}

/// Runs the search as [`search_streaming_with`] does and returns, in order,
/// the batches that it hands over: the visible part, then the background
/// batches in chunk order. When the signals are quiet they hold every hit
/// of the file, the visible ones first, cut at `config.max_hits`; when
/// cancellation is seen at once there is none.
#[verifier::spinoff_prover]
#[verifier::rlimit(40)]
pub fn search_batches_with<S: Fn(Signal) -> bool + Sync>(
    data: &[u8],
    index: &NewlineIndex,
    query: &SearchQuery,
    config: &SearchConfig,
    signals: &S,
) -> (res: Result<Vec<SearchBatch>>)
    requires
        index@.describes(data@),
        signals_ready(*signals),
    ensures
        search_refused(*query, *config) <==> res is Err,
        res matches Err(e) ==> search_refusal(*query, *config, index@.total_lines(), e),
        res matches Ok(bs) ==> batches_outcome(data@, index@, *query, *config, bs@),
        res matches Ok(bs) ==> search_outcome(data@, index@, *query, *config, flatten(bs@)),
        signals_quiet(*signals) ==> (res matches Ok(bs) ==> flatten(bs@) == cut(
            complete_hits(data@, index@, *query, *config),
            config.max_hits as int,
        )),
        signals_cancelled(*signals) ==> (res matches Ok(bs) ==> bs@.len() == 0),
{
    proof {
        use_type_invariant(index);
    }
    let plan = plan_search(index, query, config)?;
    let ghost vis = range_hits(data@, index@, query_spans_fn(*query), plan.visible.start.0 as int, plan.visible.end.0 as int);
    let ghost bga = background_hits(data@, index@, query_spans_fn(*query), plan.total_lines as int, plan.visible.start.0 as int, plan.visible.end.0 as int);
    let ghost f = query_spans_fn(*query);
    let ghost chunks = background_chunks(plan.total_lines as int, plan.visible.start.0 as int, plan.visible.end.0 as int, plan.chunk_lines as int);
    proof {
        assert(complete_hits(data@, index@, *query, *config) == vis + bga);
    }
    if plan.max_hits == 0 {
        let none: Vec<SearchBatch> = Vec::new();
        proof {
            let nb = none@;
            assert(nb.take(0) =~= nb && nb.skip(0) =~= nb);
            assert(flatten(nb) =~= Seq::<SearchHit>::empty());
            assert(vis.take(0) =~= Seq::<SearchHit>::empty());
            assert(flatten(nb).take(0) =~= vis.take(0));
            assert(search_outcome(data@, index@, *query, *config, flatten(nb)));
            assert(visible_part(data@, index@, f, plan.visible.start.0 as int, plan.visible.end.0 as int, plan.batch_hit_target as int, plan.max_hits as int, nb.take(0)));
            assert(batches_outcome(data@, index@, *query, *config, nb));
            assert(cut(vis + bga, 0) =~= flatten(nb));
        }
        return Ok(none);
    }
    let mut ignore = drop_batch;
    let (mut batches, left, _) = run_visible_stage(data, index, &plan, Ghost(*query), signals, &mut ignore, false);
    let ghost vbs = batches@;
    let ghost vb = flatten(vbs);
    if signals(Signal::Cancelled) || left == 0 {
        proof {
            assert(vb.take(vb.len() as int) =~= vb);
            assert(search_outcome(data@, index@, *query, *config, vb));
            let nb = Seq::<SearchBatch>::empty();
            assert(vbs.take(vbs.len() as int) =~= vbs && vbs.skip(vbs.len() as int) =~= nb);
            assert(visible_part(data@, index@, f, plan.visible.start.0 as int, plan.visible.end.0 as int, plan.batch_hit_target as int, plan.max_hits as int, vbs.take(vbs.len() as int)));
            assert(background_outcome(data@, index@, f, chunks, config.max_hits - flatten(vbs.take(vbs.len() as int)).len(), vbs.skip(vbs.len() as int)));
            assert(batches_outcome(data@, index@, *query, *config, vbs));
            if signals_quiet(*signals) {
                assert(vb =~= cut(vis + bga, plan.max_hits as int));
            }
            if signals_cancelled(*signals) {
                lemma_flatten_len_of_nonempty(vbs);
            }
        }
        return Ok(batches);
    }
    let background = run_background_stage(data, index, &plan, Ghost(*query), left, signals)?;
    let ghost bg = background@;
    let mut background = background;
    batches.append(&mut background);
    proof {
        let all = vbs + bg;
        assert(batches@ =~= all);
        lemma_flatten_concat(vbs, bg);
        let hits = vb + flatten(bg);
        assert(hits.take(vb.len() as int) =~= vb);
        assert(hits.skip(vb.len() as int) =~= flatten(bg));
        assert(search_outcome(data@, index@, *query, *config, hits));
        if signals_quiet(*signals) {
            lemma_cut_extend(vis, bga, plan.max_hits as int);
            assert(vb =~= vis);
        }
        assert(all.take(vbs.len() as int) =~= vbs && all.skip(vbs.len() as int) =~= bg);
        assert(visible_part(data@, index@, f, plan.visible.start.0 as int, plan.visible.end.0 as int, plan.batch_hit_target as int, plan.max_hits as int, all.take(vbs.len() as int)));
        assert(batches_outcome(data@, index@, *query, *config, all));
    }
    Ok(batches)
}

/// Searches the file for `query` as [`search_streaming_with`] does, with the
/// cancellation flag `cancelled` and a pool of `config.max_hits` hit slots
/// shared by the parallel scans; returns the number of hits handed over,
/// which together are a search outcome ([`search_outcome`]). At most
/// `config.max_hits` hits are reported; setting `cancelled` stops the search
/// early. While the flag stays unset and the pool never runs dry, every hit
/// of the file is handed over, the visible ones first, cut at
/// `config.max_hits`; with the flag set from the start, none is.
pub fn search_streaming<F: FnMut(SearchBatch)>(
    data: &[u8],
    index: &NewlineIndex,
    query: &SearchQuery,
    config: &SearchConfig,
    cancelled: &AtomicBool,
    on_batch: F,
) -> (res: Result<usize>)
    requires
        index@.describes(data@),
        forall|g: F, b: SearchBatch| delivered_ok(data@, index@, *query, *config, b) ==> call_requires(g, (b,)),
    ensures
        search_refused(*query, *config) <==> res is Err,
        res matches Err(e) ==> search_refusal(*query, *config, index@.total_lines(), e),
        res matches Ok(n) ==> n <= config.max_hits,
        res matches Ok(n) ==> exists|hits: Seq<SearchHit>|
            #[trigger] search_outcome(data@, index@, *query, *config, hits) && hits.len() == n,
        res matches Ok(n) ==> exists|bs: Seq<SearchBatch>|
            #[trigger] batches_outcome(data@, index@, *query, *config, bs) && flatten(bs).len() == n,
        flag_never_set(cancelled) && pools_never_dry(config.max_hits) ==> (res matches Ok(n) ==> n
            == cut(complete_hits(data@, index@, *query, *config), config.max_hits as int).len()),
        flag_always_set(cancelled) ==> (res matches Ok(n) ==> n == 0),
{
    let make_pool = new_slot_pool;
    let pool = make_pool(config.max_hits);
    let signals = |sig: Signal| -> (r: bool)
        ensures
            shared_answer(cancelled, &pool, sig, r),
        { ask_shared(cancelled, &pool, sig) };
    proof {
        if flag_never_set(cancelled) && pools_never_dry(config.max_hits) {
            lemma_shared_answers_quiet(cancelled, &pool, config.max_hits);
            assert(signals_quiet(signals));
        }
        if flag_always_set(cancelled) {
            lemma_shared_answers_cancelled(cancelled, &pool);
            assert(signals_cancelled(signals));
        }
    }
    search_streaming_with(data, index, query, config, &signals, on_batch)
}

/// Every hit of the search, the visible window's first, then those above
/// it, then those below it.
pub open spec fn complete_hits(
    d: Seq<u8>,
    m: IndexModel,
    q: SearchQuery,
    config: SearchConfig,
) -> Seq<SearchHit> {
    let total = m.total_lines();
    let vs = clamped_start(config.visible_lines, total);
    let ve = clamped_end(config.visible_lines, total);
    let f = query_spans_fn(q);
    range_hits(d, m, f, vs, ve) + background_hits(d, m, f, total, vs, ve)
}

/// A complete search lists every hit of the file exactly once, the visible
/// window's first: as a multiset its hits are those of all the lines of the
/// file, there are as many as the file holds, and they open with the hits of
/// the visible lines in order.
pub proof fn lemma_complete_hits_are_the_file_hits(
    d: Seq<u8>,
    m: IndexModel,
    q: SearchQuery,
    config: SearchConfig,
)
    requires
        config.visible_lines.start.0 <= config.visible_lines.end.0,
    ensures
        ({
            let total = m.total_lines();
            let f = query_spans_fn(q);
            let all = range_hits(d, m, f, 0, total);
            let vis = range_hits(
                d,
                m,
                f,
                clamped_start(config.visible_lines, total),
                clamped_end(config.visible_lines, total),
            );
            let c = complete_hits(d, m, q, config);
            &&& c.to_multiset() == all.to_multiset()
            &&& c.len() == all.len()
            &&& c.take(vis.len() as int) == vis
        }),
{
    broadcast use vstd::seq_lib::group_to_multiset_ensures;

    let total = m.total_lines();
    let f = query_spans_fn(q);
    let vs = clamped_start(config.visible_lines, total);
    let ve = clamped_end(config.visible_lines, total);
    let above = range_hits(d, m, f, 0, vs);
    let vis = range_hits(d, m, f, vs, ve);
    let below = range_hits(d, m, f, ve, total);
    lemma_range_hits_split(d, m, f, 0, vs, ve);
    lemma_range_hits_split(d, m, f, 0, ve, total);
    let all = range_hits(d, m, f, 0, total);
    assert(all == above + vis + below);
    let c = complete_hits(d, m, q, config);
    assert(c == vis + (above + below));
    vstd::seq_lib::lemma_multiset_commutative(above, vis);
    vstd::seq_lib::lemma_multiset_commutative(above + vis, below);
    vstd::seq_lib::lemma_multiset_commutative(above, below);
    vstd::seq_lib::lemma_multiset_commutative(vis, above + below);
    assert(c.to_multiset() =~= all.to_multiset());
    assert(c.take(vis.len() as int) =~= vis);
}

/// Every hit of every line of the file is among the hits a complete search
/// lists.
pub proof fn lemma_complete_hits_hold_every_line(
    d: Seq<u8>,
    m: IndexModel,
    q: SearchQuery,
    config: SearchConfig,
    l: int,
    j: int,
)
    requires
        config.visible_lines.start.0 <= config.visible_lines.end.0,
        0 <= l < m.total_lines(),
        0 <= j < line_hits(d, m, query_spans_fn(q), l).len(),
    ensures
        complete_hits(d, m, q, config).contains(line_hits(d, m, query_spans_fn(q), l)[j]),
{
    broadcast use vstd::seq_lib::group_to_multiset_ensures;

    let total = m.total_lines();
    let f = query_spans_fn(q);
    let x = line_hits(d, m, f, l)[j];
    lemma_range_hits_split(d, m, f, 0, l + 1, total);
    let before = range_hits(d, m, f, 0, l);
    let all = range_hits(d, m, f, 0, total);
    assert(range_hits(d, m, f, 0, l + 1) == before + line_hits(d, m, f, l));
    assert(all[before.len() + j] == x);
    assert(all.contains(x));
    lemma_complete_hits_are_the_file_hits(d, m, q, config);
    assert(complete_hits(d, m, q, config).to_multiset().count(x) > 0);
}

/// What a complete search delivers, visible hits first: `hits` opens with a
/// prefix of the visible window's hits and goes on with background batches
/// (each a prefix of a chunk's hits, in chunk order), all within the budget.
pub open spec fn search_outcome(
    d: Seq<u8>,
    m: IndexModel,
    q: SearchQuery,
    config: SearchConfig,
    hits: Seq<SearchHit>,
) -> bool {
    let total = m.total_lines();
    let vs = clamped_start(config.visible_lines, total);
    let ve = clamped_end(config.visible_lines, total);
    let f = query_spans_fn(q);
    let vis = range_hits(d, m, f, vs, ve);
    &&& hits.len() <= config.max_hits
    &&& exists|k: int|
        0 <= k <= hits.len() && k <= vis.len() && #[trigger] hits.take(k) == vis.take(k) && (k
            == hits.len() || exists|bg: Seq<SearchBatch>|
            background_outcome(
                d,
                m,
                f,
                background_chunks(total, vs, ve, at_least_one(config.chunk_lines as int)),
                config.max_hits - k,
                bg,
            ) && #[trigger] flatten(bg) == hits.skip(k))
}

/// The tuning [`search_visible_first`] searches with.
pub open spec fn visible_first_config(visible_lines: Range<LineNumber>, max_hits: usize) -> SearchConfig {
    SearchConfig {
        visible_lines,
        chunk_lines: 8192,
        max_hits,
        batch_hit_target: at_least_one(max_hits as int) as usize,
    }
}

/// Runs a search with default chunking and every hit in one batch per
/// stage, asking `signals` as [`search_streaming_with`] does, and returns
/// the hits of the batches it would hand over ([`search_batches_with`]), in
/// order, visible ones first: every hit of the file cut at `max_hits` when
/// the signals are quiet, none when cancellation is seen at once.
pub fn search_visible_first_with<S: Fn(Signal) -> bool + Sync>(
    data: &[u8],
    index: &NewlineIndex,
    query: &SearchQuery,
    visible_lines: Range<LineNumber>,
    max_hits: usize,
    signals: &S,
) -> (res: Result<Vec<SearchHit>>)
    requires
        index@.describes(data@),
        signals_ready(*signals),
    ensures
        ({
            let config = visible_first_config(visible_lines, max_hits);
            &&& search_refused(*query, config) <==> res is Err
            &&& res matches Err(e) ==> search_refusal(*query, config, index@.total_lines(), e)
            &&& res matches Ok(hits) ==> search_outcome(data@, index@, *query, config, hits@)
            &&& signals_quiet(*signals) ==> (res matches Ok(hits) ==> hits@ == cut(
                complete_hits(data@, index@, *query, config),
                max_hits as int,
            ))
            &&& signals_cancelled(*signals) ==> (res matches Ok(hits) ==> hits@.len() == 0)
            &&& res matches Ok(hits) ==> exists|bs: Seq<SearchBatch>|
                #[trigger] batches_outcome(data@, index@, *query, config, bs) && hits@ == flatten(bs)
        }),
{
    let config = SearchConfig {
        visible_lines,
        chunk_lines: 8192,
        max_hits,
        batch_hit_target: if max_hits >= 1 { max_hits } else { 1 },
    };
    let batches = search_batches_with(data, index, query, &config, signals)?;
    let ghost bs = batches@;
    let hits = concat_batches(batches);
    proof {
        assert(batches_outcome(data@, index@, *query, config, bs) && hits@ == flatten(bs));
    }
    Ok(hits)
}

/// Runs a search with default chunking and every hit in one batch per
/// stage, with the cancellation flag `cancelled` and a shared pool of
/// `max_hits` hit slots, and returns all the hits found, visible ones first:
/// while the flag stays unset and the pool never runs dry, every hit of the
/// file, the visible window's first, cut at `max_hits`; none when the flag
/// is set from the start.
pub fn search_visible_first(
    data: &[u8],
    index: &NewlineIndex,
    query: &SearchQuery,
    visible_lines: Range<LineNumber>,
    max_hits: usize,
    cancelled: &AtomicBool,
) -> (res: Result<Vec<SearchHit>>)
    requires
        index@.describes(data@),
    ensures
        ({
            let config = visible_first_config(visible_lines, max_hits);
            &&& search_refused(*query, config) <==> res is Err
            &&& res matches Err(e) ==> search_refusal(*query, config, index@.total_lines(), e)
            &&& res matches Ok(hits) ==> search_outcome(data@, index@, *query, config, hits@)
            &&& res matches Ok(hits) ==> exists|bs: Seq<SearchBatch>|
                #[trigger] batches_outcome(data@, index@, *query, config, bs) && hits@ == flatten(bs)
            &&& flag_never_set(cancelled) && pools_never_dry(max_hits) ==> (res matches Ok(hits)
                ==> hits@ == cut(complete_hits(data@, index@, *query, config), max_hits as int))
            &&& flag_always_set(cancelled) ==> (res matches Ok(hits) ==> hits@.len() == 0)
        }),
{
    let make_pool = new_slot_pool;
    let pool = make_pool(max_hits);
    let signals = |sig: Signal| -> (r: bool)
        ensures
            shared_answer(cancelled, &pool, sig, r),
        { ask_shared(cancelled, &pool, sig) };
    proof {
        if flag_never_set(cancelled) && pools_never_dry(max_hits) {
            lemma_shared_answers_quiet(cancelled, &pool, max_hits);
            assert(signals_quiet(signals));
        }
        if flag_always_set(cancelled) {
            lemma_shared_answers_cancelled(cancelled, &pool);
            assert(signals_cancelled(signals));
        }
    }
    search_visible_first_with(data, index, query, visible_lines, max_hits, &signals)
}

} // verus!
