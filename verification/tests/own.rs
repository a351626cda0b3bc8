use std::sync::atomic::{AtomicBool, AtomicUsize};
use tachyon::flags::{ask_shared, decrement_slot, HitSlots, Signal};
use tachyon::ingest::{slice_byte_range, NewlineIndex};
use tachyon::matching::find_substring_offsets;
use tachyon::search::{
    clamp_line_range, search_batches_with, search_streaming, search_streaming_with, search_visible_first, search_visible_first_with,
    CompiledQuery, SearchBatch, SearchConfig, SearchHit, SearchStage,
};
use tachyon::synth::synthetic_log_bytes;
use tachyon::trace::{
    frame_span_document, spans_from_json_lines, spans_from_raw, spans_in_window, RawSpan,
    SpanDocument,
};
use tachyon::types::{ByteOffset, ByteRange, LineNumber, SearchMode, SearchQuery, Span, TachyonError};
use tachyon::viewport::Viewport;

fn hit(line: u64, start: u64, end: u64) -> SearchHit {
    SearchHit {
        line: LineNumber(line),
        byte_range: ByteRange { start: ByteOffset(start), end: ByteOffset(end) },
    }
}

fn collect_batches(
    data: &[u8],
    query: &SearchQuery,
    config: &SearchConfig,
) -> (usize, Vec<SearchBatch>) {
    let index = NewlineIndex::from_bytes_parallel(data, 3);
    let cancelled = AtomicBool::new(false);
    let mut batches = Vec::new();
    let emitted = search_streaming(data, &index, query, config, &cancelled, |batch| {
        batches.push(batch);
    })
    .unwrap();
    (emitted, batches)
}

fn all_hits(batches: &[SearchBatch]) -> Vec<SearchHit> {
    batches.iter().flat_map(|batch| batch.hits.iter().copied()).collect()
}

// ---------------------------------------------------------------- types

#[test]
fn byte_range_rejects_backwards_range() {
    match ByteRange::new(ByteOffset(7), ByteOffset(3)) {
        Err(TachyonError::InvalidByteRange { start, end }) => {
            assert_eq!(start, 7);
            assert_eq!(end, 3);
        }
        other => panic!("unexpected {other:?}"),
    }
}

#[test]
fn byte_range_length_and_emptiness() {
    let range = ByteRange::new(ByteOffset(4), ByteOffset(10)).unwrap();
    assert_eq!(range.len(), 6);
    assert!(!range.is_empty());
    let empty = ByteRange::new(ByteOffset(9), ByteOffset(9)).unwrap();
    assert_eq!(empty.len(), 0);
    assert!(empty.is_empty());
}

#[test]
fn empty_patterns_are_refused() {
    match SearchQuery::substring("", true) {
        Err(TachyonError::InvalidQuery(message)) => {
            assert_eq!(message, "substring pattern must not be empty")
        }
        other => panic!("unexpected {other:?}"),
    }
    match SearchQuery::regex("") {
        Err(TachyonError::InvalidQuery(message)) => {
            assert_eq!(message, "regex pattern must not be empty")
        }
        other => panic!("unexpected {other:?}"),
    }
    let query = SearchQuery::substring("x", false).unwrap();
    assert_eq!(query.pattern, "x");
    assert_eq!(query.mode, SearchMode::Substring { case_sensitive: false });
    assert_eq!(SearchQuery::regex("a+").unwrap().mode, SearchMode::Regex);
}

// ---------------------------------------------------------------- viewport

#[test]
fn viewport_keeps_at_least_one_row() {
    let viewport = Viewport::new(0, 4);
    assert_eq!(viewport.visible_rows, 1);
    assert_eq!(viewport.overscan_rows, 4);
    assert_eq!(viewport.top_line, LineNumber(0));
}

#[test]
fn fetch_window_contains_visible_window() {
    for (rows, overscan, scroll, total) in
        [(10u32, 5u32, 20i64, 100u64), (10, 5, 2, 100), (10, 50, 95, 100), (3, 1, 0, 2), (4, 2, 7, 0)]
    {
        let mut viewport = Viewport::new(rows, overscan);
        viewport.scroll_lines(scroll, total);
        let visible = viewport.visible_line_range(total);
        let fetch = viewport.fetch_line_range(total);
        assert!(fetch.start <= visible.start);
        assert!(visible.start <= visible.end);
        assert!(visible.end <= fetch.end);
        assert!(fetch.end.0 <= total);
        assert!(visible.end.0 - visible.start.0 <= rows as u64);
    }
}

#[test]
fn scrolled_window_stays_full() {
    let mut viewport = Viewport::new(10, 3);
    viewport.scroll_lines(1_000, 50);
    assert_eq!(viewport.top_line, LineNumber(40));
    assert_eq!(viewport.visible_line_range(50), LineNumber(40)..LineNumber(50));
    let mut short = Viewport::new(10, 3);
    short.scroll_lines(5, 4);
    assert_eq!(short.top_line, LineNumber(0));
    assert_eq!(short.visible_line_range(4), LineNumber(0)..LineNumber(4));
}

#[test]
fn fetch_window_is_clamped_at_the_top() {
    let mut viewport = Viewport::new(10, 5);
    viewport.scroll_lines(2, 100);
    assert_eq!(viewport.fetch_line_range(100), LineNumber(0)..LineNumber(17));
}

// ---------------------------------------------------------------- synthetic logs

#[test]
fn synthetic_line_has_the_documented_layout() {
    let bytes = synthetic_log_bytes(1, 2);
    assert_eq!(
        bytes,
        b"2026-01-01T00:00:00Z service=api level=INFO req=00000000 payload=  \n".to_vec()
    );
}

#[test]
fn synthetic_lines_count_minutes_seconds_and_requests() {
    let bytes = synthetic_log_bytes(62, 0);
    let text = String::from_utf8(bytes).unwrap();
    let lines: Vec<&str> = text.lines().collect();
    assert_eq!(lines.len(), 62);
    assert_eq!(lines[61], "2026-01-01T00:01:01Z service=api level=INFO req=0000003d payload=");
    assert_eq!(text.len(), 62 * 66);
}

#[test]
fn synthetic_newline_count_equals_line_count() {
    for (lines, payload) in [(0usize, 5usize), (1, 0), (7, 3), (125, 1)] {
        let bytes = synthetic_log_bytes(lines, payload);
        assert_eq!(bytes.iter().filter(|byte| **byte == b'\n').count(), lines);
        assert_eq!(bytes.len(), lines * (66 + payload));
    }
}

// ---------------------------------------------------------------- newline index

#[test]
fn zero_chunk_size_is_treated_as_one() {
    let index = NewlineIndex::from_bytes_parallel(b"x\ny\n", 0);
    assert_eq!(index.newline_count(), 2);
    assert_eq!(index.total_lines(), 3);
    assert_eq!(index.file_len(), 4);
}

#[test]
fn line_start_maps_back_to_its_line() {
    let data = b"a\n\nbc\n\nlast";
    for chunk in [1usize, 2, 5, 64] {
        let index = NewlineIndex::from_bytes_parallel(data, chunk);
        for line in 0..index.total_lines() {
            let start = index.line_to_byte(LineNumber(line)).unwrap();
            assert_eq!(index.byte_to_line(start), LineNumber(line));
        }
    }
}

#[test]
fn every_byte_lies_within_its_line() {
    let data = b"one\ntwo\n\nthree";
    let index = NewlineIndex::from_bytes_parallel(data, 3);
    for offset in 0..data.len() as u64 {
        let line = index.byte_to_line(ByteOffset(offset));
        let range = index.line_byte_range(line).unwrap();
        assert!(range.start.0 <= offset && offset <= range.end.0);
    }
}

#[test]
fn line_past_the_end_is_out_of_bounds() {
    let index = NewlineIndex::from_bytes_parallel(b"a\nb", 2);
    match index.line_to_byte(LineNumber(2)) {
        Err(TachyonError::LineOutOfBounds { requested, total }) => {
            assert_eq!(requested, 2);
            assert_eq!(total, 2);
        }
        other => panic!("unexpected {other:?}"),
    }
    assert!(matches!(
        index.line_byte_range(LineNumber(9)),
        Err(TachyonError::LineOutOfBounds { requested: 9, total: 2 })
    ));
}

#[test]
fn byte_past_the_end_maps_to_last_line() {
    let index = NewlineIndex::from_bytes_parallel(b"a\nb\n", 2);
    assert_eq!(index.byte_to_line(ByteOffset(1)), LineNumber(0));
    assert_eq!(index.byte_to_line(ByteOffset(3)), LineNumber(1));
    assert_eq!(index.byte_to_line(ByteOffset(4)), LineNumber(2));
    assert_eq!(index.byte_to_line(ByteOffset(400)), LineNumber(2));
}

#[test]
fn slicing_checks_the_end_of_the_range() {
    let data = b"line-1\nline-2\n";
    let range = ByteRange::new(ByteOffset(7), ByteOffset(13)).unwrap();
    assert_eq!(slice_byte_range(data, range).unwrap(), b"line-2");
    let past = ByteRange::new(ByteOffset(3), ByteOffset(15)).unwrap();
    assert!(matches!(
        slice_byte_range(data, past),
        Err(TachyonError::InvalidByteRange { start: 3, end: 15 })
    ));
}

// ---------------------------------------------------------------- matching

#[test]
fn exact_matches_are_leftmost_and_non_overlapping() {
    assert_eq!(find_substring_offsets(b"aaaa", b"aa", true), vec![0..2, 2..4]);
    assert_eq!(find_substring_offsets(b"xabyab", b"ab", true), vec![1..3, 4..6]);
    assert!(find_substring_offsets(b"abc", b"zz", true).is_empty());
}

#[test]
fn substring_offsets_by_case_mode() {
    assert_eq!(find_substring_offsets(b"aaa", b"aa", true), vec![0..2]);
    assert_eq!(find_substring_offsets(b"aAa", b"aa", false), vec![0..2, 1..3]);
    assert_eq!(find_substring_offsets(b"Beta beta", b"BETA", false), vec![0..4, 5..9]);
    assert!(find_substring_offsets(b"ab", b"abc", true).is_empty());
    assert!(find_substring_offsets(b"ab", b"", false).is_empty());
}

#[test]
fn invalid_regex_is_rejected_with_the_engine_message() {
    let query = SearchQuery::regex("(unclosed").unwrap();
    match CompiledQuery::compile(&query) {
        Err(TachyonError::InvalidQuery(message)) => assert!(message.contains("unclosed group")),
        _ => panic!("pattern should not compile"),
    }
    let query = SearchQuery::regex("a+b").unwrap();
    let compiled = CompiledQuery::compile(&query).unwrap();
    assert_eq!(compiled.find_offsets(b"xaab ab b"), vec![1..4, 5..7]);
}

// ---------------------------------------------------------------- search

#[test]
fn regex_search_reports_absolute_byte_ranges() {
    let data = b"id=12 x\nnone\nid=7\n";
    let query = SearchQuery::regex("id=[0-9]+").unwrap();
    let config = SearchConfig {
        visible_lines: LineNumber(0)..LineNumber(1),
        chunk_lines: 1,
        max_hits: 10,
        batch_hit_target: 4,
    };
    let (emitted, batches) = collect_batches(data, &query, &config);
    assert_eq!(emitted, 2);
    assert_eq!(all_hits(&batches), vec![hit(0, 0, 5), hit(2, 13, 17)]);
    assert_eq!(batches[0].stage, SearchStage::Visible);
    assert_eq!(batches[1].stage, SearchStage::Background);
    assert_eq!(batches[1].line_range, LineNumber(2)..LineNumber(3));
}

#[test]
fn invalid_regex_query_is_an_invalid_query_error() {
    let data = b"abc\n";
    let index = NewlineIndex::from_bytes_parallel(data, 4);
    let query = SearchQuery::regex("[z-a]").unwrap();
    let cancelled = AtomicBool::new(false);
    let result =
        search_visible_first(data, &index, &query, LineNumber(0)..LineNumber(1), 5, &cancelled);
    match result {
        Err(TachyonError::InvalidQuery(message)) => assert!(!message.is_empty()),
        other => panic!("unexpected {other:?}"),
    }
}

#[test]
fn backwards_visible_window_is_an_invalid_line_range() {
    let data = b"a\nb\nc\n";
    let index = NewlineIndex::from_bytes_parallel(data, 4);
    let query = SearchQuery::substring("a", true).unwrap();
    let config = SearchConfig::with_visible_lines(LineNumber(3)..LineNumber(1));
    let cancelled = AtomicBool::new(false);
    let result = search_streaming(data, &index, &query, &config, &cancelled, |_| {});
    match result {
        Err(TachyonError::InvalidLineRange { start, end, total }) => {
            assert_eq!((start, end, total), (3, 1, 4));
        }
        other => panic!("unexpected {other:?}"),
    }
}

#[test]
fn visible_window_past_the_file_is_clamped() {
    let data = b"beta\nalpha\nbeta";
    let query = SearchQuery::substring("beta", true).unwrap();
    let config = SearchConfig {
        visible_lines: LineNumber(2)..LineNumber(90),
        chunk_lines: 8,
        max_hits: 10,
        batch_hit_target: 10,
    };
    let (emitted, batches) = collect_batches(data, &query, &config);
    assert_eq!(emitted, 2);
    assert_eq!(batches[0].stage, SearchStage::Visible);
    assert_eq!(batches[0].hits, vec![hit(2, 11, 15)]);
    assert_eq!(all_hits(&batches), vec![hit(2, 11, 15), hit(0, 0, 4)]);
}

#[test]
fn zero_hit_budget_finds_nothing() {
    let data = b"beta\nbeta\n";
    let query = SearchQuery::substring("beta", true).unwrap();
    let config = SearchConfig {
        visible_lines: LineNumber(0)..LineNumber(3),
        chunk_lines: 1,
        max_hits: 0,
        batch_hit_target: 1,
    };
    let (emitted, batches) = collect_batches(data, &query, &config);
    assert_eq!(emitted, 0);
    assert!(batches.is_empty());
}

#[test]
fn visible_batches_fill_up_to_the_target() {
    let data = b"ab ab\nab\nab ab\n";
    let query = SearchQuery::substring("ab", true).unwrap();
    let config = SearchConfig {
        visible_lines: LineNumber(0)..LineNumber(4),
        chunk_lines: 2,
        max_hits: 100,
        batch_hit_target: 2,
    };
    let (emitted, batches) = collect_batches(data, &query, &config);
    assert_eq!(emitted, 5);
    let sizes: Vec<usize> = batches.iter().map(|batch| batch.hits.len()).collect();
    assert_eq!(sizes, vec![2, 2, 1]);
    assert!(batches.iter().all(|batch| batch.stage == SearchStage::Visible));
    for batch in &batches {
        for found in &batch.hits {
            assert!(batch.line_range.start <= found.line && found.line < batch.line_range.end);
        }
    }
}

#[test]
fn one_pass_scan_agrees_with_line_by_line_scan() {
    let data = b"xab\nab\nb\nab_ab\n";
    let sensitive = SearchQuery::substring("ab", true).unwrap();
    let by_line = SearchQuery::regex("ab").unwrap();
    let config = SearchConfig {
        visible_lines: LineNumber(0)..LineNumber(5),
        chunk_lines: 2,
        max_hits: 100,
        batch_hit_target: 100,
    };
    let (_, fast) = collect_batches(data, &sensitive, &config);
    let (_, slow) = collect_batches(data, &by_line, &config);
    let expected = vec![hit(0, 1, 3), hit(1, 4, 6), hit(3, 9, 11), hit(3, 12, 14)];
    assert_eq!(all_hits(&fast), expected);
    assert_eq!(all_hits(&slow), expected);
}

#[test]
fn matches_never_cross_a_line_break() {
    let data = b"ab\ncd\n";
    let query = SearchQuery::substring("b\nc", true).unwrap();
    let config = SearchConfig::with_visible_lines(LineNumber(0)..LineNumber(3));
    let (emitted, batches) = collect_batches(data, &query, &config);
    assert_eq!(emitted, 0);
    assert!(batches.is_empty());
}

#[test]
fn case_insensitive_search_reports_overlapping_matches() {
    let data = b"AAA\n";
    let index = NewlineIndex::from_bytes_parallel(data, 8);
    let cancelled = AtomicBool::new(false);
    let folded = SearchQuery::substring("aa", false).unwrap();
    let hits = search_visible_first(data, &index, &folded, LineNumber(0)..LineNumber(2), 10, &cancelled)
        .unwrap();
    assert_eq!(hits, vec![hit(0, 0, 2), hit(0, 1, 3)]);
    let exact = SearchQuery::substring("AA", true).unwrap();
    let hits = search_visible_first(data, &index, &exact, LineNumber(0)..LineNumber(2), 10, &cancelled)
        .unwrap();
    assert_eq!(hits, vec![hit(0, 0, 2)]);
}

#[test]
fn background_hits_follow_chunk_order() {
    let data = b"k\nk\nk\nk\nk\nk\n";
    let index = NewlineIndex::from_bytes_parallel(data, 5);
    let query = SearchQuery::substring("k", true).unwrap();
    let cancelled = AtomicBool::new(false);
    let hits = search_visible_first(data, &index, &query, LineNumber(2)..LineNumber(4), 100, &cancelled)
        .unwrap();
    let lines: Vec<u64> = hits.iter().map(|found| found.line.0).collect();
    assert_eq!(lines, vec![2, 3, 0, 1, 4, 5]);
}

#[test]
fn search_visible_first_respects_the_budget() {
    let data = b"k\nk\nk\nk\nk\nk\n";
    let index = NewlineIndex::from_bytes_parallel(data, 5);
    let query = SearchQuery::substring("k", true).unwrap();
    let cancelled = AtomicBool::new(false);
    let hits = search_visible_first(data, &index, &query, LineNumber(1)..LineNumber(3), 3, &cancelled)
        .unwrap();
    assert_eq!(hits.len(), 3);
    assert_eq!(hits[0], hit(1, 2, 3));
    assert_eq!(hits[1], hit(2, 4, 5));
}

// ---------------------------------------------------------------- hit slots

#[test]
fn hit_slots_run_out() {
    assert_eq!(decrement_slot(3), Some(2));
    assert_eq!(decrement_slot(0), None);
    let pool = AtomicUsize::new(2);
    let flag = AtomicBool::new(false);
    let signals = |sig: Signal| ask_shared(&flag, &pool, sig);
    let mut shared = HitSlots::Shared;
    assert!(!shared.exhausted(&signals));
    assert!(shared.take(&signals));
    assert!(shared.take(&signals));
    assert!(!shared.take(&signals));
    assert!(shared.exhausted(&signals));
    let roomy = AtomicUsize::new(10);
    let signals = |sig: Signal| ask_shared(&flag, &roomy, sig);
    let mut budget = HitSlots::Budget(1);
    assert!(!budget.exhausted(&signals));
    assert!(budget.take(&signals));
    assert!(budget.exhausted(&signals));
    assert!(!budget.take(&signals));
    assert_eq!(roomy.load(std::sync::atomic::Ordering::Relaxed), 9);
}

fn quiet(sig: Signal) -> bool {
    matches!(sig, Signal::TakeSlot | Signal::RequestCancel)
}

fn cancelled_at_once(sig: Signal) -> bool {
    !matches!(sig, Signal::NoSlotLeft)
}

#[test]
fn quiet_search_finds_every_hit_visible_first() {
    let data = b"beta
alpha beta
beta beta
x
beta
";
    let index = NewlineIndex::from_bytes_parallel(data, 4);
    let query = SearchQuery::substring("beta", true).unwrap();
    let hits = search_visible_first_with(
        data,
        &index,
        &query,
        LineNumber(2)..LineNumber(3),
        100,
        &quiet,
    )
    .unwrap();
    assert_eq!(
        hits,
        vec![hit(2, 16, 20), hit(2, 21, 25), hit(0, 0, 4), hit(1, 11, 15), hit(4, 28, 32)]
    );
    let cut = search_visible_first_with(data, &index, &query, LineNumber(2)..LineNumber(3), 3, &quiet)
        .unwrap();
    assert_eq!(cut, vec![hit(2, 16, 20), hit(2, 21, 25), hit(0, 0, 4)]);
}

#[test]
fn quiet_streaming_search_counts_every_hit() {
    let data = b"beta
beta
beta
beta
beta
";
    let index = NewlineIndex::from_bytes_parallel(data, 2);
    let query = SearchQuery::substring("beta", true).unwrap();
    let config = SearchConfig {
        visible_lines: LineNumber(1)..LineNumber(2),
        chunk_lines: 2,
        max_hits: 4,
        batch_hit_target: 1,
    };
    let mut lines = Vec::new();
    let emitted = search_streaming_with(data, &index, &query, &config, &quiet, |batch| {
        lines.extend(batch.hits.iter().map(|found| found.line.0));
    })
    .unwrap();
    assert_eq!(emitted, 4);
    assert_eq!(lines, vec![1, 0, 2, 3]);
}

#[test]
fn search_cancelled_at_once_finds_nothing() {
    let data = b"beta
beta
";
    let index = NewlineIndex::from_bytes_parallel(data, 2);
    let query = SearchQuery::substring("beta", true).unwrap();
    let config = SearchConfig::with_visible_lines(LineNumber(0)..LineNumber(3));
    let mut calls = 0usize;
    let emitted =
        search_streaming_with(data, &index, &query, &config, &cancelled_at_once, |_| calls += 1)
            .unwrap();
    assert_eq!(emitted, 0);
    assert_eq!(calls, 0);
    let regex = SearchQuery::regex("b.t").unwrap();
    let hits = search_visible_first_with(
        data,
        &index,
        &regex,
        LineNumber(0)..LineNumber(3),
        10,
        &cancelled_at_once,
    )
    .unwrap();
    assert!(hits.is_empty());
}

// ---------------------------------------------------------------- trace

fn raw(span_id: &str, parent: Option<&str>, start_ns: u64, end_ns: u64) -> RawSpan {
    RawSpan {
        trace_id: "t1".to_owned(),
        span_id: span_id.to_owned(),
        parent_span_id: parent.map(str::to_owned),
        service: "api".to_owned(),
        name: "request".to_owned(),
        start_ns,
        end_ns,
    }
}

#[test]
fn span_ending_before_it_starts_is_refused() {
    match Span::try_from(raw("s1", None, 30, 10)) {
        Err(TachyonError::Parse(message)) => assert_eq!(message, "span end_ns must be >= start_ns"),
        other => panic!("unexpected {other:?}"),
    }
    let span = Span::try_from(raw("s2", Some("s1"), 10, 10)).unwrap();
    assert_eq!(span.parent_span_id.as_deref(), Some("s1"));
    assert_eq!((span.start_ns, span.end_ns), (10, 10));
}

#[test]
fn spans_from_raw_keeps_order_or_fails_whole() {
    let spans = spans_from_raw(vec![raw("a", None, 1, 2), raw("b", Some("a"), 3, 9)]).unwrap();
    let ids: Vec<&str> = spans.iter().map(|span| span.span_id.as_str()).collect();
    assert_eq!(ids, vec!["a", "b"]);
    assert!(matches!(
        spans_from_raw(vec![raw("a", None, 1, 2), raw("b", None, 9, 3)]),
        Err(TachyonError::Parse(_))
    ));
    assert!(spans_from_raw(Vec::new()).unwrap().is_empty());
}

#[test]
fn window_bounds_are_exclusive() {
    let spans = spans_from_raw(vec![
        raw("before", None, 0, 10),
        raw("inside", None, 12, 14),
        raw("after", None, 20, 25),
        raw("across", None, 5, 30),
    ])
    .unwrap();
    let visible = spans_in_window(&spans, 10, 20).unwrap();
    let ids: Vec<&str> = visible.iter().map(|span| span.span_id.as_str()).collect();
    assert_eq!(ids, vec!["inside", "across"]);
    assert_eq!(spans_in_window(&spans, 13, 13).unwrap().len(), 2);
    assert_eq!(spans_in_window(&spans, 15, 15).unwrap().len(), 1);
    match spans_in_window(&spans, 20, 10) {
        Err(TachyonError::Parse(message)) => {
            assert_eq!(message, "time window end_ns must be >= start_ns")
        }
        other => panic!("unexpected {other:?}"),
    }
}

#[test]
fn blank_trace_document_is_empty() {
    assert!(matches!(frame_span_document(b"  \n\t "), Ok(SpanDocument::Empty)));
    assert!(matches!(frame_span_document(b""), Ok(SpanDocument::Empty)));
}

#[test]
fn trace_document_opening_with_a_bracket_is_an_array() {
    let data = br#"  [{"trace_id":"t1","span_id":"s1","service":"api","name":"request","start_ns":10,"end_ns":30}]
"#;
    match frame_span_document(data) {
        Ok(SpanDocument::Array(text)) => {
            assert!(text.starts_with('['));
            assert!(text.ends_with(']'));
        }
        _ => panic!("expected an array"),
    }
}

#[test]
fn trace_document_lines_are_split_and_trimmed() {
    let data = b"\n {\"a\":1}\r\n{\"b\":2}\n\n";
    match frame_span_document(data) {
        Ok(SpanDocument::Lines(lines)) => assert_eq!(lines, vec!["{\"a\":1}", "{\"b\":2}"]),
        _ => panic!("expected lines"),
    }
}

#[test]
fn trace_document_must_be_utf8() {
    match frame_span_document(b"\xff{}") {
        Err(TachyonError::Parse(message)) => {
            assert_eq!(message, "invalid UTF-8 input: invalid utf-8 sequence of 1 bytes from index 0")
        }
        _ => panic!("expected a parse error"),
    }
}

#[test]
fn json_lines_fail_at_their_first_bad_line() {
    let spans =
        spans_from_json_lines(vec![Ok(raw("a", None, 1, 2)), Ok(raw("b", Some("a"), 2, 5))]).unwrap();
    let ids: Vec<&str> = spans.iter().map(|span| span.span_id.as_str()).collect();
    assert_eq!(ids, vec!["a", "b"]);
    match spans_from_json_lines(vec![
        Ok(raw("a", None, 1, 2)),
        Err("expected value at line 1 column 1".to_owned()),
        Ok(raw("c", None, 9, 3)),
    ]) {
        Err(TachyonError::Parse(message)) => {
            assert_eq!(message, "invalid JSON line: expected value at line 1 column 1")
        }
        other => panic!("unexpected {other:?}"),
    }
    match spans_from_json_lines(vec![Ok(raw("c", None, 9, 3)), Err("bad".to_owned())]) {
        Err(TachyonError::Parse(message)) => assert_eq!(message, "span end_ns must be >= start_ns"),
        other => panic!("unexpected {other:?}"),
    }
    assert!(spans_from_json_lines(Vec::new()).unwrap().is_empty());
}

#[test]
fn visible_window_is_clamped_or_refused() {
    assert_eq!(
        clamp_line_range(LineNumber(3)..LineNumber(90), 10).unwrap(),
        LineNumber(3)..LineNumber(10)
    );
    assert_eq!(
        clamp_line_range(LineNumber(30)..LineNumber(90), 10).unwrap(),
        LineNumber(10)..LineNumber(10)
    );
    assert!(matches!(
        clamp_line_range(LineNumber(5)..LineNumber(4), 10),
        Err(TachyonError::InvalidLineRange { start: 5, end: 4, total: 10 })
    ));
}

#[test]
fn search_batches_visible_first_then_background() {
    let data = b"alpha\nbeta\nalpha\nbeta\n";
    let index = NewlineIndex::from_bytes_parallel(data, 4);
    let query = SearchQuery::substring("beta", true).unwrap();
    let config = SearchConfig {
        visible_lines: LineNumber(1)..LineNumber(2),
        chunk_lines: 1,
        max_hits: 10,
        batch_hit_target: 1,
    };
    let batches = search_batches_with(data, &index, &query, &config, &quiet).unwrap();
    assert_eq!(batches.len(), 2);
    assert_eq!(batches[0].stage, SearchStage::Visible);
    assert_eq!(batches[0].hits, vec![hit(1, 6, 10)]);
    assert_eq!(batches[1].stage, SearchStage::Background);
    assert_eq!(batches[1].line_range, LineNumber(3)..LineNumber(4));
    assert_eq!(batches[1].hits, vec![hit(3, 17, 21)]);
    let cancelled = AtomicBool::new(false);
    let mut delivered = Vec::new();
    let emitted = search_streaming(data, &index, &query, &config, &cancelled, |batch| {
        delivered.push(batch);
    })
    .unwrap();
    assert_eq!(emitted, 2);
    assert_eq!(delivered, batches);
}

#[test]
fn search_batches_respect_the_budget_and_refusals() {
    let data = b"beta\nbeta\nbeta\nbeta\nbeta\n";
    let index = NewlineIndex::from_bytes_parallel(data, 2);
    let query = SearchQuery::substring("beta", true).unwrap();
    let config = SearchConfig {
        visible_lines: LineNumber(0)..LineNumber(index.total_lines()),
        chunk_lines: 2,
        max_hits: 3,
        batch_hit_target: 1,
    };
    let batches = search_batches_with(data, &index, &query, &config, &quiet).unwrap();
    let lines: Vec<u64> = batches.iter().map(|batch| batch.hits[0].line.0).collect();
    assert_eq!(lines, vec![0, 1, 2]);
    assert!(batches.iter().all(|batch| batch.stage == SearchStage::Visible && batch.hits.len() == 1));
    assert!(search_batches_with(data, &index, &query, &config, &cancelled_at_once).unwrap().is_empty());
    let backwards = SearchConfig::with_visible_lines(LineNumber(4)..LineNumber(2));
    assert!(matches!(
        search_batches_with(data, &index, &query, &backwards, &quiet),
        Err(TachyonError::InvalidLineRange { start: 4, end: 2, total: 6 })
    ));
}

#[test]
fn visible_batches_stream_as_they_fill() {
    let data = b"beta\nbeta\nbeta\nbeta\nbeta\n";
    let index = NewlineIndex::from_bytes_parallel(data, 2);
    let query = SearchQuery::substring("beta", true).unwrap();
    let config = SearchConfig {
        visible_lines: LineNumber(0)..LineNumber(index.total_lines()),
        chunk_lines: 2,
        max_hits: 10,
        batch_hit_target: 1,
    };
    let cancelled = AtomicBool::new(false);
    let mut seen = Vec::new();
    let emitted = search_streaming(data, &index, &query, &config, &cancelled, |batch| {
        seen.push(batch.hits[0].line.0);
        cancelled.store(true, std::sync::atomic::Ordering::Relaxed);
    })
    .unwrap();
    assert_eq!(emitted, 1);
    assert_eq!(seen, vec![0]);
}
