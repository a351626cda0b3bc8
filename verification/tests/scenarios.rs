use std::sync::atomic::AtomicBool;
use tachyon::ingest::NewlineIndex;
use tachyon::search::{search_streaming, search_visible_first, SearchConfig, SearchStage};
use tachyon::synth::synthetic_log_bytes;
use tachyon::trace::spans_in_window;
use tachyon::types::{ByteOffset, ByteRange, LineNumber, SearchQuery, Span};
use tachyon::viewport::Viewport;

#[test]
fn generator_emits_requested_number_of_lines() {
    let bytes = synthetic_log_bytes(3, 8);
    assert_eq!(bytes.iter().filter(|byte| **byte == b'\n').count(), 3);
}

#[test]
fn visible_range_clamps_to_total_lines() {
    let viewport = Viewport::new(5, 2);
    assert_eq!(viewport.visible_line_range(3), LineNumber(0)..LineNumber(3));
}

#[test]
fn scroll_is_bounded() {
    let mut viewport = Viewport::new(10, 3);
    viewport.scroll_lines(100, 50);
    assert_eq!(viewport.top_line, LineNumber(40));
    viewport.scroll_lines(-500, 50);
    assert_eq!(viewport.top_line, LineNumber(0));
}

#[test]
fn fetch_range_includes_overscan() {
    let mut viewport = Viewport::new(10, 5);
    viewport.scroll_lines(20, 100);
    assert_eq!(
        viewport.fetch_line_range(100),
        LineNumber(15)..LineNumber(35)
    );
}

#[test]
fn empty_file_has_single_virtual_line() {
    let index = NewlineIndex::from_bytes_parallel(b"", 8);
    assert_eq!(index.file_len(), 0);
    assert_eq!(index.newline_count(), 0);
    assert_eq!(index.total_lines(), 1);
    assert_eq!(index.line_to_byte(LineNumber(0)).unwrap(), ByteOffset(0));
    assert_eq!(index.byte_to_line(ByteOffset(0)), LineNumber(0));
}

#[test]
fn indexes_newlines_across_chunks() {
    let data = b"a\nbb\nccc\n";
    let index = NewlineIndex::from_bytes_parallel(data, 2);
    assert_eq!(index.newline_count(), 3);
    assert_eq!(index.total_lines(), 4);
    assert_eq!(index.line_to_byte(LineNumber(0)).unwrap(), ByteOffset(0));
    assert_eq!(index.line_to_byte(LineNumber(1)).unwrap(), ByteOffset(2));
    assert_eq!(index.line_to_byte(LineNumber(2)).unwrap(), ByteOffset(5));
    assert_eq!(index.line_to_byte(LineNumber(3)).unwrap(), ByteOffset(9));
}

#[test]
fn byte_and_line_conversion_roundtrip() {
    let data = b"alpha\nbeta\ngamma";
    let index = NewlineIndex::from_bytes_parallel(data, 4);
    assert_eq!(index.byte_to_line(ByteOffset(0)), LineNumber(0));
    assert_eq!(index.byte_to_line(ByteOffset(5)), LineNumber(0));
    assert_eq!(index.byte_to_line(ByteOffset(6)), LineNumber(1));
    assert_eq!(index.byte_to_line(ByteOffset(15)), LineNumber(2));
    assert_eq!(index.byte_to_line(ByteOffset(16)), LineNumber(2));
}

#[test]
fn line_ranges_exclude_newline_separator() {
    let data = b"alpha\nbeta\ngamma\n";
    let index = NewlineIndex::from_bytes_parallel(data, 3);
    assert_eq!(
        index.line_byte_range(LineNumber(0)).unwrap(),
        ByteRange::new(ByteOffset(0), ByteOffset(5)).unwrap()
    );
    assert_eq!(
        index.line_byte_range(LineNumber(1)).unwrap(),
        ByteRange::new(ByteOffset(6), ByteOffset(10)).unwrap()
    );
    assert_eq!(
        index.line_byte_range(LineNumber(3)).unwrap(),
        ByteRange::new(ByteOffset(data.len() as u64), ByteOffset(data.len() as u64)).unwrap()
    );
}

#[test]
fn streaming_emits_visible_hits_before_background_hits() {
    let data = b"alpha\nbeta\nalpha\nbeta\n";
    let index = NewlineIndex::from_bytes_parallel(data, 4);
    let query = SearchQuery::substring("beta", true).unwrap();
    let config = SearchConfig {
        visible_lines: LineNumber(1)..LineNumber(2),
        chunk_lines: 1,
        max_hits: 10,
        batch_hit_target: 1,
    };
    let cancelled = AtomicBool::new(false);
    let mut stages = Vec::new();
    let mut lines = Vec::new();
    let emitted = search_streaming(data, &index, &query, &config, &cancelled, |batch| {
        stages.push(batch.stage);
        lines.extend(batch.hits.into_iter().map(|hit| hit.line));
    })
    .unwrap();

    assert_eq!(emitted, 2);
    assert_eq!(stages[0], SearchStage::Visible);
    assert_eq!(lines[0], LineNumber(1));
    assert!(lines.contains(&LineNumber(3)));
}

#[test]
fn cancellation_stops_search() {
    let data = b"alpha\nbeta\nalpha\nbeta\n";
    let index = NewlineIndex::from_bytes_parallel(data, 4);
    let query = SearchQuery::substring("beta", true).unwrap();
    let config = SearchConfig::with_visible_lines(LineNumber(0)..LineNumber(index.total_lines()));
    let cancelled = AtomicBool::new(true);

    let emitted = search_streaming(data, &index, &query, &config, &cancelled, |_| {}).unwrap();
    assert_eq!(emitted, 0);
}

#[test]
fn max_hits_is_respected() {
    let data = b"beta\nbeta\nbeta\nbeta\nbeta\n";
    let index = NewlineIndex::from_bytes_parallel(data, 2);
    let query = SearchQuery::substring("beta", true).unwrap();
    let config = SearchConfig {
        visible_lines: LineNumber(0)..LineNumber(index.total_lines()),
        chunk_lines: 2,
        max_hits: 3,
        batch_hit_target: 1,
    };
    let cancelled = AtomicBool::new(false);
    let mut collected = Vec::new();

    let emitted = search_streaming(data, &index, &query, &config, &cancelled, |batch| {
        collected.extend(batch.hits);
    })
    .unwrap();

    assert_eq!(emitted, 3);
    assert_eq!(collected.len(), 3);
}

#[test]
fn case_insensitive_substring_matches() {
    let data = b"Service=API\nservice=api\n";
    let index = NewlineIndex::from_bytes_parallel(data, 8);
    let query = SearchQuery::substring("service=api", false).unwrap();
    let cancelled = AtomicBool::new(false);

    let hits = search_visible_first(
        data,
        &index,
        &query,
        LineNumber(0)..LineNumber(index.total_lines()),
        10,
        &cancelled,
    )
    .unwrap();

    assert_eq!(hits.len(), 2);
}

fn span(span_id: &str, service: &str, name: &str, start_ns: u64, end_ns: u64) -> Span {
    Span {
        trace_id: "t1".to_owned(),
        span_id: span_id.to_owned(),
        parent_span_id: None,
        service: service.to_owned(),
        name: name.to_owned(),
        start_ns,
        end_ns,
    }
}

#[test]
fn filters_spans_in_window() {
    // the two spans of the JSON array
    // [{"trace_id":"t1","span_id":"s1","service":"api","name":"request","start_ns":10,"end_ns":30},
    //  {"trace_id":"t1","span_id":"s2","service":"db","name":"query","start_ns":31,"end_ns":50}]
    let spans = vec![span("s1", "api", "request", 10, 30), span("s2", "db", "query", 31, 50)];
    let visible = spans_in_window(&spans, 15, 30).unwrap();
    assert_eq!(visible.len(), 1);
    assert_eq!(visible[0].span_id, "s1");
}
