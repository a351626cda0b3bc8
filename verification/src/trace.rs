//! Trace spans: validation of decoded records, the framing of a JSON or
//! JSON-lines trace document, and the time-window filter.

use crate::types::{Result, Span, TachyonError};
use vstd::prelude::*;
use vstd::string::{StrSliceExecFns, StringExecFns};
use vstd::utf8::{decode_utf8, valid_utf8};

verus! {

/// A span record as decoded from JSON, before validation.
pub struct RawSpan {
    pub trace_id: String,
    pub span_id: String,
    pub parent_span_id: Option<String>,
    pub service: String,
    pub name: String,
    pub start_ns: u64,
    pub end_ns: u64,
}

/// The span a valid record becomes, field for field.
pub open spec fn span_of(r: RawSpan) -> Span {
    Span {
        trace_id: r.trace_id,
        span_id: r.span_id,
        parent_span_id: r.parent_span_id,
        service: r.service,
        name: r.name,
        start_ns: r.start_ns,
        end_ns: r.end_ns,
    }
}

/// A record is a valid span when it does not end before it starts.
pub open spec fn raw_span_valid(r: RawSpan) -> bool {
    r.start_ns <= r.end_ns
}

impl Span {
    /// Validates a decoded record: a span must not end before it starts.
    pub fn try_from(value: RawSpan) -> (res: Result<Span>)
        ensures
            raw_span_valid(value) ==> res == Ok::<Span, TachyonError>(span_of(value)),
            !raw_span_valid(value) ==> (res matches Err(TachyonError::Parse(m)) && m@
                == "span end_ns must be >= start_ns"@),
    {
        if value.end_ns < value.start_ns {
            return Err(TachyonError::Parse("span end_ns must be >= start_ns".to_owned()));
        }
        Ok(
            Span {
                trace_id: value.trace_id,
                span_id: value.span_id,
                parent_span_id: value.parent_span_id,
                service: value.service,
                name: value.name,
                start_ns: value.start_ns,
                end_ns: value.end_ns,
            },
        )
    }
}

/// The records, all made spans.
pub open spec fn spans_of(rs: Seq<RawSpan>) -> Seq<Span> {
    rs.map_values(|r: RawSpan| span_of(r))
}

/// Validates every record in order; the first invalid one fails the whole
/// list.
pub fn spans_from_raw(raw: Vec<RawSpan>) -> (res: Result<Vec<Span>>)
    ensures
        (forall|i: int| 0 <= i < raw@.len() ==> raw_span_valid(#[trigger] raw@[i])) ==> (res matches Ok(
            v,
        ) && v@ == spans_of(raw@)),
        !(forall|i: int| 0 <= i < raw@.len() ==> raw_span_valid(#[trigger] raw@[i])) ==> (res matches Err(
            TachyonError::Parse(m),
        ) && m@ == "span end_ns must be >= start_ns"@),
{
    let ghost all = raw@;
    let mut pending = raw;
    let mut reversed: Vec<RawSpan> = Vec::new();
    while pending.len() > 0
        invariant
            pending@ == all.take(pending@.len() as int),
            pending@.len() + reversed@.len() == all.len(),
            forall|j: int|
                0 <= j < reversed@.len() ==> #[trigger] reversed@[j] == all[all.len() - 1 - j],
        decreases pending.len(),
    {
        let r = pending.pop().unwrap();
        reversed.push(r);
        assert(pending@ =~= all.take(pending@.len() as int));
    }
    let mut spans: Vec<Span> = Vec::new();
    assert(spans@ =~= spans_of(all.take(0)));
    while reversed.len() > 0
        invariant
            0 <= all.len() - reversed@.len() <= all.len(),
            forall|j: int|
                0 <= j < reversed@.len() ==> #[trigger] reversed@[j] == all[all.len() - 1 - j],
            spans@ == spans_of(all.take(all.len() - reversed@.len())),
            all == raw@,
            forall|i: int|
                0 <= i < all.len() - reversed@.len() ==> raw_span_valid(#[trigger] all[i]),
        decreases reversed.len(),
    {
        let ghost k = all.len() - reversed@.len();
        let r = reversed.pop().unwrap();
        assert(r == all[k]);
        proof {
            if !raw_span_valid(r) {
                assert(!raw_span_valid(all[k]));
            }
        }
        let span = Span::try_from(r)?;
        spans.push(span);
        assert(spans@ =~= spans_of(all.take(k + 1)));
    }
    assert(all.take(all.len() as int) =~= all);
    Ok(spans)
}

/// What a JSON-lines trace gives once each line is decoded (`Ok` record or
/// the decoder's message): the lines are taken in order, and the first one
/// that did not decode, or whose record ends before it starts, fails the
/// whole document with its message.
pub open spec fn json_lines_outcome(lines: Seq<std::result::Result<RawSpan, String>>) -> std::result::Result<
    Seq<Span>,
    Seq<char>,
>
    decreases lines.len(),
{
    if lines.len() == 0 {
        Ok(Seq::empty())
    } else {
        match json_lines_outcome(lines.drop_last()) {
            Err(m) => Err(m),
            Ok(spans) => match lines.last() {
                Err(m) => Err("invalid JSON line: "@ + m@),
                Ok(r) => if raw_span_valid(r) {
                    Ok(spans.push(span_of(r)))
                } else {
                    Err("span end_ns must be >= start_ns"@)
                },
            },
        }
    }
}

/// Assembles the spans of a JSON-lines trace from its decoded lines, in
/// order; the first line that failed to decode, or whose record is not a
/// valid span, fails the whole document.
pub fn spans_from_json_lines(decoded: Vec<std::result::Result<RawSpan, String>>) -> (res: Result<Vec<Span>>)
    ensures
        match json_lines_outcome(decoded@) {
            Ok(spans) => res matches Ok(v) && v@ == spans,
            Err(m) => res matches Err(TachyonError::Parse(msg)) && msg@ == m,
        },
{
    let ghost all = decoded@;
    let mut pending = decoded;
    let mut reversed: Vec<std::result::Result<RawSpan, String>> = Vec::new();
    while pending.len() > 0
        invariant
            pending@ == all.take(pending@.len() as int),
            pending@.len() + reversed@.len() == all.len(),
            forall|j: int|
                0 <= j < reversed@.len() ==> #[trigger] reversed@[j] == all[all.len() - 1 - j],
        decreases pending.len(),
    {
        let entry = pending.pop().unwrap();
        reversed.push(entry);
        assert(pending@ =~= all.take(pending@.len() as int));
    }
    let mut spans: Vec<Span> = Vec::new();
    assert(all.take(0) =~= Seq::<std::result::Result<RawSpan, String>>::empty());
    while reversed.len() > 0
        invariant
            0 <= all.len() - reversed@.len() <= all.len(),
            forall|j: int|
                0 <= j < reversed@.len() ==> #[trigger] reversed@[j] == all[all.len() - 1 - j],
            json_lines_outcome(all.take(all.len() - reversed@.len())) == Ok::<Seq<Span>, Seq<char>>(spans@),
            all == decoded@,
        decreases reversed.len(),
    {
        let ghost k = all.len() - reversed@.len();
        let entry = reversed.pop().unwrap();
        assert(entry == all[k]);
        assert(all.take(k + 1).drop_last() =~= all.take(k));
        assert(all.take(k + 1).last() == all[k]);
        proof {
            lemma_json_lines_failure_sticks(all, k + 1);
        }
        match entry {
            Err(detail) => {
                let mut message = "invalid JSON line: ".to_owned();
                message.append(detail.as_str());
                assert(json_lines_outcome(all.take(k + 1)) == Err::<Seq<Span>, Seq<char>>(message@));
                return Err(TachyonError::Parse(message));
            },
            Ok(raw) => {
                if !(raw.start_ns <= raw.end_ns) {
                    assert(json_lines_outcome(all.take(k + 1)) == Err::<Seq<Span>, Seq<char>>(
                        "span end_ns must be >= start_ns"@,
                    ));
                }
                let span = Span::try_from(raw)?;
                assert(json_lines_outcome(all.take(k + 1)) == Ok::<Seq<Span>, Seq<char>>(spans@.push(span)));
                spans.push(span);
            },
        }
    }
    assert(all.take(all.len() as int) =~= all);
    Ok(spans)
}

/// Once a line fails, the whole document fails with that line's message.
proof fn lemma_json_lines_failure_sticks(lines: Seq<std::result::Result<RawSpan, String>>, k: int)
    requires
        0 <= k <= lines.len(),
    ensures
        json_lines_outcome(lines.take(k)) is Err ==> json_lines_outcome(lines) == json_lines_outcome(
            lines.take(k),
        ),
    decreases lines.len() - k,
{
    if k < lines.len() {
        lemma_json_lines_failure_sticks(lines, k + 1);
        assert(lines.take(k + 1).drop_last() =~= lines.take(k));
    } else {
        assert(lines.take(k) =~= lines);
    }
}

/// A span overlaps the window `[start_ns, end_ns)` when it starts before the
/// window ends and ends after the window starts.
pub open spec fn overlaps(s: Span, start_ns: u64, end_ns: u64) -> bool {
    s.start_ns < end_ns && s.end_ns > start_ns
}

/// The spans of `spans` that overlap the window, in order.
pub open spec fn spans_overlapping(spans: Seq<Span>, start_ns: u64, end_ns: u64) -> Seq<Span>
    decreases spans.len(),
{
    if spans.len() == 0 {
        Seq::empty()
    } else {
        let prev = spans_overlapping(spans.drop_last(), start_ns, end_ns);
        if overlaps(spans.last(), start_ns, end_ns) {
            prev.push(spans.last())
        } else {
            prev
        }
    }
}

/// The spans overlapping the time window `[start_ns, end_ns)`, in order; a
/// window that ends before it starts is refused.
pub fn spans_in_window(spans: &[Span], start_ns: u64, end_ns: u64) -> (res: Result<Vec<&Span>>)
    ensures
        end_ns < start_ns ==> (res matches Err(TachyonError::Parse(m)) && m@
            == "time window end_ns must be >= start_ns"@),
        start_ns <= end_ns ==> (res matches Ok(v) && v@.map_values(|r: &Span| *r)
            == spans_overlapping(spans@, start_ns, end_ns)),
{
    if end_ns < start_ns {
        return Err(TachyonError::Parse("time window end_ns must be >= start_ns".to_owned()));
    }
    let mut out: Vec<&Span> = Vec::new();
    let mut i: usize = 0;
    assert(spans@.take(0) =~= Seq::<Span>::empty());
    assert(out@.map_values(|r: &Span| *r) =~= Seq::<Span>::empty());
    while i < spans.len()
        invariant
            i <= spans@.len(),
            out@.map_values(|r: &Span| *r) == spans_overlapping(spans@.take(i as int), start_ns, end_ns),
        decreases spans.len() - i,
    {
        let span = &spans[i];
        let ghost before = out@;
        assert(spans@.take(i + 1).drop_last() =~= spans@.take(i as int));
        if span.start_ns < end_ns && span.end_ns > start_ns {
            out.push(span);
            assert(out@.map_values(|r: &Span| *r) =~= before.map_values(|r: &Span| *r).push(*span));
        }
        i = i + 1;
    }
    assert(spans@.take(i as int) =~= spans@);
    Ok(out)
}


/// Rust's `char::is_whitespace`: the characters with the Unicode
/// `White_Space` property.
pub open spec fn is_whitespace_char(c: char) -> bool {
    let v = c as int;
    ||| v == 0x20
    ||| 0x09 <= v <= 0x0d
    ||| v == 0x85
    ||| v == 0xa0
    ||| v == 0x1680
    ||| 0x2000 <= v <= 0x200a
    ||| v == 0x2028
    ||| v == 0x2029
    ||| v == 0x202f
    ||| v == 0x205f
    ||| v == 0x3000
}

/// `s` without its leading whitespace.
pub open spec fn trim_start_chars(s: Seq<char>) -> Seq<char>
    decreases s.len(),
{
    if s.len() > 0 && is_whitespace_char(s[0]) {
        trim_start_chars(s.drop_first())
    } else {
        s
    }
}

/// `s` without its trailing whitespace.
pub open spec fn trim_end_chars(s: Seq<char>) -> Seq<char>
    decreases s.len(),
{
    if s.len() > 0 && is_whitespace_char(s.last()) {
        trim_end_chars(s.drop_last())
    } else {
        s
    }
}

/// `s` without leading and trailing whitespace (`str::trim`).
pub open spec fn trim_chars(s: Seq<char>) -> Seq<char> {
    trim_start_chars(trim_end_chars(s))
}

/// The pieces of `s` between its `\n` characters (`str::split('\n')`).
pub open spec fn newline_pieces(s: Seq<char>) -> Seq<Seq<char>>
    decreases s.len(),
{
    if s.len() == 0 {
        seq![Seq::<char>::empty()]
    } else {
        let p = newline_pieces(s.drop_last());
        if s.last() == '\n' {
            p.push(Seq::<char>::empty())
        } else {
            p.update(p.len() - 1, p.last().push(s.last()))
        }
    }
}

/// A piece that a `\n` ended, without the `\r` of a `\r\n`.
pub open spec fn strip_carriage_return(x: Seq<char>) -> Seq<char> {
    if x.len() > 0 && x.last() == '\r' { x.drop_last() } else { x }
}

/// The lines of `s` (`str::lines`): split at `\n` or `\r\n`, the terminator
/// excluded, with no empty line after a final terminator.
pub open spec fn lines_of(s: Seq<char>) -> Seq<Seq<char>> {
    let p = newline_pieces(s);
    let ended = p.drop_last().map_values(|x: Seq<char>| strip_carriage_return(x));
    if p.last().len() == 0 { ended } else { ended.push(p.last()) }
}

/// The text of the error `std::str::from_utf8` reports for `bytes`
/// (`Utf8Error`'s `Display`).
pub uninterp spec fn utf8_error_text(bytes: Seq<u8>) -> Seq<char>;

/// Decodes `input` with `std::str::from_utf8`, turning the error into its
/// message.
///
/// Claimed, as std documents: it succeeds exactly on valid UTF-8 and then
/// holds the decoded characters; otherwise the message is
/// [`utf8_error_text`] of the input.
#[verifier::external_body]
fn decode_utf8_input(input: &[u8]) -> (res: std::result::Result<&str, String>)
    ensures
        res is Ok <==> valid_utf8(input@),
        res matches Ok(s) ==> s@ == decode_utf8(input@),
        res matches Err(m) ==> m@ == utf8_error_text(input@),
{
    std::str::from_utf8(input).map_err(|error| error.to_string())
}

/// Whether `c` is whitespace (`char::is_whitespace`).
fn is_whitespace(c: char) -> (b: bool)
    ensures
        b == is_whitespace_char(c),
{
    let v = c as u32;
    v == 0x20 || (0x09 <= v && v <= 0x0d) || v == 0x85 || v == 0xa0 || v == 0x1680 || (0x2000
        <= v && v <= 0x200a) || v == 0x2028 || v == 0x2029 || v == 0x202f || v == 0x205f || v
        == 0x3000
}

/// `s` without leading and trailing whitespace, as `str::trim` gives it.
pub(crate) fn trim_whitespace(s: &str) -> (t: &str)
    ensures
        t@ == trim_chars(s@),
{
    let n = s.unicode_len();
    let mut end: usize = n;
    assert(s@.take(n as int) =~= s@);
    while end > 0 && is_whitespace(s.get_char(end - 1))
        invariant
            n == s@.len(),
            end <= n,
            trim_end_chars(s@) == trim_end_chars(s@.take(end as int)),
        decreases end,
    {
        assert(s@.take(end as int).drop_last() =~= s@.take(end - 1));
        assert(s@.take(end as int).last() == s@[end - 1]);
        end = end - 1;
    }
    assert(trim_end_chars(s@.take(end as int)) == s@.take(end as int)) by {
        if end > 0 {
            assert(s@.take(end as int).last() == s@[end - 1]);
        }
    }
    let mut start: usize = 0;
    assert(s@.subrange(0, end as int) =~= s@.take(end as int));
    while start < end && is_whitespace(s.get_char(start))
        invariant
            n == s@.len(),
            start <= end <= n,
            trim_start_chars(trim_end_chars(s@)) == trim_start_chars(s@.subrange(start as int, end as int)),
        decreases end - start,
    {
        assert(s@.subrange(start as int, end as int).drop_first() =~= s@.subrange(start + 1, end as int));
        assert(s@.subrange(start as int, end as int)[0] == s@[start as int]);
        start = start + 1;
    }
    assert(trim_start_chars(s@.subrange(start as int, end as int)) == s@.subrange(start as int, end as int)) by {
        if start < end {
            assert(s@.subrange(start as int, end as int)[0] == s@[start as int]);
        }
    }
    s.substring_char(start, end)
}

/// `str::lines`, collected.
///
/// Claimed, as std documents: the lines are [`lines_of`] of `s`.
#[verifier::external_body]
fn split_lines(s: &str) -> (lines: Vec<&str>)
    ensures
        lines@.len() == lines_of(s@).len(),
        forall|i: int| 0 <= i < lines@.len() ==> (#[trigger] lines@[i])@ == lines_of(s@)[i],
{
    s.lines().collect()
}

/// How a trace document is laid out once decoded and trimmed: nothing, one
/// JSON array, or one JSON record per line.
pub enum SpanDocument<'a> {
    Empty,
    Array(&'a str),
    Lines(Vec<&'a str>),
}

/// Frames a trace document: it must be UTF-8; trimmed of surrounding
/// whitespace it is empty, a JSON array (it opens with `[`), or JSON lines.
pub fn frame_span_document(input: &[u8]) -> (res: Result<SpanDocument<'_>>)
    ensures
        !valid_utf8(input@) ==> (res matches Err(TachyonError::Parse(m)) && m@ == "invalid UTF-8 input: "@
            + utf8_error_text(input@)),
        valid_utf8(input@) ==> ({
            let t = trim_chars(decode_utf8(input@));
            &&& t.len() == 0 ==> (res matches Ok(SpanDocument::Empty))
            &&& t.len() > 0 && t[0] == '[' ==> (res matches Ok(SpanDocument::Array(a)) && a@ == t)
            &&& t.len() > 0 && t[0] != '[' ==> (res matches Ok(SpanDocument::Lines(v))
                && v@.len() == lines_of(t).len() && forall|i: int|
                0 <= i < v@.len() ==> (#[trigger] v@[i])@ == lines_of(t)[i])
        }),
{
    let text = match decode_utf8_input(input) {
        Ok(text) => text,
        Err(detail) => {
            let mut message = "invalid UTF-8 input: ".to_owned();
            message.append(detail.as_str());
            return Err(TachyonError::Parse(message));
        },
    };
    let trimmed = trim_whitespace(text);
    if trimmed.is_empty() {
        return Ok(SpanDocument::Empty);
    }
    if trimmed.get_char(0) == '[' {
        return Ok(SpanDocument::Array(trimmed));
    }
    Ok(SpanDocument::Lines(split_lines(trimmed)))
}

} // verus!
