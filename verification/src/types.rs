//! Shared domain types: offsets, line numbers, byte ranges, queries, spans
//! and the error type.

use vstd::prelude::*;

verus! {

/// Identifier of an opened file.
#[derive(Debug, Clone, Copy, PartialEq, Eq, PartialOrd, Ord, Hash, Structural)]
pub struct FileId(pub u64);

/// A byte offset into a file.
#[derive(Debug, Clone, Copy, PartialEq, Eq, PartialOrd, Ord, Hash, Structural)]
pub struct ByteOffset(pub u64);

/// A zero-based logical line number.
#[derive(Debug, Clone, Copy, PartialEq, Eq, PartialOrd, Ord, Hash, Structural)]
pub struct LineNumber(pub u64);

/// A half-open byte range `[start, end)`.
#[derive(Debug, Clone, Copy, PartialEq, Eq, Structural)]
pub struct ByteRange {
    pub start: ByteOffset,
    pub end: ByteOffset,
}

/// Errors reported by the library.
#[derive(Debug)]
pub enum TachyonError {
    /// An I/O failure, carried as its message.
    Io(String),
    InvalidByteRange { start: u64, end: u64 },
    LineOutOfBounds { requested: u64, total: u64 },
    InvalidLineRange { start: u64, end: u64, total: u64 },
    InvalidQuery(String),
    Parse(String),
}

pub type Result<T> = std::result::Result<T, TachyonError>;

impl ByteRange {
    /// A range is well formed when it does not run backwards.
    pub open spec fn wf(self) -> bool {
        self.start.0 <= self.end.0
    }

    /// Builds `[start, end)`; refuses a range whose start lies past its end.
    pub fn new(start: ByteOffset, end: ByteOffset) -> (res: Result<ByteRange>)
        ensures
            start.0 <= end.0 ==> res == Ok::<ByteRange, TachyonError>(ByteRange { start, end }),
            start.0 > end.0 ==> (res matches Err(TachyonError::InvalidByteRange { start: s, end: e })
                && s == start.0 && e == end.0),
    {
        if start.0 > end.0 {
            return Err(TachyonError::InvalidByteRange { start: start.0, end: end.0 });
        }
        Ok(ByteRange { start, end })
    }

    /// Number of bytes in the range.
    pub fn len(self) -> (n: u64)
        requires
            self.wf(),
        ensures
            n == self.end.0 - self.start.0,
    {
        self.end.0 - self.start.0
    }

    /// Whether the range holds no byte.
    pub fn is_empty(self) -> (b: bool)
        requires
            self.wf(),
        ensures
            b == (self.start.0 == self.end.0),
    {
        self.len() == 0
    }
}

/// How a query's pattern is matched.
#[derive(Debug, Clone, PartialEq, Eq, Structural)]
pub enum SearchMode {
    Substring { case_sensitive: bool },
    Regex,
}

/// A search request: a pattern and how to match it.
#[derive(Debug, Clone, PartialEq, Eq)]
pub struct SearchQuery {
    pub pattern: String,
    pub mode: SearchMode,
}

impl SearchQuery {
    /// A substring query; the pattern must not be empty.
    pub fn substring(pattern: &str, case_sensitive: bool) -> (res: Result<SearchQuery>)
        ensures
            pattern@.len() == 0 <==> res is Err,
            res matches Err(e) ==> (e matches TachyonError::InvalidQuery(m)
                && m@ == "substring pattern must not be empty"@),
            res matches Ok(q) ==> q.pattern@ == pattern@
                && q.mode == (SearchMode::Substring { case_sensitive }),
    {
        if pattern.is_empty() {
            return Err(TachyonError::InvalidQuery("substring pattern must not be empty".to_owned()));
        }
        Ok(SearchQuery { pattern: pattern.to_owned(), mode: SearchMode::Substring { case_sensitive } })
    }

    /// A regular-expression query; the pattern must not be empty.
    pub fn regex(pattern: &str) -> (res: Result<SearchQuery>)
        ensures
            pattern@.len() == 0 <==> res is Err,
            res matches Err(e) ==> (e matches TachyonError::InvalidQuery(m)
                && m@ == "regex pattern must not be empty"@),
            res matches Ok(q) ==> q.pattern@ == pattern@ && q.mode == SearchMode::Regex,
    {
        if pattern.is_empty() {
            return Err(TachyonError::InvalidQuery("regex pattern must not be empty".to_owned()));
        }
        Ok(SearchQuery { pattern: pattern.to_owned(), mode: SearchMode::Regex })
    }
}

/// One span of a distributed trace.
#[derive(Debug, Clone, PartialEq, Eq)]
pub struct Span {
    pub trace_id: String,
    pub span_id: String,
    pub parent_span_id: Option<String>,
    pub service: String,
    pub name: String,
    pub start_ns: u64,
    pub end_ns: u64,
}

} // verus!
