//! The viewport model: which lines are visible and which are fetched with
//! overscan, and bounded scrolling.

use crate::types::LineNumber;
use std::ops::Range;
use vstd::prelude::*;

verus! {

/// A window of `visible_rows` lines starting at `top_line`, plus
/// `overscan_rows` extra lines fetched above and below it.
#[derive(Debug, Clone)]
pub struct Viewport {
    pub top_line: LineNumber,
    pub visible_rows: u32,
    pub overscan_rows: u32,
}

/// `min(a, b)` on integers.
pub open spec fn min_int(a: int, b: int) -> int {
    if a <= b { a } else { b }
}

/// `max(a, b)` on integers.
pub open spec fn max_int(a: int, b: int) -> int {
    if a >= b { a } else { b }
}

/// `v` clamped into `[lo, hi]` (with `lo <= hi`).
pub open spec fn clamp_int(v: int, lo: int, hi: int) -> int {
    if v < lo { lo } else if v > hi { hi } else { v }
}

impl Viewport {
    /// The largest top line that still shows a full window of a file with
    /// `total_lines` lines.
    pub open spec fn max_top(self, total_lines: u64) -> int {
        max_int(total_lines - self.visible_rows, 0)
    }

    /// First line of the visible window.
    pub open spec fn visible_start(self, total_lines: u64) -> int {
        min_int(self.top_line.0 as int, total_lines as int)
    }

    /// End (exclusive) of the visible window.
    pub open spec fn visible_end(self, total_lines: u64) -> int {
        min_int(self.visible_start(total_lines) + self.visible_rows, total_lines as int)
    }

    /// First line of the fetch window (visible window plus overscan above).
    pub open spec fn fetch_start(self, total_lines: u64) -> int {
        min_int(max_int(self.top_line.0 - self.overscan_rows, 0), total_lines as int)
    }

    /// End (exclusive) of the fetch window (visible window plus overscan below).
    pub open spec fn fetch_end(self, total_lines: u64) -> int {
        min_int(self.top_line.0 + self.visible_rows + self.overscan_rows, total_lines as int)
    }

    /// A viewport at the top of the file; it always shows at least one row.
    pub fn new(visible_rows: u32, overscan_rows: u32) -> (v: Viewport)
        ensures
            v.top_line == LineNumber(0),
            v.visible_rows == max_int(visible_rows as int, 1),
            v.overscan_rows == overscan_rows,
    {
        Viewport {
            top_line: LineNumber(0),
            visible_rows: if visible_rows >= 1 { visible_rows } else { 1 },
            overscan_rows,
        }
    }

    /// Moves the top line by `delta`, clamped so that the window stays inside
    /// a file of `total_lines` lines.
    pub fn scroll_lines(&mut self, delta: i64, total_lines: u64)
        requires
            i64::MIN <= (old(self).top_line.0 as i64) + delta <= i64::MAX,
            old(self).max_top(total_lines) <= i64::MAX,
        ensures
            final(self).top_line.0 == clamp_int(
                (old(self).top_line.0 as i64) + delta,
                0,
                old(self).max_top(total_lines),
            ),
            final(self).visible_rows == old(self).visible_rows,
            final(self).overscan_rows == old(self).overscan_rows,
    {
        let visible = self.visible_rows as u64;
        let max_top: u64 = if total_lines >= visible { total_lines - visible } else { 0 };
        let unclamped: i64 = self.top_line.0 as i64 + delta;
        let max_top_signed: i64 = max_top as i64;
        let clamped: i64 = if unclamped < 0 {
            0
        } else if unclamped > max_top_signed {
            max_top_signed
        } else {
            unclamped
        };
        self.top_line = LineNumber(clamped as u64);
    }

    /// The lines shown on screen, clamped to the file.
    pub fn visible_line_range(&self, total_lines: u64) -> (r: Range<LineNumber>)
        requires
            min_int(self.top_line.0 as int, total_lines as int) + self.visible_rows <= u64::MAX,
        ensures
            r.start.0 == self.visible_start(total_lines),
            r.end.0 == self.visible_end(total_lines),
    {
        let start: u64 = if self.top_line.0 <= total_lines { self.top_line.0 } else { total_lines };
        let raw_end: u64 = start + self.visible_rows as u64;
        let end: u64 = if raw_end <= total_lines { raw_end } else { total_lines };
        Range { start: LineNumber(start), end: LineNumber(end) }
    }

    /// The lines to load: the visible window widened by the overscan on both
    /// sides, clamped to the file.
    pub fn fetch_line_range(&self, total_lines: u64) -> (r: Range<LineNumber>)
        requires
            self.top_line.0 + self.visible_rows + self.overscan_rows <= u64::MAX,
        ensures
            r.start.0 == self.fetch_start(total_lines),
            r.end.0 == self.fetch_end(total_lines),
    {
        let overscan = self.overscan_rows as u64;
        let above: u64 = if self.top_line.0 >= overscan { self.top_line.0 - overscan } else { 0 };
        let start: u64 = if above <= total_lines { above } else { total_lines };
        let raw_end: u64 = self.top_line.0 + self.visible_rows as u64 + overscan;
        let end: u64 = if raw_end <= total_lines { raw_end } else { total_lines };
        Range { start: LineNumber(start), end: LineNumber(end) }
    }
}

/// The fetch window always contains the visible window, and both stay inside
/// the file: `0 <= fetch.start <= visible.start <= visible.end <= fetch.end <= total`.
pub proof fn lemma_fetch_covers_visible(v: Viewport, total_lines: u64)
    ensures
        0 <= v.fetch_start(total_lines) <= v.visible_start(total_lines),
        v.visible_start(total_lines) <= v.visible_end(total_lines),
        v.visible_end(total_lines) <= v.fetch_end(total_lines) <= total_lines,
{
}

/// The visible window never holds more than `visible_rows` lines.
pub proof fn lemma_visible_window_bounded(v: Viewport, total_lines: u64)
    ensures
        v.visible_end(total_lines) - v.visible_start(total_lines) <= v.visible_rows,
{
}

/// After any scroll the window is full: it shows `min(visible_rows, total)`
/// lines, so scrolling can never leave blank rows below the last line.
pub proof fn lemma_scrolled_window_is_full(v: Viewport, total_lines: u64)
    requires
        0 <= v.top_line.0 <= v.max_top(total_lines),
    ensures
        v.visible_end(total_lines) - v.visible_start(total_lines)
            == min_int(v.visible_rows as int, total_lines as int),
{
}

} // verus!
