//! Ingest: the newline index (the byte offset of every `\n` in a buffer, and
//! the conversions between line numbers and byte offsets built on it), and
//! range checks on the bytes of an opened file.

use crate::types::{ByteOffset, ByteRange, LineNumber, Result, TachyonError};
use rayon::iter::{IndexedParallelIterator, ParallelIterator};
use rayon::slice::ParallelSlice;
use vstd::prelude::*;

verus! {

/// Default number of bytes scanned per parallel chunk.
pub const DEFAULT_CHUNK_SIZE: usize = 16777216;

/// Offsets of the `\n` bytes of `d`, in increasing order.
pub open spec fn newlines_of(d: Seq<u8>) -> Seq<u64>
    decreases d.len(),
{
    if d.len() == 0 {
        Seq::empty()
    } else if d.last() == 10u8 {
        newlines_of(d.drop_last()).push((d.len() - 1) as u64)
    } else {
        newlines_of(d.drop_last())
    }
}

/// Every offset of `s` moved forward by `k`.
pub open spec fn shift(s: Seq<u64>, k: int) -> Seq<u64> {
    s.map_values(|x: u64| (x + k) as u64)
}

/// Offsets strictly increasing.
pub open spec fn strictly_increasing(s: Seq<u64>) -> bool {
    forall|i: int, j: int| 0 <= i < j < s.len() ==> s[i] < s[j]
}

/// What a [`NewlineIndex`] holds: the newline offsets and the file length.
pub struct IndexModel {
    pub offsets: Seq<u64>,
    pub file_len: u64,
}

impl IndexModel {
    /// The model of the index of buffer `d`.
    pub open spec fn of(d: Seq<u8>) -> IndexModel {
        IndexModel { offsets: newlines_of(d), file_len: d.len() as u64 }
    }

    /// Whether this index was built from `d`.
    pub open spec fn describes(self, d: Seq<u8>) -> bool {
        d.len() <= isize::MAX && self == IndexModel::of(d)
    }

    /// Offsets increasing, inside the file, and the file of a size a buffer
    /// can have.
    pub open spec fn wf(self) -> bool {
        &&& strictly_increasing(self.offsets)
        &&& forall|i: int| 0 <= i < self.offsets.len() ==> #[trigger] self.offsets[i] < self.file_len
        &&& self.file_len <= isize::MAX
        &&& self.offsets.len() <= self.file_len
    }

    /// Number of logical lines: an empty file has one (empty) line, otherwise
    /// one more line than newlines.
    pub open spec fn total_lines(self) -> int {
        if self.file_len == 0 { 1 } else { self.offsets.len() + 1int }
    }

    /// Byte offset at which line `l` starts.
    pub open spec fn line_start(self, l: int) -> int {
        if l == 0 { 0 } else { self.offsets[l - 1] + 1 }
    }

    /// Byte offset at which line `l` ends, its newline excluded.
    pub open spec fn line_end(self, l: int) -> int {
        if l + 1 < self.total_lines() { self.offsets[l] as int } else { self.file_len as int }
    }

    /// Number of newline offsets strictly below `b`.
    pub open spec fn count_below(s: Seq<u64>, b: int) -> int
        decreases s.len(),
    {
        if s.len() == 0 {
            0
        } else {
            IndexModel::count_below(s.drop_last(), b) + if s.last() < b { 1int } else { 0int }
        }
    }

    /// Line that holds byte `b`; offsets at or past the end map to the last line.
    pub open spec fn line_of_byte(self, b: int) -> int {
        if self.file_len == 0 {
            0
        } else if b >= self.file_len {
            self.total_lines() - 1
        } else {
            IndexModel::count_below(self.offsets, b)
        }
    }
}

/// The newline index of a buffer.
#[derive(Debug)]
pub struct NewlineIndex {
    newline_offsets: Vec<u64>,
    file_len: u64,
}

impl View for NewlineIndex {
    type V = IndexModel;

    closed spec fn view(&self) -> IndexModel {
        IndexModel { offsets: self.newline_offsets@, file_len: self.file_len }
    }
}

impl Clone for NewlineIndex {
    fn clone(&self) -> (c: NewlineIndex)
        ensures
            c@ == self@,
    {
        proof {
            use_type_invariant(self);
        }
        NewlineIndex { newline_offsets: self.newline_offsets.clone(), file_len: self.file_len }
    }
}

impl NewlineIndex {
    /// Every index is well formed: only [`NewlineIndex::from_bytes_parallel`]
    /// builds one.
    #[verifier::type_invariant]
    pub open spec fn index_is_wf(self) -> bool {
        self@.wf()
    }
}

proof fn lemma_newlines_basic(d: Seq<u8>)
    requires
        d.len() <= u64::MAX,
    ensures
        newlines_of(d).len() <= d.len(),
        strictly_increasing(newlines_of(d)),
        forall|i: int| 0 <= i < newlines_of(d).len() ==> #[trigger] newlines_of(d)[i] < d.len(),
        forall|i: int|
            0 <= i < newlines_of(d).len() ==> d[#[trigger] newlines_of(d)[i] as int] == 10u8,
        forall|j: int|
            0 <= j < d.len() && d[j] == 10u8 ==> exists|i: int|
                0 <= i < newlines_of(d).len() && #[trigger] newlines_of(d)[i] == j,
    decreases d.len(),
{
    if d.len() > 0 {
        let e = d.drop_last();
        lemma_newlines_basic(e);
        let p = newlines_of(d);
        let q = newlines_of(e);
        assert forall|j: int| 0 <= j < d.len() && d[j] == 10u8 implies exists|i: int|
            0 <= i < p.len() && #[trigger] p[i] == j by {
            if j < d.len() - 1 {
                assert(e[j] == d[j]);
                let i = choose|i: int| 0 <= i < q.len() && #[trigger] q[i] == j;
                assert(p[i] == q[i]);
            } else {
                assert(p[p.len() - 1] == j);
            }
        }
        assert forall|i: int| 0 <= i < p.len() implies d[#[trigger] p[i] as int] == 10u8 by {
            if i < q.len() {
                assert(p[i] == q[i]);
                assert(e[q[i] as int] == d[q[i] as int]);
            }
        }
    }
}

proof fn lemma_newlines_concat(a: Seq<u8>, b: Seq<u8>)
    requires
        a.len() + b.len() <= u64::MAX,
    ensures
        newlines_of(a + b) == newlines_of(a) + shift(newlines_of(b), a.len() as int),
    decreases b.len(),
{
    if b.len() == 0 {
        assert(a + b =~= a);
        assert(shift(newlines_of(b), a.len() as int) =~= Seq::<u64>::empty());
        assert(newlines_of(a) + Seq::<u64>::empty() =~= newlines_of(a));
    } else {
        assert((a + b).drop_last() =~= a + b.drop_last());
        lemma_newlines_concat(a, b.drop_last());
        let lhs = newlines_of(a + b);
        let rhs = newlines_of(a) + shift(newlines_of(b), a.len() as int);
        if b.last() == 10u8 {
            assert(rhs =~= newlines_of(a) + shift(newlines_of(b.drop_last()), a.len() as int).push(
                (a.len() + b.len() - 1) as u64,
            ));
        } else {
            assert(rhs =~= newlines_of(a) + shift(newlines_of(b.drop_last()), a.len() as int));
        }
    }
}

proof fn lemma_count_below_partition(s: Seq<u64>, b: int, k: int)
    requires
        0 <= k <= s.len(),
        forall|i: int| 0 <= i < k ==> #[trigger] s[i] < b,
        forall|i: int| k <= i < s.len() ==> #[trigger] s[i] >= b,
    ensures
        IndexModel::count_below(s, b) == k,
    decreases s.len(),
{
    if s.len() > 0 {
        let t = s.drop_last();
        if k == s.len() {
            lemma_count_below_partition(t, b, k - 1);
        } else {
            lemma_count_below_partition(t, b, k);
        }
    }
}

/// The index of any buffer is well formed.
pub proof fn lemma_model_wf(d: Seq<u8>)
    requires
        d.len() <= isize::MAX,
    ensures
        IndexModel::of(d).wf(),
        IndexModel::of(d).offsets.len() <= d.len(),
{
    lemma_newlines_basic(d);
}

/// Converting the first byte of any line back to a line number gives that
/// line again.
pub proof fn lemma_line_start_roundtrip(m: IndexModel, l: int)
    requires
        m.wf(),
        0 <= l < m.total_lines(),
    ensures
        m.line_of_byte(m.line_start(l)) == l,
{
    if m.file_len != 0 && m.line_start(l) < m.file_len {
        lemma_count_below_partition(m.offsets, m.line_start(l), l);
    } else if m.file_len != 0 {
        if l < m.offsets.len() {
            assert(m.offsets[l - 1] < m.offsets[l]);
        }
    }
}

/// Every byte of the file lies on the line that [`IndexModel::line_of_byte`]
/// names, between that line's start and its end (the end being the line's
/// newline, if it has one).
pub proof fn lemma_byte_within_its_line(m: IndexModel, b: int)
    requires
        m.wf(),
        0 <= b < m.file_len,
    ensures
        0 <= m.line_of_byte(b) < m.total_lines(),
        m.line_start(m.line_of_byte(b)) <= b <= m.line_end(m.line_of_byte(b)),
{
    let k = m.line_of_byte(b);
    let s = m.offsets;
    // the partition point of `b` in the sorted offsets
    lemma_partition_exists(s, b);
    let kk = choose|kk: int| is_partition_point(s, b, kk);
    lemma_count_below_partition(s, b, kk);
}

/// `k` splits `s` into the offsets below `b` and those at or above it.
pub open spec fn is_partition_point(s: Seq<u64>, b: int, k: int) -> bool {
    &&& 0 <= k <= s.len()
    &&& forall|i: int| 0 <= i < k ==> #[trigger] s[i] < b
    &&& forall|i: int| k <= i < s.len() ==> #[trigger] s[i] >= b
}

proof fn lemma_partition_exists(s: Seq<u64>, b: int)
    requires
        strictly_increasing(s),
    ensures
        exists|kk: int| #[trigger] is_partition_point(s, b, kk),
    decreases s.len(),
{
    if s.len() == 0 {
        assert(is_partition_point(s, b, 0));
    } else {
        let t = s.drop_last();
        lemma_partition_exists(t, b);
        let kk = choose|kk: int| #[trigger] is_partition_point(t, b, kk);
        if s.last() < b {
            assert(is_partition_point(s, b, s.len() as int));
        } else {
            assert forall|i: int| kk <= i < s.len() implies #[trigger] s[i] >= b by {
                if i < t.len() {
                    assert(t[i] == s[i]);
                }
            }
            assert forall|i: int| 0 <= i < kk implies #[trigger] s[i] < b by {
                assert(t[i] == s[i]);
            }
            assert(is_partition_point(s, b, kk));
        }
    }
}


/// Number of chunks of `chunk_size` bytes (the last possibly shorter) that
/// cover `len` bytes.
pub open spec fn num_chunks(len: int, chunk_size: int) -> int {
    (len + chunk_size - 1) / chunk_size
}

/// Chunk `i` of `d`: bytes `[i * chunk_size, min((i + 1) * chunk_size, len))`.
pub open spec fn chunk_of(d: Seq<u8>, i: int, chunk_size: int) -> Seq<u8> {
    let lo = i * chunk_size;
    let hi = if (i + 1) * chunk_size <= d.len() { (i + 1) * chunk_size } else { d.len() as int };
    d.subrange(lo, hi)
}

/// Newline offsets of one chunk, made absolute by the chunk's position
/// `chunk_idx * chunk_size` in the whole buffer.
fn chunk_newline_offsets(chunk: &[u8], chunk_idx: usize, chunk_size: usize) -> (res: Vec<u64>)
    requires
        chunk_idx * chunk_size + chunk@.len() <= isize::MAX,
    ensures
        res@ == shift(newlines_of(chunk@), chunk_idx * chunk_size),
{
    let base: u64 = (chunk_idx * chunk_size) as u64;
    let mut out: Vec<u64> = Vec::new();
    let mut i: usize = 0;
    assert(chunk@.take(0) =~= Seq::<u8>::empty());
    assert(shift(newlines_of(Seq::<u8>::empty()), base as int) =~= Seq::<u64>::empty());
    while i < chunk.len()
        invariant
            i <= chunk@.len(),
            base == chunk_idx * chunk_size,
            base + chunk@.len() <= isize::MAX,
            out@ == shift(newlines_of(chunk@.take(i as int)), base as int),
        decreases chunk.len() - i,
    {
        let ghost prev = chunk@.take(i as int);
        assert(chunk@.take(i + 1).drop_last() =~= prev);
        if chunk[i] == 10u8 {
            out.push(base + i as u64);
            assert(out@ =~= shift(newlines_of(chunk@.take(i + 1)), base as int));
        } else {
            assert(out@ =~= shift(newlines_of(chunk@.take(i + 1)), base as int));
        }
        i = i + 1;
    }
    assert(chunk@.take(chunk@.len() as int) =~= chunk@);
    out
}

/// Scans the chunks of `bytes` in parallel with rayon and collects the
/// absolute newline offsets found in each chunk, in chunk order.
///
/// Calls `rayon::slice::ParallelSlice::par_chunks`, then `enumerate`, `map`
/// and `collect` of rayon's indexed parallel iterators. Claimed, as rayon
/// documents: the chunks are consecutive, `chunk_size` bytes long except the
/// last, and `collect` keeps them in order; each entry is what the verified
/// [`chunk_newline_offsets`] returns for its chunk.
#[verifier::external_body]
fn scan_chunks_in_parallel(bytes: &[u8], chunk_size: usize) -> (per_chunk: Vec<Vec<u64>>)
    requires
        chunk_size > 0,
        bytes@.len() <= isize::MAX,
    ensures
        per_chunk@.len() == num_chunks(bytes@.len() as int, chunk_size as int),
        forall|i: int|
            0 <= i < per_chunk@.len() ==> #[trigger] per_chunk@[i]@ == shift(
                newlines_of(chunk_of(bytes@, i, chunk_size as int)),
                i * chunk_size,
            ),
{
    bytes.par_chunks(chunk_size).enumerate().map(
        |(chunk_idx, chunk)| chunk_newline_offsets(chunk, chunk_idx, chunk_size),
    ).collect()
}

proof fn lemma_chunk_prefix(d: Seq<u8>, i: int, cs: int)
    requires
        cs > 0,
        0 <= i,
        i * cs < d.len(),
        d.len() <= isize::MAX,
    ensures
        ({
            let hi = if (i + 1) * cs <= d.len() { (i + 1) * cs } else { d.len() as int };
            &&& newlines_of(d.take(hi)) == newlines_of(d.take(i * cs)) + shift(
                newlines_of(chunk_of(d, i, cs)),
                i * cs,
            )
            &&& i * cs < hi
        }),
{
    let lo = i * cs;
    assert((i + 1) * cs == i * cs + cs) by (nonlinear_arith);
    let hi = if (i + 1) * cs <= d.len() { (i + 1) * cs } else { d.len() as int };
    assert(d.take(hi) =~= d.take(lo) + chunk_of(d, i, cs));
    lemma_newlines_concat(d.take(lo), chunk_of(d, i, cs));
}

impl NewlineIndex {
    /// Indexes the newlines of `bytes`, scanning chunks of `chunk_size`
    /// bytes (at least one) in parallel.
    pub fn from_bytes_parallel(bytes: &[u8], chunk_size: usize) -> (idx: NewlineIndex)
        requires
            bytes@.len() <= isize::MAX,
        ensures
            idx@ == IndexModel::of(bytes@),
            idx@.describes(bytes@),
            idx@.wf(),
    {
        let chunk_size: usize = if chunk_size >= 1 { chunk_size } else { 1 };
        let mut per_chunk = scan_chunks_in_parallel(bytes, chunk_size);
        let ghost chunks = per_chunk@;
        let ghost n = chunks.len();
        let ghost len = bytes@.len() as int;
        let ghost cs = chunk_size as int;
        // Reverse the chunk list so that popping yields the chunks in order.
        let mut reversed: Vec<Vec<u64>> = Vec::new();
        while per_chunk.len() > 0
            invariant
                per_chunk@ == chunks.take(per_chunk@.len() as int),
                per_chunk@.len() + reversed@.len() == n,
                forall|j: int|
                    0 <= j < reversed@.len() ==> #[trigger] reversed@[j] == chunks[n - 1 - j],
                chunks.len() == n,
            decreases per_chunk.len(),
        {
            let c = per_chunk.pop().unwrap();
            reversed.push(c);
            assert(per_chunk@ =~= chunks.take(per_chunk@.len() as int));
        }
        let mut newline_offsets: Vec<u64> = Vec::new();
        assert(bytes@.take(0) =~= Seq::<u8>::empty());
        assert((n - reversed@.len()) * cs == 0) by (nonlinear_arith)
            requires
                reversed@.len() == n,
        ;
        while reversed.len() > 0
            invariant
                0 <= n - reversed@.len() <= n,
                n == num_chunks(len, cs),
                cs > 0,
                len == bytes@.len(),
                len <= isize::MAX,
                chunks.len() == n,
                forall|j: int|
                    0 <= j < reversed@.len() ==> #[trigger] reversed@[j] == chunks[n - 1 - j],
                forall|i: int|
                    0 <= i < n ==> #[trigger] chunks[i]@ == shift(
                        newlines_of(chunk_of(bytes@, i, cs)),
                        i * cs,
                    ),
                (n - reversed@.len()) * cs <= len ==> newline_offsets@ == newlines_of(
                    bytes@.take((n - reversed@.len()) * cs),
                ),
                (n - reversed@.len()) * cs > len ==> newline_offsets@ == newlines_of(bytes@),
            decreases reversed.len(),
        {
            let ghost i = n - reversed@.len();
            let mut c = reversed.pop().unwrap();
            assert(c@ == chunks[i]@);
            proof {
                // chunk `i` starts inside the buffer
                assert(i * cs < len) by (nonlinear_arith)
                    requires
                        0 <= i < n,
                        n == (len + cs - 1) / cs,
                        cs > 0,
                ;
                assert(i * cs <= len);
                lemma_chunk_prefix(bytes@, i, cs);
                assert((i + 1) * cs == i * cs + cs) by (nonlinear_arith);
            }
            newline_offsets.append(&mut c);
            proof {
                if (i + 1) * cs > len {
                    assert(bytes@.take(len) =~= bytes@);
                }
            }
        }
        proof {
            assert(n * cs >= len) by (nonlinear_arith)
                requires
                    n == (len + cs - 1) / cs,
                    cs > 0,
                    len >= 0,
            ;
            if n * cs == len {
                assert(bytes@.take(len) =~= bytes@);
            }
            lemma_model_wf(bytes@);
        }
        NewlineIndex { newline_offsets, file_len: bytes.len() as u64 }
    }

    /// Number of newline bytes in the file.
    pub fn newline_count(&self) -> (n: u64)
        ensures
            n == self@.offsets.len(),
    {
        proof {
            use_type_invariant(self);
        }
        self.newline_offsets.len() as u64
    }

    /// Length of the indexed file in bytes.
    pub fn file_len(&self) -> (n: u64)
        ensures
            n == self@.file_len,
    {
        self.file_len
    }

    /// Number of logical lines (an empty file has one empty line).
    pub fn total_lines(&self) -> (n: u64)
        ensures
            n == self@.total_lines(),
    {
        proof {
            use_type_invariant(self);
        }
        if self.file_len == 0 {
            1
        } else {
            self.newline_count() + 1
        }
    }

    /// Byte offset at which `line` starts; refuses a line past the last one.
    pub fn line_to_byte(&self, line: LineNumber) -> (res: Result<ByteOffset>)
        ensures
            line.0 < self@.total_lines() ==> res == Ok::<ByteOffset, TachyonError>(
                ByteOffset(self@.line_start(line.0 as int) as u64),
            ),
            line.0 >= self@.total_lines() ==> (res matches Err(
                TachyonError::LineOutOfBounds { requested, total },
            ) && requested == line.0 && total == self@.total_lines()),
    {
        proof {
            use_type_invariant(self);
        }
        let total = self.total_lines();
        if line.0 >= total {
            return Err(TachyonError::LineOutOfBounds { requested: line.0, total });
        }
        if line.0 == 0 {
            return Ok(ByteOffset(0));
        }
        Ok(ByteOffset(self.newline_offsets[(line.0 - 1) as usize] + 1))
    }

    /// Line that holds `byte_offset`; offsets at or past the end of the file
    /// map to the last line.
    pub fn byte_to_line(&self, byte_offset: ByteOffset) -> (line: LineNumber)
        ensures
            line.0 == self@.line_of_byte(byte_offset.0 as int),
    {
        proof {
            use_type_invariant(self);
        }
        if self.file_len == 0 {
            return LineNumber(0);
        }
        if byte_offset.0 >= self.file_len {
            return LineNumber(self.total_lines() - 1);
        }
        let b = byte_offset.0;
        let mut lo: usize = 0;
        let mut hi: usize = self.newline_offsets.len();
        while lo < hi
            invariant
                0 <= lo <= hi <= self.newline_offsets@.len(),
                forall|i: int| 0 <= i < lo ==> #[trigger] self.newline_offsets@[i] < b,
                forall|i: int|
                    hi <= i < self.newline_offsets@.len() ==> #[trigger] self.newline_offsets@[i] >= b,
                strictly_increasing(self.newline_offsets@),
            decreases hi - lo,
        {
            let mid = lo + (hi - lo) / 2;
            if self.newline_offsets[mid] < b {
                assert forall|i: int| 0 <= i < mid + 1 implies #[trigger] self.newline_offsets@[i]
                    < b by {
                    if i < mid {
                        assert(self.newline_offsets@[i] < self.newline_offsets@[mid as int]);
                    }
                }
                lo = mid + 1;
            } else {
                assert forall|i: int|
                    mid <= i < self.newline_offsets@.len() implies #[trigger] self.newline_offsets@[i]
                    >= b by {
                    if i > mid {
                        assert(self.newline_offsets@[mid as int] < self.newline_offsets@[i]);
                    }
                }
                hi = mid;
            }
        }
        proof {
            lemma_count_below_partition(self.newline_offsets@, b as int, lo as int);
        }
        LineNumber(lo as u64)
    }

    /// Byte range of `line`, its terminating newline excluded; refuses a line
    /// past the last one.
    pub fn line_byte_range(&self, line: LineNumber) -> (res: Result<ByteRange>)
        ensures
            line.0 < self@.total_lines() ==> res == Ok::<ByteRange, TachyonError>(
                ByteRange {
                    start: ByteOffset(self@.line_start(line.0 as int) as u64),
                    end: ByteOffset(self@.line_end(line.0 as int) as u64),
                },
            ),
            line.0 >= self@.total_lines() ==> (res matches Err(
                TachyonError::LineOutOfBounds { requested, total },
            ) && requested == line.0 && total == self@.total_lines()),
    {
        proof {
            use_type_invariant(self);
        }
        let start = self.line_to_byte(line)?;
        proof {
            lemma_line_bounds(self@, line.0 as int);
        }
        let end = if line.0 + 1 < self.total_lines() {
            let next_start = self.line_to_byte(LineNumber(line.0 + 1))?;
            ByteOffset(if next_start.0 >= 1 { next_start.0 - 1 } else { 0 })
        } else {
            ByteOffset(self.file_len)
        };
        ByteRange::new(start, end)
    }
}

/// Every line of a well-formed index starts no later than it ends, and ends
/// inside the file.
pub proof fn lemma_line_bounds(m: IndexModel, l: int)
    requires
        m.wf(),
        0 <= l < m.total_lines(),
    ensures
        0 <= m.line_start(l) <= m.line_end(l) <= m.file_len,
        l + 1 < m.total_lines() ==> m.line_start(l + 1) == m.line_end(l) + 1,
{
    if l > 0 && l + 1 < m.total_lines() {
        assert(m.offsets[l - 1] < m.offsets[l]);
    }
}

/// Lines of an index built from `d` partition `d`: line `l` covers
/// `[line_start(l), line_end(l))`, holds no newline, and is followed by a
/// newline when it is not the last line.
pub proof fn lemma_lines_of_buffer(d: Seq<u8>, l: int)
    requires
        IndexModel::of(d).describes(d),
        0 <= l < IndexModel::of(d).total_lines(),
    ensures
        0 <= IndexModel::of(d).line_start(l) <= IndexModel::of(d).line_end(l) <= d.len(),
        forall|j: int|
            IndexModel::of(d).line_start(l) <= j < IndexModel::of(d).line_end(l) ==> #[trigger] d[j]
                != 10u8,
        l + 1 < IndexModel::of(d).total_lines() ==> d[IndexModel::of(d).line_end(l)] == 10u8,
        IndexModel::of(d).line_start(0) == 0,
        IndexModel::of(d).line_end(IndexModel::of(d).total_lines() - 1) == d.len(),
{
    let m = IndexModel::of(d);
    lemma_newlines_basic(d);
    lemma_model_wf(d);
    lemma_line_bounds(m, l);
    assert forall|j: int| m.line_start(l) <= j < m.line_end(l) implies #[trigger] d[j] != 10u8 by {
        if d[j] == 10u8 {
            let i = choose|i: int| 0 <= i < m.offsets.len() && #[trigger] m.offsets[i] == j;
            if i < l - 1 {
                assert(m.offsets[i] < m.offsets[l - 1]);
            } else if i == l - 1 {
            } else if i == l {
            } else {
                assert(m.offsets[l] < m.offsets[i]);
            }
        }
    }
    if l + 1 < m.total_lines() {
        assert(d[m.offsets[l] as int] == 10u8);
    }
    if m.file_len != 0 {
        // the last newline sits before the end of the file
        if m.offsets.len() > 0 {
            assert(m.offsets[m.offsets.len() - 1] < m.file_len);
        }
    }
}


/// The bytes of `range` within `bytes`; a range that ends past the end of
/// the bytes is refused.
pub fn slice_byte_range(bytes: &[u8], range: ByteRange) -> (res: Result<&[u8]>)
    requires
        range.end.0 <= bytes@.len() ==> range.wf(),
    ensures
        range.end.0 > bytes@.len() ==> (res matches Err(TachyonError::InvalidByteRange { start, end })
            && start == range.start.0 && end == range.end.0),
        range.end.0 <= bytes@.len() ==> (res matches Ok(s) && s@ == bytes@.subrange(
            range.start.0 as int,
            range.end.0 as int,
        )),
{
    if range.end.0 > bytes.len() as u64 {
        return Err(TachyonError::InvalidByteRange { start: range.start.0, end: range.end.0 });
    }
    Ok(vstd::slice::slice_subrange(bytes, range.start.0 as usize, range.end.0 as usize))
}

} // verus!
