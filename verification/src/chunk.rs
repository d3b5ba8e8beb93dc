//! Splitting large XML inputs into chunks at top-level element boundaries,
//! for processing the chunks independently.

use vstd::prelude::*;
use crate::search::{LT, GT, SLASH, BANG, QMARK};

verus! {

/// A contiguous part of the input, with a small overlap with the part before.
#[derive(Debug, Clone)]
pub struct Chunk<'a> {
    /// The bytes of this chunk, overlap included.
    pub data: &'a [u8],
    /// Offset in the input where `data` starts.
    pub offset: u64,
    /// Position of this chunk in the sequence of chunks.
    pub chunk_id: usize,
    /// How many leading bytes of `data` also belong to the previous chunk.
    pub overlap_bytes: usize,
}

/// Configuration of the chunk splitting strategy.
#[derive(Debug, Clone)]
pub struct ChunkSplitter {
    /// Minimum chunk size in bytes.
    pub min_chunk_size: usize,
    /// Maximum chunk size in bytes.
    pub max_chunk_size: usize,
    /// Overlap between consecutive chunks in bytes.
    pub overlap_bytes: usize,
}

/// The change of nesting depth that byte `i` of `d` makes: `<` opens unless
/// it starts `</`, `<!` or `<?` (and `</` closes); `>` after `/` closes.
pub open spec fn depth_delta(d: Seq<u8>, i: int) -> int {
    if d[i] == LT {
        if i + 1 < d.len() && d[i + 1] == SLASH {
            -1
        } else if i + 1 < d.len() && d[i + 1] != BANG && d[i + 1] != QMARK {
            1
        } else {
            0
        }
    } else if d[i] == GT {
        if i > 0 && d[i - 1] == SLASH { -1 } else { 0 }
    } else {
        0
    }
}

/// The nesting depth after the first `k` bytes of `d`.
pub open spec fn depth_through(d: Seq<u8>, k: int) -> int
    decreases k,
{
    if k <= 0 {
        0
    } else {
        depth_through(d, k - 1) + depth_delta(d, k - 1)
    }
}

/// The depth after `k` bytes is at most `k` in size.
pub proof fn lemma_depth_bounded(d: Seq<u8>, k: int)
    ensures
        -k <= depth_through(d, k) <= k || k < 0,
    decreases k,
{
    if k > 0 {
        lemma_depth_bounded(d, k - 1);
    }
}

/// `p` is a safe split point: a `>` at which the depth returns to zero.
pub open spec fn is_safe_close(d: Seq<u8>, p: int) -> bool {
    0 <= p < d.len() && d[p] == GT && depth_through(d, p + 1) == 0
}

/// Where the next chunk of `d` ends: all of `d` when it is no longer than the
/// minimum size; else just past the first safe `>` at or after the minimum
/// size and before the maximum size; else at the maximum size (or the end).
pub open spec fn boundary_spec(d: Seq<u8>, min: int, max: int) -> int {
    let start = if min < d.len() { min } else { d.len() as int };
    let stop = if max < d.len() { max } else { d.len() as int };
    if start >= d.len() {
        d.len() as int
    } else if exists|p: int| start <= p < stop && is_safe_close(d, p) {
        let p = choose|p: int| start <= p < stop && is_safe_close(d, p) && forall|q: int| start <= q < p ==> !is_safe_close(d, q);
        p + 1
    } else {
        stop
    }
}

impl Default for ChunkSplitter {
    /// Chunks of 2 MB to 16 MB with an overlap of 8 KB.
    fn default() -> (s: Self)
        ensures
            s.min_chunk_size == 2 * 1024 * 1024,
            s.max_chunk_size == 16 * 1024 * 1024,
            s.overlap_bytes == 8 * 1024,
            s.valid(),
    {
        ChunkSplitter { min_chunk_size: 2 * 1024 * 1024, max_chunk_size: 16 * 1024 * 1024, overlap_bytes: 8 * 1024 }
    }
}

impl ChunkSplitter {
    /// The limits that `new` checks: a positive minimum, a maximum no smaller
    /// than it, and an overlap smaller than the minimum.
    pub open spec fn valid(&self) -> bool {
        &&& self.min_chunk_size > 0
        &&& self.max_chunk_size >= self.min_chunk_size
        &&& self.overlap_bytes < self.min_chunk_size
    }

    /// A splitter with the given sizes.
    pub fn new(min_chunk_size: usize, max_chunk_size: usize, overlap_bytes: usize) -> (s: Self)
        requires
            min_chunk_size > 0,
            max_chunk_size >= min_chunk_size,
            overlap_bytes < min_chunk_size,
        ensures
            s.min_chunk_size == min_chunk_size,
            s.max_chunk_size == max_chunk_size,
            s.overlap_bytes == overlap_bytes,
            s.valid(),
    {
        ChunkSplitter { min_chunk_size, max_chunk_size, overlap_bytes }
    }

    /// Find the end of the next chunk of `data` by tracking nesting depth.
    fn find_chunk_boundary(&self, data: &[u8]) -> (r: usize)
        requires
            self.valid(),
            data@.len() > 0,
        ensures
            r == boundary_spec(data@, self.min_chunk_size as int, self.max_chunk_size as int),
            0 < r <= data@.len(),
    {
        let len = data.len();
        let start_search = if self.min_chunk_size < len { self.min_chunk_size } else { len };
        if start_search >= len {
            return len;
        }
        let mut depth: i128 = 0;
        let mut i: usize = 0;
        while i < start_search
            invariant
                i <= start_search < len,
                len == data@.len(),
                depth == depth_through(data@, i as int),
            decreases start_search - i,
        {
            proof { lemma_depth_bounded(data@, i as int); }
            if data[i] == LT {
                if i + 1 < len && data[i + 1] == SLASH {
                    depth = depth - 1;
                } else if i + 1 < len && data[i + 1] != BANG && data[i + 1] != QMARK {
                    depth = depth + 1;
                }
            } else if data[i] == GT {
                if i > 0 && data[i - 1] == SLASH {
                    depth = depth - 1;
                }
            }
            i += 1;
        }
        let stop = if self.max_chunk_size < len { self.max_chunk_size } else { len };
        let mut pos = start_search;
        while pos < len && pos < self.max_chunk_size
            invariant
                start_search <= pos <= len,
                start_search < len,
                start_search == self.min_chunk_size,
                stop == (if self.max_chunk_size < len { self.max_chunk_size } else { len }),
                len == data@.len(),
                depth == depth_through(data@, pos as int),
                forall|q: int| start_search <= q < pos ==> !is_safe_close(data@, q),
            decreases len - pos,
        {
            proof { lemma_depth_bounded(data@, pos as int); }
            if data[pos] == LT {
                if pos + 1 < len && data[pos + 1] == SLASH {
                    depth = depth - 1;
                } else if pos + 1 < len && data[pos + 1] != BANG && data[pos + 1] != QMARK {
                    depth = depth + 1;
                }
            } else if data[pos] == GT {
                if pos > 0 && data[pos - 1] == SLASH {
                    depth = depth - 1;
                }
                if depth == 0 {
                    assert(is_safe_close(data@, pos as int));
                    let ghost p = pos as int;
                    assert(forall|q: int| start_search <= q < p ==> !is_safe_close(data@, q));
                    return pos + 1;
                }
            }
            pos += 1;
        }
        proof {
            assert(!exists|p: int| start_search <= p < stop && is_safe_close(data@, p));
        }
        stop
    }
}

/// A boundary lies inside the non-empty `d` and past its start.
pub proof fn lemma_boundary_bounds(d: Seq<u8>, min: int, max: int)
    requires
        d.len() > 0,
        min > 0,
        max >= min,
    ensures
        0 < boundary_spec(d, min, max) <= d.len(),
{
    let start = if min < d.len() { min } else { d.len() as int };
    let stop = if max < d.len() { max } else { d.len() as int };
    if start < d.len() && exists|p: int| start <= p < stop && is_safe_close(d, p) {
        let p = choose|p: int| start <= p < stop && is_safe_close(d, p) && forall|q: int| start <= q < p ==> !is_safe_close(d, q);
        let w = choose|p: int| start <= p < stop && is_safe_close(d, p);
        lemma_first_safe_close(d, start, stop, w);
    }
}

/// When a safe `>` exists in `start..stop`, there is a first one.
pub proof fn lemma_first_safe_close(d: Seq<u8>, start: int, stop: int, w: int)
    requires
        start <= w < stop,
        is_safe_close(d, w),
    ensures
        exists|p: int| start <= p < stop && is_safe_close(d, p) && forall|q: int| start <= q < p ==> !is_safe_close(d, q),
    decreases w - start,
{
    if exists|q: int| start <= q < w && is_safe_close(d, q) {
        let q = choose|q: int| start <= q < w && is_safe_close(d, q);
        lemma_first_safe_close(d, start, stop, q);
    } else {
        assert(start <= w < stop && is_safe_close(d, w) && forall|q: int| start <= q < w ==> !is_safe_close(d, q));
    }
}

/// The bytes of a self-closing element: `<`, the name, `/>`.
pub open spec fn self_closing_bytes(name: Seq<u8>) -> Seq<u8> {
    seq![LT] + name + seq![SLASH, GT]
}

/// A name that can stand in a self-closing tag: not empty, not starting
/// with `!` or `?`, and holding no `<`, `>` or `/`.
pub open spec fn plain_tag_name(name: Seq<u8>) -> bool {
    &&& name.len() > 0
    &&& name[0] != BANG
    &&& name[0] != QMARK
    &&& forall|i: int| 0 <= i < name.len() ==> #[trigger] name[i] != LT && name[i] != GT && name[i] != SLASH
}

/// Bytes that change no depth leave it as it was.
proof fn lemma_depth_flat(d: Seq<u8>, from: int, to: int)
    requires
        0 <= from <= to <= d.len(),
        forall|i: int| from <= i < to ==> depth_delta(d, i) == 0,
    ensures
        depth_through(d, to) == depth_through(d, from),
    decreases to - from,
{
    if to > from {
        lemma_depth_flat(d, from, to - 1);
    }
}

/// A self-closing element leaves the nesting depth as it was: the depth
/// after its bytes, wherever they stand, equals the depth before them.
pub proof fn law_self_closing_keeps_depth(a: Seq<u8>, name: Seq<u8>, b: Seq<u8>)
    requires
        plain_tag_name(name),
    ensures
        depth_through(a + self_closing_bytes(name) + b, a.len() + name.len() + 3int)
            == depth_through(a + self_closing_bytes(name) + b, a.len() as int),
{
    let d = a + self_closing_bytes(name) + b;
    let k = a.len() as int;
    let n = name.len() as int;
    assert(d[k] == LT);
    assert(d[k + 1] == name[0]);
    assert(depth_delta(d, k) == 1);
    assert forall|i: int| k + 1 <= i < k + 1 + n + 1 implies depth_delta(d, i) == 0 by {
        if i < k + 1 + n {
            assert(d[i] == name[i - k - 1]);
        } else {
            assert(d[i] == SLASH);
        }
    }
    lemma_depth_flat(d, k + 1, k + n + 2);
    assert(d[k + n + 2] == GT);
    assert(d[k + n + 1] == SLASH);
    assert(depth_delta(d, k + n + 2) == -1);
}

/// When the bytes before a self-closing element are at depth zero and the
/// element's `/>` ends at or past the minimum size (the element itself
/// starting before it) and before the maximum size, the chunk ends right
/// after that `/>`.
pub proof fn law_chunk_ends_after_self_closing(a: Seq<u8>, name: Seq<u8>, b: Seq<u8>, min: int, max: int)
    requires
        plain_tag_name(name),
        depth_through(a + self_closing_bytes(name) + b, a.len() as int) == 0,
        a.len() < min <= a.len() + name.len() + 2 < max,
    ensures
        boundary_spec(a + self_closing_bytes(name) + b, min, max) == a.len() + name.len() + 3int,
{
    let d = a + self_closing_bytes(name) + b;
    let k = a.len() as int;
    let p = k + name.len() + 2;
    law_self_closing_keeps_depth(a, name, b);
    assert(d[p] == GT);
    assert(is_safe_close(d, p));
    let start = min;
    let stop = if max < d.len() { max } else { d.len() as int };
    assert forall|q: int| start <= q < p implies !is_safe_close(d, q) by {
        if q < k + 1 + name.len() {
            assert(d[q] == name[q - k - 1]);
        } else {
            assert(d[q] == SLASH);
        }
    }
    lemma_first_safe_close(d, start, stop, p);
    let c = choose|c: int| start <= c < stop && is_safe_close(d, c) && forall|q: int| start <= q < c ==> !is_safe_close(d, q);
    if c < p {
        assert(!is_safe_close(d, c));
    } else if c > p {
        assert(!is_safe_close(d, p));
    }
}

/// An element with no content, `<name></name>`, leaves the nesting depth as
/// it was, and so does markup that opens with `<!` or `<?` and holds no
/// `<` or `>` before its closing `>`.
pub proof fn law_pair_and_markup_keep_depth(a: Seq<u8>, name: Seq<u8>, t: Seq<u8>, b: Seq<u8>, lead: u8)
    requires
        plain_tag_name(name),
        lead == BANG || lead == QMARK,
        forall|i: int| 0 <= i < t.len() ==> #[trigger] t[i] != LT && t[i] != GT && t[i] != SLASH,
    ensures
        ({
            let d = a + (seq![LT] + name + seq![GT]) + (seq![LT, SLASH] + name + seq![GT]) + b;
            depth_through(d, a.len() + 2 * name.len() + 5int) == depth_through(d, a.len() as int)
        }),
        ({
            let d = a + (seq![LT, lead] + t + seq![GT]) + b;
            depth_through(d, a.len() + t.len() + 3int) == depth_through(d, a.len() as int)
        }),
{
    let n = name.len() as int;
    let k = a.len() as int;
    let d = a + (seq![LT] + name + seq![GT]) + (seq![LT, SLASH] + name + seq![GT]) + b;
    assert(d[k] == LT);
    assert(d[k + 1] == name[0]);
    assert(depth_delta(d, k) == 1);
    assert forall|i: int| k + 1 <= i < k + n + 2 implies depth_delta(d, i) == 0 by {
        if i < k + n + 1 {
            assert(d[i] == name[i - k - 1]);
        } else {
            assert(d[i] == GT);
            assert(d[i - 1] == name[n - 1]);
        }
    }
    lemma_depth_flat(d, k + 1, k + n + 2);
    assert(d[k + n + 2] == LT && d[k + n + 3] == SLASH);
    assert(depth_delta(d, k + n + 2) == -1);
    assert forall|i: int| k + n + 3 <= i < k + 2 * n + 5 implies depth_delta(d, i) == 0 by {
        if i == k + n + 3 {
            assert(d[i] == SLASH);
        } else if i < k + 2 * n + 4 {
            assert(d[i] == name[i - k - n - 4]);
        } else {
            assert(d[i] == GT);
            assert(d[i - 1] == name[n - 1]);
        }
    }
    lemma_depth_flat(d, k + n + 3, k + 2 * n + 5);
    let e = a + (seq![LT, lead] + t + seq![GT]) + b;
    let m = t.len() as int;
    assert(e[k] == LT && e[k + 1] == lead);
    assert forall|i: int| k <= i < k + m + 3 implies depth_delta(e, i) == 0 by {
        if i == k {
        } else if i == k + 1 {
            assert(e[i] == lead);
        } else if i < k + m + 2 {
            assert(e[i] == t[i - k - 2]);
        } else {
            assert(e[i] == GT);
            if m > 0 {
                assert(e[i - 1] == t[m - 1]);
            } else {
                assert(e[i - 1] == lead);
            }
        }
    }
    lemma_depth_flat(e, k, k + m + 3);
}

/// An input no longer than the minimum size is one chunk; with no `>` from
/// the minimum size up to the maximum size, the chunk is cut at the maximum
/// size.
pub proof fn law_chunk_size_limits(d: Seq<u8>, min: int, max: int)
    requires
        0 < min <= max,
    ensures
        d.len() <= min ==> boundary_spec(d, min, max) == d.len(),
        max < d.len() && (forall|i: int| min <= i < max ==> d[i] != GT) ==> boundary_spec(d, min, max) == max,
{
}

/// Self-closing elements one after the other.
pub open spec fn self_closing_run(names: Seq<Seq<u8>>) -> Seq<u8>
    decreases names.len(),
{
    if names.len() == 0 {
        Seq::empty()
    } else {
        self_closing_run(names.drop_last()) + self_closing_bytes(names.last())
    }
}

/// After any number of self-closing elements the depth is zero again.
pub proof fn law_self_closing_run_depth(names: Seq<Seq<u8>>, b: Seq<u8>)
    requires
        forall|i: int| 0 <= i < names.len() ==> plain_tag_name(#[trigger] names[i]),
    ensures
        depth_through(self_closing_run(names) + b, self_closing_run(names).len() as int) == 0,
    decreases names.len(),
{
    if names.len() > 0 {
        let a = self_closing_run(names.drop_last());
        let nm = names.last();
        assert(plain_tag_name(nm));
        assert(self_closing_run(names) + b =~= a + self_closing_bytes(nm) + b);
        assert forall|i: int| 0 <= i < names.drop_last().len() implies plain_tag_name(#[trigger] names.drop_last()[i]) by {
            assert(names.drop_last()[i] == names[i]);
        }
        law_self_closing_run_depth(names.drop_last(), self_closing_bytes(nm) + b);
        assert(a + (self_closing_bytes(nm) + b) =~= a + self_closing_bytes(nm) + b);
        law_self_closing_keeps_depth(a, nm, b);
    } else {
        assert(depth_through(self_closing_run(names) + b, 0) == 0);
    }
}

/// The end positions of the chunks of `d` from position `cur` on.
pub open spec fn cuts_from(d: Seq<u8>, min: int, max: int, cur: int) -> Seq<int>
    decreases d.len() - cur,
{
    if cur < 0 || cur >= d.len() {
        Seq::<int>::empty()
    } else {
        let e = cur + boundary_spec(d.subrange(cur, d.len() as int), min, max);
        if e <= cur || e > d.len() {
            Seq::<int>::empty()
        } else {
            seq![e] + cuts_from(d, min, max, e)
        }
    }
}

/// Where the non-overlapping part of chunk `i` begins.
pub open spec fn cut_begin(cuts: Seq<int>, i: int) -> int {
    if i == 0 { 0 } else { cuts[i - 1] }
}

/// The overlap of chunk `i` with the chunk before.
pub open spec fn cut_overlap(cuts: Seq<int>, i: int, overlap: int) -> int {
    if i == 0 {
        0
    } else if overlap < cut_begin(cuts, i) {
        overlap
    } else {
        cut_begin(cuts, i)
    }
}

/// The chunk ends rise strictly from a positive first end to the end of `d`:
/// the chunks, without their overlaps, cover the input exactly once, in order.
pub proof fn lemma_cuts_cover(d: Seq<u8>, min: int, max: int, cur: int)
    requires
        min > 0,
        max >= min,
        0 <= cur <= d.len(),
    ensures
        ({
            let c = cuts_from(d, min, max, cur);
            &&& (c.len() == 0 <==> cur == d.len())
            &&& c.len() <= d.len() - cur
            &&& c.len() > 0 ==> c[0] > cur && c[c.len() - 1] == d.len()
            &&& forall|i: int, j: int| 0 <= i < j < c.len() ==> #[trigger] c[i] < #[trigger] c[j]
            &&& forall|i: int| 0 <= i < c.len() ==> cur < #[trigger] c[i] <= d.len()
        }),
    decreases d.len() - cur,
{
    if cur < d.len() {
        let sub = d.subrange(cur, d.len() as int);
        lemma_boundary_bounds(sub, min, max);
        let e = cur + boundary_spec(sub, min, max);
        lemma_cuts_cover(d, min, max, e);
        let rest = cuts_from(d, min, max, e);
        let c = cuts_from(d, min, max, cur);
        assert(c == seq![e] + rest);
        assert forall|i: int, j: int| 0 <= i < j < c.len() implies c[i] < c[j] by {
            if i > 0 {
                assert(c[i] == rest[i - 1] && c[j] == rest[j - 1]);
            } else {
                assert(c[j] == rest[j - 1]);
            }
        }
        assert forall|i: int| 0 <= i < c.len() implies cur < #[trigger] c[i] <= d.len() by {
            if i > 0 {
                assert(c[i] == rest[i - 1]);
            }
        }
        if rest.len() > 0 {
            assert(c[c.len() - 1] == rest[rest.len() - 1]);
        }
    }
}

impl ChunkSplitter {
    /// Split `data` into chunks at safe top-level element boundaries. Chunk `i`
    /// holds the bytes from the end of chunk `i - 1` (less its overlap) to the
    /// `i`-th cut of `cuts_from`.
    pub fn split<'a>(&self, data: &'a [u8]) -> (r: Vec<Chunk<'a>>)
        requires
            self.valid(),
        ensures
            ({
                let c = cuts_from(data@, self.min_chunk_size as int, self.max_chunk_size as int, 0);
                &&& r@.len() == c.len()
                &&& forall|i: int| 0 <= i < c.len() ==> {
                    let ch = #[trigger] r@[i];
                    let ov = cut_overlap(c, i, self.overlap_bytes as int);
                    let start = cut_begin(c, i) - ov;
                    &&& ch.chunk_id == i
                    &&& ch.overlap_bytes == ov
                    &&& ch.offset == start
                    &&& ch.data@ == data@.subrange(start, c[i])
                }
            }),
    {
        let ghost min = self.min_chunk_size as int;
        let ghost max = self.max_chunk_size as int;
        let ghost c = cuts_from(data@, min, max, 0);
        proof { lemma_cuts_cover(data@, min, max, 0); }
        if data.len() == 0 {
            return Vec::new();
        }
        if data.len() <= self.min_chunk_size {
            proof {
                let sub = data@.subrange(0, data@.len() as int);
                assert(sub =~= data@);
                assert(c =~= seq![data@.len() as int] + cuts_from(data@, min, max, data@.len() as int));
            }
            let mut v: Vec<Chunk<'a>> = Vec::new();
            v.push(Chunk { data, offset: 0, chunk_id: 0, overlap_bytes: 0 });
            assert(data@.subrange(0, data@.len() as int) =~= data@);
            return v;
        }
        let len = data.len();
        let mut chunks: Vec<Chunk<'a>> = Vec::new();
        let mut current_offset: usize = 0;
        let mut chunk_id: usize = 0;
        while current_offset < len
            invariant
                len == data@.len(),
                self.valid(),
                min == self.min_chunk_size,
                max == self.max_chunk_size,
                c == cuts_from(data@, min, max, 0),
                chunks@.len() == chunk_id,
                chunk_id <= c.len(),
                current_offset <= len,
                current_offset == cut_begin(c, chunk_id as int),
                c.subrange(chunk_id as int, c.len() as int) == cuts_from(data@, min, max, current_offset as int),
                forall|i: int| 0 <= i < chunk_id ==> {
                    let ch = #[trigger] chunks@[i];
                    let ov = cut_overlap(c, i, self.overlap_bytes as int);
                    let start = cut_begin(c, i) - ov;
                    &&& ch.chunk_id == i
                    &&& ch.overlap_bytes == ov
                    &&& ch.offset == start
                    &&& ch.data@ == data@.subrange(start, c[i])
                },
            ensures
                chunks@.len() == c.len(),
                forall|i: int| 0 <= i < c.len() ==> {
                    let ch = #[trigger] chunks@[i];
                    let ov = cut_overlap(c, i, self.overlap_bytes as int);
                    let start = cut_begin(c, i) - ov;
                    &&& ch.chunk_id == i
                    &&& ch.overlap_bytes == ov
                    &&& ch.offset == start
                    &&& ch.data@ == data@.subrange(start, c[i])
                },
            decreases len - current_offset,
        {
            let remaining = &data[current_offset..len];
            proof { lemma_boundary_bounds(remaining@, min, max); }
            let chunk_end = self.find_chunk_boundary(remaining);
            let ghost rest = cuts_from(data@, min, max, current_offset as int);
            proof {
                assert(remaining@ =~= data@.subrange(current_offset as int, data@.len() as int));
                lemma_cuts_cover(data@, min, max, current_offset as int);
                assert(rest[0] == current_offset + chunk_end);
                assert(c[chunk_id as int] == rest[0]);
                lemma_cuts_cover(data@, min, max, 0);
                assert(c.len() <= len);
            }
            let overlap = if chunk_id > 0 {
                if self.overlap_bytes < current_offset { self.overlap_bytes } else { current_offset }
            } else {
                0
            };
            let chunk_start = current_offset - overlap;
            let chunk_data_end = current_offset + chunk_end;
            let ghost prev = chunks@;
            chunks.push(Chunk {
                data: &data[chunk_start..chunk_data_end],
                offset: chunk_start as u64,
                chunk_id,
                overlap_bytes: overlap,
            });
            proof {
                assert(chunks@[chunk_id as int].data@ == data@.subrange(chunk_start as int, chunk_data_end as int));
                assert forall|i: int| 0 <= i < chunk_id implies chunks@[i] == prev[i] by {}
                let next = cuts_from(data@, min, max, chunk_data_end as int);
                assert(rest == seq![chunk_data_end as int] + next);
                assert(c.subrange(chunk_id + 1, c.len() as int) =~= rest.subrange(1, rest.len() as int));
                assert(rest.subrange(1, rest.len() as int) =~= next);
            }
            current_offset = chunk_data_end;
            chunk_id += 1;
            if chunk_data_end >= len {
                proof {
                    let next = cuts_from(data@, min, max, chunk_data_end as int);
                    assert(next.len() == 0);
                    assert(c.subrange(chunk_id as int, c.len() as int).len() == 0);
                }
                break;
            }
        }
        chunks
    }
}

} // verus!
