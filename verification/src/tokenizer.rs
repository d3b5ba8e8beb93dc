//! Tokenizer primitives: byte scanners for names, attribute values and the
//! closing sequences of comments, CDATA sections and processing instructions.

use vstd::prelude::*;
use crate::search::{SP, TAB, CR, LF, LT, GT, SLASH, EQ, QUOT, APOS, DASH, RBRACKET, QMARK, AMP, SEMI, is_ws, first_occurrence_result, occurs_at, first_occurrence, lemma_first_occurrence, lemma_first_occurrence_props, memchr_first, memmem_first};

verus! {

/// States of the tokenizer's state machine.
#[derive(Debug, Clone, Copy, PartialEq, Eq, Structural)]
pub enum State {
    Data,
    TagOpen,
    StartTagName,
    EndTagName,
    InsideStartTag,
    AttrName,
    AttrBeforeValue,
    AttrValue,
    CommentStart,
    CommentBody,
    CDataStart,
    CDataBody,
    PiStart,
    PiBody,
    SkipDoctype,
    ErrorRecovery,
    Eof,
}

impl Default for State {
    fn default() -> (s: Self)
        ensures
            s == State::Data,
    {
        State::Data
    }
}

/// A byte that ends a name: whitespace, `/`, `>` or `=`.
pub open spec fn is_name_delim(b: u8) -> bool {
    is_ws(b) || b == SLASH || b == GT || b == EQ
}

/// A byte that ends an unquoted attribute value: whitespace, `>` or `/`.
pub open spec fn is_value_delim(b: u8) -> bool {
    is_ws(b) || b == GT || b == SLASH
}

/// A quote byte: `'` or `"`.
pub open spec fn is_quote(b: u8) -> bool {
    b == APOS || b == QUOT
}

/// `len` is where a scan of `buf` stops that is bounded by `max_len` and ends
/// at the first byte satisfying `stop`.
pub open spec fn bounded_scan(buf: Seq<u8>, max_len: int, len: int, stop: spec_fn(u8) -> bool) -> bool {
    &&& 0 <= len <= buf.len()
    &&& len <= max_len
    &&& forall|i: int| 0 <= i < len ==> !stop(buf[i])
    &&& (len < buf.len() && len < max_len) ==> stop(buf[len])
}

/// Stops a scan at a name delimiter.
pub open spec fn name_stop() -> spec_fn(u8) -> bool {
    |b: u8| is_name_delim(b)
}

/// Stops a scan at an unquoted-value delimiter.
pub open spec fn value_stop() -> spec_fn(u8) -> bool {
    |b: u8| is_value_delim(b)
}

/// Stops a scan at the first byte that is not whitespace.
pub open spec fn ws_stop() -> spec_fn(u8) -> bool {
    |b: u8| !is_ws(b)
}

/// Stops a scan at the byte `q`.
pub open spec fn quote_stop(q: u8) -> spec_fn(u8) -> bool {
    |b: u8| b == q
}

/// The number of bytes of `s`, from index `i` on, before the first byte at
/// which `stop` holds (or before the end of `s`).
pub open spec fn run_from(s: Seq<u8>, i: int, stop: spec_fn(u8) -> bool) -> nat
    decreases s.len() - i,
{
    if 0 <= i < s.len() && !stop(s[i]) {
        1 + run_from(s, i + 1, stop)
    } else {
        0
    }
}

/// What a run ends at: it stays inside `s`, holds no stopping byte, and is
/// followed by a stopping byte or by the end of `s`.
pub proof fn lemma_run_props(s: Seq<u8>, i: int, stop: spec_fn(u8) -> bool)
    requires
        0 <= i <= s.len(),
    ensures
        i + run_from(s, i, stop) <= s.len(),
        forall|j: int| i <= j < i + run_from(s, i, stop) ==> !stop(s[j]),
        i + run_from(s, i, stop) < s.len() ==> stop(s[i + run_from(s, i, stop)]),
    decreases s.len() - i,
{
    if i < s.len() && !stop(s[i]) {
        lemma_run_props(s, i + 1, stop);
    }
}

/// A run is the only length with the properties of `lemma_run_props`.
pub proof fn lemma_run_unique(s: Seq<u8>, i: int, stop: spec_fn(u8) -> bool, l: int)
    requires
        0 <= i <= s.len(),
        0 <= l,
        i + l <= s.len(),
        forall|j: int| i <= j < i + l ==> !stop(s[j]),
        i + l == s.len() || stop(s[i + l]),
    ensures
        run_from(s, i, stop) == l,
{
    lemma_run_props(s, i, stop);
    let r = run_from(s, i, stop) as int;
    if r < l {
        assert(!stop(s[i + r]));
    } else if r > l {
        assert(!stop(s[i + l]));
    }
}

/// A scan bounded by `max` over the tail of `s` from `i` stops at the smaller
/// of `max` and the run from `i`.
pub proof fn lemma_bounded_scan_run(s: Seq<u8>, i: int, max: int, l: int, stop: spec_fn(u8) -> bool)
    requires
        0 <= i <= s.len(),
        bounded_scan(s.subrange(i, s.len() as int), max, l, stop),
    ensures
        l == (if run_from(s, i, stop) < max { run_from(s, i, stop) as int } else { max }),
{
    let sub = s.subrange(i, s.len() as int);
    lemma_run_props(s, i, stop);
    assert forall|j: int| i <= j < i + l implies !stop(s[j]) by {
        assert(sub[j - i] == s[j]);
    }
    if l < max {
        if l < sub.len() {
            assert(sub[l] == s[i + l]);
        }
        lemma_run_unique(s, i, stop, l);
    } else {
        let r = run_from(s, i, stop) as int;
        if r < l {
            assert(i + r < s.len());
            assert(!stop(s[i + r]));
        }
    }
}

/// The byte at `i`, if `i` is inside `buf`.
pub open spec fn byte_at(buf: Seq<u8>, i: int) -> Option<u8> {
    if 0 <= i < buf.len() {
        Some(buf[i])
    } else {
        None
    }
}

/// The closing sequence of a comment: `-->`.
pub open spec fn comment_close() -> Seq<u8> {
    seq![DASH, DASH, GT]
}

/// The closing sequence of a CDATA section: `]]>`.
pub open spec fn cdata_close() -> Seq<u8> {
    seq![RBRACKET, RBRACKET, GT]
}

/// The closing sequence of a processing instruction: `?>`.
pub open spec fn pi_close() -> Seq<u8> {
    seq![QMARK, GT]
}

/// Find the first occurrence of `needle` inside `haystack` and return the
/// byte index, or `None` if not found.
pub fn find_sequence(haystack: &[u8], needle: &[u8]) -> (r: Option<usize>)
    ensures
        first_occurrence_result(haystack@, needle@, r),
{
    if needle.len() == 0 {
        assert(occurs_at(haystack@, needle@, 0)) by {
            assert(haystack@.subrange(0, 0) =~= needle@);
        }
        return Some(0);
    }
    if needle.len() == 1 {
        let r = memchr_first(needle[0], haystack);
        proof {
            assert forall|j: int| 0 <= j && j + 1 <= haystack@.len() implies
                (occurs_at(haystack@, needle@, j) <==> haystack@[j] == needle@[0]) by {
                if haystack@[j] == needle@[0] {
                    assert(haystack@.subrange(j, j + 1) =~= needle@);
                } else {
                    assert(haystack@.subrange(j, j + 1)[0] == haystack@[j]);
                }
            }
        }
        return r;
    }
    if needle.len() > haystack.len() {
        return None;
    }
    memmem_first(haystack, needle)
}

/// Scan a name from the start of `buf`, returning its length (at most
/// `max_len`) and the byte just after it, if any.
pub fn scan_name(buf: &[u8], max_len: usize) -> (r: (usize, Option<u8>))
    ensures
        bounded_scan(buf@, max_len as int, r.0 as int, name_stop()),
        r.1 == byte_at(buf@, r.0 as int),
{
    let mut len: usize = 0;
    while len < buf.len() && len < max_len
        invariant
            len <= buf.len(),
            len <= max_len,
            forall|i: int| 0 <= i < len ==> !is_name_delim(buf@[i]),
        decreases buf.len() - len,
    {
        let b = buf[len];
        if b == SP || b == TAB || b == CR || b == LF || b == SLASH || b == GT || b == EQ {
            return (len, Some(b));
        }
        len += 1;
    }
    let delim = if len < buf.len() {
        Some(buf[len])
    } else {
        None
    };
    (len, delim)
}

/// Index of the first `-->` in `haystack`.
pub fn find_comment_end(haystack: &[u8]) -> (r: Option<usize>)
    ensures
        first_occurrence_result(haystack@, comment_close(), r),
{
    let pat: [u8; 3] = [DASH, DASH, GT];
    assert(pat@ =~= comment_close());
    find_sequence(haystack, pat.as_slice())
}

/// Index of the first `]]>` in `haystack`.
pub fn find_cdata_end(haystack: &[u8]) -> (r: Option<usize>)
    ensures
        first_occurrence_result(haystack@, cdata_close(), r),
{
    let pat: [u8; 3] = [RBRACKET, RBRACKET, GT];
    assert(pat@ =~= cdata_close());
    find_sequence(haystack, pat.as_slice())
}

/// Index of the first `?>` in `haystack`.
pub fn find_pi_end(haystack: &[u8]) -> (r: Option<usize>)
    ensures
        first_occurrence_result(haystack@, pi_close(), r),
{
    let pat: [u8; 2] = [QMARK, GT];
    assert(pat@ =~= pi_close());
    find_sequence(haystack, pat.as_slice())
}


/// Where a scan of a quoted value stops when no closing quote is found in
/// time: at least past the opening quote, else the smaller of the length of
/// `buf` and `max_len`.
pub open spec fn quoted_scan_stop(buf: Seq<u8>, max_len: int) -> int {
    let m = if buf.len() < max_len { buf.len() as int } else { max_len };
    if m < 1 { 1 } else { m }
}

/// `r` is what `scan_attr_value` returns for `buf` and `max_len`.
pub open spec fn attr_value_scan(buf: Seq<u8>, max_len: int, r: (usize, Option<u8>)) -> bool {
    if buf.len() == 0 {
        r == (0usize, None::<u8>)
    } else if is_quote(buf[0]) {
        let q = buf[0];
        if exists|k: int| 1 <= k < buf.len() && k < max_len && buf[k] == q {
            &&& r.1 == Some(q)
            &&& 2 <= r.0 <= buf.len()
            &&& r.0 - 1 < max_len
            &&& buf[r.0 - 1] == q
            &&& forall|j: int| 1 <= j < r.0 - 1 ==> buf[j] != q
        } else {
            let stop = quoted_scan_stop(buf, max_len);
            &&& r.0 == (if stop < max_len { stop } else { max_len })
            &&& r.1 == byte_at(buf, stop)
        }
    } else {
        &&& bounded_scan(buf, max_len, r.0 as int, value_stop())
        &&& r.1 == byte_at(buf, r.0 as int)
    }
}

/// Scan an attribute value from the start of `buf`. A quoted value runs to
/// its matching quote (included in the length); an unquoted one stops at
/// whitespace, `>` or `/`. The length is clamped to `max_len`; the second
/// component is the byte that ended the scan, if any.
pub fn scan_attr_value(buf: &[u8], max_len: usize) -> (r: (usize, Option<u8>))
    ensures
        attr_value_scan(buf@, max_len as int, r),
{
    if buf.len() == 0 {
        return (0, None);
    }
    let first = buf[0];
    let mut len: usize = 0;
    if first == APOS || first == QUOT {
        len = 1;
        while len < buf.len() && len < max_len
            invariant
                1 <= len <= buf.len(),
                len <= max_len || len == 1,
                first == buf@[0],
                first == APOS || first == QUOT,
                forall|j: int| 1 <= j < len ==> buf@[j] != first,
            decreases buf.len() - len,
        {
            if buf[len] == first {
                assert(1 <= len < buf@.len() && len < max_len && buf@[len as int] == first);
                return (len + 1, Some(first));
            }
            len += 1;
        }
        assert(len == quoted_scan_stop(buf@, max_len as int));
        assert(!exists|k: int| 1 <= k < buf@.len() && k < max_len && buf@[k] == first);
        let delim = if len < buf.len() {
            Some(buf[len])
        } else {
            None
        };
        (if len < max_len { len } else { max_len }, delim)
    } else {
        while len < buf.len() && len < max_len
            invariant
                len <= buf.len(),
                len <= max_len,
                buf@.len() > 0,
                !is_quote(buf@[0]),
                forall|i: int| 0 <= i < len ==> !is_value_delim(buf@[i]),
            decreases buf.len() - len,
        {
            let b = buf[len];
            if b == SP || b == TAB || b == CR || b == LF || b == GT || b == SLASH {
                assert(is_value_delim(buf@[len as int]));
                return (len, Some(b));
            }
            len += 1;
        }
        let delim = if len < buf.len() {
            Some(buf[len])
        } else {
            None
        };
        (len, delim)
    }
}

/// The length of a construct at the front of `hay` that opens with `open`
/// and closes with `close`: when `hay` starts with `open`, the end of the
/// first `close` after it; `None` when `hay` does not start with `open` or
/// no `close` follows.
pub open spec fn construct_len(hay: Seq<u8>, open: Seq<u8>, close: Seq<u8>) -> Option<int> {
    if hay.len() >= open.len() && hay.take(open.len() as int) == open {
        match first_occurrence(hay.skip(open.len() as int), close) {
            Some(k) => Some(open.len() + k + close.len()),
            None => None,
        }
    } else {
        None
    }
}

/// `<!--`.
pub open spec fn comment_open_seq() -> Seq<u8> {
    seq![LT, 0x21u8, DASH, DASH]
}

/// `<![CDATA[`.
pub open spec fn cdata_open_seq() -> Seq<u8> {
    seq![LT, 0x21u8, 0x5bu8, 0x43u8, 0x44u8, 0x41u8, 0x54u8, 0x41u8, 0x5bu8]
}

/// `<?`.
pub open spec fn pi_open_seq() -> Seq<u8> {
    seq![LT, QMARK]
}

/// The length of the construct at the front of `haystack` that opens with
/// `open` and closes with `close`.
fn consume_construct(haystack: &[u8], open: &[u8], close: &[u8]) -> (r: Option<usize>)
    requires
        close@.len() > 0,
    ensures
        match construct_len(haystack@, open@, close@) {
            Some(n) => r == Some(n as usize),
            None => r is None,
        },
{
    if haystack.len() < open.len() {
        return None;
    }
    let head = &haystack[0..open.len()];
    assert(head@ =~= haystack@.take(open@.len() as int));
    if !crate::slice_parser::bytes_eq(head, open) {
        return None;
    }
    let rest = &haystack[open.len()..haystack.len()];
    assert(rest@ =~= haystack@.skip(open@.len() as int));
    let found = find_sequence(rest, close);
    proof { lemma_first_occurrence(rest@, close@, found); }
    match found {
        Some(k) => {
            proof { lemma_first_occurrence_props(rest@, close@); }
            assert(occurs_at(rest@, close@, k as int));
            let cl = close.len();
            let ol = open.len();
            let rl = rest.len();
            assert(k + cl <= rl);
            Some(ol + k + cl)
        },
        None => None,
    }
}

/// Consume a comment starting at the beginning of `haystack`: the number of
/// bytes through the `-->` that closes the `<!--` it starts with, or `None`
/// when it does not start with `<!--` or the comment is not closed.
pub fn consume_comment(haystack: &[u8]) -> (r: Option<usize>)
    ensures
        match construct_len(haystack@, comment_open_seq(), comment_close()) {
            Some(n) => r == Some(n as usize),
            None => r is None,
        },
{
    let open: [u8; 4] = [LT, 0x21, DASH, DASH];
    let close: [u8; 3] = [DASH, DASH, GT];
    assert(open@ =~= comment_open_seq());
    assert(close@ =~= comment_close());
    consume_construct(haystack, open.as_slice(), close.as_slice())
}

/// Consume a CDATA section starting at the beginning of `haystack`: the
/// number of bytes through the `]]>` that closes the `<![CDATA[` it starts
/// with, or `None` when it does not start with that or the section is not
/// closed.
pub fn consume_cdata(haystack: &[u8]) -> (r: Option<usize>)
    ensures
        match construct_len(haystack@, cdata_open_seq(), cdata_close()) {
            Some(n) => r == Some(n as usize),
            None => r is None,
        },
{
    let open: [u8; 9] = [LT, 0x21, 0x5b, 0x43, 0x44, 0x41, 0x54, 0x41, 0x5b];
    let close: [u8; 3] = [RBRACKET, RBRACKET, GT];
    assert(open@ =~= cdata_open_seq());
    assert(close@ =~= cdata_close());
    consume_construct(haystack, open.as_slice(), close.as_slice())
}

/// Consume a processing instruction starting at the beginning of
/// `haystack`: the number of bytes through the `?>` that closes the `<?` it
/// starts with, or `None` when it does not start with `<?` or the
/// instruction is not closed.
pub fn consume_pi(haystack: &[u8]) -> (r: Option<usize>)
    ensures
        match construct_len(haystack@, pi_open_seq(), pi_close()) {
            Some(n) => r == Some(n as usize),
            None => r is None,
        },
{
    let open: [u8; 2] = [LT, QMARK];
    let close: [u8; 2] = [QMARK, GT];
    assert(open@ =~= pi_open_seq());
    assert(close@ =~= pi_close());
    consume_construct(haystack, open.as_slice(), close.as_slice())
}

/// `data` holds an entity reference: an `&` with a `;` somewhere after it.
pub open spec fn has_entity_ref(data: Seq<u8>) -> bool {
    exists|i: int, j: int| 0 <= i < j < data.len() && data[i] == AMP && data[j] == SEMI
}

/// Whether `data` holds an entity reference (`&...;`): an `&` later
/// followed by a `;`.
pub fn contains_entities(data: &[u8]) -> (r: bool)
    ensures
        r == has_entity_ref(data@),
{
    let mut i: usize = 0;
    while i < data.len() && data[i] != AMP
        invariant
            i <= data.len(),
            forall|j: int| 0 <= j < i ==> data@[j] != AMP,
        decreases data.len() - i,
    {
        i += 1;
    }
    if i == data.len() {
        return false;
    }
    let mut j: usize = i + 1;
    while j < data.len()
        invariant
            i < j <= data.len(),
            data@[i as int] == AMP,
            forall|k: int| 0 <= k < i ==> data@[k] != AMP,
            forall|k: int| i < k < j ==> data@[k] != SEMI,
        decreases data.len() - j,
    {
        if data[j] == SEMI {
            return true;
        }
        j += 1;
    }
    assert forall|a: int, b: int| 0 <= a < b < data@.len() && data@[a] == AMP implies data@[b] != SEMI by {
        assert(a >= i);
    }
    false
}

/// The outcome of parsing a run of attributes: the `(name, value)` pairs, the
/// position just past what was consumed, and whether the attribute limit was
/// hit or a name or value was cut short.
pub struct AttrScan {
    pub attrs: Seq<(Seq<u8>, Seq<u8>)>,
    pub end: int,
    pub hit_limit: bool,
    pub name_truncated: bool,
    pub value_truncated: bool,
}

/// The position of the first non-whitespace byte of `s` at or after `i`.
pub open spec fn ws_end(s: Seq<u8>, i: int) -> int {
    i + run_from(s, i, ws_stop())
}

/// The smaller of two integers.
pub open spec fn min_int(a: int, b: int) -> int {
    if a < b { a } else { b }
}

/// The length that `scan_attr_value` reports for the value starting at `p`.
pub open spec fn value_len(s: Seq<u8>, p: int, maxv: int) -> int {
    if is_quote(s[p]) {
        let c = run_from(s, p + 1, quote_stop(s[p])) as int;
        if p + 1 + c < s.len() && 1 + c < maxv {
            c + 2
        } else {
            let m = min_int(s.len() - p, maxv);
            min_int(if m < 1 { 1 } else { m }, maxv)
        }
    } else {
        min_int(run_from(s, p, value_stop()) as int, maxv)
    }
}

/// The attribute value starting at `p` (quotes stripped), the number of bytes
/// it occupies (running on to the closing quote or delimiter when the value
/// was cut at `maxv`), and whether it was cut short.
pub open spec fn value_at(s: Seq<u8>, p: int, maxv: int) -> (Seq<u8>, int, bool) {
    let vlen = value_len(s, p, maxv);
    if vlen <= 0 {
        (Seq::<u8>::empty(), 0, false)
    } else if is_quote(s[p]) {
        let value = if vlen >= 2 { s.subrange(p + 1, p + vlen - 1) } else { Seq::<u8>::empty() };
        let full = if vlen == maxv {
            let t = run_from(s, p + vlen, quote_stop(s[p])) as int;
            if p + vlen + t < s.len() { vlen + t + 1 } else { vlen + t }
        } else {
            vlen
        };
        (value, full, full > vlen)
    } else {
        let full = if vlen == maxv { vlen + run_from(s, p + vlen, value_stop()) } else { vlen };
        (s.subrange(p, p + vlen), full, full > vlen)
    }
}

/// The bytes an attribute value occupies stay inside `s`.
pub proof fn lemma_value_at_bounds(s: Seq<u8>, p: int, maxv: int)
    requires
        0 <= p < s.len(),
    ensures
        0 <= value_len(s, p, maxv) ==> value_len(s, p, maxv) <= s.len() - p,
        0 <= value_at(s, p, maxv).1 <= s.len() - p,
        value_at(s, p, maxv).0.len() <= (if maxv < 0 { 0 } else { maxv }),
{
    lemma_run_props(s, p, value_stop());
    if p + 1 <= s.len() {
        lemma_run_props(s, p + 1, quote_stop(s[p]));
    }
    let vlen = value_len(s, p, maxv);
    if 0 <= vlen <= s.len() - p {
        lemma_run_props(s, p + vlen, value_stop());
        lemma_run_props(s, p + vlen, quote_stop(s[p]));
    }
}

/// One step of attribute parsing at `pos`: stop (with the end position and
/// whether the attribute limit was hit), a last attribute with no value
/// because the input ended after `=`, or an attribute followed by more input.
pub enum AttrStep {
    Stop { end: int, hit: bool },
    Last { name: Seq<u8>, end: int, ntr: bool },
    More { name: Seq<u8>, value: Seq<u8>, next: int, ntr: bool, vtr: bool },
}

/// The step of attribute parsing taken at `pos` when `count` attributes have
/// been parsed already.
pub open spec fn attr_step(s: Seq<u8>, pos: int, maxn: int, maxv: int, maxa: int, count: int) -> AttrStep {
    let p1 = ws_end(s, pos);
    if p1 >= s.len() {
        AttrStep::Stop { end: p1, hit: false }
    } else if s[p1] == GT {
        AttrStep::Stop { end: p1 + 1, hit: false }
    } else if p1 + 1 < s.len() && s[p1] == SLASH && s[p1 + 1] == GT {
        AttrStep::Stop { end: p1 + 2, hit: false }
    } else if count >= maxa {
        AttrStep::Stop { end: p1, hit: true }
    } else {
        let nlen = min_int(run_from(s, p1, name_stop()) as int, maxn);
        if nlen <= 0 {
            AttrStep::Stop { end: p1, hit: false }
        } else {
            let full = if nlen == maxn { nlen + run_from(s, p1 + nlen, name_stop()) } else { nlen };
            let name = s.subrange(p1, p1 + nlen);
            let p3 = ws_end(s, p1 + full);
            if p3 >= s.len() || s[p3] != EQ {
                AttrStep::More { name, value: Seq::<u8>::empty(), next: p3, ntr: full > nlen, vtr: false }
            } else {
                let p5 = ws_end(s, p3 + 1);
                if p5 >= s.len() {
                    AttrStep::Last { name, end: p5, ntr: full > nlen }
                } else {
                    let v = value_at(s, p5, maxv);
                    AttrStep::More { name, value: v.0, next: p5 + v.1, ntr: full > nlen, vtr: v.2 }
                }
            }
        }
    }
}

/// A step that continues moves forward and stays inside `s`.
pub proof fn lemma_attr_step_progress(s: Seq<u8>, pos: int, maxn: int, maxv: int, maxa: int, count: int)
    requires
        0 <= pos <= s.len(),
    ensures
        attr_step(s, pos, maxn, maxv, maxa, count) matches AttrStep::More { next, .. } ==> pos < next <= s.len(),
        attr_step(s, pos, maxn, maxv, maxa, count) matches AttrStep::Stop { end, .. } ==> pos <= end <= s.len(),
        attr_step(s, pos, maxn, maxv, maxa, count) matches AttrStep::Last { end, .. } ==> pos <= end <= s.len(),
{
    lemma_run_props(s, pos, ws_stop());
    let p1 = ws_end(s, pos);
    if p1 < s.len() {
        lemma_run_props(s, p1, name_stop());
        let nlen = min_int(run_from(s, p1, name_stop()) as int, maxn);
        if nlen > 0 {
            lemma_run_props(s, p1 + nlen, name_stop());
            let full = if nlen == maxn { nlen + run_from(s, p1 + nlen, name_stop()) } else { nlen };
            lemma_run_props(s, p1 + full, ws_stop());
            let p3 = ws_end(s, p1 + full);
            if p3 < s.len() {
                lemma_run_props(s, p3 + 1, ws_stop());
                let p5 = ws_end(s, p3 + 1);
                if p5 < s.len() {
                    lemma_value_at_bounds(s, p5, maxv);
                }
            }
        }
    }
}

/// The attributes parsed from `s` starting at `pos`, with `count` attributes
/// already parsed before.
pub open spec fn attrs_from(s: Seq<u8>, pos: int, maxn: int, maxv: int, maxa: int, count: int) -> AttrScan
    decreases s.len() - pos,
{
    let none = Seq::<(Seq<u8>, Seq<u8>)>::empty();
    if pos < 0 || pos > s.len() {
        AttrScan { attrs: none, end: pos, hit_limit: false, name_truncated: false, value_truncated: false }
    } else {
        proof { lemma_attr_step_progress(s, pos, maxn, maxv, maxa, count); }
        match attr_step(s, pos, maxn, maxv, maxa, count) {
            AttrStep::Stop { end, hit } => AttrScan {
                attrs: none,
                end: end,
                hit_limit: hit,
                name_truncated: false,
                value_truncated: false,
            },
            AttrStep::Last { name, end, ntr } => AttrScan {
                attrs: seq![(name, Seq::<u8>::empty())],
                end: end,
                hit_limit: false,
                name_truncated: ntr,
                value_truncated: false,
            },
            AttrStep::More { name, value, next, ntr, vtr } => {
                let r = attrs_from(s, next, maxn, maxv, maxa, count + 1);
                AttrScan {
                    attrs: seq![(name, value)] + r.attrs,
                    end: r.end,
                    hit_limit: r.hit_limit,
                    name_truncated: ntr || r.name_truncated,
                    value_truncated: vtr || r.value_truncated,
                }
            },
        }
    }
}

/// `acc` followed by `rest`: what has been parsed so far, then what parsing
/// the remainder yields.
pub open spec fn attr_scan_then(acc: Seq<(Seq<u8>, Seq<u8>)>, ntr: bool, vtr: bool, rest: AttrScan) -> AttrScan {
    AttrScan {
        attrs: acc + rest.attrs,
        end: rest.end,
        hit_limit: rest.hit_limit,
        name_truncated: ntr || rest.name_truncated,
        value_truncated: vtr || rest.value_truncated,
    }
}

/// Whether `b` ends a name.
pub fn name_delim_byte(b: u8) -> (r: bool)
    ensures
        r == is_name_delim(b),
{
    b == SP || b == TAB || b == CR || b == LF || b == SLASH || b == GT || b == EQ
}

/// Whether `b` ends an unquoted attribute value.
pub fn value_delim_byte(b: u8) -> (r: bool)
    ensures
        r == is_value_delim(b),
{
    b == SP || b == TAB || b == CR || b == LF || b == GT || b == SLASH
}

/// Position just past the whitespace of `buf` starting at `pos`.
fn skip_ws_at(buf: &[u8], pos: usize) -> (r: usize)
    requires
        pos <= buf@.len(),
    ensures
        r == ws_end(buf@, pos as int),
{
    let mut i = pos;
    while i < buf.len() && (buf[i] == SP || buf[i] == TAB || buf[i] == CR || buf[i] == LF)
        invariant
            pos <= i <= buf@.len(),
            forall|j: int| pos <= j < i ==> !(ws_stop())(buf@[j]),
        decreases buf.len() - i,
    {
        i += 1;
    }
    proof { lemma_run_unique(buf@, pos as int, ws_stop(), i - pos); }
    i
}

/// Position of the first name delimiter of `buf` at or after `pos`.
fn name_run_end(buf: &[u8], pos: usize) -> (r: usize)
    requires
        pos <= buf@.len(),
    ensures
        r == pos + run_from(buf@, pos as int, name_stop()),
{
    let mut i = pos;
    while i < buf.len() && !name_delim_byte(buf[i])
        invariant
            pos <= i <= buf@.len(),
            forall|j: int| pos <= j < i ==> !(name_stop())(buf@[j]),
        decreases buf.len() - i,
    {
        i += 1;
    }
    proof { lemma_run_unique(buf@, pos as int, name_stop(), i - pos); }
    i
}

/// Position of the first unquoted-value delimiter of `buf` at or after `pos`.
fn value_run_end(buf: &[u8], pos: usize) -> (r: usize)
    requires
        pos <= buf@.len(),
    ensures
        r == pos + run_from(buf@, pos as int, value_stop()),
{
    let mut i = pos;
    while i < buf.len() && !value_delim_byte(buf[i])
        invariant
            pos <= i <= buf@.len(),
            forall|j: int| pos <= j < i ==> !(value_stop())(buf@[j]),
        decreases buf.len() - i,
    {
        i += 1;
    }
    proof { lemma_run_unique(buf@, pos as int, value_stop(), i - pos); }
    i
}

/// Position of the first byte `q` of `buf` at or after `pos`, or the end.
fn quote_run_end(buf: &[u8], pos: usize, q: u8) -> (r: usize)
    requires
        pos <= buf@.len(),
    ensures
        r == pos + run_from(buf@, pos as int, quote_stop(q)),
{
    let mut i = pos;
    while i < buf.len() && buf[i] != q
        invariant
            pos <= i <= buf@.len(),
            forall|j: int| pos <= j < i ==> !(quote_stop(q))(buf@[j]),
        decreases buf.len() - i,
    {
        i += 1;
    }
    proof { lemma_run_unique(buf@, pos as int, quote_stop(q), i - pos); }
    i
}

/// A copy of `buf[a..b]`.
pub fn copy_range(buf: &[u8], a: usize, b: usize) -> (v: Vec<u8>)
    requires
        a <= b <= buf@.len(),
    ensures
        v@ == buf@.subrange(a as int, b as int),
{
    let mut v: Vec<u8> = Vec::new();
    let mut i = a;
    while i < b
        invariant
            a <= i <= b,
            b <= buf@.len(),
            v@ == buf@.subrange(a as int, i as int),
        decreases b - i,
    {
        v.push(buf[i]);
        i += 1;
        assert(v@ =~= buf@.subrange(a as int, i as int));
    }
    v
}

/// The length `scan_attr_value` reports on the tail of `s` from `p` is
/// `value_len(s, p, maxv)`.
pub proof fn lemma_value_len(s: Seq<u8>, p: int, maxv: int, r: (usize, Option<u8>))
    requires
        0 <= p < s.len(),
        0 <= maxv,
        attr_value_scan(s.subrange(p, s.len() as int), maxv, r),
    ensures
        r.0 == value_len(s, p, maxv),
{
    let sub = s.subrange(p, s.len() as int);
    assert(sub[0] == s[p]);
    if !is_quote(s[p]) {
        lemma_bounded_scan_run(s, p, maxv, r.0 as int, value_stop());
    } else {
        let q = s[p];
        lemma_run_props(s, p + 1, quote_stop(q));
        let c = run_from(s, p + 1, quote_stop(q)) as int;
        if exists|k: int| 1 <= k < sub.len() && k < maxv && sub[k] == q {
            let l = r.0 - 2;
            assert forall|j: int| p + 1 <= j < p + 1 + l implies !(quote_stop(q))(s[j]) by {
                assert(sub[j - p] == s[j]);
            }
            assert(sub[r.0 - 1] == s[p + r.0 - 1]);
            lemma_run_unique(s, p + 1, quote_stop(q), l);
        } else {
            if p + 1 + c < s.len() && 1 + c < maxv {
                assert(sub[1 + c] == s[p + 1 + c]);
                assert(1 <= 1 + c < sub.len() && 1 + c < maxv && sub[1 + c] == q);
            }
        }
    }
}

/// One step of attribute parsing, carrying where in the input the name and
/// value it produced lie.
pub enum AttrSpan {
    Stop { end: usize, hit: bool },
    Last { name_start: usize, name_end: usize, end: usize, ntr: bool },
    More {
        name_start: usize,
        name_end: usize,
        value_start: usize,
        value_end: usize,
        next: usize,
        ntr: bool,
        vtr: bool,
    },
}

/// `e` locates in `s` the same results as the step `sp`.
pub open spec fn span_step_is(e: AttrSpan, s: Seq<u8>, sp: AttrStep) -> bool {
    match (e, sp) {
        (AttrSpan::Stop { end, hit }, AttrStep::Stop { end: e2, hit: h2 }) => end == e2 && hit == h2,
        (AttrSpan::Last { name_start, name_end, end, ntr }, AttrStep::Last { name: n2, end: e2, ntr: t2 }) =>
            name_start <= name_end <= s.len() && s.subrange(name_start as int, name_end as int) == n2
                && end == e2 && ntr == t2,
        (
            AttrSpan::More { name_start, name_end, value_start, value_end, next, ntr, vtr },
            AttrStep::More { name: n2, value: v2, next: x2, ntr: t2, vtr: w2 },
        ) => name_start <= name_end <= s.len() && s.subrange(name_start as int, name_end as int) == n2
            && value_start <= value_end <= s.len() && s.subrange(value_start as int, value_end as int) == v2
            && next == x2 && ntr == t2 && vtr == w2,
        _ => false,
    }
}

/// Take one step of attribute parsing at `pos`, locating its name and value.
#[verifier::spinoff_prover]
#[verifier::rlimit(50)]
pub fn attr_step_span(
    buf: &[u8],
    pos: usize,
    max_name_len: usize,
    max_value_len: usize,
    max_attrs: usize,
    count: usize,
) -> (r: AttrSpan)
    requires
        pos <= buf@.len(),
    ensures
        span_step_is(r, buf@, attr_step(buf@, pos as int, max_name_len as int, max_value_len as int, max_attrs as int, count as int)),
{
    let ghost maxv = max_value_len as int;
    proof { lemma_run_props(buf@, pos as int, ws_stop()); }
    let p1 = skip_ws_at(buf, pos);
    if p1 >= buf.len() {
        return AttrSpan::Stop { end: p1, hit: false };
    }
    if buf[p1] == GT {
        return AttrSpan::Stop { end: p1 + 1, hit: false };
    }
    if p1 + 1 < buf.len() && buf[p1] == SLASH && buf[p1 + 1] == GT {
        return AttrSpan::Stop { end: p1 + 2, hit: false };
    }
    if count >= max_attrs {
        return AttrSpan::Stop { end: p1, hit: true };
    }
    let (name_len, _name_delim) = scan_name(&buf[p1..buf.len()], max_name_len);
    proof {
        lemma_bounded_scan_run(buf@, p1 as int, max_name_len as int, name_len as int, name_stop());
        lemma_run_props(buf@, p1 as int, name_stop());
    }
    if name_len == 0 {
        return AttrSpan::Stop { end: p1, hit: false };
    }
    let mut full = name_len;
    if name_len == max_name_len {
        proof { lemma_run_props(buf@, (p1 + name_len) as int, name_stop()); }
        let e = name_run_end(buf, p1 + name_len);
        full = e - p1;
    }
    let ntr = full > name_len;
    proof { lemma_run_props(buf@, (p1 + full) as int, ws_stop()); }
    let p3 = skip_ws_at(buf, p1 + full);
    if p3 >= buf.len() || buf[p3] != EQ {
        proof {
            assert(buf@.subrange(p3 as int, p3 as int) =~= Seq::<u8>::empty());
        }
        return AttrSpan::More {
            name_start: p1,
            name_end: p1 + name_len,
            value_start: p3,
            value_end: p3,
            next: p3,
            ntr,
            vtr: false,
        };
    }
    proof { lemma_run_props(buf@, (p3 + 1) as int, ws_stop()); }
    let p5 = skip_ws_at(buf, p3 + 1);
    if p5 >= buf.len() {
        return AttrSpan::Last { name_start: p1, name_end: p1 + name_len, end: p5, ntr };
    }
    let (vlen, vdelim) = scan_attr_value(&buf[p5..buf.len()], max_value_len);
    proof {
        lemma_value_len(buf@, p5 as int, maxv, (vlen, vdelim));
        lemma_value_at_bounds(buf@, p5 as int, maxv);
    }
    let mut vs: usize = p5;
    let mut ve: usize = p5;
    let mut full_v: usize = 0;
    if vlen > 0 {
        full_v = vlen;
        let q = buf[p5];
        if q == APOS || q == QUOT {
            if vlen == max_value_len {
                proof { lemma_run_props(buf@, (p5 + vlen) as int, quote_stop(q)); }
                let t = quote_run_end(buf, p5 + vlen, q);
                full_v = if t < buf.len() { t + 1 - p5 } else { t - p5 };
            }
            if vlen >= 2 {
                vs = p5 + 1;
                ve = p5 + vlen - 1;
            }
        } else {
            if vlen == max_value_len {
                proof { lemma_run_props(buf@, (p5 + vlen) as int, value_stop()); }
                let t = value_run_end(buf, p5 + vlen);
                full_v = t - p5;
            }
            ve = p5 + vlen;
        }
    }
    assert(buf@.subrange(vs as int, ve as int) =~= value_at(buf@, p5 as int, maxv).0);
    AttrSpan::More {
        name_start: p1,
        name_end: p1 + name_len,
        value_start: vs,
        value_end: ve,
        next: p5 + full_v,
        ntr,
        vtr: full_v > vlen,
    }
}

/// Parse consecutive `name=value` attribute pairs from `buf` until `>` or
/// `/>` is reached or a limit stops it. Returns the pairs (quotes stripped,
/// names cut to `max_name_len`, values cut to `max_value_len`), the number of
/// bytes consumed, and whether the attribute limit was hit, a name was cut and
/// a value was cut.
pub fn parse_attributes(
    buf: &[u8],
    max_name_len: usize,
    max_value_len: usize,
    max_attrs: usize,
) -> (r: (Vec<(Vec<u8>, Vec<u8>)>, usize, bool, bool, bool))
    ensures
        ({
            let spec = attrs_from(buf@, 0, max_name_len as int, max_value_len as int, max_attrs as int, 0);
            &&& r.0.deep_view() == spec.attrs
            &&& r.1 == spec.end
            &&& r.2 == spec.hit_limit
            &&& r.3 == spec.name_truncated
            &&& r.4 == spec.value_truncated
        }),
        r.1 <= buf@.len(),
        r.0@.len() <= max_attrs,
        forall|i: int| 0 <= i < r.0@.len() ==> 0 < (#[trigger] r.0@[i]).0@.len() <= max_name_len && r.0@[i].1@.len() <= max_value_len,
{
    proof { lemma_attrs_within_limits(buf@, 0, max_name_len as int, max_value_len as int, max_attrs as int, 0); }
    let ghost maxn = max_name_len as int;
    let ghost maxv = max_value_len as int;
    let ghost maxa = max_attrs as int;
    let mut out: Vec<(Vec<u8>, Vec<u8>)> = Vec::new();
    let mut pos: usize = 0;
    let mut hit_limit = false;
    let mut ntr = false;
    let mut vtr = false;
    let ghost total = attrs_from(buf@, 0, maxn, maxv, maxa, 0);
    assert(out.deep_view() =~= Seq::<(Seq<u8>, Seq<u8>)>::empty());
    assert(Seq::<(Seq<u8>, Seq<u8>)>::empty() + total.attrs =~= total.attrs);
    loop
        invariant_except_break
            pos <= buf@.len(),
            !hit_limit,
            total == attr_scan_then(out.deep_view(), ntr, vtr, attrs_from(buf@, pos as int, maxn, maxv, maxa, out.len() as int)),
        invariant
            maxn == max_name_len,
            maxv == max_value_len,
            maxa == max_attrs,
        ensures
            total == (AttrScan {
                attrs: out.deep_view(),
                end: pos as int,
                hit_limit: hit_limit,
                name_truncated: ntr,
                value_truncated: vtr,
            }),
        decreases buf.len() - pos,
    {
        let ghost old_out = out.deep_view();
        let ghost count = out.len() as int;
        proof { lemma_attr_step_progress(buf@, pos as int, maxn, maxv, maxa, count); }
        let ghost sp = attr_step(buf@, pos as int, maxn, maxv, maxa, count);
        let step = attr_step_span(buf, pos, max_name_len, max_value_len, max_attrs, out.len());
        match step {
            AttrSpan::Stop { end, hit } => {
                pos = end;
                hit_limit = hit;
                assert(old_out + Seq::<(Seq<u8>, Seq<u8>)>::empty() =~= old_out);
                break;
            },
            AttrSpan::Last { name_start, name_end, end, ntr: nt } => {
                let name = copy_range(buf, name_start, name_end);
                let ghost entry = (name@, Seq::<u8>::empty());
                let empty: Vec<u8> = Vec::new();
                assert(empty.deep_view() =~= Seq::<u8>::empty());
                assert(name.deep_view() =~= name@);
                out.push((name, empty));
                assert(out.deep_view() =~= old_out.push(entry));
                assert(old_out + seq![entry] =~= old_out.push(entry));
                ntr = ntr || nt;
                pos = end;
                break;
            },
            AttrSpan::More { name_start, name_end, value_start, value_end, next, ntr: nt, vtr: vt } => {
                let name = copy_range(buf, name_start, name_end);
                let value = copy_range(buf, value_start, value_end);
                let ghost entry = (name@, value@);
                assert(name.deep_view() =~= name@);
                assert(value.deep_view() =~= value@);
                out.push((name, value));
                assert(out.deep_view() =~= old_out.push(entry));
                let ghost rest = attrs_from(buf@, next as int, maxn, maxv, maxa, count + 1);
                assert(old_out + (seq![entry] + rest.attrs) =~= old_out.push(entry) + rest.attrs);
                ntr = ntr || nt;
                vtr = vtr || vt;
                pos = next;
            },
        }
    }
    proof {
        assert forall|i: int| 0 <= i < out@.len() implies 0 < (#[trigger] out@[i]).0@.len() <= max_name_len
            && out@[i].1@.len() <= max_value_len by {
            assert(out.deep_view()[i] == (out@[i].0.deep_view(), out@[i].1.deep_view()));
        }
    }
    (out, pos, hit_limit, ntr, vtr)
}

/// What the limit flag and the names of an attribute scan from `pos` say,
/// with `count` attributes parsed before: the flag is set only once the
/// maximum is reached, and no name holds a byte that ends a name.
proof fn lemma_attrs_limit_names(s: Seq<u8>, pos: int, maxn: int, maxv: int, maxa: int, count: int)
    requires
        0 <= pos <= s.len(),
        0 <= count <= maxa,
        0 <= maxn,
    ensures
        attrs_from(s, pos, maxn, maxv, maxa, count).hit_limit ==> count
            + attrs_from(s, pos, maxn, maxv, maxa, count).attrs.len() == maxa,
        forall|i: int, j: int| 0 <= i < attrs_from(s, pos, maxn, maxv, maxa, count).attrs.len()
            && 0 <= j < attrs_from(s, pos, maxn, maxv, maxa, count).attrs[i].0.len()
            ==> !is_name_delim(#[trigger] attrs_from(s, pos, maxn, maxv, maxa, count).attrs[i].0[j]),
    decreases s.len() - pos,
{
    lemma_attr_step_progress(s, pos, maxn, maxv, maxa, count);
    lemma_run_props(s, pos, ws_stop());
    let p1 = ws_end(s, pos);
    let all = attrs_from(s, pos, maxn, maxv, maxa, count).attrs;
    if p1 < s.len() {
        lemma_run_props(s, p1, name_stop());
    }
    match attr_step(s, pos, maxn, maxv, maxa, count) {
        AttrStep::More { name, value, next, ntr, vtr } => {
            lemma_attrs_limit_names(s, next, maxn, maxv, maxa, count + 1);
            let r = attrs_from(s, next, maxn, maxv, maxa, count + 1);
            assert(all == seq![(name, value)] + r.attrs);
            assert forall|i: int, j: int| 0 <= i < all.len() && 0 <= j < all[i].0.len()
                implies !is_name_delim(#[trigger] all[i].0[j]) by {
                if i == 0 {
                    assert(all[0].0 == name);
                    assert(name[j] == s[p1 + j]);
                    assert(!(name_stop())(s[p1 + j]));
                } else {
                    assert(all[i] == r.attrs[i - 1]);
                }
            }
        },
        AttrStep::Last { name, end, ntr } => {
            assert forall|i: int, j: int| 0 <= i < all.len() && 0 <= j < all[i].0.len()
                implies !is_name_delim(#[trigger] all[i].0[j]) by {
                assert(all[0].0 == name);
                assert(name[j] == s[p1 + j]);
                assert(!(name_stop())(s[p1 + j]));
            }
        },
        AttrStep::Stop { .. } => {},
    }
}

/// When the attribute limit stops `parse_attributes`, exactly `max_attrs`
/// attributes have been parsed; and no parsed name holds whitespace, `/`,
/// `>` or `=`.
pub proof fn law_parse_attributes_limit(buf: Seq<u8>, max_name_len: nat, max_value_len: nat, max_attrs: nat)
    ensures
        ({
            let r = attrs_from(buf, 0, max_name_len as int, max_value_len as int, max_attrs as int, 0);
            &&& r.hit_limit ==> r.attrs.len() == max_attrs
            &&& forall|i: int, j: int| 0 <= i < r.attrs.len() && 0 <= j < r.attrs[i].0.len()
                ==> !is_name_delim(#[trigger] r.attrs[i].0[j])
        }),
{
    lemma_attrs_limit_names(buf, 0, max_name_len as int, max_value_len as int, max_attrs as int, 0);
}

/// Attribute parsing respects its limits: it never reads past the end of the
/// input, returns at most `maxa - count` attributes, and every name is
/// non-empty and at most `maxn` bytes, every value at most `maxv` bytes.
pub proof fn lemma_attrs_within_limits(s: Seq<u8>, pos: int, maxn: int, maxv: int, maxa: int, count: int)
    requires
        0 <= pos <= s.len(),
        0 <= count,
        0 <= maxn,
        0 <= maxv,
    ensures
        pos <= attrs_from(s, pos, maxn, maxv, maxa, count).end <= s.len(),
        count + attrs_from(s, pos, maxn, maxv, maxa, count).attrs.len() <= (if count > maxa { count } else { maxa }),
        forall|i: int| 0 <= i < attrs_from(s, pos, maxn, maxv, maxa, count).attrs.len() ==> {
            let a = #[trigger] attrs_from(s, pos, maxn, maxv, maxa, count).attrs[i];
            &&& 0 < a.0.len() <= maxn
            &&& a.1.len() <= maxv
        },
    decreases s.len() - pos,
{
    lemma_attr_step_progress(s, pos, maxn, maxv, maxa, count);
    lemma_run_props(s, pos, ws_stop());
    let p1 = ws_end(s, pos);
    if p1 < s.len() {
        lemma_run_props(s, p1, name_stop());
        let nlen = min_int(run_from(s, p1, name_stop()) as int, maxn);
        if nlen > 0 {
            lemma_run_props(s, p1 + nlen, name_stop());
            let full = if nlen == maxn { nlen + run_from(s, p1 + nlen, name_stop()) } else { nlen };
            lemma_run_props(s, p1 + full, ws_stop());
            let p3 = ws_end(s, p1 + full);
            if p3 < s.len() {
                lemma_run_props(s, p3 + 1, ws_stop());
                let p5 = ws_end(s, p3 + 1);
                if p5 < s.len() {
                    lemma_value_at_bounds(s, p5, maxv);
                }
            }
        }
    }
    match attr_step(s, pos, maxn, maxv, maxa, count) {
        AttrStep::More { name, value, next, ntr, vtr } => {
            lemma_attrs_within_limits(s, next, maxn, maxv, maxa, count + 1);
            let r = attrs_from(s, next, maxn, maxv, maxa, count + 1);
            let all = attrs_from(s, pos, maxn, maxv, maxa, count).attrs;
            assert(all == seq![(name, value)] + r.attrs);
            assert forall|i: int| 0 <= i < all.len() implies {
                let a = #[trigger] all[i];
                &&& 0 < a.0.len() <= maxn
                &&& a.1.len() <= maxv
            } by {
                if i > 0 {
                    assert(all[i] == r.attrs[i - 1]);
                }
            }
        },
        _ => {},
    }
}

} // verus!
