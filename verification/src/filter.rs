//! Filtering: find the elements with a given name in a byte source and hand
//! back each one's complete bytes, from its start tag through its matching
//! end tag.

use vstd::prelude::*;
use crate::input_buffer::InputBuffer;
use crate::search::{LT, GT, SLASH, BANG, QMARK, first_index, first_occurrence,
    lemma_first_index, lemma_first_occurrence, memchr_first};
use crate::slice_parser::{comment_open, cdata_open, opens_comment, opens_cdata, bytes_eq};
use crate::source::{ByteSource, SourceError};
use vstd::string::StringSliceAdditionalSpecFns;
use crate::tokenizer::{run_from, name_stop, is_name_delim, name_delim_byte, min_int, attrs_from, comment_close, cdata_close, pi_close,
    scan_name, parse_attributes, find_comment_end, find_cdata_end, find_pi_end, find_sequence,
    lemma_bounded_scan_run, lemma_run_unique, ws_stop};
use crate::search::lemma_first_index_props;
use crate::simd_scanner::is_name_byte;

verus! {

/// The size of the scanner's window.
pub const FILTER_BUF_SIZE: usize = 8192;

/// The name limit used when reading the attributes of a start tag.
pub const FILTER_MAX_ATTR_NAME: usize = 512;

/// The value limit used when reading the attributes of a start tag.
pub const FILTER_MAX_ATTR_VALUE: usize = 1024;

/// The attribute count limit used when reading a start tag.
pub const FILTER_MAX_ATTRS: usize = 1024;

/// The kind of a token met while extracting an element.
#[derive(Clone, Copy, PartialEq, Eq, Structural)]
pub enum TokKind {
    /// Bytes outside markup.
    Text,
    /// An end tag.
    End,
    /// A comment, CDATA section, processing instruction or declaration.
    Other,
    /// A start tag, possibly `/>`-closed.
    Start { self_closing: bool },
}

/// The token at the front of the window `w`: its length, its kind, and where
/// its name sits in `w` (names are cut to `cap` bytes). `None` when the
/// window does not hold the whole token.
#[verifier::opaque]
pub open spec fn tok_spec(w: Seq<u8>, cap: int) -> Option<(int, TokKind, int, int)> {
    if w.len() == 0 {
        None
    } else if w[0] != LT {
        Some((match first_index(w, LT) { Some(i) => i, None => w.len() as int }, TokKind::Text, 0, 0))
    } else if w.len() < 2 {
        None
    } else if w[1] == SLASH {
        let rest = w.subrange(2, w.len() as int);
        let nl = min_int(run_from(rest, 0, name_stop()) as int, cap);
        match first_index(rest, GT) {
            Some(g) => Some((g + 3, TokKind::End, 2, nl)),
            None => None,
        }
    } else if w[1] == BANG {
        if w.len() >= 4 && w.take(4) == comment_open() {
            match first_occurrence(w, comment_close()) {
                Some(e) => Some((e + 3, TokKind::Other, 0, 0)),
                None => None,
            }
        } else if w.len() >= 9 && w.take(9) == cdata_open() {
            match first_occurrence(w, cdata_close()) {
                Some(e) => Some((e + 3, TokKind::Other, 0, 0)),
                None => None,
            }
        } else {
            match first_index(w, GT) {
                Some(g) => Some((g + 1, TokKind::Other, 0, 0)),
                None => None,
            }
        }
    } else if w[1] == QMARK {
        match first_occurrence(w, pi_close()) {
            Some(e) => Some((e + 2, TokKind::Other, 0, 0)),
            None => None,
        }
    } else {
        let rest = w.subrange(1, w.len() as int);
        let nl = min_int(run_from(rest, 0, name_stop()) as int, cap);
        let after = rest.subrange(nl, rest.len() as int);
        let a = attrs_from(after, 0, FILTER_MAX_ATTR_NAME as int, FILTER_MAX_ATTR_VALUE as int, FILTER_MAX_ATTRS as int, 0);
        let end = 1 + nl + a.end;
        let sc = end >= 2 && w[end - 2] == SLASH && w[end - 1] == GT;
        Some((end, TokKind::Start { self_closing: sc }, 1, nl))
    }
}

/// The window at the front of `s`: at most `cap` bytes.
pub open spec fn window_of(s: Seq<u8>, cap: int) -> Seq<u8> {
    s.take(min_int(cap, s.len() as int))
}

/// How the depth changes for a token named `tname` of kind `kind`, and
/// whether the token closes the element.
pub open spec fn depth_after(kind: TokKind, tname: Seq<u8>, name: Seq<u8>, depth: int) -> (int, bool) {
    match kind {
        TokKind::End => if tname == name { (depth - 1, depth - 1 == 0) } else { (depth, false) },
        TokKind::Start { self_closing } => if tname == name {
            if self_closing { (depth, depth == 0) } else { (depth + 1, false) }
        } else {
            (depth, false)
        },
        _ => (depth, false),
    }
}

/// Where the element named `name` that starts at the front of `s` ends, read
/// token by token through windows of `cap` bytes with `depth` open elements
/// of that name (tag names are compared whole): the length of its bytes, or
/// `None` when the input ends (or a token does not fit in a window) first.
pub open spec fn walk(s: Seq<u8>, name: Seq<u8>, depth: int, cap: int) -> Option<int>
    decreases s.len(),
{
    let w = window_of(s, cap);
    match tok_spec(w, cap) {
        None => None,
        Some((l, kind, ns, nl)) => if l < 1 || l > s.len() {
            None
        } else {
            let (d2, done) = depth_after(kind, w.subrange(ns, ns + nl), name, depth);
            if done {
                Some(l)
            } else {
                match walk(s.skip(l), name, d2, cap) {
                    Some(e) => Some(l + e),
                    None => None,
                }
            }
        },
    }
}

/// The token at the front of `w`, as `tok_spec` describes it.
pub fn next_token(w: &[u8], cap: usize) -> (r: Option<(usize, TokKind, usize, usize)>)
    ensures
        match r {
            Some((l, k, ns, nl)) => tok_spec(w@, cap as int) == Some((l as int, k, ns as int, nl as int))
                && ns + nl <= w@.len() && l <= w@.len(),
            None => tok_spec(w@, cap as int) is None,
        },
{
    proof { reveal(tok_spec); }
    let wlen = w.len();
    if wlen == 0 {
        return None;
    }
    if w[0] != LT {
        let f = memchr_first(LT, w);
        proof { lemma_first_index(w@, LT, f); }
        let i = match f {
            Some(i) => i,
            None => wlen,
        };
        return Some((i, TokKind::Text, 0, 0));
    }
    if wlen < 2 {
        return None;
    }
    let second = w[1];
    if second == SLASH {
        let rest = &w[2..wlen];
        let (nl, _d) = scan_name(rest, cap);
        proof {
            assert(rest@.subrange(0, rest@.len() as int) =~= rest@);
            lemma_bounded_scan_run(rest@, 0, cap as int, nl as int, name_stop());
        }
        let f = memchr_first(GT, rest);
        proof { lemma_first_index(rest@, GT, f); }
        match f {
            Some(g) => Some((g + 3, TokKind::End, 2, nl)),
            None => None,
        }
    } else if second == BANG {
        if opens_comment(w) {
            let f = find_comment_end(w);
            proof { lemma_first_occurrence(w@, comment_close(), f); }
            match f {
                Some(e) => Some((e + 3, TokKind::Other, 0, 0)),
                None => None,
            }
        } else if opens_cdata(w) {
            let f = find_cdata_end(w);
            proof { lemma_first_occurrence(w@, cdata_close(), f); }
            match f {
                Some(e) => Some((e + 3, TokKind::Other, 0, 0)),
                None => None,
            }
        } else {
            let f = memchr_first(GT, w);
            proof { lemma_first_index(w@, GT, f); }
            match f {
                Some(g) => Some((g + 1, TokKind::Other, 0, 0)),
                None => None,
            }
        }
    } else if second == QMARK {
        let f = find_pi_end(w);
        proof { lemma_first_occurrence(w@, pi_close(), f); }
        match f {
            Some(e) => Some((e + 2, TokKind::Other, 0, 0)),
            None => None,
        }
    } else {
        let rest = &w[1..wlen];
        let (nl, _d) = scan_name(rest, cap);
        proof {
            assert(rest@.subrange(0, rest@.len() as int) =~= rest@);
            lemma_bounded_scan_run(rest@, 0, cap as int, nl as int, name_stop());
        }
        let after = &rest[nl..rest.len()];
        let (_attrs, consumed, _hit, _ntr, _vtr) = parse_attributes(after, FILTER_MAX_ATTR_NAME, FILTER_MAX_ATTR_VALUE, FILTER_MAX_ATTRS);
        let end = 1 + nl + consumed;
        let sc = end >= 2 && w[end - 2] == SLASH && w[end - 1] == GT;
        Some((end, TokKind::Start { self_closing: sc }, 1, nl))
    }
}


/// The offset `e` of a walk that has already read `c` bytes.
pub open spec fn offset_by(c: int, e: Option<int>) -> Option<int> {
    match e {
        Some(x) => Some(c + x),
        None => None,
    }
}

/// A scanner over a byte source that finds elements by name.
pub struct FilteringScanner<S: ByteSource> {
    reader: S,
    input: InputBuffer,
}

impl<S: ByteSource> FilteringScanner<S> {
    /// The bytes not yet consumed: the window, then the source.
    pub closed spec fn sv(&self) -> Seq<u8> {
        self.input.data() + self.reader.stream()
    }

    /// The window.
    pub closed spec fn window(&self) -> Seq<u8> {
        self.input.data()
    }

    /// Whether the source has ended.
    pub closed spec fn ended(&self) -> bool {
        self.input.at_eof()
    }

    /// Whether reading from the source never fails.
    pub closed spec fn reliable(&self) -> bool {
        self.reader.never_fails()
    }

    /// The parts agree with each other.
    pub closed spec fn wf(&self) -> bool {
        &&& self.input.wf()
        &&& self.input.cap() == FILTER_BUF_SIZE
        &&& self.input.at_eof() ==> self.reader.stream().len() == 0
    }

    /// A scanner over `reader`.
    pub fn new(reader: S) -> (r: Self)
        ensures
            r.wf(),
            r.sv() == reader.stream(),
            r.window().len() == 0,
            !r.ended(),
            r.reliable() == reader.never_fails(),
    {
        let input = InputBuffer::with_capacity(FILTER_BUF_SIZE);
        let r = FilteringScanner { reader, input };
        assert(r.sv() =~= r.reader.stream());
        r
    }

    /// Read until the window is full or the source has ended: then the
    /// window is the first `FILTER_BUF_SIZE` bytes not yet consumed.
    fn refill(&mut self) -> (r: Result<(), SourceError>)
        requires
            old(self).wf(),
        ensures
            final(self).wf(),
            r is Ok ==> final(self).sv() == old(self).sv(),
            r is Ok ==> final(self).window() == window_of(final(self).sv(), FILTER_BUF_SIZE as int),
            r is Ok ==> final(self).ended() || final(self).window().len() == FILTER_BUF_SIZE,
            r is Ok && final(self).ended() ==> final(self).window() == final(self).sv(),
            final(self).sv().len() <= old(self).sv().len(),
            old(self).ended() ==> final(self).ended(),
            old(self).ended() || old(self).window().len() == FILTER_BUF_SIZE ==> r is Ok
                && final(self).window() == old(self).window(),
            final(self).reliable() == old(self).reliable(),
            old(self).reliable() ==> r is Ok,
    {
        let ghost s0 = self.sv();
        loop
            invariant
                self.reliable() == old(self).reliable(),
                self.wf(),
                self.sv() == s0,
                s0 == old(self).sv(),
                old(self).ended() ==> self.ended(),
                old(self).ended() || old(self).window().len() == FILTER_BUF_SIZE ==> self.window() == old(self).window(),
            decreases self.input.cap() - self.window().len() + (if self.input.at_eof() { 0int } else { 1int }),
        {
            proof { self.input.lemma_fits(); }
            if self.input.len() >= self.input.capacity() || self.input.is_eof() {
                proof {
                    if self.input.at_eof() {
                        assert(self.sv() =~= self.window());
                        assert(window_of(self.sv(), FILTER_BUF_SIZE as int) =~= self.window());
                    } else {
                        assert(window_of(self.sv(), FILTER_BUF_SIZE as int) =~= self.window());
                    }
                }
                return Ok(());
            }
            let ghost d0 = self.window();
            let ghost st0 = self.reader.stream();
            match self.input.fill_from(&mut self.reader) {
                Ok(k) => {
                    proof {
                        assert(st0 =~= st0.take(k as int) + st0.skip(k as int));
                        assert(self.sv() =~= d0 + st0);
                        self.input.lemma_fits();
                    }
                },
                Err(e) => {
                    proof {
                        self.input.lemma_fits();
                    }
                    return Err(e);
                },
            }
        }
    }
}


/// `<` followed by `name`: the start of a start tag of that name.
pub open spec fn tag_pattern(name: Seq<u8>) -> Seq<u8> {
    seq![LT] + name
}

/// A start tag named exactly `name` begins at `i` in `s`: `<`, the name, and
/// a byte that ends a name (whitespace, `/`, `>` or `=`).
#[verifier::opaque]
pub open spec fn tag_at(s: Seq<u8>, name: Seq<u8>, i: int) -> bool {
    &&& 0 <= i
    &&& i + name.len() + 2 <= s.len()
    &&& s.subrange(i, i + name.len() + 1) == tag_pattern(name)
    &&& is_name_delim(s[i + name.len() + 1])
}

/// A tag lies inside the bytes it is found in.
proof fn lemma_tag_bounds(s: Seq<u8>, name: Seq<u8>, i: int)
    ensures
        tag_at(s, name, i) ==> 0 <= i && i + name.len() + 2 <= s.len(),
{
    reveal(tag_at);
}

/// Where the first start tag named exactly `name` begins in `s`, if any.
pub open spec fn first_tag(s: Seq<u8>, name: Seq<u8>) -> Option<int> {
    if exists|i: int| tag_at(s, name, i) {
        Some(choose|i: int| tag_at(s, name, i) && forall|j: int| 0 <= j < i ==> !tag_at(s, name, j))
    } else {
        None
    }
}

/// A tag at or before `w` implies a first one.
proof fn lemma_first_tag_exists(s: Seq<u8>, name: Seq<u8>, w: int)
    requires
        tag_at(s, name, w),
    ensures
        exists|i: int| tag_at(s, name, i) && forall|j: int| 0 <= j < i ==> !tag_at(s, name, j),
    decreases w,
{
    if exists|k: int| 0 <= k < w && tag_at(s, name, k) {
        let k = choose|k: int| 0 <= k < w && tag_at(s, name, k);
        lemma_first_tag_exists(s, name, k);
    }
}

/// A first tag is a tag with none before it; with none, there is no tag.
pub proof fn lemma_first_tag_props(s: Seq<u8>, name: Seq<u8>)
    ensures
        first_tag(s, name) matches Some(i) ==> tag_at(s, name, i) && forall|j: int| 0 <= j < i ==> !tag_at(s, name, j),
        first_tag(s, name) is None ==> forall|j: int| !tag_at(s, name, j),
{
    if exists|i: int| tag_at(s, name, i) {
        let w = choose|i: int| tag_at(s, name, i);
        lemma_first_tag_exists(s, name, w);
    }
}

/// A tag that fits in a prefix of `s` is a tag in `s`, and the other way.
proof fn lemma_tag_prefix(s: Seq<u8>, w: Seq<u8>, name: Seq<u8>, j: int)
    requires
        w.len() <= s.len(),
        w == s.take(w.len() as int),
        0 <= j,
        j + name.len() + 2 <= w.len(),
    ensures
        tag_at(s, name, j) == tag_at(w, name, j),
{
    reveal(tag_at);
    assert(s.subrange(j, j + name.len() + 1) =~= w.subrange(j, j + name.len() + 1));
    assert(s[j + name.len() + 1] == w[j + name.len() + 1]);
}

/// Tags in `s` after `c` bytes are tags in what follows them.
proof fn lemma_tag_skip(s: Seq<u8>, c: int, name: Seq<u8>, j: int)
    requires
        0 <= c <= s.len(),
        0 <= j,
    ensures
        tag_at(s, name, c + j) == tag_at(s.skip(c), name, j),
{
    reveal(tag_at);
    if c + j + name.len() + 2 <= s.len() {
        assert(s.subrange(c + j, c + j + name.len() + 1) =~= s.skip(c).subrange(j, j + name.len() + 1));
        assert(s[c + j + name.len() + 1] == s.skip(c)[j + name.len() + 1]);
    }
}

/// Where the first start tag named exactly `name` begins in `w`.
fn find_tag_in(w: &[u8], pat: &[u8]) -> (r: Option<usize>)
    requires
        pat@.len() > 0,
        pat@[0] == LT,
    ensures
        match r {
            Some(i) => tag_at(w@, pat@.skip(1), i as int) && i + pat@.len() + 1 <= w@.len() && forall|j: int| 0 <= j < i ==> !tag_at(w@, pat@.skip(1), j),
            None => forall|j: int| !tag_at(w@, pat@.skip(1), j),
        },
{
    let ghost name = pat@.skip(1);
    assert(tag_pattern(name) =~= pat@);
    let n = pat.len();
    if w.len() <= n {
        assert forall|j: int| !tag_at(w@, name, j) by {
            reveal(tag_at);
        }
        return None;
    }
    let mut i: usize = 0;
    while i < w.len() - n
        invariant
            n == pat@.len(),
            name == pat@.skip(1),
            n == name.len() + 1,
            tag_pattern(name) == pat@,
            n < w@.len(),
            i <= w@.len() - n,
            forall|j: int| 0 <= j < i ==> !tag_at(w@, name, j),
        decreases w.len() - n - i,
    {
        let piece = &w[i..i + n];
        assert(piece@ =~= w@.subrange(i as int, i + n));
        reveal(tag_at);
        if bytes_eq(piece, pat) && name_delim_byte(w[i + n]) {
            assert(tag_at(w@, name, i as int));
            return Some(i);
        }
        assert(!tag_at(w@, name, i as int)) by {
            if tag_at(w@, name, i as int) {
                assert(w@.subrange(i as int, i + name.len() + 1) == pat@);
            }
        }
        i += 1;
    }
    assert forall|j: int| !tag_at(w@, name, j) by {
        lemma_tag_bounds(w@, name, j);
    }
    None
}

/// No tag before `c` in `s0`, none in the window `w` of what follows before
/// `k`: none before `c + k` at all, when tags starting before `k` fit in `w`.
proof fn lemma_no_tag_through(s0: Seq<u8>, c: int, w: Seq<u8>, name: Seq<u8>, k: int)
    requires
        0 <= c <= s0.len(),
        w.len() <= s0.len() - c,
        w == s0.skip(c).take(w.len() as int),
        forall|j: int| 0 <= j < c ==> !tag_at(s0, name, j),
        forall|j: int| !tag_at(w, name, j),
        0 <= k,
        k + name.len() + 2 <= w.len() + 1,
    ensures
        forall|j: int| 0 <= j < c + k ==> !tag_at(s0, name, j),
{
    assert forall|j: int| 0 <= j < c + k implies !tag_at(s0, name, j) by {
        if j >= c {
            lemma_tag_skip(s0, c, name, j - c);
            lemma_tag_prefix(s0.skip(c), w, name, j - c);
        }
    }
}

/// No tag before `c` and none in the rest `w` of `s0`: none at all.
proof fn lemma_no_tag_at_end(s0: Seq<u8>, c: int, w: Seq<u8>, name: Seq<u8>)
    requires
        0 <= c <= s0.len(),
        w == s0.skip(c),
        forall|j: int| 0 <= j < c ==> !tag_at(s0, name, j),
        forall|j: int| !tag_at(w, name, j),
    ensures
        first_tag(s0, name) is None,
{
    assert forall|j: int| !tag_at(s0, name, j) by {
        lemma_tag_bounds(s0, name, j);
        if j >= c {
            lemma_tag_skip(s0, c, name, j - c);
        }
    }
    lemma_first_tag_props(s0, name);
}

/// A first tag in the window after `c` bytes, with none before, is the first
/// tag in `s0`.
proof fn lemma_tag_found_at(s0: Seq<u8>, c: int, w: Seq<u8>, name: Seq<u8>, i: int)
    requires
        0 <= c <= s0.len(),
        w.len() <= s0.len() - c,
        w == s0.skip(c).take(w.len() as int),
        forall|j: int| 0 <= j < c ==> !tag_at(s0, name, j),
        tag_at(w, name, i),
        forall|j: int| 0 <= j < i ==> !tag_at(w, name, j),
    ensures
        first_tag(s0, name) == Some(c + i),
{
    lemma_tag_bounds(w, name, i);
    lemma_tag_prefix(s0.skip(c), w, name, i);
    lemma_tag_skip(s0, c, name, i);
    assert forall|j: int| 0 <= j < c + i implies !tag_at(s0, name, j) by {
        if j >= c {
            lemma_tag_skip(s0, c, name, j - c);
            lemma_tag_prefix(s0.skip(c), w, name, j - c);
        }
    }
    lemma_first_tag_exists(s0, name, c + i);
    lemma_first_tag_props(s0, name);
    let f = first_tag(s0, name)->Some_0;
    lemma_tag_bounds(s0, name, f);
    if f < c + i {
        assert(!tag_at(s0, name, f));
    } else if f > c + i {
        assert(!tag_at(s0, name, c + i));
    }
}


impl<S: ByteSource> FilteringScanner<S> {
    /// Find the next start tag named exactly `name` (a `<`, `name`, and a
    /// byte that ends a name): bytes before it are consumed, and its offset
    /// in the window is returned.
    #[verifier::spinoff_prover]
    #[verifier::rlimit(40)]
    #[verifier::spinoff_prover]
    #[verifier::rlimit(100)]
    pub fn find_start_tag(&mut self, name: &[u8]) -> (r: Result<Option<usize>, SourceError>)
        requires
            old(self).wf(),
        ensures
            final(self).wf(),
            final(self).sv().len() <= old(self).sv().len(),
            r is Ok ==> old(self).sv() == old(self).sv().take(old(self).sv().len() - final(self).sv().len())
                + final(self).sv(),
            name@.len() == 0 ==> r == Ok::<Option<usize>, SourceError>(None),
            r matches Ok(Some(i)) ==> {
                let c = old(self).sv().len() - final(self).sv().len();
                &&& i + name@.len() + 2 <= final(self).window().len()
                &&& first_tag(old(self).sv(), name@) == Some(c + i)
            },
            r == Ok::<Option<usize>, SourceError>(None) && name@.len() > 0 ==> first_tag(old(self).sv(), name@) is None
                || name@.len() + 2 > FILTER_BUF_SIZE,
            old(self).ended() ==> r is Ok && final(self).ended(),
            final(self).reliable() == old(self).reliable(),
            old(self).reliable() ==> r is Ok,
    {
        if name.len() == 0 {
            return Ok(None);
        }
        let mut pat: Vec<u8> = Vec::new();
        pat.push(LT);
        let mut k: usize = 0;
        while k < name.len()
            invariant
                self.reliable() == old(self).reliable(),
                k <= name@.len(),
                pat@ == seq![LT] + name@.take(k as int),
            decreases name.len() - k,
        {
            pat.push(name[k]);
            k += 1;
            assert(pat@ =~= seq![LT] + name@.take(k as int));
        }
        assert(name@.take(name@.len() as int) =~= name@);
        let ghost tp = tag_pattern(name@);
        assert(pat@ == tp);
        let ghost s0 = self.sv();
        proof { assert(s0.take(0) + s0 =~= s0); }
        loop
            invariant
                self.reliable() == old(self).reliable(),
                self.wf(),
                s0 == old(self).sv(),
                pat@ == tp,
                tp.len() == name@.len() + 1,
                name@.len() > 0,
                tp == tag_pattern(name@),
                self.sv().len() <= s0.len(),
                s0 == s0.take(s0.len() - self.sv().len()) + self.sv(),
                forall|j: int| 0 <= j < s0.len() - self.sv().len() ==> !tag_at(s0, name@, j),
                old(self).ended() ==> self.ended(),
            decreases self.sv().len(),
        {
            match self.refill() {
                Err(e) => {
                    return Err(e);
                },
                Ok(()) => {},
            }
            let ghost c = s0.len() - self.sv().len();
            let ghost sv = self.sv();
            proof {
                assert(sv =~= s0.skip(c));
            }
            let w = self.input.as_slice();
            assert(pat@.skip(1) =~= name@);
            let found = find_tag_in(w, pat.as_slice());
            match found {
                Some(i) => {
                    proof {
                        assert(w@ == window_of(sv, FILTER_BUF_SIZE as int));
                        assert(w@ =~= s0.skip(c).take(w@.len() as int));
                        lemma_tag_found_at(s0, c, w@, name@, i as int);
                    }
                    return Ok(Some(i));
                },
                None => {
                    let wlen = w.len();
                    if self.input.is_eof() || wlen <= pat.len() {
                        proof {
                            if self.input.at_eof() {
                                assert(sv =~= w@);
                                lemma_no_tag_at_end(s0, c, w@, name@);
                            } else {
                                assert(w@.len() == FILTER_BUF_SIZE);
                            }
                        }
                        return Ok(None);
                    }
                    let drop = wlen - pat.len();
                    let ghost sv1 = self.sv();
                    self.input.consume(drop);
                    proof {
                        assert(w@ =~= s0.skip(c).take(w@.len() as int));
                        assert(self.sv() =~= sv1.skip(drop as int));
                        lemma_no_tag_through(s0, c, w@, name@, drop as int);
                        assert(s0 =~= s0.take(s0.len() - self.sv().len()) + self.sv());
                    }
                },
            }
        }
    }
}


impl<S: ByteSource> FilteringScanner<S> {
    /// The complete bytes of the element named `name` whose start tag begins
    /// `start` bytes into the window: read token by token, counting start and
    /// end tags of that name, up to the end tag that closes it. `None` when
    /// the input ends (or a token does not fit in the window) first.
    pub fn extract_full_element(&mut self, start: usize, name: &[u8]) -> (r: Result<Option<Vec<u8>>, SourceError>)
        requires
            old(self).wf(),
            start <= old(self).window().len(),
        ensures
            final(self).wf(),
            r matches Ok(Some(out)) ==> {
                let s = old(self).sv().skip(start as int);
                &&& walk(s, name@, 0, FILTER_BUF_SIZE as int) == Some(out@.len() as int)
                &&& out@.len() <= s.len()
                &&& out@ == s.take(out@.len() as int)
                &&& final(self).sv() == s.skip(out@.len() as int)
            },
            r == Ok::<Option<Vec<u8>>, SourceError>(None) ==> walk(old(self).sv().skip(start as int), name@, 0,
                FILTER_BUF_SIZE as int) is None,
            old(self).ended() ==> r is Ok && final(self).ended(),
            final(self).reliable() == old(self).reliable(),
            old(self).reliable() ==> r is Ok,
    {
        let ghost s0 = self.sv();
        self.input.consume(start);
        let ghost s = self.sv();
        proof {
            assert(s =~= s0.skip(start as int));
            assert(s.take(0) =~= Seq::<u8>::empty());
            assert(s.skip(0) =~= s);
        }
        let mut out: Vec<u8> = Vec::new();
        let mut depth: i128 = 0;
        loop
            invariant
                self.reliable() == old(self).reliable(),
                self.wf(),
                s == old(self).sv().skip(start as int),
                out@.len() <= s.len(),
                self.sv() == s.skip(out@.len() as int),
                out@ == s.take(out@.len() as int),
                walk(s, name@, 0, FILTER_BUF_SIZE as int) == offset_by(out@.len() as int,
                    walk(self.sv(), name@, depth as int, FILTER_BUF_SIZE as int)),
                -(out@.len() as int) <= depth <= out@.len(),
                old(self).ended() ==> self.ended(),
            decreases self.sv().len(),
        {
            match self.refill() {
                Err(e) => {
                    return Err(e);
                },
                Ok(()) => {},
            }
            let ghost sv = self.sv();
            let w = self.input.as_slice();
            let tok = next_token(w, FILTER_BUF_SIZE);
            match tok {
                None => {
                    return Ok(None);
                },
                Some((l, kind, ns, nl)) => {
                    if l == 0 {
                        return Ok(None);
                    }
                    proof {
                        assert(w@ == window_of(sv, FILTER_BUF_SIZE as int));
                    }
                    let _olen = out.len();
                    let same_name = bytes_eq(&w[ns..ns + nl], name);
                    let ghost tname = w@.subrange(ns as int, ns + nl);
                    assert(same_name == (tname == name@));
                    let (d2, done): (i128, bool) = match kind {
                        TokKind::End => if same_name { (depth - 1, depth - 1 == 0) } else { (depth, false) },
                        TokKind::Start { self_closing } => if same_name {
                            if self_closing { (depth, depth == 0) } else { (depth + 1, false) }
                        } else {
                            (depth, false)
                        },
                        _ => (depth, false),
                    };
                    assert((d2 as int, done) == depth_after(kind, tname, name@, depth as int));
                    let ghost out0 = out@;
                    let mut k: usize = 0;
                    while k < l
                        invariant
                            self.reliable() == old(self).reliable(),
                            k <= l,
                            l <= w@.len(),
                            out@ == out0 + w@.take(k as int),
                        decreases l - k,
                    {
                        out.push(w[k]);
                        k += 1;
                        assert(out@ =~= out0 + w@.take(k as int));
                    }
                    self.input.consume(l);
                    proof {
                        assert(self.sv() =~= sv.skip(l as int));
                        assert(w@.take(l as int) =~= sv.take(l as int));
                        assert(out@ =~= s.take(out@.len() as int));
                        assert(self.sv() =~= s.skip(out@.len() as int));
                    }
                    if done {
                        return Ok(Some(out));
                    }
                    depth = d2;
                },
            }
        }
    }
}

/// Finds, one after another, the elements with a given name.
pub struct FilteringParser<S: ByteSource> {
    scanner: FilteringScanner<S>,
    name: Vec<u8>,
}

impl<S: ByteSource> FilteringParser<S> {
    /// The bytes not yet consumed.
    pub closed spec fn sv(&self) -> Seq<u8> {
        self.scanner.sv()
    }

    /// The name searched for, as bytes.
    pub closed spec fn name_view(&self) -> Seq<u8> {
        self.name@
    }

    /// The parts agree with each other.
    pub closed spec fn wf(&self) -> bool {
        self.scanner.wf()
    }

    /// Whether the source has reported the end of its input, so that no
    /// more reads are made.
    pub closed spec fn ended(&self) -> bool {
        self.scanner.ended()
    }

    /// Whether reading from the source never fails.
    pub closed spec fn reliable(&self) -> bool {
        self.scanner.reliable()
    }

    /// A parser over `reader` for the elements named `name`.
    pub fn new(reader: S, name: &str) -> (r: Self)
        ensures
            r.wf(),
            r.sv() == reader.stream(),
            r.name_view() == name.spec_bytes(),
            !r.ended(),
            r.reliable() == reader.never_fails(),
    {
        let bytes = name.as_bytes();
        let copy = crate::tokenizer::copy_range(bytes, 0, bytes.len());
        assert(copy@ =~= bytes@);
        FilteringParser { scanner: FilteringScanner::new(reader), name: copy }
    }

    /// The next element with the name: its complete bytes, from its start tag
    /// through the end tag that closes it.
    #[verifier::spinoff_prover]
    #[verifier::rlimit(60)]
    pub fn next_match(&mut self) -> (r: Result<Option<Vec<u8>>, SourceError>)
        requires
            old(self).wf(),
        ensures
            final(self).wf(),
            final(self).name_view() == old(self).name_view(),
            ({
                let s = old(self).sv();
                let name = old(self).name_view();
                &&& r matches Ok(Some(el)) ==> match first_tag(s, name) {
                    Some(f) => walk(s.skip(f), name, 0, FILTER_BUF_SIZE as int) == Some(el@.len() as int)
                        && el@ == s.skip(f).take(el@.len() as int) && final(self).sv() == s.skip(f + el@.len()),
                    None => false,
                }
                &&& r == Ok::<Option<Vec<u8>>, SourceError>(None) ==> name.len() == 0 || name.len() + 2 > FILTER_BUF_SIZE
                    || match first_tag(s, name) {
                        Some(f) => walk(s.skip(f), name, 0, FILTER_BUF_SIZE as int) is None,
                        None => true,
                    }
            }),
            old(self).ended() ==> r is Ok && final(self).ended(),
            final(self).reliable() == old(self).reliable(),
            old(self).reliable() ==> r is Ok,
    {
        let ghost s = self.sv();
        match self.scanner.find_start_tag(self.name.as_slice()) {
            Err(e) => Err(e),
            Ok(None) => Ok(None),
            Ok(Some(off)) => {
                let ghost c = s.len() - self.sv().len();
                proof {
                    assert(self.scanner.sv().skip(off as int) =~= s.skip(c + off));
                    assert(first_tag(s, self.name@) == Some(c + off));
                }
                let r = self.scanner.extract_full_element(off, self.name.as_slice());
                match r {
                    Ok(Some(el)) => {
                        assert(s.skip(c + off).skip(el@.len() as int) =~= s.skip(c + off + el@.len()));
                        Ok(Some(el))
                    },
                    other => other,
                }
            },
        }
    }
}

} // verus!

verus! {

/// An end tag `</m>`.
pub open spec fn end_tag_of(m: Seq<u8>) -> Seq<u8> {
    seq![LT, SLASH] + m + seq![GT]
}

/// A start tag `<m>` without attributes.
pub open spec fn start_tag_of(m: Seq<u8>) -> Seq<u8> {
    seq![LT] + m + seq![GT]
}

/// A name made of name bytes only.
pub open spec fn plain_name(m: Seq<u8>) -> bool {
    m.len() > 0 && forall|i: int| 0 <= i < m.len() ==> is_name_byte(#[trigger] m[i])
}

/// The first `b` in `s` is at `k`.
proof fn lemma_first_index_is(s: Seq<u8>, b: u8, k: int)
    requires
        0 <= k < s.len(),
        s[k] == b,
        forall|j: int| 0 <= j < k ==> s[j] != b,
    ensures
        first_index(s, b) == Some(k),
{
    lemma_first_index_props(s, b);
    if let Some(i) = first_index(s, b) {
        if i < k {
            assert(s[i] == b);
        } else if i > k {
            assert(s[k] != b);
        }
    }
}

/// The window of `s` starts with its first `l` bytes when they fit.
proof fn lemma_window_front(s: Seq<u8>, cap: int, l: int)
    requires
        0 <= l <= s.len(),
        l <= cap,
    ensures
        window_of(s, cap).len() >= l,
        forall|i: int| 0 <= i < l ==> #[trigger] window_of(s, cap)[i] == s[i],
{
}

/// The token at the front of an end tag `</m>` is that tag.
#[verifier::spinoff_prover]
#[verifier::rlimit(100)]
proof fn lemma_tok_end_tag(m: Seq<u8>, rest: Seq<u8>, cap: int)
    requires
        plain_name(m),
        m.len() + 3 <= cap,
    ensures
        tok_spec(window_of(end_tag_of(m) + rest, cap), cap) == Some((m.len() + 3int, TokKind::End, 2int, m.len() as int)),
        window_of(end_tag_of(m) + rest, cap).subrange(2, 2 + m.len() as int) == m,
{
    reveal(tok_spec);
    let s = end_tag_of(m) + rest;
    let n = m.len() as int;
    let w = window_of(s, cap);
    lemma_window_front(s, cap, n + 3);
    assert(w[0] == LT && w[1] == SLASH);
    let r2 = w.subrange(2, w.len() as int);
    assert forall|i: int| 0 <= i < n implies !(name_stop())(#[trigger] r2[i]) by {
        assert(r2[i] == m[i]);
    }
    assert(r2[n] == GT);
    lemma_run_unique(r2, 0, name_stop(), n);
    assert forall|j: int| 0 <= j < n implies r2[j] != GT by {
        assert(r2[j] == m[j]);
    }
    lemma_first_index_is(r2, GT, n);
    assert(w.subrange(2, 2 + n) =~= m);
}

/// The token at the front of a start tag `<m>` is that tag.
#[verifier::spinoff_prover]
#[verifier::rlimit(100)]
proof fn lemma_tok_start_tag(m: Seq<u8>, rest: Seq<u8>, cap: int)
    requires
        plain_name(m),
        m.len() + 2 <= cap,
    ensures
        tok_spec(window_of(start_tag_of(m) + rest, cap), cap)
            == Some((m.len() + 2int, TokKind::Start { self_closing: false }, 1int, m.len() as int)),
        window_of(start_tag_of(m) + rest, cap).subrange(1, 1 + m.len() as int) == m,
{
    reveal(tok_spec);
    let s = start_tag_of(m) + rest;
    let n = m.len() as int;
    let w = window_of(s, cap);
    lemma_window_front(s, cap, n + 2);
    assert(w[0] == LT);
    assert(w[1] == m[0]);
    let r1 = w.subrange(1, w.len() as int);
    assert forall|i: int| 0 <= i < n implies !(name_stop())(#[trigger] r1[i]) by {
        assert(r1[i] == m[i]);
    }
    assert(r1[n] == GT);
    lemma_run_unique(r1, 0, name_stop(), n);
    let after = r1.subrange(n, r1.len() as int);
    assert(after[0] == GT);
    assert(run_from(after, 0, ws_stop()) == 0);
    let a = attrs_from(after, 0, FILTER_MAX_ATTR_NAME as int, FILTER_MAX_ATTR_VALUE as int, FILTER_MAX_ATTRS as int, 0);
    assert(a.end == 1);
    assert(w[n] == m[n - 1]);
    assert(w.subrange(1, 1 + n) =~= m);
}

/// The token at the front of text followed by `<` is that text.
#[verifier::spinoff_prover]
#[verifier::rlimit(100)]
proof fn lemma_tok_text(t: Seq<u8>, rest: Seq<u8>, cap: int)
    requires
        t.len() > 0,
        forall|i: int| 0 <= i < t.len() ==> #[trigger] t[i] != LT,
        rest.len() > 0 && rest[0] == LT,
        t.len() + 1 <= cap,
    ensures
        tok_spec(window_of(t + rest, cap), cap) == Some((t.len() as int, TokKind::Text, 0int, 0int)),
{
    reveal(tok_spec);
    let s = t + rest;
    let n = t.len() as int;
    let w = window_of(s, cap);
    lemma_window_front(s, cap, n + 1);
    assert(w[0] == t[0]);
    assert forall|j: int| 0 <= j < n implies w[j] != LT by {
        assert(w[j] == t[j]);
    }
    assert(w[n] == rest[0]);
    lemma_first_index_is(w, LT, n);
}

/// A self-closing tag `<m/>`.
pub open spec fn empty_tag_of(m: Seq<u8>) -> Seq<u8> {
    seq![LT] + m + seq![SLASH, GT]
}

/// The token at the front of a self-closing tag `<m/>` is that tag.
#[verifier::spinoff_prover]
#[verifier::rlimit(100)]
proof fn lemma_tok_empty_tag(m: Seq<u8>, rest: Seq<u8>, cap: int)
    requires
        plain_name(m),
        m.len() + 3 <= cap,
    ensures
        tok_spec(window_of(empty_tag_of(m) + rest, cap), cap)
            == Some((m.len() + 3int, TokKind::Start { self_closing: true }, 1int, m.len() as int)),
        window_of(empty_tag_of(m) + rest, cap).subrange(1, 1 + m.len() as int) == m,
{
    reveal(tok_spec);
    let s = empty_tag_of(m) + rest;
    let n = m.len() as int;
    let w = window_of(s, cap);
    lemma_window_front(s, cap, n + 3);
    assert(w[0] == LT);
    assert(w[1] == m[0]);
    let r1 = w.subrange(1, w.len() as int);
    assert forall|i: int| 0 <= i < n implies !(name_stop())(#[trigger] r1[i]) by {
        assert(r1[i] == m[i]);
    }
    assert(r1[n] == SLASH);
    lemma_run_unique(r1, 0, name_stop(), n);
    let after = r1.subrange(n, r1.len() as int);
    assert(after[0] == SLASH && after[1] == GT);
    assert(run_from(after, 0, ws_stop()) == 0);
    let a = attrs_from(after, 0, FILTER_MAX_ATTR_NAME as int, FILTER_MAX_ATTR_VALUE as int, FILTER_MAX_ATTRS as int, 0);
    assert(a.end == 2);
    assert(w[n + 1] == SLASH && w[n + 2] == GT);
    assert(w.subrange(1, 1 + n) =~= m);
}

/// Walking over a self-closing tag `<m/>`: one of the element's name at
/// depth zero is the whole element; any other leaves the depth as it is and
/// the walk goes on after it.
pub proof fn law_walk_empty_tag(m: Seq<u8>, rest: Seq<u8>, name: Seq<u8>, depth: int, cap: int)
    requires
        plain_name(m),
        m.len() + 3 <= cap,
    ensures
        m == name && depth == 0 ==> walk(empty_tag_of(m) + rest, name, depth, cap) == Some(m.len() + 3int),
        !(m == name && depth == 0) ==> walk(empty_tag_of(m) + rest, name, depth, cap)
            == offset_by(m.len() + 3int, walk(rest, name, depth, cap)),
{
    lemma_tok_empty_tag(m, rest, cap);
    assert((empty_tag_of(m) + rest).skip(m.len() + 3int) =~= rest);
}

/// Walking over an end tag `</m>`: one of another name than the element's
/// leaves the depth as it is and the walk goes on after it; one of the
/// element's name at depth one closes the element, right after the tag.
pub proof fn law_walk_end_tag(m: Seq<u8>, rest: Seq<u8>, name: Seq<u8>, depth: int, cap: int)
    requires
        plain_name(m),
        m.len() + 3 <= cap,
    ensures
        m != name ==> walk(end_tag_of(m) + rest, name, depth, cap)
            == offset_by(m.len() + 3int, walk(rest, name, depth, cap)),
        m == name && depth == 1 ==> walk(end_tag_of(m) + rest, name, depth, cap) == Some(m.len() + 3int),
{
    lemma_tok_end_tag(m, rest, cap);
    assert((end_tag_of(m) + rest).skip(m.len() + 3int) =~= rest);
}

/// Walking over a start tag `<m>`: one of the element's name opens one
/// more level, one of another name leaves the depth as it is; the walk goes
/// on after the tag.
pub proof fn law_walk_start_tag(m: Seq<u8>, rest: Seq<u8>, name: Seq<u8>, depth: int, cap: int)
    requires
        plain_name(m),
        m.len() + 2 <= cap,
    ensures
        walk(start_tag_of(m) + rest, name, depth, cap) == offset_by(
            m.len() + 2int,
            walk(rest, name, if m == name { depth + 1 } else { depth }, cap),
        ),
{
    lemma_tok_start_tag(m, rest, cap);
    assert((start_tag_of(m) + rest).skip(m.len() + 2int) =~= rest);
}

/// Walking over text up to the next `<` goes on after it.
pub proof fn law_walk_text(t: Seq<u8>, rest: Seq<u8>, name: Seq<u8>, depth: int, cap: int)
    requires
        t.len() > 0,
        forall|i: int| 0 <= i < t.len() ==> #[trigger] t[i] != LT,
        rest.len() > 0 && rest[0] == LT,
        t.len() + 1 <= cap,
    ensures
        walk(t + rest, name, depth, cap) == offset_by(t.len() as int, walk(rest, name, depth, cap)),
{
    lemma_tok_text(t, rest, cap);
    assert((t + rest).skip(t.len() as int) =~= rest);
}

/// An element named `name` holding an element of another name `m` with
/// text in it: extraction takes the whole element, through the end tag of
/// `name`, not stopping at the end tag of `m`.
pub proof fn law_walk_nested_other_name(name: Seq<u8>, m: Seq<u8>, t: Seq<u8>, rest: Seq<u8>, cap: int)
    requires
        plain_name(name),
        plain_name(m),
        m != name,
        t.len() > 0,
        forall|i: int| 0 <= i < t.len() ==> #[trigger] t[i] != LT,
        name.len() + 3 <= cap,
        m.len() + 3 <= cap,
        t.len() + 1 <= cap,
    ensures
        walk(start_tag_of(name) + (start_tag_of(m) + (t + (end_tag_of(m) + (end_tag_of(name) + rest)))), name, 0, cap)
            == Some((start_tag_of(name).len() + start_tag_of(m).len() + t.len() + end_tag_of(m).len()
                + end_tag_of(name).len()) as int),
{
    let s4 = end_tag_of(name) + rest;
    let s3 = end_tag_of(m) + s4;
    let s2 = t + s3;
    let s1 = start_tag_of(m) + s2;
    law_walk_end_tag(name, rest, name, 1, cap);
    law_walk_end_tag(m, s4, name, 1, cap);
    assert(s3[0] == LT);
    law_walk_text(t, s3, name, 1, cap);
    law_walk_start_tag(m, s2, name, 1, cap);
    law_walk_start_tag(name, s1, name, 0, cap);
}

} // verus!
