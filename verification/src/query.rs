//! Queries over the reader's events: a tiny path-selector language and a
//! query that collects the recorded bytes of each matching element.

use vstd::prelude::*;
use crate::reader::{Event, EventView, ReadError, Reader, event_view, source_failed};
use crate::search::SLASH;
use crate::source::ByteSource;
use vstd::string::StringSliceAdditionalSpecFns;

verus! {

/// The byte strings held in `v`.
pub open spec fn names_of(v: Seq<Vec<u8>>) -> Seq<Seq<u8>> {
    v.map_values(|x: Vec<u8>| x@)
}

/// The names of the open elements, outermost first.
pub struct PathStack {
    stack: Vec<Vec<u8>>,
}

impl PathStack {
    /// The names, outermost first.
    pub closed spec fn view_names(&self) -> Seq<Seq<u8>> {
        names_of(self.stack@)
    }

    /// An empty path.
    pub fn new() -> (r: Self)
        ensures
            r.view_names().len() == 0,
    {
        let r = PathStack { stack: Vec::new() };
        assert(r.view_names() =~= Seq::<Seq<u8>>::empty());
        r
    }

    /// Enter an element named `name`.
    pub fn push(&mut self, name: &[u8])
        ensures
            final(self).view_names() == old(self).view_names().push(name@),
    {
        let copy = crate::tokenizer::copy_range(name, 0, name.len());
        assert(copy@ =~= name@);
        let ghost before = self.stack@;
        self.stack.push(copy);
        assert(names_of(self.stack@) =~= old(self).view_names().push(name@)) by {
            assert forall|i: int| 0 <= i < self.stack@.len() implies
                names_of(self.stack@)[i] == old(self).view_names().push(name@)[i] by {
                if i < before.len() {
                    assert(self.stack@[i] == before[i]);
                }
            }
        }
    }

    /// Leave the innermost element (nothing when none is open).
    pub fn pop(&mut self)
        ensures
            final(self).view_names() == if old(self).view_names().len() > 0 {
                old(self).view_names().drop_last()
            } else {
                old(self).view_names()
            },
    {
        let ghost before = self.stack@;
        let _ = self.stack.pop();
        assert(names_of(self.stack@) =~= if before.len() > 0 {
            old(self).view_names().drop_last()
        } else {
            old(self).view_names()
        }) by {
            assert forall|i: int| 0 <= i < self.stack@.len() implies
                names_of(self.stack@)[i] == old(self).view_names()[i] by {
                assert(self.stack@[i] == before[i]);
            }
        }
    }

    /// The names, outermost first.
    pub fn as_slice(&self) -> (r: &[Vec<u8>])
        ensures
            names_of(r@) == self.view_names(),
    {
        self.stack.as_slice()
    }
}

/// Path selectors: `//name` matches any element of that name; `/a/b/c`
/// matches the elements whose path is exactly `a`, `b`, `c`; a bare `name`
/// is read as `//name`.
#[derive(Debug, Clone)]
pub enum PathSelector {
    Anywhere(Vec<u8>),
    Absolute(Vec<Vec<u8>>),
}

/// The non-empty pieces of `s` between `/` bytes, in order.
pub open spec fn path_parts(s: Seq<u8>) -> Seq<Seq<u8>>
    decreases s.len(),
{
    if s.len() == 0 {
        Seq::empty()
    } else {
        proof { crate::search::lemma_first_index_props(s, SLASH); }
        match crate::search::first_index(s, SLASH) {
            Some(i) => {
                let rest = path_parts(s.subrange(i + 1, s.len() as int));
                if i == 0 { rest } else { seq![s.take(i)] + rest }
            },
            None => seq![s],
        }
    }
}

/// What a selector says, as bytes.
pub enum SelectorView {
    Anywhere(Seq<u8>),
    Absolute(Seq<Seq<u8>>),
}

/// The selector that `s` (its UTF-8 bytes) describes, or `None` when it is
/// `//` alone or an absolute path without names.
pub open spec fn parse_selector(s: Seq<u8>) -> Option<SelectorView> {
    if s.len() >= 2 && s[0] == SLASH && s[1] == SLASH {
        let name = s.subrange(2, s.len() as int);
        if name.len() == 0 { None } else { Some(SelectorView::Anywhere(name)) }
    } else if s.len() >= 1 && s[0] == SLASH {
        let parts = path_parts(s);
        if parts.len() == 0 { None } else { Some(SelectorView::Absolute(parts)) }
    } else {
        Some(SelectorView::Anywhere(s))
    }
}

/// Whether a selector matches an element named `name` on `path` (the open
/// elements, the element itself last).
pub open spec fn selector_matches(sel: SelectorView, path: Seq<Seq<u8>>, name: Seq<u8>) -> bool {
    match sel {
        SelectorView::Anywhere(target) => name == target,
        SelectorView::Absolute(parts) => path == parts,
    }
}

impl PathSelector {
    /// What the selector says.
    pub open spec fn sel_view(&self) -> SelectorView {
        match self {
            PathSelector::Anywhere(t) => SelectorView::Anywhere(t@),
            PathSelector::Absolute(parts) => SelectorView::Absolute(names_of(parts@)),
        }
    }

    /// Read a selector; an error for `//` alone or an absolute path
    /// without names.
    pub fn parse(s: &str) -> (r: Result<Self, String>)
        ensures
            match parse_selector(s.spec_bytes()) {
                Some(v) => r matches Ok(sel) && sel.sel_view() == v,
                None => r is Err,
            },
    {
        let b = s.as_bytes();
        let blen = b.len();
        if blen >= 2 && b[0] == SLASH && b[1] == SLASH {
            if blen == 2 {
                return Err("empty name in // selector".to_owned());
            }
            let name = crate::tokenizer::copy_range(b, 2, blen);
            return Ok(PathSelector::Anywhere(name));
        } else if blen >= 1 && b[0] == SLASH {
            let parts = split_parts(b);
            if parts.len() == 0 {
                return Err("empty absolute path".to_owned());
            }
            return Ok(PathSelector::Absolute(parts));
        } else {
            let name = crate::tokenizer::copy_range(b, 0, blen);
            assert(name@ =~= b@);
            return Ok(PathSelector::Anywhere(name));
        }
    }

    /// Whether the selector matches an element named `name` whose path (the
    /// element itself last) is `path`.
    pub fn matches_path(&self, path: &[Vec<u8>], name: &[u8]) -> (r: bool)
        ensures
            r == selector_matches(self.sel_view(), names_of(path@), name@),
    {
        match self {
            PathSelector::Anywhere(target) => crate::slice_parser::bytes_eq(name, target.as_slice()),
            PathSelector::Absolute(parts) => names_eq(path, parts.as_slice()),
        }
    }
}

/// Whether two lists of names are equal.
fn names_eq(a: &[Vec<u8>], b: &[Vec<u8>]) -> (r: bool)
    ensures
        r == (names_of(a@) == names_of(b@)),
{
    if a.len() != b.len() {
        assert(names_of(a@).len() != names_of(b@).len());
        return false;
    }
    let mut i: usize = 0;
    while i < a.len()
        invariant
            i <= a@.len(),
            a@.len() == b@.len(),
            forall|j: int| 0 <= j < i ==> names_of(a@)[j] == names_of(b@)[j],
        decreases a.len() - i,
    {
        if !crate::slice_parser::bytes_eq(a[i].as_slice(), b[i].as_slice()) {
            assert(names_of(a@)[i as int] != names_of(b@)[i as int]);
            return false;
        }
        i += 1;
    }
    assert(names_of(a@) =~= names_of(b@));
    true
}

/// The non-empty pieces of `b` between `/` bytes.
fn split_parts(b: &[u8]) -> (r: Vec<Vec<u8>>)
    ensures
        names_of(r@) == path_parts(b@),
    decreases b.len(),
{
    let blen = b.len();
    if blen == 0 {
        let r: Vec<Vec<u8>> = Vec::new();
        assert(names_of(r@) =~= Seq::<Seq<u8>>::empty());
        return r;
    }
    let f = crate::search::memchr_first(SLASH, b);
    proof { crate::search::lemma_first_index(b@, SLASH, f); }
    match f {
        Some(i) => {
            let rest = split_parts(&b[i + 1..blen]);
            if i == 0 {
                rest
            } else {
                let mut rest = rest;
                let mut r: Vec<Vec<u8>> = Vec::new();
                let piece = crate::tokenizer::copy_range(b, 0, i);
                assert(piece@ =~= b@.take(i as int));
                r.push(piece);
                let ghost r1 = r@;
                let ghost rest0 = rest@;
                r.append(&mut rest);
                assert(names_of(r@) =~= seq![b@.take(i as int)] + names_of(rest0)) by {
                    assert(r@ =~= r1 + rest0);
                }
                r
            }
        },
        None => {
            let mut r: Vec<Vec<u8>> = Vec::new();
            let piece = crate::tokenizer::copy_range(b, 0, blen);
            assert(piece@ =~= b@);
            r.push(piece);
            assert(names_of(r@) =~= seq![b@]);
            r
        },
    }
}


/// A callback made on a query, with the path, name, attributes, text or
/// recorded bytes it was given.
pub enum CallRecord {
    Start(Seq<Seq<u8>>, Seq<u8>, Seq<(Seq<u8>, Seq<u8>)>),
    Text(Seq<Seq<u8>>, Seq<u8>),
    End(Seq<Seq<u8>>, Seq<u8>, Seq<u8>),
}

/// Attribute pairs by their bytes.
pub open spec fn pairs_of(attrs: Seq<(Vec<u8>, Vec<u8>)>) -> Seq<(Seq<u8>, Seq<u8>)> {
    attrs.map_values(|p: (Vec<u8>, Vec<u8>)| (p.0@, p.1@))
}

/// What a query is told as the reader's events go by, with the path of open
/// elements at each one. Each callback is recorded in `calls`.
pub trait Query {
    /// Whether the query wants no more events.
    spec fn finished(&self) -> bool;

    /// The callbacks made so far, in order.
    spec fn calls(&self) -> Seq<CallRecord>;

    /// A start tag; `path` ends with the element itself.
    fn on_start(&mut self, path: &[Vec<u8>], name: &[u8], attrs: &[(Vec<u8>, Vec<u8>)])
        ensures
            final(self).calls() == old(self).calls().push(CallRecord::Start(names_of(path@), name@, pairs_of(attrs@))),
    ;

    /// Text inside the elements of `path`.
    fn on_text(&mut self, path: &[Vec<u8>], text: &[u8])
        ensures
            final(self).calls() == old(self).calls().push(CallRecord::Text(names_of(path@), text@)),
    ;

    /// An end tag; `path` still ends with the element, and `content` holds
    /// the bytes the reader recorded since the previous end tag.
    fn on_end(&mut self, path: &[Vec<u8>], name: &[u8], content: &[u8])
        ensures
            final(self).calls() == old(self).calls().push(CallRecord::End(names_of(path@), name@, content@)),
    ;

    /// Whether the query wants no more events.
    fn is_done(&mut self) -> (r: bool)
        ensures
            r == old(self).finished(),
            final(self).finished() == old(self).finished(),
            final(self).calls() == old(self).calls(),
    ;
}

/// A query that collects, for each element the selector matches (outside
/// another match), the bytes recorded up to its end tag, stopping after
/// `max` of them.
pub struct PathQuery {
    selector: PathSelector,
    in_match: usize,
    match_depth: usize,
    buf: Vec<u8>,
    printed: usize,
    max: usize,
    done: bool,
    emitted: Vec<Vec<u8>>,
    log: Ghost<Seq<CallRecord>>,
}

/// The state of a path query.
pub struct QueryState {
    pub sel: SelectorView,
    pub in_match: nat,
    pub match_depth: nat,
    pub buf: Seq<u8>,
    pub printed: nat,
    pub max: nat,
    pub done: bool,
    pub emitted: Seq<Seq<u8>>,
}

/// The state after a start tag named `name` on `path`.
pub open spec fn query_on_start(q: QueryState, path: Seq<Seq<u8>>, name: Seq<u8>) -> QueryState {
    if q.done {
        q
    } else if selector_matches(q.sel, path, name) {
        let fresh = q.in_match == 0;
        QueryState {
            buf: (if fresh { Seq::empty() } else { q.buf }) + name,
            match_depth: if fresh { path.len() } else { q.match_depth },
            in_match: q.in_match + 1,
            ..q
        }
    } else if q.in_match > 0 {
        QueryState { buf: q.buf + name, in_match: q.in_match + 1, ..q }
    } else {
        q
    }
}

/// The state after text inside the elements of a path.
pub open spec fn query_on_text(q: QueryState, text: Seq<u8>) -> QueryState {
    if q.in_match > 0 && !q.done { QueryState { buf: q.buf + text, ..q } } else { q }
}

/// The state after an end tag on `path` whose recorded bytes are `content`.
pub open spec fn query_on_end(q: QueryState, path: Seq<Seq<u8>>, content: Seq<u8>) -> QueryState {
    if q.done || q.in_match == 0 {
        q
    } else {
        let left = (q.in_match - 1) as nat;
        if left == 0 && path.len() == q.match_depth {
            let printed = q.printed + 1;
            QueryState {
                in_match: left,
                emitted: q.emitted.push(content),
                printed,
                done: printed >= q.max,
                ..q
            }
        } else {
            QueryState { in_match: left, ..q }
        }
    }
}

impl PathQuery {
    /// The query's state.
    pub closed spec fn state(&self) -> QueryState {
        QueryState {
            sel: self.selector.sel_view(),
            in_match: self.in_match as nat,
            match_depth: self.match_depth as nat,
            buf: self.buf@,
            printed: self.printed as nat,
            max: self.max as nat,
            done: self.done,
            emitted: names_of(self.emitted@),
        }
    }

    /// A query for `selector` that stops after `max` matches.
    pub fn new(selector: PathSelector, max: usize) -> (r: Self)
        ensures
            r.state() == (QueryState {
                sel: selector.sel_view(),
                in_match: 0,
                match_depth: 0,
                buf: Seq::empty(),
                printed: 0,
                max: max as nat,
                done: false,
                emitted: Seq::empty(),
            }),
            r.calls().len() == 0,
    {
        let r = PathQuery {
            selector,
            in_match: 0,
            match_depth: 0,
            buf: Vec::new(),
            printed: 0,
            max,
            done: false,
            emitted: Vec::new(),
            log: Ghost(Seq::empty()),
        };
        assert(names_of(r.emitted@) =~= Seq::<Seq<u8>>::empty());
        r
    }

    /// Whether the query has collected all it wants.
    pub fn is_done(&self) -> (r: bool)
        ensures
            r == self.state().done,
    {
        self.done
    }

    /// Take the matches collected so far, in order.
    pub fn take_emitted(&mut self) -> (r: Vec<Vec<u8>>)
        ensures
            names_of(r@) == old(self).state().emitted,
            final(self).state() == (QueryState { emitted: Seq::empty(), ..old(self).state() }),
    {
        let mut out: Vec<Vec<u8>> = Vec::new();
        std::mem::swap(&mut out, &mut self.emitted);
        assert(names_of(self.emitted@) =~= Seq::<Seq<u8>>::empty());
        out
    }
}

/// Append `bytes` to `v`.
fn extend_bytes(v: &mut Vec<u8>, bytes: &[u8])
    ensures
        final(v)@ == old(v)@ + bytes@,
{
    let mut i: usize = 0;
    while i < bytes.len()
        invariant
            i <= bytes@.len(),
            v@ == old(v)@ + bytes@.take(i as int),
        decreases bytes.len() - i,
    {
        v.push(bytes[i]);
        i += 1;
        assert(v@ =~= old(v)@ + bytes@.take(i as int));
    }
    assert(bytes@.take(bytes@.len() as int) =~= bytes@);
}

impl Query for PathQuery {
    open spec fn finished(&self) -> bool {
        self.state().done
    }

    closed spec fn calls(&self) -> Seq<CallRecord> {
        self.log@
    }

    fn on_start(&mut self, path: &[Vec<u8>], name: &[u8], attrs: &[(Vec<u8>, Vec<u8>)])
        ensures
            old(self).state().in_match < usize::MAX ==> final(self).state() == query_on_start(
                old(self).state(),
                names_of(path@),
                name@,
            ),
    {
        self.log = Ghost(self.log@.push(CallRecord::Start(names_of(path@), name@, pairs_of(attrs@))));
        if self.done {
            return;
        }
        if self.selector.matches_path(path, name) {
            if self.in_match == 0 {
                self.buf.clear();
                self.match_depth = path.len();
            }
            extend_bytes(&mut self.buf, name);
            if self.in_match < usize::MAX {
                self.in_match += 1;
            }
        } else if self.in_match > 0 {
            extend_bytes(&mut self.buf, name);
            if self.in_match < usize::MAX {
                self.in_match += 1;
            }
        }
        proof {
            assert(names_of(path@).len() == path@.len());
        }
    }

    fn on_text(&mut self, path: &[Vec<u8>], text: &[u8])
        ensures
            final(self).state() == query_on_text(old(self).state(), text@),
    {
        self.log = Ghost(self.log@.push(CallRecord::Text(names_of(path@), text@)));
        if self.in_match > 0 && !self.done {
            extend_bytes(&mut self.buf, text);
        }
    }

    fn on_end(&mut self, path: &[Vec<u8>], name: &[u8], content: &[u8])
        ensures
            old(self).state().printed < usize::MAX ==> final(self).state() == query_on_end(
                old(self).state(),
                names_of(path@),
                content@,
            ),
    {
        self.log = Ghost(self.log@.push(CallRecord::End(names_of(path@), name@, content@)));
        if self.done || self.in_match == 0 {
            return;
        }
        self.in_match -= 1;
        if self.in_match == 0 && path.len() == self.match_depth {
            let copy = crate::tokenizer::copy_range(content, 0, content.len());
            assert(copy@ =~= content@);
            let ghost before = self.emitted@;
            self.emitted.push(copy);
            assert(names_of(self.emitted@) =~= names_of(before).push(content@));
            if self.printed < usize::MAX {
                self.printed += 1;
            }
            if self.printed >= self.max {
                self.done = true;
            }
        }
    }

    fn is_done(&mut self) -> (r: bool) {
        self.done
    }
}

/// The callback that an event of the reader leads to.
pub enum QueryCall {
    /// `on_start` with the element's name and attributes.
    Start { name: Vec<u8>, attrs: Vec<(Vec<u8>, Vec<u8>)> },
    /// `on_text` with non-empty text.
    Text(Vec<u8>),
    /// `on_end` with the element's name and the recorded bytes.
    End { name: Vec<u8>, content: Vec<u8> },
    /// No callback (empty text, a comment, a CDATA section).
    Nothing,
    /// The input has ended.
    Stop,
}

/// The callback for `ev` and the path it is made with, when the open
/// elements were `path`: a start tag enters its element first; an end tag
/// is reported while its element is still open.
pub open spec fn query_call(path: Seq<Seq<u8>>, ev: Event) -> (QueryCall, Seq<Seq<u8>>) {
    match ev {
        Event::StartElement { name, attributes } => (QueryCall::Start { name, attrs: attributes }, path.push(name@)),
        Event::EndElement { name, accumulated } => (QueryCall::End { name, content: accumulated }, path),
        Event::Text(t) => (if t@.len() > 0 { QueryCall::Text(t) } else { QueryCall::Nothing }, path),
        Event::Comment(_) => (QueryCall::Nothing, path),
        Event::CData(_) => (QueryCall::Nothing, path),
        Event::Eof => (QueryCall::Stop, path),
    }
}

/// The open elements after the callback `c`: an end tag leaves its element.
pub open spec fn path_after_call(path: Seq<Seq<u8>>, c: QueryCall) -> Seq<Seq<u8>> {
    match c {
        QueryCall::End { .. } => if path.len() > 0 { path.drop_last() } else { path },
        _ => path,
    }
}

/// Turn `ev` into the callback it leads to, entering the element of a start
/// tag.
pub fn dispatch(path: &mut PathStack, ev: Event) -> (c: QueryCall)
    ensures
        (c, final(path).view_names()) == query_call(old(path).view_names(), ev),
{
    match ev {
        Event::StartElement { name, attributes } => {
            path.push(name.as_slice());
            QueryCall::Start { name, attrs: attributes }
        },
        Event::EndElement { name, accumulated } => QueryCall::End { name, content: accumulated },
        Event::Text(t) => {
            if t.len() > 0 {
                QueryCall::Text(t)
            } else {
                QueryCall::Nothing
            }
        },
        Event::Comment(_) => QueryCall::Nothing,
        Event::CData(_) => QueryCall::Nothing,
        Event::Eof => QueryCall::Stop,
    }
}

/// After the callback `c` was made: leave the element of an end tag.
pub fn settle(path: &mut PathStack, c: &QueryCall)
    ensures
        final(path).view_names() == path_after_call(old(path).view_names(), *c),
{
    match c {
        QueryCall::End { .. } => path.pop(),
        _ => {},
    }
}

/// The callbacks that the event `ev` leads to when the open elements are
/// `path`, and the open elements after it (see `query_call`).
pub open spec fn call_of(path: Seq<Seq<u8>>, ev: EventView) -> (Seq<CallRecord>, Seq<Seq<u8>>) {
    match ev {
        EventView::Start(n, a) => (seq![CallRecord::Start(path.push(n), n, a)], path.push(n)),
        EventView::End(n, c) => (
            seq![CallRecord::End(path, n, c)],
            if path.len() > 0 { path.drop_last() } else { path },
        ),
        EventView::Text(t) => (if t.len() > 0 { seq![CallRecord::Text(path, t)] } else { Seq::empty() }, path),
        _ => (Seq::empty(), path),
    }
}

/// The callbacks that the events `evs` lead to, one after the other, from
/// the open elements `path`, and the open elements after them.
pub open spec fn calls_for(path: Seq<Seq<u8>>, evs: Seq<EventView>) -> (Seq<CallRecord>, Seq<Seq<u8>>)
    decreases evs.len(),
{
    if evs.len() == 0 {
        (Seq::empty(), path)
    } else {
        let (c0, p0) = calls_for(path, evs.drop_last());
        let (c1, p1) = call_of(p0, evs.last());
        (c0 + c1, p1)
    }
}

/// Drive `query` with the events of `reader`, keeping the path of open
/// elements, until the query is done or the input ends; read errors are
/// passed on. The callbacks made are those that the events read lead to,
/// with the path that `dispatch` and `settle` keep.
pub fn run_query<S: ByteSource, Q: Query>(reader: &mut Reader<S>, query: &mut Q) -> (r: Result<(), ReadError>)
    requires
        old(reader).wf(),
    ensures
        final(reader).wf(),
        r is Ok ==> final(query).finished() || final(reader).at_end(),
        old(reader).at_end() ==> r is Ok,
        old(query).finished() ==> r is Ok,
        old(reader).reliable() ==> !source_failed(r),
        final(reader).history().len() >= old(reader).history().len(),
        final(reader).history().take(old(reader).history().len() as int) == old(reader).history(),
        final(query).calls() == old(query).calls() + calls_for(
            Seq::empty(),
            final(reader).history().skip(old(reader).history().len() as int),
        ).0,
{
    let mut path = PathStack::new();
    let ghost h0 = reader.history();
    let ghost c0 = query.calls();
    let ghost mut started = false;
    proof {
        assert(reader.history().skip(h0.len() as int) =~= Seq::<EventView>::empty());
        assert(reader.history().take(h0.len() as int) =~= h0);
        assert(c0 + Seq::<CallRecord>::empty() =~= c0);
    }
    loop
        invariant
            reader.wf(),
            old(reader).at_end() ==> reader.at_end(),
            h0 == old(reader).history(),
            c0 == old(query).calls(),
            reader.reliable() == old(reader).reliable(),
            reader.history().len() >= h0.len(),
            reader.history().take(h0.len() as int) == h0,
            query.calls() == c0 + calls_for(Seq::empty(), reader.history().skip(h0.len() as int)).0,
            path.view_names() == calls_for(Seq::empty(), reader.history().skip(h0.len() as int)).1,
            !started ==> query.finished() == old(query).finished() && query.calls() == old(query).calls(),
            started ==> !old(query).finished(),
        decreases 2 * reader.sv().len() + reader.pending().len(),
    {
        if query.is_done() {
            return Ok(());
        }
        proof { started = true; }
        let ghost hb = reader.history();
        let ev = match reader.next_event() {
            Err(e) => {
                return Err(e);
            },
            Ok(ev) => ev,
        };
        let ghost evs = reader.history().skip(h0.len() as int);
        proof {
            assert(evs.drop_last() =~= hb.skip(h0.len() as int));
            assert(evs.last() == event_view(ev));
            assert(reader.history().take(h0.len() as int) =~= hb.take(h0.len() as int));
        }
        let ghost p0 = path.view_names();
        let ghost q0 = query.calls();
        let call = dispatch(&mut path, ev);
        match &call {
            QueryCall::Start { name, attrs } => {
                query.on_start(path.as_slice(), name.as_slice(), attrs.as_slice());
                proof {
                    assert(pairs_of(attrs@) =~= attrs.deep_view()) by {
                        assert forall|i: int| 0 <= i < attrs@.len() implies #[trigger] pairs_of(attrs@)[i]
                            == attrs.deep_view()[i] by {
                            assert(attrs.deep_view()[i] == attrs@[i].deep_view());
                            assert(attrs@[i].0.deep_view() =~= attrs@[i].0@);
                            assert(attrs@[i].1.deep_view() =~= attrs@[i].1@);
                        }
                    }
                }
            },
            QueryCall::End { name, content } => {
                query.on_end(path.as_slice(), name.as_slice(), content.as_slice());
            },
            QueryCall::Text(text) => {
                query.on_text(path.as_slice(), text.as_slice());
            },
            QueryCall::Nothing => {},
            QueryCall::Stop => {
                proof {
                    assert(query.calls() =~= c0 + calls_for(Seq::empty(), evs).0);
                }
                return Ok(());
            },
        }
        settle(&mut path, &call);
        proof {
            assert(query.calls() =~= c0 + calls_for(Seq::empty(), evs).0);
        }
    }
}

} // verus!

verus! {

/// Leaving an element undoes entering it: the path after `push` then `pop`
/// is the path before.
pub proof fn law_path_pop_undoes_push(names: Seq<Seq<u8>>, name: Seq<u8>)
    ensures
        ({
            let pushed = names.push(name);
            (if pushed.len() > 0 { pushed.drop_last() } else { pushed }) == names
        }),
{
    assert(names.push(name).drop_last() =~= names);
}

/// A selector `//name` matches exactly the elements called `name`, at any
/// depth.
pub proof fn law_descendant_selector(name: Seq<u8>, path: Seq<Seq<u8>>, elem: Seq<u8>)
    requires
        name.len() > 0,
    ensures
        parse_selector(seq![SLASH, SLASH] + name) == Some(SelectorView::Anywhere(name)),
        selector_matches(SelectorView::Anywhere(name), path, elem) <==> elem == name,
{
    let s = seq![SLASH, SLASH] + name;
    assert(s.subrange(2, s.len() as int) =~= name);
}

/// An absolute selector matches exactly its own path: the path made of its
/// parts matches, a matching path has one element per part, each equal to
/// it, and a path with one more enclosing element does not match.
pub proof fn law_absolute_selector_exact(parts: Seq<Seq<u8>>, path: Seq<Seq<u8>>, name: Seq<u8>, outer: Seq<u8>)
    ensures
        selector_matches(SelectorView::Absolute(parts), parts, name),
        selector_matches(SelectorView::Absolute(parts), path, name) ==> path.len() == parts.len()
            && forall|i: int| 0 <= i < parts.len() ==> path[i] == parts[i],
        !selector_matches(SelectorView::Absolute(parts), seq![outer] + parts, name),
{
    assert((seq![outer] + parts).len() != parts.len());
}

/// The text of an absolute selector: `/` before each part.
pub open spec fn absolute_text(parts: Seq<Seq<u8>>) -> Seq<u8>
    decreases parts.len(),
{
    if parts.len() == 0 {
        Seq::empty()
    } else {
        seq![SLASH] + parts[0] + absolute_text(parts.skip(1))
    }
}

/// Parts that can stand in a selector: not empty, without `/`.
pub open spec fn plain_parts(parts: Seq<Seq<u8>>) -> bool {
    forall|i: int| 0 <= i < parts.len() ==> (#[trigger] parts[i]).len() > 0
        && forall|j: int| 0 <= j < parts[i].len() ==> parts[i][j] != SLASH
}

/// The first `b` in `s` is at `k`.
proof fn lemma_first_slash_at(s: Seq<u8>, k: int)
    requires
        0 <= k < s.len(),
        s[k] == SLASH,
        forall|j: int| 0 <= j < k ==> s[j] != SLASH,
    ensures
        crate::search::first_index(s, SLASH) == Some(k),
{
    crate::search::lemma_first_index_props(s, SLASH);
    if let Some(i) = crate::search::first_index(s, SLASH) {
        if i < k {
            assert(s[i] == SLASH);
        } else if i > k {
            assert(s[k] != SLASH);
        }
    }
}

/// A part followed by the text of more parts splits into them all.
#[verifier::spinoff_prover]
#[verifier::rlimit(100)]
proof fn lemma_path_parts_text(p0: Seq<u8>, tail: Seq<Seq<u8>>)
    requires
        p0.len() > 0,
        forall|j: int| 0 <= j < p0.len() ==> p0[j] != SLASH,
        plain_parts(tail),
    ensures
        path_parts(p0 + absolute_text(tail)) == seq![p0] + tail,
    decreases tail.len(),
{
    let s = p0 + absolute_text(tail);
    if tail.len() == 0 {
        crate::search::lemma_first_index_props(s, SLASH);
        assert(absolute_text(tail) =~= Seq::<u8>::empty());
        assert(s =~= p0);
        assert forall|j: int| 0 <= j < s.len() implies s[j] != SLASH by {}
        assert(seq![p0] + tail =~= seq![p0]);
    } else {
        let t0 = tail[0];
        let rest = tail.skip(1);
        assert(plain_parts(rest)) by {
            assert forall|i: int| 0 <= i < rest.len() implies (#[trigger] rest[i]).len() > 0
                && forall|j: int| 0 <= j < rest[i].len() ==> rest[i][j] != SLASH by {
                assert(rest[i] == tail[i + 1]);
            }
        }
        assert(t0 == tail[0]);
        assert(s =~= p0 + (seq![SLASH] + (t0 + absolute_text(rest))));
        assert(s[p0.len() as int] == SLASH);
        lemma_first_slash_at(s, p0.len() as int);
        assert(s.take(p0.len() as int) =~= p0);
        assert(s.subrange(p0.len() + 1int, s.len() as int) =~= t0 + absolute_text(rest));
        lemma_path_parts_text(t0, rest);
        assert(seq![p0] + (seq![t0] + rest) =~= seq![p0] + tail);
    }
}

/// The text of an absolute selector reads back as that selector, and it
/// matches an element exactly when the element's path is its parts.
#[verifier::spinoff_prover]
#[verifier::rlimit(100)]
pub proof fn law_absolute_selector_text(parts: Seq<Seq<u8>>, path: Seq<Seq<u8>>, name: Seq<u8>)
    requires
        parts.len() > 0,
        plain_parts(parts),
    ensures
        parse_selector(absolute_text(parts)) == Some(SelectorView::Absolute(parts)),
        selector_matches(SelectorView::Absolute(parts), path, name) <==> path == parts,
{
    let s = absolute_text(parts);
    let p0 = parts[0];
    let tail = parts.skip(1);
    assert(p0.len() > 0);
    assert(plain_parts(tail)) by {
        assert forall|i: int| 0 <= i < tail.len() implies (#[trigger] tail[i]).len() > 0
            && forall|j: int| 0 <= j < tail[i].len() ==> tail[i][j] != SLASH by {
            assert(tail[i] == parts[i + 1]);
        }
    }
    assert(s =~= seq![SLASH] + (p0 + absolute_text(tail)));
    assert(s[0] == SLASH);
    assert(s[1] == p0[0]);
    lemma_first_slash_at(s, 0);
    assert(s.subrange(1, s.len() as int) =~= p0 + absolute_text(tail));
    lemma_path_parts_text(p0, tail);
    assert(seq![p0] + tail =~= parts);
}

/// What a query keeps while it runs: it has never reported more matches
/// than its maximum, and it is done once it has reported that many.
pub open spec fn query_bounded(q: QueryState) -> bool {
    &&& q.printed <= q.max
    &&& (q.printed >= q.max ==> q.done)
}

/// A query never reports more matches than its maximum: every step keeps
/// `query_bounded`, and once done a query changes no more.
pub proof fn law_query_stops_at_max(q: QueryState, path: Seq<Seq<u8>>, name: Seq<u8>, text: Seq<u8>, content: Seq<u8>)
    requires
        query_bounded(q),
    ensures
        query_bounded(query_on_start(q, path, name)),
        query_bounded(query_on_text(q, text)),
        query_bounded(query_on_end(q, path, content)),
        q.done ==> query_on_start(q, path, name) == q && query_on_text(q, text) == q && query_on_end(q, path, content)
            == q,
{
}

} // verus!
