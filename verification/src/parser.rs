//! The public pull-parser API: limits, event and error kinds, and the
//! streaming parser over a byte source.

use vstd::prelude::*;

pub use crate::attributes::Attributes;
use crate::input_buffer::InputBuffer;
use crate::search::{LT, GT, SLASH, BANG, QMARK, first_index, lemma_first_index, lemma_first_occurrence, memchr_first};
use crate::slice_parser::{
    ParseCore, ParseError, SliceLimits, SliceOutcome, SliceState, token_step, declaration_end,
    overlapping_markup, declaration_end_from, overlapping_at, opens_comment, opens_cdata, lemma_token_step_ok,
};
use crate::source::{ByteSource, QueueSource, SourceError};
use crate::tokenizer::{comment_close, cdata_close, pi_close, find_comment_end, find_cdata_end, find_pi_end};

verus! {

/// Limits that bound the parser's memory use.
#[derive(Debug, Clone)]
pub struct ParserLimits {
    pub max_depth: usize,
    pub max_attributes: usize,
    pub max_name_len: usize,
    pub max_attr_name_len: usize,
    pub max_attr_value_len: usize,
    pub max_text_chunk_len: usize,
    pub max_text_total_len: Option<usize>,
    pub max_comment_chunk_len: usize,
    pub max_comment_total_len: Option<usize>,
    pub max_cdata_chunk_len: usize,
    pub max_cdata_total_len: Option<usize>,
    pub max_pi_chunk_len: usize,
    pub max_pi_total_len: Option<usize>,
    /// Include accumulated bytes in `Fault` events' `data` field when true.
    pub include_fault_payload: bool,
}

/// The kind of an event.
#[derive(Debug, Clone, Copy, PartialEq, Eq, Structural)]
pub enum EventType {
    StartElement,
    EndElement,
    Text,
    Comment,
    CData,
    ProcessingInstruction,
    Fault,
    Eof,
}

/// Why a `Fault` event was emitted.
#[derive(Debug, Clone, Copy, PartialEq, Eq, Structural)]
pub enum ErrorCode {
    UnexpectedEof,
    UnclosedElement,
    OrphanedEndElement,
    MismatchedEndElement,
    MismatchedQuotes,
    TooManyAttributes,
    DepthLimitExceeded,
    TokenTooLong,
    AttributeNameTooLong,
    AttributeValueTooLong,
    NameTooLong,
    TextTooLong,
    CommentTooLong,
    CDataTooLong,
    ProcessingInstructionTooLong,
    InvalidStructure,
    IoError,
}

/// An event: its kind, the bytes it carries (a name, text, comment, CDATA
/// or processing-instruction content), whether it continues a piece cut by a
/// chunk limit, the fault code of a `Fault`, and the attributes of a start
/// element.
pub struct Event {
    pub event_type: EventType,
    pub data: Vec<u8>,
    pub is_continuation: bool,
    pub error: Option<ErrorCode>,
    pub attributes: Attributes,
}

/// An attribute as raw bytes.
pub struct Attribute<'a> {
    pub name: &'a [u8],
    pub value: &'a [u8],
}

impl ParserLimits {
    /// The limits that must be positive are.
    pub open spec fn is_valid(&self) -> bool {
        self.max_depth > 0 && self.max_attributes > 0 && self.max_name_len > 0
    }

    /// Check that the depth, attribute and name limits are positive.
    pub fn validate(&self) -> (r: Result<(), &'static str>)
        ensures
            r is Ok <==> self.is_valid(),
            r matches Err(e) ==> e@ == "limits must be > 0 for depth/attributes/name_len"@,
    {
        if self.max_depth == 0 || self.max_attributes == 0 || self.max_name_len == 0 {
            return Err("limits must be > 0 for depth/attributes/name_len");
        }
        Ok(())
    }
}


/// The size of the streaming parser's input window; a token must fit in it.
pub const BUFFER_SIZE: usize = 65536;

/// The state of the streaming parser, apart from its input window: the names
/// of the open elements, a pending synthetic end element, whether the fault
/// for unclosed elements has been reported, whether bytes are being skipped
/// after a fault, and whether the end of input has been reported.
pub struct StreamState {
    pub names: Seq<Seq<u8>>,
    pub pending: Option<Seq<u8>>,
    pub eof_fault: bool,
    pub skipping: bool,
    pub finished: bool,
}

/// What one step of the streaming parser yields: an event, or nothing when
/// it only skipped bytes.
pub enum StreamOutcome {
    Emit { kind: EventType, data: Seq<u8>, cont: bool, error: Option<ErrorCode> },
    Skip,
}

/// The token-level state of `ps` at the front of the window.
pub open spec fn core_of(ps: StreamState) -> SliceState {
    SliceState { pos: 0, names: ps.names, pending: ps.pending, eof_fault: ps.eof_fault }
}

/// `ps` with the token-level state `st`.
pub open spec fn with_core(ps: StreamState, st: SliceState) -> StreamState {
    StreamState { names: st.names, pending: st.pending, eof_fault: st.eof_fault, ..ps }
}

/// A fault event without data.
pub open spec fn fault_of(code: ErrorCode) -> StreamOutcome {
    StreamOutcome::Emit { kind: EventType::Fault, data: Seq::empty(), cont: false, error: Some(code) }
}

/// The end-of-input event.
pub open spec fn eof_outcome() -> StreamOutcome {
    StreamOutcome::Emit { kind: EventType::Eof, data: Seq::empty(), cont: false, error: None }
}

/// A token-level outcome as a stream outcome.
pub open spec fn lift(o: SliceOutcome) -> StreamOutcome {
    match o {
        SliceOutcome::Emit { kind, data, cont, error } => StreamOutcome::Emit { kind, data, cont, error },
        SliceOutcome::Eof => eof_outcome(),
        SliceOutcome::Fault(c) => fault_of(c),
    }
}

/// The length of `<!-->`, `<!--->` or `<?>` at the front of `w`.
pub open spec fn overlap_len(w: Seq<u8>) -> int {
    if w[1] == QMARK { 3 } else if w[4] == GT { 5 } else { 6 }
}

/// The length of a start tag at the front of `w`, through its `>`.
pub open spec fn start_tag_len(w: Seq<u8>) -> int {
    match first_index(w.subrange(1, w.len() as int), GT) {
        Some(g) => g + 2,
        None => 1,
    }
}

/// The window does not yet hold a whole token (and the end of input has not
/// been seen): text with no `<` after it that is shorter than the text
/// limit, or markup whose end is missing.
pub open spec fn needs_more(w: Seq<u8>, lim: SliceLimits, ps: StreamState) -> bool {
    &&& !ps.finished
    &&& ps.pending is None
    &&& if ps.skipping {
        w.len() == 0
    } else {
        &&& declaration_end(w, 0) is None
        &&& !overlapping_markup(w, 0)
        &&& (w.len() == 0
            || (w[0] != LT && first_index(w, LT) is None && w.len() < lim.text)
            || (w[0] == LT && token_step(w, lim, core_of(ps)).0 == SliceOutcome::Fault(ErrorCode::UnexpectedEof)))
    }
}

/// A step can be taken on window `w`: the input has ended, the window is
/// full, or it holds what the step needs.
pub open spec fn window_ready(w: Seq<u8>, eof: bool, cap: int, lim: SliceLimits, ps: StreamState) -> bool {
    eof || w.len() >= cap || !needs_more(w, lim, ps)
}

/// One step of the streaming parser on window `w` (`eof`: the input has
/// ended after `w`): the outcome, how many bytes of the window are consumed,
/// and the next state.
pub open spec fn stream_step(w: Seq<u8>, eof: bool, lim: SliceLimits, ps: StreamState) -> (StreamOutcome, int, StreamState) {
    if ps.finished {
        (eof_outcome(), 0, ps)
    } else if ps.pending is Some {
        let t = token_step(w, lim, core_of(ps));
        (lift(t.0), 0, with_core(ps, t.1))
    } else if ps.skipping {
        match first_index(w, LT) {
            Some(i) => (StreamOutcome::Skip, i, StreamState { skipping: false, ..ps }),
            None => (StreamOutcome::Skip, w.len() as int, StreamState { skipping: !eof, ..ps }),
        }
    } else {
        match declaration_end(w, 0) {
            Some(n) => (StreamOutcome::Skip, n, ps),
            None => if overlapping_markup(w, 0) {
                (fault_of(ErrorCode::InvalidStructure), overlap_len(w), ps)
            } else {
                let t = token_step(w, lim, core_of(ps));
                match t.0 {
                    SliceOutcome::Emit { .. } => (lift(t.0), t.1.pos, with_core(ps, t.1)),
                    SliceOutcome::Eof => (eof_outcome(), 0, StreamState { finished: true, ..ps }),
                    SliceOutcome::Fault(c) => if c == ErrorCode::UnexpectedEof {
                        if eof {
                            if w.len() == 1 {
                                (StreamOutcome::Emit { kind: EventType::Text, data: w, cont: false, error: None }, 1, ps)
                            } else {
                                (fault_of(ErrorCode::UnexpectedEof), w.len() as int, ps)
                            }
                        } else {
                            (fault_of(ErrorCode::TokenTooLong), 1, StreamState { skipping: true, ..ps })
                        }
                    } else if c == ErrorCode::DepthLimitExceeded {
                        (fault_of(c), start_tag_len(w), ps)
                    } else {
                        (fault_of(c), 0, ps)
                    },
                }
            },
        }
    }
}

/// `r` is what a step returns for the outcome `o`.
pub open spec fn step_result_is(r: Option<Event>, o: StreamOutcome) -> bool {
    match o {
        StreamOutcome::Emit { kind, data, cont, error } => {
            &&& r is Some
            &&& r->Some_0.event_type == kind
            &&& r->Some_0.data@ == data
            &&& r->Some_0.is_continuation == cont
            &&& r->Some_0.error == error
            &&& r->Some_0.attributes.pairs_view().len() == 0
        },
        StreamOutcome::Skip => r is None,
    }
}

/// The window `w2`, source bytes `s2` and end flag `e2` come from `w`, `s`
/// and `e` by reading: the window grew by the next bytes of the source, and
/// the input is marked as ended only once the source has nothing left (and
/// nothing is read after that).
pub open spec fn filled(w: Seq<u8>, s: Seq<u8>, e: bool, w2: Seq<u8>, s2: Seq<u8>, e2: bool) -> bool {
    &&& s2.len() <= s.len()
    &&& w2 == w + s.take(s.len() - s2.len())
    &&& s2 == s.skip(s.len() - s2.len())
    &&& (e ==> e2 && s2 == s)
    &&& (e2 && !e ==> s2.len() == 0)
}

/// Reading twice is reading.
pub proof fn lemma_filled_trans(
    w: Seq<u8>, s: Seq<u8>, e: bool, w1: Seq<u8>, s1: Seq<u8>, e1: bool, w2: Seq<u8>, s2: Seq<u8>, e2: bool,
)
    requires
        filled(w, s, e, w1, s1, e1),
        filled(w1, s1, e1, w2, s2, e2),
    ensures
        filled(w, s, e, w2, s2, e2),
{
    let k1 = s.len() - s1.len();
    let k2 = s1.len() - s2.len();
    assert(s.take(k1 + k2) =~= s.take(k1) + s1.take(k2));
    assert(s2 =~= s.skip(k1 + k2));
    assert(w2 =~= w + s.take(k1 + k2));
    if e2 && !e {
        if e1 {
            assert(s1.len() == 0);
        }
    }
}

/// Nothing read.
pub proof fn lemma_filled_none(w: Seq<u8>, s: Seq<u8>, e: bool)
    ensures
        filled(w, s, e, w, s, e),
{
    assert(s.take(0) =~= Seq::<u8>::empty());
    assert(w + s.take(0) =~= w);
    assert(s.skip(0) =~= s);
}

/// The outcome an event stands for.
pub open spec fn outcome_of(ev: Event) -> StreamOutcome {
    StreamOutcome::Emit { kind: ev.event_type, data: ev.data@, cont: ev.is_continuation, error: ev.error }
}

/// What one call of the parser's `next_event` does, from window `w`, source
/// bytes `s`, end flag `e` and state `ps`: reading (to `fills[0]`: window,
/// source bytes and end flag) until the window is ready, then one step of
/// `stream_step`; a step that only skips bytes is followed by more reading
/// and stepping, through the rest of `fills`. The step that yields an event
/// yields `o`, and leaves window, source bytes, end flag and state `fin`.
pub open spec fn stream_run(
    w: Seq<u8>,
    s: Seq<u8>,
    e: bool,
    lim: SliceLimits,
    ps: StreamState,
    fills: Seq<(Seq<u8>, Seq<u8>, bool)>,
    o: StreamOutcome,
    fin: (Seq<u8>, Seq<u8>, bool, StreamState),
) -> bool
    decreases fills.len(),
{
    if fills.len() == 0 {
        false
    } else {
        let (w1, s1, e1) = fills[0];
        let t = stream_step(w1, e1, lim, ps);
        &&& filled(w, s, e, w1, s1, e1)
        &&& window_ready(w1, e1, BUFFER_SIZE as int, lim, ps)
        &&& if t.0 is Skip {
            stream_run(w1.skip(t.1), s1, e1, lim, t.2, fills.skip(1), o, fin)
        } else {
            fills.len() == 1 && o == t.0 && fin == (w1.skip(t.1), s1, e1, t.2)
        }
    }
}

/// An event without data.
fn bare_event(kind: EventType, error: Option<ErrorCode>) -> (e: Event)
    ensures
        e.event_type == kind,
        e.data@ == Seq::<u8>::empty(),
        !e.is_continuation,
        e.error == error,
        e.attributes.pairs_view().len() == 0,
{
    let data: Vec<u8> = Vec::new();
    Event { event_type: kind, data, is_continuation: false, error, attributes: Attributes::empty() }
}

/// Streaming pull parser over a byte source, with a fixed-size input window.
pub struct Parser<S: ByteSource> {
    source: S,
    input: InputBuffer,
    core: ParseCore,
    skipping: bool,
    finished: bool,
}

impl<S: ByteSource> Parser<S> {
    /// The unread bytes in the window.
    pub closed spec fn window(&self) -> Seq<u8> {
        self.input.data()
    }

    /// Whether the source has reported the end of its input.
    pub closed spec fn source_ended(&self) -> bool {
        self.input.at_eof()
    }

    /// The size of the window.
    pub closed spec fn window_cap(&self) -> int {
        self.input.cap() as int
    }

    /// The limits as integers.
    pub closed spec fn lim(&self) -> SliceLimits {
        self.core.lim()
    }

    /// The parser's state apart from its window.
    pub closed spec fn pstate(&self) -> StreamState {
        StreamState {
            names: self.core.state().names,
            pending: self.core.state().pending,
            eof_fault: self.core.state().eof_fault,
            skipping: self.skipping,
            finished: self.finished,
        }
    }

    /// The bytes the source will still yield.
    pub closed spec fn source_stream(&self) -> Seq<u8> {
        self.source.stream()
    }

    /// Whether reading from the source never fails.
    pub closed spec fn reliable(&self) -> bool {
        self.source.never_fails()
    }

    /// The parser's parts agree with each other.
    pub closed spec fn wf(&self) -> bool {
        &&& self.core.wf()
        &&& self.core.pos_view() == 0
        &&& self.input.wf()
        &&& self.input.cap() == BUFFER_SIZE
    }

    /// A parser reading from `reader`; the limits must be valid.
    pub fn new(reader: S, limits: ParserLimits) -> (p: Self)
        requires
            limits.is_valid(),
        ensures
            p.wf(),
            p.window().len() == 0,
            !p.source_ended(),
            p.source_stream() == reader.stream(),
            p.reliable() == reader.never_fails(),
            p.lim() == (SliceLimits {
                depth: limits.max_depth as int,
                name: limits.max_name_len as int,
                text: limits.max_text_chunk_len as int,
                comment: limits.max_comment_chunk_len as int,
                cdata: limits.max_cdata_chunk_len as int,
                pi: limits.max_pi_chunk_len as int,
            }),
            p.pstate() == (StreamState {
                names: Seq::empty(),
                pending: None,
                eof_fault: false,
                skipping: false,
                finished: false,
            }),
    {
        Parser {
            source: reader,
            input: InputBuffer::with_capacity(BUFFER_SIZE),
            core: ParseCore::new(limits),
            skipping: false,
            finished: false,
        }
    }
}


/// Whether the markup at the front of `w` lacks its end in `w`, so that the
/// token step reports an unexpected end.
fn token_incomplete(w: &[u8], Ghost(lim): Ghost<SliceLimits>, Ghost(st): Ghost<SliceState>) -> (r: bool)
    requires
        st.pos == 0,
        st.pending is None,
        w@.len() > 0,
        w@[0] == LT,
    ensures
        r == (token_step(w@, lim, st).0 == SliceOutcome::Fault(ErrorCode::UnexpectedEof)),
{
    let wlen = w.len();
    let ghost b = w@;
    proof {
        assert(b.subrange(0, b.len() as int) =~= b);
        crate::search::lemma_first_index_props(b, LT);
        assert(first_index(b, LT) == Some(0int));
    }
    if wlen < 2 {
        assert(token_step(w@, lim, st).0 == SliceOutcome::Fault(ErrorCode::UnexpectedEof)) by { reveal(token_step); }
        return true;
    }
    let second = w[1];
    if second == SLASH {
        let rest = &w[2..wlen];
        let found = memchr_first(GT, rest);
        proof { lemma_first_index(rest@, GT, found); }
        assert((token_step(w@, lim, st).0 == SliceOutcome::Fault(ErrorCode::UnexpectedEof)) == found.is_none())
            by { reveal(token_step); }
        found.is_none()
    } else if second == BANG {
        if opens_comment(w) {
            let close = find_comment_end(w);
            proof { lemma_first_occurrence(b, comment_close(), close); }
            assert((token_step(w@, lim, st).0 == SliceOutcome::Fault(ErrorCode::UnexpectedEof)) == close.is_none())
                by { reveal(token_step); }
            close.is_none()
        } else if opens_cdata(w) {
            let close = find_cdata_end(w);
            proof { lemma_first_occurrence(b, cdata_close(), close); }
            assert((token_step(w@, lim, st).0 == SliceOutcome::Fault(ErrorCode::UnexpectedEof)) == close.is_none())
                by { reveal(token_step); }
            close.is_none()
        } else {
            assert(token_step(w@, lim, st).0 == SliceOutcome::Fault(ErrorCode::UnexpectedEof)) by { reveal(token_step); }
            true
        }
    } else if second == QMARK {
        let close = find_pi_end(w);
        proof { lemma_first_occurrence(b, pi_close(), close); }
        assert((token_step(w@, lim, st).0 == SliceOutcome::Fault(ErrorCode::UnexpectedEof)) == close.is_none())
            by { reveal(token_step); }
        close.is_none()
    } else {
        let rest = &w[1..wlen];
        let found = memchr_first(GT, rest);
        proof { lemma_first_index(rest@, GT, found); }
        assert((token_step(w@, lim, st).0 == SliceOutcome::Fault(ErrorCode::UnexpectedEof)) == found.is_none())
            by { reveal(token_step); }
        found.is_none()
    }
}


/// A step that only skips bytes on a window that is ready consumes some
/// bytes, or leaves the skipping of bytes behind.
pub proof fn lemma_skip_progress(w: Seq<u8>, eof: bool, cap: int, lim: SliceLimits, ps: StreamState)
    requires
        cap > 0,
        window_ready(w, eof, cap, lim, ps),
        stream_step(w, eof, lim, ps).0 is Skip,
    ensures
        ({
            let t = stream_step(w, eof, lim, ps);
            2 * t.1 + (if ps.skipping { 1int } else { 0int }) > (if t.2.skipping { 1int } else { 0int })
        }),
{
    crate::search::lemma_first_index_props(w, LT);
    let t = stream_step(w, eof, lim, ps);
    if ps.finished {
        assert(t.0 == eof_outcome());
    } else if ps.pending is Some {
        assert(t.0 == lift(token_step(w, lim, core_of(ps)).0));
    } else if ps.skipping {
        if first_index(w, LT) is None {
            assert(eof || w.len() > 0);
        }
    } else {
        match declaration_end(w, 0) {
            Some(n) => {
                let b = w.subrange(0, w.len() as int);
                crate::search::lemma_first_index_props(b.subrange(2, b.len() as int), GT);
                assert(t.1 == n);
                assert(n > 0);
            },
            None => {
                assert(!(t.0 is Skip));
            },
        }
    }
}

impl<S: ByteSource> Parser<S> {
    /// Whether the window must grow before a step: the input has not ended,
    /// the window is not full, and it lacks what the step needs.
    fn needs_more_now(&self) -> (r: bool)
        requires
            self.wf(),
        ensures
            r == (!self.source_ended() && self.window().len() < self.window_cap()
                && needs_more(self.window(), self.lim(), self.pstate())),
    {
        if self.finished || self.core.has_pending() {
            return false;
        }
        if self.input.is_eof() || self.input.len() >= self.input.capacity() {
            return false;
        }
        let w = self.input.as_slice();
        if self.skipping {
            return w.len() == 0;
        }
        if declaration_end_from(w, 0).is_some() {
            return false;
        }
        if overlapping_at(w, 0) {
            return false;
        }
        if w.len() == 0 {
            return true;
        }
        if w[0] != LT {
            let f = memchr_first(LT, w);
            proof { lemma_first_index(w@, LT, f); }
            return f.is_none() && w.len() < self.core.text_limit();
        }
        token_incomplete(w, Ghost(self.lim()), Ghost(core_of(self.pstate())))
    }

    /// Read from the source until a step can be taken on the window; the
    /// state is left alone and the window only grows.
    pub fn fill(&mut self) -> (r: Result<(), SourceError>)
        requires
            old(self).wf(),
        ensures
            final(self).wf(),
            final(self).lim() == old(self).lim(),
            final(self).pstate() == old(self).pstate(),
            final(self).window().take(old(self).window().len() as int) == old(self).window(),
            final(self).window().len() >= old(self).window().len(),
            old(self).source_ended() ==> final(self).source_ended(),
            final(self).source_budget() + final(self).window().len() <= old(self).source_budget() + old(self).window().len(),
            r is Ok ==> window_ready(final(self).window(), final(self).source_ended(), final(self).window_cap(),
                final(self).lim(), final(self).pstate()),
            old(self).pstate().finished ==> r is Ok,
            r is Ok ==> filled(old(self).window(), old(self).source_stream(), old(self).source_ended(),
                final(self).window(), final(self).source_stream(), final(self).source_ended()),
            final(self).reliable() == old(self).reliable(),
            old(self).reliable() || old(self).source_ended() ==> r is Ok,
    {
        let ghost w0 = self.window();
        proof { assert(w0.take(w0.len() as int) =~= w0); }
        proof { lemma_filled_none(w0, self.source_stream(), self.source_ended()); }
        while self.needs_more_now()
            invariant
                self.wf(),
                self.lim() == old(self).lim(),
                self.pstate() == old(self).pstate(),
                self.window().take(w0.len() as int) == w0,
                self.window().len() >= w0.len(),
                w0 == old(self).window(),
                old(self).source_ended() ==> self.source_ended(),
                self.source_budget() + self.window().len() <= old(self).source_budget() + old(self).window().len(),
                filled(old(self).window(), old(self).source_stream(), old(self).source_ended(),
                    self.window(), self.source_stream(), self.source_ended()),
                self.reliable() == old(self).reliable(),
            decreases self.window_cap() - self.window().len() + (if self.source_ended() { 0int } else { 1int }),
        {
            let ghost before = self.window();
            let ghost ended_before = self.source_ended();
            let ghost st_before = self.source_stream();
            proof { self.input.lemma_fits(); }
            assert(!ended_before && before.len() < self.window_cap());
            match self.input.fill_from(&mut self.source) {
                Ok(k) => {
                    assert(self.window().take(w0.len() as int) =~= before.take(w0.len() as int)) by {
                        assert(self.window().take(before.len() as int) == before);
                    }
                    assert(k > 0 || self.source_ended());
                    assert(self.window_cap() - self.window().len() + (if self.source_ended() { 0int } else { 1int })
                        < self.window_cap() - before.len() + 1);
                    proof {
                        self.input.lemma_fits();
                        assert(st_before.len() - self.source_stream().len() == k);
                        assert(filled(before, st_before, ended_before, self.window(), self.source_stream(),
                            self.source_ended()));
                        lemma_filled_trans(old(self).window(), old(self).source_stream(), old(self).source_ended(),
                            before, st_before, ended_before, self.window(), self.source_stream(), self.source_ended());
                    }
                },
                Err(e) => {
                    return Err(e);
                },
            }
        }
        Ok(())
    }

    /// The bound on what the source can still yield.
    pub closed spec fn source_budget(&self) -> nat {
        self.source.stream().len()
    }

    /// One step on the window: an event, or `None` when bytes were only
    /// skipped.
    pub fn step(&mut self) -> (r: Option<Event>)
        requires
            old(self).wf(),
        ensures
            final(self).wf(),
            final(self).lim() == old(self).lim(),
            final(self).source_ended() == old(self).source_ended(),
            final(self).source_budget() == old(self).source_budget(),
            final(self).source_stream() == old(self).source_stream(),
            final(self).reliable() == old(self).reliable(),
            ({
                let t = stream_step(old(self).window(), old(self).source_ended(), old(self).lim(), old(self).pstate());
                &&& step_result_is(r, t.0)
                &&& 0 <= t.1 <= old(self).window().len()
                &&& final(self).window() == old(self).window().skip(t.1)
                &&& final(self).pstate() == t.2
            }),
    {
        let ghost w = self.window();
        let ghost ps = self.pstate();
        let ghost lim = self.lim();
        proof { assert(w.skip(0) =~= w); }
        if self.finished {
            return Some(bare_event(EventType::Eof, None));
        }
        if self.core.has_pending() {
            proof {
                assert(self.core.state() == core_of(ps));
                let name = ps.pending->Some_0;
                assert(token_step(w, lim, core_of(ps)) == (
                    SliceOutcome::Emit { kind: EventType::EndElement, data: name, cont: false, error: None },
                    SliceState { pending: None, ..core_of(ps) },
                )) by { reveal(token_step); }
            }
            let r = self.core.pending_event(self.input.as_slice());
            self.core.set_pos(0);
            return match r {
                Ok(ev) => Some(ev),
                Err(_) => None,
            };
        }
        let wlen = self.input.len();
        if self.skipping {
            let found = memchr_first(LT, self.input.as_slice());
            proof { lemma_first_index(w, LT, found); }
            match found {
                Some(i) => {
                    self.input.consume(i);
                    self.skipping = false;
                },
                None => {
                    let ended = self.input.is_eof();
                    self.input.consume(wlen);
                    self.skipping = !ended;
                },
            }
            return None;
        }
        self.core.trim_names();
        let w_slice = self.input.as_slice();
        match declaration_end_from(w_slice, 0) {
            Some(n) => {
                self.input.consume(n);
                return None;
            },
            None => {},
        }
        if overlapping_at(w_slice, 0) {
            let n: usize = if w_slice[1] == QMARK { 3 } else if w_slice[4] == GT { 5 } else { 6 };
            self.input.consume(n);
            return Some(bare_event(EventType::Fault, Some(ErrorCode::InvalidStructure)));
        }
        assert(self.core.state() == core_of(ps));
        let r = self.core.read_token(w_slice);
        let n = self.core.position();
        self.core.set_pos(0);
        proof {
            assert(declaration_end(w, 0) is None);
            assert(!overlapping_markup(w, 0));
        }
        match r {
            Ok(ev) => {
                proof {
                    let t = token_step(w, lim, core_of(ps));
                    assert(t.0 is Emit);
                    assert(n as int == t.1.pos);
                    assert(n <= w.len());
                }
                self.input.consume(n);
                proof {
                    let t = token_step(w, lim, core_of(ps));
                    assert(self.pstate() == with_core(ps, t.1));
                    assert(self.window() == w.skip(n as int));
                    let st = stream_step(w, self.source_ended(), lim, ps);
                    assert(st.0 == lift(t.0));
                    assert(st.1 == t.1.pos);
                    assert(st.2 == with_core(ps, t.1));
                    assert(step_result_is(Some(ev), lift(t.0)));
                    assert(old(self).pstate() == ps);
                    assert(old(self).window() == w);
                    assert(old(self).lim() == lim);
                    assert(old(self).source_ended() == self.source_ended());
                    let ot = stream_step(old(self).window(), old(self).source_ended(), old(self).lim(), old(self).pstate());
                    assert(ot == st);
                    assert(ot.1 <= w.len());
                    assert(self.pstate() == ot.2);
                }
                Some(ev)
            },
            Err(ParseError::Eof) => {
                proof {
                    crate::slice_parser::lemma_token_step_faults(w, lim, core_of(ps));
                    assert(self.core.state() == core_of(ps));
                }
                self.finished = true;
                Some(bare_event(EventType::Eof, None))
            },
            Err(ParseError::Fault(c)) => {
                proof {
                    crate::slice_parser::lemma_token_step_faults(w, lim, core_of(ps));
                    assert(self.core.state() == core_of(ps));
                    assert(self.pstate() == ps);
                }
                if c == ErrorCode::UnexpectedEof {
                    if self.input.is_eof() {
                        if wlen == 1 {
                            let data = crate::tokenizer::copy_range(w_slice, 0, 1);
                            assert(w_slice@.subrange(0, 1) =~= w);
                            self.input.consume(1);
                            Some(Event {
                                event_type: EventType::Text,
                                data,
                                is_continuation: false,
                                error: None,
                                attributes: Attributes::empty(),
                            })
                        } else {
                            self.input.consume(wlen);
                            Some(bare_event(EventType::Fault, Some(ErrorCode::UnexpectedEof)))
                        }
                    } else {
                        self.input.consume(1);
                        self.skipping = true;
                        Some(bare_event(EventType::Fault, Some(ErrorCode::TokenTooLong)))
                    }
                } else if c == ErrorCode::DepthLimitExceeded {
                    let rest = &w_slice[1..wlen];
                    let found = memchr_first(GT, rest);
                    proof {
                        lemma_first_index(rest@, GT, found);
                        assert(rest@ =~= w.subrange(1, w.len() as int));
                    }
                    let len: usize = match found {
                        Some(g) => g + 2,
                        None => 1,
                    };
                    self.input.consume(len);
                    Some(bare_event(EventType::Fault, Some(c)))
                } else {
                    Some(bare_event(EventType::Fault, Some(c)))
                }
            },
        }
    }

    /// The next event, reading from the source as needed. `Err` reports a
    /// failed read.
    pub fn next_event(&mut self) -> (r: Result<Event, SourceError>)
        requires
            old(self).wf(),
        ensures
            final(self).wf(),
            final(self).lim() == old(self).lim(),
            r matches Ok(ev) ==> (ev.event_type == EventType::Fault <==> ev.error is Some),
            r matches Ok(ev) ==> elements_nest(old(self).pstate(), ev.event_type, ev.data@, final(self).pstate(), old(self).lim()),
            r is Err ==> final(self).pstate().names == old(self).pstate().names
                && final(self).pstate().pending == old(self).pstate().pending,
            old(self).pstate().finished ==> (r matches Ok(ev) && ev.event_type == EventType::Eof
                && final(self).pstate() == old(self).pstate()),
            final(self).reliable() == old(self).reliable(),
            old(self).reliable() || old(self).source_ended() ==> r is Ok,
            r matches Ok(ev) ==> ev.attributes.pairs_view().len() == 0 && exists|fills: Seq<(Seq<u8>, Seq<u8>, bool)>|
                stream_run(
                    old(self).window(),
                    old(self).source_stream(),
                    old(self).source_ended(),
                    old(self).lim(),
                    old(self).pstate(),
                    fills,
                    outcome_of(ev),
                    (final(self).window(), final(self).source_stream(), final(self).source_ended(), final(self).pstate()),
                ),
    {
        let ghost w0 = self.window();
        let ghost s0 = self.source_stream();
        let ghost e0 = self.source_ended();
        let ghost ps0 = self.pstate();
        let ghost lim = self.lim();
        let ghost mut acc: Seq<(Seq<u8>, Seq<u8>, bool)> = Seq::empty();
        proof {
            assert forall|rest: Seq<(Seq<u8>, Seq<u8>, bool)>, o: StreamOutcome, fin: (Seq<u8>, Seq<u8>, bool, StreamState)|
                #[trigger] stream_run(w0, s0, e0, lim, ps0, rest, o, fin)
                implies stream_run(w0, s0, e0, lim, ps0, acc + rest, o, fin) by {
                assert(acc + rest =~= rest);
            }
        }
        loop
            invariant
                self.wf(),
                self.lim() == old(self).lim(),
                lim == old(self).lim(),
                w0 == old(self).window(),
                s0 == old(self).source_stream(),
                e0 == old(self).source_ended(),
                ps0 == old(self).pstate(),
                self.pstate().names == old(self).pstate().names,
                self.pstate().pending == old(self).pstate().pending,
                old(self).pstate().finished ==> self.pstate() == old(self).pstate(),
                self.reliable() == old(self).reliable(),
                old(self).source_ended() ==> self.source_ended(),
                forall|rest: Seq<(Seq<u8>, Seq<u8>, bool)>, o: StreamOutcome, fin: (Seq<u8>, Seq<u8>, bool, StreamState)|
                    #[trigger] stream_run(self.window(), self.source_stream(), self.source_ended(), lim, self.pstate(),
                        rest, o, fin) ==> stream_run(w0, s0, e0, lim, ps0, acc + rest, o, fin),
            decreases
                2 * (self.source_budget() + self.window().len()) + (if self.pstate().skipping { 1int } else { 0int })
                    + (if self.source_ended() { 0int } else { 1int }),
        {
            let ghost cw = self.window();
            let ghost cs = self.source_stream();
            let ghost ce = self.source_ended();
            let ghost cps = self.pstate();
            match self.fill() {
                Err(e) => {
                    return Err(e);
                },
                Ok(()) => {},
            }
            let ghost w = self.window();
            let ghost st = self.source_stream();
            let ghost e = self.source_ended();
            let ghost ps = self.pstate();
            let ghost f = (w, st, e);
            proof {
                law_stream_fault_convention(w, e, self.lim(), ps);
                law_stream_elements_nest(w, e, self.lim(), ps);
                lemma_stream_skip_keeps(w, e, self.lim(), ps);
                assert(ps == cps);
            }
            match self.step() {
                Some(ev) => {
                    proof {
                        let t = stream_step(w, e, lim, ps);
                        assert(outcome_of(ev) == t.0);
                        let fin = (self.window(), self.source_stream(), self.source_ended(), self.pstate());
                        let one = seq![f];
                        assert(one[0] == f);
                        assert(stream_run(cw, cs, ce, lim, cps, one, outcome_of(ev), fin));
                        assert(stream_run(w0, s0, e0, lim, ps0, acc + one, outcome_of(ev), fin));
                    }
                    return Ok(ev);
                },
                None => {
                    proof {
                        lemma_skip_progress(w, e, BUFFER_SIZE as int, self.lim(), ps);
                        let acc0 = acc;
                        assert forall|rest: Seq<(Seq<u8>, Seq<u8>, bool)>, o: StreamOutcome, fin: (Seq<u8>, Seq<u8>, bool, StreamState)|
                            #[trigger] stream_run(self.window(), self.source_stream(), self.source_ended(), lim,
                                self.pstate(), rest, o, fin)
                            implies stream_run(w0, s0, e0, lim, ps0, acc0.push(f) + rest, o, fin) by {
                            let more = seq![f] + rest;
                            assert(more[0] == f);
                            assert(more.skip(1) =~= rest);
                            assert(stream_run(cw, cs, ce, lim, cps, more, o, fin));
                            assert(acc0.push(f) + rest =~= acc0 + more);
                        }
                        acc = acc0.push(f);
                    }
                },
            }
        }
    }
}

impl Parser<QueueSource> {
    /// Whether the end of the input has been marked on the source.
    pub closed spec fn input_closed(&self) -> bool {
        self.source.is_closed()
    }

    /// Whether the end of the input has been marked on the source.
    pub fn is_input_closed(&self) -> (r: bool)
        ensures
            r == self.input_closed(),
    {
        self.source.closed()
    }

    /// Queue `bytes` after the input given so far; nothing else changes.
    pub fn push_input(&mut self, bytes: &[u8])
        requires
            old(self).wf(),
            !old(self).input_closed(),
        ensures
            final(self).wf(),
            final(self).window() == old(self).window(),
            final(self).source_ended() == old(self).source_ended(),
            final(self).lim() == old(self).lim(),
            final(self).pstate() == old(self).pstate(),
            final(self).source_stream() == old(self).source_stream() + bytes@,
            !final(self).input_closed(),
    {
        self.source.push(bytes);
    }

    /// Mark the end of the input: from now on reads do not fail, and once
    /// the queued bytes are read the input ends.
    pub fn close_input(&mut self)
        requires
            old(self).wf(),
        ensures
            final(self).wf(),
            final(self).window() == old(self).window(),
            final(self).source_ended() == old(self).source_ended(),
            final(self).lim() == old(self).lim(),
            final(self).pstate() == old(self).pstate(),
            final(self).source_stream() == old(self).source_stream(),
            final(self).input_closed(),
            final(self).reliable(),
    {
        self.source.close();
    }
}

} // verus!

verus! {

/// An event of kind `kind` carrying `data`, taken from state `ps` to state
/// `ps2`, keeps the open elements nested: an end element names the innermost
/// open element and closes it, ends a self-closing element just reported,
/// or, with none open, changes nothing; a start element opens its name
/// within the depth limit; no other event changes the open elements.
pub open spec fn elements_nest(ps: StreamState, kind: EventType, data: Seq<u8>, ps2: StreamState, lim: SliceLimits) -> bool {
    &&& (kind == EventType::EndElement ==> {
        ||| ps.pending == Some(data) && ps2.names == ps.names
        ||| ps.names.len() > 0 && data == ps.names.last() && ps2.names == ps.names.drop_last()
        ||| ps.names.len() == 0 && ps2.names == ps.names
    })
    &&& (kind == EventType::StartElement ==> {
        &&& ps.names.len() < lim.depth
        &&& ps2.names == ps.names.push(data) || (ps2.names == ps.names && ps2.pending == Some(data))
    })
    &&& (kind != EventType::EndElement && kind != EventType::StartElement ==> ps2.names == ps.names)
}

/// A step that only skips bytes leaves the open elements, the pending end
/// element and the end-of-input fault as they were.
proof fn lemma_stream_skip_keeps(w: Seq<u8>, eof: bool, lim: SliceLimits, ps: StreamState)
    ensures
        stream_step(w, eof, lim, ps).0 is Skip ==> {
            let ps2 = stream_step(w, eof, lim, ps).2;
            &&& ps2.names == ps.names
            &&& ps2.pending == ps.pending
            &&& ps2.finished == ps.finished
        },
{
    lemma_token_step_ok(w, lim, core_of(ps));
}

/// Every event the streaming parser reports follows the fault convention:
/// its kind is `Fault` exactly when it carries an error code.
pub proof fn law_stream_fault_convention(w: Seq<u8>, eof: bool, lim: SliceLimits, ps: StreamState)
    ensures
        stream_step(w, eof, lim, ps).0 is Emit ==> (stream_step(w, eof, lim, ps).0->kind == EventType::Fault
            <==> stream_step(w, eof, lim, ps).0->error is Some),
{
    lemma_token_step_ok(w, lim, core_of(ps));
}

/// A step consumes no more than the window holds.
#[verifier::spinoff_prover]
#[verifier::rlimit(60)]
pub proof fn law_stream_consumes_within_window(w: Seq<u8>, eof: bool, lim: SliceLimits, ps: StreamState)
    ensures
        0 <= stream_step(w, eof, lim, ps).1 <= w.len(),
{
    lemma_token_step_ok(w, lim, core_of(ps));
    if !ps.finished && ps.pending is None {
        crate::search::lemma_first_index_props(w, LT);
        if !ps.skipping {
            if let Some(n) = declaration_end(w, 0) {
                assert(w.subrange(0, w.len() as int) =~= w);
                crate::search::lemma_first_index_props(w.subrange(2, w.len() as int), GT);
            } else if overlapping_markup(w, 0) {
                assert(w.subrange(0, 3)[1] == w[1]);
                if w.len() >= 5 {
                    assert(w.subrange(0, 5)[1] == w[1]);
                    assert(w.subrange(0, 5)[4] == w[4]);
                }
                if w.len() >= 6 {
                    assert(w.subrange(0, 6)[1] == w[1]);
                    assert(w.subrange(0, 6)[4] == w[4]);
                }
            } else {
                crate::slice_parser::lemma_token_step_faults(w, lim, core_of(ps));
                if w.len() >= 1 {
                    crate::search::lemma_first_index_props(w.subrange(1, w.len() as int), GT);
                }
            }
        }
    }
}

/// Every event the streaming parser reports keeps the open elements nested
/// (`elements_nest`); a step that reports nothing changes no open element.
pub proof fn law_stream_elements_nest(w: Seq<u8>, eof: bool, lim: SliceLimits, ps: StreamState)
    ensures
        ({
            let (o, _, ps2) = stream_step(w, eof, lim, ps);
            &&& (o is Emit ==> elements_nest(ps, o->kind, o->data, ps2, lim))
            &&& (o is Skip ==> ps2.names == ps.names)
        }),
{
    lemma_token_step_ok(w, lim, core_of(ps));
}

/// Once the end of input is reported, every later step reports it again,
/// consumes nothing and changes nothing.
pub proof fn law_stream_eof_final(w: Seq<u8>, eof: bool, lim: SliceLimits, ps: StreamState, w2: Seq<u8>, eof2: bool)
    requires
        stream_step(w, eof, lim, ps).0 == eof_outcome(),
    ensures
        stream_step(w2, eof2, lim, stream_step(w, eof, lim, ps).2) == (eof_outcome(), 0int, stream_step(w, eof, lim, ps).2),
{
    lemma_token_step_ok(w, lim, core_of(ps));
}

} // verus!

verus! {

/// At the end of the input with nothing left in the window: with elements
/// still open, one `UnclosedElement` fault is reported first; then the end
/// of input is reported and the parser is finished.
pub proof fn law_stream_end_of_input(lim: SliceLimits, ps: StreamState)
    requires
        !ps.finished,
        !ps.skipping,
        ps.pending is None,
    ensures
        ps.names.len() > 0 && !ps.eof_fault ==> stream_step(Seq::empty(), true, lim, ps) == (
            fault_of(ErrorCode::UnclosedElement),
            0int,
            StreamState { eof_fault: true, ..ps },
        ),
        (ps.names.len() == 0 || ps.eof_fault) ==> stream_step(Seq::empty(), true, lim, ps) == (
            eof_outcome(),
            0int,
            StreamState { finished: true, ..ps },
        ),
{
    reveal(token_step);
    let w = Seq::<u8>::empty();
    assert(declaration_end(w, 0) is None);
    assert(!overlapping_markup(w, 0));
    assert(w.subrange(0, 0) =~= w);
}

/// After a fault that starts recovery, bytes are skipped up to the next `<`
/// (which is kept), or the whole window is skipped when it holds none;
/// recovery ends at that `<` or at the end of the input.
pub proof fn law_stream_recovery_skips_to_lt(w: Seq<u8>, eof: bool, lim: SliceLimits, ps: StreamState)
    requires
        !ps.finished,
        ps.pending is None,
        ps.skipping,
    ensures
        ({
            let (o, n, ps2) = stream_step(w, eof, lim, ps);
            &&& o is Skip
            &&& ps2 == StreamState { skipping: ps2.skipping, ..ps }
            &&& 0 <= n <= w.len()
            &&& forall|j: int| 0 <= j < n ==> w[j] != LT
            &&& (n < w.len() ==> w[n] == LT && !ps2.skipping)
            &&& (n == w.len() ==> (ps2.skipping <==> !eof))
        }),
{
    crate::search::lemma_first_index_props(w, LT);
}

} // verus!
