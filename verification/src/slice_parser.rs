//! A pull parser over a byte slice held in memory, for processing chunks.

use vstd::prelude::*;
use crate::attributes::{AttributeTable, Attributes};
use crate::element_stack::{ElementFrame, ElementStack};
use crate::parser::{ErrorCode, EventType, ParserLimits};
pub use crate::parser::Event;
use crate::scratch::{ScratchBuffers, room};
use crate::search::{
    LT, GT, SLASH, BANG, QMARK, DASH, LBRACKET, RBRACKET, occurs_at, first_index, first_occurrence,
    lemma_first_index, lemma_first_index_props, lemma_first_occurrence, lemma_first_occurrence_props,
    memchr_first,
};
use crate::tokenizer::{scan_name, run_from, comment_close, cdata_close, pi_close,
    find_comment_end, find_cdata_end, find_pi_end, name_stop, min_int, lemma_bounded_scan_run, lemma_run_props};

verus! {

/// Why the slice parser returned no event.
#[derive(Debug, Clone, Copy, PartialEq, Eq, Structural)]
pub enum ParseError {
    /// The input is used up.
    Eof,
    /// The parse stopped at a fault.
    Fault(ErrorCode),
}

/// `<!--`.
pub open spec fn comment_open() -> Seq<u8> {
    seq![LT, BANG, DASH, DASH]
}

/// `<![CDATA[`.
pub open spec fn cdata_open() -> Seq<u8> {
    seq![LT, BANG, LBRACKET, 0x43u8, 0x44u8, 0x41u8, 0x54u8, 0x41u8, LBRACKET]
}

/// `<!-->`, `<!--->` and `<?>`: a comment or processing instruction whose
/// closing sequence overlaps its opening one.
pub open spec fn overlapping_markup(input: Seq<u8>, i: int) -> bool {
    ||| occurs_at(input, seq![LT, BANG, DASH, DASH, GT], i)
    ||| occurs_at(input, seq![LT, BANG, DASH, DASH, DASH, GT], i)
    ||| occurs_at(input, seq![LT, QMARK, GT], i)
}

/// The limits the slice parser applies, as integers.
pub struct SliceLimits {
    pub depth: int,
    pub name: int,
    pub text: int,
    pub comment: int,
    pub cdata: int,
    pub pi: int,
}

/// The state of the slice parser: its position, the names of the open
/// elements (outermost first), a pending synthetic end element, and whether
/// the fault for unclosed elements at the end has been reported.
pub struct SliceState {
    pub pos: int,
    pub names: Seq<Seq<u8>>,
    pub pending: Option<Seq<u8>>,
    pub eof_fault: bool,
}

/// What one call of `next_event` yields.
pub enum SliceOutcome {
    Emit { kind: EventType, data: Seq<u8>, cont: bool, error: Option<ErrorCode> },
    Eof,
    Fault(ErrorCode),
}

/// The total length of the names.
pub open spec fn total_len(names: Seq<Seq<u8>>) -> int
    decreases names.len(),
{
    if names.len() == 0 { 0 } else { total_len(names.drop_last()) + names.last().len() }
}

/// An event that carries `data`.
pub open spec fn emit(kind: EventType, data: Seq<u8>, cont: bool) -> SliceOutcome {
    SliceOutcome::Emit { kind, data, cont, error: None }
}

/// The at most `limit` first bytes of `content`, and whether more follow.
pub open spec fn chunk_of(content: Seq<u8>, limit: int) -> (Seq<u8>, bool) {
    let take = min_int(content.len() as int, if limit < 0 { 0 } else { limit });
    (content.take(take), take < content.len())
}

/// The state `st` moved to position `pos`.
pub open spec fn at_pos(st: SliceState, pos: int) -> SliceState {
    SliceState { pos, ..st }
}

/// Where parsing goes on when the input at `pos` is a declaration other than
/// a comment or CDATA section (`<!DOCTYPE ...>` and the like) that is closed
/// by a `>`: just past that `>`.
pub open spec fn declaration_end(input: Seq<u8>, pos: int) -> Option<int> {
    if 0 <= pos && pos + 2 <= input.len() {
        let b = input.subrange(pos, input.len() as int);
        if b[0] == LT && b[1] == BANG && !(b.len() >= 4 && b.take(4) == comment_open())
            && !(b.len() >= 9 && b.take(9) == cdata_open()) {
            match first_index(b.subrange(2, b.len() as int), GT) {
                Some(g) => Some(pos + 2 + g + 1),
                None => None,
            }
        } else {
            None
        }
    } else {
        None
    }
}

/// Where parsing goes on from `pos` once the declarations there are skipped.
pub open spec fn skip_declarations(input: Seq<u8>, pos: int) -> int
    decreases input.len() - pos,
{
    match declaration_end(input, pos) {
        Some(next) => if pos < next <= input.len() { skip_declarations(input, next) } else { pos },
        None => pos,
    }
}

/// One call of `next_event` on `input` with limits `lim` in state `st`: a
/// pending end element, else one token after the declarations are skipped.
pub open spec fn slice_step(input: Seq<u8>, lim: SliceLimits, st: SliceState) -> (SliceOutcome, SliceState) {
    if st.pending is Some {
        token_step(input, lim, st)
    } else {
        token_step(input, lim, at_pos(st, skip_declarations(input, st.pos)))
    }
}

/// The next call of `next_event` does not meet a comment or processing
/// instruction whose closing sequence overlaps its opening one.
pub open spec fn step_supported(input: Seq<u8>, st: SliceState) -> bool {
    st.pending is Some || !overlapping_markup(input, skip_declarations(input, st.pos))
}

/// One token handled at the position of `st` (declarations aside).
#[verifier::opaque]
pub open spec fn token_step(input: Seq<u8>, lim: SliceLimits, st: SliceState) -> (SliceOutcome, SliceState) {
    if let Some(name) = st.pending {
        (emit(EventType::EndElement, name, false), SliceState { pending: None, ..st })
    } else if st.pos < 0 || st.pos > input.len() {
        (SliceOutcome::Eof, st)
    } else {
        let b = input.subrange(st.pos, input.len() as int);
        if b.len() == 0 {
            if st.names.len() > 0 && !st.eof_fault {
                (
                    SliceOutcome::Emit {
                        kind: EventType::Fault,
                        data: Seq::<u8>::empty(),
                        cont: false,
                        error: Some(ErrorCode::UnclosedElement),
                    },
                    SliceState { eof_fault: true, ..st },
                )
            } else {
                (SliceOutcome::Eof, st)
            }
        } else {
            let text_end = match first_index(b, LT) { Some(i) => i, None => b.len() as int };
            if text_end > 0 {
                let c = chunk_of(b.take(text_end), lim.text);
                (emit(EventType::Text, c.0, c.1), at_pos(st, st.pos + c.0.len()))
            } else if b.len() < 2 {
                (SliceOutcome::Fault(ErrorCode::UnexpectedEof), st)
            } else if b[1] == SLASH {
                end_tag_step(lim, st, b)
            } else if b[1] == BANG {
                if b.len() >= 4 && b.take(4) == comment_open() {
                    match first_occurrence(b, comment_close()) {
                        None => (SliceOutcome::Fault(ErrorCode::UnexpectedEof), st),
                        Some(e) => {
                            let c = chunk_of(b.subrange(4, e), lim.comment);
                            (emit(EventType::Comment, c.0, c.1), at_pos(st, st.pos + e + 3))
                        },
                    }
                } else if b.len() >= 9 && b.take(9) == cdata_open() {
                    match first_occurrence(b, cdata_close()) {
                        None => (SliceOutcome::Fault(ErrorCode::UnexpectedEof), st),
                        Some(e) => {
                            let c = chunk_of(b.subrange(9, e), lim.cdata);
                            (emit(EventType::CData, c.0, c.1), at_pos(st, st.pos + e + 3))
                        },
                    }
                } else {
                    (SliceOutcome::Fault(ErrorCode::UnexpectedEof), st)
                }
            } else if b[1] == QMARK {
                match first_occurrence(b, pi_close()) {
                    None => (SliceOutcome::Fault(ErrorCode::UnexpectedEof), st),
                    Some(e) => {
                        let c = chunk_of(b.subrange(2, e), lim.pi);
                        (emit(EventType::ProcessingInstruction, c.0, c.1), at_pos(st, st.pos + e + 2))
                    },
                }
            } else {
                start_tag_step(lim, st, b)
            }
        }
    }
}

/// An end tag `</name ...>` at the front of `b`, the rest of the input.
pub open spec fn end_tag_step(lim: SliceLimits, st: SliceState, b: Seq<u8>) -> (SliceOutcome, SliceState) {
    let rest = b.subrange(2, b.len() as int);
    let nlen = min_int(run_from(rest, 0, name_stop()) as int, lim.name);
    match first_index(rest, GT) {
        None => (SliceOutcome::Fault(ErrorCode::UnexpectedEof), st),
        Some(g) => {
            let end_name = rest.take(nlen);
            let next = st.pos + 2 + g + 1;
            if st.names.len() == 0 {
                (emit(EventType::EndElement, end_name, false), at_pos(st, next))
            } else if st.names.last() != end_name {
                (
                    SliceOutcome::Emit {
                        kind: EventType::Fault,
                        data: end_name,
                        cont: false,
                        error: Some(ErrorCode::MismatchedEndElement),
                    },
                    at_pos(st, next),
                )
            } else {
                (
                    emit(EventType::EndElement, st.names.last(), false),
                    SliceState { pos: next, names: st.names.drop_last(), ..st },
                )
            }
        },
    }
}

/// A start tag `<name ...>` at the front of `b`, the rest of the input.
pub open spec fn start_tag_step(lim: SliceLimits, st: SliceState, b: Seq<u8>) -> (SliceOutcome, SliceState) {
    let rest = b.subrange(1, b.len() as int);
    let nlen = min_int(run_from(rest, 0, name_stop()) as int, lim.name);
    match first_index(rest, GT) {
        None => (SliceOutcome::Fault(ErrorCode::UnexpectedEof), st),
        Some(g) => {
            if st.names.len() >= lim.depth {
                (SliceOutcome::Fault(ErrorCode::DepthLimitExceeded), st)
            } else {
                let self_closing = rest[if g > 0 { g - 1 } else { 0 }] == SLASH;
                let stored = rest.take(min_int(nlen, room(total_len(st.names), lim.name)));
                let next = st.pos + 1 + g + 1;
                if self_closing {
                    (
                        emit(EventType::StartElement, stored, false),
                        SliceState { pos: next, pending: Some(stored), ..st },
                    )
                } else {
                    (
                        emit(EventType::StartElement, stored, false),
                        SliceState { pos: next, names: st.names.push(stored), ..st },
                    )
                }
            }
        },
    }
}

/// A token step fails only on a token whose end is missing or on a start
/// tag beyond the depth limit, and then stays where it is.
#[verifier::spinoff_prover]
#[verifier::rlimit(40)]
pub proof fn lemma_token_step_faults(input: Seq<u8>, lim: SliceLimits, st: SliceState)
    requires
        st.pending is None,
        0 <= st.pos <= input.len(),
    ensures
        token_step(input, lim, st).0 matches SliceOutcome::Fault(c) ==> {
            &&& token_step(input, lim, st).1 == st
            &&& (c == ErrorCode::UnexpectedEof && input.len() - st.pos >= 1)
                || (c == ErrorCode::DepthLimitExceeded && input.len() - st.pos >= 2)
        },
        token_step(input, lim, st).0 is Eof ==> token_step(input, lim, st).1 == st,
{
    reveal(token_step);
    let b = input.subrange(st.pos, input.len() as int);
    if b.len() >= 2 && b[0] == LT {
        if b[1] == SLASH {
            assert(token_step(input, lim, st) == end_tag_step(lim, st, b));
        } else if b[1] != BANG && b[1] != QMARK {
            assert(token_step(input, lim, st) == start_tag_step(lim, st, b));
        }
    }
}

/// `r` is what `next_event` returns for the outcome `o`.
pub open spec fn result_is(r: Result<Event, ParseError>, o: SliceOutcome) -> bool {
    match o {
        SliceOutcome::Emit { kind, data, cont, error } => {
            &&& r is Ok
            &&& r->Ok_0.event_type == kind
            &&& r->Ok_0.data@ == data
            &&& r->Ok_0.is_continuation == cont
            &&& r->Ok_0.error == error
            &&& r->Ok_0.attributes.pairs_view().len() == 0
        },
        SliceOutcome::Eof => r == Err::<Event, ParseError>(ParseError::Eof),
        SliceOutcome::Fault(c) => r == Err::<Event, ParseError>(ParseError::Fault(c)),
    }
}

/// Where the names of the first `k` frames end in the name buffer, when the
/// frames are laid out one after another from the start.
pub open spec fn frames_end(frames: Seq<ElementFrame>) -> int {
    if frames.len() == 0 { 0 } else { frames.last().name_start + frames.last().name_len }
}

/// The frames lie one after another from the start of the name buffer.
pub open spec fn frames_contiguous(frames: Seq<ElementFrame>) -> bool {
    &&& frames.len() > 0 ==> frames[0].name_start == 0
    &&& forall|i: int, j: int|
        #![trigger frames[i], frames[j]]
        0 <= i && j == i + 1 && j < frames.len() ==> frames[j].name_start == frames[i].name_start + frames[i].name_len
}

/// The bytes of a frame's name in the name buffer.
pub open spec fn frame_name(name_buf: Seq<u8>, f: ElementFrame) -> Seq<u8> {
    name_buf.subrange(f.name_start as int, f.name_start + f.name_len)
}

/// The names of the frames.
pub open spec fn frame_names(name_buf: Seq<u8>, frames: Seq<ElementFrame>) -> Seq<Seq<u8>> {
    Seq::new(frames.len(), |k: int| frame_name(name_buf, frames[k]))
}

/// Contiguous frames end at the total length of their names.
pub proof fn lemma_frames_total(name_buf: Seq<u8>, frames: Seq<ElementFrame>)
    requires
        frames_contiguous(frames),
        frames_end(frames) <= name_buf.len(),
    ensures
        total_len(frame_names(name_buf, frames)) == frames_end(frames),
    decreases frames.len(),
{
    if frames.len() > 0 {
        let fr = frames.drop_last();
        lemma_contiguous_drop_last(frames);
        lemma_frames_total(name_buf, fr);
        assert(frame_names(name_buf, frames).drop_last() =~= frame_names(name_buf, fr));
        let k = frames.len() - 1;
        if k > 0 {
            assert(frames[k].name_start == frames[k - 1].name_start + frames[k - 1].name_len);
        }
        assert(frames[k].name_start == frames_end(fr));
        assert(frame_names(name_buf, frames).last() == frame_name(name_buf, frames[k]));
    }
}

/// Frame names only depend on the bytes of the name buffer that the frames cover.
pub proof fn lemma_frame_names_prefix(a: Seq<u8>, b: Seq<u8>, frames: Seq<ElementFrame>)
    requires
        frames_contiguous(frames),
        frames_end(frames) <= a.len(),
        frames_end(frames) <= b.len(),
        a.subrange(0, frames_end(frames)) == b.subrange(0, frames_end(frames)),
    ensures
        frame_names(a, frames) == frame_names(b, frames),
{
    let e = frames_end(frames);
    assert forall|k: int| 0 <= k < frames.len() implies frame_name(a, #[trigger] frames[k]) == frame_name(b, frames[k]) by {
        lemma_frame_within(frames, k);
        let f = frames[k];
        assert forall|j: int| f.name_start <= j < f.name_start + f.name_len implies a[j] == b[j] by {
            assert(a.subrange(0, e)[j] == b.subrange(0, e)[j]);
        }
        assert(frame_name(a, f) =~= frame_name(b, f));
    }
    assert(frame_names(a, frames) =~= frame_names(b, frames));
}

/// Each of contiguous frames ends no later than the last one.
pub proof fn lemma_frame_within(frames: Seq<ElementFrame>, k: int)
    requires
        frames_contiguous(frames),
        0 <= k < frames.len(),
    ensures
        frames[k].name_start + frames[k].name_len <= frames_end(frames),
    decreases frames.len() - k,
{
    if k + 1 < frames.len() {
        lemma_frame_within(frames, k + 1);
        let a = frames[k];
        let b = frames[k + 1];
        assert(b.name_start == a.name_start + a.name_len);
    }
}

/// Dropping the last of contiguous frames leaves contiguous frames.
pub proof fn lemma_contiguous_drop_last(frames: Seq<ElementFrame>)
    requires
        frames_contiguous(frames),
        frames.len() > 0,
    ensures
        frames_contiguous(frames.drop_last()),
        frames_end(frames.drop_last()) <= frames_end(frames),
        frame_names(Seq::<u8>::empty(), frames).len() == frames.len(),
{
    let fr = frames.drop_last();
    assert forall|i: int, j: int| 0 <= i && j == i + 1 && j < fr.len() implies #[trigger] fr[j].name_start
        == (#[trigger] fr[i]).name_start + fr[i].name_len by {
        assert(fr[i] == frames[i] && fr[j] == frames[j]);
    }
    if fr.len() > 0 {
        assert(fr[0] == frames[0]);
        lemma_frame_within(frames, fr.len() - 1);
    }
}

/// Names of frames with one more frame pushed.
pub proof fn lemma_frame_names_push(buf: Seq<u8>, frames: Seq<ElementFrame>, f: ElementFrame)
    ensures
        frame_names(buf, frames.push(f)) == frame_names(buf, frames).push(frame_name(buf, f)),
        frame_names(buf, frames.push(f)).drop_last() == frame_names(buf, frames),
{
    assert(frame_names(buf, frames.push(f)) =~= frame_names(buf, frames).push(frame_name(buf, f)));
    assert(frame_names(buf, frames.push(f)).drop_last() =~= frame_names(buf, frames));
}

/// Names of frames with the last frame dropped.
pub proof fn lemma_frame_names_drop(buf: Seq<u8>, frames: Seq<ElementFrame>)
    requires
        frames.len() > 0,
    ensures
        frame_names(buf, frames.drop_last()) == frame_names(buf, frames).drop_last(),
        frame_names(buf, frames).last() == frame_name(buf, frames.last()),
{
    assert(frame_names(buf, frames.drop_last()) =~= frame_names(buf, frames).drop_last());
}

/// Whether two byte slices are equal.
pub fn bytes_eq(a: &[u8], b: &[u8]) -> (r: bool)
    ensures
        r == (a@ == b@),
{
    if a.len() != b.len() {
        return false;
    }
    let mut i: usize = 0;
    while i < a.len()
        invariant
            i <= a@.len(),
            a@.len() == b@.len(),
            forall|j: int| 0 <= j < i ==> a@[j] == b@[j],
        decreases a.len() - i,
    {
        if a[i] != b[i] {
            return false;
        }
        i += 1;
    }
    assert(a@ =~= b@);
    true
}

/// Whether `b` starts with `pat`.
fn starts_with(b: &[u8], pat: &[u8]) -> (r: bool)
    ensures
        r == (b@.len() >= pat@.len() && b@.take(pat@.len() as int) == pat@),
{
    if b.len() < pat.len() {
        return false;
    }
    let r = bytes_eq(&b[0..pat.len()], pat);
    assert(b@.subrange(0, pat@.len() as int) == b@.take(pat@.len() as int));
    r
}

/// The token-level machinery that the parsers share: the limits, the
/// scratch buffers, the open elements, a pending end element, and the
/// position in the bytes being parsed.
pub struct ParseCore {
    pos: usize,
    limits: ParserLimits,
    scratch: ScratchBuffers,
    elem_stack: ElementStack,
    attr_table: AttributeTable,
    pending_end: Option<ElementFrame>,
    eof_fault_emitted: bool,
}

impl ParseCore {
    /// The limits as integers.
    pub closed spec fn lim(&self) -> SliceLimits {
        SliceLimits {
            depth: self.limits.max_depth as int,
            name: self.limits.max_name_len as int,
            text: self.limits.max_text_chunk_len as int,
            comment: self.limits.max_comment_chunk_len as int,
            cdata: self.limits.max_cdata_chunk_len as int,
            pi: self.limits.max_pi_chunk_len as int,
        }
    }

    /// The parser's state.
    pub closed spec fn state(&self) -> SliceState {
        SliceState {
            pos: self.pos as int,
            names: frame_names(self.scratch.name@, self.elem_stack.frames_view()),
            pending: match self.pending_end {
                Some(f) => Some(frame_name(self.scratch.name@, f)),
                None => None,
            },
            eof_fault: self.eof_fault_emitted,
        }
    }

    /// The parser's fields agree with each other.
    pub closed spec fn wf(&self) -> bool {
        &&& self.scratch.name_limit == self.limits.max_name_len
        &&& self.scratch.text_limit == self.limits.max_text_chunk_len
        &&& self.scratch.comment_limit == self.limits.max_comment_chunk_len
        &&& self.scratch.cdata_limit == self.limits.max_cdata_chunk_len
        &&& self.scratch.pi_limit == self.limits.max_pi_chunk_len
        &&& self.elem_stack.depth_limit() == self.limits.max_depth
        &&& frames_contiguous(self.elem_stack.frames_view())
        &&& frames_end(self.elem_stack.frames_view()) <= self.scratch.name@.len()
        &&& self.pending_end matches Some(f) ==> f.name_start + f.name_len <= self.scratch.name@.len()
        &&& self.attr_table.entries@.len() == 0
    }

    /// A core with the given limits, at position 0 with nothing open.
    pub fn new(limits: ParserLimits) -> (p: Self)
        ensures
            p.wf(),
            p.lim() == (SliceLimits {
                depth: limits.max_depth as int,
                name: limits.max_name_len as int,
                text: limits.max_text_chunk_len as int,
                comment: limits.max_comment_chunk_len as int,
                cdata: limits.max_cdata_chunk_len as int,
                pi: limits.max_pi_chunk_len as int,
            }),
            p.state() == (SliceState { pos: 0, names: Seq::empty(), pending: None, eof_fault: false }),
    {
        let scratch_capacity = ScratchBuffers::with_limits(
            limits.max_name_len,
            limits.max_attr_name_len,
            limits.max_attr_value_len,
            limits.max_text_chunk_len,
            limits.max_comment_chunk_len,
            limits.max_cdata_chunk_len,
            limits.max_pi_chunk_len,
        );
        let elem_stack = ElementStack::with_capacity(limits.max_depth);
        let attr_table = AttributeTable::with_capacity(limits.max_attributes);
        let p = ParseCore {
            pos: 0,
            limits,
            scratch: scratch_capacity,
            elem_stack,
            attr_table,
            pending_end: None,
            eof_fault_emitted: false,
        };
        assert(p.state().names =~= Seq::<Seq<u8>>::empty());
        p
    }

    /// The unparsed rest of `input`.
    fn rest<'a>(&self, input: &'a [u8]) -> (r: &'a [u8])
        requires
            self.pos <= input@.len(),
        ensures
            r@ == input@.subrange(self.pos as int, input@.len() as int),
    {
        &input[self.pos..input.len()]
    }

    /// Consume `n` bytes of an input of length `len`, stopping at its end.
    fn consume(&mut self, len: usize, n: usize)
        requires
            old(self).pos <= len,
        ensures
            final(self).pos == (if old(self).pos + n < len {
                old(self).pos + n
            } else {
                len as int
            }),
            final(self).limits == old(self).limits,
            final(self).scratch == old(self).scratch,
            final(self).elem_stack == old(self).elem_stack,
            final(self).attr_table == old(self).attr_table,
            final(self).pending_end == old(self).pending_end,
            final(self).eof_fault_emitted == old(self).eof_fault_emitted,
    {
        let left = len - self.pos;
        self.pos = if n < left { self.pos + n } else { len };
    }

    /// The empty attribute view of this parser's events.
    fn no_attributes(&self, input: &[u8]) -> (a: Attributes)
        requires
            self.wf(),
            self.pos <= input@.len(),
        ensures
            a.pairs_view().len() == 0,
    {
        Attributes::from_parts(self.attr_table.as_slice(), self.rest(input), &self.scratch)
    }
}

impl ParseCore {
    /// The rest of the input from the position of the state.
    pub open spec fn rest_of(input: Seq<u8>, pos: int) -> Seq<u8> {
        input.subrange(pos, input.len() as int)
    }

    /// The name buffer holds exactly the names of the open elements.
    pub closed spec fn names_tight(&self) -> bool {
        self.scratch.name@.len() == frames_end(self.elem_stack.frames_view())
    }

    /// The text before the next `<` (of length `i`), cut to the text limit.
    fn emit_text(&mut self, input: &[u8], i: usize) -> (r: Result<Event, ParseError>)
        requires
            old(self).wf(),
            old(self).pos <= input@.len(),
            old(self).pending_end is None,
            0 < i <= input@.len() - old(self).pos,
        ensures
            final(self).wf(),
            final(self).pos <= input@.len(),
            final(self).lim() == old(self).lim(),
            ({
                let b = Self::rest_of(input@, old(self).pos as int);
                let c = chunk_of(b.take(i as int), old(self).lim().text);
                &&& result_is(r, emit(EventType::Text, c.0, c.1))
                &&& final(self).state() == at_pos(old(self).state(), old(self).pos + c.0.len())
            }),
    {
        let buf = self.rest(input);
        let ghost names = self.state().names;
        self.scratch.text.clear();
        let (take, _truncated) = self.scratch.push_text_chunk(&buf[0..i]);
        assert(buf@.subrange(0, i as int) == buf@.take(i as int));
        let is_continuation = take < i;
        self.consume(input.len(), take);
        let data = crate::tokenizer::copy_range(self.scratch.text.as_slice(), 0, self.scratch.text.len());
        assert(self.scratch.text@.subrange(0, self.scratch.text@.len() as int) =~= self.scratch.text@);
        let attributes = self.no_attributes(input);
        assert(self.state().names == names);
        Ok(Event { event_type: EventType::Text, data, is_continuation, error: None, attributes })
    }

    /// A comment whose `-->` starts at `e` of the rest of the input.
    fn emit_comment(&mut self, input: &[u8], e: usize) -> (r: Result<Event, ParseError>)
        requires
            old(self).wf(),
            old(self).pos <= input@.len(),
            old(self).pending_end is None,
            4 <= e,
            e + 3 <= input@.len() - old(self).pos,
        ensures
            final(self).wf(),
            final(self).pos <= input@.len(),
            final(self).lim() == old(self).lim(),
            ({
                let b = Self::rest_of(input@, old(self).pos as int);
                let c = chunk_of(b.subrange(4, e as int), old(self).lim().comment);
                &&& result_is(r, emit(EventType::Comment, c.0, c.1))
                &&& final(self).state() == at_pos(old(self).state(), old(self).pos + e + 3)
            }),
    {
        let buf = self.rest(input);
        let _blen = buf.len();
        let ghost names = self.state().names;
        self.scratch.comment.clear();
        let content = &buf[4..e];
        let (take, _truncated) = self.scratch.push_comment_chunk(content);
        let is_continuation = take < content.len();
        self.consume(input.len(), e + 3);
        let data = crate::tokenizer::copy_range(self.scratch.comment.as_slice(), 0, self.scratch.comment.len());
        assert(self.scratch.comment@.subrange(0, self.scratch.comment@.len() as int) =~= self.scratch.comment@);
        let attributes = self.no_attributes(input);
        assert(self.state().names == names);
        Ok(Event { event_type: EventType::Comment, data, is_continuation, error: None, attributes })
    }

    /// A CDATA section whose `]]>` starts at `e` of the rest of the input.
    fn emit_cdata(&mut self, input: &[u8], e: usize) -> (r: Result<Event, ParseError>)
        requires
            old(self).wf(),
            old(self).pos <= input@.len(),
            old(self).pending_end is None,
            9 <= e,
            e + 3 <= input@.len() - old(self).pos,
        ensures
            final(self).wf(),
            final(self).pos <= input@.len(),
            final(self).lim() == old(self).lim(),
            ({
                let b = Self::rest_of(input@, old(self).pos as int);
                let c = chunk_of(b.subrange(9, e as int), old(self).lim().cdata);
                &&& result_is(r, emit(EventType::CData, c.0, c.1))
                &&& final(self).state() == at_pos(old(self).state(), old(self).pos + e + 3)
            }),
    {
        let buf = self.rest(input);
        let _blen = buf.len();
        let ghost names = self.state().names;
        self.scratch.cdata.clear();
        let content = &buf[9..e];
        let (take, _truncated) = self.scratch.push_cdata_chunk(content);
        let is_continuation = take < content.len();
        self.consume(input.len(), e + 3);
        let data = crate::tokenizer::copy_range(self.scratch.cdata.as_slice(), 0, self.scratch.cdata.len());
        assert(self.scratch.cdata@.subrange(0, self.scratch.cdata@.len() as int) =~= self.scratch.cdata@);
        let attributes = self.no_attributes(input);
        assert(self.state().names == names);
        Ok(Event { event_type: EventType::CData, data, is_continuation, error: None, attributes })
    }

    /// A processing instruction whose `?>` starts at `e` of the rest of the input.
    fn emit_pi(&mut self, input: &[u8], e: usize) -> (r: Result<Event, ParseError>)
        requires
            old(self).wf(),
            old(self).pos <= input@.len(),
            old(self).pending_end is None,
            2 <= e,
            e + 2 <= input@.len() - old(self).pos,
        ensures
            final(self).wf(),
            final(self).pos <= input@.len(),
            final(self).lim() == old(self).lim(),
            ({
                let b = Self::rest_of(input@, old(self).pos as int);
                let c = chunk_of(b.subrange(2, e as int), old(self).lim().pi);
                &&& result_is(r, emit(EventType::ProcessingInstruction, c.0, c.1))
                &&& final(self).state() == at_pos(old(self).state(), old(self).pos + e + 2)
            }),
    {
        let buf = self.rest(input);
        let _blen = buf.len();
        let ghost names = self.state().names;
        self.scratch.pi.clear();
        let content = &buf[2..e];
        let (take, _truncated) = self.scratch.push_pi_chunk(content);
        let is_continuation = take < content.len();
        self.consume(input.len(), e + 2);
        let data = crate::tokenizer::copy_range(self.scratch.pi.as_slice(), 0, self.scratch.pi.len());
        assert(self.scratch.pi@.subrange(0, self.scratch.pi@.len() as int) =~= self.scratch.pi@);
        let attributes = self.no_attributes(input);
        assert(self.state().names == names);
        Ok(Event { event_type: EventType::ProcessingInstruction, data, is_continuation, error: None, attributes })
    }
}

impl ParseCore {
    /// An end tag `</name ...>` at the front of the rest of the input.
    fn end_tag(&mut self, input: &[u8]) -> (r: Result<Event, ParseError>)
        requires
            old(self).wf(),
            old(self).pos <= input@.len(),
            old(self).pending_end is None,
            old(self).names_tight(),
            ({
                let b = Self::rest_of(input@, old(self).pos as int);
                b.len() >= 2 && b[0] == LT && b[1] == SLASH
            }),
        ensures
            final(self).wf(),
            final(self).pos <= input@.len(),
            final(self).lim() == old(self).lim(),
            result_is(r, token_step(input@, old(self).lim(), old(self).state()).0),
            final(self).state() == token_step(input@, old(self).lim(), old(self).state()).1,
    {
        let buf = self.rest(input);
        let blen = buf.len();
        let ghost st = self.state();
        let ghost b = buf@;
        proof {
            lemma_first_index_props(b, LT);
            assert(first_index(b, LT) == Some(0int));
            assert(token_step(input@, self.lim(), st) == end_tag_step(self.lim(), st, b)) by { reveal(token_step); }
        }
        let rest = &buf[2..blen];
        let (nlen, _delim) = scan_name(rest, self.limits.max_name_len);
        proof {
            assert(rest@.subrange(0, rest@.len() as int) =~= rest@);
            lemma_bounded_scan_run(rest@, 0, self.limits.max_name_len as int, nlen as int, name_stop());
            lemma_run_props(rest@, 0, name_stop());
        }
        let found = memchr_first(GT, rest);
        proof { lemma_first_index(rest@, GT, found); }
        match found {
            None => Err(ParseError::Fault(ErrorCode::UnexpectedEof)),
            Some(gt) => {
                proof {
                    if nlen > gt {
                        assert(!(name_stop())(rest@[gt as int]));
                    }
                }
                let end_name = &rest[0..nlen];
                assert(end_name@ == rest@.take(nlen as int));
                let consumed = 2 + gt + 1;
                if self.elem_stack.len() == 0 {
                    let start = self.scratch.name.len();
                    let ghost old_name = self.scratch.name@;
                    let (copied, _truncated) = self.scratch.push_name(end_name);
                    self.consume(input.len(), consumed);
                    let data = crate::tokenizer::copy_range(self.scratch.name.as_slice(), start, start + copied);
                    assert(data@ =~= end_name@);
                    let attributes = self.no_attributes(input);
                    assert(self.state().names =~= st.names);
                    return Ok(Event { event_type: EventType::EndElement, data, is_continuation: false, error: None, attributes });
                }
                let top = *self.elem_stack.top().unwrap();
                let ghost frames = self.elem_stack.frames_view();
                proof {
                    lemma_frame_within(frames, frames.len() - 1);
                    lemma_frame_names_drop(self.scratch.name@, frames);
                }
                let name_buf = self.scratch.name.as_slice();
                let _nb_len = name_buf.len();
                assert(top == frames.last());
                let open_name = &name_buf[top.name_start..top.name_start + top.name_len];
                if !bytes_eq(open_name, end_name) {
                    let data = crate::tokenizer::copy_range(end_name, 0, end_name.len());
                    assert(end_name@.subrange(0, end_name@.len() as int) =~= end_name@);
                    self.consume(input.len(), consumed);
                    let attributes = self.no_attributes(input);
                    return Ok(Event {
                        event_type: EventType::Fault,
                        data,
                        is_continuation: false,
                        error: Some(ErrorCode::MismatchedEndElement),
                        attributes,
                    });
                }
                let f = self.elem_stack.pop().unwrap();
                proof { lemma_contiguous_drop_last(frames); }
                self.consume(input.len(), consumed);
                let data = crate::tokenizer::copy_range(self.scratch.name.as_slice(), f.name_start, f.name_start + f.name_len);
                let attributes = self.no_attributes(input);
                Ok(Event { event_type: EventType::EndElement, data, is_continuation: false, error: None, attributes })
            },
        }
    }
}

impl ParseCore {
    /// A start tag `<name ...>` (or `<name .../>`) at the front of the rest of
    /// the input.
    fn start_tag(&mut self, input: &[u8]) -> (r: Result<Event, ParseError>)
        requires
            old(self).wf(),
            old(self).pos <= input@.len(),
            old(self).pending_end is None,
            old(self).names_tight(),
            ({
                let b = Self::rest_of(input@, old(self).pos as int);
                b.len() >= 2 && b[0] == LT && b[1] != SLASH && b[1] != BANG && b[1] != QMARK
            }),
        ensures
            final(self).wf(),
            final(self).pos <= input@.len(),
            final(self).lim() == old(self).lim(),
            result_is(r, token_step(input@, old(self).lim(), old(self).state()).0),
            final(self).state() == token_step(input@, old(self).lim(), old(self).state()).1,
    {
        let buf = self.rest(input);
        let blen = buf.len();
        let ghost st = self.state();
        let ghost b = buf@;
        let ghost frames0 = self.elem_stack.frames_view();
        let ghost name0 = self.scratch.name@;
        proof {
            lemma_first_index_props(b, LT);
            assert(first_index(b, LT) == Some(0int));
            assert(token_step(input@, self.lim(), st) == start_tag_step(self.lim(), st, b)) by { reveal(token_step); }
            lemma_frames_total(name0, frames0);
        }
        let rest = &buf[1..blen];
        let (name_len, _delim) = scan_name(rest, self.limits.max_name_len);
        proof {
            assert(rest@.subrange(0, rest@.len() as int) =~= rest@);
            lemma_bounded_scan_run(rest@, 0, self.limits.max_name_len as int, name_len as int, name_stop());
        }
        let found = memchr_first(GT, rest);
        proof { lemma_first_index(rest@, GT, found); }
        match found {
            None => {
                assert(self.state() == st);
                Err(ParseError::Fault(ErrorCode::UnexpectedEof))
            },
            Some(gt_pos) => {
                let idx = if gt_pos > 0 { gt_pos - 1 } else { 0 };
                let self_closing = rest[idx] == SLASH;
                let consumed = 1 + gt_pos + 1;
                self.attr_table.clear();
                let name_bytes = &rest[0..name_len];
                assert(name_bytes@ == rest@.take(name_len as int));
                let _name_len_now = self.scratch.name.len();
                match self.elem_stack.push_name(&mut self.scratch, name_bytes, self.limits.max_name_len) {
                    Ok(()) => {
                        let ghost frames1 = self.elem_stack.frames_view();
                        let ghost name1 = self.scratch.name@;
                        proof {
                            let nf = frames1.last();
                            assert(frames0.len() < self.limits.max_depth);
                            assert(nf.name_start == name0.len());
                            assert(frames1 == frames0.push(nf));
                            assert(name1.subrange(0, frames_end(frames0)) =~= name0.subrange(0, frames_end(frames0)));
                            lemma_frame_names_prefix(name0, name1, frames0);
                            lemma_frame_names_push(name1, frames0, nf);
                            assert(frame_name(name1, nf) =~= rest@.take(min_int(name_len as int, room(total_len(st.names), st_name_lim(self.limits))))); 
                        }
                        let frame = if self_closing {
                            let f = self.elem_stack.pop().unwrap();
                            self.pending_end = Some(f);
                            f
                        } else {
                            *self.elem_stack.top().unwrap()
                        };
                        proof {
                            if !self_closing {
                                assert forall|i: int, j: int| 0 <= i && j == i + 1 && j < frames1.len() implies
                                    #[trigger] frames1[j].name_start == (#[trigger] frames1[i]).name_start + frames1[i].name_len by {
                                    if j < frames0.len() {
                                        assert(frames1[i] == frames0[i] && frames1[j] == frames0[j]);
                                    } else {
                                        assert(frames1[i] == frames0[i]);
                                        assert(i == frames0.len() - 1);
                                        assert(frames1[j].name_start == name0.len());
                                        assert(frames_end(frames0) == frames0[i].name_start + frames0[i].name_len);
                                    }
                                }
                                if frames0.len() == 0 {
                                    assert(frames1[0].name_start == 0);
                                }
                            }
                        }
                        self.consume(input.len(), consumed);
                        proof {
                            let ts = token_step(input@, self.lim(), st);
                            assert(ts.1.pos == self.state().pos);
                            assert(ts.1.pending == self.state().pending);
                            assert(ts.1.eof_fault == self.state().eof_fault);
                            assert(ts.1.names == self.state().names);
                        }
                        let data = crate::tokenizer::copy_range(self.scratch.name.as_slice(), frame.name_start, frame.name_start + frame.name_len);
                        let attributes = self.no_attributes(input);
                        Ok(Event { event_type: EventType::StartElement, data, is_continuation: false, error: None, attributes })
                    },
                    Err(_) => {
                        assert(self.state() == st);
                        Err(ParseError::Fault(ErrorCode::DepthLimitExceeded))
                    },
                }
            },
        }
    }
}


/// Whether `b` starts with `<!--`.
pub fn opens_comment(b: &[u8]) -> (r: bool)
    ensures
        r == (b@.len() >= 4 && b@.take(4) == comment_open()),
{
    let pat: [u8; 4] = [LT, BANG, DASH, DASH];
    assert(pat@ =~= comment_open());
    starts_with(b, pat.as_slice())
}

/// Whether `b` starts with `<![CDATA[`.
pub fn opens_cdata(b: &[u8]) -> (r: bool)
    ensures
        r == (b@.len() >= 9 && b@.take(9) == cdata_open()),
{
    let pat: [u8; 9] = [LT, BANG, LBRACKET, 0x43u8, 0x44u8, 0x41u8, 0x54u8, 0x41u8, LBRACKET];
    assert(pat@ =~= cdata_open());
    starts_with(b, pat.as_slice())
}

/// Where a declaration other than a comment or CDATA section at `pos`
/// ends, if one starts there and is closed.
pub fn declaration_end_from(input: &[u8], pos: usize) -> (r: Option<usize>)
    requires
        pos <= input@.len(),
    ensures
        r matches Some(n) ==> declaration_end(input@, pos as int) == Some(n as int)
            && pos < n <= input@.len(),
        r is None ==> declaration_end(input@, pos as int) is None,
{
    let ilen = input.len();
    let buf = &input[pos..ilen];
    let blen = buf.len();
    if blen < 2 || buf[0] != LT || buf[1] != BANG {
        return None;
    }
    if opens_comment(buf) || opens_cdata(buf) {
        return None;
    }
    let rest = &buf[2..blen];
    let found = memchr_first(GT, rest);
    proof {
        lemma_first_index(rest@, GT, found);
        assert(rest@ =~= buf@.subrange(2, buf@.len() as int));
    }
    match found {
        Some(g) => Some(pos + 2 + g + 1),
        None => None,
    }
}

/// The position with the declarations there skipped.
pub fn skip_position(input: &[u8], pos: usize) -> (p: usize)
    requires
        pos <= input@.len(),
    ensures
        p == skip_declarations(input@, pos as int),
        pos <= p <= input@.len(),
{
    let mut p = pos;
    loop
        invariant
            pos <= p <= input@.len(),
            skip_declarations(input@, p as int) == skip_declarations(input@, pos as int),
        ensures
            pos <= p <= input@.len(),
            skip_declarations(input@, p as int) == skip_declarations(input@, pos as int),
            declaration_end(input@, p as int) is None,
        decreases input@.len() - p,
    {
        match declaration_end_from(input, p) {
            Some(next) => {
                p = next;
            },
            None => {
                break;
            },
        }
    }
    p
}

/// Whether the input at `p` is `<!-->`, `<!--->` or `<?>`.
pub fn overlapping_at(input: &[u8], p: usize) -> (r: bool)
    requires
        p <= input@.len(),
    ensures
        r == overlapping_markup(input@, p as int),
{
    let ilen = input.len();
    let b = &input[p..ilen];
    let a1: [u8; 5] = [LT, BANG, DASH, DASH, GT];
    let a2: [u8; 6] = [LT, BANG, DASH, DASH, DASH, GT];
    let a3: [u8; 3] = [LT, QMARK, GT];
    let r1 = starts_with(b, a1.as_slice());
    let r2 = starts_with(b, a2.as_slice());
    let r3 = starts_with(b, a3.as_slice());
    proof {
        let input = input@;
        let pi = p as int;
        assert(a1@ =~= seq![LT, BANG, DASH, DASH, GT]);
        assert(a2@ =~= seq![LT, BANG, DASH, DASH, DASH, GT]);
        assert(a3@ =~= seq![LT, QMARK, GT]);
        assert(b@ =~= input.subrange(pi, input.len() as int));
        if b@.len() >= 5 {
            assert(b@.take(5) =~= input.subrange(pi, pi + 5));
        }
        if b@.len() >= 6 {
            assert(b@.take(6) =~= input.subrange(pi, pi + 6));
        }
        if b@.len() >= 3 {
            assert(b@.take(3) =~= input.subrange(pi, pi + 3));
        }
    }
    r1 || r2 || r3
}

impl ParseCore {
    /// One token at the position, declarations aside; no end element is
    /// pending and the name buffer holds just the open elements' names.
    fn token_event(&mut self, input: &[u8]) -> (r: Result<Event, ParseError>)
        requires
            old(self).wf(),
            old(self).pos <= input@.len(),
            old(self).pending_end is None,
            old(self).names_tight(),
            !overlapping_markup(input@, old(self).pos as int),
        ensures
            final(self).wf(),
            final(self).pos <= input@.len(),
            final(self).lim() == old(self).lim(),
            result_is(r, token_step(input@, old(self).lim(), old(self).state()).0),
            final(self).state() == token_step(input@, old(self).lim(), old(self).state()).1,
    {
        let buf = self.rest(input);
        let blen = buf.len();
        let ghost st = self.state();
        let ghost b = buf@;
        let ghost lim = self.lim();
        let ghost pos = self.pos as int;
        if blen == 0 {
            if self.elem_stack.len() > 0 && !self.eof_fault_emitted {
                assert(token_step(input@, lim, st) == (
                    SliceOutcome::Emit {
                        kind: EventType::Fault,
                        data: Seq::<u8>::empty(),
                        cont: false,
                        error: Some(ErrorCode::UnclosedElement),
                    },
                    SliceState { eof_fault: true, ..st },
                )) by { reveal(token_step); }
                self.eof_fault_emitted = true;
                let attributes = self.no_attributes(input);
                let data: Vec<u8> = Vec::new();
                assert(data@ =~= Seq::<u8>::empty());
                return Ok(Event {
                    event_type: EventType::Fault,
                    data,
                    is_continuation: false,
                    error: Some(ErrorCode::UnclosedElement),
                    attributes,
                });
            }
            assert(token_step(input@, lim, st) == (SliceOutcome::Eof, st)) by { reveal(token_step); }
            return Err(ParseError::Eof);
        }
        let found = memchr_first(LT, buf);
        proof { lemma_first_index(b, LT, found); }
        let i = match found {
            Some(i) => i,
            None => blen,
        };
        if i > 0 {
            proof {
                let c = chunk_of(b.take(i as int), lim.text);
                assert(token_step(input@, lim, st) == (emit(EventType::Text, c.0, c.1), at_pos(st, pos + c.0.len())))
                    by { reveal(token_step); }
            }
            return self.emit_text(input, i);
        }
        if blen < 2 {
            assert(token_step(input@, lim, st) == (SliceOutcome::Fault(ErrorCode::UnexpectedEof), st))
                by { reveal(token_step); }
            return Err(ParseError::Fault(ErrorCode::UnexpectedEof));
        }
        let second = buf[1];
        if second == SLASH {
            self.end_tag(input)
        } else if second == BANG {
            self.bang_event(input)
        } else if second == QMARK {
            let close = find_pi_end(buf);
            proof { lemma_first_occurrence(b, pi_close(), close); }
            match close {
                None => {
                    assert(token_step(input@, lim, st) == (SliceOutcome::Fault(ErrorCode::UnexpectedEof), st))
                        by { reveal(token_step); }
                    Err(ParseError::Fault(ErrorCode::UnexpectedEof))
                },
                Some(e) => {
                    proof {
                        assert(b.subrange(e as int, e + 2) == pi_close());
                        assert(b[e as int] == QMARK);
                        assert(b[e + 1] == GT);
                        if e == 1 {
                            assert(input@.subrange(pos, pos + 3) =~= seq![LT, QMARK, GT]);
                            assert(overlapping_markup(input@, pos));
                        }
                        let c = chunk_of(b.subrange(2, e as int), lim.pi);
                        assert(token_step(input@, lim, st) == (emit(EventType::ProcessingInstruction, c.0, c.1), at_pos(st, pos + e + 2)))
                            by { reveal(token_step); }
                    }
                    self.emit_pi(input, e)
                },
            }
        } else {
            self.start_tag(input)
        }
    }

    /// A token that starts with `<!` and is no declaration closed by `>`
    /// other than a comment or CDATA section.
    fn bang_event(&mut self, input: &[u8]) -> (r: Result<Event, ParseError>)
        requires
            old(self).wf(),
            old(self).pos <= input@.len(),
            old(self).pending_end is None,
            ({
                let b = Self::rest_of(input@, old(self).pos as int);
                b.len() >= 2 && b[0] == LT && b[1] == BANG
            }),
            !overlapping_markup(input@, old(self).pos as int),
        ensures
            final(self).wf(),
            final(self).pos <= input@.len(),
            final(self).lim() == old(self).lim(),
            result_is(r, token_step(input@, old(self).lim(), old(self).state()).0),
            final(self).state() == token_step(input@, old(self).lim(), old(self).state()).1,
    {
        let buf = self.rest(input);
        let ghost st = self.state();
        let ghost b = buf@;
        let ghost lim = self.lim();
        let ghost pos = self.pos as int;
        proof {
            lemma_first_index_props(b, LT);
            assert(first_index(b, LT) == Some(0int));
        }
        if opens_comment(buf) {
            let close = find_comment_end(buf);
            proof { lemma_first_occurrence(b, comment_close(), close); }
            match close {
                None => {
                    assert(token_step(input@, lim, st) == (SliceOutcome::Fault(ErrorCode::UnexpectedEof), st))
                        by { reveal(token_step); }
                    Err(ParseError::Fault(ErrorCode::UnexpectedEof))
                },
                Some(e) => {
                    proof {
                        assert(b.subrange(e as int, e + 3) == comment_close());
                        assert(b[e as int] == DASH);
                        assert(b[e + 1] == DASH);
                        assert(b[e + 2] == GT);
                        assert(b.take(4)[0] == LT && b.take(4)[1] == BANG);
                        assert(b.take(4)[2] == DASH && b.take(4)[3] == DASH);
                        if e == 2 {
                            assert(input@.subrange(pos, pos + 5) =~= seq![LT, BANG, DASH, DASH, GT]);
                            assert(overlapping_markup(input@, pos));
                        } else if e == 3 {
                            assert(input@.subrange(pos, pos + 6) =~= seq![LT, BANG, DASH, DASH, DASH, GT]);
                            assert(overlapping_markup(input@, pos));
                        }
                        let c = chunk_of(b.subrange(4, e as int), lim.comment);
                        assert(token_step(input@, lim, st) == (emit(EventType::Comment, c.0, c.1), at_pos(st, pos + e + 3)))
                            by { reveal(token_step); }
                    }
                    self.emit_comment(input, e)
                },
            }
        } else if opens_cdata(buf) {
            let close = find_cdata_end(buf);
            proof { lemma_first_occurrence(b, cdata_close(), close); }
            match close {
                None => {
                    assert(token_step(input@, lim, st) == (SliceOutcome::Fault(ErrorCode::UnexpectedEof), st))
                        by { reveal(token_step); }
                    Err(ParseError::Fault(ErrorCode::UnexpectedEof))
                },
                Some(e) => {
                    proof {
                        assert(b.subrange(e as int, e + 3) == cdata_close());
                        assert(b[e as int] == RBRACKET);
                        assert forall|k: int| 0 <= k < 9 implies b[k] != RBRACKET by {
                            assert(b.take(9)[k] == b[k]);
                        }
                        let c = chunk_of(b.subrange(9, e as int), lim.cdata);
                        assert(token_step(input@, lim, st) == (emit(EventType::CData, c.0, c.1), at_pos(st, pos + e + 3)))
                            by { reveal(token_step); }
                    }
                    self.emit_cdata(input, e)
                },
            }
        } else {
            assert(token_step(input@, lim, st) == (SliceOutcome::Fault(ErrorCode::UnexpectedEof), st))
                by { reveal(token_step); }
            Err(ParseError::Fault(ErrorCode::UnexpectedEof))
        }
    }

}

impl ParseCore {
    /// The position in the bytes being parsed.
    pub open spec fn pos_view(&self) -> int {
        self.state().pos
    }

    /// The text chunk limit.
    pub fn text_limit(&self) -> (r: usize)
        ensures
            r == self.lim().text,
    {
        self.limits.max_text_chunk_len
    }

    /// Whether an end element is pending.
    pub fn has_pending(&self) -> (r: bool)
        ensures
            r == self.state().pending is Some,
    {
        self.pending_end.is_some()
    }

    /// The pending end element.
    pub fn pending_event(&mut self, input: &[u8]) -> (r: Result<Event, ParseError>)
        requires
            old(self).wf(),
            old(self).pos_view() <= input@.len(),
            old(self).state().pending is Some,
        ensures
            final(self).wf(),
            final(self).pos_view() <= input@.len(),
            final(self).lim() == old(self).lim(),
            result_is(r, token_step(input@, old(self).lim(), old(self).state()).0),
            final(self).state() == token_step(input@, old(self).lim(), old(self).state()).1,
    {
        let ghost st0 = self.state();
        let f = self.pending_end.unwrap();
        proof {
            let name = frame_name(self.scratch.name@, f);
            assert(token_step(input@, self.lim(), st0) == (emit(EventType::EndElement, name, false), SliceState { pending: None, ..st0 }))
                by { reveal(token_step); }
        }
        self.pending_end = None;
        let _nlen = self.scratch.name.len();
        let data = crate::tokenizer::copy_range(self.scratch.name.as_slice(), f.name_start, f.name_start + f.name_len);
        let attributes = self.no_attributes(input);
        Ok(Event { event_type: EventType::EndElement, data, is_continuation: false, error: None, attributes })
    }

    /// Drop from the name buffer everything past the open elements' names.
    pub fn trim_names(&mut self)
        requires
            old(self).wf(),
            old(self).state().pending is None,
        ensures
            final(self).wf(),
            final(self).names_tight(),
            final(self).lim() == old(self).lim(),
            final(self).state() == old(self).state(),
            final(self).pos_view() == old(self).pos_view(),
    {
        let ghost frames = self.elem_stack.frames_view();
        let ghost name0 = self.scratch.name@;
        self.elem_stack.truncate_scratch(&mut self.scratch);
        proof {
            let e = frames_end(frames);
            assert(self.scratch.name@.subrange(0, e) =~= name0.subrange(0, e));
            lemma_frame_names_prefix(name0, self.scratch.name@, frames);
        }
    }

    /// Move to position `p`.
    pub fn set_pos(&mut self, p: usize)
        requires
            old(self).wf(),
        ensures
            final(self).wf(),
            final(self).lim() == old(self).lim(),
            final(self).state() == at_pos(old(self).state(), p as int),
            final(self).names_tight() == old(self).names_tight(),
    {
        self.pos = p;
    }

    /// The current position.
    pub fn position(&self) -> (r: usize)
        ensures
            r == self.state().pos,
    {
        self.pos
    }

    /// Read one token of `input` at the position (declarations aside).
    pub fn read_token(&mut self, input: &[u8]) -> (r: Result<Event, ParseError>)
        requires
            old(self).wf(),
            old(self).pos_view() <= input@.len(),
            old(self).state().pending is None,
            old(self).names_tight(),
            !overlapping_markup(input@, old(self).pos_view()),
        ensures
            final(self).wf(),
            final(self).pos_view() <= input@.len(),
            final(self).lim() == old(self).lim(),
            result_is(r, token_step(input@, old(self).lim(), old(self).state()).0),
            final(self).state() == token_step(input@, old(self).lim(), old(self).state()).1,
    {
        self.token_event(input)
    }
}

/// Parser over a byte slice in memory.
pub struct SliceParser<'data> {
    input: &'data [u8],
    core: ParseCore,
}

impl<'data> SliceParser<'data> {
    /// The input.
    pub closed spec fn input_view(&self) -> Seq<u8> {
        self.input@
    }

    /// The limits as integers.
    pub closed spec fn lim(&self) -> SliceLimits {
        self.core.lim()
    }

    /// The parser's state.
    pub closed spec fn state(&self) -> SliceState {
        self.core.state()
    }

    /// The parser's fields agree with each other.
    pub closed spec fn wf(&self) -> bool {
        &&& self.core.wf()
        &&& self.core.pos <= self.input@.len()
    }

    /// Create a parser for `data`.
    pub fn new(data: &'data [u8], limits: ParserLimits) -> (p: Self)
        ensures
            p.wf(),
            p.input_view() == data@,
            p.lim() == (SliceLimits {
                depth: limits.max_depth as int,
                name: limits.max_name_len as int,
                text: limits.max_text_chunk_len as int,
                comment: limits.max_comment_chunk_len as int,
                cdata: limits.max_cdata_chunk_len as int,
                pi: limits.max_pi_chunk_len as int,
            }),
            p.state() == (SliceState { pos: 0, names: Seq::empty(), pending: None, eof_fault: false }),
    {
        SliceParser { input: data, core: ParseCore::new(limits) }
    }

    /// Whether `next_event` can be called now: it cannot when the next token
    /// is a comment or processing instruction whose closing sequence
    /// overlaps its opening one (`<!-->`, `<!--->`, `<?>`).
    pub fn can_advance(&self) -> (r: bool)
        requires
            self.wf(),
        ensures
            r == step_supported(self.input_view(), self.state()),
    {
        if self.core.has_pending() {
            return true;
        }
        let p = skip_position(self.input, self.core.position());
        !overlapping_at(self.input, p)
    }

    /// The next event: a pending end element first, else declarations are
    /// skipped and one token is read.
    pub fn next_event(&mut self) -> (r: Result<Event, ParseError>)
        requires
            old(self).wf(),
            step_supported(old(self).input_view(), old(self).state()),
        ensures
            final(self).wf(),
            final(self).input_view() == old(self).input_view(),
            final(self).lim() == old(self).lim(),
            result_is(r, slice_step(old(self).input_view(), old(self).lim(), old(self).state()).0),
            final(self).state() == slice_step(old(self).input_view(), old(self).lim(), old(self).state()).1,
    {
        if self.core.has_pending() {
            return self.core.pending_event(self.input);
        }
        self.core.trim_names();
        let p = skip_position(self.input, self.core.position());
        self.core.set_pos(p);
        self.core.read_token(self.input)
    }
}

/// The name limit as an integer.
pub open spec fn st_name_lim(l: ParserLimits) -> int {
    l.max_name_len as int
}

} // verus!

verus! {

/// Skipping declarations moves forward and stays inside the input.
pub proof fn lemma_skip_declarations_bounds(input: Seq<u8>, pos: int)
    requires
        0 <= pos <= input.len(),
    ensures
        pos <= skip_declarations(input, pos) <= input.len(),
    decreases input.len() - pos,
{
    if let Some(next) = declaration_end(input, pos) {
        if pos < next <= input.len() {
            lemma_skip_declarations_bounds(input, next);
        }
    }
}

/// What an outcome `o`, leaving state `st2`, obeys when taken from state
/// `st` over an input of `len` bytes.
pub open spec fn slice_outcome_ok(lim: SliceLimits, st: SliceState, o: SliceOutcome, st2: SliceState, len: int) -> bool {
    &&& st.pos <= st2.pos <= len
    &&& (o is Emit ==> (o->kind == EventType::Fault <==> o->error is Some))
    &&& (o is Emit ==> o->kind != EventType::Eof)
    &&& (st.pending is Some ==> o is Emit && o->kind == EventType::EndElement)
    &&& (o is Emit && o->kind == EventType::EndElement ==> {
        ||| st.pending == Some(o->data) && st2.names == st.names && st2.pending is None
        ||| st.pending is None && st.names.len() > 0 && o->data == st.names.last() && st2.names == st.names.drop_last()
            && st2.pending is None
        ||| st.pending is None && st.names.len() == 0 && st2.names == st.names && st2.pending is None
    })
    &&& (o is Emit && o->kind == EventType::StartElement ==> {
        &&& st.pending is None
        &&& st.names.len() < lim.depth
        &&& (st2.names == st.names.push(o->data) && st2.pending is None) || (st2.names == st.names && st2.pending
            == Some(o->data))
    })
    &&& (!(o is Emit && (o->kind == EventType::EndElement || o->kind == EventType::StartElement)) ==> st2.names
        == st.names && st2.pending == st.pending)
}

/// One token handled at any position inside the input obeys
/// `slice_outcome_ok`.
#[verifier::spinoff_prover]
#[verifier::rlimit(40)]
pub proof fn lemma_token_step_ok(input: Seq<u8>, lim: SliceLimits, st: SliceState)
    requires
        0 <= st.pos <= input.len(),
    ensures
        slice_outcome_ok(lim, st, token_step(input, lim, st).0, token_step(input, lim, st).1, input.len() as int),
{
    reveal(token_step);
    let b = input.subrange(st.pos, input.len() as int);
    if st.pending is None && b.len() > 0 {
        lemma_first_index_props(b, LT);
        if b.len() >= 2 {
            lemma_first_index_props(b.subrange(2, b.len() as int), GT);
            lemma_first_index_props(b.subrange(1, b.len() as int), GT);
            lemma_first_occurrence_props(b, comment_close());
            lemma_first_occurrence_props(b, cdata_close());
            lemma_first_occurrence_props(b, pi_close());
            if b[0] == LT {
                assert(first_index(b, LT) == Some(0int));
                if b[1] == SLASH {
                    assert(token_step(input, lim, st) == end_tag_step(lim, st, b));
                } else if b[1] != BANG && b[1] != QMARK {
                    assert(token_step(input, lim, st) == start_tag_step(lim, st, b));
                }
            }
        }
    }
}

/// `slice_step` obeys `slice_outcome_ok`.
proof fn lemma_slice_step_ok(input: Seq<u8>, lim: SliceLimits, st: SliceState)
    requires
        0 <= st.pos <= input.len(),
    ensures
        slice_outcome_ok(lim, st, slice_step(input, lim, st).0, slice_step(input, lim, st).1, input.len() as int),
{
    if st.pending is Some {
        lemma_token_step_ok(input, lim, st);
    } else {
        let q = skip_declarations(input, st.pos);
        lemma_skip_declarations_bounds(input, st.pos);
        lemma_token_step_ok(input, lim, at_pos(st, q));
    }
}

/// Every event the slice parser reports follows the fault convention: its
/// kind is `Fault` exactly when it carries an error code.
pub proof fn law_slice_fault_convention(input: Seq<u8>, lim: SliceLimits, st: SliceState)
    requires
        0 <= st.pos <= input.len(),
    ensures
        slice_step(input, lim, st).0 is Emit ==> (slice_step(input, lim, st).0->kind == EventType::Fault
            <==> slice_step(input, lim, st).0->error is Some),
{
    lemma_slice_step_ok(input, lim, st);
}

/// The slice parser only moves forward, and stays inside the input.
pub proof fn law_slice_moves_forward(input: Seq<u8>, lim: SliceLimits, st: SliceState)
    requires
        0 <= st.pos <= input.len(),
    ensures
        st.pos <= slice_step(input, lim, st).1.pos <= input.len(),
{
    lemma_slice_step_ok(input, lim, st);
}

/// An end element names the innermost open element and closes it, ends a
/// self-closing element just reported, or, with no element open, changes
/// nothing; a start element opens its name within the depth limit; no other
/// event changes the open elements.
pub proof fn law_slice_elements_nest(input: Seq<u8>, lim: SliceLimits, st: SliceState)
    requires
        0 <= st.pos <= input.len(),
    ensures
        ({
            let (o, st2) = slice_step(input, lim, st);
            &&& (o is Emit && o->kind == EventType::EndElement ==> {
                ||| st.pending == Some(o->data) && st2.names == st.names
                ||| st.names.len() > 0 && o->data == st.names.last() && st2.names == st.names.drop_last()
                ||| st.names.len() == 0 && st2.names == st.names
            })
            &&& (o is Emit && o->kind == EventType::StartElement ==> {
                &&& st.names.len() < lim.depth
                &&& st2.names == st.names.push(o->data) || (st2.names == st.names && st2.pending == Some(o->data))
            })
            &&& (!(o is Emit && (o->kind == EventType::EndElement || o->kind == EventType::StartElement))
                ==> st2.names == st.names)
        }),
{
    lemma_slice_step_ok(input, lim, st);
}

/// The open elements never exceed the depth limit.
pub proof fn law_slice_depth_bounded(input: Seq<u8>, lim: SliceLimits, st: SliceState)
    requires
        0 <= st.pos <= input.len(),
        st.names.len() <= lim.depth,
    ensures
        slice_step(input, lim, st).1.names.len() <= lim.depth,
{
    lemma_slice_step_ok(input, lim, st);
}

/// At the end of the input with elements still open, one `UnclosedElement`
/// fault is reported, then `Eof`, and `Eof` again on every later call.
pub proof fn law_slice_end_of_input(input: Seq<u8>, lim: SliceLimits, st: SliceState)
    requires
        st.pos == input.len(),
        st.pending is None,
    ensures
        st.names.len() > 0 && !st.eof_fault ==> slice_step(input, lim, st) == (
            SliceOutcome::Emit {
                kind: EventType::Fault,
                data: Seq::<u8>::empty(),
                cont: false,
                error: Some(ErrorCode::UnclosedElement),
            },
            SliceState { eof_fault: true, ..st },
        ),
        (st.names.len() == 0 || st.eof_fault) ==> slice_step(input, lim, st) == (SliceOutcome::Eof, st),
{
    reveal(token_step);
    assert(declaration_end(input, st.pos) is None);
    assert(at_pos(st, st.pos) == st);
    assert(input.subrange(st.pos, input.len() as int).len() == 0);
}

} // verus!
