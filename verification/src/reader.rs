//! A simple streaming reader that turns a byte source into owned events,
//! reading one byte at a time through an internal buffer and recording the
//! bytes of the markup it has seen since the last end element.

use vstd::prelude::*;
use crate::search::{LT, GT, SLASH, BANG, QMARK, EQ, QUOT, APOS, DASH, LBRACKET, RBRACKET, is_ws,
    first_occurrence, occurs_at, lemma_first_occurrence, lemma_first_occurrence_props,
    lemma_first_occurrence_exists};
use crate::simd_scanner::is_name_byte;
use crate::source::{ByteSource, SourceError};
use crate::tokenizer::{run_from, lemma_run_props, lemma_run_unique, ws_stop, quote_stop};

verus! {

/// The size of the reader's internal buffer.
pub const READ_BUF_SIZE: usize = 8192;

/// An event of the reader.
#[derive(Debug, PartialEq, Clone)]
pub enum Event {
    StartElement { name: Vec<u8>, attributes: Vec<(Vec<u8>, Vec<u8>)> },
    EndElement { name: Vec<u8>, accumulated: Vec<u8> },
    Text(Vec<u8>),
    Comment(Vec<u8>),
    CData(Vec<u8>),
    Eof,
}

/// Why the reader could not produce an event.
#[derive(Debug, Clone, Copy, PartialEq, Eq, Structural)]
pub enum ReadError {
    /// Reading from the source failed.
    Source(SourceError),
    /// The input ended inside a construct.
    UnexpectedEof,
    /// A byte that the construct does not allow.
    InvalidData,
}

/// Whether the reader is between tags or inside one.
#[derive(Clone, Copy, PartialEq, Eq, Structural)]
enum ReaderState {
    OutsideTag,
    InsideTag,
}

/// A byte that may appear in a name.
pub fn is_name_char(b: u8) -> (r: bool)
    ensures
        r == is_name_byte(b),
{
    (0x61u8 <= b && b <= 0x7au8) || (0x41u8 <= b && b <= 0x5au8) || (0x30u8 <= b && b <= 0x39u8)
        || b == 0x5fu8 || b == 0x3au8 || b == 0x2eu8 || b == DASH
}

/// Stops a scan at the first byte that is not a name byte.
pub open spec fn name_end() -> spec_fn(u8) -> bool {
    |b: u8| !is_name_byte(b)
}

/// Streaming reader over a byte source.
pub struct Reader<S: ByteSource> {
    source: S,
    pub buf: Vec<u8>,
    pub pos: usize,
    pub end: usize,
    state: ReaderState,
    pub finished: bool,
    pending_end: Vec<Vec<u8>>,
    accumulator: Vec<u8>,
    history: Ghost<Seq<EventView>>,
}

impl<S: ByteSource> Reader<S> {
    /// The bytes not yet read: the rest of the buffer, then the source.
    pub closed spec fn sv(&self) -> Seq<u8> {
        self.buf@.subrange(self.pos as int, self.end as int) + self.source.stream()
    }

    /// The bytes of markup recorded since the last end element.
    pub closed spec fn acc(&self) -> Seq<u8> {
        self.accumulator@
    }

    /// The names of the synthetic end elements still to be reported, the
    /// next one last.
    pub closed spec fn pending(&self) -> Seq<Seq<u8>> {
        self.pending_end.deep_view()
    }

    /// Whether the reader stands inside a tag.
    pub closed spec fn inside(&self) -> bool {
        self.state == ReaderState::InsideTag
    }

    /// Whether unread bytes sit in the buffer.
    pub closed spec fn buffered(&self) -> bool {
        self.pos < self.end
    }

    /// The unread bytes held in the buffer.
    pub closed spec fn window(&self) -> Seq<u8> {
        self.buf@.subrange(self.pos as int, self.end as int)
    }

    /// Whether the end of the input has been reached.
    pub closed spec fn at_end(&self) -> bool {
        self.finished
    }

    /// Whether reading from the source never fails.
    pub closed spec fn reliable(&self) -> bool {
        self.source.never_fails()
    }

    /// The events handed out so far, in order.
    pub closed spec fn history(&self) -> Seq<EventView> {
        self.history@
    }

    /// The fields agree with each other.
    pub closed spec fn wf(&self) -> bool {
        &&& self.pos <= self.end <= self.buf@.len()
        &&& self.buf@.len() == READ_BUF_SIZE
        &&& self.finished ==> self.sv().len() == 0
    }

    /// A reader over `source`, outside any tag.
    pub fn from_reader(source: S) -> (r: Self)
        ensures
            r.wf(),
            r.sv() == source.stream(),
            r.acc().len() == 0,
            r.pending().len() == 0,
            !r.inside(),
            !r.at_end(),
            r.reliable() == source.never_fails(),
            r.history().len() == 0,
    {
        let buf: Vec<u8> = vec![0u8; READ_BUF_SIZE];
        let r = Reader {
            source,
            buf,
            pos: 0,
            end: 0,
            state: ReaderState::OutsideTag,
            finished: false,
            pending_end: Vec::new(),
            accumulator: Vec::new(),
            history: Ghost(Seq::empty()),
        };
        assert(r.buf@.subrange(0, 0) + r.source.stream() =~= r.source.stream());
        assert(r.pending() =~= Seq::<Seq<u8>>::empty());
        r
    }

    /// Take the recorded bytes, leaving none.
    fn get_accumulated(&mut self) -> (r: Vec<u8>)
        ensures
            r@ == old(self).acc(),
            final(self).acc().len() == 0,
            final(self).sv() == old(self).sv(),
            final(self).pending() == old(self).pending(),
            final(self).inside() == old(self).inside(),
            final(self).at_end() == old(self).at_end(),
            final(self).wf() == old(self).wf(),
            final(self).reliable() == old(self).reliable(),
            final(self).history() == old(self).history(),
    {
        let mut out: Vec<u8> = Vec::new();
        std::mem::swap(&mut out, &mut self.accumulator);
        out
    }
}


/// The result is a failed read of the source.
pub open spec fn source_failed<T>(r: Result<T, ReadError>) -> bool {
    r matches Err(ReadError::Source(_))
}

impl<S: ByteSource> Reader<S> {
    /// The parts other than the input position stay as they are.
    pub open spec fn same_marks(&self, other: &Self) -> bool {
        &&& self.acc() == other.acc()
        &&& self.pending() == other.pending()
        &&& self.inside() == other.inside()
        &&& self.reliable() == other.reliable()
    }

    /// Refill the buffer from the source when it has been used up; marks the
    /// reader finished when the source has ended.
    pub fn fill_buf(&mut self) -> (r: Result<(), ReadError>)
        requires
            old(self).wf(),
        ensures
            final(self).wf(),
            final(self).same_marks(old(self)),
            old(self).at_end() ==> final(self).at_end(),
            r is Ok ==> final(self).sv() == old(self).sv(),
            r is Ok ==> final(self).buffered() || final(self).at_end(),
            r is Ok ==> (final(self).at_end() <==> old(self).sv().len() == 0),
            r is Err ==> source_failed(r) && final(self).sv().len() <= old(self).sv().len(),
            old(self).buffered() ==> r is Ok && final(self).window() == old(self).window(),
            r is Ok ==> final(self).window().len() > 0 || final(self).at_end(),
            final(self).reliable() == old(self).reliable(),
            old(self).reliable() ==> !source_failed(r),
            final(self).history() == old(self).history(),
    {
        if self.pos < self.end {
            return Ok(());
        }
        let ghost old_stream = self.source.stream();
        let res = self.source.read_into(&mut self.buf, 0);
        match res {
            Ok(n) => {
                if n == 0 {
                    self.finished = true;
                    assert(self.sv() =~= Seq::<u8>::empty());
                    return Ok(());
                }
                self.pos = 0;
                self.end = n;
                assert(self.buf@.subrange(0, n as int) == old_stream.take(n as int));
                assert(self.sv() =~= old_stream);
                Ok(())
            },
            Err(e) => {
                proof {
                    if self.finished {
                        assert(self.sv().len() == 0);
                    }
                }
                Err(ReadError::Source(e))
            },
        }
    }

    /// The next byte, left unread.
    fn peek_byte(&mut self) -> (r: Result<u8, ReadError>)
        requires
            old(self).wf(),
        ensures
            final(self).wf(),
            final(self).same_marks(old(self)),
            old(self).at_end() ==> final(self).at_end(),
            r matches Ok(b) ==> old(self).sv().len() > 0 && b == old(self).sv()[0] && final(self).sv() == old(self).sv()
                && final(self).pos < final(self).end && final(self).buf@[final(self).pos as int] == b,
            r matches Err(e) ==> e == ReadError::UnexpectedEof || e is Source,
            r == Err::<u8, ReadError>(ReadError::UnexpectedEof) ==> old(self).sv().len() == 0 && final(self).sv().len() == 0,
            !source_failed(r) ==> (r is Ok <==> old(self).sv().len() > 0),
            source_failed(r) ==> final(self).sv().len() <= old(self).sv().len(),
            old(self).buffered() ==> r is Ok,
            final(self).reliable() == old(self).reliable(),
            old(self).reliable() ==> !source_failed(r),
            r == Err::<u8, ReadError>(ReadError::UnexpectedEof) ==> final(self).sv().len() == 0,
            r == Err::<u8, ReadError>(ReadError::InvalidData) ==> final(self).sv().len() > 0,
            final(self).history() == old(self).history(),
    {
        match self.fill_buf() {
            Err(e) => {
                return Err(e);
            },
            Ok(()) => {},
        }
        if self.finished || self.pos >= self.end {
            return Err(ReadError::UnexpectedEof);
        }
        Ok(self.buf[self.pos])
    }
}


impl<S: ByteSource> Reader<S> {
    /// Read the bytes before the next `<` (all the rest if there is none).
    fn read_text_until_lt(&mut self) -> (r: Result<Vec<u8>, ReadError>)
        requires
            old(self).wf(),
        ensures
            final(self).wf(),
            final(self).same_marks(old(self)),
            old(self).at_end() ==> final(self).at_end(),
            r matches Ok(t) ==> {
                let k = run_from(old(self).sv(), 0, quote_stop(LT)) as int;
                &&& t@ == old(self).sv().take(k)
                &&& final(self).sv() == old(self).sv().skip(k)
                &&& final(self).sv().len() == 0 ==> final(self).at_end()
                &&& final(self).sv().len() > 0 ==> final(self).pos < final(self).end
                    && final(self).buf@[final(self).pos as int] == LT
            },
            r is Err ==> source_failed(r) && final(self).sv().len() <= old(self).sv().len(),
            final(self).reliable() == old(self).reliable(),
            old(self).reliable() ==> !source_failed(r),
            final(self).history() == old(self).history(),
    {
        let ghost s0 = self.sv();
        let mut out: Vec<u8> = Vec::new();
        loop
            invariant
                self.history() == old(self).history(),
                self.reliable() == old(self).reliable(),
                self.wf(),
                self.same_marks(old(self)),
                old(self).at_end() ==> self.at_end(),
                s0 == old(self).sv(),
                s0 == out@ + self.sv(),
                forall|j: int| 0 <= j < out@.len() ==> out@[j] != LT,
            decreases self.sv().len(),
        {
            let ghost before = self.sv();
            match self.fill_buf() {
                Err(e) => {
                    return Err(e);
                },
                Ok(()) => {},
            }
            if self.finished {
                proof {
                    assert(out@ =~= s0);
                    assert forall|j: int| 0 <= j < out@.len() implies !(quote_stop(LT))(s0[j]) by {
                        assert(s0[j] == out@[j]);
                    }
                    lemma_run_unique(s0, 0, quote_stop(LT), out@.len() as int);
                    assert(s0.take(out@.len() as int) =~= out@);
                    assert(s0.skip(out@.len() as int) =~= self.sv());
                }
                return Ok(out);
            }
            while self.pos < self.end
                invariant
                    self.history() == old(self).history(),
                    self.reliable() == old(self).reliable(),
                    self.wf(),
                    self.same_marks(old(self)),
                    old(self).at_end() ==> self.at_end(),
                    !self.finished,
                    s0 == old(self).sv(),
                    s0 == out@ + self.sv(),
                    forall|j: int| 0 <= j < out@.len() ==> out@[j] != LT,
                    self.sv().len() <= before.len(),
                    self.sv().len() < before.len() || self.pos < self.end,
                decreases self.end - self.pos,
            {
                let b = self.buf[self.pos];
                if b == LT {
                    proof {
                        assert forall|j: int| 0 <= j < out@.len() implies !(quote_stop(LT))(s0[j]) by {
                            assert(s0[j] == out@[j]);
                        }
                        assert(self.sv()[0] == LT);
                        assert(s0[out@.len() as int] == LT);
                        lemma_run_unique(s0, 0, quote_stop(LT), out@.len() as int);
                        assert(s0.take(out@.len() as int) =~= out@);
                        assert(s0.skip(out@.len() as int) =~= self.sv());
                    }
                    return Ok(out);
                }
                let ghost sv1 = self.sv();
                out.push(b);
                self.pos = self.pos + 1;
                assert(self.sv() =~= sv1.skip(1));
                assert(s0 =~= out@ + self.sv());
            }
        }
    }

    /// Skip whitespace, recording it.
    fn skip_spaces(&mut self) -> (r: Result<(), ReadError>)
        requires
            old(self).wf(),
        ensures
            final(self).wf(),
            final(self).pending() == old(self).pending(),
            final(self).inside() == old(self).inside(),
            old(self).at_end() ==> final(self).at_end(),
            r is Ok ==> {
                let k = run_from(old(self).sv(), 0, ws_stop()) as int;
                &&& final(self).acc() == old(self).acc() + old(self).sv().take(k)
                &&& final(self).sv() == old(self).sv().skip(k)
            },
            r is Err ==> source_failed(r) && final(self).sv().len() <= old(self).sv().len(),
            final(self).reliable() == old(self).reliable(),
            old(self).reliable() ==> !source_failed(r),
            final(self).history() == old(self).history(),
    {
        let ghost s0 = self.sv();
        let ghost a0 = self.acc();
        let ghost mut taken: Seq<u8> = Seq::empty();
        loop
            invariant
                self.history() == old(self).history(),
                self.reliable() == old(self).reliable(),
                self.wf(),
                self.pending() == old(self).pending(),
                self.inside() == old(self).inside(),
                old(self).at_end() ==> self.at_end(),
                s0 == old(self).sv(),
                a0 == old(self).acc(),
                s0 == taken + self.sv(),
                self.acc() == a0 + taken,
                forall|j: int| 0 <= j < taken.len() ==> is_ws(taken[j]),
            decreases self.sv().len(),
        {
            let ghost before = self.sv();
            match self.fill_buf() {
                Err(e) => {
                    return Err(e);
                },
                Ok(()) => {},
            }
            if self.finished {
                proof {
                    assert(taken =~= s0);
                    assert forall|j: int| 0 <= j < taken.len() implies !(ws_stop())(s0[j]) by {
                        assert(s0[j] == taken[j]);
                    }
                    lemma_run_unique(s0, 0, ws_stop(), taken.len() as int);
                    assert(s0.take(taken.len() as int) =~= taken);
                    assert(s0.skip(taken.len() as int) =~= self.sv());
                }
                return Ok(());
            }
            while self.pos < self.end
                invariant
                    self.history() == old(self).history(),
                    self.reliable() == old(self).reliable(),
                    self.wf(),
                    self.pending() == old(self).pending(),
                    self.inside() == old(self).inside(),
                    old(self).at_end() ==> self.at_end(),
                    !self.finished,
                    s0 == old(self).sv(),
                    a0 == old(self).acc(),
                    s0 == taken + self.sv(),
                    self.acc() == a0 + taken,
                    forall|j: int| 0 <= j < taken.len() ==> is_ws(taken[j]),
                    self.sv().len() <= before.len(),
                    self.sv().len() < before.len() || self.pos < self.end,
                decreases self.end - self.pos,
            {
                let b = self.buf[self.pos];
                if !(b == 0x20u8 || b == 0x0au8 || b == 0x0du8 || b == 0x09u8) {
                    proof {
                        assert forall|j: int| 0 <= j < taken.len() implies !(ws_stop())(s0[j]) by {
                            assert(s0[j] == taken[j]);
                        }
                        assert(self.sv()[0] == b);
                        assert(s0[taken.len() as int] == b);
                        lemma_run_unique(s0, 0, ws_stop(), taken.len() as int);
                        assert(s0.take(taken.len() as int) =~= taken);
                        assert(s0.skip(taken.len() as int) =~= self.sv());
                    }
                    return Ok(());
                }
                let ghost sv1 = self.sv();
                self.accumulator.push(b);
                self.pos = self.pos + 1;
                proof {
                    taken = taken.push(b);
                }
                assert(self.sv() =~= sv1.skip(1));
                assert(s0 =~= taken + self.sv());
                assert(self.acc() =~= a0 + taken);
            }
        }
    }
}


/// What `read_name` finds in `s`: the whitespace before the name, and the
/// name's length.
pub open spec fn name_parts(s: Seq<u8>) -> (int, int) {
    let w = run_from(s, 0, ws_stop()) as int;
    (w, run_from(s.skip(w), 0, name_end()) as int)
}

impl<S: ByteSource> Reader<S> {
    /// Skip whitespace (recording it), then read a name: at least one name
    /// byte, up to the first byte that is none.
    fn read_name(&mut self) -> (r: Result<Vec<u8>, ReadError>)
        requires
            old(self).wf(),
        ensures
            final(self).wf(),
            final(self).pending() == old(self).pending(),
            final(self).inside() == old(self).inside(),
            old(self).at_end() ==> final(self).at_end(),
            ({
                let s = old(self).sv();
                let (w, n) = name_parts(s);
                let rest = s.skip(w);
                &&& !source_failed(r) ==> final(self).acc() == old(self).acc() + s.take(w)
                &&& r matches Ok(name) ==> n > 0 && name@ == rest.take(n) && final(self).sv() == rest.skip(n)
                &&& r == Err::<Vec<u8>, ReadError>(ReadError::InvalidData) ==> n == 0 && rest.len() > 0
                    && final(self).sv() == rest
                &&& r == Err::<Vec<u8>, ReadError>(ReadError::UnexpectedEof) ==> n == 0 && rest.len() == 0
                    && final(self).sv().len() == 0
                &&& !source_failed(r) ==> (r is Ok <==> n > 0)
                    && (r == Err::<Vec<u8>, ReadError>(ReadError::InvalidData) <==> n == 0 && rest.len() > 0)
            }),
            source_failed(r) ==> final(self).sv().len() <= old(self).sv().len(),
            final(self).reliable() == old(self).reliable(),
            old(self).reliable() ==> !source_failed(r),
            r == Err::<Vec<u8>, ReadError>(ReadError::UnexpectedEof) ==> final(self).sv().len() == 0,
            r == Err::<Vec<u8>, ReadError>(ReadError::InvalidData) ==> final(self).sv().len() > 0,
            r is Err && !source_failed(r) ==> final(self).sv() == old(self).sv().skip(name_parts(old(self).sv()).0),
            final(self).history() == old(self).history(),
    {
        let ghost s00 = self.sv();
        match self.skip_spaces() {
            Err(e) => {
                return Err(e);
            },
            Ok(()) => {},
        }
        let ghost s0 = self.sv();
        let ghost a1 = self.acc();
        proof { lemma_run_props(s00, 0, ws_stop()); }
        let mut out: Vec<u8> = Vec::new();
        loop
            invariant
                self.history() == old(self).history(),
                self.reliable() == old(self).reliable(),
                self.wf(),
                self.pending() == old(self).pending(),
                self.inside() == old(self).inside(),
                old(self).at_end() ==> self.at_end(),
                s0 == s00.skip(name_parts(s00).0),
                s00 == old(self).sv(),
                self.acc() == a1,
                a1 == old(self).acc() + s00.take(name_parts(s00).0),
                s0 == out@ + self.sv(),
                forall|j: int| 0 <= j < out@.len() ==> is_name_byte(out@[j]),
                self.sv().len() <= s00.len(),
            decreases self.sv().len(),
        {
            let ghost before = self.sv();
            match self.fill_buf() {
                Err(e) => {
                    return Err(e);
                },
                Ok(()) => {},
            }
            if self.finished {
                proof {
                    assert(out@ =~= s0);
                    assert forall|j: int| 0 <= j < out@.len() implies !(name_end())(s0[j]) by {
                        assert(s0[j] == out@[j]);
                    }
                    lemma_run_unique(s0, 0, name_end(), out@.len() as int);
                    assert(s0.take(out@.len() as int) =~= out@);
                    assert(s0.skip(out@.len() as int) =~= self.sv());
                }
                if out.len() == 0 {
                    return Err(ReadError::UnexpectedEof);
                }
                return Ok(out);
            }
            while self.pos < self.end
                invariant
                    self.history() == old(self).history(),
                    self.reliable() == old(self).reliable(),
                    self.wf(),
                    self.pending() == old(self).pending(),
                    self.inside() == old(self).inside(),
                    old(self).at_end() ==> self.at_end(),
                    !self.finished,
                    s0 == s00.skip(name_parts(s00).0),
                    s00 == old(self).sv(),
                    self.acc() == a1,
                    a1 == old(self).acc() + s00.take(name_parts(s00).0),
                    s0 == out@ + self.sv(),
                    forall|j: int| 0 <= j < out@.len() ==> is_name_byte(out@[j]),
                    self.sv().len() <= before.len(),
                    self.sv().len() <= s00.len(),
                    self.sv().len() < before.len() || self.pos < self.end,
                decreases self.end - self.pos,
            {
                let b = self.buf[self.pos];
                if is_name_char(b) {
                    let ghost sv1 = self.sv();
                    out.push(b);
                    self.pos = self.pos + 1;
                    assert(self.sv() =~= sv1.skip(1));
                    assert(s0 =~= out@ + self.sv());
                } else {
                    proof {
                        assert(self.sv()[0] == b);
                        assert(s0[out@.len() as int] == b);
                        assert forall|j: int| 0 <= j < out@.len() implies !(name_end())(s0[j]) by {
                            assert(s0[j] == out@[j]);
                        }
                        lemma_run_unique(s0, 0, name_end(), out@.len() as int);
                        assert(s0.take(out@.len() as int) =~= out@);
                        assert(s0.skip(out@.len() as int) =~= self.sv());
                    }
                    if out.len() == 0 {
                        return Err(ReadError::InvalidData);
                    }
                    return Ok(out);
                }
            }
        }
    }

    /// Read the byte `expected`; `InvalidData` (reading nothing) when another
    /// byte comes.
    fn expect_byte(&mut self, expected: u8) -> (r: Result<(), ReadError>)
        requires
            old(self).wf(),
        ensures
            final(self).wf(),
            final(self).same_marks(old(self)),
            old(self).at_end() ==> final(self).at_end(),
            r is Ok ==> old(self).sv().len() > 0 && old(self).sv()[0] == expected
                && final(self).sv() == old(self).sv().skip(1),
            r == Err::<(), ReadError>(ReadError::InvalidData) ==> old(self).sv().len() > 0
                && old(self).sv()[0] != expected && final(self).sv() == old(self).sv(),
            r == Err::<(), ReadError>(ReadError::UnexpectedEof) ==> old(self).sv().len() == 0
                && final(self).sv().len() == 0,
            !source_failed(r) ==> (r is Ok <==> old(self).sv().len() > 0 && old(self).sv()[0] == expected)
                && (r == Err::<(), ReadError>(ReadError::UnexpectedEof) <==> old(self).sv().len() == 0),
            source_failed(r) ==> final(self).sv().len() <= old(self).sv().len(),
            final(self).reliable() == old(self).reliable(),
            old(self).reliable() ==> !source_failed(r),
            r == Err::<(), ReadError>(ReadError::UnexpectedEof) ==> final(self).sv().len() == 0,
            r == Err::<(), ReadError>(ReadError::InvalidData) ==> final(self).sv().len() > 0,
            r is Err && !source_failed(r) ==> final(self).sv() == old(self).sv(),
            final(self).history() == old(self).history(),
    {
        let b = match self.peek_byte() {
            Err(e) => {
                return Err(e);
            },
            Ok(b) => b,
        };
        if b == expected {
            let ghost sv1 = self.sv();
            self.pos = self.pos + 1;
            assert(self.sv() =~= sv1.skip(1));
            Ok(())
        } else {
            Err(ReadError::InvalidData)
        }
    }
}


/// Stops a scan of an attribute value quoted by `q`: at `q`, or at a `<`,
/// which no attribute value may hold.
pub open spec fn value_end(q: u8) -> spec_fn(u8) -> bool {
    |b: u8| b == q || b == LT
}

/// The head of an attribute at the front of `s`: optional whitespace, a
/// name, optional whitespace, `=`, optional whitespace. Gives the name and
/// what follows.
pub open spec fn attr_head(s: Seq<u8>) -> Option<(Seq<u8>, Seq<u8>)> {
    let (w1, n) = name_parts(s);
    let s1 = s.skip(w1 + n);
    let s2 = s1.skip(run_from(s1, 0, ws_stop()) as int);
    let s3 = s2.skip(1);
    let s4 = s3.skip(run_from(s3, 0, ws_stop()) as int);
    if n > 0 && s2.len() > 0 && s2[0] == EQ {
        Some((s.skip(w1).take(n), s4))
    } else {
        None
    }
}

/// A quoted value at the front of `s`: a single or double quote, bytes
/// other than that quote and `<`, and the quote again. Gives the value and
/// what follows.
pub open spec fn quoted_value(s: Seq<u8>) -> Option<(Seq<u8>, Seq<u8>)> {
    if s.len() > 0 && (s[0] == QUOT || s[0] == APOS) {
        let s5 = s.skip(1);
        let v = run_from(s5, 0, value_end(s[0])) as int;
        if v < s5.len() && s5[v] == s[0] {
            Some((s5.take(v), s5.skip(v + 1)))
        } else {
            None
        }
    } else {
        None
    }
}

/// An attribute at the front of `s`: its head and a quoted value. Gives the
/// name, the value and what follows.
pub open spec fn attr_layout(s: Seq<u8>) -> Option<(Seq<u8>, Seq<u8>, Seq<u8>)> {
    match attr_head(s) {
        Some((name, s4)) => match quoted_value(s4) {
            Some((value, rest)) => Some((name, value, rest)),
            None => None,
        },
        None => None,
    }
}

/// `new` is what is left of `old` once a prefix was consumed.
pub open spec fn consumed_from(old: Seq<u8>, new: Seq<u8>) -> bool {
    new.len() <= old.len() && old.skip(old.len() - new.len()) == new
}

/// The prefix of `old` consumed to leave `new`.
pub open spec fn consumed_part(old: Seq<u8>, new: Seq<u8>) -> Seq<u8> {
    old.take(old.len() - new.len())
}

/// Skipping a prefix consumes it.
pub proof fn lemma_consumed_skip(a: Seq<u8>, k: int)
    requires
        0 <= k <= a.len(),
    ensures
        consumed_from(a, a.skip(k)),
        consumed_part(a, a.skip(k)) == a.take(k),
{
    assert(a.skip(a.len() - a.skip(k).len()) =~= a.skip(k));
    assert(a.take(a.len() - a.skip(k).len()) =~= a.take(k));
}

/// Consuming twice consumes the two parts one after the other.
pub proof fn lemma_consumed_trans(a: Seq<u8>, b: Seq<u8>, c: Seq<u8>)
    requires
        consumed_from(a, b),
        consumed_from(b, c),
    ensures
        consumed_from(a, c),
        consumed_part(a, c) == consumed_part(a, b) + consumed_part(b, c),
        a == consumed_part(a, c) + c,
{
    assert(a =~= consumed_part(a, b) + b);
    assert(b =~= consumed_part(b, c) + c);
    assert(a.skip(a.len() - c.len()) =~= c);
    assert(consumed_part(a, c) =~= consumed_part(a, b) + consumed_part(b, c));
    assert(a =~= consumed_part(a, c) + c);
}

/// What is left when all was consumed.
pub proof fn lemma_consumed_all(a: Seq<u8>, c: Seq<u8>)
    requires
        c.len() == 0,
    ensures
        consumed_from(a, c),
{
    assert(a.skip(a.len() as int) =~= c);
}

/// Nothing consumed.
pub proof fn lemma_consumed_none(a: Seq<u8>)
    ensures
        consumed_from(a, a),
        consumed_part(a, a).len() == 0,
{
    assert(a.skip(0) =~= a);
}

/// Where reading an attribute head (see `attr_head`) from `s` stops when it
/// fails: where the name should start, or where the `=` should be.
pub open spec fn head_fail(s: Seq<u8>) -> Seq<u8> {
    let (w1, n) = name_parts(s);
    if n <= 0 {
        s.skip(w1)
    } else {
        let s1 = s.skip(w1 + n);
        s1.skip(run_from(s1, 0, ws_stop()) as int)
    }
}

/// Where reading an attribute (see `attr_layout`) from `s` stops when it
/// fails: in its head, where the opening quote should be, or where the
/// value runs into a `<` or the end of the input.
pub open spec fn attr_fail(s: Seq<u8>) -> Seq<u8> {
    match attr_head(s) {
        None => head_fail(s),
        Some((_, s4)) => if s4.len() == 0 || (s4[0] != QUOT && s4[0] != APOS) {
            s4
        } else {
            let s5 = s4.skip(1);
            s5.skip(run_from(s5, 0, value_end(s4[0])) as int)
        },
    }
}

impl<S: ByteSource> Reader<S> {
    /// Read an attribute value up to its closing quote `quote` (which is read
    /// too), recording every byte read; a `<` or the end of the input before
    /// the closing quote is an error.
    fn read_quoted_value(&mut self, quote: u8) -> (r: Result<Vec<u8>, ReadError>)
        requires
            old(self).wf(),
        ensures
            final(self).wf(),
            final(self).pending() == old(self).pending(),
            final(self).inside() == old(self).inside(),
            old(self).at_end() ==> final(self).at_end(),
            ({
                let s = old(self).sv();
                let v = run_from(s, 0, value_end(quote)) as int;
                &&& r matches Ok(out) ==> v < s.len() && s[v] == quote && out@ == s.take(v)
                    && final(self).sv() == s.skip(v + 1) && final(self).acc() == old(self).acc() + s.take(v + 1)
                &&& !source_failed(r) ==> (r is Ok <==> v < s.len() && s[v] == quote)
            }),
            final(self).sv().len() <= old(self).sv().len(),
            final(self).reliable() == old(self).reliable(),
            old(self).reliable() ==> !source_failed(r),
            r == Err::<Vec<u8>, ReadError>(ReadError::UnexpectedEof) ==> final(self).sv().len() == 0,
            r == Err::<Vec<u8>, ReadError>(ReadError::InvalidData) ==> final(self).sv().len() > 0,
            r is Err && !source_failed(r) ==> final(self).sv() == old(self).sv().skip(
                run_from(old(self).sv(), 0, value_end(quote)) as int)
                && final(self).acc() == old(self).acc() + old(self).sv().take(run_from(old(self).sv(), 0, value_end(quote)) as int),
            final(self).history() == old(self).history(),
    {
        let ghost s5 = self.sv();
        let ghost a5 = self.acc();
        let mut out: Vec<u8> = Vec::new();
        loop
            invariant
                self.history() == old(self).history(),
                self.reliable() == old(self).reliable(),
                self.wf(),
                self.pending() == old(self).pending(),
                self.inside() == old(self).inside(),
                old(self).at_end() ==> self.at_end(),
                s5 == old(self).sv(),
                a5 == old(self).acc(),
                s5 == out@ + self.sv(),
                self.acc() == a5 + out@,
                forall|j: int| 0 <= j < out@.len() ==> !(value_end(quote))(out@[j]),
            decreases self.sv().len(),
        {
            let ghost before = self.sv();
            match self.fill_buf() {
                Err(e) => {
                    return Err(e);
                },
                Ok(()) => {},
            }
            if self.finished {
                proof {
                    assert(out@ =~= s5);
                    assert forall|j: int| 0 <= j < out@.len() implies !(value_end(quote))(s5[j]) by {
                        assert(s5[j] == out@[j]);
                    }
                    lemma_run_unique(s5, 0, value_end(quote), out@.len() as int);
                }
                return Err(ReadError::UnexpectedEof);
            }
            while self.pos < self.end
                invariant
                    self.history() == old(self).history(),
                    self.reliable() == old(self).reliable(),
                    self.wf(),
                    self.pending() == old(self).pending(),
                    self.inside() == old(self).inside(),
                    old(self).at_end() ==> self.at_end(),
                    !self.finished,
                    s5 == old(self).sv(),
                    a5 == old(self).acc(),
                    s5 == out@ + self.sv(),
                    self.acc() == a5 + out@,
                    forall|j: int| 0 <= j < out@.len() ==> !(value_end(quote))(out@[j]),
                    self.sv().len() <= before.len(),
                    self.sv().len() < before.len() || self.pos < self.end,
                decreases self.end - self.pos,
            {
                let b = self.buf[self.pos];
                if b == quote || b == LT {
                    proof {
                        assert(self.sv()[0] == b);
                        assert(s5[out@.len() as int] == b);
                        assert forall|j: int| 0 <= j < out@.len() implies !(value_end(quote))(s5[j]) by {
                            assert(s5[j] == out@[j]);
                        }
                        lemma_run_unique(s5, 0, value_end(quote), out@.len() as int);
                    }
                    if b != quote {
                        return Err(ReadError::InvalidData);
                    }
                    let ghost sv1 = self.sv();
                    self.pos = self.pos + 1;
                    self.accumulator.push(quote);
                    proof {
                        assert(self.sv() =~= sv1.skip(1));
                        assert(s5.take(out@.len() as int) =~= out@);
                        assert(s5.skip(out@.len() as int + 1) =~= self.sv());
                        assert(s5.take(out@.len() as int + 1) =~= out@.push(quote));
                        assert(self.acc() =~= a5 + s5.take(out@.len() as int + 1));
                    }
                    return Ok(out);
                }
                let ghost sv1 = self.sv();
                out.push(b);
                self.accumulator.push(b);
                self.pos = self.pos + 1;
                assert(self.sv() =~= sv1.skip(1));
                assert(s5 =~= out@ + self.sv());
                assert(self.acc() =~= a5 + out@);
            }
        }
    }
}


impl<S: ByteSource> Reader<S> {
    /// Read a name as `read_name` does, recording it too.
    fn read_name_recorded(&mut self) -> (r: Result<Vec<u8>, ReadError>)
        requires
            old(self).wf(),
        ensures
            final(self).wf(),
            final(self).pending() == old(self).pending(),
            final(self).inside() == old(self).inside(),
            old(self).at_end() ==> final(self).at_end(),
            ({
                let s = old(self).sv();
                let (w1, n) = name_parts(s);
                &&& r matches Ok(k) ==> n > 0 && k@ == s.skip(w1).take(n) && final(self).sv() == s.skip(w1 + n)
                    && final(self).acc() == old(self).acc() + s.take(w1 + n)
                &&& !source_failed(r) ==> (r is Ok <==> n > 0)
            }),
            final(self).sv().len() <= old(self).sv().len(),
            final(self).reliable() == old(self).reliable(),
            old(self).reliable() ==> !source_failed(r),
            r == Err::<Vec<u8>, ReadError>(ReadError::UnexpectedEof) ==> final(self).sv().len() == 0,
            r == Err::<Vec<u8>, ReadError>(ReadError::InvalidData) ==> final(self).sv().len() > 0,
            r is Err && !source_failed(r) ==> final(self).sv() == old(self).sv().skip(name_parts(old(self).sv()).0)
                && final(self).acc() == old(self).acc() + old(self).sv().take(name_parts(old(self).sv()).0),
            final(self).history() == old(self).history(),
    {
        let ghost s = self.sv();
        let ghost a0 = self.acc();
        let ghost w1 = name_parts(s).0;
        let ghost n = name_parts(s).1;
        proof {
            lemma_run_props(s, 0, ws_stop());
            lemma_run_props(s.skip(w1), 0, name_end());
        }
        let name = match self.read_name() {
            Err(e) => {
                return Err(e);
            },
            Ok(nm) => nm,
        };
        let ghost s1 = self.sv();
        assert(s1 =~= s.skip(w1 + n));
        let mut i: usize = 0;
        while i < name.len()
            invariant
                self.history() == old(self).history(),
                self.reliable() == old(self).reliable(),
                i <= name@.len(),
                self.acc() == a0 + s.take(w1) + name@.take(i as int),
                self.wf(),
                self.sv() == s1,
                self.pending() == old(self).pending(),
                self.inside() == old(self).inside(),
                old(self).at_end() ==> self.at_end(),
            decreases name.len() - i,
        {
            self.accumulator.push(name[i]);
            i += 1;
            assert(self.acc() =~= a0 + s.take(w1) + name@.take(i as int));
        }
        proof {
            assert(name@.take(name@.len() as int) =~= name@);
            assert(s.take(w1) + name@ =~= s.take(w1 + n));
        }
        Ok(name)
    }

    /// Read `=` with optional whitespace around it, recording it all.
    fn read_equals(&mut self) -> (r: Result<(), ReadError>)
        requires
            old(self).wf(),
        ensures
            final(self).wf(),
            final(self).pending() == old(self).pending(),
            final(self).inside() == old(self).inside(),
            old(self).at_end() ==> final(self).at_end(),
            ({
                let s1 = old(self).sv();
                let s2 = s1.skip(run_from(s1, 0, ws_stop()) as int);
                let s3 = s2.skip(1);
                let s4 = s3.skip(run_from(s3, 0, ws_stop()) as int);
                &&& r is Ok ==> s2.len() > 0 && s2[0] == EQ && final(self).sv() == s4
                    && consumed_from(s1, s4) && final(self).acc() == old(self).acc() + consumed_part(s1, s4)
                &&& !source_failed(r) ==> (r is Ok <==> s2.len() > 0 && s2[0] == EQ)
            }),
            final(self).sv().len() <= old(self).sv().len(),
            final(self).reliable() == old(self).reliable(),
            old(self).reliable() ==> !source_failed(r),
            r == Err::<(), ReadError>(ReadError::UnexpectedEof) ==> final(self).sv().len() == 0,
            r == Err::<(), ReadError>(ReadError::InvalidData) ==> final(self).sv().len() > 0,
            r is Err && !source_failed(r) ==> final(self).sv() == old(self).sv().skip(
                run_from(old(self).sv(), 0, ws_stop()) as int)
                && final(self).acc() == old(self).acc() + old(self).sv().take(run_from(old(self).sv(), 0, ws_stop()) as int),
            final(self).history() == old(self).history(),
    {
        let ghost s1 = self.sv();
        let ghost a0 = self.acc();
        match self.skip_spaces() {
            Err(e) => {
                return Err(e);
            },
            Ok(()) => {},
        }
        let ghost s2 = self.sv();
        let ghost w2 = run_from(s1, 0, ws_stop()) as int;
        proof {
            lemma_run_props(s1, 0, ws_stop());
            assert(s1 =~= s1.take(w2) + s2);
        }
        match self.expect_byte(EQ) {
            Err(e) => {
                return Err(e);
            },
            Ok(()) => {},
        }
        self.accumulator.push(EQ);
        let ghost s3 = self.sv();
        proof {
            assert(s2 =~= seq![EQ] + s3);
        }
        match self.skip_spaces() {
            Err(e) => {
                return Err(e);
            },
            Ok(()) => {},
        }
        proof {
            lemma_run_props(s3, 0, ws_stop());
            let w3 = run_from(s3, 0, ws_stop()) as int;
            assert(s3 =~= s3.take(w3) + self.sv());
            let pre = s1.take(w2) + seq![EQ] + s3.take(w3);
            assert(s1 =~= pre + self.sv());
            assert(self.acc() =~= a0 + pre);
            assert(s1.skip(s1.len() - self.sv().len()) =~= self.sv());
            assert(s1.take(s1.len() - self.sv().len()) =~= pre);
        }
        Ok(())
    }

    /// Read the head of an attribute, `name =` with optional whitespace
    /// around, recording every byte read; gives the name.
    fn read_attr_head(&mut self) -> (r: Result<Vec<u8>, ReadError>)
        requires
            old(self).wf(),
        ensures
            final(self).wf(),
            final(self).pending() == old(self).pending(),
            final(self).inside() == old(self).inside(),
            old(self).at_end() ==> final(self).at_end(),
            r matches Ok(k) ==> attr_head(old(self).sv()) == Some((k@, final(self).sv()))
                && consumed_from(old(self).sv(), final(self).sv())
                && final(self).acc() == old(self).acc() + consumed_part(old(self).sv(), final(self).sv()),
            !source_failed(r) ==> (r is Ok <==> attr_head(old(self).sv()) is Some),
            final(self).sv().len() <= old(self).sv().len(),
            final(self).reliable() == old(self).reliable(),
            old(self).reliable() ==> !source_failed(r),
            r == Err::<Vec<u8>, ReadError>(ReadError::UnexpectedEof) ==> final(self).sv().len() == 0,
            r == Err::<Vec<u8>, ReadError>(ReadError::InvalidData) ==> final(self).sv().len() > 0,
            r is Err && !source_failed(r) ==> final(self).sv() == head_fail(old(self).sv())
                && consumed_from(old(self).sv(), final(self).sv())
                && final(self).acc() == old(self).acc() + consumed_part(old(self).sv(), final(self).sv()),
            final(self).history() == old(self).history(),
    {
        let ghost s = self.sv();
        let ghost a0 = self.acc();
        proof {
            lemma_name_parts(s);
        }
        let name = match self.read_name_recorded() {
            Err(e) => {
                proof {
                    if !source_failed(Err::<(), ReadError>(e)) {
                        let (w1, n) = name_parts(s);
                        lemma_consumed_skip(s, w1);
                    }
                }
                return Err(e);
            },
            Ok(nm) => nm,
        };
        let ghost s1 = self.sv();
        let ghost a1 = self.acc();
        match self.read_equals() {
            Err(e) => {
                proof {
                    if !source_failed(Err::<(), ReadError>(e)) {
                        let (w1, n) = name_parts(s);
                        lemma_consumed_skip(s, w1 + n);
                        assert(s.take(w1 + n) =~= s.take(w1) + name@);
                        lemma_run_props(s1, 0, ws_stop());
                        lemma_consumed_skip(s1, run_from(s1, 0, ws_stop()) as int);
                        lemma_consumed_trans(s, s1, self.sv());
                        assert(self.acc() =~= a0 + consumed_part(s, self.sv()));
                    }
                }
                return Err(e);
            },
            Ok(()) => {},
        }
        proof {
            let (w1, n) = name_parts(s);
            lemma_run_props(s, 0, ws_stop());
            lemma_run_props(s.skip(w1), 0, name_end());
            assert(s =~= s.take(w1 + n) + s1);
            let p1 = consumed_part(s1, self.sv());
            assert(s1 =~= p1 + self.sv());
            let pre = s.take(w1 + n) + p1;
            assert(s =~= pre + self.sv());
            assert(self.acc() =~= a0 + pre);
            assert(s.skip(s.len() - self.sv().len()) =~= self.sv());
            assert(s.take(s.len() - self.sv().len()) =~= pre);
        }
        Ok(name)
    }

    /// Read one attribute `name = "value"` (or with single quotes), recording
    /// every byte read.
    #[verifier::spinoff_prover]
    #[verifier::rlimit(100)]
    fn read_attribute(&mut self) -> (r: Result<(Vec<u8>, Vec<u8>), ReadError>)
        requires
            old(self).wf(),
        ensures
            final(self).wf(),
            final(self).pending() == old(self).pending(),
            final(self).inside() == old(self).inside(),
            old(self).at_end() ==> final(self).at_end(),
            r matches Ok((k, v)) ==> attr_layout(old(self).sv()) == Some((k@, v@, final(self).sv()))
                && consumed_from(old(self).sv(), final(self).sv())
                && final(self).acc() == old(self).acc() + consumed_part(old(self).sv(), final(self).sv()),
            r is Ok ==> final(self).sv().len() < old(self).sv().len(),
            !source_failed(r) ==> (r is Ok <==> attr_layout(old(self).sv()) is Some),
            final(self).sv().len() <= old(self).sv().len(),
            final(self).reliable() == old(self).reliable(),
            old(self).reliable() ==> !source_failed(r),
            r == Err::<(Vec<u8>, Vec<u8>), ReadError>(ReadError::UnexpectedEof) ==> final(self).sv().len() == 0,
            r == Err::<(Vec<u8>, Vec<u8>), ReadError>(ReadError::InvalidData) ==> final(self).sv().len() > 0,
            r is Err && !source_failed(r) ==> final(self).sv() == attr_fail(old(self).sv())
                && consumed_from(old(self).sv(), final(self).sv())
                && final(self).acc() == old(self).acc() + consumed_part(old(self).sv(), final(self).sv()),
            final(self).history() == old(self).history(),
    {
        let ghost s = self.sv();
        let ghost a0 = self.acc();
        let name = match self.read_attr_head() {
            Err(e) => {
                return Err(e);
            },
            Ok(nm) => nm,
        };
        let ghost s4 = self.sv();
        let ghost a4 = self.acc();
        let quote = match self.peek_byte() {
            Err(e) => {
                proof {
                    if !source_failed(Err::<(), ReadError>(e)) {
                        assert(self.sv() =~= s4);
                    }
                }
                return Err(e);
            },
            Ok(q) => q,
        };
        if quote != QUOT && quote != APOS {
            return Err(ReadError::InvalidData);
        }
        let ghost sv4 = self.sv();
        self.pos = self.pos + 1;
        self.accumulator.push(quote);
        let ghost s5 = self.sv();
        assert(s5 =~= s4.skip(1));
        let value = match self.read_quoted_value(quote) {
            Err(e) => {
                proof {
                    if !source_failed(Err::<(), ReadError>(e)) {
                        let v = run_from(s5, 0, value_end(quote)) as int;
                        lemma_run_props(s5, 0, value_end(quote));
                        let p4 = consumed_part(s, s4);
                        assert(s =~= p4 + s4);
                        assert(s4 =~= seq![quote] + s5);
                        assert(s5 =~= s5.take(v) + self.sv());
                        let pre = p4 + seq![quote] + s5.take(v);
                        assert(s =~= pre + self.sv());
                        assert(self.acc() =~= a0 + pre);
                        assert(s.skip(s.len() - self.sv().len()) =~= self.sv());
                        assert(s.take(s.len() - self.sv().len()) =~= pre);
                    }
                }
                return Err(e);
            },
            Ok(v) => v,
        };
        proof {
            let v = run_from(s5, 0, value_end(quote)) as int;
            let p4 = consumed_part(s, s4);
            assert(s =~= p4 + s4);
            assert(s4 =~= seq![quote] + s5);
            assert(s5 =~= s5.take(v + 1) + self.sv());
            let pre = p4 + seq![quote] + s5.take(v + 1);
            assert(pre.len() >= 1);
            assert(s =~= pre + self.sv());
            assert(self.acc() =~= a0 + pre);
            assert(s.skip(s.len() - self.sv().len()) =~= self.sv());
            assert(s.take(s.len() - self.sv().len()) =~= pre);
        }
        Ok((name, value))
    }
}


/// The bytes before the first occurrence of `pat` in `s`, and how many
/// bytes reading through that occurrence takes; all of `s` when `pat` does
/// not occur.
#[verifier::opaque]
pub open spec fn until_pat(s: Seq<u8>, pat: Seq<u8>) -> (Seq<u8>, int) {
    match first_occurrence(s, pat) {
        Some(f) => (s.take(f), f + pat.len()),
        None => (s, s.len() as int),
    }
}

/// Reading up to a pattern reads no more than all of `s`, and what it gives
/// lies before what it reads.
pub proof fn lemma_until_pat_len(s: Seq<u8>, pat: Seq<u8>)
    ensures
        0 <= until_pat(s, pat).0.len() <= until_pat(s, pat).1 <= s.len(),
{
    reveal(until_pat);
    lemma_first_occurrence_props(s, pat);
}

/// A first occurrence at `n`: reading stops right after it.
proof fn lemma_until_found(s: Seq<u8>, pat: Seq<u8>, n: int)
    requires
        occurs_at(s, pat, n),
        forall|j: int| 0 <= j && j + pat.len() <= n + pat.len() - 1 ==> !occurs_at(s, pat, j),
    ensures
        until_pat(s, pat) == (s.take(n), n + pat.len()),
{
    reveal(until_pat);
    lemma_first_occurrence_exists(s, pat, n);
    lemma_first_occurrence_props(s, pat);
    let f = first_occurrence(s, pat)->Some_0;
    if f < n {
        assert(!occurs_at(s, pat, f));
    } else if f > n {
        assert(!occurs_at(s, pat, n));
    }
}

/// No occurrence: reading takes all of `s`.
proof fn lemma_until_none(s: Seq<u8>, pat: Seq<u8>)
    requires
        forall|j: int| 0 <= j && j + pat.len() <= s.len() ==> !occurs_at(s, pat, j),
    ensures
        until_pat(s, pat) == (s, s.len() as int),
{
    reveal(until_pat);
    lemma_first_occurrence(s, pat, None);
}

/// One byte more read with no occurrence ending at it: still none.
proof fn lemma_no_occurrence_extend(s: Seq<u8>, pat: Seq<u8>, n: int)
    requires
        0 < n <= s.len(),
        pat.len() > 0,
        forall|j: int| 0 <= j && j + pat.len() <= n - 1 ==> !occurs_at(s, pat, j),
        !(pat.len() <= n && s.subrange(n - pat.len(), n) == pat),
    ensures
        forall|j: int| 0 <= j && j + pat.len() <= n ==> !occurs_at(s, pat, j),
{
}

/// Whether `out` ends with `pat`.
fn ends_with_pat(out: &Vec<u8>, pat: &[u8]) -> (r: bool)
    ensures
        r == (pat@.len() <= out@.len() && out@.subrange(out@.len() - pat@.len(), out@.len() as int) == pat@),
{
    if out.len() < pat.len() {
        return false;
    }
    let base = out.len() - pat.len();
    let mut i: usize = base;
    while i < out.len()
        invariant
            base == out@.len() - pat@.len(),
            pat@.len() <= out@.len(),
            base <= i <= out@.len(),
            forall|j: int| base <= j < i ==> out@[j] == pat@[j - base],
        decreases out.len() - i,
    {
        if out[i] != pat[i - base] {
            assert(out@.subrange(base as int, out@.len() as int)[i - base] != pat@[i - base]);
            return false;
        }
        i += 1;
    }
    assert(out@.subrange(base as int, out@.len() as int) =~= pat@);
    true
}

impl<S: ByteSource> Reader<S> {
    /// Record `bytes`.
    fn record(&mut self, bytes: &[u8])
        ensures
            final(self).acc() == old(self).acc() + bytes@,
            final(self).sv() == old(self).sv(),
            final(self).pending() == old(self).pending(),
            final(self).inside() == old(self).inside(),
            final(self).at_end() == old(self).at_end(),
            final(self).wf() == old(self).wf(),
            final(self).buffered() == old(self).buffered(),
            final(self).reliable() == old(self).reliable(),
            final(self).history() == old(self).history(),
    {
        let ghost a0 = self.acc();
        let mut i: usize = 0;
        while i < bytes.len()
            invariant
                self.history() == old(self).history(),
                self.reliable() == old(self).reliable(),
                i <= bytes@.len(),
                self.acc() == a0 + bytes@.take(i as int),
                self.sv() == old(self).sv(),
                self.pending() == old(self).pending(),
                self.inside() == old(self).inside(),
                self.at_end() == old(self).at_end(),
                self.wf() == old(self).wf(),
                self.buffered() == old(self).buffered(),
                a0 == old(self).acc(),
            decreases bytes.len() - i,
        {
            self.accumulator.push(bytes[i]);
            i += 1;
            assert(self.acc() =~= a0 + bytes@.take(i as int));
        }
        assert(bytes@.take(bytes@.len() as int) =~= bytes@);
    }

    /// Skip up to and through the first occurrence of `pat` (to the end of
    /// the input when there is none).
    fn skip_until_bytes(&mut self, pat: &[u8]) -> (r: Result<(), ReadError>)
        requires
            old(self).wf(),
        ensures
            final(self).wf(),
            final(self).same_marks(old(self)),
            old(self).at_end() ==> final(self).at_end(),
            r is Ok ==> final(self).sv() == old(self).sv().skip(until_pat(old(self).sv(), pat@).1),
            r is Err ==> source_failed(r),
            final(self).sv().len() <= old(self).sv().len(),
            final(self).reliable() == old(self).reliable(),
            old(self).reliable() ==> !source_failed(r),
            final(self).history() == old(self).history(),
    {
        match self.read_until_bytes(pat) {
            Ok(_) => Ok(()),
            Err(e) => Err(e),
        }
    }

    /// Read up to and through the first occurrence of `pat`, which may cross
    /// reads of the source; gives the bytes before it. At the end of the
    /// input with no occurrence, gives everything that was left.
    fn read_until_bytes(&mut self, pat: &[u8]) -> (r: Result<Vec<u8>, ReadError>)
        requires
            old(self).wf(),
        ensures
            final(self).wf(),
            final(self).same_marks(old(self)),
            old(self).at_end() ==> final(self).at_end(),
            r matches Ok(out) ==> {
                &&& out@ == until_pat(old(self).sv(), pat@).0
                &&& final(self).sv() == old(self).sv().skip(until_pat(old(self).sv(), pat@).1)
            },
            r is Err ==> source_failed(r),
            final(self).sv().len() <= old(self).sv().len(),
            final(self).reliable() == old(self).reliable(),
            old(self).reliable() ==> !source_failed(r),
            final(self).history() == old(self).history(),
    {
        let mut out: Vec<u8> = Vec::new();
        let ghost s0 = self.sv();
        if pat.len() == 0 {
            proof {
                assert(s0.subrange(0, 0) =~= pat@);
                lemma_until_found(s0, pat@, 0);
                assert(s0.skip(0) =~= s0);
                assert(s0.take(0) =~= out@);
            }
            return Ok(out);
        }
        loop
            invariant
                self.history() == old(self).history(),
                self.reliable() == old(self).reliable(),
                self.wf(),
                self.same_marks(old(self)),
                old(self).at_end() ==> self.at_end(),
                s0 == old(self).sv(),
                pat@.len() > 0,
                out@.len() <= s0.len(),
                out@ == s0.take(out@.len() as int),
                self.sv() == s0.skip(out@.len() as int),
                forall|j: int| 0 <= j && j + pat@.len() <= out@.len() ==> !occurs_at(s0, pat@, j),
            decreases self.sv().len(),
        {
            let ghost before = self.sv();
            match self.fill_buf() {
                Err(e) => {
                    return Err(e);
                },
                Ok(()) => {},
            }
            if self.finished {
                proof {
                    assert(out@ =~= s0);
                    lemma_until_none(s0, pat@);
                    assert(s0.skip(s0.len() as int) =~= self.sv());
                }
                return Ok(out);
            }
            while self.pos < self.end
                invariant
                    self.history() == old(self).history(),
                    self.reliable() == old(self).reliable(),
                    self.wf(),
                    self.same_marks(old(self)),
                    old(self).at_end() ==> self.at_end(),
                    !self.finished,
                    s0 == old(self).sv(),
                    pat@.len() > 0,
                    out@.len() <= s0.len(),
                    out@ == s0.take(out@.len() as int),
                    self.sv() == s0.skip(out@.len() as int),
                    forall|j: int| 0 <= j && j + pat@.len() <= out@.len() ==> !occurs_at(s0, pat@, j),
                    self.sv().len() <= before.len(),
                    self.sv().len() < before.len() || self.pos < self.end,
                decreases self.end - self.pos,
            {
                let ghost sv1 = self.sv();
                let ghost n0 = out@.len();
                let b = self.buf[self.pos];
                self.pos = self.pos + 1;
                out.push(b);
                proof {
                    assert(sv1[0] == b);
                    assert(self.sv() =~= sv1.skip(1));
                    assert(out@ =~= s0.take(out@.len() as int));
                    assert(self.sv() =~= s0.skip(out@.len() as int));
                }
                if ends_with_pat(&out, pat) {
                    let n = out.len() - pat.len();
                    proof {
                        assert(s0.subrange(n as int, n + pat@.len()) =~= out@.subrange(n as int, out@.len() as int));
                        assert(occurs_at(s0, pat@, n as int));
                        lemma_until_found(s0, pat@, n as int);
                    }
                    out.truncate(n);
                    proof {
                        assert(out@ =~= s0.take(n as int));
                    }
                    return Ok(out);
                }
                proof {
                    if pat@.len() <= out@.len() {
                        assert(out@.subrange(out@.len() - pat@.len(), out@.len() as int)
                            =~= s0.subrange(out@.len() - pat@.len(), out@.len() as int));
                    }
                    lemma_no_occurrence_extend(s0, pat@, out@.len() as int);
                }
            }
        }
    }
}


impl<S: ByteSource> Reader<S> {
    /// Read through the first `target` (through the end of the input when
    /// there is none).
    fn skip_until_byte(&mut self, target: u8) -> (r: Result<(), ReadError>)
        requires
            old(self).wf(),
        ensures
            final(self).wf(),
            final(self).same_marks(old(self)),
            old(self).at_end() ==> final(self).at_end(),
            r is Ok ==> {
                let s = old(self).sv();
                let k = run_from(s, 0, quote_stop(target)) as int;
                &&& final(self).sv() == s.skip(if k < s.len() { k + 1 } else { k })
                &&& k == s.len() ==> final(self).at_end()
            },
            r is Err ==> source_failed(r),
            final(self).sv().len() <= old(self).sv().len(),
            final(self).reliable() == old(self).reliable(),
            old(self).reliable() ==> !source_failed(r),
            final(self).history() == old(self).history(),
    {
        let ghost s0 = self.sv();
        let ghost mut consumed: int = 0;
        proof { assert(s0.skip(0) =~= s0); }
        loop
            invariant
                self.history() == old(self).history(),
                self.reliable() == old(self).reliable(),
                self.wf(),
                self.same_marks(old(self)),
                old(self).at_end() ==> self.at_end(),
                s0 == old(self).sv(),
                0 <= consumed <= s0.len(),
                self.sv() == s0.skip(consumed),
                forall|j: int| 0 <= j < consumed ==> s0[j] != target,
            decreases self.sv().len(),
        {
            let ghost before = self.sv();
            match self.fill_buf() {
                Err(e) => {
                    return Err(e);
                },
                Ok(()) => {},
            }
            if self.finished {
                proof {
                    assert(consumed == s0.len());
                    assert forall|j: int| 0 <= j < consumed implies !(quote_stop(target))(s0[j]) by {}
                    lemma_run_unique(s0, 0, quote_stop(target), consumed);
                }
                return Ok(());
            }
            while self.pos < self.end
                invariant
                    self.history() == old(self).history(),
                    self.reliable() == old(self).reliable(),
                    self.wf(),
                    self.same_marks(old(self)),
                    old(self).at_end() ==> self.at_end(),
                    !self.finished,
                    s0 == old(self).sv(),
                    0 <= consumed <= s0.len(),
                    self.sv() == s0.skip(consumed),
                    forall|j: int| 0 <= j < consumed ==> s0[j] != target,
                    self.sv().len() <= before.len(),
                    self.sv().len() < before.len() || self.pos < self.end,
                decreases self.end - self.pos,
            {
                let ghost sv1 = self.sv();
                let b = self.buf[self.pos];
                self.pos = self.pos + 1;
                proof {
                    assert(sv1[0] == b);
                    assert(s0[consumed] == b);
                    assert(self.sv() =~= sv1.skip(1));
                }
                if b == target {
                    proof {
                        assert forall|j: int| 0 <= j < consumed implies !(quote_stop(target))(s0[j]) by {}
                        lemma_run_unique(s0, 0, quote_stop(target), consumed);
                        assert(self.sv() =~= s0.skip(consumed + 1));
                    }
                    return Ok(());
                }
                proof {
                    consumed = consumed + 1;
                    assert(self.sv() =~= s0.skip(consumed));
                }
            }
        }
    }

    /// Make at least `n` unread bytes sit in the buffer, or all that are
    /// left when fewer remain: the unread bytes are moved to the front of the
    /// buffer and the source is read after them.
    fn fill_window(&mut self, n: usize) -> (r: Result<(), ReadError>)
        requires
            old(self).wf(),
            n <= READ_BUF_SIZE,
        ensures
            final(self).wf(),
            final(self).same_marks(old(self)),
            final(self).at_end() == old(self).at_end(),
            r is Ok ==> final(self).sv() == old(self).sv()
                && (final(self).window().len() >= n || final(self).window() == final(self).sv()),
            r is Ok && old(self).window().len() >= n ==> final(self).window() == old(self).window(),
            r is Err ==> source_failed(r),
            final(self).sv().len() <= old(self).sv().len(),
            old(self).window().len() >= n ==> r is Ok,
            final(self).reliable() == old(self).reliable(),
            old(self).reliable() ==> !source_failed(r),
            final(self).history() == old(self).history(),
    {
        if self.end - self.pos >= n {
            return Ok(());
        }
        let ghost s0 = self.sv();
        let ghost w0 = self.window();
        let len = self.end - self.pos;
        if self.pos > 0 {
            let p = self.pos;
            let mut i: usize = 0;
            while i < len
                invariant
                    self.history() == old(self).history(),
                    self.reliable() == old(self).reliable(),
                    0 < p,
                    p + len <= self.buf@.len(),
                    self.buf@.len() == READ_BUF_SIZE,
                    i <= len,
                    w0.len() == len,
                    self.buf@.subrange(0, i as int) == w0.take(i as int),
                    self.buf@.subrange(p + i, p + len) == w0.skip(i as int),
                    self.pos == p,
                    self.end == p + len,
                    self.source == old(self).source,
                    self.same_marks(old(self)),
                    self.finished == old(self).finished,
                decreases len - i,
            {
                let b = self.buf[p + i];
                assert(b == w0[i as int]) by {
                    assert(self.buf@.subrange(p + i, p + len)[0] == self.buf@[p + i]);
                    assert(w0.skip(i as int)[0] == w0[i as int]);
                }
                let ghost before = self.buf@;
                self.buf.set(i, b);
                i += 1;
                assert(self.buf@.subrange(0, i as int) =~= w0.take(i as int)) by {
                    assert forall|k: int| 0 <= k < i implies self.buf@.subrange(0, i as int)[k] == w0.take(i as int)[k] by {
                        if k < i - 1 {
                            assert(before.subrange(0, i - 1)[k] == w0.take(i - 1)[k]);
                            assert(self.buf@[k] == before[k]);
                        } else {
                            assert(self.buf@[k] == b);
                        }
                    }
                }
                assert(self.buf@.subrange(p + i, p + len) =~= w0.skip(i as int)) by {
                    assert forall|k: int| 0 <= k < len - i implies self.buf@.subrange(p + i, p + len)[k] == w0.skip(i as int)[k] by {
                        assert(before.subrange(p + i - 1, p + len)[k + 1] == w0.skip(i - 1)[k + 1]);
                    }
                }
            }
            self.pos = 0;
            self.end = len;
            assert(self.window() =~= w0);
        }
        assert(self.sv() == s0);
        loop
            invariant
                self.history() == old(self).history(),
                self.reliable() == old(self).reliable(),
                self.wf(),
                self.same_marks(old(self)),
                self.finished == old(self).finished,
                self.pos == 0,
                self.sv() == s0,
                s0 == old(self).sv(),
                n <= READ_BUF_SIZE,
                old(self).window().len() < n,
            decreases READ_BUF_SIZE - self.end,
        {
            if self.end >= n {
                return Ok(());
            }
            let ghost st = self.source.stream();
            let ghost w1 = self.window();
            let e0 = self.end;
            match self.source.read_into(&mut self.buf, e0) {
                Ok(k) => {
                    if k == 0 {
                        proof {
                            assert(st.len() == 0);
                            assert(self.window() =~= w1) by {
                                assert(self.buf@.subrange(0, e0 as int) =~= w1);
                            }
                            assert(self.sv() =~= self.window());
                        }
                        return Ok(());
                    }
                    self.end = e0 + k;
                    proof {
                        assert(self.buf@.subrange(0, e0 as int) == w1);
                        assert(self.window() =~= self.buf@.subrange(0, e0 as int) + self.buf@.subrange(e0 as int, e0 + k));
                        assert(st =~= st.take(k as int) + st.skip(k as int));
                        assert(self.sv() =~= w1 + st);
                    }
                },
                Err(e) => {
                    proof {
                        assert(self.buf@.subrange(0, e0 as int) == w1);
                        assert(self.window() =~= w1);
                        if self.finished {
                            assert(old(self).sv().len() == 0);
                        }
                    }
                    return Err(ReadError::Source(e));
                },
            }
        }
    }

    /// Read `pat` if the unread input starts with it; otherwise read
    /// nothing. The bytes are looked at across reads of the source; a
    /// pattern longer than the buffer is never read.
    fn try_consume(&mut self, pat: &[u8]) -> (r: Result<bool, ReadError>)
        requires
            old(self).wf(),
        ensures
            final(self).wf(),
            final(self).same_marks(old(self)),
            final(self).at_end() == old(self).at_end(),
            r matches Ok(b) ==> (b ==> starts_with_seq(old(self).sv(), pat@))
                && (pat@.len() <= READ_BUF_SIZE ==> b == starts_with_seq(old(self).sv(), pat@))
                && final(self).sv() == (if b { old(self).sv().skip(pat@.len() as int) } else { old(self).sv() }),
            r is Err ==> source_failed(r),
            final(self).sv().len() <= old(self).sv().len(),
            final(self).reliable() == old(self).reliable(),
            old(self).reliable() ==> !source_failed(r),
            final(self).history() == old(self).history(),
    {
        if pat.len() == 0 {
            assert(old(self).sv().take(0) =~= pat@);
            assert(old(self).sv().skip(0) =~= old(self).sv());
            return Ok(true);
        }
        if pat.len() > READ_BUF_SIZE {
            return Ok(false);
        }
        match self.fill_window(pat.len()) {
            Err(e) => {
                return Err(e);
            },
            Ok(()) => {},
        }
        let ghost sv1 = self.sv();
        if self.end - self.pos < pat.len() {
            return Ok(false);
        }
        let window = &self.buf.as_slice()[self.pos..self.pos + pat.len()];
        assert(window@ =~= sv1.take(pat@.len() as int));
        if !crate::slice_parser::bytes_eq(window, pat) {
            return Ok(false);
        }
        self.pos = self.pos + pat.len();
        assert(self.sv() =~= sv1.skip(pat@.len() as int));
        Ok(true)
    }
}


/// `w` starts with `p`.
pub open spec fn starts_with_seq(w: Seq<u8>, p: Seq<u8>) -> bool {
    w.len() >= p.len() && w.take(p.len() as int) == p
}

/// A non-empty run of name bytes.
pub open spec fn is_name(s: Seq<u8>) -> bool {
    s.len() > 0 && forall|i: int| 0 <= i < s.len() ==> is_name_byte(#[trigger] s[i])
}

/// Bytes without a `<`.
pub open spec fn no_lt(s: Seq<u8>) -> bool {
    forall|i: int| 0 <= i < s.len() ==> #[trigger] s[i] != LT
}

/// The name that `name_parts` finds is a name.
pub proof fn lemma_name_parts(s: Seq<u8>)
    ensures
        name_parts(s).1 > 0 ==> is_name(s.skip(name_parts(s).0).take(name_parts(s).1)),
        0 <= name_parts(s).0 <= s.len(),
        0 <= name_parts(s).1 <= s.len() - name_parts(s).0,
{
    lemma_run_props(s, 0, ws_stop());
    let (w, n) = name_parts(s);
    lemma_run_props(s.skip(w), 0, name_end());
    let k = s.skip(w).take(n);
    assert forall|i: int| 0 <= i < k.len() implies is_name_byte(#[trigger] k[i]) by {
        assert(k[i] == s.skip(w)[i]);
        assert(!(name_end())(s.skip(w)[i]));
    }
}

/// An attribute's name is a name and its value has no `<`.
pub proof fn lemma_attr_layout(s: Seq<u8>)
    requires
        attr_layout(s) is Some,
    ensures
        is_name(attr_layout(s)->Some_0.0),
        no_lt(attr_layout(s)->Some_0.1),
{
    lemma_name_parts(s);
    let s4 = attr_head(s)->Some_0.1;
    let s5 = s4.skip(1);
    let q = s4[0];
    let v = run_from(s5, 0, value_end(q)) as int;
    lemma_run_props(s5, 0, value_end(q));
    let val = s5.take(v);
    assert forall|i: int| 0 <= i < val.len() implies #[trigger] val[i] != LT by {
        assert(val[i] == s5[i]);
        assert(!(value_end(q))(s5[i]));
    }
}

/// `t` starts with a `<` that looks like the start of markup: a start tag
/// (a name byte follows), an end tag (`/`), a processing instruction (`?`),
/// a comment (`!--`) or a CDATA section (`![CDATA`).
pub open spec fn looks_like_markup(t: Seq<u8>) -> bool {
    &&& t.len() >= 1
    &&& t[0] == LT
    &&& {
        ||| t.len() >= 2 && (is_name_byte(t[1]) || t[1] == SLASH || t[1] == QMARK)
        ||| t.len() >= 4 && t[1] == BANG && t[2] == DASH && t[3] == DASH
        ||| t.len() >= 8 && t[1] == BANG && t[2] == LBRACKET && t[3] == 0x43u8 && t[4] == 0x44u8
            && t[5] == 0x41u8 && t[6] == 0x54u8 && t[7] == 0x41u8
    }
}

impl<S: ByteSource> Reader<S> {
    /// Skip forward to the first `<` that looks like the start of markup
    /// (see `looks_like_markup`; the bytes after the `<` are read as far as
    /// needed, across reads of the source), or to the end of the input, and
    /// stand outside any tag there. At the end of the input nothing else
    /// changes.
    pub fn advance(&mut self) -> (r: Result<(), ReadError>)
        requires
            old(self).wf(),
        ensures
            final(self).wf(),
            final(self).acc() == old(self).acc(),
            final(self).pending() == old(self).pending(),
            old(self).at_end() ==> final(self).at_end(),
            !source_failed(r) ==> consumed_from(old(self).sv(), final(self).sv()),
            r is Ok ==> final(self).sv().len() == 0 || looks_like_markup(final(self).sv()),
            r is Ok ==> forall|j: int| 0 <= j < old(self).sv().len() - final(self).sv().len()
                ==> !looks_like_markup(#[trigger] old(self).sv().skip(j)),
            r is Ok && final(self).sv().len() > 0 ==> !final(self).inside(),
            r is Ok && final(self).sv().len() == 0 ==> final(self).inside() == old(self).inside(),
            r is Err ==> source_failed(r),
            final(self).sv().len() <= old(self).sv().len(),
            final(self).reliable() == old(self).reliable(),
            old(self).reliable() ==> !source_failed(r),
            final(self).history() == old(self).history(),
    {
        if self.finished {
            assert(old(self).sv().skip(0) =~= old(self).sv());
            return Ok(());
        }
        let ghost s0 = self.sv();
        let ghost mut consumed: int = 0;
        proof { assert(s0.skip(0) =~= s0); }
        loop
            invariant
                self.history() == old(self).history(),
                self.reliable() == old(self).reliable(),
                self.wf(),
                self.acc() == old(self).acc(),
                self.pending() == old(self).pending(),
                self.inside() == old(self).inside(),
                old(self).at_end() ==> self.at_end(),
                s0 == old(self).sv(),
                0 <= consumed <= s0.len(),
                self.sv() == s0.skip(consumed),
                forall|j: int| 0 <= j < consumed ==> !looks_like_markup(#[trigger] s0.skip(j)),
            decreases self.sv().len(),
        {
            let ghost before = self.sv();
            match self.fill_buf() {
                Err(e) => {
                    return Err(e);
                },
                Ok(()) => {},
            }
            if self.finished {
                proof {
                    assert(s0.skip(s0.len() - self.sv().len()) =~= self.sv());
                }
                return Ok(());
            }
            while self.pos < self.end
                invariant
                    self.history() == old(self).history(),
                    self.reliable() == old(self).reliable(),
                    self.wf(),
                    self.acc() == old(self).acc(),
                    self.pending() == old(self).pending(),
                    self.inside() == old(self).inside(),
                    old(self).at_end() ==> self.at_end(),
                    !self.finished,
                    s0 == old(self).sv(),
                    0 <= consumed <= s0.len(),
                    self.sv() == s0.skip(consumed),
                    forall|j: int| 0 <= j < consumed ==> !looks_like_markup(#[trigger] s0.skip(j)),
                    self.sv().len() <= before.len(),
                    self.sv().len() < before.len() || self.pos < self.end,
                decreases self.sv().len(),
            {
                let ghost sv1 = self.sv();
                let b = self.buf[self.pos];
                if b != LT {
                    self.pos = self.pos + 1;
                    proof {
                        assert(self.sv() =~= sv1.skip(1));
                        assert(!looks_like_markup(s0.skip(consumed)));
                        consumed = consumed + 1;
                        assert(self.sv() =~= s0.skip(consumed));
                    }
                    continue;
                }
                match self.fill_window(8) {
                    Err(e) => {
                        return Err(e);
                    },
                    Ok(()) => {},
                }
                let start = self.pos;
                let available = self.end - start;
                let w = &self.buf.as_slice()[start..self.end];
                proof {
                    assert(w@ =~= self.window());
                    assert(self.window() =~= sv1.take(w@.len() as int));
                    assert(w@.len() >= 8 || w@.len() == sv1.len());
                    assert(w@[0] == LT);
                }
                let looks_like_start_tag = available >= 2 && is_name_char(w[1]);
                let looks_like_end_tag = available >= 2 && w[1] == SLASH;
                let looks_like_comment = available >= 4 && w[1] == BANG && w[2] == DASH && w[3] == DASH;
                let looks_like_cdata = available >= 8 && w[1] == BANG && w[2] == LBRACKET && w[3] == 0x43u8
                    && w[4] == 0x44u8 && w[5] == 0x41u8 && w[6] == 0x54u8 && w[7] == 0x41u8;
                let looks_like_pi = available >= 2 && w[1] == QMARK;
                let looks = looks_like_start_tag || looks_like_end_tag || looks_like_comment || looks_like_cdata
                    || looks_like_pi;
                proof {
                    assert(looks == looks_like_markup(sv1));
                }
                if looks {
                    self.state = ReaderState::OutsideTag;
                    proof {
                        assert(s0.skip(s0.len() - self.sv().len()) =~= self.sv());
                    }
                    return Ok(());
                }
                self.pos = self.pos + 1;
                proof {
                    assert(self.sv() =~= sv1.skip(1));
                    consumed = consumed + 1;
                    assert(self.sv() =~= s0.skip(consumed));
                }
            }
        }
    }
}


/// `-->`.
pub open spec fn comment_end_pat() -> Seq<u8> {
    seq![DASH, DASH, GT]
}

/// `]]>`.
pub open spec fn cdata_end_pat() -> Seq<u8> {
    seq![RBRACKET, RBRACKET, GT]
}

/// `?>`.
pub open spec fn pi_end_pat() -> Seq<u8> {
    seq![QMARK, GT]
}

/// `[CDATA[`.
pub open spec fn cdata_rest_pat() -> Seq<u8> {
    seq![LBRACKET, 0x43u8, 0x44u8, 0x41u8, 0x54u8, 0x41u8, LBRACKET]
}

/// Where the rest of a start tag (see `tag_rest`) stops when it fails, and
/// whether a `/` not followed by `>` was read just before.
pub open spec fn tag_rest_fail(s: Seq<u8>) -> (Seq<u8>, bool)
    decreases s.len(),
{
    let s2 = s.skip(run_from(s, 0, ws_stop()) as int);
    if s2.len() == 0 || s2[0] == GT {
        (s2, false)
    } else if s2[0] == SLASH {
        (s2.skip(1), true)
    } else {
        match attr_layout(s2) {
            Some((_, _, rest)) => if rest.len() < s.len() {
                tag_rest_fail(rest)
            } else {
                (rest, false)
            },
            None => (attr_fail(s2), false),
        }
    }
}

/// Where a start tag (see `start_tag_layout`) stops when it fails, and
/// whether a `/` not followed by `>` was read just before.
pub open spec fn start_fail(s: Seq<u8>) -> (Seq<u8>, bool) {
    let (w, n) = name_parts(s);
    if n <= 0 {
        (s.skip(w), false)
    } else {
        tag_rest_fail(s.skip(w + n))
    }
}

/// Where an end tag (see `end_tag_layout`) stops when it fails: where the
/// name should start, or where the `>` should be.
pub open spec fn end_fail(s: Seq<u8>) -> Seq<u8> {
    let s1 = s.skip(1);
    let (w, n) = name_parts(s1);
    if n <= 0 {
        s1.skip(w)
    } else {
        let s2 = s1.skip(w + n);
        s2.skip(run_from(s2, 0, ws_stop()) as int)
    }
}

/// What a failing start tag records of the bytes `c` it read: all of them,
/// but a `/` read last.
pub open spec fn fail_recorded(c: Seq<u8>, slash: bool) -> Seq<u8> {
    if slash && c.len() > 0 {
        c.take(c.len() - 1)
    } else {
        c
    }
}

/// An event of the reader, by the bytes it holds.
pub enum EventView {
    Start(Seq<u8>, Seq<(Seq<u8>, Seq<u8>)>),
    End(Seq<u8>, Seq<u8>),
    Text(Seq<u8>),
    Comment(Seq<u8>),
    CData(Seq<u8>),
    Eof,
}

/// The bytes an event holds.
pub open spec fn event_view(e: Event) -> EventView {
    match e {
        Event::StartElement { name, attributes } => EventView::Start(name@, attributes.deep_view()),
        Event::EndElement { name, accumulated } => EventView::End(name@, accumulated@),
        Event::Text(t) => EventView::Text(t@),
        Event::Comment(c) => EventView::Comment(c@),
        Event::CData(c) => EventView::CData(c@),
        Event::Eof => EventView::Eof,
    }
}

/// An end tag at the front of `s`, after its `<`: `/`, optional
/// whitespace, a name, optional whitespace and `>`. Gives the name and what
/// follows the tag.
pub open spec fn end_tag_layout(s: Seq<u8>) -> Option<(Seq<u8>, Seq<u8>)> {
    if s.len() == 0 || s[0] != SLASH {
        None
    } else {
        let s1 = s.skip(1);
        let (w, n) = name_parts(s1);
        let s2 = s1.skip(w + n);
        let s3 = s2.skip(run_from(s2, 0, ws_stop()) as int);
        if n > 0 && s3.len() > 0 && s3[0] == GT {
            Some((s1.skip(w).take(n), s3.skip(1)))
        } else {
            None
        }
    }
}

/// What a start tag whose bytes are `c` records: all of them, but the `/`
/// of `/>`.
pub open spec fn start_recorded(c: Seq<u8>, self_closing: bool) -> Seq<u8> {
    if self_closing {
        c.take(c.len() - 2).push(GT)
    } else {
        c
    }
}

/// What one event takes from the input `s` when the reader stands inside a
/// tag, just after its `<`, having recorded `acc`: the event, what is left,
/// what is recorded after it, and the name of an element whose end is made
/// pending. Declarations and processing instructions are skipped and
/// reading goes on after them. `None`: the bytes do not form markup (or end
/// inside it).
pub open spec fn step_inside(s: Seq<u8>, acc: Seq<u8>) -> Option<(EventView, Seq<u8>, Seq<u8>, Option<Seq<u8>>)>
    decreases s.len(),
{
    if s.len() == 0 {
        None
    } else if s[0] == SLASH {
        match end_tag_layout(s) {
            Some((name, after)) => Some(
                (EventView::End(name, acc + s.take(s.len() - after.len())), after, Seq::empty(), None),
            ),
            None => None,
        }
    } else if s[0] == BANG {
        let s1 = s.skip(1);
        if starts_with_seq(s1, seq![DASH, DASH]) {
            let c = until_pat(s1.skip(2), comment_end_pat());
            Some((EventView::Comment(c.0), s1.skip(2).skip(c.1), acc.push(BANG) + c.0, None))
        } else if starts_with_seq(s1, cdata_rest_pat()) {
            let c = until_pat(s1.skip(7), cdata_end_pat());
            Some((EventView::CData(c.0), s1.skip(7).skip(c.1), acc.push(BANG) + c.0, None))
        } else {
            let k = run_from(s1, 0, quote_stop(GT)) as int;
            let rest = s1.skip(if k < s1.len() { k + 1 } else { k });
            if rest.len() < s.len() {
                step_outside(rest, acc + seq![BANG, GT])
            } else {
                None
            }
        }
    } else if s[0] == QMARK {
        let s1 = s.skip(1);
        let rest = s1.skip(until_pat(s1, pi_end_pat()).1);
        if rest.len() < s.len() {
            step_outside(rest, acc + seq![QMARK, GT])
        } else {
            None
        }
    } else {
        match start_tag_layout(s) {
            Some((name, attrs, after, sc)) => Some(
                (
                    EventView::Start(name, attrs),
                    after,
                    acc + start_recorded(s.take(s.len() - after.len()), sc),
                    if sc { Some(name) } else { None },
                ),
            ),
            None => None,
        }
    }
}

/// What one event takes from the input `s` when the reader stands between
/// tags, having recorded `acc` (see `step_inside`): text up to the next
/// `<`, the end of the input, or the markup after the `<`.
pub open spec fn step_outside(s: Seq<u8>, acc: Seq<u8>) -> Option<(EventView, Seq<u8>, Seq<u8>, Option<Seq<u8>>)>
    decreases s.len(),
{
    let k = run_from(s, 0, quote_stop(LT)) as int;
    if k > 0 && k <= s.len() {
        Some((EventView::Text(s.take(k)), s.skip(k), acc + s.take(k), None))
    } else if s.len() == 0 {
        Some((EventView::Eof, s, acc, None))
    } else {
        step_inside(s.skip(1), acc.push(LT))
    }
}

/// What a failing step from inside a tag (see `step_inside`) leaves: what
/// is unread and what is recorded. Only of use where `step_inside` gives
/// `None`.
pub open spec fn fail_inside(s: Seq<u8>, acc: Seq<u8>) -> (Seq<u8>, Seq<u8>)
    decreases s.len(),
{
    if s.len() == 0 {
        (s, acc)
    } else if s[0] == SLASH {
        let r = end_fail(s);
        (r, acc + s.take(s.len() - r.len()))
    } else if s[0] == BANG {
        let s1 = s.skip(1);
        if starts_with_seq(s1, seq![DASH, DASH]) || starts_with_seq(s1, cdata_rest_pat()) {
            (s, acc)
        } else {
            let k = run_from(s1, 0, quote_stop(GT)) as int;
            let rest = s1.skip(if k < s1.len() { k + 1 } else { k });
            if rest.len() < s.len() {
                fail_outside(rest, acc + seq![BANG, GT])
            } else {
                (s, acc)
            }
        }
    } else if s[0] == QMARK {
        let s1 = s.skip(1);
        let rest = s1.skip(until_pat(s1, pi_end_pat()).1);
        if rest.len() < s.len() {
            fail_outside(rest, acc + seq![QMARK, GT])
        } else {
            (s, acc)
        }
    } else {
        let (r, slash) = start_fail(s);
        (r, acc + fail_recorded(s.take(s.len() - r.len()), slash))
    }
}

/// What a failing step from between tags (see `step_outside`) leaves.
pub open spec fn fail_outside(s: Seq<u8>, acc: Seq<u8>) -> (Seq<u8>, Seq<u8>)
    decreases s.len(),
{
    let k = run_from(s, 0, quote_stop(LT)) as int;
    if (k > 0 && k <= s.len()) || s.len() == 0 {
        (s, acc)
    } else {
        fail_inside(s.skip(1), acc.push(LT))
    }
}

/// What a failing step leaves, inside a tag or not.
pub open spec fn reader_fail(s: Seq<u8>, inside: bool, acc: Seq<u8>) -> (Seq<u8>, Seq<u8>) {
    if inside {
        fail_inside(s, acc)
    } else {
        fail_outside(s, acc)
    }
}

/// What one event takes from the input `s`, inside a tag or not, having
/// recorded `acc`.
pub open spec fn reader_step(s: Seq<u8>, inside: bool, acc: Seq<u8>) -> Option<(EventView, Seq<u8>, Seq<u8>, Option<Seq<u8>>)> {
    if inside {
        step_inside(s, acc)
    } else {
        step_outside(s, acc)
    }
}

impl<S: ByteSource> Reader<S> {
    /// Push `name` onto the pending end elements.
    fn push_pending(&mut self, name: &Vec<u8>)
        ensures
            final(self).pending() == old(self).pending().push(name@),
            final(self).acc() == old(self).acc(),
            final(self).sv() == old(self).sv(),
            final(self).inside() == old(self).inside(),
            final(self).at_end() == old(self).at_end(),
            final(self).wf() == old(self).wf(),
            final(self).reliable() == old(self).reliable(),
            final(self).history() == old(self).history(),
    {
        let copy = crate::tokenizer::copy_range(name.as_slice(), 0, name.len());
        assert(copy@ =~= name@);
        let ghost before = self.pending_end@;
        self.pending_end.push(copy);
        assert(self.pending_end.deep_view() =~= old(self).pending().push(name@)) by {
            assert forall|i: int| 0 <= i < self.pending_end@.len() implies
                self.pending_end.deep_view()[i] == old(self).pending().push(name@)[i] by {
                if i < before.len() {
                    assert(self.pending_end@[i] == before[i]);
                }
            }
        }
    }

    /// An end tag after its `<`: `/`, a name and `>`, with whitespace
    /// allowed around the name; every byte is recorded, and the event takes
    /// the recorded bytes.
    #[verifier::spinoff_prover]
    #[verifier::rlimit(100)]
    fn end_tag_event(&mut self) -> (r: Result<Event, ReadError>)
        requires
            old(self).wf(),
            old(self).pos < old(self).end,
            old(self).buf@[old(self).pos as int] == SLASH,
        ensures
            final(self).wf(),
            final(self).pending() == old(self).pending(),
            old(self).at_end() ==> final(self).at_end(),
            !source_failed(r) ==> consumed_from(old(self).sv(), final(self).sv()),
            final(self).sv().len() < old(self).sv().len(),
            r is Ok ==> !final(self).inside() && final(self).acc().len() == 0,
            r matches Ok(ev) ==> ev matches Event::EndElement { name, accumulated } && is_name(name@)
                && accumulated@ == old(self).acc() + consumed_part(old(self).sv(), final(self).sv()),
            !source_failed(r) ==> (r is Ok <==> end_tag_layout(old(self).sv()) is Some),
            r matches Ok(ev) ==> match end_tag_layout(old(self).sv()) {
                Some((nm, after)) => ev matches Event::EndElement { name, .. } && name@ == nm
                    && final(self).sv() == after,
                None => false,
            },
            final(self).reliable() == old(self).reliable(),
            old(self).reliable() ==> !source_failed(r),
            r == Err::<Event, ReadError>(ReadError::UnexpectedEof) ==> final(self).sv().len() == 0,
            r == Err::<Event, ReadError>(ReadError::InvalidData) ==> final(self).sv().len() > 0,
            r is Err && !source_failed(r) ==> final(self).sv() == end_fail(old(self).sv())
                && final(self).acc() == old(self).acc() + consumed_part(old(self).sv(), final(self).sv()),
            r is Err ==> final(self).inside() == old(self).inside(),
            final(self).history() == old(self).history(),
    {
        let ghost s = self.sv();
        let ghost a0 = self.acc();
        self.pos = self.pos + 1;
        self.accumulator.push(SLASH);
        let ghost s1 = self.sv();
        proof {
            assert(s1 =~= s.skip(1));
            lemma_consumed_skip(s, 1);
            assert(s.take(1) =~= seq![SLASH]);
            lemma_name_parts(s1);
        }
        let name = match self.read_name() {
            Err(e) => {
                proof {
                    if !source_failed(Err::<(), ReadError>(e)) {
                        if e == ReadError::InvalidData {
                            lemma_consumed_skip(s1, name_parts(s1).0);
                        } else {
                            lemma_consumed_all(s1, self.sv());
                        }
                        lemma_consumed_trans(s, s1, self.sv());
                    }
                }
                return Err(e);
            },
            Ok(n) => n,
        };
        let ghost s2 = self.sv();
        proof {
            let (w, n) = name_parts(s1);
            assert(s2 =~= s1.skip(w + n));
            lemma_consumed_skip(s1, w + n);
            assert(s1.take(w + n) =~= s1.take(w) + name@);
            lemma_consumed_trans(s, s1, s2);
        }
        self.record(name.as_slice());
        let ghost a2 = self.acc();
        match self.skip_spaces() {
            Err(e) => {
                return Err(e);
            },
            Ok(()) => {},
        }
        let ghost s3 = self.sv();
        proof {
            lemma_run_props(s2, 0, ws_stop());
            lemma_consumed_skip(s2, run_from(s2, 0, ws_stop()) as int);
            lemma_consumed_trans(s, s2, s3);
        }
        match self.expect_byte(GT) {
            Err(e) => {
                proof {
                    if e == ReadError::InvalidData {
                        lemma_consumed_none(s3);
                    } else if e == ReadError::UnexpectedEof {
                        lemma_consumed_all(s3, self.sv());
                    }
                    if !source_failed(Err::<(), ReadError>(e)) {
                        lemma_consumed_trans(s, s3, self.sv());
                    }
                }
                return Err(e);
            },
            Ok(()) => {},
        }
        self.accumulator.push(GT);
        self.state = ReaderState::OutsideTag;
        proof {
            lemma_consumed_skip(s3, 1);
            assert(s3.take(1) =~= seq![GT]);
            lemma_consumed_trans(s, s3, self.sv());
            assert(self.acc() =~= a0 + consumed_part(s, self.sv()));
        }
        let accumulated = self.get_accumulated();
        Ok(Event::EndElement { name, accumulated })
    }

    /// A processing instruction after its `<`: `?` and everything through
    /// the next `?>`, which is skipped; `?` and `>` are recorded.
    fn skip_pi(&mut self) -> (r: Result<(), ReadError>)
        requires
            old(self).wf(),
            old(self).pos < old(self).end,
            old(self).buf@[old(self).pos as int] == QMARK,
        ensures
            final(self).wf(),
            final(self).pending() == old(self).pending(),
            old(self).at_end() ==> final(self).at_end(),
            !source_failed(r) ==> consumed_from(old(self).sv(), final(self).sv()),
            final(self).sv().len() < old(self).sv().len(),
            r is Ok ==> !final(self).inside() && final(self).acc() == old(self).acc() + seq![QMARK, GT],
            r is Ok ==> final(self).sv() == old(self).sv().skip(1).skip(until_pat(old(self).sv().skip(1), pi_end_pat()).1),
            r is Err ==> source_failed(r),
            final(self).reliable() == old(self).reliable(),
            old(self).reliable() ==> !source_failed(r),
            final(self).history() == old(self).history(),
    {
        let ghost s = self.sv();
        self.pos = self.pos + 1;
        self.accumulator.push(QMARK);
        let ghost s1 = self.sv();
        assert(s1 =~= s.skip(1));
        let pat: [u8; 2] = [QMARK, GT];
        assert(pat@ =~= pi_end_pat());
        match self.skip_until_bytes(pat.as_slice()) {
            Err(e) => {
                return Err(e);
            },
            Ok(_) => {},
        }
        self.accumulator.push(GT);
        self.state = ReaderState::OutsideTag;
        proof {
            lemma_until_pat_len(s1, pi_end_pat());
            assert(s.skip(s.len() - self.sv().len()) =~= self.sv());
            assert(self.acc() =~= old(self).acc() + seq![QMARK, GT]);
        }
        Ok(())
    }

    /// Markup after its `<` that starts with `!`: a comment, a CDATA section,
    /// or a declaration, which is skipped through its `>` (giving `None`).
    #[verifier::spinoff_prover]
    #[verifier::rlimit(50)]
    fn bang_event(&mut self) -> (r: Result<Option<Event>, ReadError>)
        requires
            old(self).wf(),
            old(self).pos < old(self).end,
            old(self).buf@[old(self).pos as int] == BANG,
        ensures
            final(self).wf(),
            final(self).pending() == old(self).pending(),
            old(self).at_end() ==> final(self).at_end(),
            !source_failed(r) ==> consumed_from(old(self).sv(), final(self).sv()),
            final(self).sv().len() < old(self).sv().len(),
            r is Ok ==> !final(self).inside(),
            r matches Ok(Some(ev)) ==> {
                ||| ev matches Event::Comment(c) && old(self).sv().take(3) == seq![BANG, DASH, DASH]
                    && c@ == until_pat(old(self).sv().skip(3), comment_end_pat()).0
                    && final(self).acc() == old(self).acc() + seq![BANG] + c@
                ||| ev matches Event::CData(c) && old(self).sv().take(8) == seq![BANG] + cdata_rest_pat()
                    && c@ == until_pat(old(self).sv().skip(8), cdata_end_pat()).0
                    && final(self).acc() == old(self).acc() + seq![BANG] + c@
            },
            r == Ok::<Option<Event>, ReadError>(None) ==> final(self).acc() == old(self).acc() + seq![BANG, GT],
            r is Err ==> source_failed(r),
            r is Ok ==> {
                let s1 = old(self).sv().skip(1);
                if starts_with_seq(s1, seq![DASH, DASH]) {
                    let c = until_pat(s1.skip(2), comment_end_pat());
                    &&& r == Ok::<Option<Event>, ReadError>(Some(Event::Comment(r->Ok_0->Some_0->Comment_0)))
                    &&& final(self).sv() == s1.skip(2).skip(c.1)
                } else if starts_with_seq(s1, cdata_rest_pat()) {
                    let c = until_pat(s1.skip(7), cdata_end_pat());
                    &&& r == Ok::<Option<Event>, ReadError>(Some(Event::CData(r->Ok_0->Some_0->CData_0)))
                    &&& final(self).sv() == s1.skip(7).skip(c.1)
                } else {
                    let k = run_from(s1, 0, quote_stop(GT)) as int;
                    &&& r == Ok::<Option<Event>, ReadError>(None)
                    &&& final(self).sv() == s1.skip(if k < s1.len() { k + 1 } else { k })
                }
            },
            final(self).reliable() == old(self).reliable(),
            old(self).reliable() ==> !source_failed(r),
            final(self).history() == old(self).history(),
    {
        let ghost s = self.sv();
        let ghost a0 = self.acc();
        self.pos = self.pos + 1;
        self.accumulator.push(BANG);
        let ghost s1 = self.sv();
        assert(s1 =~= s.skip(1));
        let dd: [u8; 2] = [DASH, DASH];
        let is_comment = match self.try_consume(dd.as_slice()) {
            Err(e) => {
                return Err(e);
            },
            Ok(b) => b,
        };
        if is_comment {
            let ghost s2 = self.sv();
            let pat: [u8; 3] = [DASH, DASH, GT];
            assert(pat@ =~= comment_end_pat());
            let comment = match self.read_until_bytes(pat.as_slice()) {
                Err(e) => {
                    return Err(e);
                },
                Ok(c) => c,
            };
            self.record(comment.as_slice());
            self.state = ReaderState::OutsideTag;
            proof {
                lemma_until_pat_len(s2, comment_end_pat());
                assert(s.take(3) =~= seq![BANG, DASH, DASH]) by {
                    assert(s1.take(2) == dd@);
                    assert(s.take(3) =~= seq![s[0]] + s1.take(2));
                }
                assert(s2 =~= s.skip(3));
                assert(s.skip(s.len() - self.sv().len()) =~= self.sv());
            }
            return Ok(Some(Event::Comment(comment)));
        }
        let cd: [u8; 7] = [LBRACKET, 0x43u8, 0x44u8, 0x41u8, 0x54u8, 0x41u8, LBRACKET];
        let is_cdata = match self.try_consume(cd.as_slice()) {
            Err(e) => {
                return Err(e);
            },
            Ok(b) => b,
        };
        if is_cdata {
            let ghost s2 = self.sv();
            let pat: [u8; 3] = [RBRACKET, RBRACKET, GT];
            assert(pat@ =~= cdata_end_pat());
            let cdata = match self.read_until_bytes(pat.as_slice()) {
                Err(e) => {
                    return Err(e);
                },
                Ok(c) => c,
            };
            self.record(cdata.as_slice());
            self.state = ReaderState::OutsideTag;
            proof {
                lemma_until_pat_len(s2, cdata_end_pat());
                assert(cd@ =~= cdata_rest_pat());
                assert(s.take(8) =~= seq![BANG] + cdata_rest_pat()) by {
                    assert(s1.take(7) == cd@);
                    assert(s.take(8) =~= seq![s[0]] + s1.take(7));
                }
                assert(s2 =~= s.skip(8));
                assert(s.skip(s.len() - self.sv().len()) =~= self.sv());
            }
            return Ok(Some(Event::CData(cdata)));
        }
        match self.skip_until_byte(GT) {
            Err(e) => {
                return Err(e);
            },
            Ok(()) => {},
        }
        self.accumulator.push(GT);
        self.state = ReaderState::OutsideTag;
        proof {
            lemma_run_props(s1, 0, quote_stop(GT));
            assert(s.skip(s.len() - self.sv().len()) =~= self.sv());
            assert(self.acc() =~= a0 + seq![BANG, GT]);
        }
        Ok(None)
    }
}


/// Each attribute's name is a name and its value has no `<`.
pub open spec fn attrs_ok(attrs: Seq<(Vec<u8>, Vec<u8>)>) -> bool {
    forall|i: int| 0 <= i < attrs.len() ==> is_name(#[trigger] attrs[i].0@) && no_lt(attrs[i].1@)
}

/// The rest of a start tag at the front of `s`, after its name: attributes
/// (see `attr_layout`), each after optional whitespace, then optional
/// whitespace and `>` or `/>`. Gives the attributes, what follows the tag,
/// and whether the tag closes itself; `None` when the bytes do not form that.
pub open spec fn tag_rest(s: Seq<u8>) -> Option<(Seq<(Seq<u8>, Seq<u8>)>, Seq<u8>, bool)>
    decreases s.len(),
{
    let s2 = s.skip(run_from(s, 0, ws_stop()) as int);
    if s2.len() == 0 || run_from(s, 0, ws_stop()) > s.len() {
        None
    } else if s2[0] == SLASH {
        if s2.len() >= 2 && s2[1] == GT {
            Some((Seq::empty(), s2.skip(2), true))
        } else {
            None
        }
    } else if s2[0] == GT {
        Some((Seq::empty(), s2.skip(1), false))
    } else {
        match attr_layout(s2) {
            Some((k, v, rest)) => if rest.len() < s.len() {
                match tag_rest(rest) {
                    Some((a, after, sc)) => Some((seq![(k, v)] + a, after, sc)),
                    None => None,
                }
            } else {
                None
            },
            None => None,
        }
    }
}

/// A start tag at the front of `s`, after its `<`: optional whitespace, a
/// name, and the rest (`tag_rest`). Gives the name, the attributes, what
/// follows, and whether the tag closes itself.
pub open spec fn start_tag_layout(s: Seq<u8>) -> Option<(Seq<u8>, Seq<(Seq<u8>, Seq<u8>)>, Seq<u8>, bool)> {
    let (w, n) = name_parts(s);
    if n <= 0 {
        None
    } else {
        match tag_rest(s.skip(w + n)) {
            Some((a, after, sc)) => Some((s.skip(w).take(n), a, after, sc)),
            None => None,
        }
    }
}

/// `r` with `p` put before its attributes.
pub open spec fn attrs_before(
    p: Seq<(Seq<u8>, Seq<u8>)>,
    r: Option<(Seq<(Seq<u8>, Seq<u8>)>, Seq<u8>, bool)>,
) -> Option<(Seq<(Seq<u8>, Seq<u8>)>, Seq<u8>, bool)> {
    match r {
        Some((a, after, sc)) => Some((p + a, after, sc)),
        None => None,
    }
}

/// No attributes before changes nothing.
proof fn lemma_attrs_before_empty(r: Option<(Seq<(Seq<u8>, Seq<u8>)>, Seq<u8>, bool)>)
    ensures
        attrs_before(Seq::empty(), r) == r,
{
    if let Some((a, after, sc)) = r {
        assert(Seq::<(Seq<u8>, Seq<u8>)>::empty() + a =~= a);
    }
}

/// Attributes put before in two steps are put before at once.
proof fn lemma_attrs_before_assoc(
    p: Seq<(Seq<u8>, Seq<u8>)>,
    q: Seq<(Seq<u8>, Seq<u8>)>,
    r: Option<(Seq<(Seq<u8>, Seq<u8>)>, Seq<u8>, bool)>,
)
    ensures
        attrs_before(p, attrs_before(q, r)) == attrs_before(p + q, r),
{
    if let Some((a, after, sc)) = r {
        assert(p + (q + a) =~= (p + q) + a);
    }
}

impl<S: ByteSource> Reader<S> {
    /// A start tag after its `<`: a name, attributes, and `>` or `/>`; for
    /// `/>` the matching end element is made pending.
    #[verifier::spinoff_prover]
    #[verifier::rlimit(50)]
    fn start_tag_event(&mut self) -> (r: Result<Event, ReadError>)
        requires
            old(self).wf(),
        ensures
            final(self).wf(),
            old(self).at_end() ==> final(self).at_end(),
            final(self).sv().len() <= old(self).sv().len(),
            r is Err ==> final(self).pending() == old(self).pending(),
            r is Ok ==> consumed_from(old(self).sv(), final(self).sv()) && final(self).sv().len() < old(self).sv().len()
                && !final(self).inside(),
            r matches Ok(ev) ==> ev matches Event::StartElement { name, attributes } && is_name(name@)
                && attrs_ok(attributes@)
                && (final(self).pending() == old(self).pending()
                    || final(self).pending() == old(self).pending().push(name@)),
            !source_failed(r) ==> (r is Ok <==> start_tag_layout(old(self).sv()) is Some),
            r matches Ok(ev) ==> match start_tag_layout(old(self).sv()) {
                Some((nm, a, after, sc)) => ev matches Event::StartElement { name, attributes } && name@ == nm
                    && attributes.deep_view() == a && final(self).sv() == after
                    && final(self).pending() == (if sc { old(self).pending().push(nm) } else { old(self).pending() })
                    && final(self).acc() == old(self).acc() + start_recorded(
                        old(self).sv().take(old(self).sv().len() - after.len()), sc),
                None => false,
            },
            final(self).reliable() == old(self).reliable(),
            old(self).reliable() ==> !source_failed(r),
            r == Err::<Event, ReadError>(ReadError::UnexpectedEof) ==> final(self).sv().len() == 0,
            r == Err::<Event, ReadError>(ReadError::InvalidData) ==> final(self).sv().len() > 0,
            r is Err && !source_failed(r) ==> final(self).sv() == start_fail(old(self).sv()).0
                && final(self).acc() == old(self).acc() + fail_recorded(
                    consumed_part(old(self).sv(), final(self).sv()), start_fail(old(self).sv()).1),
            r is Err ==> final(self).inside() == old(self).inside(),
            final(self).history() == old(self).history(),
    {
        let ghost s = self.sv();
        proof { lemma_name_parts(s); }
        let name = match self.read_name() {
            Err(e) => {
                proof {
                    if !source_failed(Err::<(), ReadError>(e)) {
                        let (w, n) = name_parts(s);
                        lemma_consumed_skip(s, w);
                        assert(fail_recorded(consumed_part(s, self.sv()), false) == consumed_part(s, self.sv()));
                    }
                }
                return Err(e);
            },
            Ok(n) => n,
        };
        let ghost t0 = self.sv();
        proof {
            let (w, n) = name_parts(s);
            assert(self.sv() =~= s.skip(w + n));
            lemma_consumed_skip(s, w + n);
        }
        self.record(name.as_slice());
        let ghost a0 = old(self).acc();
        proof {
            let (w, n) = name_parts(s);
            assert(s.take(w + n) =~= s.take(w) + name@);
            assert(self.acc() =~= a0 + consumed_part(s, self.sv()));
        }
        let mut attrs: Vec<(Vec<u8>, Vec<u8>)> = Vec::new();
        proof {
            assert(attrs.deep_view() =~= Seq::<(Seq<u8>, Seq<u8>)>::empty());
            lemma_attrs_before_empty(tag_rest(t0));
        }
        loop
            invariant
                self.history() == old(self).history(),
                self.reliable() == old(self).reliable(),
                self.wf(),
                self.pending() == old(self).pending(),
                t0 == s.skip(name_parts(s).0 + name_parts(s).1),
                name_parts(s).1 > 0,
                name@ == s.skip(name_parts(s).0).take(name_parts(s).1),
                tag_rest(t0) == attrs_before(attrs.deep_view(), tag_rest(self.sv())),
                old(self).at_end() ==> self.at_end(),
                s == old(self).sv(),
                consumed_from(s, self.sv()),
                self.sv().len() < s.len(),
                is_name(name@),
                attrs_ok(attrs@),
                a0 == old(self).acc(),
                self.acc() == a0 + consumed_part(s, self.sv()),
                start_fail(s) == tag_rest_fail(self.sv()),
                self.inside() == old(self).inside(),
            decreases self.sv().len(),
        {
            let ghost s1 = self.sv();
            match self.skip_spaces() {
                Err(e) => {
                    return Err(e);
                },
                Ok(()) => {},
            }
            let ghost s2 = self.sv();
            proof {
                lemma_run_props(s1, 0, ws_stop());
                assert(s2 == s1.skip(run_from(s1, 0, ws_stop()) as int));
                lemma_consumed_skip(s1, run_from(s1, 0, ws_stop()) as int);
                lemma_consumed_trans(s, s1, s2);
                assert(self.acc() =~= a0 + consumed_part(s, s2));
            }
            let b = match self.peek_byte() {
                Err(e) => {
                    proof {
                        if !source_failed(Err::<(), ReadError>(e)) {
                            assert(self.sv() =~= s2);
                            assert(fail_recorded(consumed_part(s, s2), false) == consumed_part(s, s2));
                        }
                    }
                    return Err(e);
                },
                Ok(b) => b,
            };
            if b == SLASH {
                self.pos = self.pos + 1;
                let ghost s3 = self.sv();
                proof {
                    assert(s3 =~= s2.skip(1));
                    lemma_consumed_skip(s2, 1);
                    lemma_consumed_trans(s, s2, s3);
                }
                match self.expect_byte(GT) {
                    Err(e) => {
                        proof {
                            if !source_failed(Err::<(), ReadError>(e)) {
                                assert(self.sv() == s3);
                                let c = consumed_part(s, s3);
                                assert(c =~= consumed_part(s, s2) + s2.take(1));
                                assert(c.take(c.len() - 1) =~= consumed_part(s, s2));
                            }
                        }
                        return Err(e);
                    },
                    Ok(()) => {},
                }
                proof {
                    lemma_consumed_skip(s3, 1);
                    lemma_consumed_trans(s, s3, self.sv());
                }
                self.accumulator.push(GT);
                self.state = ReaderState::OutsideTag;
                self.push_pending(&name);
                proof {
                    assert(self.sv() =~= s2.skip(2));
                    lemma_consumed_skip(s2, 2);
                    lemma_consumed_trans(s, s2, self.sv());
                    let c = s.take(s.len() - self.sv().len());
                    assert(c =~= consumed_part(s, s2) + s2.take(2));
                    assert(c.take(c.len() - 2) =~= consumed_part(s, s2));
                    assert(self.acc() =~= a0 + start_recorded(c, true));
                    assert(attrs.deep_view() + Seq::<(Seq<u8>, Seq<u8>)>::empty() =~= attrs.deep_view());
                }
                return Ok(Event::StartElement { name, attributes: attrs });
            } else if b == GT {
                self.pos = self.pos + 1;
                proof {
                    assert(self.sv() =~= s2.skip(1));
                    lemma_consumed_skip(s2, 1);
                    lemma_consumed_trans(s, s2, self.sv());
                }
                self.state = ReaderState::OutsideTag;
                self.accumulator.push(GT);
                proof {
                    assert(attrs.deep_view() + Seq::<(Seq<u8>, Seq<u8>)>::empty() =~= attrs.deep_view());
                    assert(s2.take(1) =~= seq![GT]);
                    assert(self.acc() =~= a0 + consumed_part(s, self.sv()));
                }
                return Ok(Event::StartElement { name, attributes: attrs });
            } else {
                let pair = match self.read_attribute() {
                    Err(e) => {
                        proof {
                            if !source_failed(Err::<(), ReadError>(e)) {
                                lemma_consumed_trans(s, s2, self.sv());
                                assert(self.acc() =~= a0 + consumed_part(s, self.sv()));
                                assert(fail_recorded(consumed_part(s, self.sv()), false) == consumed_part(s, self.sv()));
                            }
                        }
                        return Err(e);
                    },
                    Ok(p) => p,
                };
                proof {
                    lemma_attr_layout(s2);
                    lemma_consumed_trans(s, s2, self.sv());
                    assert(self.acc() =~= a0 + consumed_part(s, self.sv()));
                }
                let ghost before = attrs@;
                let ghost before_dv = attrs.deep_view();
                proof {
                    lemma_attrs_before_assoc(before_dv, seq![(pair.0@, pair.1@)], tag_rest(self.sv()));
                }
                attrs.push(pair);
                proof {
                    assert(attrs.deep_view() =~= before_dv + seq![(pair.0@, pair.1@)]) by {
                        assert forall|i: int| 0 <= i < attrs@.len() implies
                            attrs.deep_view()[i] == (before_dv + seq![(pair.0@, pair.1@)])[i] by {
                            if i < before.len() {
                                assert(attrs@[i] == before[i]);
                            }
                        }
                    }
                }
                proof {
                    assert forall|i: int| 0 <= i < attrs@.len() implies is_name(#[trigger] attrs@[i].0@)
                        && no_lt(attrs@[i].1@) by {
                        if i < before.len() {
                            assert(attrs@[i] == before[i]);
                        }
                    }
                }
            }
        }
    }
}


/// An end tag leaves less than it was given.
proof fn lemma_end_tag_layout_len(s: Seq<u8>)
    ensures
        end_tag_layout(s) matches Some((_, after)) ==> after.len() < s.len(),
{
    if s.len() > 0 && s[0] == SLASH {
        let s1 = s.skip(1);
        lemma_name_parts(s1);
        let (w, n) = name_parts(s1);
        let s2 = s1.skip(w + n);
        lemma_run_props(s2, 0, ws_stop());
    }
}

/// The rest of a start tag leaves less than it was given, and at least two
/// bytes less when the tag closes itself.
proof fn lemma_tag_rest_len(s: Seq<u8>)
    ensures
        tag_rest(s) matches Some((_, after, sc)) ==> after.len() < s.len() && (sc ==> after.len() + 2 <= s.len()),
    decreases s.len(),
{
    lemma_run_props(s, 0, ws_stop());
    let s2 = s.skip(run_from(s, 0, ws_stop()) as int);
    if s2.len() > 0 && s2[0] != SLASH && s2[0] != GT {
        if let Some((k, v, rest)) = attr_layout(s2) {
            if rest.len() < s.len() {
                lemma_tag_rest_len(rest);
            }
        }
    }
}

/// A start tag leaves less than it was given, and at least two bytes less
/// when it closes itself.
proof fn lemma_start_tag_layout_len(s: Seq<u8>)
    ensures
        start_tag_layout(s) matches Some((_, _, after, sc)) ==> after.len() < s.len()
            && (sc ==> after.len() + 2 <= s.len()),
{
    lemma_name_parts(s);
    let (w, n) = name_parts(s);
    if n > 0 {
        lemma_tag_rest_len(s.skip(w + n));
    }
}

/// What an attribute head leaves is what follows it.
proof fn lemma_attr_head_consumed(s: Seq<u8>)
    ensures
        attr_head(s) matches Some((_, s4)) ==> consumed_from(s, s4),
{
    if let Some((_, s4)) = attr_head(s) {
        lemma_name_parts(s);
        let (w1, n) = name_parts(s);
        let s1 = s.skip(w1 + n);
        lemma_consumed_skip(s, w1 + n);
        lemma_run_props(s1, 0, ws_stop());
        let s2 = s1.skip(run_from(s1, 0, ws_stop()) as int);
        lemma_consumed_skip(s1, run_from(s1, 0, ws_stop()) as int);
        lemma_consumed_trans(s, s1, s2);
        let s3 = s2.skip(1);
        lemma_consumed_skip(s2, 1);
        lemma_consumed_trans(s, s2, s3);
        lemma_run_props(s3, 0, ws_stop());
        lemma_consumed_skip(s3, run_from(s3, 0, ws_stop()) as int);
        lemma_consumed_trans(s, s3, s4);
    }
}

/// What an attribute leaves is what follows it.
proof fn lemma_attr_layout_consumed(s: Seq<u8>)
    ensures
        attr_layout(s) matches Some((_, _, rest)) ==> consumed_from(s, rest),
{
    if let Some((_, _, rest)) = attr_layout(s) {
        lemma_attr_head_consumed(s);
        let s4 = attr_head(s)->Some_0.1;
        let s5 = s4.skip(1);
        lemma_consumed_skip(s4, 1);
        let v = run_from(s5, 0, value_end(s4[0])) as int;
        lemma_run_props(s5, 0, value_end(s4[0]));
        lemma_consumed_skip(s5, v + 1);
        lemma_consumed_trans(s4, s5, rest);
        lemma_consumed_trans(s, s4, rest);
    }
}

/// What the rest of a start tag leaves is what follows it.
proof fn lemma_tag_rest_consumed(s: Seq<u8>)
    ensures
        tag_rest(s) matches Some((_, after, _)) ==> consumed_from(s, after),
    decreases s.len(),
{
    lemma_run_props(s, 0, ws_stop());
    let k = run_from(s, 0, ws_stop()) as int;
    let s2 = s.skip(k);
    lemma_consumed_skip(s, k);
    if s2.len() > 0 {
        if s2[0] == SLASH {
            if s2.len() >= 2 {
                lemma_consumed_skip(s2, 2);
                lemma_consumed_trans(s, s2, s2.skip(2));
            }
        } else if s2[0] == GT {
            lemma_consumed_skip(s2, 1);
            lemma_consumed_trans(s, s2, s2.skip(1));
        } else if let Some((_, _, rest)) = attr_layout(s2) {
            if rest.len() < s.len() {
                lemma_attr_layout_consumed(s2);
                lemma_consumed_trans(s, s2, rest);
                lemma_tag_rest_consumed(rest);
                if let Some((_, after, _)) = tag_rest(rest) {
                    lemma_consumed_trans(s, rest, after);
                }
            }
        }
    }
}

/// What a start or end tag leaves is what follows it.
proof fn lemma_tag_layout_consumed(s: Seq<u8>)
    ensures
        start_tag_layout(s) matches Some((_, _, after, _)) ==> consumed_from(s, after),
        end_tag_layout(s) matches Some((_, after)) ==> consumed_from(s, after),
{
    lemma_name_parts(s);
    let (w, n) = name_parts(s);
    if n > 0 {
        lemma_consumed_skip(s, w + n);
        lemma_tag_rest_consumed(s.skip(w + n));
        if let Some((_, after, _)) = tag_rest(s.skip(w + n)) {
            lemma_consumed_trans(s, s.skip(w + n), after);
        }
    }
    if let Some((_, after)) = end_tag_layout(s) {
        let s1 = s.skip(1);
        lemma_consumed_skip(s, 1);
        lemma_name_parts(s1);
        let (w1, n1) = name_parts(s1);
        let s2 = s1.skip(w1 + n1);
        lemma_consumed_skip(s1, w1 + n1);
        lemma_consumed_trans(s, s1, s2);
        lemma_run_props(s2, 0, ws_stop());
        let s3 = s2.skip(run_from(s2, 0, ws_stop()) as int);
        lemma_consumed_skip(s2, run_from(s2, 0, ws_stop()) as int);
        lemma_consumed_trans(s, s2, s3);
        lemma_consumed_skip(s3, 1);
        lemma_consumed_trans(s, s3, after);
    }
}

/// Between tags, what the reader records of plain markup is what it reads:
/// the bytes of a text, and every byte of a tag from its `<` to its `>`
/// (the record an end element takes, or the record after a start tag) but
/// the `/` of a self-closing tag. Declarations and processing instructions,
/// which are recorded only in part, are left out.
pub proof fn law_record_is_input(s: Seq<u8>, acc: Seq<u8>)
    requires
        !(s.len() >= 2 && s[0] == LT && (s[1] == BANG || s[1] == QMARK)),
    ensures
        match step_outside(s, acc) {
            Some((EventView::Text(_), after, acc2, _)) => acc2 == acc + s.take(s.len() - after.len()),
            Some((EventView::End(_, rec), after, _, _)) => rec == acc + s.take(s.len() - after.len()),
            Some((EventView::Start(_, _), after, acc2, p)) => acc2 == acc + start_recorded(
                s.take(s.len() - after.len()),
                p is Some,
            ),
            _ => true,
        },
{
    let k = run_from(s, 0, quote_stop(LT)) as int;
    lemma_run_props(s, 0, quote_stop(LT));
    if k > 0 && k <= s.len() {
        assert(s.skip(k).len() == s.len() - k);
    } else if s.len() > 0 {
        let s1 = s.skip(1);
        assert(s[0] == LT);
        let a1 = acc.push(LT);
        match step_inside(s1, a1) {
            Some((EventView::End(_, rec), after, _, _)) => {
                assert(after.len() <= s1.len()) by {
                    lemma_end_tag_layout_len(s1);
                }
                assert(a1 + s1.take(s1.len() - after.len()) =~= acc + s.take(s.len() - after.len()));
            },
            Some((EventView::Start(nm, at), after, acc2, p)) => {
                lemma_start_tag_layout_len(s1);
                let c1 = s1.take(s1.len() - after.len());
                let c = s.take(s.len() - after.len());
                assert(c =~= seq![LT] + c1);
                if p is Some {
                    assert(c1.len() >= 2);
                    assert(a1 + start_recorded(c1, true) =~= acc + start_recorded(c, true));
                } else {
                    assert(a1 + c1 =~= acc + c);
                }
            },
            _ => {},
        }
    }
}

/// Bytes in which no `<` is followed by `!` or `?`: no declaration,
/// comment, CDATA section or processing instruction starts in them.
pub open spec fn no_bang_or_pi(s: Seq<u8>) -> bool {
    forall|i: int| 0 <= i < s.len() - 1 && #[trigger] s[i] == LT ==> s[i + 1] != BANG && s[i + 1] != QMARK
}

/// Reading events from `s` between tags, having recorded `acc`, for at most
/// `fuel` events: the records that end elements hand out, one after the
/// other, and what is recorded when the input ends. `None` when a step
/// fails, a tag closes itself, or the input does not end within `fuel`
/// events.
pub open spec fn run_records(s: Seq<u8>, acc: Seq<u8>, fuel: nat) -> Option<(Seq<u8>, Seq<u8>)>
    decreases fuel,
{
    if fuel == 0 {
        None
    } else {
        match step_outside(s, acc) {
            Some((ev, after, acc2, p)) => if p is Some {
                None
            } else {
                match ev {
                    EventView::Eof => Some((Seq::empty(), acc2)),
                    EventView::End(_, rec) => match run_records(after, acc2, (fuel - 1) as nat) {
                        Some((t, last)) => Some((rec + t, last)),
                        None => None,
                    },
                    _ => run_records(after, acc2, (fuel - 1) as nat),
                }
            },
            None => None,
        }
    }
}

/// A step between tags that makes nothing pending leaves what follows the
/// bytes it read, and no `<!` or `<?` appears there when none appeared
/// before.
proof fn lemma_step_outside_suffix(s: Seq<u8>, acc: Seq<u8>)
    requires
        no_bang_or_pi(s),
    ensures
        step_outside(s, acc) matches Some((_, after, _, p)) ==> consumed_from(s, after) && no_bang_or_pi(after),
{
    if let Some((ev, after, acc2, p)) = step_outside(s, acc) {
        let k = run_from(s, 0, quote_stop(LT)) as int;
        lemma_run_props(s, 0, quote_stop(LT));
        if k > 0 && k <= s.len() {
            lemma_consumed_skip(s, k);
        } else if s.len() == 0 {
            lemma_consumed_none(s);
        } else {
            assert(s[0] == LT);
            if s.len() >= 2 {
                assert(s[1] != BANG && s[1] != QMARK);
            }
            lemma_consumed_skip(s, 1);
            lemma_tag_layout_consumed(s.skip(1));
            lemma_consumed_trans(s, s.skip(1), after);
        }
        let j = s.len() - after.len();
        assert forall|i: int| 0 <= i < after.len() - 1 && #[trigger] after[i] == LT
            implies after[i + 1] != BANG && after[i + 1] != QMARK by {
            assert(after[i] == s[i + j]);
            assert(after[i + 1] == s[i + 1 + j]);
        }
    }
}

/// Reading to the end of an input with no declaration, comment, CDATA
/// section, processing instruction or self-closing tag: the records that
/// the end elements hand out, followed by what is recorded at the end, are
/// what was recorded before followed by every byte of the input.
#[verifier::spinoff_prover]
#[verifier::rlimit(100)]
pub proof fn law_records_cover_input(s: Seq<u8>, acc: Seq<u8>, fuel: nat)
    requires
        no_bang_or_pi(s),
    ensures
        run_records(s, acc, fuel) matches Some((t, last)) ==> t + last == acc + s,
    decreases fuel,
{
    if fuel > 0 {
        if s.len() >= 2 && s[0] == LT {
            assert(s[1] != BANG && s[1] != QMARK);
        }
        law_record_is_input(s, acc);
        lemma_step_outside_suffix(s, acc);
        if let Some((ev, after, acc2, p)) = step_outside(s, acc) {
            if p is None {
                let j = s.len() - after.len();
                assert(s =~= s.take(j) + after);
                law_records_cover_input(after, acc2, (fuel - 1) as nat);
                let k = run_from(s, 0, quote_stop(LT)) as int;
                lemma_run_props(s, 0, quote_stop(LT));
                if s.len() > 0 && !(k > 0 && k <= s.len()) {
                    assert(s[0] == LT);
                    assert(s.skip(1)[0] == s[1]);
                }
                match ev {
                    EventView::Eof => {
                        assert(s.len() == 0);
                        assert(acc + s =~= acc);
                    },
                    EventView::End(_, rec) => {
                        assert(rec == acc + s.take(j));
                        if let Some((t, last)) = run_records(after, acc2, (fuel - 1) as nat) {
                            assert(t + last == acc2 + after);
                            assert(acc2 =~= Seq::<u8>::empty());
                            assert(rec + t + last =~= acc + s);
                        }
                    },
                    _ => {
                        if let Some((t, last)) = run_records(after, acc2, (fuel - 1) as nat) {
                            assert(acc2 + after =~= acc + s);
                        }
                    },
                }
            }
        }
    }
}

/// Whether `r` and the state after it are what the step `st` gives.
pub open spec fn step_matches(
    st: Option<(EventView, Seq<u8>, Seq<u8>, Option<Seq<u8>>)>,
    r: Result<Event, ReadError>,
    sv: Seq<u8>,
    acc: Seq<u8>,
    pending: Seq<Seq<u8>>,
) -> bool {
    match st {
        Some((ev, after, acc2, p)) => r matches Ok(e) && event_view(e) == ev && sv == after && acc == acc2
            && pending == (match p {
            Some(n) => seq![n],
            None => Seq::<Seq<u8>>::empty(),
        }),
        None => r is Err,
    }
}

impl<S: ByteSource> Reader<S> {
    /// The markup after a `<`: an event, or `None` when a declaration or a
    /// processing instruction was skipped.
    #[verifier::spinoff_prover]
    #[verifier::rlimit(50)]
    fn inside_event(&mut self) -> (r: Result<Option<Event>, ReadError>)
        requires
            old(self).wf(),
            old(self).pending().len() == 0,
            old(self).inside(),
        ensures
            final(self).wf(),
            old(self).at_end() ==> final(self).at_end(),
            final(self).sv().len() <= old(self).sv().len(),
            r is Ok ==> consumed_from(old(self).sv(), final(self).sv()),
            r is Ok ==> final(self).sv().len() < old(self).sv().len() && !final(self).inside(),
            r is Err ==> final(self).pending().len() == 0,
            r matches Ok(Some(ev)) ==> {
                &&& !(ev is Eof) && !(ev is Text)
                &&& ev matches Event::StartElement { name, attributes } ==> is_name(name@) && attrs_ok(attributes@)
                    && (final(self).pending().len() == 0 || final(self).pending() == seq![name@])
                &&& ev matches Event::EndElement { name, accumulated } ==> is_name(name@)
                    && final(self).acc().len() == 0 && final(self).pending().len() == 0
                &&& ev is Comment ==> final(self).pending().len() == 0
                &&& ev is CData ==> final(self).pending().len() == 0
            },
            r == Ok::<Option<Event>, ReadError>(None) ==> final(self).pending().len() == 0
                && step_inside(old(self).sv(), old(self).acc()) == step_outside(final(self).sv(), final(self).acc())
                && fail_inside(old(self).sv(), old(self).acc()) == fail_outside(final(self).sv(), final(self).acc()),
            !source_failed(r) && !(r == Ok::<Option<Event>, ReadError>(None)) ==> step_matches(
                step_inside(old(self).sv(), old(self).acc()),
                match r { Ok(Some(ev)) => Ok(ev), Ok(None) => Ok(Event::Eof), Err(e) => Err(e) },
                final(self).sv(),
                final(self).acc(),
                final(self).pending(),
            ),
            final(self).reliable() == old(self).reliable(),
            old(self).reliable() ==> !source_failed(r),
            r == Err::<Option<Event>, ReadError>(ReadError::UnexpectedEof) ==> final(self).sv().len() == 0,
            r == Err::<Option<Event>, ReadError>(ReadError::InvalidData) ==> final(self).sv().len() > 0,
            r is Err && !source_failed(r) ==> (final(self).sv(), final(self).acc()) == fail_inside(old(self).sv(),
                old(self).acc()) && final(self).inside(),
            final(self).history() == old(self).history(),
    {
        let ghost s1 = self.sv();
        let ghost a2 = self.acc();
        let c = match self.peek_byte() {
            Err(e) => {
                proof {
                    if !source_failed(Err::<(), ReadError>(e)) {
                        assert(self.sv() =~= s1);
                    }
                }
                return Err(e);
            },
            Ok(c) => c,
        };
        if c == SLASH {
            let r = self.end_tag_event();
            proof {
                assert(self.pending() =~= Seq::<Seq<u8>>::empty());
                if r is Ok {
                    assert(self.acc() =~= Seq::<u8>::empty());
                }
            }
            return match r {
                Ok(ev) => Ok(Some(ev)),
                Err(e) => Err(e),
            };
        } else if c == BANG {
            match self.bang_event() {
                Err(e) => {
                    return Err(e);
                },
                Ok(Some(ev)) => {
                    proof {
                        assert(self.pending() =~= Seq::<Seq<u8>>::empty());
                        let ss = s1.skip(1);
                        if starts_with_seq(ss, seq![DASH, DASH]) {
                            assert(s1.skip(3) =~= ss.skip(2));
                            assert(ev is Comment);
                        } else if starts_with_seq(ss, cdata_rest_pat()) {
                            assert(s1.skip(8) =~= ss.skip(7));
                            assert(ev is CData);
                        }
                        if ev is Comment {
                            assert(self.acc() =~= a2.push(BANG) + ev->Comment_0@);
                        } else if ev is CData {
                            assert(self.acc() =~= a2.push(BANG) + ev->CData_0@);
                        }
                    }
                    return Ok(Some(ev));
                },
                Ok(None) => {},
            }
        } else if c == QMARK {
            match self.skip_pi() {
                Err(e) => {
                    return Err(e);
                },
                Ok(()) => {},
            }
        } else {
            let r = self.start_tag_event();
            proof {
                if r is Ok {
                    if let Some((nm, a, after, sc)) = start_tag_layout(s1) {
                        if sc {
                            assert(self.pending() =~= seq![nm]);
                        } else {
                            assert(self.pending() =~= Seq::<Seq<u8>>::empty());
                        }
                    }
                }
            }
            return match r {
                Ok(ev) => Ok(Some(ev)),
                Err(e) => Err(e),
            };
        }
        Ok(None)
    }
}

impl<S: ByteSource> Reader<S> {
    /// The next event. A pending synthetic end element comes first; at the
    /// end of the input the event is `Eof`. Processing instructions and
    /// declarations other than comments and CDATA sections are skipped.
    /// Otherwise the event, what is left unread and what is recorded are
    /// those of `reader_step`, a function of the unread input alone, however
    /// reads of the source split it. On `UnexpectedEof` (nothing left
    /// unread) or `InvalidData` (stopped before the offending byte) the
    /// reader stays inside the tag, and what is unread and recorded are those
    /// of `reader_fail`.
    #[verifier::spinoff_prover]
    #[verifier::rlimit(100)]
    pub fn next_event(&mut self) -> (r: Result<Event, ReadError>)
        requires
            old(self).wf(),
        ensures
            final(self).wf(),
            old(self).at_end() ==> r is Ok && final(self).at_end(),
            old(self).pending().len() > 0 ==> {
                &&& (r matches Ok(ev) && ev matches Event::EndElement { name, accumulated }
                    && name@ == old(self).pending().last() && accumulated@ == old(self).acc())
                &&& final(self).pending() == old(self).pending().drop_last()
                &&& final(self).sv() == old(self).sv()
                &&& final(self).acc().len() == 0
                &&& final(self).inside() == old(self).inside()
            },
            old(self).pending().len() == 0 ==> {
                &&& old(self).at_end() ==> (r matches Ok(Event::Eof))
                &&& final(self).sv().len() <= old(self).sv().len()
                &&& r is Ok ==> consumed_from(old(self).sv(), final(self).sv())
                &&& (r matches Ok(ev) && !(ev is Eof)) ==> final(self).sv().len() < old(self).sv().len()
                &&& !old(self).inside() && !source_failed(r) && !(r matches Ok(Event::Eof))
                    ==> final(self).sv().len() < old(self).sv().len()
                &&& r matches Ok(Event::Eof) ==> final(self).sv().len() == 0 && final(self).at_end()
                    && final(self).pending().len() == 0
                &&& r matches Ok(Event::Text(t)) ==> {
                    &&& t@.len() > 0
                    &&& no_lt(t@)
                    &&& consumed_from(old(self).sv(), t@ + final(self).sv())
                    &&& final(self).sv().len() == 0 || final(self).sv()[0] == LT
                    &&& !final(self).inside()
                    &&& final(self).pending().len() == 0
                    &&& !old(self).inside() && old(self).sv().len() > 0 && old(self).sv()[0] != LT ==> {
                        &&& t@ == old(self).sv().take(t@.len() as int)
                        &&& final(self).acc() == old(self).acc() + t@
                    }
                }
                &&& r matches Ok(Event::StartElement { name, attributes }) ==> is_name(name@)
                    && attrs_ok(attributes@) && !final(self).inside()
                    && (final(self).pending().len() == 0 || final(self).pending() == seq![name@])
                &&& r matches Ok(Event::EndElement { name, accumulated }) ==> is_name(name@)
                    && final(self).acc().len() == 0 && final(self).pending().len() == 0 && !final(self).inside()
                &&& r matches Ok(Event::Comment(_)) ==> final(self).pending().len() == 0 && !final(self).inside()
                &&& r matches Ok(Event::CData(_)) ==> final(self).pending().len() == 0 && !final(self).inside()
                &&& r is Err ==> final(self).pending().len() == 0
            },
            !old(self).at_end() && old(self).pending().len() == 0 && !source_failed(r) ==> step_matches(
                reader_step(old(self).sv(), old(self).inside(), old(self).acc()),
                r,
                final(self).sv(),
                final(self).acc(),
                final(self).pending(),
            ),
            final(self).reliable() == old(self).reliable(),
            old(self).reliable() ==> !source_failed(r),
            r == Err::<Event, ReadError>(ReadError::UnexpectedEof) ==> final(self).sv().len() == 0,
            r == Err::<Event, ReadError>(ReadError::InvalidData) ==> final(self).sv().len() > 0,
            !old(self).at_end() && old(self).pending().len() == 0 && r is Err && !source_failed(r) ==> (
            final(self).sv(),
            final(self).acc(),
            ) == reader_fail(old(self).sv(), old(self).inside(), old(self).acc()) && final(self).inside(),
            r matches Ok(ev) ==> final(self).history() == old(self).history().push(event_view(ev)),
            r is Err ==> final(self).history() == old(self).history(),
    {
        if self.pending_end.len() > 0 {
            let ghost before = self.pending_end@;
            let name = self.pending_end.pop().unwrap();
            proof {
                assert(self.pending_end.deep_view() =~= old(self).pending().drop_last()) by {
                    assert forall|i: int| 0 <= i < self.pending_end@.len() implies
                        self.pending_end.deep_view()[i] == old(self).pending().drop_last()[i] by {
                        assert(self.pending_end@[i] == before[i]);
                    }
                }
                assert(name@ == old(self).pending().last());
            }
            let accumulated = self.get_accumulated();
            let ev = Event::EndElement { name, accumulated };
            self.history = Ghost(self.history@.push(event_view(ev)));
            return Ok(ev);
        }
        if self.finished {
            proof { lemma_consumed_none(self.sv()); }
            let ev = Event::Eof;
            self.history = Ghost(self.history@.push(event_view(ev)));
            return Ok(ev);
        }
        let ghost s0 = self.sv();
        proof { lemma_consumed_none(s0); }
        loop
            invariant
                self.history() == old(self).history(),
                self.reliable() == old(self).reliable(),
                self.wf(),
                self.pending().len() == 0,
                old(self).pending().len() == 0,
                s0 == old(self).sv(),
                !old(self).at_end(),
                consumed_from(s0, self.sv()),
                self.sv().len() < s0.len() || (self.sv() == s0 && self.inside() == old(self).inside()
                    && self.acc() == old(self).acc()),
                !old(self).inside() && s0.len() > 0 && s0[0] != LT ==> self.sv() == s0 && !self.inside(),
                reader_step(s0, old(self).inside(), old(self).acc()) == reader_step(self.sv(), self.inside(), self.acc()),
                reader_fail(s0, old(self).inside(), old(self).acc()) == reader_fail(self.sv(), self.inside(), self.acc()),
            decreases 2 * self.sv().len() + (if self.inside() { 0int } else { 1int }),
        {
            let ghost s1 = self.sv();
            if self.state == ReaderState::OutsideTag {
                let ghost a1 = self.acc();
                let text = match self.read_text_until_lt() {
                    Err(e) => {
                        return Err(e);
                    },
                    Ok(t) => t,
                };
                let ghost k = run_from(s1, 0, quote_stop(LT)) as int;
                proof {
                    if s1.len() > 0 && s1[0] != LT {
                        assert(run_from(s1, 0, quote_stop(LT)) == 1 + run_from(s1, 1, quote_stop(LT)));
                    }
                    lemma_run_props(s1, 0, quote_stop(LT));
                    lemma_consumed_skip(s1, k);
                    lemma_consumed_trans(s0, s1, self.sv());
                    assert forall|i: int| 0 <= i < text@.len() implies #[trigger] text@[i] != LT by {
                        assert(text@[i] == s1[i]);
                        assert(!(quote_stop(LT))(s1[i]));
                    }
                }
                self.record(text.as_slice());
                if text.len() > 0 {
                    proof {
                        assert(s1 =~= text@ + self.sv());
                        assert(consumed_part(s0, s1) + s1 == s0);
                        assert(s0 =~= consumed_part(s0, s1) + (text@ + self.sv()));
                        lemma_consumed_skip(s0, consumed_part(s0, s1).len() as int);
                        assert(s0.skip(consumed_part(s0, s1).len() as int) =~= text@ + self.sv());
                        if !old(self).inside() && s0.len() > 0 && s0[0] != LT {
                            assert(s1 == s0);
                        }
                        assert(text@ == s1.take(k));
                        assert(self.pending() =~= Seq::<Seq<u8>>::empty());
                        assert(reader_step(s1, false, a1) == Some((EventView::Text(s1.take(k)), s1.skip(k),
                            a1 + s1.take(k), None::<Seq<u8>>)));
                    }
                    let ev = Event::Text(text);
                    self.history = Ghost(self.history@.push(event_view(ev)));
                    return Ok(ev);
                }
                proof {
                    assert(self.acc() =~= a1);
                }
                if self.finished {
                    proof {
                        assert(s1.len() == 0);
                        assert(self.pending() =~= Seq::<Seq<u8>>::empty());
                        assert(reader_step(s1, false, a1) == Some((EventView::Eof, s1, a1, None::<Seq<u8>>)));
                    }
                    let ev = Event::Eof;
                    self.history = Ghost(self.history@.push(event_view(ev)));
                    return Ok(ev);
                }
                let ghost s2 = self.sv();
                self.pos = self.pos + 1;
                self.accumulator.push(LT);
                self.state = ReaderState::InsideTag;
                proof {
                    assert(self.sv() =~= s2.skip(1));
                    lemma_consumed_skip(s2, 1);
                    lemma_consumed_trans(s0, s2, self.sv());
                    assert(s2 == s1);
                    assert(self.acc() == a1.push(LT));
                }
            } else {
                match self.inside_event() {
                    Err(e) => {
                        return Err(e);
                    },
                    Ok(Some(ev)) => {
                        proof { lemma_consumed_trans(s0, s1, self.sv()); }
                        self.history = Ghost(self.history@.push(event_view(ev)));
                        return Ok(ev);
                    },
                    Ok(None) => {
                        proof { lemma_consumed_trans(s0, s1, self.sv()); }
                    },
                }
            }
        }
    }
}

} // verus!
