//! Where input bytes come from: a source that fills a buffer on request.

use vstd::prelude::*;

verus! {

/// A read from a byte source failed.
#[derive(Clone, Copy, Debug, PartialEq, Eq, Structural)]
pub struct SourceError;

/// A supplier of input bytes, read front to back in pieces.
pub trait ByteSource {
    /// The bytes the source will still yield, in order.
    spec fn stream(&self) -> Seq<u8>;

    /// Whether reading from the source never fails. A source that promises
    /// nothing keeps the default `false`.
    open spec fn never_fails(&self) -> bool {
        false
    }

    /// Whether a successful read fills all the room it is given, or takes
    /// all the bytes left. A source that promises nothing keeps the default
    /// `false`.
    open spec fn fills_room(&self) -> bool {
        false
    }

    /// Read up to `buf.len() - start` bytes into `buf[start..]` and return how
    /// many were read: the next bytes of the stream. `Ok(0)` means the stream
    /// has ended (or there was no room). The bytes before `start` and the
    /// length of `buf` are left alone; a failed read yields no bytes.
    fn read_into(&mut self, buf: &mut Vec<u8>, start: usize) -> (r: Result<usize, SourceError>)
        requires
            start <= old(buf)@.len(),
        ensures
            final(buf)@.len() == old(buf)@.len(),
            final(buf)@.subrange(0, start as int) == old(buf)@.subrange(0, start as int),
            r matches Ok(n) ==> {
                &&& n <= old(buf)@.len() - start
                &&& n <= old(self).stream().len()
                &&& final(buf)@.subrange(start as int, start + n) == old(self).stream().take(n as int)
                &&& final(self).stream() == old(self).stream().skip(n as int)
                &&& (n == 0 ==> old(self).stream().len() == 0 || start == old(buf)@.len())
            },
            r is Err ==> final(self).stream().len() <= old(self).stream().len(),
            final(self).never_fails() == old(self).never_fails(),
            old(self).never_fails() ==> r is Ok,
            final(self).fills_room() == old(self).fills_room(),
            old(self).fills_room() ==> (r matches Ok(n) ==> n == (if old(buf)@.len() - start < old(self).stream().len() {
                old(buf)@.len() - start
            } else {
                old(self).stream().len() as int
            })),
    ;
}

/// A byte source fed from outside: bytes are queued with `push` and the end
/// of the input is marked with `close`. A read with nothing queued fails
/// while the source is open, so that the caller can queue more bytes and ask
/// again; once the source is closed, an empty queue reads as the end of the
/// input.
pub struct QueueSource {
    data: Vec<u8>,
    pos: usize,
    closed: bool,
}

impl QueueSource {
    #[verifier::type_invariant]
    spec fn inv(&self) -> bool {
        self.pos <= self.data@.len()
    }

    /// The queued bytes not yet read.
    pub closed spec fn queued(&self) -> Seq<u8> {
        self.data@.subrange(self.pos as int, self.data@.len() as int)
    }

    /// Whether the end of the input has been marked.
    pub closed spec fn is_closed(&self) -> bool {
        self.closed
    }

    /// An open source with nothing queued.
    pub fn new() -> (s: Self)
        ensures
            s.queued().len() == 0,
            !s.is_closed(),
    {
        let s = QueueSource { data: Vec::new(), pos: 0, closed: false };
        assert(s.queued() =~= Seq::<u8>::empty());
        s
    }

    /// Queue `bytes` after those queued before.
    pub fn push(&mut self, bytes: &[u8])
        requires
            !old(self).is_closed(),
        ensures
            final(self).queued() == old(self).queued() + bytes@,
            !final(self).is_closed(),
    {
        proof { use_type_invariant(&*self); }
        let ghost q0 = self.queued();
        let mut v: Vec<u8> = Vec::new();
        let mut i: usize = self.pos;
        while i < self.data.len()
            invariant
                self.pos <= i <= self.data@.len(),
                q0 == self.data@.subrange(self.pos as int, self.data@.len() as int),
                v@ == self.data@.subrange(self.pos as int, i as int),
            decreases self.data.len() - i,
        {
            v.push(self.data[i]);
            i += 1;
            assert(v@ =~= self.data@.subrange(self.pos as int, i as int));
        }
        let mut j: usize = 0;
        while j < bytes.len()
            invariant
                j <= bytes@.len(),
                v@ == q0 + bytes@.take(j as int),
            decreases bytes.len() - j,
        {
            v.push(bytes[j]);
            j += 1;
            assert(v@ =~= q0 + bytes@.take(j as int));
        }
        assert(bytes@.take(bytes@.len() as int) =~= bytes@);
        *self = QueueSource { data: v, pos: 0, closed: false };
        assert(self.queued() =~= q0 + bytes@);
    }

    /// Mark the end of the input.
    pub fn close(&mut self)
        ensures
            final(self).queued() == old(self).queued(),
            final(self).is_closed(),
    {
        proof { use_type_invariant(&*self); }
        self.closed = true;
    }

    /// Whether the end of the input has been marked.
    pub fn closed(&self) -> (r: bool)
        ensures
            r == self.is_closed(),
    {
        self.closed
    }
}

impl ByteSource for QueueSource {
    open spec fn stream(&self) -> Seq<u8> {
        self.queued()
    }

    open spec fn never_fails(&self) -> bool {
        self.is_closed()
    }

    open spec fn fills_room(&self) -> bool {
        true
    }

    /// Copies the next `min(buf.len() - start, queued)` bytes into
    /// `buf[start..]`; with nothing queued, fails while open and reads
    /// nothing once closed.
    fn read_into(&mut self, buf: &mut Vec<u8>, start: usize) -> (r: Result<usize, SourceError>)
        ensures
            old(self).queued().len() == 0 && !old(self).is_closed() ==> r is Err,
            r is Err ==> final(self).queued() == old(self).queued() && final(buf)@ == old(buf)@,
            r matches Ok(n) ==> {
                let space = old(buf)@.len() - start;
                let q = old(self).queued();
                &&& n == (if space < q.len() { space } else { q.len() as int })
                &&& final(buf)@ == old(buf)@.subrange(0, start as int) + q.take(n as int)
                    + old(buf)@.subrange(start + n, old(buf)@.len() as int)
                &&& final(self).queued() == q.skip(n as int)
            },
            final(self).is_closed() == old(self).is_closed(),
    {
        proof { use_type_invariant(&*self); }
        if self.pos == self.data.len() && !self.closed {
            return Err(SourceError);
        }
        let blen = buf.len();
        let dlen = self.data.len();
        let space = blen - start;
        let rem = dlen - self.pos;
        let n = if space < rem { space } else { rem };
        let ghost old_buf = buf@;
        let ghost old_q = self.queued();
        let mut i: usize = 0;
        while i < n
            invariant
                i <= n,
                n <= space,
                n <= rem,
                space == old_buf.len() - start,
                blen == old_buf.len(),
                dlen == self.data@.len(),
                rem == self.data@.len() - self.pos,
                self.pos <= self.data@.len(),
                old_q == self.data@.subrange(self.pos as int, self.data@.len() as int),
                start <= old_buf.len(),
                buf@ == old_buf.subrange(0, start as int) + old_q.take(i as int)
                    + old_buf.subrange(start + i, old_buf.len() as int),
            decreases n - i,
        {
            let b = self.data[self.pos + i];
            buf.set(start + i, b);
            i += 1;
            assert(buf@ =~= old_buf.subrange(0, start as int) + old_q.take(i as int)
                + old_buf.subrange(start + i, old_buf.len() as int));
        }
        self.pos = self.pos + n;
        assert(self.queued() =~= old_q.skip(n as int));
        assert(buf@.subrange(0, start as int) =~= old_buf.subrange(0, start as int));
        Ok(n)
    }
}

/// A byte source over bytes held in memory, read front to back.
pub struct SliceSource {
    data: Vec<u8>,
    pos: usize,
}

impl SliceSource {
    #[verifier::type_invariant]
    spec fn inv(&self) -> bool {
        self.pos <= self.data@.len()
    }

    /// The bytes not yet read.
    pub closed spec fn remaining(&self) -> Seq<u8> {
        self.data@.subrange(self.pos as int, self.data@.len() as int)
    }

    /// A source that yields `data`.
    pub fn new(data: &[u8]) -> (s: Self)
        ensures
            s.remaining() == data@,
    {
        let v = crate::tokenizer::copy_range(data, 0, data.len());
        assert(v@.subrange(0, v@.len() as int) =~= v@);
        SliceSource { data: v, pos: 0 }
    }

    /// The number of bytes not yet read.
    pub fn remaining_len(&self) -> (r: usize)
        ensures
            r == self.remaining().len(),
    {
        proof { use_type_invariant(self); }
        self.data.len() - self.pos
    }
}

impl ByteSource for SliceSource {
    open spec fn stream(&self) -> Seq<u8> {
        self.remaining()
    }

    open spec fn never_fails(&self) -> bool {
        true
    }

    open spec fn fills_room(&self) -> bool {
        true
    }

    /// Copies the next `min(buf.len() - start, remaining)` bytes into
    /// `buf[start..]`; never fails.
    fn read_into(&mut self, buf: &mut Vec<u8>, start: usize) -> (r: Result<usize, SourceError>)
        ensures
            ({
                let space = old(buf)@.len() - start;
                let rem = old(self).remaining();
                let n = if space < rem.len() { space } else { rem.len() as int };
                &&& r == Ok::<usize, SourceError>(n as usize)
                &&& final(buf)@ == old(buf)@.subrange(0, start as int) + rem.take(n)
                    + old(buf)@.subrange(start + n, old(buf)@.len() as int)
                &&& final(self).remaining() == rem.skip(n)
            }),
    {
        proof { use_type_invariant(&*self); }
        let blen = buf.len();
        let dlen = self.data.len();
        let space = blen - start;
        let rem = dlen - self.pos;
        let n = if space < rem { space } else { rem };
        let ghost old_buf = buf@;
        let ghost old_rem = self.remaining();
        let mut i: usize = 0;
        while i < n
            invariant
                i <= n,
                n <= space,
                n <= rem,
                space == old_buf.len() - start,
                blen == old_buf.len(),
                dlen == self.data@.len(),
                rem == self.data@.len() - self.pos,
                self.pos <= self.data@.len(),
                old_rem == self.data@.subrange(self.pos as int, self.data@.len() as int),
                start <= old_buf.len(),
                buf@ == old_buf.subrange(0, start as int) + old_rem.take(i as int)
                    + old_buf.subrange(start + i, old_buf.len() as int),
            decreases n - i,
        {
            let b = self.data[self.pos + i];
            buf.set(start + i, b);
            i += 1;
            assert(buf@ =~= old_buf.subrange(0, start as int) + old_rem.take(i as int)
                + old_buf.subrange(start + i, old_buf.len() as int));
        }
        self.pos = self.pos + n;
        assert(self.remaining() =~= old_rem.skip(n as int));
        assert(buf@.subrange(0, start as int) =~= old_buf.subrange(0, start as int));
        Ok(n)
    }
}

} // verus!
