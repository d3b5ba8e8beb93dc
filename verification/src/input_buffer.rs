//! A fixed-size input buffer with sliding-window semantics.

use vstd::prelude::*;
use crate::source::{ByteSource, SourceError};

verus! {

/// Fixed-size input buffer: the unread bytes sit in `buf[start..end]`.
pub struct InputBuffer {
    buf: Vec<u8>,
    start: usize,
    end: usize,
    eof: bool,
}

impl InputBuffer {
    /// The unread region lies inside the buffer.
    pub closed spec fn wf(&self) -> bool {
        self.start <= self.end <= self.buf@.len()
    }

    /// The unread bytes.
    pub closed spec fn data(&self) -> Seq<u8> {
        self.buf@.subrange(self.start as int, self.end as int)
    }

    /// The fixed size of the buffer.
    pub closed spec fn cap(&self) -> nat {
        self.buf@.len()
    }

    /// Whether the source has reported the end of its input.
    pub closed spec fn at_eof(&self) -> bool {
        self.eof
    }

    /// How many bytes the next fill may read: up to the end of the buffer,
    /// or, when the unread bytes reach that end, all the space they leave
    /// once slid to the front.
    pub closed spec fn room(&self) -> int {
        if self.end == self.buf@.len() {
            self.buf@.len() - (self.end - self.start)
        } else {
            self.buf@.len() - self.end
        }
    }

    /// The unread bytes fit in the buffer.
    pub proof fn lemma_fits(&self)
        requires
            self.wf(),
        ensures
            self.data().len() <= self.cap(),
    {
    }

    /// An empty buffer of `cap` bytes.
    pub fn with_capacity(cap: usize) -> (b: Self)
        ensures
            b.wf(),
            b.data().len() == 0,
            b.cap() == cap,
            !b.at_eof(),
    {
        let mut v: Vec<u8> = Vec::with_capacity(cap);
        let mut i: usize = 0;
        while i < cap
            invariant
                i <= cap,
                v@.len() == i,
            decreases cap - i,
        {
            v.push(0);
            i += 1;
        }
        InputBuffer { buf: v, start: 0, end: 0, eof: false }
    }

    /// The number of unread bytes.
    pub fn len(&self) -> (r: usize)
        requires
            self.wf(),
        ensures
            r == self.data().len(),
    {
        self.end - self.start
    }

    /// The size of the buffer.
    pub fn capacity(&self) -> (r: usize)
        requires
            self.wf(),
        ensures
            r == self.cap(),
    {
        self.buf.len()
    }

    /// The unread bytes.
    pub fn as_slice(&self) -> (r: &[u8])
        requires
            self.wf(),
        ensures
            r@ == self.data(),
    {
        &self.buf.as_slice()[self.start..self.end]
    }

    /// Whether the source has reported the end of its input.
    pub fn is_eof(&self) -> (r: bool)
        ensures
            r == self.at_eof(),
    {
        self.eof
    }

    /// Forget all bytes and the end-of-input mark.
    pub fn clear(&mut self)
        requires
            old(self).wf(),
        ensures
            final(self).wf(),
            final(self).data().len() == 0,
            final(self).cap() == old(self).cap(),
            !final(self).at_eof(),
    {
        self.start = 0;
        self.end = 0;
        self.eof = false;
    }

    /// Consume `n` bytes from the front (all of them when fewer are held).
    pub fn consume(&mut self, n: usize)
        requires
            old(self).wf(),
        ensures
            final(self).wf(),
            final(self).data() == old(self).data().skip(
                if n < old(self).data().len() { n as int } else { old(self).data().len() as int },
            ),
            final(self).cap() == old(self).cap(),
            final(self).at_eof() == old(self).at_eof(),
    {
        let len = self.end - self.start;
        let n = if n < len { n } else { len };
        let ghost old_data = self.data();
        self.start = self.start + n;
        if self.start == self.end {
            self.start = 0;
            self.end = 0;
        }
        assert(self.data() =~= old_data.skip(n as int));
    }

    /// Ensure at least `n` bytes are available, reading from `reader` as
    /// needed. Returns `Ok(true)` when they are, `Ok(false)` when the input
    /// ended or the buffer is full before that.
    pub fn ensure<R: ByteSource>(&mut self, n: usize, reader: &mut R) -> (r: Result<bool, SourceError>)
        requires
            old(self).wf(),
        ensures
            final(self).wf(),
            final(self).cap() == old(self).cap(),
            final(self).data().take(old(self).data().len() as int) == old(self).data(),
            final(self).data().len() >= old(self).data().len(),
            r matches Ok(b) ==> b == (final(self).data().len() >= n),
            r == Ok::<bool, SourceError>(false) ==> final(self).at_eof() || final(self).data().len() == final(self).cap(),
            r is Ok ==> {
                let d = final(self).data().len() - old(self).data().len();
                &&& d <= old(reader).stream().len()
                &&& final(self).data() == old(self).data() + old(reader).stream().take(d)
                &&& final(reader).stream() == old(reader).stream().skip(d)
            },
            old(self).at_eof() ==> final(self).at_eof(),
            old(self).data().len() >= n || old(self).at_eof() ==> r == Ok::<bool, SourceError>(
                old(self).data().len() >= n,
            ) && final(self).data() == old(self).data() && final(reader).stream() == old(reader).stream(),
            final(reader).never_fails() == old(reader).never_fails(),
            old(reader).never_fails() ==> r is Ok,
    {
        let ghost start_data = self.data();
        let ghost s0 = reader.stream();
        assert(start_data.take(start_data.len() as int) =~= start_data);
        assert(start_data + s0.take(0) =~= start_data);
        assert(s0.skip(0) =~= s0);
        if self.len() >= n || self.eof {
            return Ok(self.len() >= n);
        }
        while self.len() < n && !self.eof
            invariant
                self.wf(),
                self.cap() == old(self).cap(),
                start_data == old(self).data(),
                s0 == old(reader).stream(),
                self.data().take(start_data.len() as int) == start_data,
                self.data().len() >= start_data.len(),
                self.data().len() - start_data.len() <= s0.len(),
                self.data() == start_data + s0.take(self.data().len() - start_data.len()),
                reader.stream() == s0.skip(self.data().len() - start_data.len()),
                old(self).at_eof() ==> self.at_eof(),
                reader.never_fails() == old(reader).never_fails(),
                reader.fills_room() == old(reader).fills_room(),
            ensures
                self.wf(),
                self.cap() == old(self).cap(),
                self.data().take(start_data.len() as int) == start_data,
                self.data().len() >= start_data.len(),
                self.data().len() >= n || self.at_eof() || self.data().len() == self.cap(),
                self.data().len() - start_data.len() <= s0.len(),
                self.data() == start_data + s0.take(self.data().len() - start_data.len()),
                reader.stream() == s0.skip(self.data().len() - start_data.len()),
                old(self).at_eof() ==> self.at_eof(),
                reader.never_fails() == old(reader).never_fails(),
                reader.fills_room() == old(reader).fills_room(),
            decreases self.cap() - self.data().len() + (if self.at_eof() { 0int } else { 1int }),
        {
            let ghost before = self.data();
            let ghost st = reader.stream();
            let got = self.fill_from(reader);
            match got {
                Ok(k) => {
                    assert(self.data().take(start_data.len() as int) =~= before.take(start_data.len() as int)) by {
                        assert(self.data().take(before.len() as int) == before);
                    }
                    proof {
                        let a = before.len() - start_data.len();
                        assert(st == s0.skip(a));
                        assert(s0.take(a) + s0.skip(a).take(k as int) =~= s0.take(a + k));
                        assert(s0.skip(a).skip(k as int) =~= s0.skip(a + k));
                        assert(self.data() =~= start_data + s0.take(self.data().len() - start_data.len()));
                    }
                    if k == 0 && !self.eof {
                        break;
                    }
                },
                Err(e) => {
                    assert(self.data().take(start_data.len() as int) =~= start_data);
                    return Err(e);
                },
            }
            if self.len() >= n {
                break;
            }
        }
        Ok(self.len() >= n)
    }

    /// Fill the buffer from `reader`, first sliding the unread bytes to the
    /// front when the end of the buffer is reached. Returns the number of bytes
    /// read; 0 when the input had already ended, when it ends now (which is
    /// then recorded), or when the buffer is full.
    pub fn fill_from<R: ByteSource>(&mut self, reader: &mut R) -> (r: Result<usize, SourceError>)
        requires
            old(self).wf(),
        ensures
            final(self).wf(),
            final(self).cap() == old(self).cap(),
            old(self).at_eof() ==> r == Ok::<usize, SourceError>(0) && final(self).data() == old(self).data()
                && final(self).at_eof() && final(reader).stream() == old(reader).stream(),
            r == Ok::<usize, SourceError>(0) && !old(self).at_eof() && old(self).data().len() < old(self).cap()
                ==> final(reader).stream().len() == 0,
            r is Err ==> final(self).data() == old(self).data() && final(self).at_eof() == old(self).at_eof(),
            r is Err ==> final(reader).stream().len() <= old(reader).stream().len(),
            r matches Ok(k) ==> k <= old(reader).stream().len(),
            r matches Ok(k) ==> final(self).data() == old(self).data() + old(reader).stream().take(k as int)
                && final(reader).stream() == old(reader).stream().skip(k as int),
            r matches Ok(k) ==> {
                &&& final(self).data().len() == old(self).data().len() + k
                &&& final(self).data().take(old(self).data().len() as int) == old(self).data()
                &&& final(self).at_eof() == (old(self).at_eof() || (k == 0 && old(self).data().len() < old(self).cap()))
                &&& (k == 0 && !final(self).at_eof()) ==> old(self).data().len() == old(self).cap()
            },
            !old(self).at_eof() && old(self).data().len() == old(self).cap() ==> r == Ok::<usize, SourceError>(0)
                && final(self).data() == old(self).data() && final(reader).stream() == old(reader).stream(),
            final(reader).never_fails() == old(reader).never_fails(),
            old(reader).never_fails() ==> r is Ok,
            final(reader).fills_room() == old(reader).fills_room(),
            old(reader).fills_room() && !old(self).at_eof() ==> (r matches Ok(k) ==> k == (
            if old(self).room() < old(reader).stream().len() {
                old(self).room()
            } else {
                old(reader).stream().len() as int
            })),
    {
        if self.eof {
            return Ok(0);
        }
        let ghost old_data = self.data();
        if self.end == self.buf.len() {
            if self.start > 0 {
                let len = self.end - self.start;
                let mut i: usize = 0;
                let ghost orig = self.buf@;
                while i < len
                    invariant
                        i <= len,
                        len == self.end - self.start,
                        self.start > 0,
                        !self.eof,
                        self.start <= self.end <= self.buf@.len(),
                        self.buf@.len() == orig.len(),
                        orig.subrange(self.start as int, self.end as int) == old_data,
                        forall|j: int| 0 <= j < i ==> self.buf@[j] == old_data[j],
                        forall|j: int| i + self.start <= j < orig.len() ==> self.buf@[j] == orig[j],
                    decreases len - i,
                {
                    let b = self.buf[self.start + i];
                    self.buf.set(i, b);
                    i += 1;
                }
                self.start = 0;
                self.end = len;
                assert(self.data() =~= old_data);
            } else {
                assert(self.data().take(old_data.len() as int) =~= old_data);
                return Ok(0);
            }
        }
        let end = self.end;
        assert(end < self.buf@.len());
        assert(old_data.len() < self.buf@.len());
        let ghost before = self.buf@;
        let res = reader.read_into(&mut self.buf, end);
        assert(self.buf@.subrange(0, end as int) == before.subrange(0, end as int));
        assert forall|j: int| self.start <= j < end implies self.buf@[j] == before[j] by {
            assert(self.buf@.subrange(0, end as int)[j] == before.subrange(0, end as int)[j]);
        }
        assert(old_data =~= before.subrange(self.start as int, end as int));
        assert(self.data() =~= old_data);
        match res {
            Ok(n) => {
                if n == 0 {
                    self.eof = true;
                    assert(self.data().take(old_data.len() as int) =~= old_data);
                    Ok(0)
                } else {
                    self.end = end + n;
                    assert(self.data().take(old_data.len() as int) =~= old_data);
                    Ok(n)
                }
            },
            Err(e) => Err(e),
        }
    }
}

} // verus!
