//! The stack of open elements; element names live in the `name` scratch buffer.

use vstd::prelude::*;
use crate::scratch::{ScratchBuffers, room};

verus! {

/// An open element: where its name sits in the `name` scratch buffer.
#[derive(Clone, Copy, Debug, PartialEq, Eq, Structural)]
pub struct ElementFrame {
    pub name_start: usize,
    pub name_len: usize,
}

/// A depth-bounded stack of open elements.
pub struct ElementStack {
    frames: Vec<ElementFrame>,
    capacity: usize,
}

/// The smaller of three integers.
pub open spec fn min3(a: int, b: int, c: int) -> int {
    let ab = if a < b { a } else { b };
    if ab < c { ab } else { c }
}

/// `new` is `old` with only the `name` buffer changed.
pub open spec fn only_name_changed(old: ScratchBuffers, new: ScratchBuffers) -> bool {
    &&& new.attr_name == old.attr_name
    &&& new.attr_value == old.attr_value
    &&& new.text == old.text
    &&& new.comment == old.comment
    &&& new.cdata == old.cdata
    &&& new.pi == old.pi
    &&& new.same_caps(&old)
}

impl ElementStack {
    /// The open elements, outermost first.
    pub closed spec fn frames_view(&self) -> Seq<ElementFrame> {
        self.frames@
    }

    /// The depth limit.
    pub closed spec fn depth_limit(&self) -> int {
        self.capacity as int
    }

    /// An empty stack holding at most `cap` elements.
    pub fn with_capacity(cap: usize) -> (s: Self)
        ensures
            s.frames_view().len() == 0,
            s.depth_limit() == cap,
    {
        ElementStack { frames: Vec::with_capacity(cap), capacity: cap }
    }

    /// The number of open elements.
    pub fn len(&self) -> (r: usize)
        ensures
            r == self.frames_view().len(),
    {
        self.frames.len()
    }

    /// Push a name by copying it into `scratch.name`, truncated to
    /// `max_name_len` and to the room left there. Returns `Err(())` if the
    /// depth limit would be exceeded, changing nothing.
    pub fn push_name(&mut self, scratch: &mut ScratchBuffers, name: &[u8], max_name_len: usize) -> (r: Result<(), ()>)
        ensures
            old(self).depth_limit() == final(self).depth_limit(),
            old(self).frames_view().len() >= old(self).depth_limit() ==> {
                &&& r is Err
                &&& final(self).frames_view() == old(self).frames_view()
                &&& *final(scratch) == *old(scratch)
            },
            old(self).frames_view().len() < old(self).depth_limit() ==> {
                let n = min3(name@.len() as int, max_name_len as int,
                    room(old(scratch).name@.len() as int, old(scratch).name_limit as int));
                &&& r is Ok
                &&& final(scratch).name@ == old(scratch).name@ + name@.take(n)
                &&& only_name_changed(*old(scratch), *final(scratch))
                &&& final(self).frames_view() == old(self).frames_view().push(
                    ElementFrame { name_start: old(scratch).name@.len() as usize, name_len: n as usize },
                )
            },
    {
        if self.frames.len() >= self.capacity {
            return Err(());
        }
        let mut to_copy = name.len();
        if max_name_len < to_copy {
            to_copy = max_name_len;
        }
        let rem = scratch.remaining_name_capacity();
        if rem < to_copy {
            to_copy = rem;
        }
        let start = scratch.name.len();
        let _ = scratch.push_name(&name[0..to_copy]);
        assert(name@.subrange(0, to_copy as int) =~= name@.take(to_copy as int));
        let frame = ElementFrame { name_start: start, name_len: to_copy };
        self.frames.push(frame);
        Ok(())
    }

    /// Push a frame; `Err(())` if the depth limit would be exceeded.
    pub fn push(&mut self, frame: ElementFrame) -> (r: Result<(), ()>)
        ensures
            old(self).depth_limit() == final(self).depth_limit(),
            old(self).frames_view().len() >= old(self).depth_limit() ==> r is Err
                && final(self).frames_view() == old(self).frames_view(),
            old(self).frames_view().len() < old(self).depth_limit() ==> r is Ok
                && final(self).frames_view() == old(self).frames_view().push(frame),
    {
        if self.frames.len() >= self.capacity {
            return Err(());
        }
        self.frames.push(frame);
        Ok(())
    }

    /// Pop the innermost open element.
    pub fn pop(&mut self) -> (r: Option<ElementFrame>)
        ensures
            old(self).depth_limit() == final(self).depth_limit(),
            old(self).frames_view().len() == 0 ==> r is None && final(self).frames_view() == old(self).frames_view(),
            old(self).frames_view().len() > 0 ==> r == Some(old(self).frames_view().last())
                && final(self).frames_view() == old(self).frames_view().drop_last(),
    {
        self.frames.pop()
    }

    /// The innermost open element.
    pub fn top(&self) -> (r: Option<&ElementFrame>)
        ensures
            self.frames_view().len() == 0 ==> r is None,
            self.frames_view().len() > 0 ==> r == Some(&self.frames_view().last()),
    {
        if self.frames.len() == 0 {
            None
        } else {
            Some(&self.frames[self.frames.len() - 1])
        }
    }

    /// Drop from `scratch.name` every byte past the name of the innermost open
    /// element (everything, when no element is open).
    pub fn truncate_scratch(&self, scratch: &mut ScratchBuffers)
        ensures
            only_name_changed(*old(scratch), *final(scratch)),
            ({
                let keep = if self.frames_view().len() == 0 {
                    0int
                } else {
                    self.frames_view().last().name_start + self.frames_view().last().name_len
                };
                final(scratch).name@ == if keep < old(scratch).name@.len() {
                    old(scratch).name@.take(keep)
                } else {
                    old(scratch).name@
                }
            }),
    {
        let keep: usize = if self.frames.len() == 0 {
            0
        } else {
            let f = &self.frames[self.frames.len() - 1];
            if f.name_start > usize::MAX - f.name_len { usize::MAX } else { f.name_start + f.name_len }
        };
        if keep < scratch.name.len() {
            scratch.name.truncate(keep);
        }
    }
}

} // verus!
