//! Scratch buffers with bounded capacity for the token kinds of the parser.

use vstd::prelude::*;

verus! {

/// The room left under `limit` when `len` bytes are held.
pub open spec fn room(len: int, limit: int) -> int {
    if limit > len { limit - len } else { 0 }
}

/// How many of `data_len` bytes fit when `len` bytes are held under `limit`.
pub open spec fn fit_len(data_len: int, len: int, limit: int) -> int {
    if data_len < room(len, limit) { data_len } else { room(len, limit) }
}

/// `new` is `old` with as much of `data` appended as fits under `limit`, and
/// `r` says how much was copied and whether the rest was cut off.
pub open spec fn bounded_push(old: Seq<u8>, new: Seq<u8>, limit: int, data: Seq<u8>, r: (usize, bool)) -> bool {
    let n = fit_len(data.len() as int, old.len() as int, limit);
    &&& r.0 == n
    &&& r.1 == (n < data.len())
    &&& new == old + data.take(n)
}

/// Append to `v` the part of `data` that fits under `limit`.
fn push_bounded(v: &mut Vec<u8>, limit: usize, data: &[u8]) -> (r: (usize, bool))
    ensures
        bounded_push(old(v)@, final(v)@, limit as int, data@, r),
{
    let rem = ScratchBuffers::remaining_capacity(v.len(), limit);
    let to_copy = if data.len() < rem { data.len() } else { rem };
    let truncated = to_copy < data.len();
    let mut i: usize = 0;
    let ghost start = v@;
    while i < to_copy
        invariant
            i <= to_copy <= data@.len(),
            v@ == start + data@.take(i as int),
        decreases to_copy - i,
    {
        v.push(data[i]);
        i += 1;
        assert(v@ =~= start + data@.take(i as int));
    }
    (to_copy, truncated)
}

/// Scratch buffers with bounded capacity for various token kinds. Each buffer
/// is filled by the `push_*` methods only up to its limit.
pub struct ScratchBuffers {
    pub name: Vec<u8>,
    pub attr_name: Vec<u8>,
    pub attr_value: Vec<u8>,
    pub text: Vec<u8>,
    pub comment: Vec<u8>,
    pub cdata: Vec<u8>,
    pub pi: Vec<u8>,
    pub name_limit: usize,
    pub attr_name_limit: usize,
    pub attr_value_limit: usize,
    pub text_limit: usize,
    pub comment_limit: usize,
    pub cdata_limit: usize,
    pub pi_limit: usize,
}

impl ScratchBuffers {

    /// No buffer holds more than its limit.
    pub open spec fn wf(&self) -> bool {
        &&& self.name@.len() <= self.name_limit
        &&& self.attr_name@.len() <= self.attr_name_limit
        &&& self.attr_value@.len() <= self.attr_value_limit
        &&& self.text@.len() <= self.text_limit
        &&& self.comment@.len() <= self.comment_limit
        &&& self.cdata@.len() <= self.cdata_limit
        &&& self.pi@.len() <= self.pi_limit
    }

    /// The seven limits are those of `other`.
    pub open spec fn same_caps(&self, other: &Self) -> bool {
        &&& self.name_limit == other.name_limit
        &&& self.attr_name_limit == other.attr_name_limit
        &&& self.attr_value_limit == other.attr_value_limit
        &&& self.text_limit == other.text_limit
        &&& self.comment_limit == other.comment_limit
        &&& self.cdata_limit == other.cdata_limit
        &&& self.pi_limit == other.pi_limit
    }

    /// Empty buffers with the given limits.
    pub fn with_limits(
        name: usize,
        attr_name: usize,
        attr_value: usize,
        text: usize,
        comment: usize,
        cdata: usize,
        pi: usize,
    ) -> (s: Self)
        ensures
            s.name@.len() == 0 && s.attr_name@.len() == 0 && s.attr_value@.len() == 0,
            s.text@.len() == 0 && s.comment@.len() == 0 && s.cdata@.len() == 0 && s.pi@.len() == 0,
            s.name_limit == name,
            s.attr_name_limit == attr_name,
            s.attr_value_limit == attr_value,
            s.text_limit == text,
            s.comment_limit == comment,
            s.cdata_limit == cdata,
            s.pi_limit == pi,
            s.wf(),
    {
        ScratchBuffers {
            name: Vec::with_capacity(name),
            attr_name: Vec::with_capacity(attr_name),
            attr_value: Vec::with_capacity(attr_value),
            text: Vec::with_capacity(text),
            comment: Vec::with_capacity(comment),
            cdata: Vec::with_capacity(cdata),
            pi: Vec::with_capacity(pi),
            name_limit: name,
            attr_name_limit: attr_name,
            attr_value_limit: attr_value,
            text_limit: text,
            comment_limit: comment,
            cdata_limit: cdata,
            pi_limit: pi,
        }
    }

    /// Empty every buffer, keeping the limits.
    pub fn clear_all(&mut self)
        ensures
            final(self).name@.len() == 0 && final(self).attr_name@.len() == 0,
            final(self).attr_value@.len() == 0 && final(self).text@.len() == 0,
            final(self).comment@.len() == 0 && final(self).cdata@.len() == 0,
            final(self).pi@.len() == 0,
            final(self).same_caps(old(self)),
            final(self).wf(),
    {
        self.name.clear();
        self.attr_name.clear();
        self.attr_value.clear();
        self.text.clear();
        self.comment.clear();
        self.cdata.clear();
        self.pi.clear();
    }

    /// Room left under `limit` when `len` bytes are held (zero when full).
    fn remaining_capacity(len: usize, limit: usize) -> (r: usize)
        ensures
            r == room(len as int, limit as int),
    {
        if limit > len { limit - len } else { 0 }
    }

    /// Room left in the `name` buffer.
    pub fn remaining_name_capacity(&self) -> (r: usize)
        ensures
            r == room(self.name@.len() as int, self.name_limit as int),
    {
        Self::remaining_capacity(self.name.len(), self.name_limit)
    }

    /// Room left in the `attr_name` buffer.
    pub fn remaining_attr_name_capacity(&self) -> (r: usize)
        ensures
            r == room(self.attr_name@.len() as int, self.attr_name_limit as int),
    {
        Self::remaining_capacity(self.attr_name.len(), self.attr_name_limit)
    }

    /// Room left in the `attr_value` buffer.
    pub fn remaining_attr_value_capacity(&self) -> (r: usize)
        ensures
            r == room(self.attr_value@.len() as int, self.attr_value_limit as int),
    {
        Self::remaining_capacity(self.attr_value.len(), self.attr_value_limit)
    }

    /// Push into the `name` buffer, truncating to its room. Returns the number
    /// of bytes copied and whether `data` was cut.
    pub fn push_name(&mut self, data: &[u8]) -> (r: (usize, bool))
        ensures
            bounded_push(old(self).name@, final(self).name@, old(self).name_limit as int, data@, r),
            final(self).attr_name == old(self).attr_name && final(self).attr_value == old(self).attr_value,
            final(self).text == old(self).text && final(self).comment == old(self).comment,
            final(self).cdata == old(self).cdata && final(self).pi == old(self).pi,
            final(self).same_caps(old(self)),
            old(self).wf() ==> final(self).wf(),
    {
        push_bounded(&mut self.name, self.name_limit, data)
    }

    /// Push into the `attr_name` buffer, truncating to its room.
    pub fn push_attr_name(&mut self, data: &[u8]) -> (r: (usize, bool))
        ensures
            bounded_push(old(self).attr_name@, final(self).attr_name@, old(self).attr_name_limit as int, data@, r),
            final(self).name == old(self).name && final(self).attr_value == old(self).attr_value,
            final(self).text == old(self).text && final(self).comment == old(self).comment,
            final(self).cdata == old(self).cdata && final(self).pi == old(self).pi,
            final(self).same_caps(old(self)),
            old(self).wf() ==> final(self).wf(),
    {
        push_bounded(&mut self.attr_name, self.attr_name_limit, data)
    }

    /// Push into the `attr_value` buffer, truncating to its room.
    pub fn push_attr_value(&mut self, data: &[u8]) -> (r: (usize, bool))
        ensures
            bounded_push(old(self).attr_value@, final(self).attr_value@, old(self).attr_value_limit as int, data@, r),
            final(self).name == old(self).name && final(self).attr_name == old(self).attr_name,
            final(self).text == old(self).text && final(self).comment == old(self).comment,
            final(self).cdata == old(self).cdata && final(self).pi == old(self).pi,
            final(self).same_caps(old(self)),
            old(self).wf() ==> final(self).wf(),
    {
        push_bounded(&mut self.attr_value, self.attr_value_limit, data)
    }

    /// Push into the `text` buffer, truncating to its room.
    pub fn push_text_chunk(&mut self, data: &[u8]) -> (r: (usize, bool))
        ensures
            bounded_push(old(self).text@, final(self).text@, old(self).text_limit as int, data@, r),
            final(self).name == old(self).name && final(self).attr_name == old(self).attr_name,
            final(self).attr_value == old(self).attr_value && final(self).comment == old(self).comment,
            final(self).cdata == old(self).cdata && final(self).pi == old(self).pi,
            final(self).same_caps(old(self)),
            old(self).wf() ==> final(self).wf(),
    {
        push_bounded(&mut self.text, self.text_limit, data)
    }

    /// Push into the `comment` buffer, truncating to its room.
    pub fn push_comment_chunk(&mut self, data: &[u8]) -> (r: (usize, bool))
        ensures
            bounded_push(old(self).comment@, final(self).comment@, old(self).comment_limit as int, data@, r),
            final(self).name == old(self).name && final(self).attr_name == old(self).attr_name,
            final(self).attr_value == old(self).attr_value && final(self).text == old(self).text,
            final(self).cdata == old(self).cdata && final(self).pi == old(self).pi,
            final(self).same_caps(old(self)),
            old(self).wf() ==> final(self).wf(),
    {
        push_bounded(&mut self.comment, self.comment_limit, data)
    }

    /// Push into the `cdata` buffer, truncating to its room.
    pub fn push_cdata_chunk(&mut self, data: &[u8]) -> (r: (usize, bool))
        ensures
            bounded_push(old(self).cdata@, final(self).cdata@, old(self).cdata_limit as int, data@, r),
            final(self).name == old(self).name && final(self).attr_name == old(self).attr_name,
            final(self).attr_value == old(self).attr_value && final(self).text == old(self).text,
            final(self).comment == old(self).comment && final(self).pi == old(self).pi,
            final(self).same_caps(old(self)),
            old(self).wf() ==> final(self).wf(),
    {
        push_bounded(&mut self.cdata, self.cdata_limit, data)
    }

    /// Push into the `pi` buffer, truncating to its room.
    pub fn push_pi_chunk(&mut self, data: &[u8]) -> (r: (usize, bool))
        ensures
            bounded_push(old(self).pi@, final(self).pi@, old(self).pi_limit as int, data@, r),
            final(self).name == old(self).name && final(self).attr_name == old(self).attr_name,
            final(self).attr_value == old(self).attr_value && final(self).text == old(self).text,
            final(self).comment == old(self).comment && final(self).cdata == old(self).cdata,
            final(self).same_caps(old(self)),
            old(self).wf() ==> final(self).wf(),
    {
        push_bounded(&mut self.pi, self.pi_limit, data)
    }
}

} // verus!
