//! Attribute storage: offsets into the input or scratch buffers, and the
//! resolved `(name, value)` view handed to callers.

use vstd::prelude::*;
use crate::scratch::ScratchBuffers;

verus! {

/// Which buffer an attribute name or value lives in.
#[derive(Clone, Copy, Debug, PartialEq, Eq, Structural)]
pub enum NameBufferKind {
    Input,
    NameScratch,
    AttrNameScratch,
    AttrValueScratch,
}

/// An attribute recorded as buffer kinds, offsets and lengths.
#[derive(Clone, Copy, Debug, PartialEq, Eq, Structural)]
pub struct InternalAttribute {
    pub name_buffer: NameBufferKind,
    pub name_start: usize,
    pub name_len: usize,
    pub value_buffer: NameBufferKind,
    pub value_start: usize,
    pub value_len: usize,
}

/// The attributes of the current start tag.
pub struct AttributeTable {
    pub entries: Vec<InternalAttribute>,
    pub capacity: usize,
}

impl AttributeTable {
    /// An empty table meant for at most `cap` entries.
    pub fn with_capacity(cap: usize) -> (t: Self)
        ensures
            t.entries@.len() == 0,
            t.capacity == cap,
    {
        AttributeTable { entries: Vec::with_capacity(cap), capacity: cap }
    }

    /// The number of entries.
    pub fn len(&self) -> (r: usize)
        ensures
            r == self.entries@.len(),
    {
        self.entries.len()
    }

    /// Remove every entry.
    pub fn clear(&mut self)
        ensures
            final(self).entries@.len() == 0,
            final(self).capacity == old(self).capacity,
    {
        self.entries.clear();
    }

    /// The entries.
    pub fn as_slice(&self) -> (r: &[InternalAttribute])
        ensures
            r@ == self.entries@,
    {
        self.entries.as_slice()
    }
}

/// The bytes of buffer `kind` in `input` or `scratch`.
pub open spec fn buffer_of(kind: NameBufferKind, input: Seq<u8>, scratch: ScratchBuffers) -> Seq<u8> {
    match kind {
        NameBufferKind::Input => input,
        NameBufferKind::NameScratch => scratch.name@,
        NameBufferKind::AttrNameScratch => scratch.attr_name@,
        NameBufferKind::AttrValueScratch => scratch.attr_value@,
    }
}

/// The bytes `start..start + len` of `buf`, or nothing when that range is not
/// inside `buf`.
pub open spec fn range_or_empty(buf: Seq<u8>, start: int, len: int) -> Seq<u8> {
    if 0 <= start && 0 <= len && start + len <= buf.len() {
        buf.subrange(start, start + len)
    } else {
        Seq::<u8>::empty()
    }
}

/// The bytes an attribute name or value points at.
pub open spec fn resolve_spec(kind: NameBufferKind, start: int, len: int, input: Seq<u8>, scratch: ScratchBuffers) -> Seq<u8> {
    range_or_empty(buffer_of(kind, input, scratch), start, len)
}

/// The bytes `start..start + len` of `buf`, or nothing when out of range.
fn resolve_in(buf: &[u8], start: usize, len: usize) -> (r: Vec<u8>)
    ensures
        r@ == range_or_empty(buf@, start as int, len as int),
{
    if start <= buf.len() && len <= buf.len() - start {
        crate::tokenizer::copy_range(buf, start, start + len)
    } else {
        Vec::new()
    }
}

/// Copy the bytes that an attribute name or value points at.
fn resolve(kind: NameBufferKind, start: usize, len: usize, input: &[u8], scratch: &ScratchBuffers) -> (r: Vec<u8>)
    ensures
        r@ == resolve_spec(kind, start as int, len as int, input@, *scratch),
{
    match kind {
        NameBufferKind::Input => resolve_in(input, start, len),
        NameBufferKind::NameScratch => resolve_in(scratch.name.as_slice(), start, len),
        NameBufferKind::AttrNameScratch => resolve_in(scratch.attr_name.as_slice(), start, len),
        NameBufferKind::AttrValueScratch => resolve_in(scratch.attr_value.as_slice(), start, len),
    }
}

/// The attributes of a start element as `(name, value)` byte pairs.
pub struct Attributes {
    pairs: Vec<(Vec<u8>, Vec<u8>)>,
}

impl Attributes {
    /// The `(name, value)` pairs in order.
    pub closed spec fn pairs_view(&self) -> Seq<(Seq<u8>, Seq<u8>)> {
        self.pairs.deep_view()
    }

    /// No attributes.
    pub fn empty() -> (a: Self)
        ensures
            a.pairs_view().len() == 0,
    {
        Attributes { pairs: Vec::new() }
    }

    /// The given pairs.
    pub fn from_pairs(pairs: Vec<(Vec<u8>, Vec<u8>)>) -> (a: Self)
        ensures
            a.pairs_view() == pairs.deep_view(),
    {
        Attributes { pairs }
    }

    /// Resolve each entry against the input and scratch buffers; an entry whose
    /// range lies outside its buffer resolves to empty bytes.
    pub fn from_parts(entries: &[InternalAttribute], input: &[u8], scratch: &ScratchBuffers) -> (a: Self)
        ensures
            a.pairs_view().len() == entries@.len(),
            forall|i: int| 0 <= i < entries@.len() ==> #[trigger] a.pairs_view()[i] == (
                resolve_spec(entries@[i].name_buffer, entries@[i].name_start as int, entries@[i].name_len as int, input@, *scratch),
                resolve_spec(entries@[i].value_buffer, entries@[i].value_start as int, entries@[i].value_len as int, input@, *scratch),
            ),
    {
        let mut pairs: Vec<(Vec<u8>, Vec<u8>)> = Vec::new();
        let mut i: usize = 0;
        while i < entries.len()
            invariant
                i <= entries@.len(),
                pairs@.len() == i,
                forall|j: int| 0 <= j < i ==> #[trigger] pairs.deep_view()[j] == (
                    resolve_spec(entries@[j].name_buffer, entries@[j].name_start as int, entries@[j].name_len as int, input@, *scratch),
                    resolve_spec(entries@[j].value_buffer, entries@[j].value_start as int, entries@[j].value_len as int, input@, *scratch),
                ),
            decreases entries.len() - i,
        {
            let e = entries[i];
            let name = resolve(e.name_buffer, e.name_start, e.name_len, input, scratch);
            let value = resolve(e.value_buffer, e.value_start, e.value_len, input, scratch);
            assert(name.deep_view() =~= name@);
            assert(value.deep_view() =~= value@);
            let ghost before = pairs@;
            let ghost before_dv = pairs.deep_view();
            pairs.push((name, value));
            assert forall|j: int| 0 <= j < i + 1 implies #[trigger] pairs.deep_view()[j] == (
                resolve_spec(entries@[j].name_buffer, entries@[j].name_start as int, entries@[j].name_len as int, input@, *scratch),
                resolve_spec(entries@[j].value_buffer, entries@[j].value_start as int, entries@[j].value_len as int, input@, *scratch),
            ) by {
                if j < i {
                    assert(pairs@[j] == before[j]);
                    assert(pairs.deep_view()[j] == before_dv[j]);
                } else {
                    assert(pairs.deep_view()[j] == (name.deep_view(), value.deep_view()));
                }
            }
            i += 1;
        }
        Attributes { pairs }
    }

    /// The number of attributes.
    pub fn len(&self) -> (r: usize)
        ensures
            r == self.pairs_view().len(),
    {
        self.pairs.len()
    }

    /// Whether there are no attributes.
    pub fn is_empty(&self) -> (r: bool)
        ensures
            r == (self.pairs_view().len() == 0),
    {
        self.pairs.len() == 0
    }

    /// The attribute at `idx`, as `(name, value)` bytes.
    pub fn get(&self, idx: usize) -> (r: Option<(&[u8], &[u8])>)
        ensures
            idx >= self.pairs_view().len() ==> r is None,
            idx < self.pairs_view().len() ==> (r matches Some((n, v)) && n@ == self.pairs_view()[idx as int].0
                && v@ == self.pairs_view()[idx as int].1),
    {
        if idx < self.pairs.len() {
            let p = &self.pairs[idx];
            proof {
                assert(p.0.deep_view() =~= p.0@);
                assert(p.1.deep_view() =~= p.1@);
            }
            Some((p.0.as_slice(), p.1.as_slice()))
        } else {
            None
        }
    }
}

} // verus!
