//! Events that point into the input where they can: names, text and
//! attribute values are borrowed slices of the input, and only a value whose
//! entity references were decoded owns its bytes.

use vstd::prelude::*;
use std::sync::Arc;
use smallvec::SmallVec;
use crate::parser::{ErrorCode, EventType};
use crate::slice_parser::bytes_eq;

verus! {

/// The `(name, value)` pairs of a start element, held inline in a
/// `smallvec::SmallVec` up to eight pairs and on the heap beyond that.
#[verifier::external_body]
#[derive(Debug)]
pub struct PairStore<'data> {
    inner: SmallVec<[(AttrSlice<'data>, AttrSlice<'data>); 8]>,
}

/// The bytes of the pairs that a store holds, in the order they were pushed.
pub uninterp spec fn stored_pairs(store: PairStore) -> Seq<(Seq<u8>, Seq<u8>)>;

impl<'data> Clone for PairStore<'data> {
    /// Calls `SmallVec::clone`, which clones each pair in order.
    #[verifier::external_body]
    fn clone(&self) -> (r: Self)
        ensures
            stored_pairs(r) == stored_pairs(*self),
    {
        PairStore { inner: self.inner.clone() }
    }
}

/// Calls `SmallVec::new`, which makes an empty vector.
#[verifier::external_body]
fn store_new<'data>() -> (r: PairStore<'data>)
    ensures
        stored_pairs(r) == Seq::<(Seq<u8>, Seq<u8>)>::empty(),
{
    PairStore { inner: SmallVec::new() }
}

/// The bytes of a name, a text or an attribute value: either a slice of the
/// input, or bytes of its own after entity references were decoded.
#[derive(Debug, Clone)]
pub enum AttrSlice<'data> {
    Direct(&'data [u8]),
    Decoded(Arc<[u8]>),
}

impl<'data> View for AttrSlice<'data> {
    type V = Seq<u8>;

    open spec fn view(&self) -> Seq<u8> {
        match self {
            AttrSlice::Direct(s) => s@,
            AttrSlice::Decoded(a) => (**a)@,
        }
    }
}

/// Calls `Arc::<[u8]>::from` on a vector, which moves its bytes into a new
/// shared allocation holding the same bytes.
#[verifier::external_body]
fn shared_bytes(data: Vec<u8>) -> (r: Arc<[u8]>)
    ensures
        (*r)@ == data@,
{
    Arc::from(data)
}

impl<'data> AttrSlice<'data> {
    /// Whether the bytes are borrowed (a slice of the input or of the arena)
    /// rather than held in an allocation of their own.
    pub open spec fn is_borrowed(&self) -> bool {
        self is Direct
    }

    /// A slice of the input, used as it is.
    pub fn direct(slice: &'data [u8]) -> (r: Self)
        ensures
            r == AttrSlice::Direct(slice),
            r@ == slice@,
    {
        AttrSlice::Direct(slice)
    }

    /// Bytes of its own, such as a value after entity decoding.
    pub fn decoded(data: Vec<u8>) -> (r: Self)
        ensures
            r is Decoded,
            r@ == data@,
    {
        AttrSlice::Decoded(shared_bytes(data))
    }

    /// The bytes, wherever they are held.
    pub fn as_bytes(&self) -> (r: &[u8])
        ensures
            r@ == self@,
    {
        match self {
            AttrSlice::Direct(slice) => slice,
            AttrSlice::Decoded(arc) => &**arc,
        }
    }
}

/// Calls `SmallVec::with_capacity`, which makes an empty vector with room
/// for `capacity` pairs. It panics when the room asked for cannot be laid
/// out, which the bound on `capacity` rules out (a pair takes well under 64
/// bytes).
#[verifier::external_body]
fn store_with_capacity<'data>(capacity: usize) -> (r: PairStore<'data>)
    requires
        capacity as int * 64 <= isize::MAX as int,
    ensures
        stored_pairs(r) == Seq::<(Seq<u8>, Seq<u8>)>::empty(),
{
    PairStore { inner: SmallVec::with_capacity(capacity) }
}

/// Calls `SmallVec::push`, which appends the pair. It panics when the
/// grown storage cannot be laid out, which the bound on the length rules out.
#[verifier::external_body]
fn store_push<'data>(store: &mut PairStore<'data>, name: AttrSlice<'data>, value: AttrSlice<'data>)
    requires
        (stored_pairs(*old(store)).len() + 1) * 128 <= isize::MAX as int,
    ensures
        stored_pairs(*final(store)) == stored_pairs(*old(store)).push((name@, value@)),
{
    store.inner.push((name, value))
}

/// Calls `SmallVec::len`, the number of pairs held.
#[verifier::external_body]
fn store_len(store: &PairStore) -> (r: usize)
    ensures
        r == stored_pairs(*store).len(),
{
    store.inner.len()
}

/// Calls `SmallVec::as_slice`, which lends the pairs in order.
#[verifier::external_body]
fn store_as_slice<'s, 'data>(store: &'s PairStore<'data>) -> (r: &'s [(AttrSlice<'data>, AttrSlice<'data>)])
    ensures
        r@.len() == stored_pairs(*store).len(),
        forall|i: int| 0 <= i < r@.len() ==> (#[trigger] r@[i]).0@ == stored_pairs(*store)[i].0
            && r@[i].1@ == stored_pairs(*store)[i].1,
{
    store.inner.as_slice()
}

/// Calls `SmallVec::clear`, which removes every pair.
#[verifier::external_body]
fn store_clear(store: &mut PairStore)
    ensures
        stored_pairs(*final(store)) == Seq::<(Seq<u8>, Seq<u8>)>::empty(),
{
    store.inner.clear()
}

/// The longest run of pairs a collection can be made to hold.
pub open spec fn pair_room() -> int {
    isize::MAX as int / 128 - 1
}

/// The value of the first pair named `name`, looking from index `i` on.
pub open spec fn find_from(pairs: Seq<(Seq<u8>, Seq<u8>)>, name: Seq<u8>, i: int) -> Option<Seq<u8>>
    decreases pairs.len() - i,
{
    if i < 0 || i >= pairs.len() {
        None
    } else if pairs[i].0 == name {
        Some(pairs[i].1)
    } else {
        find_from(pairs, name, i + 1)
    }
}

/// The attributes of a start element, as `(name, value)` pairs in document
/// order.
#[derive(Debug, Clone)]
pub struct ZeroCopyAttributes<'data> {
    attrs: PairStore<'data>,
}

impl<'data> ZeroCopyAttributes<'data> {
    /// The bytes of the pairs, in order.
    pub closed spec fn pairs_view(&self) -> Seq<(Seq<u8>, Seq<u8>)> {
        stored_pairs(self.attrs)
    }

    /// An empty collection.
    pub fn new() -> (r: Self)
        ensures
            r.pairs_view() == Seq::<(Seq<u8>, Seq<u8>)>::empty(),
    {
        ZeroCopyAttributes { attrs: store_new() }
    }

    /// An empty collection with room for `capacity` pairs.
    pub fn with_capacity(capacity: usize) -> (r: Self)
        requires
            capacity as int * 64 <= isize::MAX as int,
        ensures
            r.pairs_view() == Seq::<(Seq<u8>, Seq<u8>)>::empty(),
    {
        ZeroCopyAttributes { attrs: store_with_capacity(capacity) }
    }

    /// Append the pair `(name, value)`.
    pub fn push(&mut self, name: AttrSlice<'data>, value: AttrSlice<'data>)
        requires
            old(self).pairs_view().len() < pair_room(),
        ensures
            final(self).pairs_view() == old(self).pairs_view().push((name@, value@)),
    {
        store_push(&mut self.attrs, name, value)
    }

    /// The number of pairs.
    pub fn len(&self) -> (r: usize)
        ensures
            r == self.pairs_view().len(),
    {
        store_len(&self.attrs)
    }

    /// Whether there are no pairs.
    pub fn is_empty(&self) -> (r: bool)
        ensures
            r == (self.pairs_view().len() == 0),
    {
        store_len(&self.attrs) == 0
    }

    /// The pair at `index`, if there is one.
    pub fn get(&self, index: usize) -> (r: Option<(&[u8], &[u8])>)
        ensures
            match r {
                Some(p) => index < self.pairs_view().len() && p.0@ == self.pairs_view()[index as int].0
                    && p.1@ == self.pairs_view()[index as int].1,
                None => index >= self.pairs_view().len(),
            },
    {
        let pairs = store_as_slice(&self.attrs);
        if index < pairs.len() {
            let pair = &pairs[index];
            Some((pair.0.as_bytes(), pair.1.as_bytes()))
        } else {
            None
        }
    }

    /// The pairs as byte slices, in order.
    pub fn iter(&self) -> (r: Vec<(&[u8], &[u8])>)
        ensures
            r@.len() == self.pairs_view().len(),
            forall|i: int| 0 <= i < r@.len() ==> (#[trigger] r@[i]).0@ == self.pairs_view()[i].0
                && r@[i].1@ == self.pairs_view()[i].1,
    {
        let pairs = store_as_slice(&self.attrs);
        let mut out: Vec<(&[u8], &[u8])> = Vec::new();
        let mut i: usize = 0;
        while i < pairs.len()
            invariant
                i <= pairs@.len(),
                pairs@.len() == self.pairs_view().len(),
                forall|k: int| 0 <= k < pairs@.len() ==> (#[trigger] pairs@[k]).0@ == self.pairs_view()[k].0
                    && pairs@[k].1@ == self.pairs_view()[k].1,
                out@.len() == i,
                forall|k: int| 0 <= k < i ==> (#[trigger] out@[k]).0@ == self.pairs_view()[k].0
                    && out@[k].1@ == self.pairs_view()[k].1,
            decreases pairs.len() - i,
        {
            let pair = &pairs[i];
            out.push((pair.0.as_bytes(), pair.1.as_bytes()));
            i += 1;
        }
        out
    }

    /// The value of the first pair named `target_name`, if any.
    pub fn find(&self, target_name: &[u8]) -> (r: Option<&[u8]>)
        ensures
            match r {
                Some(v) => find_from(self.pairs_view(), target_name@, 0) == Some(v@),
                None => find_from(self.pairs_view(), target_name@, 0) is None,
            },
    {
        let pairs = store_as_slice(&self.attrs);
        let mut i: usize = 0;
        while i < pairs.len()
            invariant
                i <= pairs@.len(),
                pairs@.len() == self.pairs_view().len(),
                forall|k: int| 0 <= k < pairs@.len() ==> (#[trigger] pairs@[k]).0@ == self.pairs_view()[k].0
                    && pairs@[k].1@ == self.pairs_view()[k].1,
                find_from(self.pairs_view(), target_name@, 0) == find_from(self.pairs_view(), target_name@, i as int),
            decreases pairs.len() - i,
        {
            let pair = &pairs[i];
            let name = pair.0.as_bytes();
            if bytes_eq(name, target_name) {
                return Some(pair.1.as_bytes());
            }
            i += 1;
        }
        None
    }

    /// Remove every pair.
    pub fn clear(&mut self)
        ensures
            final(self).pairs_view() == Seq::<(Seq<u8>, Seq<u8>)>::empty(),
    {
        store_clear(&mut self.attrs)
    }
}

impl<'data> Default for ZeroCopyAttributes<'data> {
    fn default() -> (r: Self)
        ensures
            r.pairs_view() == Seq::<(Seq<u8>, Seq<u8>)>::empty(),
    {
        ZeroCopyAttributes::new()
    }
}

/// An event whose bytes point into the input where they can.
#[derive(Debug, Clone)]
pub struct ZeroCopyEvent<'data> {
    pub event_type: EventType,
    /// The element name, text, comment, CDATA or processing-instruction content.
    pub data: AttrSlice<'data>,
    pub is_continuation: bool,
    /// The fault code of a `Fault`.
    pub error: Option<ErrorCode>,
    /// The attributes of a start element.
    pub attributes: ZeroCopyAttributes<'data>,
}

impl<'data> ZeroCopyEvent<'data> {
    /// An event made of its parts.
    pub fn new(
        event_type: EventType,
        data: AttrSlice<'data>,
        is_continuation: bool,
        error: Option<ErrorCode>,
        attributes: ZeroCopyAttributes<'data>,
    ) -> (r: Self)
        ensures
            r.event_type == event_type,
            r.data == data,
            r.is_continuation == is_continuation,
            r.error == error,
            r.attributes == attributes,
    {
        ZeroCopyEvent { event_type, data, is_continuation, error, attributes }
    }

    /// The event's bytes, wherever they are held.
    pub fn data_bytes(&self) -> (r: &[u8])
        ensures
            r@ == self.data@,
    {
        self.data.as_bytes()
    }
}

} // verus!

verus! {

/// Looking up a name after appending a pair finds the earlier pair of that
/// name if there is one, and the appended value otherwise; other names are
/// found as before.
pub proof fn law_find_after_push(pairs: Seq<(Seq<u8>, Seq<u8>)>, name: Seq<u8>, value: Seq<u8>, target: Seq<u8>)
    ensures
        find_from(pairs.push((name, value)), target, 0) == (match find_from(pairs, target, 0) {
            Some(v) => Some(v),
            None => if target == name { Some(value) } else { None },
        }),
{
    lemma_find_push(pairs, name, value, target, 0);
}

proof fn lemma_find_push(pairs: Seq<(Seq<u8>, Seq<u8>)>, name: Seq<u8>, value: Seq<u8>, target: Seq<u8>, i: int)
    requires
        0 <= i,
    ensures
        find_from(pairs.push((name, value)), target, i) == (match find_from(pairs, target, i) {
            Some(v) => Some(v),
            None => if i <= pairs.len() && target == name { Some(value) } else { None },
        }),
    decreases pairs.len() + 1 - i,
{
    let p2 = pairs.push((name, value));
    if i < pairs.len() {
        assert(p2[i] == pairs[i]);
        lemma_find_push(pairs, name, value, target, i + 1);
    } else if i == pairs.len() {
        assert(p2[i] == (name, value));
        assert(find_from(p2, target, i + 1) is None);
    }
}

} // verus!
