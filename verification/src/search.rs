//! Byte searches over slices, done by the `memchr` crate, with their contracts.

use vstd::prelude::*;

verus! {

/// Byte values of the ASCII characters that the tokenizer looks at.
pub const SP: u8 = 0x20;
pub const TAB: u8 = 0x09;
pub const CR: u8 = 0x0d;
pub const LF: u8 = 0x0a;
pub const LT: u8 = 0x3c;
pub const GT: u8 = 0x3e;
pub const SLASH: u8 = 0x2f;
pub const EQ: u8 = 0x3d;
pub const QUOT: u8 = 0x22;
pub const APOS: u8 = 0x27;
pub const BANG: u8 = 0x21;
pub const QMARK: u8 = 0x3f;
pub const DASH: u8 = 0x2d;
pub const RBRACKET: u8 = 0x5d;
pub const LBRACKET: u8 = 0x5b;
pub const AMP: u8 = 0x26;
pub const SEMI: u8 = 0x3b;

/// The XML whitespace bytes: space, tab, carriage return and line feed.
pub open spec fn is_ws(b: u8) -> bool {
    b == SP || b == TAB || b == CR || b == LF
}

/// `r` is the index of the first `needle` in `hay`, or `None` when there is none.
pub open spec fn first_byte_result(hay: Seq<u8>, needle: u8, r: Option<usize>) -> bool {
    match r {
        Some(i) => i < hay.len() && hay[i as int] == needle && forall|j: int|
            0 <= j < i ==> hay[j] != needle,
        None => forall|j: int| 0 <= j < hay.len() ==> hay[j] != needle,
    }
}

/// `b` is one of the three bytes.
pub open spec fn is_one_of3(b: u8, n1: u8, n2: u8, n3: u8) -> bool {
    b == n1 || b == n2 || b == n3
}

/// `r` is the index of the first byte of `hay` that is one of the three, or `None`.
pub open spec fn first_of3_result(hay: Seq<u8>, n1: u8, n2: u8, n3: u8, r: Option<usize>) -> bool {
    match r {
        Some(i) => i < hay.len() && is_one_of3(hay[i as int], n1, n2, n3) && forall|j: int|
            0 <= j < i ==> !is_one_of3(hay[j], n1, n2, n3),
        None => forall|j: int| 0 <= j < hay.len() ==> !is_one_of3(hay[j], n1, n2, n3),
    }
}

/// `needle` occurs in `hay` starting at index `i`.
pub open spec fn occurs_at(hay: Seq<u8>, needle: Seq<u8>, i: int) -> bool {
    0 <= i && i + needle.len() <= hay.len() && hay.subrange(i, i + needle.len()) == needle
}

/// `r` is the start of the first occurrence of `needle` in `hay`, or `None`.
pub open spec fn first_occurrence_result(hay: Seq<u8>, needle: Seq<u8>, r: Option<usize>) -> bool {
    match r {
        Some(i) => occurs_at(hay, needle, i as int) && forall|j: int|
            0 <= j < i ==> !occurs_at(hay, needle, j),
        None => forall|j: int| 0 <= j ==> !occurs_at(hay, needle, j),
    }
}

/// Calls `memchr::memchr`, which returns the index of the first occurrence of
/// `needle` in `haystack`, or `None` when the byte does not occur.
#[verifier::external_body]
pub(crate) fn memchr_first(needle: u8, haystack: &[u8]) -> (r: Option<usize>)
    ensures
        first_byte_result(haystack@, needle, r),
{
    memchr::memchr(needle, haystack)
}

/// Calls `memchr::memchr3`, which returns the index of the first byte of
/// `haystack` equal to one of the three needles, or `None` when there is none.
#[verifier::external_body]
pub(crate) fn memchr_first_of3(n1: u8, n2: u8, n3: u8, haystack: &[u8]) -> (r: Option<usize>)
    ensures
        first_of3_result(haystack@, n1, n2, n3, r),
{
    memchr::memchr3(n1, n2, n3, haystack)
}

/// Calls `memchr::memmem::find`, which returns the start of the first
/// occurrence of `needle` as a contiguous run inside `haystack`, or `None`.
#[verifier::external_body]
pub(crate) fn memmem_first(haystack: &[u8], needle: &[u8]) -> (r: Option<usize>)
    ensures
        first_occurrence_result(haystack@, needle@, r),
{
    memchr::memmem::find(haystack, needle)
}

/// The index of the first `b` in `s`, if any.
pub open spec fn first_index(s: Seq<u8>, b: u8) -> Option<int> {
    if exists|i: int| 0 <= i < s.len() && s[i] == b {
        Some(choose|i: int| 0 <= i < s.len() && s[i] == b && forall|j: int| 0 <= j < i ==> s[j] != b)
    } else {
        None
    }
}

/// The start of the first occurrence of `needle` in `hay`, if any.
pub open spec fn first_occurrence(hay: Seq<u8>, needle: Seq<u8>) -> Option<int> {
    if exists|i: int| occurs_at(hay, needle, i) {
        Some(choose|i: int| occurs_at(hay, needle, i) && forall|j: int| 0 <= j < i ==> !occurs_at(hay, needle, j))
    } else {
        None
    }
}

/// What `memchr` reports is `first_index`.
pub proof fn lemma_first_index(s: Seq<u8>, b: u8, r: Option<usize>)
    requires
        first_byte_result(s, b, r),
    ensures
        match r {
            Some(i) => first_index(s, b) == Some(i as int),
            None => first_index(s, b) is None,
        },
{
    if let Some(i) = r {
        let i = i as int;
        assert(0 <= i < s.len() && s[i] == b && forall|j: int| 0 <= j < i ==> s[j] != b);
        let c = choose|k: int| 0 <= k < s.len() && s[k] == b && forall|j: int| 0 <= j < k ==> s[j] != b;
        if c < i {
            assert(s[c] != b);
        } else if c > i {
            assert(s[i] != b);
        }
    }
}

/// What `find_sequence` reports is `first_occurrence`.
pub proof fn lemma_first_occurrence(hay: Seq<u8>, needle: Seq<u8>, r: Option<usize>)
    requires
        first_occurrence_result(hay, needle, r),
    ensures
        match r {
            Some(i) => first_occurrence(hay, needle) == Some(i as int),
            None => first_occurrence(hay, needle) is None,
        },
{
    if let Some(i) = r {
        let i = i as int;
        assert(occurs_at(hay, needle, i) && forall|j: int| 0 <= j < i ==> !occurs_at(hay, needle, j));
        let c = choose|k: int| occurs_at(hay, needle, k) && forall|j: int| 0 <= j < k ==> !occurs_at(hay, needle, j);
        if c < i {
            assert(!occurs_at(hay, needle, c));
        } else if c > i {
            assert(!occurs_at(hay, needle, i));
        }
    } else {
        if exists|i: int| occurs_at(hay, needle, i) {
            let i = choose|i: int| occurs_at(hay, needle, i);
            assert(!occurs_at(hay, needle, i));
        }
    }
}

/// Some `b` in `s` at or before `w` implies a first one.
pub proof fn lemma_first_index_exists(s: Seq<u8>, b: u8, w: int)
    requires
        0 <= w < s.len(),
        s[w] == b,
    ensures
        exists|i: int| 0 <= i < s.len() && s[i] == b && forall|j: int| 0 <= j < i ==> s[j] != b,
    decreases w,
{
    if exists|k: int| 0 <= k < w && s[k] == b {
        let k = choose|k: int| 0 <= k < w && s[k] == b;
        lemma_first_index_exists(s, b, k);
    } else {
        assert(0 <= w < s.len() && s[w] == b && forall|j: int| 0 <= j < w ==> s[j] != b);
    }
}

/// An occurrence of `needle` at or before `w` implies a first one.
pub proof fn lemma_first_occurrence_exists(hay: Seq<u8>, needle: Seq<u8>, w: int)
    requires
        occurs_at(hay, needle, w),
    ensures
        exists|i: int| occurs_at(hay, needle, i) && forall|j: int| 0 <= j < i ==> !occurs_at(hay, needle, j),
    decreases w,
{
    if exists|k: int| 0 <= k < w && occurs_at(hay, needle, k) {
        let k = choose|k: int| 0 <= k < w && occurs_at(hay, needle, k);
        lemma_first_occurrence_exists(hay, needle, k);
    } else {
        assert(occurs_at(hay, needle, w) && forall|j: int| 0 <= j < w ==> !occurs_at(hay, needle, j));
    }
}

/// A first occurrence is an occurrence, and nothing of it occurs earlier.
pub proof fn lemma_first_occurrence_props(hay: Seq<u8>, needle: Seq<u8>)
    ensures
        first_occurrence(hay, needle) matches Some(i) ==> occurs_at(hay, needle, i)
            && forall|j: int| 0 <= j < i ==> !occurs_at(hay, needle, j),
        first_occurrence(hay, needle) is None ==> forall|j: int| !occurs_at(hay, needle, j),
{
    if exists|i: int| occurs_at(hay, needle, i) {
        let w = choose|i: int| occurs_at(hay, needle, i);
        lemma_first_occurrence_exists(hay, needle, w);
    }
}

/// A first index holds `b`, and no earlier byte does.
pub proof fn lemma_first_index_props(s: Seq<u8>, b: u8)
    ensures
        first_index(s, b) matches Some(i) ==> 0 <= i < s.len() && s[i] == b
            && forall|j: int| 0 <= j < i ==> s[j] != b,
        first_index(s, b) is None ==> forall|j: int| 0 <= j < s.len() ==> s[j] != b,
{
    if exists|i: int| 0 <= i < s.len() && s[i] == b {
        let w = choose|i: int| 0 <= i < s.len() && s[i] == b;
        lemma_first_index_exists(s, b, w);
    }
}

} // verus!
