//! Scanning helpers for XML bytes: structural-character search, name
//! validation, whitespace handling, and a lookup table for byte classes.

use vstd::prelude::*;
use crate::search::{
    SP, TAB, CR, LF, LT, GT, AMP, EQ, SLASH, is_ws, first_byte_result, first_of3_result, memchr_first,
    memchr_first_of3,
};
use crate::tokenizer::{run_from, ws_stop, lemma_run_unique, is_name_delim};

verus! {

/// Colon, underscore, hyphen and full stop.
pub const COLON: u8 = 0x3a;
pub const UNDERSCORE: u8 = 0x5f;
pub const HYPHEN: u8 = 0x2d;
pub const DOT: u8 = 0x2e;

/// An ASCII letter.
pub open spec fn is_ascii_letter(b: u8) -> bool {
    (0x41u8 <= b <= 0x5au8) || (0x61u8 <= b <= 0x7au8)
}

/// An ASCII digit.
pub open spec fn is_ascii_digit(b: u8) -> bool {
    0x30u8 <= b <= 0x39u8
}

/// A byte that may start an XML name: a letter, `_` or `:`.
pub open spec fn is_name_start_byte(b: u8) -> bool {
    is_ascii_letter(b) || b == UNDERSCORE || b == COLON
}

/// A byte that may appear in an XML name: a letter, a digit, `_`, `:`, `-` or `.`.
pub open spec fn is_name_byte(b: u8) -> bool {
    is_ascii_letter(b) || is_ascii_digit(b) || b == UNDERSCORE || b == COLON || b == HYPHEN || b == DOT
}

/// `data` is a valid XML name: non-empty, a name-start byte, then name bytes.
pub open spec fn valid_name(data: Seq<u8>) -> bool {
    &&& data.len() > 0
    &&& is_name_start_byte(data[0])
    &&& forall|i: int| 1 <= i < data.len() ==> is_name_byte(data[i])
}

/// Scanner for XML patterns.
pub struct SimdScanner;

impl SimdScanner {
    /// Find the first occurrence of `<`, `>` or `&` (the XML structural characters).
    pub fn find_xml_structural_char(data: &[u8]) -> (r: Option<usize>)
        ensures
            first_of3_result(data@, LT, GT, AMP, r),
    {
        memchr_first_of3(LT, GT, AMP, data)
    }

    /// Whether `data` holds only valid XML name characters, starting with a
    /// name-start character.
    pub fn is_valid_name(data: &[u8]) -> (r: bool)
        ensures
            r == valid_name(data@),
    {
        if data.len() == 0 {
            return false;
        }
        if !Self::is_name_start_char(data[0]) {
            return false;
        }
        let mut i: usize = 1;
        while i < data.len()
            invariant
                1 <= i <= data@.len(),
                forall|j: int| 1 <= j < i ==> is_name_byte(data@[j]),
            decreases data.len() - i,
        {
            if !Self::is_name_char(data[i]) {
                return false;
            }
            i += 1;
        }
        true
    }

    /// Whether `b` may start an XML name.
    fn is_name_start_char(b: u8) -> (r: bool)
        ensures
            r == is_name_start_byte(b),
    {
        (0x41u8 <= b && b <= 0x5au8) || (0x61u8 <= b && b <= 0x7au8) || b == UNDERSCORE || b == COLON
    }

    /// Whether `b` may appear in an XML name.
    fn is_name_char(b: u8) -> (r: bool)
        ensures
            r == is_name_byte(b),
    {
        (0x41u8 <= b && b <= 0x5au8) || (0x61u8 <= b && b <= 0x7au8) || (0x30u8 <= b && b <= 0x39u8)
            || b == UNDERSCORE || b == COLON || b == HYPHEN || b == DOT
    }

    /// Index of the first `>` (end of tag).
    pub fn find_tag_close(data: &[u8]) -> (r: Option<usize>)
        ensures
            first_byte_result(data@, GT, r),
    {
        memchr_first(GT, data)
    }

    /// Index of the first `=` (in attributes).
    pub fn find_equals(data: &[u8]) -> (r: Option<usize>)
        ensures
            first_byte_result(data@, EQ, r),
    {
        memchr_first(EQ, data)
    }

    /// Index of the first `quote_char` (an attribute value delimiter).
    pub fn find_quote(data: &[u8], quote_char: u8) -> (r: Option<usize>)
        ensures
            first_byte_result(data@, quote_char, r),
    {
        memchr_first(quote_char, data)
    }

    /// Index of the first whitespace byte (space, tab, line feed, carriage return).
    pub fn find_whitespace(data: &[u8]) -> (r: Option<usize>)
        ensures
            match r {
                Some(i) => i < data@.len() && is_ws(data@[i as int]) && forall|j: int| 0 <= j < i ==> !is_ws(data@[j]),
                None => forall|j: int| 0 <= j < data@.len() ==> !is_ws(data@[j]),
            },
    {
        let mut i: usize = 0;
        while i < data.len()
            invariant
                i <= data@.len(),
                forall|j: int| 0 <= j < i ==> !is_ws(data@[j]),
            decreases data.len() - i,
        {
            let b = data[i];
            if b == SP || b == TAB || b == LF || b == CR {
                return Some(i);
            }
            i += 1;
        }
        None
    }

    /// The number of whitespace bytes at the start of `data`.
    pub fn skip_whitespace(data: &[u8]) -> (r: usize)
        ensures
            r == run_from(data@, 0, ws_stop()),
            r <= data@.len(),
    {
        let mut i: usize = 0;
        while i < data.len() && (data[i] == SP || data[i] == TAB || data[i] == LF || data[i] == CR)
            invariant
                i <= data@.len(),
                forall|j: int| 0 <= j < i ==> !(ws_stop())(data@[j]),
            decreases data.len() - i,
        {
            i += 1;
        }
        proof { lemma_run_unique(data@, 0, ws_stop(), i as int); }
        i
    }
}

/// Lookup tables for byte classification.
pub struct CharLookup {
    is_whitespace: [bool; 256],
    is_name_char: [bool; 256],
    is_delimiter: [bool; 256],
}

impl CharLookup {
    #[verifier::type_invariant]
    spec fn tables_match(&self) -> bool {
        &&& forall|b: u8| self.is_whitespace@[b as int] == is_ws(b)
        &&& forall|b: u8| self.is_name_char@[b as int] == is_name_byte(b)
        &&& forall|b: u8| self.is_delimiter@[b as int] == is_name_delim(b)
    }

    /// Whether the whitespace table marks `b`.
    pub closed spec fn marks_whitespace(&self, b: u8) -> bool {
        self.is_whitespace@[b as int]
    }

    /// Whether the name table marks `b`.
    pub closed spec fn marks_name_char(&self, b: u8) -> bool {
        self.is_name_char@[b as int]
    }

    /// Whether the delimiter table marks `b`.
    pub closed spec fn marks_delimiter(&self, b: u8) -> bool {
        self.is_delimiter@[b as int]
    }

    /// Build the lookup tables: whitespace is space, tab, line feed and
    /// carriage return; name bytes are letters, digits, `_`, `:`, `-` and
    /// `.`; delimiters are whitespace, `>`, `/` and `=`.
    pub fn new() -> (r: Self)
        ensures
            forall|b: u8| r.marks_whitespace(b) == is_ws(b),
            forall|b: u8| r.marks_name_char(b) == is_name_byte(b),
            forall|b: u8| r.marks_delimiter(b) == is_name_delim(b),
    {
        let mut is_whitespace = [false; 256];
        is_whitespace[SP as usize] = true;
        is_whitespace[TAB as usize] = true;
        is_whitespace[LF as usize] = true;
        is_whitespace[CR as usize] = true;

        let mut is_name_char = [false; 256];
        let mut i: usize = 0;
        while i < 256
            invariant
                i <= 256,
                forall|j: int| 0 <= j < i ==> is_name_char@[j] == is_name_byte(j as u8),
            decreases 256 - i,
        {
            let b = i as u8;
            is_name_char[i] = SimdScanner::is_name_char(b);
            i += 1;
        }

        let mut is_delimiter = [false; 256];
        is_delimiter[SP as usize] = true;
        is_delimiter[TAB as usize] = true;
        is_delimiter[LF as usize] = true;
        is_delimiter[CR as usize] = true;
        is_delimiter[GT as usize] = true;
        is_delimiter[SLASH as usize] = true;
        is_delimiter[EQ as usize] = true;

        assert forall|b: u8| is_whitespace@[b as int] == is_ws(b) by {}
        assert forall|b: u8| is_name_char@[b as int] == is_name_byte(b) by {
            assert(b as int as u8 == b);
        }
        assert forall|b: u8| is_delimiter@[b as int] == is_name_delim(b) by {}
        CharLookup { is_whitespace, is_name_char, is_delimiter }
    }

    /// Whether `b` is whitespace.
    pub fn is_whitespace(&self, b: u8) -> (r: bool)
        ensures
            r == is_ws(b),
    {
        proof { use_type_invariant(self); }
        self.is_whitespace[b as usize]
    }

    /// Whether `b` may appear in an XML name.
    pub fn is_name_char(&self, b: u8) -> (r: bool)
        ensures
            r == is_name_byte(b),
    {
        proof { use_type_invariant(self); }
        self.is_name_char[b as usize]
    }

    /// Whether `b` ends a token: whitespace, `>`, `/` or `=`.
    pub fn is_delimiter(&self, b: u8) -> (r: bool)
        ensures
            r == is_name_delim(b),
    {
        proof { use_type_invariant(self); }
        self.is_delimiter[b as usize]
    }
}

} // verus!
