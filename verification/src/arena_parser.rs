//! A parser over a whole input held in memory, whose events point into the
//! input and whose element names are copied into a bump arena.

use vstd::prelude::*;
use bumpalo::Bump;
use crate::event::{AttrSlice, ZeroCopyAttributes, ZeroCopyEvent, pair_room};
use crate::parser::{ErrorCode, EventType, ParserLimits};
use crate::search::{
    AMP, SEMI, LT, GT, QUOT, APOS, SLASH, BANG, QMARK, first_index, first_occurrence, first_of3_result,
    first_occurrence_result, occurs_at, is_one_of3, lemma_first_index, lemma_first_index_props,
    lemma_first_occurrence_props,
};
use crate::simd_scanner::SimdScanner;
use crate::slice_parser::{bytes_eq, opens_comment, opens_cdata, comment_open, cdata_open};
use crate::tokenizer::{
    scan_name, contains_entities, has_entity_ref, run_from, name_stop, ws_stop, min_int, comment_close, cdata_close, pi_close,
    attrs_from, attr_scan_then, AttrScan, AttrSpan, attr_step_span,
    lemma_attr_step_progress, lemma_bounded_scan_run, lemma_run_props,
};

verus! {

#[verifier::external_type_specification]
#[verifier::external_body]
pub struct ExBump<const MIN_ALIGN: usize>(Bump<MIN_ALIGN>);

/// Calls `Bump::alloc_slice_copy`, which copies `src` into the arena and
/// lends the copy for as long as the arena lives. It panics only when the
/// arena cannot reserve the space: memory is exhausted, or a limit set with
/// `Bump::set_allocation_limit` is reached (no code of this library sets
/// one).
#[verifier::external_body]
fn arena_copy<'a>(arena: &'a Bump, src: &[u8]) -> (r: &'a [u8])
    ensures
        r@ == src@,
{
    arena.alloc_slice_copy(src)
}

/// The byte an entity reference stands for, when it is one of the five
/// predefined ones (`&lt;`, `&gt;`, `&amp;`, `&quot;`, `&apos;`).
pub open spec fn predefined_entity(entity: Seq<u8>) -> Option<u8> {
    if entity == seq![AMP, 0x6cu8, 0x74u8, SEMI] {
        Some(LT)
    } else if entity == seq![AMP, 0x67u8, 0x74u8, SEMI] {
        Some(GT)
    } else if entity == seq![AMP, 0x61u8, 0x6du8, 0x70u8, SEMI] {
        Some(AMP)
    } else if entity == seq![AMP, 0x71u8, 0x75u8, 0x6fu8, 0x74u8, SEMI] {
        Some(QUOT)
    } else if entity == seq![AMP, 0x61u8, 0x70u8, 0x6fu8, 0x73u8, SEMI] {
        Some(APOS)
    } else {
        None
    }
}

/// The index of the first `;` at or after `i`, if any.
pub open spec fn semicolon_from(s: Seq<u8>, i: int) -> Option<int>
    decreases s.len() - i,
{
    if i < 0 || i >= s.len() {
        None
    } else if s[i] == SEMI {
        Some(i)
    } else {
        semicolon_from(s, i + 1)
    }
}

/// The decoding of `input` from index `i` on: each `&` that a `;` follows
/// later starts an entity reference running through that `;`, which becomes
/// the byte it stands for when it is a predefined one and stays as it is
/// otherwise; an `&` with no `;` after it, and every other byte, stays.
pub open spec fn decode_from(input: Seq<u8>, i: int) -> Seq<u8>
    decreases input.len() - i,
{
    if i < 0 || i >= input.len() {
        Seq::empty()
    } else if input[i] == AMP {
        match semicolon_from(input, i) {
            Some(k) => {
                proof { lemma_semicolon_from(input, i); }
                let entity = input.subrange(i, k + 1);
                let piece = match predefined_entity(entity) {
                    Some(b) => seq![b],
                    None => entity,
                };
                piece + decode_from(input, k + 1)
            },
            None => seq![AMP] + decode_from(input, i + 1),
        }
    } else {
        seq![input[i]] + decode_from(input, i + 1)
    }
}

pub proof fn lemma_semicolon_from(s: Seq<u8>, i: int)
    requires
        0 <= i,
    ensures
        match semicolon_from(s, i) {
            Some(k) => i <= k < s.len() && s[k] == SEMI && forall|j: int| i <= j < k ==> s[j] != SEMI,
            None => forall|j: int| i <= j < s.len() ==> s[j] != SEMI,
        },
    decreases s.len() - i,
{
    if i < s.len() && s[i] != SEMI {
        lemma_semicolon_from(s, i + 1);
    }
}

/// The index of the first `;` at or after `i`.
fn find_semicolon(input: &[u8], i: usize) -> (r: Option<usize>)
    requires
        i <= input@.len(),
    ensures
        r == (match semicolon_from(input@, i as int) {
            Some(k) => Some(k as usize),
            None => None::<usize>,
        }),
{
    let mut k: usize = i;
    while k < input.len()
        invariant
            i <= k <= input@.len(),
            semicolon_from(input@, i as int) == semicolon_from(input@, k as int),
        decreases input.len() - k,
    {
        if input[k] == SEMI {
            return Some(k);
        }
        k += 1;
    }
    None
}

/// The byte `entity` stands for, when it is a predefined entity reference.
fn entity_byte(entity: &[u8]) -> (r: Option<u8>)
    ensures
        r == predefined_entity(entity@),
{
    let lt: [u8; 4] = [AMP, 0x6c, 0x74, SEMI];
    let gt: [u8; 4] = [AMP, 0x67, 0x74, SEMI];
    let amp: [u8; 5] = [AMP, 0x61, 0x6d, 0x70, SEMI];
    let quot: [u8; 6] = [AMP, 0x71, 0x75, 0x6f, 0x74, SEMI];
    let apos: [u8; 6] = [AMP, 0x61, 0x70, 0x6f, 0x73, SEMI];
    assert(lt@ =~= seq![AMP, 0x6cu8, 0x74u8, SEMI]);
    assert(gt@ =~= seq![AMP, 0x67u8, 0x74u8, SEMI]);
    assert(amp@ =~= seq![AMP, 0x61u8, 0x6du8, 0x70u8, SEMI]);
    assert(quot@ =~= seq![AMP, 0x71u8, 0x75u8, 0x6fu8, 0x74u8, SEMI]);
    assert(apos@ =~= seq![AMP, 0x61u8, 0x70u8, 0x6fu8, 0x73u8, SEMI]);
    if bytes_eq(entity, lt.as_slice()) {
        Some(LT)
    } else if bytes_eq(entity, gt.as_slice()) {
        Some(GT)
    } else if bytes_eq(entity, amp.as_slice()) {
        Some(AMP)
    } else if bytes_eq(entity, quot.as_slice()) {
        Some(QUOT)
    } else if bytes_eq(entity, apos.as_slice()) {
        Some(APOS)
    } else {
        None
    }
}

/// Decode the predefined entity references of `input`.
pub fn decode_entities(input: &[u8]) -> (r: Vec<u8>)
    ensures
        r@ == decode_from(input@, 0),
{
    let mut result: Vec<u8> = Vec::new();
    let mut i: usize = 0;
    while i < input.len()
        invariant
            i <= input@.len(),
            result@ + decode_from(input@, i as int) == decode_from(input@, 0),
        decreases input.len() - i,
    {
        let ghost before = result@;
        if input[i] == AMP {
            proof { lemma_semicolon_from(input@, i as int); }
            match find_semicolon(input, i) {
                Some(k) => {
                    let entity = &input[i..k + 1];
                    match entity_byte(entity) {
                        Some(b) => result.push(b),
                        None => {
                            let mut j: usize = 0;
                            while j < entity.len()
                                invariant
                                    j <= entity@.len(),
                                    result@ == before + entity@.subrange(0, j as int),
                                decreases entity.len() - j,
                            {
                                result.push(entity[j]);
                                j += 1;
                                assert(result@ =~= before + entity@.subrange(0, j as int));
                            }
                            assert(entity@.subrange(0, j as int) =~= entity@);
                        },
                    }
                    proof {
                        assert(result@ + decode_from(input@, k + 1) =~= before + decode_from(input@, i as int));
                    }
                    i = k + 1;
                },
                None => {
                    result.push(AMP);
                    proof {
                        assert(result@ + decode_from(input@, i + 1) =~= before + decode_from(input@, i as int));
                    }
                    i += 1;
                },
            }
        } else {
            result.push(input[i]);
            proof {
                assert(result@ + decode_from(input@, i + 1) =~= before + decode_from(input@, i as int));
            }
            i += 1;
        }
    }
    assert(decode_from(input@, i as int) =~= Seq::<u8>::empty());
    assert(result@ =~= result@ + decode_from(input@, i as int));
    result
}

/// An attribute value as the arena parser hands it out: decoded when it
/// holds an entity reference, as it stands otherwise.
pub open spec fn arena_value(v: Seq<u8>) -> Seq<u8> {
    if has_entity_ref(v) {
        decode_from(v, 0)
    } else {
        v
    }
}

/// Attribute pairs with their values as the arena parser hands them out.
pub open spec fn arena_pairs(attrs: Seq<(Seq<u8>, Seq<u8>)>) -> Seq<(Seq<u8>, Seq<u8>)> {
    attrs.map_values(|p: (Seq<u8>, Seq<u8>)| (p.0, arena_value(p.1)))
}

/// The limits the arena parser applies, as integers.
pub struct ArenaLimits {
    pub max_depth: int,
    pub max_attributes: int,
    pub max_name_len: int,
    pub max_attr_name_len: int,
    pub max_attr_value_len: int,
}

/// The limits of `l` that the arena parser applies.
pub open spec fn arena_limits(l: ParserLimits) -> ArenaLimits {
    ArenaLimits {
        max_depth: l.max_depth as int,
        max_attributes: l.max_attributes as int,
        max_name_len: l.max_name_len as int,
        max_attr_name_len: l.max_attr_name_len as int,
        max_attr_value_len: l.max_attr_value_len as int,
    }
}

/// The arena parser's state: the position in the input, the names of the
/// open elements (innermost last), the name of a self-closing element whose
/// end is still to be reported, and whether the end of input inside an open
/// element was reported.
pub struct ArenaState {
    pub pos: int,
    pub stack: Seq<Seq<u8>>,
    pub pending: Option<Seq<u8>>,
    pub eof_fault_emitted: bool,
}

/// What one call of `next_event` reports.
pub enum ArenaOutcome {
    Emit { kind: EventType, data: Seq<u8>, error: Option<ErrorCode>, attrs: Seq<(Seq<u8>, Seq<u8>)> },
    Eof,
    Fault { code: ErrorCode },
}

/// An event of kind `kind` carrying `data`, with no fault code or attributes.
pub open spec fn emit(kind: EventType, data: Seq<u8>) -> ArenaOutcome {
    ArenaOutcome::Emit { kind, data, error: None, attrs: Seq::empty() }
}

/// A `Fault` event with `code`, carrying `data`.
pub open spec fn fault_event(code: ErrorCode, data: Seq<u8>) -> ArenaOutcome {
    ArenaOutcome::Emit { kind: EventType::Fault, data, error: Some(code), attrs: Seq::empty() }
}

/// `st` moved on to `pos`.
pub open spec fn at_pos(st: ArenaState, pos: int) -> ArenaState {
    ArenaState { pos, ..st }
}

/// The index of the first `<`, `>` or `&` at or after `i`.
pub open spec fn structural_from(s: Seq<u8>, i: int) -> Option<int>
    decreases s.len() - i,
{
    if i < 0 || i >= s.len() {
        None
    } else if is_one_of3(s[i], LT, GT, AMP) {
        Some(i)
    } else {
        structural_from(s, i + 1)
    }
}

pub proof fn lemma_structural_from(s: Seq<u8>, i: int)
    requires
        0 <= i,
    ensures
        match structural_from(s, i) {
            Some(k) => i <= k < s.len() && is_one_of3(s[k], LT, GT, AMP)
                && forall|j: int| i <= j < k ==> !is_one_of3(s[j], LT, GT, AMP),
            None => forall|j: int| i <= j < s.len() ==> !is_one_of3(s[j], LT, GT, AMP),
        },
    decreases s.len() - i,
{
    if i < s.len() && !is_one_of3(s[i], LT, GT, AMP) {
        lemma_structural_from(s, i + 1);
    }
}

/// What the structural-character search reports is `structural_from`.
proof fn lemma_structural_result(s: Seq<u8>, r: Option<usize>)
    requires
        first_of3_result(s, LT, GT, AMP, r),
    ensures
        match r {
            Some(k) => structural_from(s, 0) == Some(k as int),
            None => structural_from(s, 0) is None,
        },
{
    lemma_structural_from(s, 0);
    match structural_from(s, 0) {
        Some(k) => {
            match r {
                Some(j) => {
                    if k < j {
                        assert(!is_one_of3(s[k], LT, GT, AMP));
                    } else if k > j {
                        assert(!is_one_of3(s[j as int], LT, GT, AMP));
                    }
                },
                None => {
                    assert(!is_one_of3(s[k], LT, GT, AMP));
                },
            }
        },
        None => {
            if let Some(j) = r {
                assert(!is_one_of3(s[j as int], LT, GT, AMP));
            }
        },
    }
}

/// The end tag at the position of `st`.
#[verifier::opaque]
pub open spec fn arena_end_tag(d: Seq<u8>, lim: ArenaLimits, st: ArenaState) -> (ArenaOutcome, ArenaState) {
    let rest = d.skip(st.pos + 2);
    let nl = min_int(run_from(rest, 0, name_stop()) as int, lim.max_name_len);
    match first_index(rest, GT) {
        None => (ArenaOutcome::Fault { code: ErrorCode::UnexpectedEof }, st),
        Some(gt) => {
            let name = rest.take(nl);
            let moved = at_pos(st, st.pos + 2 + gt + 1);
            if st.stack.len() == 0 {
                (fault_event(ErrorCode::OrphanedEndElement, name), moved)
            } else if st.stack.last() != name {
                (fault_event(ErrorCode::MismatchedEndElement, name), moved)
            } else {
                (emit(EventType::EndElement, st.stack.last()), ArenaState { stack: st.stack.drop_last(), ..moved })
            }
        },
    }
}

/// The start tag at the position of `st`.
#[verifier::opaque]
pub open spec fn arena_start_tag(d: Seq<u8>, lim: ArenaLimits, st: ArenaState) -> (ArenaOutcome, ArenaState) {
    let rest = d.skip(st.pos + 1);
    let nl = min_int(run_from(rest, 0, name_stop()) as int, lim.max_name_len);
    match first_index(rest, GT) {
        None => (ArenaOutcome::Fault { code: ErrorCode::UnexpectedEof }, st),
        Some(gt) => {
            let self_closing = rest[if gt == 0 { 0 } else { gt - 1 }] == SLASH;
            let region = rest.subrange(nl, if self_closing { gt - 1 } else { gt });
            let attr_start = region.skip(run_from(region, 0, ws_stop()) as int);
            let scan = attrs_from(attr_start, 0, lim.max_attr_name_len, lim.max_attr_value_len, lim.max_attributes, 0);
            let name = rest.take(nl);
            if st.stack.len() >= lim.max_depth {
                (ArenaOutcome::Fault { code: ErrorCode::DepthLimitExceeded }, st)
            } else {
                (
                    ArenaOutcome::Emit { kind: EventType::StartElement, data: name, error: None, attrs: arena_pairs(scan.attrs) },
                    ArenaState {
                        pos: st.pos + 1 + gt + 1,
                        stack: if self_closing { st.stack } else { st.stack.push(name) },
                        pending: if self_closing { Some(name) } else { None },
                        eof_fault_emitted: st.eof_fault_emitted,
                    },
                )
            }
        },
    }
}

/// The construct at the position of `st` that opens with `open_len` bytes
/// and closes with `close`, reported as `kind`; `None` where the closing
/// sequence overlaps the opening one.
pub open spec fn arena_delimited(d: Seq<u8>, st: ArenaState, open_len: int, close: Seq<u8>, kind: EventType) -> Option<(ArenaOutcome, ArenaState)> {
    let buf = d.skip(st.pos);
    match first_occurrence(buf, close) {
        None => Some((ArenaOutcome::Fault { code: ErrorCode::UnexpectedEof }, st)),
        Some(q) => if q < open_len {
            None
        } else {
            Some((emit(kind, buf.subrange(open_len, q)), at_pos(st, st.pos + q + close.len())))
        },
    }
}

/// What the token at the position of `st` gives: an outcome (or `None` on
/// the inputs `next_event` cannot take), or a declaration to skip, with the
/// position after it.
pub enum ArenaToken {
    Done(Option<(ArenaOutcome, ArenaState)>),
    Skip(int),
}

/// The token at the position of `st`, which lies inside the input, when no
/// end element is pending.
#[verifier::opaque]
pub open spec fn arena_token(d: Seq<u8>, lim: ArenaLimits, st: ArenaState) -> ArenaToken {
    let buf = d.skip(st.pos);
    if buf.len() == 0 {
        if st.stack.len() > 0 && !st.eof_fault_emitted {
            ArenaToken::Done(Some((fault_event(ErrorCode::UnclosedElement, Seq::empty()), ArenaState { eof_fault_emitted: true, ..st })))
        } else {
            ArenaToken::Done(Some((ArenaOutcome::Eof, st)))
        }
    } else {
        match structural_from(buf, 0) {
            None => ArenaToken::Done(Some((emit(EventType::Text, buf), at_pos(st, d.len() as int)))),
            Some(i) => if buf[i] == LT {
                if i > 0 {
                    ArenaToken::Done(Some((emit(EventType::Text, buf.take(i)), at_pos(st, st.pos + i))))
                } else if buf.len() < 2 {
                    ArenaToken::Done(Some((ArenaOutcome::Fault { code: ErrorCode::UnexpectedEof }, st)))
                } else if buf[1] == SLASH {
                    ArenaToken::Done(Some(arena_end_tag(d, lim, st)))
                } else if buf[1] == BANG {
                    if buf.len() >= 4 && buf.take(4) == comment_open() {
                        ArenaToken::Done(arena_delimited(d, st, 4, comment_close(), EventType::Comment))
                    } else if buf.len() >= 9 && buf.take(9) == cdata_open() {
                        ArenaToken::Done(arena_delimited(d, st, 9, cdata_close(), EventType::CData))
                    } else {
                        match first_index(buf.skip(2), GT) {
                            Some(c) => ArenaToken::Skip(st.pos + 2 + c + 1),
                            None => ArenaToken::Done(Some((ArenaOutcome::Fault { code: ErrorCode::UnexpectedEof }, st))),
                        }
                    }
                } else if buf[1] == QMARK {
                    ArenaToken::Done(arena_delimited(d, st, 2, pi_close(), EventType::ProcessingInstruction))
                } else {
                    ArenaToken::Done(Some(arena_start_tag(d, lim, st)))
                }
            } else {
                ArenaToken::Done(Some((emit(EventType::Text, buf.take(i + 1)), at_pos(st, st.pos + i + 1))))
            },
        }
    }
}

/// What `next_event` reports and the state it leaves, or `None` on the
/// inputs it cannot take: a comment or processing instruction whose closing
/// sequence overlaps its opening one (`<!-->`, `<!--->`, `<?>`). Unknown
/// declarations (`<!...>`) are skipped.
pub open spec fn arena_step(d: Seq<u8>, lim: ArenaLimits, st: ArenaState) -> Option<(ArenaOutcome, ArenaState)>
    decreases d.len() - st.pos,
{
    if st.pending is Some {
        Some((emit(EventType::EndElement, st.pending->0), ArenaState { pending: None, ..st }))
    } else if st.pos < 0 || st.pos > d.len() {
        None
    } else {
        match arena_token(d, lim, st) {
            ArenaToken::Done(x) => x,
            ArenaToken::Skip(p) => if st.pos < p <= d.len() {
                arena_step(d, lim, at_pos(st, p))
            } else {
                None
            },
        }
    }
}

/// After `<!--`, the first `-->` starts before the comment's content exactly
/// when the input reads `<!-->` or `<!--->`.
proof fn lemma_comment_overlap(buf: Seq<u8>)
    requires
        buf.len() >= 4,
        buf.take(4) == comment_open(),
    ensures
        (first_occurrence(buf, comment_close()) matches Some(q) && q < 4) <==> ((buf.len() >= 5 && buf[4] == GT)
            || (buf.len() >= 6 && buf[4] == 0x2du8 && buf[5] == GT)),
{
    let close = comment_close();
    lemma_first_occurrence_props(buf, close);
    assert(buf[0] == buf.take(4)[0] && buf[1] == buf.take(4)[1] && buf[2] == buf.take(4)[2] && buf[3] == buf.take(4)[3]);
    assert forall|j: int| 0 <= j < 4 && #[trigger] occurs_at(buf, close, j) implies (j == 2 && buf[4] == GT) || (j == 3
        && buf[4] == 0x2du8 && buf[5] == GT) by {
        assert(buf.subrange(j, j + 3)[0] == buf[j]);
        assert(buf.subrange(j, j + 3)[1] == buf[j + 1]);
        assert(buf.subrange(j, j + 3)[2] == buf[j + 2]);
    }
    if buf.len() >= 5 && buf[4] == GT {
        assert(buf.subrange(2, 5) =~= close);
        assert(occurs_at(buf, close, 2));
    } else if buf.len() >= 6 && buf[4] == 0x2du8 && buf[5] == GT {
        assert(buf.subrange(3, 6) =~= close);
        assert(occurs_at(buf, close, 3));
    }
}

/// After `<?`, the first `?>` overlaps the opening exactly when the input
/// reads `<?>`.
proof fn lemma_pi_overlap(buf: Seq<u8>)
    requires
        buf.len() >= 2,
        buf[0] == LT,
        buf[1] == QMARK,
    ensures
        (first_occurrence(buf, pi_close()) matches Some(q) && q < 2) <==> (buf.len() >= 3 && buf[2] == GT),
{
    let close = pi_close();
    lemma_first_occurrence_props(buf, close);
    assert forall|j: int| 0 <= j < 2 && #[trigger] occurs_at(buf, close, j) implies j == 1 && buf[2] == GT by {
        assert(buf.subrange(j, j + 2)[0] == buf[j]);
        assert(buf.subrange(j, j + 2)[1] == buf[j + 1]);
    }
    if buf.len() >= 3 && buf[2] == GT {
        assert(buf.subrange(1, 3) =~= close);
        assert(occurs_at(buf, close, 1));
    }
}

/// After `<![CDATA[`, no `]]>` starts before the section's content.
proof fn lemma_cdata_no_overlap(buf: Seq<u8>)
    requires
        buf.len() >= 9,
        buf.take(9) == cdata_open(),
    ensures
        first_occurrence(buf, cdata_close()) matches Some(q) ==> q >= 9,
{
    let close = cdata_close();
    lemma_first_occurrence_props(buf, close);
    assert forall|j: int| 0 <= j < 9 implies !#[trigger] occurs_at(buf, close, j) by {
        assert(buf[j] == buf.take(9)[j]);
        if occurs_at(buf, close, j) {
            assert(buf.subrange(j, j + 3)[0] == buf[j]);
        }
    }
}

/// Why the arena parser stopped.
#[derive(Debug, PartialEq, Eq, Structural)]
pub enum ParseError {
    /// The input is used up.
    Eof,
    /// A fault that the parser cannot move past.
    Fault(ErrorCode),
}

/// `r` is what the outcome `o` says is reported.
pub open spec fn arena_result_is(r: Result<ZeroCopyEvent, ParseError>, o: ArenaOutcome) -> bool {
    match o {
        ArenaOutcome::Emit { kind, data, error, attrs } => match r {
            Ok(ev) => ev.event_type == kind && ev.data@ == data && ev.error == error && !ev.is_continuation
                && ev.attributes.pairs_view() == attrs,
            Err(_) => false,
        },
        ArenaOutcome::Eof => r == Err::<ZeroCopyEvent, ParseError>(ParseError::Eof),
        ArenaOutcome::Fault { code } => r == Err::<ZeroCopyEvent, ParseError>(ParseError::Fault(code)),
    }
}

/// The start of the first window of `hay` equal to `needle`.
fn window_position(hay: &[u8], needle: &[u8]) -> (r: Option<usize>)
    requires
        needle@.len() > 0,
    ensures
        first_occurrence_result(hay@, needle@, r),
{
    let n = needle.len();
    if hay.len() < n {
        return None;
    }
    let mut i: usize = 0;
    while i <= hay.len() - n
        invariant
            n == needle@.len(),
            n <= hay@.len(),
            n > 0,
            forall|j: int| 0 <= j < i ==> !occurs_at(hay@, needle@, j),
        decreases hay.len() + 1 - i,
    {
        if bytes_eq(&hay[i..i + n], needle) {
            return Some(i);
        }
        i += 1;
    }
    None
}

/// The open elements, innermost last, with names held in the arena.
struct ArenaElementStack<'data> {
    frames: Vec<ArenaElementFrame<'data>>,
    max_depth: usize,
}

/// An open element: its name, held in the arena.
#[derive(Clone)]
struct ArenaElementFrame<'data> {
    name: &'data [u8],
}

/// The names of the open elements.
closed spec fn frame_names(frames: Seq<ArenaElementFrame>) -> Seq<Seq<u8>> {
    frames.map_values(|f: ArenaElementFrame| f.name@)
}

/// A parser over a whole input held in memory. Its events borrow the input;
/// the names of open elements are copied into a bump arena that lives as
/// long as the input.
pub struct ArenaParser<'data> {
    data: &'data [u8],
    pos: usize,
    arena: &'data Bump,
    elem_stack: ArenaElementStack<'data>,
    limits: ParserLimits,
    eof_fault_emitted: bool,
    pending_end: Option<&'data [u8]>,
}

impl<'data> ArenaParser<'data> {
    /// The whole input.
    pub closed spec fn input(&self) -> Seq<u8> {
        self.data@
    }

    /// The limits in force.
    pub closed spec fn lim(&self) -> ArenaLimits {
        arena_limits(self.limits)
    }

    /// The parser's state.
    pub closed spec fn state(&self) -> ArenaState {
        ArenaState {
            pos: self.pos as int,
            stack: frame_names(self.elem_stack.frames@),
            pending: match self.pending_end {
                Some(n) => Some(n@),
                None => None,
            },
            eof_fault_emitted: self.eof_fault_emitted,
        }
    }

    /// The position lies inside the input, and the input is short enough
    /// for every attribute of a tag to fit in an attribute collection.
    pub closed spec fn wf(&self) -> bool {
        &&& self.pos <= self.data@.len()
        &&& self.elem_stack.max_depth == self.limits.max_depth
        &&& self.data@.len() < pair_room()
    }

    /// A parser at the start of `data`, with no open elements, copying
    /// element names into `arena`. The input must be shorter than
    /// `pair_room()` bytes (about 2^56 on a 64-bit machine), so that an
    /// attribute collection can always grow.
    pub fn new(data: &'data [u8], arena: &'data Bump, limits: ParserLimits) -> (r: Self)
        requires
            data@.len() < pair_room(),
        ensures
            r.wf(),
            r.input() == data@,
            r.lim() == arena_limits(limits),
            r.state() == (ArenaState { pos: 0, stack: Seq::empty(), pending: None, eof_fault_emitted: false }),
    {
        let elem_stack = ArenaElementStack { frames: Vec::with_capacity(limits.max_depth), max_depth: limits.max_depth };
        let r = ArenaParser { data, pos: 0, arena, elem_stack, limits, eof_fault_emitted: false, pending_end: None };
        assert(frame_names(r.elem_stack.frames@) =~= Seq::<Seq<u8>>::empty());
        r
    }

    /// What has not been parsed yet.
    fn buffer(&self) -> (r: &'data [u8])
        requires
            self.pos <= self.data@.len(),
        ensures
            r@ == self.data@.skip(self.pos as int),
    {
        let data: &'data [u8] = self.data;
        &data[self.pos..data.len()]
    }

    /// Move `n` bytes on, stopping at the end of the input.
    fn consume(&mut self, n: usize)
        requires
            old(self).pos <= old(self).data@.len(),
        ensures
            final(self).pos == (if old(self).pos + n <= old(self).data@.len() { old(self).pos + n } else { old(self).data@.len() as int }),
            final(self).data == old(self).data,
            final(self).arena == old(self).arena,
            final(self).elem_stack == old(self).elem_stack,
            final(self).limits == old(self).limits,
            final(self).eof_fault_emitted == old(self).eof_fault_emitted,
            final(self).pending_end == old(self).pending_end,
    {
        let len = self.data.len();
        if n <= len - self.pos {
            self.pos = self.pos + n;
        } else {
            self.pos = len;
        }
    }

    /// Parse the attributes at the start of `buf` into `attrs` (which is
    /// empty), returning how many bytes were consumed and whether the
    /// attribute limit was hit, a name was cut and a value was cut. Values
    /// that hold an `&` are decoded into bytes of their own; everything else
    /// points into `buf`.
    fn parse_attributes_full(&self, buf: &'data [u8], attrs: &mut ZeroCopyAttributes<'data>) -> (r: (usize, bool, bool, bool))
        requires
            old(attrs).pairs_view().len() == 0,
            buf@.len() < pair_room(),
        ensures
            ({
                let scan = attrs_from(buf@, 0, self.lim().max_attr_name_len, self.lim().max_attr_value_len, self.lim().max_attributes, 0);
                &&& final(attrs).pairs_view() == arena_pairs(scan.attrs)
                &&& r.0 == scan.end
                &&& r.1 == scan.hit_limit
                &&& r.2 == scan.name_truncated
                &&& r.3 == scan.value_truncated
            }),
    {
        let ghost maxn = self.lim().max_attr_name_len;
        let ghost maxv = self.lim().max_attr_value_len;
        let ghost maxa = self.lim().max_attributes;
        let max_name_len = self.limits.max_attr_name_len;
        let max_value_len = self.limits.max_attr_value_len;
        let max_attrs = self.limits.max_attributes;
        let mut pos: usize = 0;
        let mut hit_limit = false;
        let mut ntr = false;
        let mut vtr = false;
        let ghost mut acc = Seq::<(Seq<u8>, Seq<u8>)>::empty();
        let ghost total = attrs_from(buf@, 0, maxn, maxv, maxa, 0);
        assert(arena_pairs(acc) =~= Seq::<(Seq<u8>, Seq<u8>)>::empty());
        assert(Seq::<(Seq<u8>, Seq<u8>)>::empty() + total.attrs =~= total.attrs);
        loop
            invariant_except_break
                pos <= buf@.len(),
                !hit_limit,
                acc.len() == attrs.pairs_view().len(),
                acc.len() <= pos,
                total == attr_scan_then(acc, ntr, vtr, attrs_from(buf@, pos as int, maxn, maxv, maxa, acc.len() as int)),
            invariant
                maxn == max_name_len,
                maxv == max_value_len,
                maxa == max_attrs,
                buf@.len() < pair_room(),
                attrs.pairs_view() == arena_pairs(acc),
            ensures
                total == (AttrScan {
                    attrs: acc,
                    end: pos as int,
                    hit_limit: hit_limit,
                    name_truncated: ntr,
                    value_truncated: vtr,
                }),
            decreases buf.len() - pos,
        {
            let ghost count = acc.len() as int;
            proof { lemma_attr_step_progress(buf@, pos as int, maxn, maxv, maxa, count); }
            let step = attr_step_span(buf, pos, max_name_len, max_value_len, max_attrs, attrs.len());
            match step {
                AttrSpan::Stop { end, hit } => {
                    pos = end;
                    hit_limit = hit;
                    assert(acc + Seq::<(Seq<u8>, Seq<u8>)>::empty() =~= acc);
                    break;
                },
                AttrSpan::Last { name_start, name_end, end, ntr: nt } => {
                    let name: &'data [u8] = &buf[name_start..name_end];
                    let empty: &'data [u8] = &buf[end..end];
                    let ghost entry = (name@, Seq::<u8>::empty());
                    assert(empty@ =~= Seq::<u8>::empty());
                    assert(arena_value(Seq::<u8>::empty()) == Seq::<u8>::empty());
                    attrs.push(AttrSlice::direct(name), AttrSlice::direct(empty));
                    proof {
                        assert(arena_pairs(acc.push(entry)) =~= arena_pairs(acc).push((entry.0, arena_value(entry.1))));
                        assert(acc + seq![entry] =~= acc.push(entry));
                        acc = acc.push(entry);
                    }
                    ntr = ntr || nt;
                    pos = end;
                    break;
                },
                AttrSpan::More { name_start, name_end, value_start, value_end, next, ntr: nt, vtr: vt } => {
                    let name: &'data [u8] = &buf[name_start..name_end];
                    let content: &'data [u8] = &buf[value_start..value_end];
                    let ghost entry = (name@, content@);
                    if contains_entities(content) {
                        let decoded = decode_entities(content);
                        attrs.push(AttrSlice::direct(name), AttrSlice::decoded(decoded));
                    } else {
                        attrs.push(AttrSlice::direct(name), AttrSlice::direct(content));
                    }
                    proof {
                        assert(arena_pairs(acc.push(entry)) =~= arena_pairs(acc).push((entry.0, arena_value(entry.1))));
                        let rest = attrs_from(buf@, next as int, maxn, maxv, maxa, count + 1);
                        assert(acc + (seq![entry] + rest.attrs) =~= acc.push(entry) + rest.attrs);
                        acc = acc.push(entry);
                    }
                    ntr = ntr || nt;
                    vtr = vtr || vt;
                    pos = next;
                },
            }
        }
        (pos, hit_limit, ntr, vtr)
    }

    /// The next event. Text runs up to the next `<` (a `>` or `&` ends a run
    /// and is part of it); unknown declarations are skipped; a self-closing
    /// element is reported as a start and then an end; at the end of input
    /// inside an open element one `UnclosedElement` fault is reported, then
    /// `Eof`.
    pub fn next_event(&mut self) -> (r: Result<ZeroCopyEvent<'data>, ParseError>)
        requires
            old(self).wf(),
            arena_step(old(self).input(), old(self).lim(), old(self).state()) is Some,
        ensures
            final(self).wf(),
            final(self).input() == old(self).input(),
            final(self).lim() == old(self).lim(),
            ({
                let (o, st) = arena_step(old(self).input(), old(self).lim(), old(self).state())->0;
                arena_result_is(r, o) && final(self).state() == st
            }),
            r matches Ok(ev) ==> ev.data.is_borrowed(),
    {
        if let Some(name) = self.pending_end {
            self.pending_end = None;
            return Ok(ZeroCopyEvent::new(EventType::EndElement, AttrSlice::direct(name), false, None, ZeroCopyAttributes::new()));
        }
        let ghost st0 = self.state();
        let ghost l = self.lim();
        let ghost d = self.input();
        loop
            invariant
                self.wf(),
                d == self.input(),
                l == self.lim(),
                d == old(self).input(),
                l == old(self).lim(),
                st0 == old(self).state(),
                self.state() == at_pos(st0, self.pos as int),
                st0.pending is None,
                arena_step(d, l, st0) == arena_step(d, l, self.state()),
                arena_step(d, l, st0) is Some,
            decreases self.data@.len() - self.pos,
        {
            let ghost st = self.state();
            match self.token() {
                Some(res) => {
                    return res;
                },
                None => {},
            }
        }
    }

    /// One token at the current position: its event, or `None` after
    /// skipping a declaration.
    #[verifier::spinoff_prover]
    #[verifier::rlimit(60)]
    fn token(&mut self) -> (r: Option<Result<ZeroCopyEvent<'data>, ParseError>>)
        requires
            old(self).wf(),
            old(self).state().pending is None,
            !(arena_token(old(self).input(), old(self).lim(), old(self).state()) matches ArenaToken::Done(None)),
        ensures
            final(self).wf(),
            final(self).input() == old(self).input(),
            final(self).lim() == old(self).lim(),
            match arena_token(old(self).input(), old(self).lim(), old(self).state()) {
                ArenaToken::Done(Some((o, st))) => r matches Some(res) && arena_result_is(res, o) && final(self).state() == st,
                ArenaToken::Skip(p) => r is None && final(self).state() == at_pos(old(self).state(), p)
                    && old(self).state().pos < p <= old(self).input().len(),
                ArenaToken::Done(None) => false,
            },
            r matches Some(Ok(ev)) ==> ev.data.is_borrowed(),
    {
        let ghost st = self.state();
        let ghost l = self.lim();
        let ghost d = self.input();
        let buf = self.buffer();
        if buf.len() == 0 {
            if self.elem_stack.frames.len() > 0 && !self.eof_fault_emitted {
                assert(arena_token(d, l, st) == ArenaToken::Done(Some((fault_event(ErrorCode::UnclosedElement, Seq::empty()), ArenaState { eof_fault_emitted: true, ..st })))) by {
                    reveal(arena_token);
                }
                self.eof_fault_emitted = true;
                let empty: &'data [u8] = &buf[0..0];
                assert(empty@ =~= Seq::<u8>::empty());
                return Some(Ok(ZeroCopyEvent::new(
                    EventType::Fault,
                    AttrSlice::direct(empty),
                    false,
                    Some(ErrorCode::UnclosedElement),
                    ZeroCopyAttributes::new(),
                )));
            }
            assert(arena_token(d, l, st) == ArenaToken::Done(Some((ArenaOutcome::Eof, st)))) by { reveal(arena_token); }
            return Some(Err(ParseError::Eof));
        }
        let found = SimdScanner::find_xml_structural_char(buf);
        proof { lemma_structural_result(buf@, found); }
        match found {
            Some(i) => {
                if i > 0 && buf[i] == LT {
                    let text_data: &'data [u8] = &buf[0..i];
                    assert(text_data@ =~= buf@.take(i as int));
                    assert(arena_token(d, l, st) == ArenaToken::Done(Some((emit(EventType::Text, buf@.take(i as int)), at_pos(st, st.pos + i))))) by {
                        reveal(arena_token);
                    }
                    self.consume(i);
                    return Some(Ok(ZeroCopyEvent::new(EventType::Text, AttrSlice::direct(text_data), false, None, ZeroCopyAttributes::new())));
                }
                if buf[i] == LT {
                    if buf.len() < 2 {
                        assert(arena_token(d, l, st) == ArenaToken::Done(Some((ArenaOutcome::Fault { code: ErrorCode::UnexpectedEof }, st)))) by {
                            reveal(arena_token);
                        }
                        return Some(Err(ParseError::Fault(ErrorCode::UnexpectedEof)));
                    }
                    return self.markup();
                } else {
                    let text_data: &'data [u8] = &buf[0..i + 1];
                    assert(text_data@ =~= buf@.take(i + 1));
                    assert(arena_token(d, l, st) == ArenaToken::Done(Some((emit(EventType::Text, buf@.take(i + 1)), at_pos(st, st.pos + i + 1))))) by {
                        reveal(arena_token);
                    }
                    self.consume(i + 1);
                    return Some(Ok(ZeroCopyEvent::new(EventType::Text, AttrSlice::direct(text_data), false, None, ZeroCopyAttributes::new())));
                }
            },
            None => {
                assert(arena_token(d, l, st) == ArenaToken::Done(Some((emit(EventType::Text, buf@), at_pos(st, d.len() as int))))) by {
                    reveal(arena_token);
                }
                let len = buf.len();
                self.consume(len);
                return Some(Ok(ZeroCopyEvent::new(EventType::Text, AttrSlice::direct(buf), false, None, ZeroCopyAttributes::new())));
            },
        }
    }

    /// The markup at the current position, which starts with `<` and one
    /// more byte: its event, or `None` after skipping a declaration.
    #[verifier::spinoff_prover]
    #[verifier::rlimit(60)]
    fn markup(&mut self) -> (r: Option<Result<ZeroCopyEvent<'data>, ParseError>>)
        requires
            old(self).wf(),
            old(self).state().pending is None,
            old(self).state().pos + 2 <= old(self).input().len(),
            old(self).input()[old(self).state().pos] == LT,
            !(arena_token(old(self).input(), old(self).lim(), old(self).state()) matches ArenaToken::Done(None)),
        ensures
            final(self).wf(),
            final(self).input() == old(self).input(),
            final(self).lim() == old(self).lim(),
            match arena_token(old(self).input(), old(self).lim(), old(self).state()) {
                ArenaToken::Done(Some((o, st))) => r matches Some(res) && arena_result_is(res, o) && final(self).state() == st,
                ArenaToken::Skip(p) => r is None && final(self).state() == at_pos(old(self).state(), p)
                    && old(self).state().pos < p <= old(self).input().len(),
                ArenaToken::Done(None) => false,
            },
            r matches Some(Ok(ev)) ==> ev.data.is_borrowed(),
    {
        let ghost st = self.state();
        let ghost l = self.lim();
        let ghost d = self.input();
        let buf = self.buffer();
        proof {
            lemma_structural_from(buf@, 0);
            assert(structural_from(buf@, 0) == Some(0int));
        }
        let b1 = buf[1];
        if b1 == SLASH {
            assert(arena_token(d, l, st) == ArenaToken::Done(Some(arena_end_tag(d, l, st)))) by { reveal(arena_token); }
            return Some(self.parse_end_tag());
        } else if b1 == BANG {
            if opens_comment(buf) {
                assert(arena_token(d, l, st) == ArenaToken::Done(arena_delimited(d, st, 4, comment_close(), EventType::Comment))) by {
                    reveal(arena_token);
                }
                return Some(self.parse_comment());
            } else if opens_cdata(buf) {
                assert(arena_token(d, l, st) == ArenaToken::Done(arena_delimited(d, st, 9, cdata_close(), EventType::CData))) by {
                    reveal(arena_token);
                }
                return Some(self.parse_cdata());
            } else {
                let after: &[u8] = &buf[2..buf.len()];
                assert(after@ =~= buf@.skip(2));
                let close = SimdScanner::find_tag_close(after);
                proof { lemma_first_index(after@, GT, close); }
                match close {
                    Some(c) => {
                        assert(arena_token(d, l, st) == ArenaToken::Skip(st.pos + 2 + c + 1)) by { reveal(arena_token); }
                        self.consume(2 + c + 1);
                        return None;
                    },
                    None => {
                        assert(arena_token(d, l, st) == ArenaToken::Done(Some((ArenaOutcome::Fault { code: ErrorCode::UnexpectedEof }, st)))) by {
                            reveal(arena_token);
                        }
                        return Some(Err(ParseError::Fault(ErrorCode::UnexpectedEof)));
                    },
                }
            }
        } else if b1 == QMARK {
            assert(arena_token(d, l, st) == ArenaToken::Done(arena_delimited(d, st, 2, pi_close(), EventType::ProcessingInstruction))) by {
                reveal(arena_token);
            }
            return Some(self.parse_pi());
        } else {
            assert(arena_token(d, l, st) == ArenaToken::Done(Some(arena_start_tag(d, l, st)))) by { reveal(arena_token); }
            return Some(self.parse_start_tag());
        }
    }

    /// A comment: the bytes between `<!--` and the first `-->`.
    fn parse_comment(&mut self) -> (r: Result<ZeroCopyEvent<'data>, ParseError>)
        requires
            old(self).wf(),
            arena_delimited(old(self).input(), old(self).state(), 4, comment_close(), EventType::Comment) is Some,
        ensures
            final(self).wf(),
            final(self).input() == old(self).input(),
            final(self).lim() == old(self).lim(),
            ({
                let (o, st) = arena_delimited(old(self).input(), old(self).state(), 4, comment_close(), EventType::Comment)->0;
                arena_result_is(r, o) && final(self).state() == st
            }),
            r matches Ok(ev) ==> ev.data.is_borrowed(),
    {
        let pat: [u8; 3] = [0x2du8, 0x2du8, GT];
        assert(pat@ =~= comment_close());
        self.parse_delimited(4, pat.as_slice(), EventType::Comment)
    }

    /// A CDATA section: the bytes between `<![CDATA[` and the first `]]>`.
    fn parse_cdata(&mut self) -> (r: Result<ZeroCopyEvent<'data>, ParseError>)
        requires
            old(self).wf(),
            arena_delimited(old(self).input(), old(self).state(), 9, cdata_close(), EventType::CData) is Some,
        ensures
            final(self).wf(),
            final(self).input() == old(self).input(),
            final(self).lim() == old(self).lim(),
            ({
                let (o, st) = arena_delimited(old(self).input(), old(self).state(), 9, cdata_close(), EventType::CData)->0;
                arena_result_is(r, o) && final(self).state() == st
            }),
            r matches Ok(ev) ==> ev.data.is_borrowed(),
    {
        let pat: [u8; 3] = [0x5du8, 0x5du8, GT];
        assert(pat@ =~= cdata_close());
        self.parse_delimited(9, pat.as_slice(), EventType::CData)
    }

    /// A processing instruction: the bytes between `<?` and the first `?>`.
    fn parse_pi(&mut self) -> (r: Result<ZeroCopyEvent<'data>, ParseError>)
        requires
            old(self).wf(),
            arena_delimited(old(self).input(), old(self).state(), 2, pi_close(), EventType::ProcessingInstruction) is Some,
        ensures
            final(self).wf(),
            final(self).input() == old(self).input(),
            final(self).lim() == old(self).lim(),
            ({
                let (o, st) = arena_delimited(old(self).input(), old(self).state(), 2, pi_close(), EventType::ProcessingInstruction)->0;
                arena_result_is(r, o) && final(self).state() == st
            }),
            r matches Ok(ev) ==> ev.data.is_borrowed(),
    {
        let pat: [u8; 2] = [QMARK, GT];
        assert(pat@ =~= pi_close());
        self.parse_delimited(2, pat.as_slice(), EventType::ProcessingInstruction)
    }

    /// Whether `next_event` can take the input at the current position: it
    /// cannot take a comment or processing instruction whose closing sequence
    /// overlaps its opening one.
    #[verifier::spinoff_prover]
    #[verifier::rlimit(50)]
    pub fn can_advance(&self) -> (r: bool)
        requires
            self.wf(),
        ensures
            r == (arena_step(self.input(), self.lim(), self.state()) is Some),
    {
        if self.pending_end.is_some() {
            return true;
        }
        let data = self.data;
        let mut pos = self.pos;
        let ghost st0 = self.state();
        let ghost l = self.lim();
        loop
            invariant
                pos <= data@.len(),
                data@ == self.input(),
                st0 == self.state(),
                l == self.lim(),
                st0.pending is None,
                arena_step(data@, l, st0) == arena_step(data@, l, at_pos(st0, pos as int)),
            decreases data.len() - pos,
        {
            let ghost st = at_pos(st0, pos as int);
            let buf: &[u8] = &data[pos..data.len()];
            assert(buf@ =~= data@.skip(pos as int));
            if buf.len() == 0 {
                assert(arena_token(data@, l, st) matches ArenaToken::Done(Some(_))) by { reveal(arena_token); }
                return true;
            }
            let found = SimdScanner::find_xml_structural_char(buf);
            proof { lemma_structural_result(buf@, found); }
            match found {
                None => {
                    assert(arena_token(data@, l, st) matches ArenaToken::Done(Some(_))) by { reveal(arena_token); }
                    return true;
                },
                Some(i) => {
                    if buf[i] != LT || i > 0 || buf.len() < 2 {
                        assert(arena_token(data@, l, st) matches ArenaToken::Done(Some(_))) by { reveal(arena_token); }
                        return true;
                    }
                    let b1 = buf[1];
                    if b1 == SLASH {
                        assert(arena_token(data@, l, st) matches ArenaToken::Done(Some(_))) by { reveal(arena_token); }
                        return true;
                    }
                    if b1 == QMARK {
                        proof { lemma_pi_overlap(buf@); }
                        let r = !(buf.len() >= 3 && buf[2] == GT);
                        assert(arena_token(data@, l, st) matches ArenaToken::Done(x) && (x is Some <==> r)) by {
                            reveal(arena_token);
                        }
                        return r;
                    }
                    if b1 != BANG {
                        assert(arena_token(data@, l, st) matches ArenaToken::Done(Some(_))) by { reveal(arena_token); }
                        return true;
                    }
                    if opens_comment(buf) {
                        proof { lemma_comment_overlap(buf@); }
                        let r = !(buf.len() >= 5 && buf[4] == GT) && !(buf.len() >= 6 && buf[4] == 0x2du8 && buf[5] == GT);
                        assert(arena_token(data@, l, st) matches ArenaToken::Done(x) && (x is Some <==> r)) by {
                            reveal(arena_token);
                        }
                        return r;
                    }
                    if opens_cdata(buf) {
                        proof { lemma_cdata_no_overlap(buf@); }
                        assert(arena_token(data@, l, st) matches ArenaToken::Done(Some(_))) by { reveal(arena_token); }
                        return true;
                    }
                    let after: &[u8] = &buf[2..buf.len()];
                    assert(after@ =~= buf@.skip(2));
                    let close = SimdScanner::find_tag_close(after);
                    proof { lemma_first_index(after@, GT, close); }
                    match close {
                        Some(c) => {
                            assert(arena_token(data@, l, st) == ArenaToken::Skip(pos + 2 + c + 1)) by { reveal(arena_token); }
                            pos = pos + 2 + c + 1;
                        },
                        None => {
                            assert(arena_token(data@, l, st) matches ArenaToken::Done(Some(_))) by { reveal(arena_token); }
                            return true;
                        },
                    }
                },
            }
        }
    }

    /// The start tag at the current position: its name is copied into the
    /// arena and pushed as an open element (and reported as ended on the next
    /// call when the tag closes itself).
    #[verifier::spinoff_prover]
    #[verifier::rlimit(40)]
    fn parse_start_tag(&mut self) -> (r: Result<ZeroCopyEvent<'data>, ParseError>)
        requires
            old(self).wf(),
            old(self).state().pending is None,
            old(self).state().pos + 1 <= old(self).input().len(),
        ensures
            final(self).wf(),
            final(self).input() == old(self).input(),
            final(self).lim() == old(self).lim(),
            ({
                let (o, st) = arena_start_tag(old(self).input(), old(self).lim(), old(self).state());
                arena_result_is(r, o) && final(self).state() == st
            }),
            r matches Ok(ev) ==> ev.data.is_borrowed(),
    {
        reveal(arena_start_tag);
        let buf = self.buffer();
        let rest: &'data [u8] = &buf[1..buf.len()];
        assert(rest@ =~= self.data@.skip(self.pos + 1));
        let (name_len, _delim) = scan_name(rest, self.limits.max_name_len);
        proof {
            assert(rest@.subrange(0, rest@.len() as int) =~= rest@);
            lemma_bounded_scan_run(rest@, 0, self.limits.max_name_len as int, name_len as int, name_stop());
            lemma_run_props(rest@, 0, name_stop());
        }
        let found = SimdScanner::find_tag_close(rest);
        proof { lemma_first_index(rest@, GT, found); }
        match found {
            Some(gt_pos) => {
                let probe = if gt_pos == 0 { 0 } else { gt_pos - 1 };
                let self_closing = rest[probe] == SLASH;
                let region_end = if self_closing { gt_pos - 1 } else { gt_pos };
                proof {
                    assert((name_stop())(rest@[gt_pos as int]));
                    if self_closing {
                        assert((name_stop())(rest@[gt_pos - 1]));
                    }
                }
                let name_bytes: &'data [u8] = &rest[0..name_len];
                assert(name_bytes@ =~= rest@.take(name_len as int));
                let name_in_arena: &'data [u8] = arena_copy(self.arena, name_bytes);
                let mut attrs = ZeroCopyAttributes::new();
                let attr_region: &'data [u8] = &rest[name_len..region_end];
                let ws_skipped = SimdScanner::skip_whitespace(attr_region);
                let attr_start: &'data [u8] = &attr_region[ws_skipped..attr_region.len()];
                assert(attr_start@ =~= attr_region@.skip(ws_skipped as int));
                let _scan = self.parse_attributes_full(attr_start, &mut attrs);
                if self.elem_stack.frames.len() >= self.limits.max_depth {
                    return Err(ParseError::Fault(ErrorCode::DepthLimitExceeded));
                }
                let ghost frames0 = self.elem_stack.frames@;
                self.elem_stack.frames.push(ArenaElementFrame { name: name_in_arena });
                proof {
                    assert(frame_names(self.elem_stack.frames@) =~= frame_names(frames0).push(name_in_arena@));
                }
                self.consume(1 + gt_pos + 1);
                if self_closing {
                    let frame = self.elem_stack.frames.pop().unwrap();
                    assert(self.elem_stack.frames@ =~= frames0);
                    self.pending_end = Some(frame.name);
                }
                Ok(ZeroCopyEvent::new(EventType::StartElement, AttrSlice::direct(name_in_arena), false, None, attrs))
            },
            None => Err(ParseError::Fault(ErrorCode::UnexpectedEof)),
        }
    }

    /// The end tag at the current position.
    fn parse_end_tag(&mut self) -> (r: Result<ZeroCopyEvent<'data>, ParseError>)
        requires
            old(self).wf(),
            old(self).state().pos + 2 <= old(self).input().len(),
        ensures
            final(self).wf(),
            final(self).input() == old(self).input(),
            final(self).lim() == old(self).lim(),
            ({
                let (o, st) = arena_end_tag(old(self).input(), old(self).lim(), old(self).state());
                arena_result_is(r, o) && final(self).state() == st
            }),
            r matches Ok(ev) ==> ev.data.is_borrowed(),
    {
        reveal(arena_end_tag);
        let buf = self.buffer();
        let rest: &'data [u8] = &buf[2..buf.len()];
        assert(rest@ =~= self.data@.skip(self.pos + 2));
        let (name_len, _delim) = scan_name(rest, self.limits.max_name_len);
        proof {
            assert(rest@.subrange(0, rest@.len() as int) =~= rest@);
            lemma_bounded_scan_run(rest@, 0, self.limits.max_name_len as int, name_len as int, name_stop());
        }
        let found = SimdScanner::find_tag_close(rest);
        proof { lemma_first_index(rest@, GT, found); }
        match found {
            Some(gt) => {
                let end_name: &'data [u8] = &rest[0..name_len];
                assert(end_name@ =~= rest@.take(name_len as int));
                let consumed = 2 + gt + 1;
                if self.elem_stack.frames.len() == 0 {
                    self.consume(consumed);
                    return Ok(ZeroCopyEvent::new(
                        EventType::Fault,
                        AttrSlice::direct(end_name),
                        false,
                        Some(ErrorCode::OrphanedEndElement),
                        ZeroCopyAttributes::new(),
                    ));
                }
                let ghost frames0 = self.elem_stack.frames@;
                let top_frame = self.elem_stack.frames.pop().unwrap();
                proof {
                    assert(frame_names(frames0).last() == top_frame.name@);
                    assert(frame_names(self.elem_stack.frames@) =~= frame_names(frames0).drop_last());
                }
                if !bytes_eq(top_frame.name, end_name) {
                    self.elem_stack.frames.push(top_frame);
                    assert(self.elem_stack.frames@ =~= frames0);
                    self.consume(consumed);
                    return Ok(ZeroCopyEvent::new(
                        EventType::Fault,
                        AttrSlice::direct(end_name),
                        false,
                        Some(ErrorCode::MismatchedEndElement),
                        ZeroCopyAttributes::new(),
                    ));
                }
                self.consume(consumed);
                Ok(ZeroCopyEvent::new(
                    EventType::EndElement,
                    AttrSlice::direct(top_frame.name),
                    false,
                    None,
                    ZeroCopyAttributes::new(),
                ))
            },
            None => Err(ParseError::Fault(ErrorCode::UnexpectedEof)),
        }
    }

    /// The construct at the current position that opens with `open_len`
    /// bytes and closes with `close`, reported as `kind`.
    fn parse_delimited(&mut self, open_len: usize, close: &[u8], kind: EventType) -> (r: Result<ZeroCopyEvent<'data>, ParseError>)
        requires
            old(self).wf(),
            close@.len() > 0,
            arena_delimited(old(self).input(), old(self).state(), open_len as int, close@, kind) is Some,
        ensures
            final(self).wf(),
            final(self).input() == old(self).input(),
            final(self).lim() == old(self).lim(),
            ({
                let (o, st) = arena_delimited(old(self).input(), old(self).state(), open_len as int, close@, kind)->0;
                arena_result_is(r, o) && final(self).state() == st
            }),
            r matches Ok(ev) ==> ev.data.is_borrowed(),
    {
        let buf = self.buffer();
        let found = window_position(buf, close);
        proof { crate::search::lemma_first_occurrence(buf@, close@, found); }
        match found {
            Some(pos) => {
                let content: &'data [u8] = &buf[open_len..pos];
                proof { lemma_first_occurrence_props(buf@, close@); }
                assert(occurs_at(buf@, close@, pos as int));
                let cl = close.len();
                let bl = buf.len();
                assert(pos + cl <= bl);
                let adv = pos + cl;
                self.consume(adv);
                Ok(ZeroCopyEvent::new(kind, AttrSlice::direct(content), false, None, ZeroCopyAttributes::new()))
            },
            None => Err(ParseError::Fault(ErrorCode::UnexpectedEof)),
        }
    }
}

} // verus!

verus! {

/// What an outcome `o`, leaving state `st2`, obeys when taken from state
/// `st` over an input of `len` bytes.
pub open spec fn arena_outcome_ok(lim: ArenaLimits, st: ArenaState, o: ArenaOutcome, st2: ArenaState, len: int) -> bool {
    &&& st.pos <= st2.pos <= len
    &&& (o matches ArenaOutcome::Emit { kind, error, .. } ==> (kind == EventType::Fault <==> error is Some))
    &&& (o is Emit && o->kind == EventType::EndElement ==> {
        ||| st.pending == Some(o->data) && st2.stack == st.stack && st2.pending is None
        ||| st.pending is None && st.stack.len() > 0 && o->data == st.stack.last() && st2.stack == st.stack.drop_last()
            && st2.pending is None
    })
    &&& (o is Emit && o->kind == EventType::StartElement ==> {
        &&& st.pending is None
        &&& st.stack.len() < lim.max_depth
        &&& (st2.stack == st.stack.push(o->data) && st2.pending is None) || (st2.stack == st.stack && st2.pending == Some(o->data))
    })
    &&& (!(o matches ArenaOutcome::Emit { kind, .. } && (kind == EventType::EndElement || kind == EventType::StartElement))
        ==> st2.stack == st.stack && st2.pending == st.pending)
    &&& (o is Eof ==> st2 == at_pos(st, len) && st.pending is None && (st.stack.len() == 0 || st.eof_fault_emitted))
}

/// One token obeys `arena_outcome_ok`, and a skipped declaration moves
/// forward inside the input.
proof fn lemma_arena_token_ok(d: Seq<u8>, lim: ArenaLimits, st: ArenaState)
    requires
        0 <= st.pos <= d.len(),
        st.pending is None,
    ensures
        match arena_token(d, lim, st) {
            ArenaToken::Done(Some((o, st2))) => arena_outcome_ok(lim, st, o, st2, d.len() as int),
            ArenaToken::Done(None) => true,
            ArenaToken::Skip(p) => st.pos < p <= d.len(),
        },
{
    reveal(arena_token);
    reveal(arena_start_tag);
    reveal(arena_end_tag);
    let buf = d.skip(st.pos);
    if buf.len() > 0 {
        lemma_structural_from(buf, 0);
        if buf.len() >= 2 {
            lemma_first_index_props(buf.skip(2), GT);
            lemma_first_index_props(d.skip(st.pos + 2), GT);
            lemma_first_index_props(d.skip(st.pos + 1), GT);
            lemma_first_occurrence_props(buf, comment_close());
            lemma_first_occurrence_props(buf, cdata_close());
            lemma_first_occurrence_props(buf, pi_close());
        }
    }
}

/// `arena_step` obeys `arena_outcome_ok`.
proof fn lemma_arena_step_ok(d: Seq<u8>, lim: ArenaLimits, st: ArenaState)
    requires
        0 <= st.pos <= d.len(),
    ensures
        arena_step(d, lim, st) matches Some((o, st2)) ==> arena_outcome_ok(lim, st, o, st2, d.len() as int),
    decreases d.len() - st.pos,
{
    if st.pending is None {
        lemma_arena_token_ok(d, lim, st);
        if let ArenaToken::Skip(p) = arena_token(d, lim, st) {
            lemma_arena_step_ok(d, lim, at_pos(st, p));
        }
    }
}

/// Every event the arena parser reports follows the fault convention: its
/// kind is `Fault` exactly when it carries an error code.
pub proof fn law_arena_fault_convention(d: Seq<u8>, lim: ArenaLimits, st: ArenaState)
    requires
        0 <= st.pos <= d.len(),
    ensures
        arena_step(d, lim, st) matches Some((ArenaOutcome::Emit { kind, error, .. }, _)) ==> (kind == EventType::Fault
            <==> error is Some),
{
    lemma_arena_step_ok(d, lim, st);
}

/// The arena parser only moves forward, and stays inside the input.
pub proof fn law_arena_moves_forward(d: Seq<u8>, lim: ArenaLimits, st: ArenaState)
    requires
        0 <= st.pos <= d.len(),
    ensures
        arena_step(d, lim, st) matches Some((_, st2)) ==> st.pos <= st2.pos <= d.len(),
{
    lemma_arena_step_ok(d, lim, st);
}

/// An end element names the innermost open element and closes it (or is the
/// end of a self-closing element just reported); a start element opens its
/// name, within the depth limit; no other event changes the open elements.
pub proof fn law_arena_elements_nest(d: Seq<u8>, lim: ArenaLimits, st: ArenaState)
    requires
        0 <= st.pos <= d.len(),
    ensures
        arena_step(d, lim, st) matches Some((o, st2)) ==> {
            &&& (o is Emit && o->kind == EventType::EndElement ==> {
                ||| st.pending == Some(o->data) && st2.stack == st.stack
                ||| st.stack.len() > 0 && o->data == st.stack.last() && st2.stack == st.stack.drop_last()
            })
            &&& (o is Emit && o->kind == EventType::StartElement ==> {
                &&& st.stack.len() < lim.max_depth
                &&& st2.stack == st.stack.push(o->data) || (st2.stack == st.stack && st2.pending == Some(o->data))
            })
            &&& (!(o matches ArenaOutcome::Emit { kind, .. } && (kind == EventType::EndElement || kind
                == EventType::StartElement)) ==> st2.stack == st.stack)
        },
{
    lemma_arena_step_ok(d, lim, st);
}

/// The open elements never exceed the depth limit.
pub proof fn law_arena_depth_bounded(d: Seq<u8>, lim: ArenaLimits, st: ArenaState)
    requires
        0 <= st.pos <= d.len(),
        st.stack.len() <= lim.max_depth,
    ensures
        arena_step(d, lim, st) matches Some((_, st2)) ==> st2.stack.len() <= lim.max_depth,
{
    lemma_arena_step_ok(d, lim, st);
}

/// At the end of the input with elements still open, one `UnclosedElement`
/// fault is reported, then `Eof`, and `Eof` again on every later call.
pub proof fn law_arena_end_of_input(d: Seq<u8>, lim: ArenaLimits, st: ArenaState)
    requires
        st.pos == d.len(),
        st.pending is None,
    ensures
        st.stack.len() > 0 && !st.eof_fault_emitted ==> arena_step(d, lim, st) == Some((
            fault_event(ErrorCode::UnclosedElement, Seq::empty()),
            ArenaState { eof_fault_emitted: true, ..st },
        )),
        (st.stack.len() == 0 || st.eof_fault_emitted) ==> arena_step(d, lim, st) == Some((ArenaOutcome::Eof, st)),
{
    reveal(arena_token);
    assert(d.skip(st.pos).len() == 0);
}

/// Once `Eof` is reported, every later call reports `Eof` and changes nothing.
pub proof fn law_arena_eof_repeats(d: Seq<u8>, lim: ArenaLimits, st: ArenaState)
    requires
        0 <= st.pos <= d.len(),
        arena_step(d, lim, st) matches Some((ArenaOutcome::Eof, _)),
    ensures
        arena_step(d, lim, st) matches Some((_, st2)) && arena_step(d, lim, st2) == Some((ArenaOutcome::Eof, st2)),
{
    lemma_arena_step_ok(d, lim, st);
    let st2 = (arena_step(d, lim, st)->0).1;
    law_arena_end_of_input(d, lim, st2);
}

} // verus!
