//! Documents made only of text, start tags without `/>` and end tags, and
//! what the reader makes of them: every such document is read to its end
//! without an error, and the records of its end elements give it back.

use vstd::prelude::*;
use crate::reader::{
    EventView, attr_head, attr_layout, end_tag_layout, is_name, name_end, name_parts, quoted_value, run_records,
    start_tag_layout, step_outside, tag_rest, value_end,
};
use crate::search::{APOS, EQ, GT, LT, QUOT, SLASH, is_ws};
use crate::simd_scanner::is_name_byte;
use crate::tokenizer::{lemma_run_unique, quote_stop, run_from, ws_stop};

verus! {

/// Whitespace only.
pub open spec fn all_ws(s: Seq<u8>) -> bool {
    forall|i: int| 0 <= i < s.len() ==> is_ws(#[trigger] s[i])
}

/// A run of bytes that `stop` does not stop, then bytes that start with a
/// stopping byte (or nothing): the run is all of the first part.
pub proof fn lemma_run_prefix(a: Seq<u8>, b: Seq<u8>, stop: spec_fn(u8) -> bool)
    requires
        forall|i: int| 0 <= i < a.len() ==> !stop(#[trigger] a[i]),
        b.len() == 0 || stop(b[0]),
    ensures
        run_from(a + b, 0, stop) == a.len(),
        (a + b).skip(a.len() as int) == b,
{
    let s = a + b;
    assert forall|j: int| 0 <= j < a.len() implies !stop(#[trigger] s[j]) by {
        assert(s[j] == a[j]);
    }
    if b.len() > 0 {
        assert(s[a.len() as int] == b[0]);
    }
    lemma_run_unique(s, 0, stop, a.len() as int);
    assert(s.skip(a.len() as int) =~= b);
}

/// The bytes of an end tag: `</`, the name, whitespace, `>`.
pub open spec fn end_bytes(name: Seq<u8>, ws: Seq<u8>) -> Seq<u8> {
    seq![LT, SLASH] + name + ws + seq![GT]
}

/// Reading an end tag from between tags gives its end element, whose record
/// is what was recorded before followed by the tag.
#[verifier::spinoff_prover]
#[verifier::rlimit(100)]
pub proof fn lemma_end_piece(name: Seq<u8>, ws: Seq<u8>, rest: Seq<u8>, acc: Seq<u8>)
    requires
        is_name(name),
        all_ws(ws),
    ensures
        step_outside(end_bytes(name, ws) + rest, acc) == Some(
            (EventView::End(name, acc + end_bytes(name, ws)), rest, Seq::<u8>::empty(), None::<Seq<u8>>),
        ),
{
    let bytes = end_bytes(name, ws);
    let s = bytes + rest;
    assert(s[0] == LT);
    assert(run_from(s, 0, quote_stop(LT)) == 0);
    let s1 = s.skip(1);
    assert(s1 =~= seq![SLASH] + (name + (ws + (seq![GT] + rest))));
    assert(s1[0] == SLASH);
    let t = s1.skip(1);
    assert(t =~= name + (ws + (seq![GT] + rest)));
    assert(!is_ws(name[0]));
    assert(t[0] == name[0]);
    lemma_run_unique(t, 0, ws_stop(), 0);
    assert(t.skip(0) =~= t);
    let u = ws + (seq![GT] + rest);
    if u.len() > 0 {
        assert(!is_name_byte(u[0])) by {
            if ws.len() > 0 {
                assert(u[0] == ws[0]);
                assert(is_ws(ws[0]));
            } else {
                assert(u[0] == GT);
            }
        }
    }
    assert forall|i: int| 0 <= i < name.len() implies !(name_end())(#[trigger] name[i]) by {}
    lemma_run_prefix(name, u, name_end());
    assert(name_parts(t) == (0int, name.len() as int));
    let s2 = t.skip(name.len() as int);
    assert(s2 =~= u);
    assert forall|i: int| 0 <= i < ws.len() implies !(ws_stop())(#[trigger] ws[i]) by {}
    lemma_run_prefix(ws, seq![GT] + rest, ws_stop());
    let s3 = s2.skip(ws.len() as int);
    assert(s3 =~= seq![GT] + rest);
    assert(s3.skip(1) =~= rest);
    assert(t.skip(0).take(name.len() as int) =~= name);
    assert(end_tag_layout(s1) == Some((name, rest)));
    assert(s1.take(s1.len() - rest.len()) =~= bytes.skip(1));
    assert(acc.push(LT) + bytes.skip(1) =~= acc + bytes);
}

/// Reading text from between tags, up to a `<` or the end, gives that text.
pub proof fn lemma_text_piece(text: Seq<u8>, rest: Seq<u8>, acc: Seq<u8>)
    requires
        text.len() > 0,
        forall|i: int| 0 <= i < text.len() ==> #[trigger] text[i] != LT,
        rest.len() == 0 || rest[0] == LT,
    ensures
        step_outside(text + rest, acc) == Some(
            (EventView::Text(text), rest, acc + text, None::<Seq<u8>>),
        ),
{
    assert forall|i: int| 0 <= i < text.len() implies !(quote_stop(LT))(#[trigger] text[i]) by {}
    lemma_run_prefix(text, rest, quote_stop(LT));
    assert((text + rest).take(text.len() as int) =~= text);
}

/// An attribute as written: whitespace (at least one byte), its name,
/// whitespace, `=`, whitespace, a quote, the value, the same quote.
pub struct AttrText {
    pub ws1: Seq<u8>,
    pub key: Seq<u8>,
    pub ws2: Seq<u8>,
    pub ws3: Seq<u8>,
    pub quote: u8,
    pub value: Seq<u8>,
}

/// The parts fit together: the whitespace is whitespace, the name a name,
/// the quote a quote, and the value holds neither that quote nor `<`.
pub open spec fn attr_ok(a: AttrText) -> bool {
    &&& a.ws1.len() > 0
    &&& all_ws(a.ws1)
    &&& is_name(a.key)
    &&& all_ws(a.ws2)
    &&& all_ws(a.ws3)
    &&& (a.quote == QUOT || a.quote == APOS)
    &&& forall|i: int| 0 <= i < a.value.len() ==> #[trigger] a.value[i] != a.quote && a.value[i] != LT
}

/// The bytes of an attribute after its leading whitespace.
pub open spec fn attr_body(a: AttrText) -> Seq<u8> {
    a.key + a.ws2 + seq![EQ] + a.ws3 + seq![a.quote] + a.value + seq![a.quote]
}

/// The bytes of an attribute.
pub open spec fn attr_bytes(a: AttrText) -> Seq<u8> {
    a.ws1 + attr_body(a)
}

/// The bytes of attributes one after the other.
pub open spec fn attrs_bytes(attrs: Seq<AttrText>) -> Seq<u8>
    decreases attrs.len(),
{
    if attrs.len() == 0 {
        Seq::empty()
    } else {
        attr_bytes(attrs[0]) + attrs_bytes(attrs.skip(1))
    }
}

/// The names and values of attributes.
pub open spec fn attrs_pairs(attrs: Seq<AttrText>) -> Seq<(Seq<u8>, Seq<u8>)> {
    attrs.map_values(|a: AttrText| (a.key, a.value))
}

/// A name byte is no whitespace.
proof fn lemma_name_not_ws(s: Seq<u8>)
    requires
        is_name(s),
    ensures
        !is_ws(s[0]),
        is_name_byte(s[0]),
{
}

/// An attribute (after its leading whitespace) is read as its name and
/// value.
#[verifier::spinoff_prover]
#[verifier::rlimit(100)]
proof fn lemma_attr_body(a: AttrText, more: Seq<u8>)
    requires
        attr_ok(a),
    ensures
        attr_layout(attr_body(a) + more) == Some((a.key, a.value, more)),
{
    let q = a.quote;
    let s = attr_body(a) + more;
    let u = a.ws2 + (seq![EQ] + (a.ws3 + (seq![q] + (a.value + (seq![q] + more)))));
    assert(s =~= a.key + u);
    lemma_name_not_ws(a.key);
    assert(s[0] == a.key[0]);
    lemma_run_unique(s, 0, ws_stop(), 0);
    assert(s.skip(0) =~= s);
    if u.len() > 0 {
        assert(!is_name_byte(u[0])) by {
            if a.ws2.len() > 0 {
                assert(u[0] == a.ws2[0]);
                assert(is_ws(a.ws2[0]));
            } else {
                assert(u[0] == EQ);
            }
        }
    }
    assert forall|i: int| 0 <= i < a.key.len() implies !(name_end())(#[trigger] a.key[i]) by {}
    lemma_run_prefix(a.key, u, name_end());
    assert(name_parts(s) == (0int, a.key.len() as int));
    let s1 = s.skip(a.key.len() as int);
    assert(s1 =~= u);
    let v2 = seq![EQ] + (a.ws3 + (seq![q] + (a.value + (seq![q] + more))));
    assert forall|i: int| 0 <= i < a.ws2.len() implies !(ws_stop())(#[trigger] a.ws2[i]) by {}
    lemma_run_prefix(a.ws2, v2, ws_stop());
    let s2 = s1.skip(a.ws2.len() as int);
    assert(s2 =~= v2);
    let s3 = s2.skip(1);
    let v3 = seq![q] + (a.value + (seq![q] + more));
    assert(s3 =~= a.ws3 + v3);
    assert forall|i: int| 0 <= i < a.ws3.len() implies !(ws_stop())(#[trigger] a.ws3[i]) by {}
    lemma_run_prefix(a.ws3, v3, ws_stop());
    let s4 = s3.skip(a.ws3.len() as int);
    assert(s4 =~= v3);
    assert(s.skip(0).take(a.key.len() as int) =~= a.key);
    assert(attr_head(s) == Some((a.key, s4)));
    let s5 = s4.skip(1);
    assert(s5 =~= a.value + (seq![q] + more));
    assert forall|i: int| 0 <= i < a.value.len() implies !(value_end(q))(#[trigger] a.value[i]) by {}
    lemma_run_prefix(a.value, seq![q] + more, value_end(q));
    assert(s5[a.value.len() as int] == q);
    assert(s5.take(a.value.len() as int) =~= a.value);
    assert(s5.skip(a.value.len() + 1int) =~= more);
    assert(quoted_value(s4) == Some((a.value, more)));
}

/// Attributes, then whitespace and `>`, are read as those attributes, with
/// what follows the `>` left.
#[verifier::spinoff_prover]
#[verifier::rlimit(100)]
proof fn lemma_attrs_rest(attrs: Seq<AttrText>, trail: Seq<u8>, rest: Seq<u8>)
    requires
        forall|i: int| 0 <= i < attrs.len() ==> attr_ok(#[trigger] attrs[i]),
        all_ws(trail),
    ensures
        tag_rest(attrs_bytes(attrs) + (trail + (seq![GT] + rest))) == Some((attrs_pairs(attrs), rest, false)),
    decreases attrs.len(),
{
    let tail = trail + (seq![GT] + rest);
    let s = attrs_bytes(attrs) + tail;
    if attrs.len() == 0 {
        assert(s =~= tail);
        assert forall|i: int| 0 <= i < trail.len() implies !(ws_stop())(#[trigger] trail[i]) by {}
        lemma_run_prefix(trail, seq![GT] + rest, ws_stop());
        let s2 = s.skip(trail.len() as int);
        assert(s2 =~= seq![GT] + rest);
        assert(s2.skip(1) =~= rest);
        assert(attrs_pairs(attrs) =~= Seq::<(Seq<u8>, Seq<u8>)>::empty());
    } else {
        let a = attrs[0];
        assert(attr_ok(a));
        let more = attrs_bytes(attrs.skip(1)) + tail;
        assert(s =~= a.ws1 + (attr_body(a) + more));
        lemma_name_not_ws(a.key);
        assert((attr_body(a) + more)[0] == a.key[0]);
        assert forall|i: int| 0 <= i < a.ws1.len() implies !(ws_stop())(#[trigger] a.ws1[i]) by {}
        lemma_run_prefix(a.ws1, attr_body(a) + more, ws_stop());
        let s2 = s.skip(a.ws1.len() as int);
        assert(s2 =~= attr_body(a) + more);
        lemma_attr_body(a, more);
        assert(s2[0] != SLASH && s2[0] != GT);
        assert forall|i: int| 0 <= i < attrs.skip(1).len() implies attr_ok(#[trigger] attrs.skip(1)[i]) by {
            assert(attrs.skip(1)[i] == attrs[i + 1]);
        }
        lemma_attrs_rest(attrs.skip(1), trail, rest);
        assert(more.len() < s.len());
        assert(attrs_pairs(attrs) =~= seq![(a.key, a.value)] + attrs_pairs(attrs.skip(1)));
    }
}

/// The bytes of a start tag: `<`, the name, the attributes, whitespace, `>`.
pub open spec fn start_bytes(name: Seq<u8>, attrs: Seq<AttrText>, trail: Seq<u8>) -> Seq<u8> {
    seq![LT] + name + attrs_bytes(attrs) + trail + seq![GT]
}

/// Reading a start tag from between tags gives its start element, and the
/// record grows by the tag.
#[verifier::spinoff_prover]
#[verifier::rlimit(100)]
pub proof fn lemma_start_piece(name: Seq<u8>, attrs: Seq<AttrText>, trail: Seq<u8>, rest: Seq<u8>, acc: Seq<u8>)
    requires
        is_name(name),
        forall|i: int| 0 <= i < attrs.len() ==> attr_ok(#[trigger] attrs[i]),
        all_ws(trail),
    ensures
        step_outside(start_bytes(name, attrs, trail) + rest, acc) == Some(
            (EventView::Start(name, attrs_pairs(attrs)), rest, acc + start_bytes(name, attrs, trail), None::<Seq<u8>>),
        ),
{
    let bytes = start_bytes(name, attrs, trail);
    let s = bytes + rest;
    assert(s[0] == LT);
    assert(run_from(s, 0, quote_stop(LT)) == 0);
    let s1 = s.skip(1);
    let u = attrs_bytes(attrs) + (trail + (seq![GT] + rest));
    assert(s1 =~= name + u);
    lemma_name_not_ws(name);
    assert(s1[0] == name[0]);
    lemma_run_unique(s1, 0, ws_stop(), 0);
    assert(s1.skip(0) =~= s1);
    if u.len() > 0 {
        assert(!is_name_byte(u[0])) by {
            if attrs.len() > 0 {
                assert(attr_ok(attrs[0]));
                assert(u[0] == attrs[0].ws1[0]);
                assert(is_ws(attrs[0].ws1[0]));
            } else if trail.len() > 0 {
                assert(u[0] == trail[0]);
                assert(is_ws(trail[0]));
            } else {
                assert(u[0] == GT);
            }
        }
    }
    assert forall|i: int| 0 <= i < name.len() implies !(name_end())(#[trigger] name[i]) by {}
    lemma_run_prefix(name, u, name_end());
    assert(name_parts(s1) == (0int, name.len() as int));
    assert(s1.skip(name.len() as int) =~= u);
    lemma_attrs_rest(attrs, trail, rest);
    assert(s1.skip(0).take(name.len() as int) =~= name);
    assert(start_tag_layout(s1) == Some((name, attrs_pairs(attrs), rest, false)));
    assert(s1[0] != SLASH && s1[0] != 0x21u8 && s1[0] != 0x3fu8);
    assert(s1.take(s1.len() - rest.len()) =~= bytes.skip(1));
    assert(acc.push(LT) + bytes.skip(1) =~= acc + bytes);
}

/// A piece of a document: text, a start tag (name, attributes, whitespace
/// before `>`), or an end tag (name, whitespace before `>`).
pub enum Piece {
    Text(Seq<u8>),
    Start(Seq<u8>, Seq<AttrText>, Seq<u8>),
    End(Seq<u8>, Seq<u8>),
}

/// The parts of a piece fit together; text is not empty and holds no `<`.
pub open spec fn piece_ok(p: Piece) -> bool {
    match p {
        Piece::Text(t) => t.len() > 0 && forall|i: int| 0 <= i < t.len() ==> #[trigger] t[i] != LT,
        Piece::Start(n, a, w) => is_name(n) && all_ws(w) && forall|i: int| 0 <= i < a.len() ==> attr_ok(#[trigger] a[i]),
        Piece::End(n, w) => is_name(n) && all_ws(w),
    }
}

/// The bytes of a piece.
pub open spec fn piece_bytes(p: Piece) -> Seq<u8> {
    match p {
        Piece::Text(t) => t,
        Piece::Start(n, a, w) => start_bytes(n, a, w),
        Piece::End(n, w) => end_bytes(n, w),
    }
}

/// The bytes of pieces one after the other.
pub open spec fn doc_bytes(ps: Seq<Piece>) -> Seq<u8>
    decreases ps.len(),
{
    if ps.len() == 0 {
        Seq::empty()
    } else {
        piece_bytes(ps[0]) + doc_bytes(ps.skip(1))
    }
}

/// Every piece fits together, and no text directly follows text.
pub open spec fn doc_ok(ps: Seq<Piece>) -> bool {
    &&& forall|i: int| 0 <= i < ps.len() ==> piece_ok(#[trigger] ps[i])
    &&& forall|i: int| 0 <= i < ps.len() - 1 ==> (#[trigger] ps[i] is Text ==> !(ps[i + 1] is Text))
}

/// Reading a document from between tags, having recorded `acc`: it ends
/// without an error, and the records of the end elements, then what is
/// recorded at the end, are `acc` followed by the document; after a last
/// end tag nothing is recorded at the end.
#[verifier::spinoff_prover]
#[verifier::rlimit(100)]
proof fn lemma_doc_run(ps: Seq<Piece>, acc: Seq<u8>, fuel: nat)
    requires
        doc_ok(ps),
        fuel > ps.len(),
    ensures
        run_records(doc_bytes(ps), acc, fuel) matches Some((t, last)) && t + last == acc + doc_bytes(ps)
            && (ps.len() > 0 && ps.last() is End ==> last.len() == 0),
    decreases ps.len(),
{
    let d = doc_bytes(ps);
    if ps.len() == 0 {
        assert(d.len() == 0);
        assert(run_from(d, 0, quote_stop(LT)) == 0);
        assert(acc + d =~= acc);
        assert(Seq::<u8>::empty() + acc =~= acc);
    } else {
        let p0 = ps[0];
        let tail = ps.skip(1);
        let rest = doc_bytes(tail);
        assert(piece_ok(p0));
        assert(doc_ok(tail)) by {
            assert forall|i: int| 0 <= i < tail.len() implies piece_ok(#[trigger] tail[i]) by {
                assert(tail[i] == ps[i + 1]);
            }
            assert forall|i: int| 0 <= i < tail.len() - 1 implies (#[trigger] tail[i] is Text ==> !(tail[i + 1] is Text)) by {
                assert(tail[i] == ps[i + 1]);
                assert(tail[i + 1] == ps[i + 2]);
            }
        }
        if tail.len() > 0 {
            assert(tail[0] == ps[1]);
            assert(piece_ok(tail[0]));
        }
        lemma_doc_run(tail, Seq::empty(), (fuel - 1) as nat);
        match p0 {
            Piece::Text(t) => {
                if tail.len() > 0 {
                    assert(!(tail[0] is Text));
                    assert(rest[0] == LT) by {
                        assert(rest == piece_bytes(tail[0]) + doc_bytes(tail.skip(1)));
                    }
                }
                lemma_text_piece(t, rest, acc);
                lemma_doc_run(tail, acc + t, (fuel - 1) as nat);
                let r = run_records(rest, acc + t, (fuel - 1) as nat);
                assert(acc + t + rest =~= acc + d);
                if tail.len() > 0 {
                    assert(ps.last() == tail.last());
                }
            },
            Piece::Start(n, a, w) => {
                lemma_start_piece(n, a, w, rest, acc);
                lemma_doc_run(tail, acc + start_bytes(n, a, w), (fuel - 1) as nat);
                assert(acc + start_bytes(n, a, w) + rest =~= acc + d);
                if tail.len() > 0 {
                    assert(ps.last() == tail.last());
                }
            },
            Piece::End(n, w) => {
                lemma_end_piece(n, w, rest, acc);
                let r = run_records(rest, Seq::<u8>::empty(), (fuel - 1) as nat)->Some_0;
                assert(Seq::<u8>::empty() + rest =~= rest);
                assert(acc + end_bytes(n, w) + r.0 + r.1 =~= acc + d);
                if tail.len() > 0 {
                    assert(ps.last() == tail.last());
                } else {
                    assert(rest.len() == 0);
                    assert(run_from(rest, 0, quote_stop(LT)) == 0);
                }
            },
        }
    }
}

/// A document of text, start tags without `/>` and end tags, read from the
/// start, is read to its end without an error; the records of its end
/// elements, joined in order and followed by what is recorded at the end,
/// give the document back, and when it ends with an end tag the records
/// alone do.
pub proof fn law_plain_doc_records(ps: Seq<Piece>)
    requires
        doc_ok(ps),
    ensures
        run_records(doc_bytes(ps), Seq::empty(), (ps.len() + 1) as nat) matches Some((t, last))
            && t + last == doc_bytes(ps)
            && (ps.len() > 0 && ps.last() is End ==> t == doc_bytes(ps)),
{
    lemma_doc_run(ps, Seq::empty(), (ps.len() + 1) as nat);
    assert(Seq::<u8>::empty() + doc_bytes(ps) =~= doc_bytes(ps));
    if let Some((t, last)) = run_records(doc_bytes(ps), Seq::empty(), (ps.len() + 1) as nat) {
        if ps.len() > 0 && ps.last() is End {
            assert(last.len() == 0);
            assert(t + last =~= t);
        }
    }
}

} // verus!
