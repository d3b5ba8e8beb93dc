//! Picking whole elements out of an event stream: an element with a given
//! name whose first attribute is `id="20121624"` is written out, with
//! everything nested in it, and handed back once its end tag is seen.

use vstd::prelude::*;
use crate::parser::{Event, EventType};
use crate::slice_parser::bytes_eq;
use crate::writer::{event_text, write_event_to_buffer};

verus! {

/// The size of the scratch buffer that start tags are written into.
pub const ID_MATCH_TEMP_SIZE: usize = 4096;

/// The attribute name that selects an element: `id`.
pub open spec fn id_key() -> Seq<u8> {
    seq![0x69u8, 0x64u8]
}

/// The attribute value that selects an element: `20121624`.
pub open spec fn id_value() -> Seq<u8> {
    seq![0x32u8, 0x30u8, 0x31u8, 0x32u8, 0x31u8, 0x36u8, 0x32u8, 0x34u8]
}

/// `ev` opens an element that is picked: a start tag named `target` whose
/// first attribute is `id` with the selecting value.
pub open spec fn is_match_start(ev: Event, target: Seq<u8>) -> bool {
    &&& ev.event_type == EventType::StartElement
    &&& ev.data@ == target
    &&& ev.attributes.pairs_view().len() > 0
    &&& ev.attributes.pairs_view()[0].0 == id_key()
    &&& ev.attributes.pairs_view()[0].1 == id_value()
}

/// One event's effect on (depth inside the picked element, number of picked
/// elements, bytes written so far), with the bytes of a picked element that
/// has just been closed.
pub open spec fn id_match_step(state: (nat, nat, Seq<u8>), ev: Event, target: Seq<u8>)
    -> ((nat, nat, Seq<u8>), Option<Seq<u8>>)
{
    let (depth, count, buffer) = state;
    match ev.event_type {
        EventType::StartElement => if depth > 0 {
            ((depth + 1, count, buffer + event_text(ev)), None)
        } else if is_match_start(ev, target) {
            ((1, count + 1, event_text(ev)), None)
        } else {
            (state, None)
        },
        EventType::EndElement => if depth > 0 {
            let b = buffer + event_text(ev);
            if depth == 1 {
                ((0, count, Seq::empty()), Some(b))
            } else {
                (((depth - 1) as nat, count, b), None)
            }
        } else {
            (state, None)
        },
        EventType::Text | EventType::Comment | EventType::CData | EventType::ProcessingInstruction =>
            if depth > 0 {
                ((depth, count, buffer + event_text(ev)), None)
            } else {
                (state, None)
            },
        _ => (state, None),
    }
}

/// Inside a picked element, text, comments, CDATA sections and processing
/// instructions are written out as they stand, the depth and the count stay,
/// and nothing is handed out.
pub proof fn law_id_match_keeps_inner_content(state: (nat, nat, Seq<u8>), ev: Event, target: Seq<u8>)
    requires
        state.0 > 0,
        ev.event_type == EventType::Text || ev.event_type == EventType::Comment || ev.event_type == EventType::CData
            || ev.event_type == EventType::ProcessingInstruction,
    ensures
        id_match_step(state, ev, target) == ((state.0, state.1, state.2 + event_text(ev)), None::<Seq<u8>>),
{
}

/// The state after the events `evs`, one after the other, and what the last
/// of them handed out.
pub open spec fn id_match_run(state: (nat, nat, Seq<u8>), evs: Seq<Event>, target: Seq<u8>)
    -> ((nat, nat, Seq<u8>), Option<Seq<u8>>)
    decreases evs.len(),
{
    if evs.len() == 0 {
        (state, None)
    } else {
        id_match_step(id_match_run(state, evs.drop_last(), target).0, evs.last(), target)
    }
}

/// The text of events one after the other.
pub open spec fn texts_of(evs: Seq<Event>) -> Seq<u8>
    decreases evs.len(),
{
    if evs.len() == 0 {
        Seq::empty()
    } else {
        texts_of(evs.drop_last()) + event_text(evs.last())
    }
}

/// Events that stay inside an element without opening or closing one.
pub open spec fn flat_content(evs: Seq<Event>) -> bool {
    forall|i: int| 0 <= i < evs.len() ==> {
        let k = (#[trigger] evs[i]).event_type;
        k == EventType::Text || k == EventType::Comment || k == EventType::CData || k == EventType::ProcessingInstruction
    }
}

/// Outside a picked element, an event that does not open one changes
/// nothing and hands nothing out.
pub proof fn law_id_match_outside(state: (nat, nat, Seq<u8>), ev: Event, target: Seq<u8>)
    requires
        state.0 == 0,
        !is_match_start(ev, target),
    ensures
        id_match_step(state, ev, target) == (state, None::<Seq<u8>>),
{
}

/// Inside a picked element, a nested element opened and closed again is
/// written out, leaves the depth where it was, and hands nothing out.
pub proof fn law_id_match_nested(state: (nat, nat, Seq<u8>), start: Event, end: Event, target: Seq<u8>)
    requires
        state.0 > 0,
        start.event_type == EventType::StartElement,
        end.event_type == EventType::EndElement,
    ensures
        id_match_run(state, seq![start, end], target) == (
            (state.0, state.1, state.2 + event_text(start) + event_text(end)),
            None::<Seq<u8>>,
        ),
{
    let evs = seq![start, end];
    assert(evs.drop_last() =~= seq![start]);
    assert(seq![start].drop_last() =~= Seq::<Event>::empty());
    assert(id_match_run(state, Seq::<Event>::empty(), target).0 == state);
    assert(seq![start].last() == start);
    assert(id_match_run(state, seq![start], target) == id_match_step(state, start, target));
    assert(evs.last() == end);
}

/// After a picked start and content that opens nothing, the element is
/// being written: depth one, one more match counted, its bytes so far.
proof fn lemma_id_match_open(count: nat, buffer: Seq<u8>, start: Event, inner: Seq<Event>, target: Seq<u8>)
    requires
        is_match_start(start, target),
        flat_content(inner),
    ensures
        id_match_run((0, count, buffer), seq![start] + inner, target).0 == (1nat, count + 1, event_text(start) + texts_of(inner)),
    decreases inner.len(),
{
    let evs = seq![start] + inner;
    if inner.len() == 0 {
        assert(evs.drop_last() =~= Seq::<Event>::empty());
        assert(evs.last() == start);
        assert(id_match_run((0, count, buffer), evs.drop_last(), target).0 == (0nat, count, buffer));
        assert(id_match_step((0, count, buffer), start, target).0 == (1nat, count + 1, event_text(start)));
        assert(event_text(start) + texts_of(inner) =~= event_text(start));
    } else {
        assert(evs.drop_last() =~= seq![start] + inner.drop_last());
        assert(evs.last() == inner.last());
        assert(flat_content(inner.drop_last())) by {
            assert forall|i: int| 0 <= i < inner.drop_last().len() implies {
                let k = (#[trigger] inner.drop_last()[i]).event_type;
                k == EventType::Text || k == EventType::Comment || k == EventType::CData
                    || k == EventType::ProcessingInstruction
            } by {
                assert(inner.drop_last()[i] == inner[i]);
            }
        }
        lemma_id_match_open(count, buffer, start, inner.drop_last(), target);
        let last = inner.last();
        let st1 = id_match_run((0, count, buffer), evs.drop_last(), target).0;
        assert(st1 == (1nat, count + 1, event_text(start) + texts_of(inner.drop_last())));
        assert(inner[inner.len() - 1] == last);
        law_id_match_keeps_inner_content((1nat, count + 1, event_text(start) + texts_of(inner.drop_last())), last, target);
        assert(event_text(start) + texts_of(inner.drop_last()) + event_text(last) =~= event_text(start) + texts_of(inner));
    }
}

/// A picked element whose content opens no element is handed out whole when
/// it closes: its start tag, every text, comment, CDATA section and
/// processing instruction in it, and its end tag, in order, whatever was
/// written before; one more match is counted and nothing is left written.
pub proof fn law_id_match_element(
    count: nat,
    buffer: Seq<u8>,
    start: Event,
    inner: Seq<Event>,
    end: Event,
    target: Seq<u8>,
)
    requires
        is_match_start(start, target),
        flat_content(inner),
        end.event_type == EventType::EndElement,
    ensures
        id_match_run((0, count, buffer), seq![start] + inner + seq![end], target) == (
            (0nat, count + 1, Seq::<u8>::empty()),
            Some(event_text(start) + texts_of(inner) + event_text(end)),
        ),
{
    let evs = seq![start] + inner + seq![end];
    assert(evs.drop_last() =~= seq![start] + inner);
    assert(evs.last() == end);
    lemma_id_match_open(count, buffer, start, inner, target);
}

/// The bytes of an optional vector.
pub open spec fn opt_bytes(o: Option<Vec<u8>>) -> Option<Seq<u8>> {
    match o {
        Some(v) => Some(v@),
        None => None,
    }
}

/// Tracks whether the events seen so far stand inside a picked element.
pub struct IdMatch {
    pub depth: usize,
    pub count: usize,
    pub buffer: Vec<u8>,
    temp: Vec<u8>,
}

impl View for IdMatch {
    type V = (nat, nat, Seq<u8>);

    closed spec fn view(&self) -> (nat, nat, Seq<u8>) {
        (self.depth as nat, self.count as nat, self.buffer@)
    }
}

impl IdMatch {
    /// Outside any picked element, with none picked yet.
    pub fn new() -> (r: Self)
        ensures
            r@ == (0nat, 0nat, Seq::<u8>::empty()),
    {
        IdMatch { depth: 0, count: 0, buffer: Vec::new(), temp: vec![0u8; ID_MATCH_TEMP_SIZE] }
    }

    /// How many elements have been picked.
    pub fn count(&self) -> (r: usize)
        ensures
            r == self@.1,
    {
        self.count
    }

    /// Whether `ev` opens a picked element.
    fn starts_match(ev: &Event, target: &[u8]) -> (r: bool)
        ensures
            r == is_match_start(*ev, target@),
    {
        if ev.event_type != EventType::StartElement || !bytes_eq(ev.data.as_slice(), target) {
            return false;
        }
        let key: [u8; 2] = [0x69u8, 0x64u8];
        let value: [u8; 8] = [0x32u8, 0x30u8, 0x31u8, 0x32u8, 0x31u8, 0x36u8, 0x32u8, 0x34u8];
        assert(key@ =~= id_key());
        assert(value@ =~= id_value());
        match ev.attributes.get(0) {
            Some((k, v)) => bytes_eq(k, key.as_slice()) && bytes_eq(v, value.as_slice()),
            None => false,
        }
    }

    /// Write `ev` after what was written so far.
    fn write(&mut self, ev: &Event)
        ensures
            final(self)@ == (old(self)@.0, old(self)@.1, old(self)@.2 + event_text(*ev)),
    {
        write_event_to_buffer(ev, &mut self.buffer, self.temp.as_mut_slice());
    }

    /// Take in one event of `target`'s stream; gives the bytes of a picked
    /// element when `ev` closes it.
    pub fn on_event(&mut self, ev: &Event, target: &[u8]) -> (out: Option<Vec<u8>>)
        requires
            old(self)@.0 < usize::MAX,
            old(self)@.1 < usize::MAX,
        ensures
            (final(self)@, opt_bytes(out)) == id_match_step(old(self)@, *ev, target@),
    {
        match ev.event_type {
            EventType::StartElement => {
                if self.depth > 0 {
                    self.write(ev);
                    self.depth = self.depth + 1;
                } else if Self::starts_match(ev, target) {
                    self.depth = 1;
                    self.count = self.count + 1;
                    self.buffer.clear();
                    self.write(ev);
                    assert(self.buffer@ =~= event_text(*ev));
                }
                None
            },
            EventType::EndElement => {
                if self.depth > 0 {
                    self.write(ev);
                    self.depth = self.depth - 1;
                    if self.depth == 0 {
                        let mut out: Vec<u8> = Vec::new();
                        std::mem::swap(&mut out, &mut self.buffer);
                        assert(self.buffer@ =~= Seq::<u8>::empty());
                        return Some(out);
                    }
                }
                None
            },
            EventType::Text | EventType::Comment | EventType::CData | EventType::ProcessingInstruction => {
                if self.depth > 0 {
                    self.write(ev);
                }
                None
            },
            _ => None,
        }
    }
}

} // verus!
