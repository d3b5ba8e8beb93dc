//! Writing events back out as XML text: a start tag into a fixed buffer,
//! and any event appended to a growing one.

use vstd::prelude::*;
use crate::parser::{Event, EventType, ParserLimits};
use crate::search::{LT, GT, SLASH, BANG, QMARK, EQ, QUOT, SP, LBRACKET, RBRACKET, DASH};

verus! {

/// The limits a command-line run uses.
pub fn default_limits() -> (r: ParserLimits)
    ensures
        r.max_depth == 16,
        r.max_attributes == 16,
        r.max_name_len == 64,
        r.max_attr_name_len == 512,
        r.max_attr_value_len == 512,
        r.max_text_chunk_len == 1024,
        r.max_text_total_len is None,
        r.max_comment_chunk_len == 512,
        r.max_comment_total_len is None,
        r.max_cdata_chunk_len == 512,
        r.max_cdata_total_len is None,
        r.max_pi_chunk_len == 256,
        r.max_pi_total_len is None,
        !r.include_fault_payload,
{
    ParserLimits {
        max_depth: 16,
        max_attributes: 16,
        max_name_len: 64,
        max_attr_name_len: 512,
        max_attr_value_len: 512,
        max_text_chunk_len: 1024,
        max_text_total_len: None,
        max_comment_chunk_len: 512,
        max_comment_total_len: None,
        max_cdata_chunk_len: 512,
        max_cdata_total_len: None,
        max_pi_chunk_len: 256,
        max_pi_total_len: None,
        include_fault_payload: false,
    }
}

/// ` name="value"`.
pub open spec fn attr_text(p: (Seq<u8>, Seq<u8>)) -> Seq<u8> {
    seq![SP] + p.0 + seq![EQ, QUOT] + p.1 + seq![QUOT]
}

/// The attributes of a start tag, each as ` name="value"`, in order.
pub open spec fn attrs_text(pairs: Seq<(Seq<u8>, Seq<u8>)>) -> Seq<u8>
    decreases pairs.len(),
{
    if pairs.len() == 0 {
        Seq::empty()
    } else {
        attrs_text(pairs.drop_last()) + attr_text(pairs.last())
    }
}

/// A start tag: `<name name1="value1" ...>`.
pub open spec fn start_tag_text(name: Seq<u8>, pairs: Seq<(Seq<u8>, Seq<u8>)>) -> Seq<u8> {
    seq![LT] + name + attrs_text(pairs) + seq![GT]
}

/// The length of the start tag written up to and including the attribute
/// at index `i - 1`.
pub open spec fn tag_prefix_len(name: Seq<u8>, pairs: Seq<(Seq<u8>, Seq<u8>)>, i: int) -> int {
    (1 + name.len() + attrs_text(pairs.take(i)).len()) as int
}

/// Where writing the attributes stops in a buffer of `size` bytes, looking
/// from attribute `i` on: before the first attribute that does not fit, or
/// before the closing `>` when every attribute fits but it does not.
pub open spec fn attrs_stop(name: Seq<u8>, pairs: Seq<(Seq<u8>, Seq<u8>)>, size: int, i: int) -> int
    decreases pairs.len() - i,
{
    if i < 0 || i >= pairs.len() {
        tag_prefix_len(name, pairs, pairs.len() as int)
    } else if tag_prefix_len(name, pairs, i + 1) > size {
        tag_prefix_len(name, pairs, i)
    } else {
        attrs_stop(name, pairs, size, i + 1)
    }
}

/// How many bytes of a start tag that does not fit in `size` bytes are
/// written before writing stops: nothing in an empty buffer, the `<` when
/// the name does not fit, and otherwise the name and the attributes up to
/// the first part that does not fit.
pub open spec fn written_len(name: Seq<u8>, pairs: Seq<(Seq<u8>, Seq<u8>)>, size: int) -> int {
    if size < 1 {
        0
    } else if size < 1 + name.len() {
        1
    } else {
        attrs_stop(name, pairs, size, 0)
    }
}

/// The attribute text of the first `i + 1` pairs extends that of the first `i`.
proof fn lemma_attrs_text_take(pairs: Seq<(Seq<u8>, Seq<u8>)>, i: int)
    requires
        0 <= i < pairs.len(),
    ensures
        attrs_text(pairs.take(i + 1)) == attrs_text(pairs.take(i)) + attr_text(pairs[i]),
{
    assert(pairs.take(i + 1).drop_last() =~= pairs.take(i));
    assert(pairs.take(i + 1).last() == pairs[i]);
}

/// Write `src` into `out` at `offset`.
fn write_at(out: &mut [u8], offset: usize, src: &[u8])
    requires
        offset + src@.len() <= old(out)@.len(),
    ensures
        final(out)@ == old(out)@.take(offset as int) + src@ + old(out)@.skip(offset + src@.len()),
{
    let n = out.len();
    let mut j: usize = 0;
    while j < src.len()
        invariant
            j <= src@.len(),
            n == out@.len(),
            offset + src@.len() <= out@.len(),
            out@.len() == old(out)@.len(),
            out@ == old(out)@.take(offset as int) + src@.take(j as int) + old(out)@.skip(offset + j),
        decreases src.len() - j,
    {
        out[offset + j] = src[j];
        j += 1;
        assert(out@ =~= old(out)@.take(offset as int) + src@.take(j as int) + old(out)@.skip(offset + j));
    }
    assert(src@.take(j as int) =~= src@);
}

/// Write ` name="value"` into `out` at `offset`.
fn write_attr_at(out: &mut [u8], offset: usize, name: &[u8], value: &[u8])
    requires
        offset + 4 + name@.len() + value@.len() <= old(out)@.len(),
    ensures
        final(out)@ == old(out)@.take(offset as int) + attr_text((name@, value@))
            + old(out)@.skip(offset + 4 + name@.len() + value@.len()),
{
    let mut o = offset;
    out[o] = SP;
    o += 1;
    write_at(out, o, name);
    o += name.len();
    out[o] = EQ;
    o += 1;
    out[o] = QUOT;
    o += 1;
    write_at(out, o, value);
    o += value.len();
    out[o] = QUOT;
    assert(out@ =~= old(out)@.take(offset as int) + attr_text((name@, value@))
        + old(out)@.skip(offset + 4 + name@.len() + value@.len()));
}

impl Event {
    /// Write this start element as a start tag, `<name a="v" ...>`, to the
    /// front of `out`, returning its length. Fails for any other event, and
    /// when `out` is too small: writing then stops before the first part
    /// (the name, an attribute, the closing `>`) that does not fit.
    pub fn write_start_element(&self, out: &mut [u8]) -> (r: Result<usize, &'static str>)
        ensures
            ({
                let text = start_tag_text(self.data@, self.attributes.pairs_view());
                let size = old(out)@.len() as int;
                if self.event_type != EventType::StartElement {
                    &&& r is Err
                    &&& r->Err_0@ == "Not a start element"@
                    &&& final(out)@ == old(out)@
                } else if text.len() <= size {
                    &&& r is Ok
                    &&& r->Ok_0 == text.len()
                    &&& final(out)@ == text + old(out)@.skip(text.len() as int)
                } else {
                    let m = written_len(self.data@, self.attributes.pairs_view(), size);
                    &&& r is Err
                    &&& r->Err_0@ == "Buffer is too small"@
                    &&& 0 <= m <= size
                    &&& final(out)@ == text.take(m) + old(out)@.skip(m)
                }
            }),
    {
        match self.event_type {
            EventType::StartElement => {},
            _ => {
                return Err("Not a start element");
            },
        }
        let ghost name = self.data@;
        let ghost pairs = self.attributes.pairs_view();
        let ghost text = start_tag_text(name, pairs);
        let ghost size = out@.len() as int;
        proof {
            assert(pairs.take(pairs.len() as int) =~= pairs);
            lemma_stop_bounds(name, pairs, size, 0);
        }
        let buffer_size = out.len();
        if buffer_size == 0 {
            assert(text.take(0) + old(out)@.skip(0) =~= old(out)@);
            return Err("Buffer is too small");
        }
        let mut offset: usize = 0;
        out[offset] = LT;
        offset += 1;
        assert(out@ =~= text.take(1) + old(out)@.skip(1));
        let name_len = self.data.len();
        proof {
            lemma_tag_prefix(name, pairs, 0);
            lemma_tag_prefix(name, pairs, pairs.len() as int);
            lemma_prefix_grows(name, pairs, 0, pairs.len() as int);
        }
        if buffer_size - offset < name_len {
            return Err("Buffer is too small");
        }
        write_at(out, offset, self.data.as_slice());
        offset += name_len;
        proof {
            assert(pairs.take(0) =~= Seq::<(Seq<u8>, Seq<u8>)>::empty());
            assert(text.take(offset as int) =~= seq![LT] + name + attrs_text(pairs.take(0)));
            assert(out@ =~= text.take(offset as int) + old(out)@.skip(offset as int));
        }
        let mut attr_counter: usize = 0;
        while attr_counter < self.attributes.len()
            invariant
                self.event_type == EventType::StartElement,
                name == self.data@,
                pairs == self.attributes.pairs_view(),
                text == start_tag_text(name, pairs),
                size == old(out)@.len(),
                buffer_size == size,
                out@.len() == size,
                attr_counter <= pairs.len(),
                offset == tag_prefix_len(name, pairs, attr_counter as int),
                offset <= size,
                1 + name.len() <= size,
                attrs_stop(name, pairs, size, 0) == attrs_stop(name, pairs, size, attr_counter as int),
                text.take(offset as int) == seq![LT] + name + attrs_text(pairs.take(attr_counter as int)),
                out@ == text.take(offset as int) + old(out)@.skip(offset as int),
            decreases pairs.len() - attr_counter,
        {
            let pair = self.attributes.get(attr_counter);
            let (attr_name, attr_value) = pair.unwrap();
            proof {
                lemma_attrs_text_take(pairs, attr_counter as int);
                lemma_tag_prefix(name, pairs, attr_counter + 1);
            }
            let name_len = attr_name.len();
            let value_len = attr_value.len();
            if buffer_size - offset < 4 || buffer_size - offset - 4 < name_len
                || buffer_size - offset - 4 - name_len < value_len {
                proof {
                    assert(tag_prefix_len(name, pairs, attr_counter + 1) == offset + 4 + name_len + value_len);
                    lemma_stop_bounds(name, pairs, size, attr_counter as int);
                    lemma_prefix_grows(name, pairs, attr_counter + 1, pairs.len() as int);
                    lemma_tag_prefix(name, pairs, pairs.len() as int);
                }
                return Err("Buffer is too small");
            }
            let ghost o = offset as int;
            write_attr_at(out, offset, attr_name, attr_value);
            offset += 4 + name_len + value_len;
            proof {
                let chunk = attr_text(pairs[attr_counter as int]);
                assert(text.take(offset as int) =~= text.take(o) + chunk);
                assert(out@ =~= text.take(offset as int) + old(out)@.skip(offset as int));
                assert(attrs_stop(name, pairs, size, attr_counter as int) == attrs_stop(name, pairs, size, attr_counter + 1));
            }
            attr_counter += 1;
        }
        proof {
            assert(pairs.take(attr_counter as int) =~= pairs);
        }
        if buffer_size - offset < 1 {
            return Err("Buffer is too small");
        }
        out[offset] = GT;
        offset += 1;
        proof {
            assert(text =~= text.take(offset - 1) + seq![GT]);
            assert(out@ =~= text + old(out)@.skip(offset as int));
        }
        Ok(offset)
    }
}

/// The attribute text of the first `i` pairs begins that of all of them.
proof fn lemma_attrs_prefix(pairs: Seq<(Seq<u8>, Seq<u8>)>, i: int)
    requires
        0 <= i <= pairs.len(),
    ensures
        attrs_text(pairs.take(i)).len() <= attrs_text(pairs).len(),
        attrs_text(pairs).take(attrs_text(pairs.take(i)).len() as int) == attrs_text(pairs.take(i)),
    decreases pairs.len() - i,
{
    if i == pairs.len() {
        assert(pairs.take(i) =~= pairs);
        assert(attrs_text(pairs).take(attrs_text(pairs).len() as int) =~= attrs_text(pairs));
    } else {
        lemma_attrs_prefix(pairs, i + 1);
        lemma_attrs_text_take(pairs, i);
        let a = attrs_text(pairs);
        let ai = attrs_text(pairs.take(i));
        let aj = attrs_text(pairs.take(i + 1));
        assert(a.take(ai.len() as int) =~= aj.take(ai.len() as int));
        assert(aj.take(ai.len() as int) =~= ai);
    }
}

/// The first `tag_prefix_len(.., i)` bytes of a start tag are `<`, the name
/// and the first `i` attributes; the tag is longer than that.
proof fn lemma_tag_prefix(name: Seq<u8>, pairs: Seq<(Seq<u8>, Seq<u8>)>, i: int)
    requires
        0 <= i <= pairs.len(),
    ensures
        start_tag_text(name, pairs).take(tag_prefix_len(name, pairs, i)) == seq![LT] + name + attrs_text(pairs.take(i)),
        tag_prefix_len(name, pairs, i) < start_tag_text(name, pairs).len(),
        start_tag_text(name, pairs).len() == tag_prefix_len(name, pairs, pairs.len() as int) + 1,
{
    lemma_attrs_prefix(pairs, i);
    assert(pairs.take(pairs.len() as int) =~= pairs);
    let t = start_tag_text(name, pairs);
    let a = attrs_text(pairs);
    let ai = attrs_text(pairs.take(i));
    assert(t.take(tag_prefix_len(name, pairs, i)) =~= seq![LT] + name + a.take(ai.len() as int));
}

/// Where writing stops lies between the start and the end of the text, and
/// at a part boundary from `i` on.
proof fn lemma_stop_bounds(name: Seq<u8>, pairs: Seq<(Seq<u8>, Seq<u8>)>, size: int, i: int)
    requires
        0 <= i <= pairs.len(),
    ensures
        tag_prefix_len(name, pairs, i) <= attrs_stop(name, pairs, size, i) <= tag_prefix_len(name, pairs, pairs.len() as int),
        i < pairs.len() && tag_prefix_len(name, pairs, i + 1) > size ==> attrs_stop(name, pairs, size, i) == tag_prefix_len(name, pairs, i),
    decreases pairs.len() - i,
{
    if i < pairs.len() {
        lemma_attrs_text_take(pairs, i);
        lemma_stop_bounds(name, pairs, size, i + 1);
        lemma_prefix_grows(name, pairs, i + 1, pairs.len() as int);
    }
}

/// The written prefix grows with the number of attributes.
proof fn lemma_prefix_grows(name: Seq<u8>, pairs: Seq<(Seq<u8>, Seq<u8>)>, i: int, j: int)
    requires
        0 <= i <= j <= pairs.len(),
    ensures
        tag_prefix_len(name, pairs, i) <= tag_prefix_len(name, pairs, j),
    decreases j - i,
{
    if i < j {
        lemma_attrs_text_take(pairs, i);
        lemma_prefix_grows(name, pairs, i + 1, j);
    }
}

/// The XML text of an event: a start tag, an end tag `</name>`, the text
/// itself, `<!--comment-->`, `<![CDATA[data]]>` or `<?target data?>`;
/// nothing for a fault or the end of input.
pub open spec fn event_text(event: Event) -> Seq<u8> {
    let d = event.data@;
    match event.event_type {
        EventType::StartElement => start_tag_text(d, event.attributes.pairs_view()),
        EventType::EndElement => seq![LT, SLASH] + d + seq![GT],
        EventType::Text => d,
        EventType::Comment => seq![LT, BANG, DASH, DASH] + d + seq![DASH, DASH, GT],
        EventType::CData => seq![LT, BANG, LBRACKET, 0x43u8, 0x44u8, 0x41u8, 0x54u8, 0x41u8, LBRACKET] + d
            + seq![RBRACKET, RBRACKET, GT],
        EventType::ProcessingInstruction => seq![LT, QMARK] + d + seq![QMARK, GT],
        _ => Seq::empty(),
    }
}

/// Append the bytes of `src` to `buffer`.
fn append(buffer: &mut Vec<u8>, src: &[u8])
    ensures
        final(buffer)@ == old(buffer)@ + src@,
{
    let mut j: usize = 0;
    while j < src.len()
        invariant
            j <= src@.len(),
            buffer@ == old(buffer)@ + src@.take(j as int),
        decreases src.len() - j,
    {
        buffer.push(src[j]);
        j += 1;
        assert(buffer@ =~= old(buffer)@ + src@.take(j as int));
    }
    assert(src@.take(j as int) =~= src@);
}

/// Append the XML text of `event` to `buffer`. A start tag is written into
/// `temp_buf` first and copied from there when it fits; otherwise it is
/// built in `buffer` directly.
pub fn write_event_to_buffer(event: &Event, buffer: &mut Vec<u8>, temp_buf: &mut [u8])
    ensures
        final(buffer)@ == old(buffer)@ + event_text(*event),
        ({
            let text = start_tag_text(event.data@, event.attributes.pairs_view());
            let size = old(temp_buf)@.len() as int;
            if event.event_type != EventType::StartElement {
                final(temp_buf)@ == old(temp_buf)@
            } else if text.len() <= size {
                final(temp_buf)@ == text + old(temp_buf)@.skip(text.len() as int)
            } else {
                let m = written_len(event.data@, event.attributes.pairs_view(), size);
                final(temp_buf)@ == text.take(m) + old(temp_buf)@.skip(m)
            }
        }),
{
    let d = event.data.as_slice();
    match event.event_type {
        EventType::StartElement => {
            let ghost text = start_tag_text(event.data@, event.attributes.pairs_view());
            let ghost size = temp_buf@.len() as int;
            let res = event.write_start_element(temp_buf);
            assert(res is Ok ==> text.len() <= size);
            match res {
                Ok(len) => {
                    assert(len == text.len());
                    assert(temp_buf@ == text + old(temp_buf)@.skip(text.len() as int));
                    let written: &[u8] = &temp_buf[0..len];
                    assert(written@ =~= start_tag_text(d@, event.attributes.pairs_view()));
                    append(buffer, written);
                },
                Err(_) => {
                    let ghost pairs = event.attributes.pairs_view();
                    let ghost start = buffer@;
                    buffer.push(LT);
                    append(buffer, d);
                    let mut i: usize = 0;
                    assert(pairs.take(0) =~= Seq::<(Seq<u8>, Seq<u8>)>::empty());
                    while i < event.attributes.len()
                        invariant
                            i <= pairs.len(),
                            pairs == event.attributes.pairs_view(),
                            d@ == event.data@,
                            buffer@ == start + seq![LT] + d@ + attrs_text(pairs.take(i as int)),
                        decreases pairs.len() - i,
                    {
                        let pair = event.attributes.get(i);
                        let (name, value) = pair.unwrap();
                        proof { lemma_attrs_text_take(pairs, i as int); }
                        let ghost before = buffer@;
                        buffer.push(SP);
                        append(buffer, name);
                        buffer.push(EQ);
                        buffer.push(QUOT);
                        append(buffer, value);
                        buffer.push(QUOT);
                        assert(buffer@ =~= before + attr_text(pairs[i as int]));
                        i += 1;
                    }
                    assert(pairs.take(i as int) =~= pairs);
                    buffer.push(GT);
                    assert(buffer@ =~= start + start_tag_text(d@, pairs));
                },
            }
        },
        EventType::EndElement => {
            let ghost start = buffer@;
            buffer.push(LT);
            buffer.push(SLASH);
            append(buffer, d);
            buffer.push(GT);
            assert(buffer@ =~= start + event_text(*event));
        },
        EventType::Text => {
            append(buffer, d);
        },
        EventType::Comment => {
            let ghost start = buffer@;
            let open: [u8; 4] = [LT, BANG, DASH, DASH];
            let close: [u8; 3] = [DASH, DASH, GT];
            append(buffer, open.as_slice());
            append(buffer, d);
            append(buffer, close.as_slice());
            assert(buffer@ =~= start + event_text(*event));
        },
        EventType::CData => {
            let ghost start = buffer@;
            let open: [u8; 9] = [LT, BANG, LBRACKET, 0x43u8, 0x44u8, 0x41u8, 0x54u8, 0x41u8, LBRACKET];
            let close: [u8; 3] = [RBRACKET, RBRACKET, GT];
            append(buffer, open.as_slice());
            append(buffer, d);
            append(buffer, close.as_slice());
            assert(buffer@ =~= start + event_text(*event));
        },
        EventType::ProcessingInstruction => {
            let ghost start = buffer@;
            buffer.push(LT);
            buffer.push(QMARK);
            append(buffer, d);
            buffer.push(QMARK);
            buffer.push(GT);
            assert(buffer@ =~= start + event_text(*event));
        },
        _ => {
            assert(old(buffer)@ + event_text(*event) =~= old(buffer)@);
        },
    }
}

} // verus!
