use ripx::attributes::{AttributeTable, Attributes, InternalAttribute, NameBufferKind};
use ripx::element_stack::{ElementFrame, ElementStack};
use ripx::input_buffer::InputBuffer;
use ripx::scratch::ScratchBuffers;
use ripx::source::SliceSource;

#[test]
fn table_capacity() {
    let t = AttributeTable::with_capacity(4);
    assert!(t.entries.capacity() >= 4);
}

#[test]
fn attributes_resolve_from_buffers() {
    let mut scratch = ScratchBuffers::with_limits(8, 8, 8, 8, 8, 8, 8);
    scratch.push_attr_value(b"val");
    let entries = vec![InternalAttribute {
        name_buffer: NameBufferKind::Input,
        name_start: 1,
        name_len: 2,
        value_buffer: NameBufferKind::AttrValueScratch,
        value_start: 0,
        value_len: 3,
    }];
    let attrs = Attributes::from_parts(&entries, b"xidy", &scratch);
    assert_eq!(attrs.len(), 1);
    assert!(!attrs.is_empty());
    assert_eq!(attrs.get(0), Some((&b"id"[..], &b"val"[..])));
    assert_eq!(attrs.get(1), None);
}

#[test]
fn stack_push_pop() {
    let mut s = ElementStack::with_capacity(2);
    assert_eq!(s.len(), 0);
    assert!(s.push(ElementFrame { name_start: 0, name_len: 3 }).is_ok());
    assert!(s.push(ElementFrame { name_start: 3, name_len: 2 }).is_ok());
    assert!(s.push(ElementFrame { name_start: 5, name_len: 1 }).is_err());
    assert_eq!(s.len(), 2);
    s.pop();
    assert_eq!(s.len(), 1);
}

#[test]
fn push_name_into_scratch_and_truncate() {
    let mut scratch = ScratchBuffers::with_limits(3, 3, 3, 3, 3, 3, 3);
    let mut stack = ElementStack::with_capacity(4);
    let name = b"abcdef";
    let res = stack.push_name(&mut scratch, name, 10);
    assert!(res.is_ok());
    let top = stack.top().unwrap();
    assert_eq!(top.name_len, 3);
    assert_eq!(&scratch.name[..], &name[..3]);
}

#[test]
fn truncate_scratch_keeps_open_names() {
    let mut scratch = ScratchBuffers::with_limits(16, 3, 3, 3, 3, 3, 3);
    let mut stack = ElementStack::with_capacity(4);
    stack.push_name(&mut scratch, b"ab", 10).unwrap();
    stack.push_name(&mut scratch, b"cde", 10).unwrap();
    stack.pop();
    stack.truncate_scratch(&mut scratch);
    assert_eq!(&scratch.name[..], b"ab");
}

#[test]
fn fill_and_slice() {
    let data = b"abcdefghij";
    let mut cursor = SliceSource::new(&data[..]);
    let mut ib = InputBuffer::with_capacity(8);
    let n = ib.fill_from(&mut cursor).expect("read");
    assert!(n > 0);
    assert_eq!(ib.as_slice(), &data[..n]);
}

#[test]
fn consume_and_slide() {
    let data = b"0123456789";
    let mut cursor = SliceSource::new(&data[..]);
    let mut ib = InputBuffer::with_capacity(6);
    let _ = ib.fill_from(&mut cursor).expect("read1");
    ib.consume(4);
    let _ = ib.fill_from(&mut cursor).expect("read2");
    let s = ib.as_slice();
    assert!(s.len() > 0);
}

#[test]
fn slide_keeps_order_and_ensure_reports_eof() {
    let mut cursor = SliceSource::new(b"0123456789");
    let mut ib = InputBuffer::with_capacity(6);
    assert_eq!(ib.fill_from(&mut cursor).unwrap(), 6);
    ib.consume(4);
    assert_eq!(ib.fill_from(&mut cursor).unwrap(), 4);
    assert_eq!(ib.as_slice(), b"456789");
    assert_eq!(ib.ensure(7, &mut cursor).unwrap(), false);
    ib.consume(6);
    assert_eq!(ib.ensure(1, &mut cursor).unwrap(), false);
    assert_eq!(ib.fill_from(&mut cursor).unwrap(), 0);
    assert_eq!(ib.len(), 0);
    assert_eq!(ib.capacity(), 6);
}

#[test]
fn push_truncation() {
    let mut s = ScratchBuffers::with_limits(3, 3, 3, 3, 3, 3, 3);
    let data = b"abcdef";
    let (copied, truncated) = s.push_name(data);
    assert_eq!(copied, 3);
    assert!(truncated);
    assert_eq!(s.name.len(), 3);
}

#[test]
fn push_multiple_buffers() {
    let mut s = ScratchBuffers::with_limits(4, 4, 4, 4, 4, 4, 4);
    let (c1, t1) = s.push_attr_name(b"xy");
    assert_eq!(c1, 2);
    assert!(!t1);
    let (c2, t2) = s.push_attr_value(b"12345");
    assert_eq!(c2, 4);
    assert!(t2);
}

#[test]
fn scratch_capacity() {
    let s = ScratchBuffers::with_limits(10, 10, 10, 10, 10, 10, 10);
    assert!(s.name.capacity() >= 10);
}

#[test]
fn scratch_remaining_and_clear() {
    let mut s = ScratchBuffers::with_limits(5, 6, 7, 2, 2, 2, 2);
    s.push_name(b"ab");
    assert_eq!(s.remaining_name_capacity(), 3);
    assert_eq!(s.remaining_attr_name_capacity(), 6);
    assert_eq!(s.remaining_attr_value_capacity(), 7);
    assert_eq!(s.push_text_chunk(b"xyz"), (2, true));
    assert_eq!(s.push_comment_chunk(b"c"), (1, false));
    assert_eq!(s.push_cdata_chunk(b"dd"), (2, false));
    assert_eq!(s.push_pi_chunk(b"eee"), (2, true));
    s.clear_all();
    assert_eq!(s.name.len() + s.text.len() + s.pi.len(), 0);
    assert_eq!(s.remaining_name_capacity(), 5);
}

#[test]
fn full_buffer_reads_nothing() {
    let mut cursor = SliceSource::new(b"abcdefgh");
    let mut ib = InputBuffer::with_capacity(4);
    assert_eq!(ib.fill_from(&mut cursor).unwrap(), 4);
    assert_eq!(ib.fill_from(&mut cursor).unwrap(), 0);
    assert_eq!(ib.as_slice(), b"abcd");
    assert_eq!(cursor.remaining_len(), 4);
}
