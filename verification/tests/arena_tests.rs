use bumpalo::Bump;
use ripx::arena_parser::{decode_entities, ArenaParser, ParseError};
use ripx::event::{AttrSlice, ZeroCopyAttributes, ZeroCopyEvent};
use ripx::parser::{ErrorCode, EventType, ParserLimits};

fn limits() -> ParserLimits {
    ParserLimits {
        max_depth: 16,
        max_attributes: 16,
        max_name_len: 64,
        max_attr_name_len: 64,
        max_attr_value_len: 256,
        max_text_chunk_len: 1024,
        max_text_total_len: None,
        max_comment_chunk_len: 512,
        max_comment_total_len: None,
        max_cdata_chunk_len: 512,
        max_cdata_total_len: None,
        max_pi_chunk_len: 256,
        max_pi_total_len: None,
        include_fault_payload: false,
    }
}

#[test]
fn test_attr_slice_direct() {
    let data = b"hello";
    let slice = AttrSlice::direct(data);
    assert_eq!(slice.as_bytes(), b"hello");
}

#[test]
fn test_attr_slice_decoded() {
    let data = vec![b'w', b'o', b'r', b'l', b'd'];
    let slice = AttrSlice::decoded(data);
    assert_eq!(slice.as_bytes(), b"world");
}

#[test]
fn test_zero_copy_attributes() {
    let mut attrs = ZeroCopyAttributes::new();
    assert_eq!(attrs.len(), 0);
    assert!(attrs.is_empty());

    attrs.push(AttrSlice::direct(b"id"), AttrSlice::direct(b"123"));
    attrs.push(AttrSlice::direct(b"name"), AttrSlice::direct(b"test"));

    assert_eq!(attrs.len(), 2);
    assert!(!attrs.is_empty());

    assert_eq!(attrs.get(0), Some((&b"id"[..], &b"123"[..])));
    assert_eq!(attrs.get(1), Some((&b"name"[..], &b"test"[..])));

    assert_eq!(attrs.find(b"id"), Some(&b"123"[..]));
    assert_eq!(attrs.find(b"name"), Some(&b"test"[..]));
    assert_eq!(attrs.find(b"missing"), None);
}

#[test]
fn test_zero_copy_event() {
    let data = AttrSlice::direct(b"element");
    let mut attrs = ZeroCopyAttributes::new();
    attrs.push(AttrSlice::direct(b"key"), AttrSlice::direct(b"value"));

    let event = ZeroCopyEvent::new(EventType::StartElement, data, false, None, attrs);

    assert_eq!(event.event_type, EventType::StartElement);
    assert_eq!(event.data_bytes(), b"element");
    assert!(!event.is_continuation);
    assert_eq!(event.error, None);
    assert_eq!(event.attributes.len(), 1);
}

#[test]
fn test_attributes_iterator() {
    let mut attrs = ZeroCopyAttributes::new();
    attrs.push(AttrSlice::direct(b"a"), AttrSlice::direct(b"1"));
    attrs.push(AttrSlice::direct(b"b"), AttrSlice::direct(b"2"));
    attrs.push(AttrSlice::direct(b"c"), AttrSlice::direct(b"3"));

    let pairs: Vec<_> = attrs.iter().into_iter().collect();
    assert_eq!(pairs.len(), 3);
    assert_eq!(pairs[0], (&b"a"[..], &b"1"[..]));
    assert_eq!(pairs[1], (&b"b"[..], &b"2"[..]));
    assert_eq!(pairs[2], (&b"c"[..], &b"3"[..]));
}

#[test]
fn test_arena_parser_basic() {
    let data = b"<root>text</root>";
    let arena = Bump::new();
    let mut parser = ArenaParser::new(data, &arena, limits());

    let event = parser.next_event().unwrap();
    assert_eq!(event.event_type, EventType::StartElement);
    assert_eq!(event.data_bytes(), b"root");

    let event = parser.next_event().unwrap();
    assert_eq!(event.event_type, EventType::Text);
    assert_eq!(event.data_bytes(), b"text");

    let event = parser.next_event().unwrap();
    assert_eq!(event.event_type, EventType::EndElement);
    assert_eq!(event.data_bytes(), b"root");

    match parser.next_event() {
        Err(ParseError::Eof) => {}
        _ => panic!("Expected EOF"),
    };
}

#[test]
fn test_arena_parser_attributes() {
    let data = b"<elem id=\"123\" name=\"test\"/>";
    let arena = Bump::new();
    let mut parser = ArenaParser::new(data, &arena, limits());

    let event = parser.next_event().unwrap();
    assert_eq!(event.event_type, EventType::StartElement);
    assert_eq!(event.data_bytes(), b"elem");
    assert_eq!(event.attributes.len(), 2);
    assert_eq!(event.attributes.find(b"id"), Some(&b"123"[..]));
    assert_eq!(event.attributes.find(b"name"), Some(&b"test"[..]));
}

#[test]
fn attribute_collection_clear_and_default() {
    let mut attrs = ZeroCopyAttributes::with_capacity(4);
    attrs.push(AttrSlice::direct(b"a"), AttrSlice::decoded(b"x<y".to_vec()));
    assert_eq!(attrs.get(0), Some((&b"a"[..], &b"x<y"[..])));
    assert_eq!(attrs.get(1), None);
    attrs.clear();
    assert!(attrs.is_empty());
    let fresh: ZeroCopyAttributes = Default::default();
    assert_eq!(fresh.len(), 0);
}

#[test]
fn find_returns_first_of_repeated_names() {
    let mut attrs = ZeroCopyAttributes::new();
    attrs.push(AttrSlice::direct(b"k"), AttrSlice::direct(b"first"));
    attrs.push(AttrSlice::direct(b"k"), AttrSlice::direct(b"second"));
    assert_eq!(attrs.find(b"k"), Some(&b"first"[..]));
}

#[test]
fn decode_entities_predefined_and_unknown() {
    assert_eq!(decode_entities(b"a&lt;b&gt;c&amp;d&quot;e&apos;f"), b"a<b>c&d\"e'f".to_vec());
    assert_eq!(decode_entities(b"&copy;x"), b"&copy;x".to_vec());
    assert_eq!(decode_entities(b"a&b"), b"a&b".to_vec());
    assert_eq!(decode_entities(b""), Vec::<u8>::new());
}

#[test]
fn arena_self_closing_reports_end() {
    let data = b"<a/>";
    let arena = Bump::new();
    let mut p = ArenaParser::new(data, &arena, limits());
    let ev = p.next_event().unwrap();
    assert_eq!(ev.event_type, EventType::StartElement);
    assert_eq!(ev.data_bytes(), b"a");
    let ev = p.next_event().unwrap();
    assert_eq!(ev.event_type, EventType::EndElement);
    assert_eq!(ev.data_bytes(), b"a");
    assert_eq!(p.next_event().unwrap_err(), ParseError::Eof);
}

#[test]
fn arena_entity_values_are_decoded() {
    let data = b"<e v='a&amp;b' w=plain>";
    let arena = Bump::new();
    let mut p = ArenaParser::new(data, &arena, limits());
    let ev = p.next_event().unwrap();
    assert_eq!(ev.attributes.find(b"v"), Some(&b"a&b"[..]));
    assert_eq!(ev.attributes.find(b"w"), Some(&b"plain"[..]));
}

#[test]
fn arena_unclosed_then_eof() {
    let data = b"<a>";
    let arena = Bump::new();
    let mut p = ArenaParser::new(data, &arena, limits());
    assert_eq!(p.next_event().unwrap().event_type, EventType::StartElement);
    let ev = p.next_event().unwrap();
    assert_eq!(ev.event_type, EventType::Fault);
    assert_eq!(ev.error, Some(ErrorCode::UnclosedElement));
    assert_eq!(p.next_event().unwrap_err(), ParseError::Eof);
    assert_eq!(p.next_event().unwrap_err(), ParseError::Eof);
}

#[test]
fn arena_orphaned_and_mismatched_end() {
    let data = b"</x><a></b></a>";
    let arena = Bump::new();
    let mut p = ArenaParser::new(data, &arena, limits());
    let ev = p.next_event().unwrap();
    assert_eq!(ev.error, Some(ErrorCode::OrphanedEndElement));
    assert_eq!(ev.data_bytes(), b"x");
    assert_eq!(p.next_event().unwrap().event_type, EventType::StartElement);
    let ev = p.next_event().unwrap();
    assert_eq!(ev.error, Some(ErrorCode::MismatchedEndElement));
    assert_eq!(ev.data_bytes(), b"b");
    let ev = p.next_event().unwrap();
    assert_eq!(ev.event_type, EventType::EndElement);
    assert_eq!(ev.data_bytes(), b"a");
}

#[test]
fn arena_comment_cdata_pi_and_declaration() {
    let data = b"<!DOCTYPE x><!--c--><![CDATA[d]]><?p q?>t&u";
    let arena = Bump::new();
    let mut p = ArenaParser::new(data, &arena, limits());
    let ev = p.next_event().unwrap();
    assert_eq!(ev.event_type, EventType::Comment);
    assert_eq!(ev.data_bytes(), b"c");
    let ev = p.next_event().unwrap();
    assert_eq!(ev.event_type, EventType::CData);
    assert_eq!(ev.data_bytes(), b"d");
    let ev = p.next_event().unwrap();
    assert_eq!(ev.event_type, EventType::ProcessingInstruction);
    assert_eq!(ev.data_bytes(), b"p q");
    let ev = p.next_event().unwrap();
    assert_eq!(ev.event_type, EventType::Text);
    assert_eq!(ev.data_bytes(), b"t&");
    let ev = p.next_event().unwrap();
    assert_eq!(ev.data_bytes(), b"u");
}

#[test]
fn arena_depth_limit_and_unterminated() {
    let mut l = limits();
    l.max_depth = 1;
    let data = b"<a><b>";
    let arena = Bump::new();
    let mut p = ArenaParser::new(data, &arena, l);
    assert_eq!(p.next_event().unwrap().event_type, EventType::StartElement);
    assert_eq!(p.next_event().unwrap_err(), ParseError::Fault(ErrorCode::DepthLimitExceeded));
    let arena2 = Bump::new();
    let mut q = ArenaParser::new(b"<a", &arena2, limits());
    assert_eq!(q.next_event().unwrap_err(), ParseError::Fault(ErrorCode::UnexpectedEof));
}

#[test]
fn arena_cannot_take_overlapping_markup() {
    let arena = Bump::new();
    assert!(!ArenaParser::new(b"<!-->", &arena, limits()).can_advance());
    assert!(!ArenaParser::new(b"<!--->", &arena, limits()).can_advance());
    assert!(!ArenaParser::new(b"<?>", &arena, limits()).can_advance());
    assert!(ArenaParser::new(b"<!---->", &arena, limits()).can_advance());
    assert!(ArenaParser::new(b"<!DOCTYPE><a>", &arena, limits()).can_advance());
}

#[test]
fn arena_events_borrow_their_bytes() {
    let data = b"<root a=\"x&amp;y\">text<!--c--></root>";
    let arena = Bump::new();
    let mut parser = ArenaParser::new(data, &arena, limits());
    loop {
        match parser.next_event() {
            Ok(event) => assert!(matches!(event.data, AttrSlice::Direct(_))),
            Err(_) => break,
        }
    }
}
