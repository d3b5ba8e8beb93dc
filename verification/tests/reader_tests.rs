use ripx::reader::{Event, ReadError, Reader};
use ripx::source::SliceSource;

fn events_from(s: &str) -> Vec<Event> {
    let mut reader = Reader::from_reader(SliceSource::new(s.as_bytes()));
    let mut out = Vec::new();
    loop {
        let ev = match reader.next_event() {
            Ok(event) => event,
            Err(error) => {
                println!("Parse error: {:?}", error);
                let _ = reader.advance();
                continue;
            }
        };
        match ev {
            Event::Eof => break,
            _ => out.push(ev),
        }
    }
    out
}

fn strip_ws_text(events: Vec<Event>) -> Vec<Event> {
    events
        .into_iter()
        .filter_map(|e| match e {
            Event::Text(t) => {
                if t.iter().all(|&b| b == b' ' || b == b'\n' || b == b'\r' || b == b'\t') {
                    None
                } else {
                    Some(Event::Text(t))
                }
            }
            other => Some(other),
        })
        .collect()
}

#[test]
fn simple_accumulator() {
    let xml = "<root></root>";
    let ev = events_from(xml);
    assert_eq!(ev.len(), 2);
    match &ev[1] {
        Event::EndElement { accumulated, .. } => assert_eq!(accumulated.as_slice(), xml.as_bytes()),
        _ => panic!("expected EndElement"),
    }
}

fn test_broken(xml: &str) {
    let ev = events_from(xml);
    assert_eq!(ev.len(), 2);
    match &ev[1] {
        Event::EndElement { accumulated, .. } => {
            assert_eq!(String::from_utf8_lossy(accumulated), String::from_utf8_lossy(xml.as_bytes()))
        }
        _ => panic!("expected EndElement"),
    }
}

#[test]
fn broken_tag_recovery_1() {
    test_broken("<root><broken</root>");
}

#[test]
fn broken_tag_recovery_2() {
    test_broken("<root><broken a</root>");
}

#[test]
fn broken_tag_recovery_3() {
    test_broken("<root><broken a=</root>");
}

#[test]
fn broken_tag_recovery_4() {
    test_broken("<root><broken a=\"</root>");
}

#[test]
fn single_empty_element_no_attrs() {
    let ev = events_from("<root></root>");
    assert_eq!(ev.len(), 2);
    match &ev[0] {
        Event::StartElement { name, attributes } => {
            assert_eq!(name.as_slice(), b"root");
            assert!(attributes.is_empty());
        }
        _ => panic!("expected StartElement"),
    }
    match &ev[1] {
        Event::EndElement { name, .. } => assert_eq!(name.as_slice(), b"root"),
        _ => panic!("expected EndElement"),
    }
}

#[test]
fn single_empty_element_self_closing() {
    let ev = events_from("<root/>");
    assert_eq!(ev.len(), 2);
    match &ev[0] {
        Event::StartElement { name, attributes } => {
            assert_eq!(name.as_slice(), b"root");
            assert!(attributes.is_empty());
        }
        _ => panic!("expected StartElement"),
    }
}

#[test]
fn nested_elements_and_text() {
    let ev = strip_ws_text(events_from("<root><child>hello</child><child>world</child></root>"));
    assert_eq!(ev.len(), 8);
    match &ev[0] {
        Event::StartElement { name, .. } => assert_eq!(name.as_slice(), b"root"),
        _ => panic!("expected StartElement(root)"),
    }
    match &ev[1] {
        Event::StartElement { name, .. } => assert_eq!(name.as_slice(), b"child"),
        _ => panic!("expected StartElement(child)"),
    }
    match &ev[2] {
        Event::Text(t) => assert_eq!(t.as_slice(), b"hello"),
        _ => panic!("expected Text(hello)"),
    }
    match &ev[3] {
        Event::EndElement { name, .. } => assert_eq!(name.as_slice(), b"child"),
        _ => panic!("expected EndElement(child)"),
    }
    match &ev[4] {
        Event::StartElement { name, .. } => assert_eq!(name.as_slice(), b"child"),
        _ => panic!("expected StartElement(child)"),
    }
    match &ev[5] {
        Event::Text(t) => assert_eq!(t.as_slice(), b"world"),
        _ => panic!("expected Text(world)"),
    }
    match &ev[6] {
        Event::EndElement { name, .. } => assert!(name.as_slice() == b"child" || name.as_slice() == b"root"),
        _ => panic!("expected Text(world)"),
    }
}

#[test]
fn attributes_simple() {
    let ev = events_from(r#"<root a="1" b="2" c="3"></root>"#);
    assert_eq!(ev.len(), 2);
    match &ev[0] {
        Event::StartElement { name, attributes } => {
            assert_eq!(name.as_slice(), b"root");
            assert_eq!(attributes.len(), 3);
            assert_eq!(attributes[0].0.as_slice(), b"a");
            assert_eq!(attributes[0].1.as_slice(), b"1");
            assert_eq!(attributes[1].0.as_slice(), b"b");
            assert_eq!(attributes[1].1.as_slice(), b"2");
            assert_eq!(attributes[2].0.as_slice(), b"c");
            assert_eq!(attributes[2].1.as_slice(), b"3");
        }
        _ => panic!("expected StartElement(root)"),
    }
}

#[test]
fn attributes_single_quoted_and_spaces() {
    let ev = events_from("<root  a = '1'   b= \"2\" ></root>");
    assert_eq!(ev.len(), 2);
    match &ev[0] {
        Event::StartElement { name, attributes } => {
            assert_eq!(name.as_slice(), b"root");
            assert_eq!(attributes.len(), 2);
            assert_eq!(attributes[0].0.as_slice(), b"a");
            assert_eq!(attributes[0].1.as_slice(), b"1");
            assert_eq!(attributes[1].0.as_slice(), b"b");
            assert_eq!(attributes[1].1.as_slice(), b"2");
        }
        _ => panic!("expected StartElement(root)"),
    }
}

#[test]
fn attribute_entity_decoding() {
    let ev = events_from(r#"<root a="&lt;&gt;&amp;&quot;&apos;"></root>"#);
    assert_eq!(ev.len(), 2);
    match &ev[0] {
        Event::StartElement { attributes, .. } => {
            assert_eq!(attributes.len(), 1);
            assert_eq!(attributes[0].0.as_slice(), b"a");
            assert_eq!(attributes[0].1.as_slice(), b"&lt;&gt;&amp;&quot;&apos;");
        }
        _ => panic!("expected StartElement(root)"),
    }
}

#[test]
fn text_between_tags() {
    let ev = events_from("<root>hello world</root>");
    assert_eq!(ev.len(), 3);
    match &ev[1] {
        Event::Text(t) => assert_eq!(t.as_slice(), b"hello world"),
        _ => panic!("expected Text(hello world)"),
    }
}

#[test]
fn leading_text() {
    let ev = events_from("  pre<root>inside</root>");
    assert_eq!(ev.len(), 4);
    assert!(matches!(ev[0], Event::Text(_)));
    assert!(matches!(ev[1], Event::StartElement { .. }));
    assert!(matches!(ev[2], Event::Text(_)));
    assert!(matches!(ev[3], Event::EndElement { .. }));
}

#[test]
fn leading_and_trailing_text() {
    let ev = events_from("  pre<root>inside</root>post  ");
    assert_eq!(ev.len(), 5);
    assert!(matches!(ev[0], Event::Text(_)));
    assert!(matches!(ev[1], Event::StartElement { .. }));
    assert!(matches!(ev[2], Event::Text(_)));
    assert!(matches!(ev[3], Event::EndElement { .. }));
    assert!(matches!(ev[4], Event::Text(_)));
}

#[test]
fn comment_basic() {
    let ev = strip_ws_text(events_from("<root><!-- this is a comment --><child/></root>"));
    assert_eq!(ev.len(), 5);
    assert!(matches!(&ev[1], Event::Comment(_)));
}

#[test]
fn cdata_basic() {
    let ev = strip_ws_text(events_from("<root><![CDATA[some <weird> & text]]></root>"));
    assert_eq!(ev.len(), 3);
    match &ev[1] {
        Event::CData(t) => assert_eq!(t.as_slice(), b"some <weird> & text"),
        _ => panic!("expected CData"),
    }
}

#[test]
fn processing_instruction_is_skipped() {
    let ev = strip_ws_text(events_from(r#"<?xml version="1.0"?><root><child>t</child></root>"#));
    assert_eq!(ev.len(), 5);
    match &ev[0] {
        Event::StartElement { name, .. } => assert_eq!(name.as_slice(), b"root"),
        _ => panic!("expected StartElement(root)"),
    }
}

#[test]
fn complex_mixed() {
    let xml = r#"
            <root a="1">
                text1
                <!-- comment -->
                <child><![CDATA[cdata text]]>inner</child>
                text2
            </root>
        "#;
    let ev = strip_ws_text(events_from(xml));
    assert!(matches!(ev[0], Event::StartElement { .. }));
    assert!(matches!(ev.iter().find(|e| matches!(e, Event::Comment(_))), Some(_)));
    assert!(matches!(ev.iter().find(|e| matches!(e, Event::CData(_))), Some(_)));
}

#[test]
fn malformed_tag_coarse_recovery() {
    let ev = events_from("<root><child attr='1'<broken>xxx</root>");
    assert!(matches!(ev.first(), Some(Event::StartElement { name, .. }) if name.as_slice() == b"root"));
    assert!(matches!(ev.last(), Some(Event::EndElement { name, .. }) if name.as_slice() == b"root"));
}

#[test]
fn empty_input() {
    let ev = events_from("");
    assert!(ev.is_empty());
}

#[test]
fn whitespace_only_input() {
    let ev = events_from("   \n\t  ");
    assert_eq!(ev.len(), 1);
    match &ev[0] {
        Event::Text(t) => assert_eq!(t.as_slice(), b"   \n\t  "),
        _ => panic!("expected single Text event"),
    }
}

#[test]
fn fill_buf_reads_into_internal_buffer() {
    let mut reader = Reader::from_reader(SliceSource::new(b"<root></root>"));
    assert_eq!(reader.buf.len(), 8192);
    reader.pos = reader.end;
    reader.fill_buf().unwrap();
    assert!(!reader.finished, "fill_buf marked finished prematurely (read 0 bytes)");
    assert!(reader.end > 0, "fill_buf did not fill buffer (end == 0)");
}

#[test]
fn reader_errors_and_advance() {
    let mut reader = Reader::from_reader(SliceSource::new(b"<a =x><b>"));
    assert_eq!(reader.next_event(), Err(ReadError::InvalidData));
    reader.advance().unwrap();
    match reader.next_event() {
        Ok(Event::StartElement { name, .. }) => assert_eq!(name, b"b".to_vec()),
        other => panic!("unexpected {:?}", other),
    }
    assert_eq!(reader.next_event(), Ok(Event::Eof));
}

#[test]
fn reader_unterminated_tag_is_unexpected_eof() {
    let mut reader = Reader::from_reader(SliceSource::new(b"<a"));
    assert_eq!(reader.next_event(), Err(ReadError::UnexpectedEof));
}

#[test]
fn reader_comment_needs_full_close() {
    let ev = events_from("<!-- a - b -->t");
    assert_eq!(ev[0], Event::Comment(b" a - b ".to_vec()));
    assert_eq!(ev[1], Event::Text(b"t".to_vec()));
}

#[test]
fn reader_self_closing_pending_end() {
    let ev = events_from("<x a='1'/>");
    assert_eq!(
        ev[0],
        Event::StartElement { name: b"x".to_vec(), attributes: vec![(b"a".to_vec(), b"1".to_vec())] }
    );
    match &ev[1] {
        Event::EndElement { name, accumulated } => {
            assert_eq!(name, &b"x".to_vec());
            assert_eq!(accumulated, &b"<x a='1'>".to_vec());
        }
        _ => panic!("expected EndElement"),
    }
}

#[test]
fn reader_comment_end_found_after_extra_dash() {
    let mut reader = Reader::from_reader(SliceSource::new(b"<!--x--->"));
    assert_eq!(reader.next_event(), Ok(Event::Comment(b"x-".to_vec())));
    assert_eq!(reader.next_event(), Ok(Event::Eof));
}

#[test]
fn reader_events_independent_of_read_boundaries() {
    let mut v = vec![b'a'; 8189];
    v.extend_from_slice(b"<!--x-->");
    let mut reader = Reader::from_reader(SliceSource::new(&v));
    assert_eq!(reader.next_event(), Ok(Event::Text(vec![b'a'; 8189])));
    assert_eq!(reader.next_event(), Ok(Event::Comment(b"x".to_vec())));
    assert_eq!(reader.next_event(), Ok(Event::Eof));
}

#[test]
fn reader_cdata_across_read_boundary() {
    let mut v = vec![b'a'; 8190];
    v.extend_from_slice(b"<![CDATA[q]]>");
    let mut reader = Reader::from_reader(SliceSource::new(&v));
    assert_eq!(reader.next_event(), Ok(Event::Text(vec![b'a'; 8190])));
    assert_eq!(reader.next_event(), Ok(Event::CData(b"q".to_vec())));
}

#[test]
fn reader_advance_stops_at_markup() {
    let mut reader = Reader::from_reader(SliceSource::new(b"junk < x<b>"));
    assert_eq!(reader.advance(), Ok(()));
    assert_eq!(
        reader.next_event(),
        Ok(Event::StartElement { name: b"b".to_vec(), attributes: vec![] })
    );
}

#[test]
fn reader_accumulated_is_the_bytes_read() {
    let mut reader = Reader::from_reader(SliceSource::new(b"<r a=\"1\">t<s/></r>"));
    let mut record = Vec::new();
    loop {
        match reader.next_event().unwrap() {
            Event::EndElement { accumulated, .. } => record.extend_from_slice(&accumulated),
            Event::Eof => break,
            _ => {}
        }
    }
    assert_eq!(record, b"<r a=\"1\">t<s></r>".to_vec());
}

#[test]
fn reader_records_cover_plain_input() {
    let input = b"x<r a=\"1\" >t<s\n></s ></r>";
    let mut reader = Reader::from_reader(SliceSource::new(input));
    let mut record = Vec::new();
    loop {
        match reader.next_event().unwrap() {
            Event::EndElement { accumulated, .. } => record.extend_from_slice(&accumulated),
            Event::Eof => break,
            _ => {}
        }
    }
    assert_eq!(record, input.to_vec());
}
