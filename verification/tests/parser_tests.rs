use ripx::parser::{ErrorCode, EventType, Parser, ParserLimits};
use ripx::slice_parser::{ParseError, SliceParser};
use ripx::source::{QueueSource, SliceSource};

fn default_limits() -> ParserLimits {
    ParserLimits {
        max_depth: 16,
        max_attributes: 16,
        max_name_len: 64,
        max_attr_name_len: 64,
        max_attr_value_len: 256,
        max_text_chunk_len: 1024,
        max_text_total_len: None,
        max_comment_chunk_len: 512,
        max_comment_total_len: None,
        max_cdata_chunk_len: 512,
        max_cdata_total_len: None,
        max_pi_chunk_len: 256,
        max_pi_total_len: None,
        include_fault_payload: false,
    }
}

fn parser_over(bytes: &[u8], limits: ParserLimits) -> Parser<SliceSource> {
    Parser::new(SliceSource::new(bytes), limits)
}

#[test]
fn text_and_eof() {
    let mut p = parser_over(b"hello world", default_limits());
    let ev = p.next_event().expect("read event");
    assert_eq!(ev.event_type, EventType::Text);
    assert_eq!(ev.data, b"hello world");
    let ev2 = p.next_event().expect("read eof");
    assert_eq!(ev2.event_type, EventType::Eof);
}

#[test]
fn comment_event() {
    let mut p = parser_over(b"<!-- inner -->", default_limits());
    let ev = p.next_event().expect("read comment");
    assert_eq!(ev.event_type, EventType::Comment);
    assert_eq!(ev.data, b" inner ");
    let ev2 = p.next_event().expect("read eof");
    assert_eq!(ev2.event_type, EventType::Eof);
}

#[test]
fn end_element_event() {
    let mut p = parser_over(b"</tag>", default_limits());
    let ev = p.next_event().expect("read end");
    assert_eq!(ev.event_type, EventType::EndElement);
    assert_eq!(ev.data, b"tag");
    let ev2 = p.next_event().expect("read eof");
    assert_eq!(ev2.event_type, EventType::Eof);
}

#[test]
fn mixed_text_and_tag_split() {
    let mut p = parser_over(b"a<b>c", default_limits());
    let ev1 = p.next_event().expect("text1");
    assert_eq!(ev1.event_type, EventType::Text);
    assert_eq!(ev1.data, b"a");
    let ev2 = p.next_event().expect("lt");
    assert_eq!(ev2.event_type, EventType::StartElement);
    assert_eq!(ev2.data, b"b");
    let ev3 = p.next_event().expect("rest");
    assert_eq!(ev3.event_type, EventType::Text);
    assert_eq!(ev3.data, b"c");
    let ev4 = p.next_event().expect("fault");
    assert_eq!(ev4.event_type, EventType::Fault);
    assert_eq!(ev4.error, Some(ErrorCode::UnclosedElement));
    let ev5 = p.next_event().expect("eof");
    assert_eq!(ev5.event_type, EventType::Eof);
}

#[test]
fn multiple_comments_sequence() {
    let mut p = parser_over(b"<!--a--><!--b-->", default_limits());
    let c1 = p.next_event().expect("c1");
    assert_eq!(c1.event_type, EventType::Comment);
    assert_eq!(c1.data, b"a");
    let c2 = p.next_event().expect("c2");
    assert_eq!(c2.event_type, EventType::Comment);
    assert_eq!(c2.data, b"b");
    let e = p.next_event().expect("eof");
    assert_eq!(e.event_type, EventType::Eof);
}

#[test]
fn lone_left_angle() {
    let mut p = parser_over(b"<", default_limits());
    let ev = p.next_event().expect("lt");
    assert_eq!(ev.event_type, EventType::Text);
    assert_eq!(ev.data, b"<");
    let e = p.next_event().expect("eof");
    assert_eq!(e.event_type, EventType::Eof);
}

#[test]
fn comment_and_text_mixture() {
    let mut p = parser_over(b"hi<!--x-->there", default_limits());
    let t1 = p.next_event().expect("hi");
    assert_eq!(t1.event_type, EventType::Text);
    assert_eq!(t1.data, b"hi");
    let c = p.next_event().expect("c");
    assert_eq!(c.event_type, EventType::Comment);
    assert_eq!(c.data, b"x");
    let t2 = p.next_event().expect("there");
    assert_eq!(t2.event_type, EventType::Text);
    assert_eq!(t2.data, b"there");
    let e = p.next_event().expect("eof");
    assert_eq!(e.event_type, EventType::Eof);
}

#[test]
fn parser_eof_placeholder() {
    let mut p = parser_over(b"", default_limits());
    let ev = p.next_event().expect("next_event failed");
    assert_eq!(ev.event_type, EventType::Eof);
}

#[test]
fn parser_1() {
    let mut p = parser_over(b"<root></root>", default_limits());
    let ev = p.next_event().expect("next_event failed");
    assert_eq!(ev.event_type, EventType::StartElement);
    assert!(ev.data == b"root");
}

#[test]
fn debug_failing_input() {
    let bytes = vec![60u8, 0u8, 9u8, 0u8];
    let limits = ParserLimits {
        max_depth: 1,
        max_attributes: 1,
        max_name_len: 1,
        max_attr_name_len: 1,
        max_attr_value_len: 1,
        max_text_chunk_len: 1,
        max_text_total_len: None,
        max_comment_chunk_len: 1,
        max_comment_total_len: None,
        max_cdata_chunk_len: 1,
        max_cdata_total_len: None,
        max_pi_chunk_len: 1,
        max_pi_total_len: None,
        include_fault_payload: false,
    };
    let mut p = parser_over(&bytes, limits);
    for i in 0..10 {
        let ev = p.next_event().expect("next");
        println!("EV {}: {:?} data={:?} err={:?}", i, ev.event_type, ev.data, ev.error);
        if ev.event_type == EventType::Eof {
            break;
        }
    }
}

#[test]
fn debug_simple_element() {
    let bytes = b"<a></a>".to_vec();
    let limits = ParserLimits {
        max_depth: 64,
        max_attributes: 32,
        max_name_len: 64,
        max_attr_name_len: 64,
        max_attr_value_len: 512,
        max_text_chunk_len: 4096,
        max_text_total_len: None,
        max_comment_chunk_len: 1024,
        max_comment_total_len: None,
        max_cdata_chunk_len: 1024,
        max_cdata_total_len: None,
        max_pi_chunk_len: 512,
        max_pi_total_len: None,
        include_fault_payload: true,
    };
    let mut p = parser_over(&bytes, limits);
    loop {
        let ev = p.next_event().expect("next");
        println!("EVENT: {:?} error={:?} data={:?}", ev.event_type, ev.error, ev.data);
        if ev.event_type == EventType::Eof {
            break;
        }
    }
}

fn collect(bytes: &[u8], limits: ParserLimits) -> Vec<(EventType, Vec<u8>, Option<ErrorCode>)> {
    let mut p = parser_over(bytes, limits);
    let mut out = Vec::new();
    for _ in 0..1000 {
        let ev = p.next_event().expect("next");
        let done = ev.event_type == EventType::Eof;
        out.push((ev.event_type, ev.data.clone(), ev.error));
        if done {
            break;
        }
    }
    out
}

#[test]
fn parser_nested_and_self_closing() {
    let evs = collect(b"<a><b/>t</a>", default_limits());
    let kinds: Vec<EventType> = evs.iter().map(|e| e.0).collect();
    assert_eq!(
        kinds,
        vec![
            EventType::StartElement,
            EventType::StartElement,
            EventType::EndElement,
            EventType::Text,
            EventType::EndElement,
            EventType::Eof
        ]
    );
    assert_eq!(evs[1].1, b"b");
    assert_eq!(evs[2].1, b"b");
    assert_eq!(evs[4].1, b"a");
}

#[test]
fn parser_mismatched_end_is_fault() {
    let evs = collect(b"<a></b></a>", default_limits());
    assert_eq!(evs[1].0, EventType::Fault);
    assert_eq!(evs[1].2, Some(ErrorCode::MismatchedEndElement));
    assert_eq!(evs[1].1, b"b");
    assert_eq!(evs[2].0, EventType::EndElement);
    assert_eq!(evs[2].1, b"a");
    assert_eq!(evs[3].0, EventType::Eof);
}

#[test]
fn parser_doctype_is_skipped_and_cdata_pi_read() {
    let evs = collect(b"<!DOCTYPE x><?pi d?><![CDATA[<z>]]>", default_limits());
    assert_eq!(evs[0].0, EventType::ProcessingInstruction);
    assert_eq!(evs[0].1, b"pi d");
    assert_eq!(evs[1].0, EventType::CData);
    assert_eq!(evs[1].1, b"<z>");
    assert_eq!(evs[2].0, EventType::Eof);
}

#[test]
fn parser_text_is_chunked() {
    let mut limits = default_limits();
    limits.max_text_chunk_len = 3;
    let evs = collect(b"abcdefg<x/>", limits);
    assert_eq!(evs[0].0, EventType::Text);
    assert_eq!(evs[0].1, b"abc");
    assert!(evs[0].1.len() <= 3);
    assert_eq!(evs[1].1, b"def");
    assert_eq!(evs[2].1, b"g");
}

#[test]
fn parser_depth_limit_fault_and_recovery() {
    let mut limits = default_limits();
    limits.max_depth = 1;
    let evs = collect(b"<a><b>x</b></a>", limits);
    assert_eq!(evs[0].0, EventType::StartElement);
    assert_eq!(evs[1].0, EventType::Fault);
    assert_eq!(evs[1].2, Some(ErrorCode::DepthLimitExceeded));
    assert_eq!(evs[2].0, EventType::Text);
    assert_eq!(evs.last().unwrap().0, EventType::Eof);
}

#[test]
fn parser_unterminated_comment_at_eof() {
    let evs = collect(b"<!-- never closed", default_limits());
    assert_eq!(evs[0].0, EventType::Fault);
    assert_eq!(evs[0].2, Some(ErrorCode::UnexpectedEof));
    assert_eq!(evs[1].0, EventType::Eof);
}

#[test]
fn parser_overlapping_comment_is_invalid() {
    let evs = collect(b"<!-->x", default_limits());
    assert_eq!(evs[0].0, EventType::Fault);
    assert_eq!(evs[0].2, Some(ErrorCode::InvalidStructure));
    assert_eq!(evs[1].0, EventType::Text);
    assert_eq!(evs[1].1, b"x");
}

#[test]
fn parser_eof_repeats() {
    let mut p = parser_over(b"", default_limits());
    for _ in 0..3 {
        assert_eq!(p.next_event().expect("eof").event_type, EventType::Eof);
    }
}

#[test]
fn slice_parser_events_and_end() {
    let data = b"<r a='1'>t<!--c--></r>";
    let mut p = SliceParser::new(data, default_limits());
    let mut kinds = Vec::new();
    loop {
        assert!(p.can_advance());
        match p.next_event() {
            Ok(ev) => kinds.push((ev.event_type, ev.data.clone())),
            Err(e) => {
                assert_eq!(e, ParseError::Eof);
                break;
            }
        }
    }
    assert_eq!(kinds[0], (EventType::StartElement, b"r".to_vec()));
    assert_eq!(kinds[1], (EventType::Text, b"t".to_vec()));
    assert_eq!(kinds[2], (EventType::Comment, b"c".to_vec()));
    assert_eq!(kinds[3], (EventType::EndElement, b"r".to_vec()));
    assert_eq!(kinds.len(), 4);
}

#[test]
fn slice_parser_unclosed_fault_then_eof() {
    let mut p = SliceParser::new(b"<a>", default_limits());
    assert_eq!(p.next_event().ok().unwrap().event_type, EventType::StartElement);
    let f = p.next_event().ok().unwrap();
    assert_eq!(f.event_type, EventType::Fault);
    assert_eq!(f.error, Some(ErrorCode::UnclosedElement));
    assert_eq!(p.next_event().err(), Some(ParseError::Eof));
}

#[test]
fn slice_parser_cannot_advance_on_overlapping_markup() {
    let p = SliceParser::new(b"<?>", default_limits());
    assert!(!p.can_advance());
}

#[test]
fn slice_parser_depth_limit_stops() {
    let mut limits = default_limits();
    limits.max_depth = 1;
    let mut p = SliceParser::new(b"<a><b>", limits);
    assert!(p.next_event().is_ok());
    assert_eq!(p.next_event().err(), Some(ParseError::Fault(ErrorCode::DepthLimitExceeded)));
}

#[test]
fn fault_convention_holds_on_mixed_input() {
    let input: &[u8] = b"<!DOCTYPE d><r a='1'><x/></y>text<!--c--><![CDATA[z]]><?p?></r></q><open>";
    let mut p = parser_over(input, default_limits());
    loop {
        let ev = p.next_event().unwrap();
        assert_eq!(ev.event_type == EventType::Fault, ev.error.is_some());
        if ev.event_type == EventType::Eof {
            break;
        }
    }
    let mut s = SliceParser::new(input, default_limits());
    loop {
        assert!(s.can_advance());
        match s.next_event() {
            Ok(ev) => assert_eq!(ev.event_type == EventType::Fault, ev.error.is_some()),
            Err(_) => break,
        }
    }
}

#[test]
fn zero_depth_limit_is_refused_with_message() {
    let mut limits = default_limits();
    limits.max_depth = 0;
    assert_eq!(limits.validate(), Err("limits must be > 0 for depth/attributes/name_len"));
    assert_eq!(default_limits().validate(), Ok(()));
}

fn kinds_and_data(p: &mut Parser<SliceSource>) -> Vec<(EventType, Vec<u8>, Option<ErrorCode>)> {
    let mut out = Vec::new();
    loop {
        let ev = p.next_event().expect("read");
        let done = ev.event_type == EventType::Eof;
        out.push((ev.event_type, ev.data.clone(), ev.error));
        if done {
            return out;
        }
    }
}

#[test]
fn fed_parser_gives_the_same_events() {
    let doc: &[u8] = b"<a x='1'>hello<b/>wor<!-- c -->ld</a>";
    let expected = kinds_and_data(&mut parser_over(doc, default_limits()));
    let mut p = Parser::new(QueueSource::new(), default_limits());
    let mut got = Vec::new();
    let mut rest = doc;
    loop {
        match p.next_event() {
            Ok(ev) => {
                let done = ev.event_type == EventType::Eof;
                got.push((ev.event_type, ev.data.clone(), ev.error));
                if done {
                    break;
                }
            }
            Err(_) => {
                if rest.is_empty() {
                    p.close_input();
                } else {
                    let n = if rest.len() < 3 { rest.len() } else { 3 };
                    p.push_input(&rest[..n]);
                    rest = &rest[n..];
                }
            }
        }
    }
    assert!(p.is_input_closed());
    assert_eq!(got, expected);
}
