use ripx::attributes::Attributes;
use ripx::parallel::{MatchCollector, ParallelConfig, ParallelProcessor};
use ripx::parser::{Event, EventType};
use ripx::writer::{default_limits, write_event_to_buffer};

fn event(kind: EventType, data: &[u8], pairs: Vec<(Vec<u8>, Vec<u8>)>) -> Event {
    Event {
        event_type: kind,
        data: data.to_vec(),
        is_continuation: false,
        error: None,
        attributes: Attributes::from_pairs(pairs),
    }
}

#[test]
fn default_limits_values() {
    let l = default_limits();
    assert_eq!(l.max_depth, 16);
    assert_eq!(l.max_attr_name_len, 512);
    assert_eq!(l.max_attr_value_len, 512);
    assert_eq!(l.max_pi_chunk_len, 256);
    assert!(l.max_text_total_len.is_none());
}

#[test]
fn start_element_written_in_full() {
    let ev = event(EventType::StartElement, b"item", vec![(b"id".to_vec(), b"7".to_vec())]);
    let mut out = [0u8; 32];
    let n = ev.write_start_element(&mut out).unwrap();
    assert_eq!(&out[..n], b"<item id=\"7\">");
    assert_eq!(out[n], 0);
}

#[test]
fn start_element_too_small_stops_at_part() {
    let ev = event(EventType::StartElement, b"item", vec![(b"id".to_vec(), b"7".to_vec())]);
    let mut out = [b'.'; 8];
    assert_eq!(ev.write_start_element(&mut out), Err("Buffer is too small"));
    assert_eq!(&out, b"<item...");
    let mut none: [u8; 0] = [];
    assert_eq!(ev.write_start_element(&mut none), Err("Buffer is too small"));
    let mut three = [b'.'; 3];
    assert_eq!(ev.write_start_element(&mut three), Err("Buffer is too small"));
    assert_eq!(&three, b"<..");
    let mut exact_but_gt = [b'.'; 12];
    assert_eq!(ev.write_start_element(&mut exact_but_gt), Err("Buffer is too small"));
    assert_eq!(&exact_but_gt, b"<item id=\"7\"");
}

#[test]
fn non_start_element_refused() {
    let ev = event(EventType::Text, b"x", vec![]);
    let mut out = [b'.'; 4];
    assert_eq!(ev.write_start_element(&mut out), Err("Not a start element"));
    assert_eq!(&out, b"....");
}

#[test]
fn events_written_as_xml() {
    let mut buf = Vec::new();
    let mut tmp = [0u8; 4];
    write_event_to_buffer(&event(EventType::StartElement, b"a", vec![(b"k".to_vec(), b"v".to_vec())]), &mut buf, &mut tmp);
    write_event_to_buffer(&event(EventType::Text, b"t", vec![]), &mut buf, &mut tmp);
    write_event_to_buffer(&event(EventType::Comment, b"c", vec![]), &mut buf, &mut tmp);
    write_event_to_buffer(&event(EventType::CData, b"d", vec![]), &mut buf, &mut tmp);
    write_event_to_buffer(&event(EventType::ProcessingInstruction, b"p", vec![]), &mut buf, &mut tmp);
    write_event_to_buffer(&event(EventType::Fault, b"f", vec![]), &mut buf, &mut tmp);
    write_event_to_buffer(&event(EventType::EndElement, b"a", vec![]), &mut buf, &mut tmp);
    assert_eq!(buf, b"<a k=\"v\">t<!--c--><![CDATA[d]]><?p?></a>".to_vec());
    let mut big = [0u8; 64];
    let mut buf2 = Vec::new();
    write_event_to_buffer(&event(EventType::StartElement, b"b", vec![]), &mut buf2, &mut big);
    assert_eq!(buf2, b"<b>".to_vec());
}

#[test]
fn test_parallel_processor_creation() {
    let processor = ParallelProcessor::new();
    assert!(processor.config().num_threads.is_none());
}

#[test]
fn parallel_config_default_and_custom() {
    let c = ParallelConfig::default();
    assert_eq!(c.min_chunk_size, 2 * 1024 * 1024);
    assert_eq!(c.max_chunk_size, 16 * 1024 * 1024);
    assert_eq!(c.overlap_bytes, 8 * 1024);
    assert_eq!(c.parser_limits.max_attr_value_len, 4096);
    let mut custom = c.clone();
    custom.num_threads = Some(2);
    custom.min_chunk_size = 100;
    custom.max_chunk_size = 200;
    custom.overlap_bytes = 10;
    let p = ParallelProcessor::with_config(custom);
    assert_eq!(p.config().num_threads, Some(2));
    assert_eq!(p.splitter().max_chunk_size, 200);
}

#[test]
fn collector_picks_top_level_matches() {
    let mut c = MatchCollector::new();
    let evs = vec![
        (event(EventType::StartElement, b"root", vec![]), false),
        (event(EventType::StartElement, b"item", vec![]), true),
        (event(EventType::Text, b"A", vec![]), false),
        (event(EventType::EndElement, b"item", vec![]), false),
    ];
    for (ev, accept) in evs.iter() {
        let verdict = c.wants_verdict(ev) && *accept;
        c.on_event(ev, verdict);
    }
    // "item" opened at depth 1, so the filter was never asked.
    assert_eq!(c.depth(), 1);
    assert!(c.into_matches().is_empty());

    let mut c = MatchCollector::new();
    let evs = vec![
        (event(EventType::StartElement, b"item", vec![]), true),
        (event(EventType::Text, b"A", vec![]), false),
        (event(EventType::StartElement, b"b", vec![]), true),
        (event(EventType::EndElement, b"b", vec![]), false),
        (event(EventType::EndElement, b"item", vec![]), false),
        (event(EventType::StartElement, b"other", vec![]), false),
        (event(EventType::EndElement, b"other", vec![]), false),
    ];
    for (ev, accept) in evs.iter() {
        let verdict = c.wants_verdict(ev) && *accept;
        c.on_event(ev, verdict);
    }
    assert_eq!(c.into_matches(), vec![b"<item>A</b></item>".to_vec()]);
}
