use ripx::attributes::Attributes;
use ripx::id_match::IdMatch;
use ripx::parser::{Event, EventType};

fn event(kind: EventType, data: &[u8], pairs: Vec<(Vec<u8>, Vec<u8>)>) -> Event {
    Event {
        event_type: kind,
        data: data.to_vec(),
        is_continuation: false,
        error: None,
        attributes: Attributes::from_pairs(pairs),
    }
}

fn id_pair(v: &[u8]) -> Vec<(Vec<u8>, Vec<u8>)> {
    vec![(b"id".to_vec(), v.to_vec())]
}

#[test]
fn id_match_picks_whole_element() {
    let mut m = IdMatch::new();
    let target = b"rec";
    assert_eq!(m.on_event(&event(EventType::StartElement, b"rec", id_pair(b"20121624")), target), None);
    assert_eq!(m.on_event(&event(EventType::StartElement, b"f", vec![]), target), None);
    assert_eq!(m.on_event(&event(EventType::Text, b"v", vec![]), target), None);
    assert_eq!(m.on_event(&event(EventType::EndElement, b"f", vec![]), target), None);
    let out = m.on_event(&event(EventType::EndElement, b"rec", vec![]), target);
    assert_eq!(out, Some(b"<rec id=\"20121624\"><f>v</f></rec>".to_vec()));
    assert_eq!(m.count(), 1);
}

#[test]
fn id_match_ignores_other_ids_and_names() {
    let mut m = IdMatch::new();
    let target = b"rec";
    assert_eq!(m.on_event(&event(EventType::StartElement, b"rec", id_pair(b"1")), target), None);
    assert_eq!(m.on_event(&event(EventType::EndElement, b"rec", vec![]), target), None);
    assert_eq!(m.on_event(&event(EventType::StartElement, b"other", id_pair(b"20121624")), target), None);
    assert_eq!(m.on_event(&event(EventType::Text, b"t", vec![]), target), None);
    assert_eq!(m.on_event(&event(EventType::EndElement, b"other", vec![]), target), None);
    let second = vec![(b"x".to_vec(), b"y".to_vec()), (b"id".to_vec(), b"20121624".to_vec())];
    assert_eq!(m.on_event(&event(EventType::StartElement, b"rec", second), target), None);
    assert_eq!(m.on_event(&event(EventType::EndElement, b"rec", vec![]), target), None);
    assert_eq!(m.count(), 0);
}

#[test]
fn id_match_counts_each_match() {
    let mut m = IdMatch::new();
    let target = b"r";
    for _ in 0..2 {
        assert_eq!(m.on_event(&event(EventType::StartElement, b"r", id_pair(b"20121624")), target), None);
        let out = m.on_event(&event(EventType::EndElement, b"r", vec![]), target);
        assert_eq!(out, Some(b"<r id=\"20121624\"></r>".to_vec()));
    }
    assert_eq!(m.count(), 2);
}
