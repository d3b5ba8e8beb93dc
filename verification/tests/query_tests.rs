use ripx::query::{dispatch, run_query, settle, PathQuery, PathSelector, PathStack, QueryCall};
use ripx::reader::{Event, Reader};
use ripx::source::SliceSource;

#[test]
fn selector_parsing() {
    match PathSelector::parse("//item").unwrap() {
        PathSelector::Anywhere(n) => assert_eq!(n, b"item".to_vec()),
        _ => panic!("expected Anywhere"),
    }
    match PathSelector::parse("/a/b/c").unwrap() {
        PathSelector::Absolute(parts) => assert_eq!(parts, vec![b"a".to_vec(), b"b".to_vec(), b"c".to_vec()]),
        _ => panic!("expected Absolute"),
    }
    match PathSelector::parse("item").unwrap() {
        PathSelector::Anywhere(n) => assert_eq!(n, b"item".to_vec()),
        _ => panic!("expected Anywhere"),
    }
    assert!(PathSelector::parse("//").is_err());
    assert!(PathSelector::parse("/").is_err());
}

#[test]
fn selector_matching() {
    let any = PathSelector::parse("//b").unwrap();
    let abs = PathSelector::parse("/a/b").unwrap();
    let path = vec![b"a".to_vec(), b"b".to_vec()];
    assert!(any.matches_path(&path, b"b"));
    assert!(!any.matches_path(&path, b"c"));
    assert!(abs.matches_path(&path, b"b"));
    assert!(!abs.matches_path(&path[..1], b"a"));
}

#[test]
fn path_stack_push_pop() {
    let mut s = PathStack::new();
    s.push(b"a");
    s.push(b"b");
    assert_eq!(s.as_slice(), &[b"a".to_vec(), b"b".to_vec()][..]);
    s.pop();
    assert_eq!(s.as_slice(), &[b"a".to_vec()][..]);
    s.pop();
    s.pop();
    assert!(s.as_slice().is_empty());
}

#[test]
fn query_collects_matches_and_stops_at_max() {
    let mut reader = Reader::from_reader(SliceSource::new(b"<item>A</item>"));
    let mut q = PathQuery::new(PathSelector::parse("//item").unwrap(), 5);
    run_query(&mut reader, &mut q).unwrap();
    assert!(!q.is_done());
    assert_eq!(q.take_emitted(), vec![b"<item>A</item>".to_vec()]);

    let mut reader = Reader::from_reader(SliceSource::new(b"<r><item>1</item><item>2</item></r>"));
    let mut q = PathQuery::new(PathSelector::parse("//item").unwrap(), 1);
    run_query(&mut reader, &mut q).unwrap();
    assert!(q.is_done());
    assert_eq!(q.take_emitted().len(), 1);
    assert!(q.take_emitted().is_empty());
}

#[test]
fn dispatch_enters_and_reports() {
    let mut path = PathStack::new();
    let c = dispatch(&mut path, Event::StartElement { name: b"a".to_vec(), attributes: vec![] });
    match &c {
        QueryCall::Start { name, attrs } => {
            assert_eq!(name, &b"a".to_vec());
            assert!(attrs.is_empty());
        }
        _ => panic!("expected Start"),
    }
    assert_eq!(path.as_slice(), &[b"a".to_vec()][..]);
    settle(&mut path, &c);
    assert_eq!(path.as_slice().len(), 1);
    let t = dispatch(&mut path, Event::Text(Vec::new()));
    assert!(matches!(t, QueryCall::Nothing));
    let t = dispatch(&mut path, Event::Text(b"x".to_vec()));
    assert!(matches!(t, QueryCall::Text(ref v) if v == b"x"));
    let e = dispatch(&mut path, Event::EndElement { name: b"a".to_vec(), accumulated: b"<a>x</a>".to_vec() });
    assert_eq!(path.as_slice().len(), 1);
    match &e {
        QueryCall::End { name, content } => {
            assert_eq!(name, &b"a".to_vec());
            assert_eq!(content, &b"<a>x</a>".to_vec());
        }
        _ => panic!("expected End"),
    }
    settle(&mut path, &e);
    assert_eq!(path.as_slice().len(), 0);
    assert!(matches!(dispatch(&mut path, Event::Comment(b"c".to_vec())), QueryCall::Nothing));
    assert!(matches!(dispatch(&mut path, Event::Eof), QueryCall::Stop));
}
