use ripx::tokenizer::{
    consume_cdata, consume_comment, consume_pi, contains_entities, find_cdata_end, find_comment_end,
    find_pi_end, find_sequence, parse_attributes, scan_attr_value, scan_name, State,
};

#[test]
fn initial_state_is_data() {
    assert_eq!(State::default(), State::Data);
}

#[test]
fn find_sequence_basic() {
    let h = b"abc--def--ghi";
    assert_eq!(find_sequence(h, b"--"), Some(3));
    assert_eq!(find_sequence(h, b"ghi"), Some(10));
    assert_eq!(find_sequence(h, b"zzz"), None);
}

#[test]
fn find_sequence_single_byte() {
    let h = b"hello";
    assert_eq!(find_sequence(h, b"e"), Some(1));
}

#[test]
fn find_sequence_empty_needle_and_long_needle() {
    assert_eq!(find_sequence(b"abc", b""), Some(0));
    assert_eq!(find_sequence(b"ab", b"abc"), None);
}

#[test]
fn scan_name_stops_on_delim() {
    let buf = b"tagName attr=...";
    let (len, delim) = scan_name(buf, 100);
    assert_eq!(len, 7);
    assert_eq!(delim, Some(b' '));
}

#[test]
fn scan_name_truncates_to_max() {
    let buf = b"longnamehere>";
    let (len, delim) = scan_name(buf, 4);
    assert_eq!(len, 4);
    assert_eq!(delim, Some(b'n'));
}

#[test]
fn scan_name_runs_to_end() {
    assert_eq!(scan_name(b"abc", 10), (3, None));
    assert_eq!(scan_name(b"=x", 10), (0, Some(b'=')));
}

#[test]
fn find_comment_end_basic() {
    let h = b"abc-->def";
    assert_eq!(find_comment_end(h), Some(3));
    assert_eq!(find_comment_end(b"no end here"), None);
}

#[test]
fn find_cdata_end_basic() {
    let h = b"xyz]]>more";
    assert_eq!(find_cdata_end(h), Some(3));
}

#[test]
fn find_pi_end_basic() {
    let h = b"pre?>post";
    assert_eq!(find_pi_end(h), Some(3));
}

#[test]
fn scan_attr_value_quoted_and_unquoted() {
    let q = b"\"value\" rest";
    let (len, delim) = scan_attr_value(q, 100);
    assert_eq!(len, 7);
    assert_eq!(delim, Some(b'\"'));

    let s = b"unquoted>tail";
    let (len2, delim2) = scan_attr_value(s, 100);
    assert_eq!(len2, 8);
    assert_eq!(delim2, Some(b'>'));
}

#[test]
fn scan_attr_value_truncates() {
    let q = b"\"abcdefghijkl";
    let (len, delim) = scan_attr_value(q, 5);
    assert_eq!(len, 5);
    assert!(delim.is_some());
}

#[test]
fn scan_attr_value_edges() {
    assert_eq!(scan_attr_value(b"", 5), (0, None));
    assert_eq!(scan_attr_value(b"'ab", 10), (3, None));
    assert_eq!(scan_attr_value(b"'ab'", 0), (0, Some(b'a')));
}

#[test]
fn parse_attributes_basic_and_self_closing() {
    let buf = b" a='one' b=two/>rest";
    let (attrs, consumed, hit, _name_trunc, _val_trunc) = parse_attributes(buf, 100, 100, 10);
    assert!(!hit);
    assert_eq!(attrs.len(), 2);
    assert_eq!(attrs[0].0, b"a".to_vec());
    assert_eq!(attrs[0].1, b"one".to_vec());
    assert_eq!(attrs[1].0, b"b".to_vec());
    assert_eq!(attrs[1].1, b"two".to_vec());
    assert!(consumed >= (buf.len() - b"rest".len()));
}

#[test]
fn parse_attributes_truncate_value_and_name() {
    let buf = b" longname=\"abcdefghijklmnop\" >";
    let (attrs, consumed, hit, _name_trunc, _val_trunc) = parse_attributes(buf, 6, 5, 10);
    assert!(!hit);
    assert_eq!(attrs.len(), 1);
    assert!(attrs[0].0.len() <= 6 && attrs[0].0.len() > 0);
    assert!(attrs[0].0.starts_with(b"longn"));
    assert!(attrs[0].1.len() <= 5);
    assert!(consumed > 0);
}

#[test]
fn parse_attributes_truncation_flags_and_consumed() {
    let buf = b" longname=\"abcdefghijklmnop\" >";
    let (attrs, consumed, hit, name_trunc, val_trunc) = parse_attributes(buf, 6, 5, 10);
    assert_eq!(attrs[0].0, b"longna".to_vec());
    assert_eq!(attrs[0].1, b"abc".to_vec());
    assert!(!hit);
    assert!(name_trunc);
    assert!(val_trunc);
    assert_eq!(consumed, buf.len());
}

#[test]
fn parse_attributes_max_attrs_limit() {
    let buf = b" a=1 b=2 c=3 >";
    let (attrs, _consumed, hit, _name_trunc, _val_trunc) = parse_attributes(buf, 100, 100, 2);
    assert!(hit);
    assert_eq!(attrs.len(), 2);
}

#[test]
fn parse_attributes_name_without_value() {
    let buf = b" a b='c' >";
    let (attrs, _consumed, hit, _name_trunc, _val_trunc) = parse_attributes(buf, 100, 100, 10);
    assert!(!hit);
    assert_eq!(attrs.len(), 2);
    assert_eq!(attrs[0].0, b"a".to_vec());
    assert_eq!(attrs[0].1.len(), 0);
    assert_eq!(attrs[1].0, b"b".to_vec());
    assert_eq!(attrs[1].1, b"c".to_vec());
}

#[test]
fn parse_attributes_input_ends_after_equals() {
    let (attrs, consumed, hit, _, _) = parse_attributes(b" k= ", 10, 10, 10);
    assert_eq!(attrs, vec![(b"k".to_vec(), Vec::new())]);
    assert_eq!(consumed, 4);
    assert!(!hit);
}

#[test]
fn consume_incomplete_sequences_return_none() {
    assert_eq!(consume_comment(b"<!-- abc"), None);
    assert_eq!(consume_cdata(b"<![CDATA[foo"), None);
    assert_eq!(consume_pi(b"<?xml version"), None);
}

#[test]
fn consume_complete_sequences() {
    assert_eq!(consume_comment(b"<!-- a -->tail"), Some(10));
    assert_eq!(consume_cdata(b"<![CDATA[x]]>"), Some(13));
    assert_eq!(consume_pi(b"<?pi?>z"), Some(6));
}

#[test]
fn contains_entities_detects_ampersand() {
    assert!(contains_entities(b"a&amp;b"));
    assert!(!contains_entities(b"plain"));
}

#[test]
fn consume_comment_searches_after_opener() {
    assert_eq!(consume_comment(b"<!-->x-->"), Some(9));
    assert_eq!(consume_comment(b"<x>-->"), None);
}

#[test]
fn contains_entities_needs_semicolon() {
    assert!(!contains_entities(b"AT&T"));
    assert!(contains_entities(b"a&lt;b"));
    assert!(!contains_entities(b"abc"));
    assert!(!contains_entities(b"x;&"));
}

#[test]
fn parse_attributes_limit_means_maximum_reached() {
    let (attrs, _consumed, hit, _n, _v) = parse_attributes(b" a=1 b=2 c=3>", 100, 100, 1);
    assert!(hit);
    assert_eq!(attrs.len(), 1);
    let (attrs, _consumed, hit, _n, _v) = parse_attributes(b" a=1>", 100, 100, 1);
    assert!(!hit);
    assert_eq!(attrs.len(), 1);
    for (name, _) in &attrs {
        assert!(!name.iter().any(|b| matches!(b, b' ' | b'\t' | b'\r' | b'\n' | b'/' | b'>' | b'=')));
    }
}
