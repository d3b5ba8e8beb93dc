use ripx::filter::{FilteringParser, FilteringScanner};
use ripx::source::SliceSource;

fn matches_of(doc: &[u8], name: &str) -> Vec<Vec<u8>> {
    let mut p = FilteringParser::new(SliceSource::new(doc), name);
    let mut out = Vec::new();
    while let Some(el) = p.next_match().expect("read") {
        out.push(el);
    }
    out
}

#[test]
fn filter_finds_each_element() {
    let got = matches_of(b"<root><item>A</item><other>B</other><item>C</item></root>", "item");
    assert_eq!(got, vec![b"<item>A</item>".to_vec(), b"<item>C</item>".to_vec()]);
}

#[test]
fn filter_nested_same_name() {
    let got = matches_of(b"<a><item><item>x</item></item><item/></a>", "item");
    assert_eq!(got, vec![b"<item><item>x</item></item>".to_vec(), b"<item/>".to_vec()]);
}

#[test]
fn filter_skips_markup_inside() {
    let doc = b"<item a='1'><!-- </item> --><![CDATA[</item>]]><?p </item>?>t</item>";
    let got = matches_of(doc, "item");
    assert_eq!(got, vec![doc.to_vec()]);
}

#[test]
fn filter_unclosed_element_gives_none() {
    let got = matches_of(b"<item>never closed", "item");
    assert!(got.is_empty());
}

#[test]
fn filter_empty_name_gives_none() {
    let got = matches_of(b"<item/>", "");
    assert!(got.is_empty());
}

#[test]
fn scanner_find_start_tag_offset() {
    let mut sc = FilteringScanner::new(SliceSource::new(b"xx<it><item>y</item>"));
    let off = sc.find_start_tag(b"item").expect("read").expect("found");
    assert_eq!(off, 6);
    let el = sc.extract_full_element(off, b"item").expect("read").expect("element");
    assert_eq!(el, b"<item>y</item>".to_vec());
}

#[test]
fn filter_large_input_across_windows() {
    let mut doc = Vec::new();
    doc.extend_from_slice(b"<root>");
    for i in 0..2000 {
        doc.extend_from_slice(format!("<item id=\"{}\">data</item>", i).as_bytes());
    }
    doc.extend_from_slice(b"</root>");
    let got = matches_of(&doc, "item");
    assert_eq!(got.len(), 2000);
    assert_eq!(got[1999], b"<item id=\"1999\">data</item>".to_vec());
}

#[test]
fn filter_requires_whole_name() {
    let mut p = FilteringParser::new(SliceSource::new(b"<items>x</items><item>y</item>"), "item");
    assert_eq!(p.next_match().unwrap(), Some(b"<item>y</item>".to_vec()));
    assert_eq!(p.next_match().unwrap(), None);
}

#[test]
fn filter_name_followed_by_attribute() {
    let m = matches_of(b"<itemx/><item a='1'>z</item>", "item");
    assert_eq!(m, vec![b"<item a='1'>z</item>".to_vec()]);
}
