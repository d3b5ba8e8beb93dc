use ripx::chunk::ChunkSplitter;
use ripx::simd_scanner::{CharLookup, SimdScanner};

#[test]
fn test_find_xml_structural_char() {
    let data = b"hello world<tag>";
    assert_eq!(SimdScanner::find_xml_structural_char(data), Some(11));
    let data = b"text>more";
    assert_eq!(SimdScanner::find_xml_structural_char(data), Some(4));
    let data = b"entity&ref";
    assert_eq!(SimdScanner::find_xml_structural_char(data), Some(6));
    let data = b"no special chars";
    assert_eq!(SimdScanner::find_xml_structural_char(data), None);
}

#[test]
fn test_is_valid_name() {
    assert!(SimdScanner::is_valid_name(b"element"));
    assert!(SimdScanner::is_valid_name(b"my-element"));
    assert!(SimdScanner::is_valid_name(b"my_element"));
    assert!(SimdScanner::is_valid_name(b"element123"));
    assert!(SimdScanner::is_valid_name(b"ns:element"));
    assert!(!SimdScanner::is_valid_name(b""));
    assert!(!SimdScanner::is_valid_name(b"123element"));
    assert!(!SimdScanner::is_valid_name(b"-element"));
    assert!(!SimdScanner::is_valid_name(b"ele ment"));
}

#[test]
fn test_find_tag_close() {
    let data = b"<tag attr=\"value\">";
    assert_eq!(SimdScanner::find_tag_close(data), Some(17));
    let data = b"no closing bracket";
    assert_eq!(SimdScanner::find_tag_close(data), None);
}

#[test]
fn find_equals_and_quote() {
    assert_eq!(SimdScanner::find_equals(b"a b=c"), Some(3));
    assert_eq!(SimdScanner::find_quote(b"x='y'", b'\''), Some(2));
    assert_eq!(SimdScanner::find_quote(b"x='y'", b'"'), None);
}

#[test]
fn test_skip_whitespace() {
    assert_eq!(SimdScanner::skip_whitespace(b"   text"), 3);
    assert_eq!(SimdScanner::skip_whitespace(b"\t\n\r text"), 4);
    assert_eq!(SimdScanner::skip_whitespace(b"text"), 0);
    assert_eq!(SimdScanner::skip_whitespace(b"   "), 3);
}

#[test]
fn test_char_lookup() {
    let lookup = CharLookup::new();
    assert!(lookup.is_whitespace(b' '));
    assert!(lookup.is_whitespace(b'\t'));
    assert!(lookup.is_whitespace(b'\n'));
    assert!(!lookup.is_whitespace(b'a'));
    assert!(lookup.is_name_char(b'a'));
    assert!(lookup.is_name_char(b'Z'));
    assert!(lookup.is_name_char(b'0'));
    assert!(lookup.is_name_char(b'_'));
    assert!(!lookup.is_name_char(b' '));
    assert!(lookup.is_delimiter(b' '));
    assert!(lookup.is_delimiter(b'>'));
    assert!(lookup.is_delimiter(b'/'));
    assert!(!lookup.is_delimiter(b'a'));
}

#[test]
fn test_find_whitespace() {
    let data = b"text more";
    assert_eq!(SimdScanner::find_whitespace(data), Some(4));
    let data = b"nowhitespace";
    assert_eq!(SimdScanner::find_whitespace(data), None);
}

#[test]
fn test_empty_data() {
    let splitter = ChunkSplitter::default();
    let chunks = splitter.split(b"");
    assert_eq!(chunks.len(), 0);
}

#[test]
fn test_single_small_chunk() {
    let splitter = ChunkSplitter::new(1024, 4096, 128);
    let data = b"<root><item>text</item></root>";
    let chunks = splitter.split(data);
    assert_eq!(chunks.len(), 1);
    assert_eq!(chunks[0].data, data);
    assert_eq!(chunks[0].chunk_id, 0);
    assert_eq!(chunks[0].overlap_bytes, 0);
}

#[test]
fn test_multiple_chunks() {
    let splitter = ChunkSplitter::new(100, 1000, 20);
    let mut data = Vec::new();
    for i in 0..50 {
        data.extend_from_slice(format!("<item id=\"{}\">data</item>", i).as_bytes());
    }
    let chunks = splitter.split(&data);
    assert!(chunks.len() > 1, "Expected multiple chunks, got {}", chunks.len());
    for (i, chunk) in chunks.iter().enumerate() {
        assert_eq!(chunk.chunk_id, i);
    }
    assert_eq!(chunks[0].overlap_bytes, 0);
    if chunks.len() > 1 {
        for chunk in &chunks[1..] {
            assert!(chunk.overlap_bytes > 0, "Expected overlap for chunk {}", chunk.chunk_id);
        }
    }
}

#[test]
fn test_nested_elements() {
    let splitter = ChunkSplitter::new(50, 500, 10);
    let data = b"<root><a><b><c>deep</c></b></a></root><root><a>shallow</a></root>";
    let chunks = splitter.split(data);
    for chunk in &chunks {
        let open_count = chunk.data.iter().filter(|&&b| b == b'<').count();
        let close_count = chunk.data.iter().filter(|&&b| b == b'>').count();
        assert_eq!(open_count, close_count, "Unbalanced tags in chunk {}", chunk.chunk_id);
    }
}

#[test]
fn test_chunk_boundaries_at_safe_points() {
    let splitter = ChunkSplitter::new(80, 500, 10);
    let data = b"<item>1</item><item>2</item><item>3</item><item>4</item><item>5</item>";
    let chunks = splitter.split(data);
    for chunk in &chunks {
        let start_idx = chunk.overlap_bytes;
        if start_idx < chunk.data.len() {
            let has_tag_start = chunk.data[start_idx..].iter().any(|&b| b == b'<');
            assert!(has_tag_start, "Chunk {} doesn't contain tag start", chunk.chunk_id);
        }
    }
}

#[test]
fn chunks_split_at_top_level_close_and_cover_input() {
    let splitter = ChunkSplitter::new(5, 100, 2);
    let data = b"<a>1</a><b>2</b>";
    let chunks = splitter.split(data);
    assert_eq!(chunks.len(), 2);
    assert_eq!(chunks[0].data, b"<a>1</a>");
    assert_eq!(chunks[1].data, b"a><b>2</b>");
    assert_eq!(chunks[1].offset, 6);
    assert_eq!(chunks[1].overlap_bytes, 2);
    let mut joined = Vec::new();
    for c in &chunks {
        joined.extend_from_slice(&c.data[c.overlap_bytes..]);
    }
    assert_eq!(joined, data.to_vec());
}
