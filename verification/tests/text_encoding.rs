use pdf_template_core::cmap::{parse_hex_to_string, parse_hex_u32, ToUnicodeCMap};
use pdf_template_core::pdf_string::{decode_pdf_string, decode_pdf_string_checked, encode_pdf_string};

const SAMPLE_CMAP: &str = "/CIDInit /ProcSet findresource begin\n\
12 dict begin\n\
begincmap\n\
2 beginbfchar\n\
<0003> <0020>\n\
<0024> <00410042>\n\
endbfchar\n\
1 beginbfrange\r\n\
<0041> <0043> <0061>\r\n\
endbfrange\n\
endcmap\n";

#[test]
fn hex_numbers_follow_from_str_radix() {
    assert_eq!(parse_hex_u32("<0041>"), Some(0x41));
    assert_eq!(parse_hex_u32("<<ff>>"), Some(255));
    assert_eq!(parse_hex_u32("<+A>"), Some(10));
    assert_eq!(parse_hex_u32("<>"), None);
    assert_eq!(parse_hex_u32("<+>"), None);
    assert_eq!(parse_hex_u32("<-1>"), None);
    assert_eq!(parse_hex_u32("<G1>"), None);
    assert_eq!(parse_hex_u32("<FFFFFFFF>"), Some(u32::MAX));
    assert_eq!(parse_hex_u32("<100000000>"), None);
    assert_eq!(parse_hex_u32("<0000000000FF>"), Some(255));
}

#[test]
fn hex_strings_decode_utf16_or_utf8() {
    assert_eq!(parse_hex_to_string("<0041>"), Some("A".to_string()));
    assert_eq!(parse_hex_to_string("<00410042>"), Some("AB".to_string()));
    assert_eq!(parse_hex_to_string("<41>"), Some("A".to_string()));
    assert_eq!(parse_hex_to_string("<D83DDE00>"), Some("\u{1F600}".to_string()));
    assert_eq!(parse_hex_to_string("<D83D>"), None);
    assert_eq!(parse_hex_to_string("<C3A9FF>"), None);
    assert_eq!(parse_hex_to_string("<>"), Some(String::new()));
    assert_eq!(parse_hex_to_string("<4>"), Some(String::new()));
    assert_eq!(parse_hex_to_string("<zz41>"), Some("A".to_string()));
}

#[test]
fn parses_bfchar_and_bfrange_blocks() {
    let cmap = ToUnicodeCMap::parse(SAMPLE_CMAP.as_bytes());
    assert_eq!(cmap.char_map.len(), 2);
    assert_eq!(cmap.char_map.get(&3), Some(&" ".to_string()));
    assert_eq!(cmap.char_map.get(&0x24), Some(&"AB".to_string()));
    assert_eq!(cmap.range_map, vec![(0x41, 0x43, 0x61)]);
    assert_eq!(cmap.map_code(3), Some(" ".to_string()));
    assert_eq!(cmap.map_code(0x42), Some("b".to_string()));
    assert_eq!(cmap.map_code(0x44), None);
}

#[test]
fn lines_outside_blocks_are_ignored() {
    let cmap = ToUnicodeCMap::parse(b"<0001> <0041>\nbeginbfchar\n<0002> <0042>\nendbfchar\n<0003> <0043>\n");
    assert_eq!(cmap.char_map.len(), 1);
    assert_eq!(cmap.map_code(2), Some("B".to_string()));
    assert_eq!(cmap.map_code(1), None);
}

#[test]
fn range_lookup_skips_invalid_code_points() {
    let mut cmap = ToUnicodeCMap::default();
    cmap.range_map.push((0, 10, 0xD800));
    cmap.range_map.push((0, 10, 0x30));
    assert_eq!(cmap.map_code(2), Some("2".to_string()));
}

#[test]
fn decodes_byte_order_marks() {
    assert_eq!(decode_pdf_string(&[0xFE, 0xFF, 0x00, 0x41, 0x00, 0xE9], None, None), "Aé");
    assert_eq!(decode_pdf_string(&[0xEF, 0xBB, 0xBF, b'h', b'i'], None, None), "hi");
    assert_eq!(decode_pdf_string(b"plain", None, None), "plain");
}

#[test]
fn falls_back_to_windows_1252() {
    assert_eq!(decode_pdf_string(&[0x80, b'5'], None, None), "€5");
    assert_eq!(decode_pdf_string(&[0xE9], None, None), "é");
}

#[test]
fn decodes_through_cmap() {
    let cmap = ToUnicodeCMap::parse(SAMPLE_CMAP.as_bytes());
    assert_eq!(decode_pdf_string(&[0x00, 0x24, 0x00, 0x03, 0x00, 0x42], Some(&cmap), None), "AB b");
    assert_eq!(decode_pdf_string(&[0x00, 0x7A], Some(&cmap), None), "z");
    assert_eq!(decode_pdf_string(&[0x41, 0x03, 0x43], Some(&cmap), None), "a c");
    assert_eq!(decode_pdf_string(&[0x41, 0x5A], Some(&cmap), None), "AZ");
}

#[test]
fn encodes_ascii_directly_and_others_as_utf16be() {
    assert_eq!(encode_pdf_string("Total: 15"), b"Total: 15".to_vec());
    assert_eq!(encode_pdf_string("é"), vec![0xFE, 0xFF, 0x00, 0xE9]);
    assert_eq!(encode_pdf_string("a😀"), vec![0xFE, 0xFF, 0x00, 0x61, 0xD8, 0x3D, 0xDE, 0x00]);
    assert_eq!(encode_pdf_string(""), Vec::<u8>::new());
}

#[test]
fn encoding_round_trips() {
    for s in ["Invoice Details", "Terms & Conditions", "Café déjà vu", "日本語", "emoji 😀!", ""] {
        let bytes = encode_pdf_string(s);
        assert_eq!(decode_pdf_string(&bytes, None, None), s);
    }
    let cmap = ToUnicodeCMap::parse(SAMPLE_CMAP.as_bytes());
    let bytes = encode_pdf_string("Crème");
    assert_eq!(decode_pdf_string(&bytes, Some(&cmap), None), "Crème");
}

#[test]
fn cmap_overflow_is_detected_before_decoding() {
    let good = ToUnicodeCMap::parse(b"beginbfrange\n<20> <7E> <0020>\nendbfrange\n");
    assert_eq!(decode_pdf_string_checked(b"Hi", Some(&good)), Some("Hi".to_string()));
    let bad = ToUnicodeCMap::parse(b"beginbfrange\n<00> <FF> <FFFFFFF0>\nendbfrange\n");
    assert!(!bad.can_map(0x20));
    assert!(bad.can_map(0x05));
    // The lookup of 0x20 would overflow.
    assert_eq!(decode_pdf_string_checked(b" ", Some(&bad)), None);
    // 0x05 maps to no character, so the 1-byte reading stops before 0x20.
    assert_eq!(decode_pdf_string_checked(&[0x05, 0x20], Some(&bad)), Some("\u{5} ".to_string()));
    // A byte-order mark ends decoding before any lookup.
    assert_eq!(decode_pdf_string_checked(&[0xFE, 0xFF, 0x00, 0x20], Some(&bad)), Some(" ".to_string()));
}

#[test]
fn parses_cmap_streams_as_utf8() {
    let cmap = ToUnicodeCMap::parse(
        b"2 beginbfchar\n<01> <0041>\n<02> <00E9>\nendbfchar\n1 beginbfrange\n<20> <7E> <0020>\nendbfrange\n",
    );
    assert_eq!(cmap.char_map.get(&1), Some(&"A".to_string()));
    assert_eq!(cmap.char_map.get(&2), Some(&"é".to_string()));
    assert_eq!(cmap.char_map.len(), 2);
    assert_eq!(cmap.range_map, vec![(0x20, 0x7E, 0x20)]);
    assert_eq!(cmap.map_code(0x7F), None);
}
