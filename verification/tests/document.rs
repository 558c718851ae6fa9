use fontmif::RangeSpec;
use fontmif::convert;
use fontmif::encode_glyphs;
use fontmif::mif_document;
use fontmif::range_parser;

#[test]
fn document_matches_the_format_exactly() {
    let data = vec![0x00u8, 0xAB];
    let doc = mif_document("font.ttf", &data);
    let expected = "-- font.ttf \n\n\
                    DEPTH = 2;\n\
                    WIDTH = 1;\n\
                    ADDRESS_RADIX = HEX;\n\
                    DATA_RADIX = HEX;\n\n\
                    CONTENT\n\
                    BEGIN\n\n\
                    0000 : 00;\n\
                    0008 : AB;\n\n\
                    END;\n";
    assert_eq!(doc, expected);
}

#[test]
fn addresses_advance_by_eight_bits_per_byte() {
    let data = vec![1u8, 2, 3];
    let doc = mif_document("f", &data);
    assert!(doc.contains("0000 : 01;\n"));
    assert!(doc.contains("0008 : 02;\n"));
    assert!(doc.contains("0010 : 03;\n"));
}

#[test]
fn line_count_is_twelve_plus_one_per_byte() {
    for n in [0usize, 1, 8, 16] {
        let data = vec![0u8; n];
        let doc = mif_document("x", &data);
        assert_eq!(doc.matches('\n').count(), 12 + n);
    }
}

#[test]
fn depth_equals_buffer_byte_count() {
    let range = RangeSpec { start: 65, end: 67 };
    let glyphs = vec![None, None];
    let buf = encode_glyphs(&range, &glyphs);
    assert_eq!(buf.len(), range.len() * 8);
    let doc = mif_document("f", &buf);
    assert!(doc.contains("DEPTH = 16;\n"));
}

#[test]
fn two_absent_glyphs_give_sixteen_zero_bytes() {
    // Range "65..67" — codes 65 and 66 — on a font lacking both glyphs.
    let range = range_parser("65..67").unwrap();
    assert_eq!(range, RangeSpec { start: 65, end: 67 });
    let glyphs = vec![None, None];
    let doc = convert("f.ttf", &range, &glyphs);
    assert!(doc.contains("DEPTH = 16;\n"));
    assert_eq!(doc.matches(" : 00;\n").count(), 16);
    assert_eq!(doc.matches('\n').count(), 12 + 16);
}

#[test]
fn single_character_range_gives_eight_bytes() {
    let range = range_parser("5").unwrap();
    assert_eq!(range, RangeSpec { start: 5, end: 6 });
    let glyphs = vec![None];
    let buf = encode_glyphs(&range, &glyphs);
    assert_eq!(buf.len(), 8);
    let doc = mif_document("f", &buf);
    assert!(doc.contains("DEPTH = 8;\n"));
}

#[test]
fn conversion_is_deterministic() {
    let range = RangeSpec { start: 0, end: 2 };
    let glyphs = vec![Some(vec![(0u32, 0u32), (5, 3)]), None];
    let doc1 = convert("same.ttf", &range, &glyphs);
    let doc2 = convert("same.ttf", &range, &glyphs);
    assert_eq!(doc1, doc2);
}

#[test]
fn empty_range_still_produces_a_document() {
    let range = RangeSpec { start: 3, end: 3 };
    let glyphs: Vec<Option<Vec<(u32, u32)>>> = vec![];
    let doc = convert("e", &range, &glyphs);
    assert!(doc.contains("DEPTH = 0;\n"));
    assert_eq!(doc.matches('\n').count(), 12);
}

#[test]
fn wide_addresses_grow_past_four_digits() {
    // 8192 bytes: the last byte's bit address is 8191 * 8 = 65528 = 0xFFF8;
    // one more would need five digits.
    let data = vec![0u8; 8193];
    let doc = mif_document("big", &data);
    assert!(doc.contains("FFF8 : 00;\n"));
    assert!(doc.contains("10000 : 00;\n"));
}
