use fontmif::RangeSpec;
use fontmif::code_for_offset;
use fontmif::encode_glyphs;
use fontmif::write_glyph;

#[test]
fn absent_glyphs_leave_zero_bytes() {
    let range = RangeSpec { start: 65, end: 67 };
    let glyphs: Vec<Option<Vec<(u32, u32)>>> = vec![None, None];
    let buf = encode_glyphs(&range, &glyphs);
    assert_eq!(buf.len(), 16);
    assert!(buf.iter().all(|&b| b == 0));
}

#[test]
fn samples_set_their_bits() {
    let range = RangeSpec { start: 0, end: 1 };
    let glyphs = vec![Some(vec![(0u32, 0u32), (7, 7), (3, 2)])];
    let buf = encode_glyphs(&range, &glyphs);
    assert_eq!(buf, vec![0x01, 0x00, 0x08, 0x00, 0x00, 0x00, 0x00, 0x80]);
}

#[test]
fn duplicate_samples_are_idempotent() {
    let range = RangeSpec { start: 0, end: 1 };
    let once = encode_glyphs(&range, &vec![Some(vec![(2u32, 5u32)])]);
    let twice = encode_glyphs(&range, &vec![Some(vec![(2u32, 5u32), (2, 5)])]);
    assert_eq!(once, twice);
    assert_eq!(once[5], 0x04);
}

#[test]
fn out_of_cell_samples_are_ignored() {
    let range = RangeSpec { start: 0, end: 1 };
    let glyphs = vec![Some(vec![(8u32, 0u32), (0, 8), (100, 100)])];
    let buf = encode_glyphs(&range, &glyphs);
    assert!(buf.iter().all(|&b| b == 0));
}

#[test]
fn second_character_fills_its_own_cell() {
    let range = RangeSpec { start: 65, end: 67 };
    let glyphs = vec![None, Some(vec![(1u32, 3u32)])];
    let buf = encode_glyphs(&range, &glyphs);
    assert_eq!(buf.len(), 16);
    for (i, &b) in buf.iter().enumerate() {
        if i == 8 + 3 {
            assert_eq!(b, 0x02);
        } else {
            assert_eq!(b, 0x00);
        }
    }
}

#[test]
fn write_glyph_ors_into_existing_bytes() {
    let mut buf = vec![0u8; 8];
    buf[0] = 0x10;
    write_glyph(&mut buf, 0, &vec![(0u32, 0u32)]);
    assert_eq!(buf[0], 0x11);
}

#[test]
fn codes_above_255_alias_into_one_byte() {
    // Range "300" narrows to the single-byte domain: 300 mod 256 = 44.
    let range = RangeSpec { start: 300, end: 301 };
    assert_eq!(code_for_offset(&range, 0), 44);
    let range = RangeSpec { start: 65, end: 67 };
    assert_eq!(code_for_offset(&range, 0), 65);
    assert_eq!(code_for_offset(&range, 1), 66);
}
