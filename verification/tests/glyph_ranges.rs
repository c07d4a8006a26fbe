use imgui::glyph_ranges::{validate_glyph_ranges, FontGlyphRanges, GlyphRangeError, ImWchar};

static LATIN: [ImWchar; 5] = [0x0020, 0x007E, 0x00A0, 0x00FF, 0];
static REVERSED_ORDER: [ImWchar; 5] = [0x0400, 0x04FF, 0x0020, 0x007E, 0];

#[test]
fn builtin_sets_are_distinct() {
    let all = [
        FontGlyphRanges::chinese_simplified_common(),
        FontGlyphRanges::chinese_full(),
        FontGlyphRanges::cyrillic(),
        FontGlyphRanges::default(),
        FontGlyphRanges::japanese(),
        FontGlyphRanges::korean(),
        FontGlyphRanges::thai(),
        FontGlyphRanges::vietnamese(),
    ];
    for (i, a) in all.iter().enumerate() {
        for (j, b) in all.iter().enumerate() {
            assert_eq!(i == j, a == b);
        }
    }
    assert_eq!(FontGlyphRanges::korean(), FontGlyphRanges::korean().clone());
}

#[test]
fn valid_ranges_are_accepted() {
    assert_eq!(validate_glyph_ranges(&LATIN), Ok(()));
    assert_eq!(validate_glyph_ranges(&REVERSED_ORDER), Ok(()));
    assert_eq!(validate_glyph_ranges(&[0x10FFFF, 0x10FFFF, 0]), Ok(()));
    assert_eq!(validate_glyph_ranges(&[5, 5, 7, 7, 1, 4, 0]), Ok(()));
}

#[test]
fn from_slice_keeps_the_slice() {
    assert_eq!(validate_glyph_ranges(&LATIN), Ok(()));
    let a = FontGlyphRanges::from_slice(&LATIN);
    let b = FontGlyphRanges::from_slice(&LATIN);
    assert_eq!(a, b);
    assert_ne!(a, FontGlyphRanges::from_slice(&REVERSED_ORDER));
    assert_ne!(a, FontGlyphRanges::default());
    assert_eq!(FontGlyphRanges::from_slice_unchecked(&LATIN), a);
}

#[test]
fn even_length_is_rejected() {
    assert_eq!(validate_glyph_ranges(&[]), Err(GlyphRangeError::EvenLength));
    assert_eq!(validate_glyph_ranges(&[1, 2]), Err(GlyphRangeError::EvenLength));
    assert_eq!(validate_glyph_ranges(&[0, 0, 0, 0]), Err(GlyphRangeError::EvenLength));
}

#[test]
fn missing_terminator_is_rejected() {
    assert_eq!(validate_glyph_ranges(&[1, 2, 3]), Err(GlyphRangeError::NotZeroTerminated));
}

#[test]
fn zero_glyph_is_rejected() {
    assert_eq!(validate_glyph_ranges(&[0, 5, 0]), Err(GlyphRangeError::ZeroGlyph { index: 0 }));
    assert_eq!(
        validate_glyph_ranges(&[1, 5, 6, 0, 0]),
        Err(GlyphRangeError::ZeroGlyph { index: 3 })
    );
}

#[test]
fn glyph_beyond_unicode_is_rejected() {
    assert_eq!(
        validate_glyph_ranges(&[0x20, 0x110000, 0]),
        Err(GlyphRangeError::GlyphTooLarge { glyph: 0x110000, index: 1 })
    );
    // The glyph checks run index by index, before the order of a pair is looked at.
    assert_eq!(
        validate_glyph_ranges(&[9, 8, 0x110000, 0x110001, 0]),
        Err(GlyphRangeError::GlyphTooLarge { glyph: 0x110000, index: 2 })
    );
}

#[test]
fn reversed_range_is_rejected() {
    assert_eq!(
        validate_glyph_ranges(&[1, 2, 0x50, 0x40, 0]),
        Err(GlyphRangeError::StartAfterEnd { index: 2, start: 0x50, end: 0x40 })
    );
}

static EMPTY: [ImWchar; 1] = [0];

#[test]
fn terminator_alone_is_accepted() {
    assert_eq!(validate_glyph_ranges(&EMPTY), Ok(()));
    let a = FontGlyphRanges::from_slice(&EMPTY);
    assert_eq!(a, FontGlyphRanges::from_slice(&EMPTY));
    assert_ne!(a, FontGlyphRanges::from_slice(&LATIN));
}

#[test]
fn overlapping_ranges_are_rejected() {
    assert_eq!(
        validate_glyph_ranges(&[0x25, 0x40, 0x20, 0x30, 0]),
        Err(GlyphRangeError::Overlap { first: (0x20, 0x30), second: (0x25, 0x40) })
    );
    // Inclusive ranges that share their end point overlap.
    assert_eq!(
        validate_glyph_ranges(&[1, 5, 5, 9, 0]),
        Err(GlyphRangeError::Overlap { first: (1, 5), second: (5, 9) })
    );
    // A range inside another one.
    assert_eq!(
        validate_glyph_ranges(&[1, 100, 200, 300, 10, 20, 0]),
        Err(GlyphRangeError::Overlap { first: (1, 100), second: (10, 20) })
    );
    // Sorted by start, the first overlapping neighbours are reported.
    assert_eq!(
        validate_glyph_ranges(&[50, 60, 30, 40, 10, 35, 55, 70, 0]),
        Err(GlyphRangeError::Overlap { first: (10, 35), second: (30, 40) })
    );
    // The same range twice.
    assert_eq!(
        validate_glyph_ranges(&[7, 9, 7, 9, 0]),
        Err(GlyphRangeError::Overlap { first: (7, 9), second: (7, 9) })
    );
}

#[test]
fn range_order_does_not_change_validity() {
    assert_eq!(validate_glyph_ranges(&LATIN), Ok(()));
    assert_eq!(validate_glyph_ranges(&[0x00A0, 0x00FF, 0x0020, 0x007E, 0]), Ok(()));
    assert_eq!(validate_glyph_ranges(&REVERSED_ORDER), Ok(()));
    assert_eq!(validate_glyph_ranges(&[0x0020, 0x007E, 0x0400, 0x04FF, 0]), Ok(()));
    assert!(validate_glyph_ranges(&[1, 10, 50, 60, 5, 20, 0]).is_err());
    assert!(validate_glyph_ranges(&[5, 20, 50, 60, 1, 10, 0]).is_err());
    assert!(validate_glyph_ranges(&[50, 60, 1, 10, 5, 20, 0]).is_err());
}
