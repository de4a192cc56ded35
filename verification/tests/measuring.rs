use svg_replace::error::ReplaceError;
use svg_replace::metrics::{GlyphEntry, GlyphMetric, KerningEntry, MetricsTable};

const PX: i32 = 1_000_000;

fn glyph(ch: char, advance: i32, bbox_left: i32, bbox_width: i32) -> GlyphEntry {
    GlyphEntry { ch, metric: GlyphMetric { advance, bbox_left, bbox_width } }
}

fn table() -> MetricsTable {
    MetricsTable {
        glyphs: vec![
            glyph('A', 10 * PX, -PX, 12 * PX),
            glyph('V', 9 * PX, 0, 10 * PX),
            glyph('i', 3 * PX, PX, PX),
            glyph('f', 4 * PX, 0, 7 * PX),
            glyph('A', 99 * PX, 0, 99 * PX),
        ],
        kerning: vec![
            KerningEntry { left: 'A', right: 'V', adjust: -2 * PX },
            KerningEntry { left: 'A', right: 'V', adjust: 50 * PX },
        ],
        fallback: GlyphMetric { advance: 5 * PX, bbox_left: 0, bbox_width: 5 * PX },
    }
}

#[test]
fn empty_text_has_no_width() {
    assert_eq!(table().width_of(""), Ok(0));
}

#[test]
fn a_single_glyph_is_as_wide_as_its_box() {
    // The box of `A` reaches from -1 to 11.
    assert_eq!(table().width_of("A"), Ok(12_000_000));
    assert_eq!(table().width_of("V"), Ok(10_000_000));
}

#[test]
fn a_single_glyph_right_of_the_origin_counts_from_the_origin() {
    // The box of `i` reaches from 1 to 2; the extents start at the origin.
    assert_eq!(table().width_of("i"), Ok(2_000_000));
}

#[test]
fn kerning_moves_the_pen_between_neighbours() {
    // A: box -1..11, pen to 10; kerning -2 puts V at 8: box 8..18.
    assert_eq!(table().width_of("AV"), Ok(19_000_000));
    // No kerning the other way round: V: 0..10, pen to 9; A: 8..20.
    assert_eq!(table().width_of("VA"), Ok(20_000_000));
}

#[test]
fn overhang_past_the_last_advance_counts() {
    // f advances by 4 and its box is 7 wide: ff is 4 + 7.
    assert_eq!(table().width_of("ff"), Ok(11_000_000));
    // Advances alone would give 8.
    assert_eq!(table().width_of("fi"), Ok(7_000_000));
}

#[test]
fn a_character_without_an_entry_has_the_fallback_metrics() {
    assert_eq!(table().metric('?'), table().fallback);
    assert_eq!(table().width_of("??"), Ok(10_000_000));
}

#[test]
fn the_first_entry_counts() {
    assert_eq!(table().metric('A').advance, 10 * PX);
    assert_eq!(table().kern('A', 'V'), -2 * PX);
    assert_eq!(table().kern('V', 'A'), 0);
}

#[test]
fn measuring_twice_gives_the_same_width() {
    let t = table();
    let again = table();
    for s in ["", "A", "AVAVA", "fiV?A"] {
        assert_eq!(t.width_of(s), t.width_of(s));
        assert_eq!(t.width_of(s), again.width_of(s));
    }
}

#[test]
fn negative_advances_widen_to_the_left() {
    let t = MetricsTable {
        glyphs: vec![glyph('a', -10 * PX, 0, 2 * PX)],
        kerning: vec![],
        fallback: GlyphMetric { advance: 0, bbox_left: 0, bbox_width: 0 },
    };
    // Boxes at 0..2, -10..-8, -20..-18.
    assert_eq!(t.width_of("aaa"), Ok(22_000_000));
}

#[test]
fn a_width_result_is_never_the_range_error_for_short_texts() {
    let t = MetricsTable {
        glyphs: vec![glyph('w', i32::MAX, i32::MAX, i32::MAX)],
        kerning: vec![KerningEntry { left: 'w', right: 'w', adjust: i32::MAX }],
        fallback: GlyphMetric { advance: 0, bbox_left: 0, bbox_width: 0 },
    };
    let m = i32::MAX as i64;
    // Pen of the third glyph: 2 advances and 2 kernings; its box adds 2 more.
    assert_eq!(t.width_of("www"), Ok(6 * m));
    assert_ne!(t.width_of("www"), Err(ReplaceError::NumericRange));
}

#[test]
fn a_new_table_has_only_the_fallback() {
    let fallback = GlyphMetric { advance: 3, bbox_left: -1, bbox_width: 4 };
    let t = MetricsTable::new(fallback);
    assert!(t.glyphs.is_empty());
    assert!(t.kerning.is_empty());
    assert_eq!(t.metric('a'), fallback);
    assert_eq!(t.kern('a', 'b'), 0);
    assert!(!t.has_glyph('a'));
    assert!(!t.has_kerning('a', 'b'));
}

#[test]
fn entries_are_added_once() {
    let mut t = MetricsTable::new(GlyphMetric { advance: 0, bbox_left: 0, bbox_width: 0 });
    let a = GlyphMetric { advance: 10, bbox_left: 1, bbox_width: 8 };
    let other = GlyphMetric { advance: 99, bbox_left: 9, bbox_width: 9 };
    assert!(t.add_glyph('a', a));
    assert!(!t.add_glyph('a', other));
    assert!(t.has_glyph('a'));
    assert!(!t.has_glyph('b'));
    assert_eq!(t.metric('a'), a);
    assert_eq!(t.glyphs, vec![GlyphEntry { ch: 'a', metric: a }]);
    assert!(t.add_kerning('a', 'b', -2));
    assert!(!t.add_kerning('a', 'b', 7));
    assert!(t.add_kerning('b', 'a', 5));
    assert!(t.has_kerning('a', 'b'));
    assert!(!t.has_kerning('a', 'a'));
    assert_eq!(t.kern('a', 'b'), -2);
    assert_eq!(t.kern('b', 'a'), 5);
    assert_eq!(
        t.kerning,
        vec![KerningEntry { left: 'a', right: 'b', adjust: -2 }, KerningEntry { left: 'b', right: 'a', adjust: 5 }]
    );
}
