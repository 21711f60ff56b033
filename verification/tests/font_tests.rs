use thyme::font::{
    character_count, characters_in, font_ranges, font_source_position, plan_fonts, CharacterRange, FontDefinition,
    FontTextureWriter,
};
use thyme::Error;

#[test]
fn characters_of_ranges_in_order() {
    let ranges = vec![CharacterRange { lower: 65, upper: 67 }, CharacterRange { lower: 48, upper: 49 }];
    assert_eq!(characters_in(&ranges), vec!['A', 'B', 'C', '0', '1']);
}

#[test]
fn a_range_stops_at_its_first_invalid_code_point() {
    let ranges = vec![
        CharacterRange { lower: 0xD7FE, upper: 0xD801 },
        CharacterRange { lower: 97, upper: 97 },
    ];
    let chars = characters_in(&ranges);
    assert_eq!(chars, vec!['\u{D7FE}', '\u{D7FF}', 'a']);
}

#[test]
fn empty_and_reversed_ranges_give_nothing() {
    assert!(characters_in(&Vec::new()).is_empty());
    assert!(characters_in(&vec![CharacterRange { lower: 10, upper: 9 }]).is_empty());
    assert_eq!(characters_in(&vec![CharacterRange { lower: 0x10FFFF, upper: 0x10FFFF }]), vec!['\u{10FFFF}']);
}

#[test]
fn code_points_are_counted() {
    let ranges = vec![CharacterRange { lower: 32, upper: 126 }, CharacterRange { lower: 161, upper: 255 }];
    assert_eq!(character_count(&ranges), 95 + 95);
    assert_eq!(character_count(&Vec::new()), 0);
}

#[test]
fn glyphs_are_placed_in_rows() {
    let mut writer = FontTextureWriter::new(10, 10);
    assert!(writer.fits(3, 2));
    assert_eq!(writer.place(3, 2), (0, 0));
    assert_eq!(writer.place(4, 3), (4, 0));
    // 9 + 2 would reach the right edge: a new row starts below the tallest glyph
    assert!(writer.fits(2, 2));
    assert_eq!(writer.place(2, 2), (0, 4));
    assert_eq!(writer.place(1, 1), (3, 4));
    assert_eq!(writer.tex_width(), 10);
    assert_eq!(writer.tex_height(), 10);
}

#[test]
fn glyphs_that_do_not_fit_are_refused() {
    let mut writer = FontTextureWriter::new(8, 4);
    assert!(!writer.fits(8, 1));
    assert!(!writer.fits(2, 4));
    assert_eq!(writer.place(2, 2), (0, 0));
    assert!(writer.fits(4, 1));
    assert!(writer.fits(2, 3));
    // a new row would start at row 3, leaving no room below it
    assert!(!writer.fits(5, 2));
    assert!(!writer.fits(6, 1));
}

#[test]
fn texels_are_written_row_by_row() {
    let mut writer = FontTextureWriter::new(4, 3);
    writer.set_texel(1, 2, 200);
    writer.set_texel(3, 0, 7);
    let data = writer.into_data();
    assert_eq!(data.len(), 12);
    assert_eq!(data[2 * 4 + 1], 200);
    assert_eq!(data[3], 7);
    assert_eq!(data.iter().filter(|v| **v != 0).count(), 2);
}

#[test]
fn fonts_without_ranges_cover_ascii_and_latin1() {
    let r = font_ranges(&Vec::new());
    assert_eq!(r, vec![CharacterRange { lower: 32, upper: 126 }, CharacterRange { lower: 161, upper: 255 }]);
    let own = vec![CharacterRange { lower: 0x400, upper: 0x4FF }];
    assert_eq!(font_ranges(&own), own);
}

#[test]
fn font_sources_are_found_by_name() {
    let sources = vec!["roboto".to_string(), "mono".to_string()];
    assert_eq!(font_source_position("mono", &sources).ok(), Some(1));
    match font_source_position("serif", &sources) {
        Err(Error::Theme(m)) => assert_eq!(m, "Unable to locate font handle serif"),
        _ => panic!("expected a missing font source"),
    }
}

#[test]
fn fonts_are_planned_with_handles_in_order() {
    let defs = vec![
        ("body".to_string(), FontDefinition { source: "sans".to_string(), characters: Vec::new() }),
        (
            "code".to_string(),
            FontDefinition { source: "mono".to_string(), characters: vec![CharacterRange { lower: 48, upper: 57 }] },
        ),
    ];
    let sources = vec!["mono".to_string(), "sans".to_string()];
    let regs = plan_fonts(&defs, &sources).ok().unwrap();
    assert_eq!(regs.len(), 2);
    assert_eq!(regs[0].handle.id(), 0);
    assert_eq!(regs[1].handle.id(), 1);
    assert_eq!(regs[0].source, 1);
    assert_eq!(regs[1].source, 0);
    assert_eq!(regs[0].ranges, vec![CharacterRange { lower: 32, upper: 126 }, CharacterRange { lower: 161, upper: 255 }]);
    assert_eq!(regs[1].ranges, vec![CharacterRange { lower: 48, upper: 57 }]);
}

#[test]
fn planning_fonts_reports_the_first_missing_source() {
    let defs = vec![
        ("body".to_string(), FontDefinition { source: "sans".to_string(), characters: Vec::new() }),
        ("code".to_string(), FontDefinition { source: "mono".to_string(), characters: Vec::new() }),
        ("title".to_string(), FontDefinition { source: "serif".to_string(), characters: Vec::new() }),
    ];
    let sources = vec!["sans".to_string()];
    match plan_fonts(&defs, &sources) {
        Err(Error::Theme(msg)) => assert_eq!(msg, "Unable to locate font handle mono"),
        _ => panic!("expected a missing font source"),
    }
    assert!(plan_fonts(&Vec::new(), &Vec::new()).ok().unwrap().is_empty());
}
