use bdf_font::{
    parse_font, Bitmap, BitmapRow, BoundingBox, Error, Font, FontSize, Glyph, MetricsSet, Parser,
    Property, PropertyValue, XYPair, Xlfd,
};

const MINIMAL: &str = "STARTFONT 2.2\nFONT test\nSIZE 10 75 75\nFONTBOUNDINGBOX 8 8 0 0\nENDFONT\n";

fn glyph_font(rows: usize) -> String {
    let mut s = String::from(
        "STARTFONT 2.2\nFONT test\nSIZE 10 75 75\nFONTBOUNDINGBOX 8 8 0 0\nCHARS 1\nSTARTCHAR A\nENCODING 65\nBBX 8 8 0 0\nBITMAP\n",
    );
    for i in 0..rows {
        s.push_str(&format!("{:02X}\n", i * 16 + 1));
    }
    s.push_str("ENDCHAR\nENDFONT\n");
    s
}

const RICH: &str = "STARTFONT 2.1
FONT -misc-test-medium-r-normal--8-80-75-75-c-80-iso10646-1
COMMENT first comment
COMMENT second
CONTENTVERSION -3
SIZE 8 75 75

FONTBOUNDINGBOX 6 4 -1 -2
METRICSSET 2
SWIDTH 500 0
DWIDTH 6 0
SWIDTH1 0 500
DWIDTH1 0 8
VVECTOR 3 1
STARTPROPERTIES 4
FOUNDRY \"misc\"
PIXEL_SIZE 8
FOO \"a\"\"b\"
BAR -12
ENDPROPERTIES
CHARS 2
STARTCHAR space
ENCODING 32
BBX 6 4 -1 -2
SWIDTH 500 0
DWIDTH 6 0
BITMAP
00
00
00
00
ENDCHAR
STARTCHAR quad
ENCODING 9633
BBX 6 4 -1 -2
SWIDTH 500 0
DWIDTH 6 0
METRICSSET 1
SWIDTH1 0 500
DWIDTH1 0 8
VVECTOR 3 1
BITMAP
f8
88
88
F8
ENDCHAR
ENDFONT
";

#[test]
fn minimal_font_parses_and_renders() {
    let font = parse_font(MINIMAL).unwrap();
    assert_eq!(font.glyphs.len(), 0);
    assert_eq!(font.properties.len(), 0);
    assert_eq!(font.metrics, MetricsSet::Normal);
    assert_eq!(font.bdf_version, "2.2");
    assert_eq!(font.name, "test");
    assert_eq!(font.size, FontSize::new(10, 75, 75));
    assert_eq!(font.bounding_box, BoundingBox::new(8, 8, 0, 0));
    assert_eq!(font.to_bdf().unwrap(), MINIMAL);
}

#[test]
fn missing_bounding_box_fails_validation() {
    let input = "STARTFONT 2.2\nFONT test\nSIZE 10 75 75\nENDFONT\n";
    match parse_font(input) {
        Err((4, Error::FontValidation(reason))) => assert_eq!(reason, "bounding box not found"),
        other => panic!("unexpected: {:?}", other),
    }
}

#[test]
fn glyph_bitmap_block() {
    let font = parse_font(&glyph_font(8)).unwrap();
    assert_eq!(font.glyphs.len(), 1);
    let g = &font.glyphs[0];
    assert_eq!(g.codepoint, 'A');
    assert_eq!(g.name, "A");
    assert_eq!(g.bitmap.width(), 8);
    assert_eq!(g.bitmap.height(), 8);
    assert_eq!(g.bitmap.rows().len(), 8);
    // row 0 is 0x01, row 1 is 0x11
    assert_eq!(g.bitmap.get(7, 0), Some(true));
    assert_eq!(g.bitmap.get(6, 0), Some(false));
    assert_eq!(g.bitmap.get(3, 1), Some(true));
    assert_eq!(g.bitmap.get(8, 0), None);
    assert_eq!(g.bitmap.get(0, 8), None);
}

#[test]
fn glyph_bitmap_block_missing_a_row() {
    match parse_font(&glyph_font(7)) {
        Err((17, Error::UnexpectedEntry(id))) => assert_eq!(id, "ENDCHAR"),
        other => panic!("unexpected: {:?}", other),
    }
}

#[test]
fn token_counts_are_enforced() {
    assert!(matches!(XYPair::from_bdf("1 2 3"), Err(Error::ParseError("X:integer Y:integer"))));
    assert!(matches!(XYPair::from_bdf("1"), Err(Error::ParseError(_))));
    assert_eq!(XYPair::from_bdf(" 1\t2 ").unwrap(), XYPair::new(1, 2));
    assert!(matches!(BoundingBox::from_bdf("1 2"), Err(Error::ParseError(_))));
    assert!(matches!(BoundingBox::from_bdf("1 2 3 4 5"), Err(Error::ParseError(_))));
    assert_eq!(BoundingBox::from_bdf("1 2 -3 +4").unwrap(), BoundingBox::new(1, 2, -3, 4));
    assert!(matches!(FontSize::from_bdf("1 2"), Err(Error::ParseError(_))));
    assert!(matches!(FontSize::from_bdf("1 2 3 4"), Err(Error::ParseError(_))));
    assert_eq!(FontSize::from_bdf("12 96 72").unwrap(), FontSize::new(12, 96, 72));
}

#[test]
fn integers_follow_rust_grammar() {
    assert!(matches!(XYPair::from_bdf("-1 2"), Err(Error::ParseError(_))));
    assert!(matches!(XYPair::from_bdf("4294967296 2"), Err(Error::ParseError(_))));
    assert_eq!(XYPair::from_bdf("4294967295 +0").unwrap(), XYPair::new(4294967295, 0));
    assert!(matches!(BoundingBox::from_bdf("1 1 2147483648 0"), Err(Error::ParseError(_))));
    assert_eq!(
        BoundingBox::from_bdf("1 1 -2147483648 0").unwrap(),
        BoundingBox::new(1, 1, -2147483648, 0)
    );
    assert!(matches!(XYPair::from_bdf("+ 2"), Err(Error::ParseError(_))));
}

#[test]
fn metrics_set_values() {
    assert_eq!(MetricsSet::from_bdf("0").unwrap(), MetricsSet::Normal);
    assert_eq!(MetricsSet::from_bdf("1").unwrap(), MetricsSet::Alternate);
    assert_eq!(MetricsSet::from_bdf("2").unwrap(), MetricsSet::Both);
    assert!(matches!(MetricsSet::from_bdf("3"), Err(Error::ParseError("N:integer(0, 1 or 2)"))));
    assert!(matches!(MetricsSet::from_bdf("x"), Err(Error::ParseError(_))));
    assert_eq!(MetricsSet::Both.to_bdf(), "2");
}

#[test]
fn value_rendering() {
    assert_eq!(XYPair::new(500, 0).to_bdf(), "500 0");
    assert_eq!(BoundingBox::new(6, 4, -1, -20).to_bdf(), "6 4 -1 -20");
    assert_eq!(FontSize::new(8, 75, 100).to_bdf(), "8 75 100");
    assert_eq!(PropertyValue::Int(-7).to_bdf(), "-7");
}

#[test]
fn quote_round_trip() {
    match PropertyValue::from_bdf("\"a\"\"b\"").unwrap() {
        PropertyValue::Str(s) => assert_eq!(s, "a\"b"),
        other => panic!("unexpected: {:?}", other),
    }
    let v = PropertyValue::Str(String::from("a\"b"));
    assert_eq!(v.to_bdf(), "\"a\"\"b\"");
    match PropertyValue::from_bdf(&v.to_bdf()).unwrap() {
        PropertyValue::Str(s) => assert_eq!(s, "a\"b"),
        other => panic!("unexpected: {:?}", other),
    }
    let font = parse_font(RICH).unwrap();
    let text = font.to_bdf().unwrap();
    assert!(text.contains("FOO \"a\"\"b\"\n"));
}

#[test]
fn property_value_grammar() {
    assert!(matches!(PropertyValue::from_bdf("\"open"), Err(Error::ParseError(_))));
    assert!(matches!(PropertyValue::from_bdf("word"), Err(Error::ParseError("s:\"string\"|i:integer"))));
    assert!(matches!(PropertyValue::from_bdf("42"), Ok(PropertyValue::Int(42))));
    match PropertyValue::from_bdf("\"\"").unwrap() {
        PropertyValue::Str(s) => assert_eq!(s, ""),
        other => panic!("unexpected: {:?}", other),
    }
}

#[test]
fn bitmap_row_decoding() {
    let row = BitmapRow::from_hex("FF").unwrap();
    assert_eq!(row.len(), 8);
    for i in 0..8 {
        assert_eq!(row.get(i), Some(true));
    }
    assert_eq!(row.get(8), None);
    assert!(matches!(BitmapRow::from_hex("F"), Err(Error::ParseError("bytestring"))));
    assert!(matches!(BitmapRow::from_hex("GG"), Err(Error::ParseError(_))));
    let row = BitmapRow::from_hex("a05f").unwrap();
    assert_eq!(row.to_bytes(), vec![0xA0, 0x5F]);
    assert_eq!(row.to_hex(), "A05F");
    assert_eq!(row.get(0), Some(true));
    assert_eq!(row.get(1), Some(false));
    assert_eq!(row.get(2), Some(true));
    assert_eq!(row.get(9), Some(true));
}

#[test]
fn round_trip_keeps_the_font() {
    let font = parse_font(RICH).unwrap();
    let text = font.to_bdf().unwrap();
    let again = parse_font(&text).unwrap();
    assert_eq!(again.to_bdf().unwrap(), text);
    assert_eq!(again.bdf_version, font.bdf_version);
    assert_eq!(again.name, font.name);
    assert_eq!(again.comments, font.comments);
    assert_eq!(again.content_version, Some(-3));
    assert_eq!(again.bounding_box, BoundingBox::new(6, 4, -1, -2));
    assert_eq!(again.metrics, MetricsSet::Both);
    assert_eq!(again.vector, Some(XYPair::new(3, 1)));
    assert_eq!(again.xlfd.foundry.as_deref(), Some("misc"));
    assert_eq!(again.xlfd.pixel_size, Some(8));
    assert_eq!(again.properties.len(), 2);
    assert_eq!(again.properties[0].name, "FOO");
    assert_eq!(again.glyphs.len(), 2);
    assert_eq!(again.glyphs[1].codepoint, '\u{25a1}');
    assert_eq!(again.glyphs[1].metrics, MetricsSet::Alternate);
    assert_eq!(again.glyphs[1].bounding_box, BoundingBox::new(6, 4, -1, -2));
    assert_eq!(again.glyphs[1].bitmap.get(0, 0), Some(true));
    assert_eq!(again.glyphs[1].bitmap.get(1, 1), Some(false));
    assert_eq!(again.glyphs[1].bitmap.get(4, 3), Some(true));
    assert_eq!(again.glyphs[1].bitmap.get(5, 3), Some(false));
    assert_eq!(again.glyphs[1].bitmap.get(6, 3), None);
    assert!(text.starts_with("STARTFONT 2.1\nFONT -misc-test"));
    assert!(text.contains("STARTPROPERTIES 4\nFOUNDRY \"misc\"\nPIXEL_SIZE 8\nFOO \"a\"\"b\"\nBAR -12\nENDPROPERTIES\n"));
    assert!(text.contains("STARTCHAR quad\nENCODING 9633\nBBX 6 4 -1 -2\nMETRICSSET 1\n"));
    assert!(text.contains("BITMAP\nF8\n88\n88\nF8\nENDCHAR\n"));
}

#[test]
fn alternate_metrics_need_alternate_widths() {
    let font_level = "STARTFONT 2.2\nFONT t\nSIZE 1 1 1\nFONTBOUNDINGBOX 1 1 0 0\nMETRICSSET 1\nSWIDTH1 1 1\nENDFONT\n";
    match parse_font(font_level) {
        Err((7, Error::FontValidation(r))) => {
            assert_eq!(r, "font with alternate metrics must have alternate widths")
        }
        other => panic!("unexpected: {:?}", other),
    }
    let normal_with_alt = "STARTFONT 2.2\nFONT t\nSIZE 1 1 1\nFONTBOUNDINGBOX 1 1 0 0\nDWIDTH1 1 1\nENDFONT\n";
    assert!(matches!(parse_font(normal_with_alt), Err((6, Error::FontValidation(_)))));
    let glyph_level = "STARTFONT 2.2\nFONT t\nSIZE 1 1 1\nFONTBOUNDINGBOX 1 1 0 0\nCHARS 1\nSTARTCHAR a\nENCODING 97\nBBX 1 1 0 0\nSWIDTH1 1 1\nENDCHAR\nENDFONT\n";
    match parse_font(glyph_level) {
        Err((10, Error::GlyphValidation(c, r))) => {
            assert_eq!(c, 'a');
            assert_eq!(r, "glyph with normal metrics cannot have alternate widths");
        }
        other => panic!("unexpected: {:?}", other),
    }
}

#[test]
fn validation_of_built_fonts() {
    let mut font = Font::new("built", FontSize::new(8, 75, 75), BoundingBox::new(1, 1, 0, 0));
    assert_eq!(font.bdf_version, "2.2");
    assert!(font.validate().is_ok());
    font.metrics = MetricsSet::Alternate;
    assert!(matches!(font.to_bdf(), Err(Error::FontValidation(_))));
    font.scalable_width_alt = Some(XYPair::new(1, 1));
    font.device_width_alt = Some(XYPair::new(1, 1));
    assert!(font.validate().is_ok());
    let mut glyph = Glyph::new("g", 'g', BoundingBox::new(1, 1, 0, 0), Bitmap::new(1, 1));
    glyph.device_width_alt = Some(XYPair::new(0, 1));
    assert!(matches!(glyph.validate(), Err(Error::GlyphValidation('g', _))));
    font.glyphs.push(glyph);
    assert!(matches!(font.validate(), Err(Error::GlyphValidation('g', _))));
    font.glyphs[0].device_width_alt = None;
    let text = font.to_bdf().unwrap();
    assert_eq!(
        text,
        "STARTFONT 2.2\nFONT built\nSIZE 8 75 75\nFONTBOUNDINGBOX 1 1 0 0\nMETRICSSET 1\nSWIDTH1 1 1\nDWIDTH1 1 1\nCHARS 1\nSTARTCHAR g\nENCODING 103\nBBX 1 1 0 0\nBITMAP\n00\nENDCHAR\nENDFONT\n"
    );
}

#[test]
fn error_variants() {
    let head = "STARTFONT 2.2\nFONT t\nSIZE 1 1 1\n";
    assert!(matches!(parse_font("STARTFONT\n"), Err((1, Error::MissingValue(ref k))) if k == "STARTFONT"));
    assert!(matches!(parse_font("FONT x\n"), Err((1, Error::UnexpectedEntry(ref k))) if k == "FONT"));
    let no_bbox = format!("{}CHARS 1\nSTARTCHAR a\nENCODING 97\nBITMAP\n", head);
    assert!(matches!(parse_font(&no_bbox), Err((7, Error::MissingBoundingBox))));
    let bad_cp = format!("{}CHARS 1\nSTARTCHAR a\nENCODING 55296\n", head);
    assert!(matches!(parse_font(&bad_cp), Err((6, Error::InvalidCodepoint(55296)))));
    let special = format!("{}CHARS 1\nSTARTCHAR a\nENCODING -1 7\n", head);
    assert!(matches!(parse_font(&special), Err((6, Error::SpecialEncoding))));
    let two_ints = format!("{}CHARS 1\nSTARTCHAR a\nENCODING 5 7\n", head);
    assert!(matches!(parse_font(&two_ints), Err((6, Error::ParseError("-1 integer")))));
    assert!(matches!(parse_font("STARTFONT 2.2\nSIZE 1 x 1\n"), Err((2, Error::ParseError("PT:number X:number Y:number")))));
    let no_cp = format!("{}FONTBOUNDINGBOX 1 1 0 0\nCHARS 1\nSTARTCHAR a\nENDCHAR\n", head);
    assert!(matches!(parse_font(&no_cp), Err((7, Error::GlyphValidation('\0', "codepoint not found")))));
    assert!(matches!(parse_font(""), Err((0, Error::FontValidation("bdf version not found")))));
}

#[test]
fn structure_rules() {
    let late_end = "STARTFONT 2.2\nFONT t\nSIZE 1 1 1\nFONTBOUNDINGBOX 1 1 0 0\nENDFONT\nCOMMENT after\n";
    assert!(matches!(parse_font(late_end), Err((5, Error::UnexpectedEntry(_)))));
    let blank_lines = "\n\nSTARTFONT 2.2\n  \nFONT t\nSIZE 1 1 1\n\n BOGUS 1\n";
    assert!(matches!(parse_font(blank_lines), Err((4, Error::UnexpectedEntry(ref k))) if k == "BOGUS"));
    let end_props = "STARTFONT 2.2\nENDPROPERTIES\n";
    assert!(matches!(parse_font(end_props), Err((2, Error::UnexpectedEntry(_)))));
    let wrong_type = "STARTFONT 2.2\nSTARTPROPERTIES 1\nFOUNDRY 5\n";
    assert!(matches!(parse_font(wrong_type), Err((3, Error::ParseError("\"string\"")))));
    let wrong_int = "STARTFONT 2.2\nSTARTPROPERTIES 1\nPIXEL_SIZE \"5\"\n";
    assert!(matches!(parse_font(wrong_int), Err((3, Error::ParseError("integer")))));
    let row_with_space = "STARTFONT 2.2\nFONT t\nSIZE 1 1 1\nFONTBOUNDINGBOX 8 1 0 0\nCHARS 1\nSTARTCHAR a\nENCODING 97\nBITMAP\nFF 00\n";
    assert!(matches!(parse_font(row_with_space), Err((9, Error::ParseError("bytestring")))));
}

#[test]
fn comments_anywhere_and_trailing_input() {
    let input = "COMMENT before\r\nSTARTFONT 2.2\r\nFONT t\r\nSIZE 1 1 1\r\nFONTBOUNDINGBOX 1 1 0 0\r\nCOMMENT  spaced  out \r\n";
    let font = parse_font(input).unwrap();
    assert_eq!(font.comments, vec![String::from("before"), String::from("spaced  out")]);
}

#[test]
fn parser_entry_point() {
    let _ = Parser::new();
    let font = Parser::parse(MINIMAL).unwrap();
    assert_eq!(font.name, "test");
}

#[test]
fn bitmap_get_and_set() {
    let mut b = Bitmap::new(3, 2);
    assert_eq!(b.get(2, 1), Some(false));
    b.set(2, 1, true);
    assert_eq!(b.get(2, 1), Some(true));
    b.set(3, 1, true);
    assert_eq!(b.get(3, 1), None);
    b.set(2, 1, false);
    assert_eq!(b.get(2, 1), Some(false));
    assert_eq!(b.rows().len(), 2);
}

#[test]
fn property_and_xlfd_builders() {
    let p = Property::new("COPYRIGHT", &PropertyValue::Str(String::from("x")));
    assert_eq!(p.name, "COPYRIGHT");
    let x = Xlfd::empty();
    assert_eq!(x.count(), 0);
    assert!(x.foundry.is_none());
}

#[test]
fn xlfd_name_and_records() {
    let mut x = Xlfd::empty();
    assert_eq!(x.to_name(), "--------------");
    x.foundry = Some(String::from("misc"));
    x.family_name = Some(String::from("fixed"));
    x.pixel_size = Some(13);
    x.average_width = Some(-60);
    x.charset_encoding = Some(String::from("1"));
    assert_eq!(x.to_name(), "-misc-fixed-----13------60--1");
    assert_eq!(x.count(), 5);
    let mut font = Font::new("f", FontSize::new(1, 1, 1), BoundingBox::new(1, 1, 0, 0));
    font.xlfd = x;
    let text = font.to_bdf().unwrap();
    assert!(text.contains(
        "STARTPROPERTIES 5\nFOUNDRY \"misc\"\nFAMILY_NAME \"fixed\"\nPIXEL_SIZE 13\nAVERAGE_WIDTH -60\nCHARSET_ENCODING \"1\"\nENDPROPERTIES\n"
    ));
    let again = parse_font(&text).unwrap();
    assert_eq!(again.xlfd.to_name(), "-misc-fixed-----13------60--1");
    assert_eq!(again.properties.len(), 0);
}

#[test]
fn bitmap_rows_render_padded() {
    let input = "STARTFONT 2.2\nFONT t\nSIZE 1 1 1\nFONTBOUNDINGBOX 12 2 0 0\nCHARS 1\nSTARTCHAR w\nENCODING 119\nBBX 12 2 0 0\nBITMAP\nfff0\n8010\nENDCHAR\nENDFONT\n";
    let font = parse_font(input).unwrap();
    let g = &font.glyphs[0];
    assert_eq!(g.bitmap.width(), 12);
    assert_eq!(g.bitmap.get(11, 0), Some(true));
    assert_eq!(g.bitmap.get(11, 1), Some(true));
    assert_eq!(g.bitmap.get(10, 1), Some(false));
    assert_eq!(g.bitmap.get(12, 0), None);
    let text = font.to_bdf().unwrap();
    assert!(text.contains("BITMAP\nFFF0\n8010\nENDCHAR\n"));
}

#[test]
fn truncated_bitmap_is_refused() {
    let input = "STARTFONT 2.2\nFONT t\nSIZE 1 1 1\nFONTBOUNDINGBOX 8 3 0 0\nCHARS 1\nSTARTCHAR a\nENCODING 97\nBBX 8 3 0 0\nBITMAP\nFF\n";
    assert!(matches!(
        parse_font(input),
        Err((10, Error::GlyphValidation('a', "bitmap rows missing")))
    ));
}

#[test]
fn zero_height_bitmap_block() {
    let input = "STARTFONT 2.2\nFONT t\nSIZE 1 1 1\nFONTBOUNDINGBOX 8 3 0 0\nCHARS 1\nSTARTCHAR a\nENCODING 97\nBBX 0 0 0 0\nBITMAP\nENDCHAR\nENDFONT\n";
    let font = parse_font(input).unwrap();
    assert_eq!(font.glyphs[0].bitmap.height(), 0);
    assert_eq!(font.glyphs[0].bitmap.rows().len(), 0);
}

#[test]
fn lone_minus_one_encoding_is_special() {
    let lone = "STARTFONT 2.2\nFONT test\nSIZE 10 75 75\nFONTBOUNDINGBOX 8 8 0 0\nCHARS 1\nSTARTCHAR A\nENCODING -1\nENDCHAR\nENDFONT\n";
    assert!(matches!(parse_font(lone), Err((7, Error::SpecialEncoding))));
    let pair = "STARTFONT 2.2\nFONT test\nSIZE 10 75 75\nFONTBOUNDINGBOX 8 8 0 0\nCHARS 1\nSTARTCHAR A\nENCODING -1 65\nENDCHAR\nENDFONT\n";
    assert!(matches!(parse_font(pair), Err((7, Error::SpecialEncoding))));
    let negative = "STARTFONT 2.2\nFONT test\nSIZE 10 75 75\nFONTBOUNDINGBOX 8 8 0 0\nCHARS 1\nSTARTCHAR A\nENCODING -2\n";
    assert!(matches!(parse_font(negative), Err((7, Error::ParseError("integer")))));
}

#[test]
fn short_bitmap_row_is_refused() {
    let input = "STARTFONT 2.2\nFONT t\nSIZE 1 1 1\nFONTBOUNDINGBOX 16 1 0 0\nCHARS 1\nSTARTCHAR a\nENCODING 97\nBBX 16 1 0 0\nBITMAP\nFF\nENDCHAR\nENDFONT\n";
    assert!(matches!(
        parse_font(input),
        Err((11, Error::GlyphValidation('a', "bitmap row shorter than its width")))
    ));
}

#[test]
fn bitmap_must_match_bounding_box() {
    let no_bitmap = "STARTFONT 2.2\nFONT t\nSIZE 1 1 1\nFONTBOUNDINGBOX 8 1 0 0\nCHARS 1\nSTARTCHAR a\nENCODING 97\nBBX 8 1 0 0\nENDCHAR\nENDFONT\n";
    assert!(matches!(
        parse_font(no_bitmap),
        Err((9, Error::GlyphValidation('a', "bitmap size differs from bounding box")))
    ));
    let late_bbx = "STARTFONT 2.2\nFONT t\nSIZE 1 1 1\nFONTBOUNDINGBOX 8 1 0 0\nCHARS 1\nSTARTCHAR a\nENCODING 97\nBITMAP\nFF\nBBX 8 2 0 0\nENDCHAR\nENDFONT\n";
    assert!(matches!(
        parse_font(late_bbx),
        Err((11, Error::GlyphValidation('a', "bitmap size differs from bounding box")))
    ));
}

#[test]
fn set_reaches_every_pixel_of_a_parsed_bitmap() {
    let input = "STARTFONT 2.2\nFONT t\nSIZE 1 1 1\nFONTBOUNDINGBOX 12 1 0 0\nCHARS 1\nSTARTCHAR a\nENCODING 97\nBBX 12 1 0 0\nBITMAP\n0000\nENDCHAR\nENDFONT\n";
    let mut font = parse_font(input).unwrap();
    let b = &mut font.glyphs[0].bitmap;
    for x in 0..12 {
        b.set(x, 0, true);
        assert_eq!(b.get(x, 0), Some(true));
    }
    assert_eq!(b.get(12, 0), None);
}

#[test]
fn xlfd_only_font_round_trips() {
    let mut font = Font::new("f", FontSize::new(1, 1, 1), BoundingBox::new(1, 1, 0, 0));
    font.xlfd.foundry = Some(String::from("Misc"));
    let text = font.to_bdf().unwrap();
    assert!(text.contains("STARTPROPERTIES 1\nFOUNDRY \"Misc\"\nENDPROPERTIES\n"));
    let again = parse_font(&text).unwrap();
    assert_eq!(again.xlfd.foundry.as_deref(), Some("Misc"));
    assert_eq!(again.to_bdf().unwrap(), text);
}
