//! The line-oriented parser: a state machine over BDF's nested blocks that
//! fills drafts, and the conversion of the drafts into a validated [`Font`].
use vstd::prelude::*;

use crate::bitmap::{row_of, BitmapRow};
use crate::error::{Error, ErrorModel};
use crate::ids;
use crate::model::{
    alt_widths_ok, empty_xlfd, rows_cover, Bitmap, BitmapModel, Font, FontModel, Glyph, GlyphModel, Property,
    PropertyModel, Xlfd, XlfdModel, ALTERNATE_FONT, ALTERNATE_GLYPH, NORMAL_FONT, NORMAL_GLYPH,
};
use crate::text::{
    all_ws, chars_of, copy_range, eq_str, find_ws, first_ws, i32_of, int_of, is_blank,
    is_minus_one, parse_i32, parse_u32, parse_usize, string_of, trim, trimmed, u32_of,
    usize_of,
};
use crate::values::{
    bbox_of, metrics_of, prop_value_of, size_of, xy_of, BoundingBox, FontSize, MetricsSet,
    PropValue, PropertyValue, XYPair, PROPERTY_SHAPE, ROW_SHAPE,
};

verus! {

pub const INTEGER_SHAPE: &'static str = "integer";

pub const STRING_SHAPE: &'static str = "\"string\"";

pub const ENCODING_SHAPE: &'static str = "-1 integer";

pub const NO_CODEPOINT: &'static str = "codepoint not found";

pub const NO_NAME: &'static str = "name not found";

pub const NO_BOUNDING_BOX: &'static str = "bounding box not found";

pub const NO_VERSION: &'static str = "bdf version not found";

pub const NO_SIZE: &'static str = "size not found";

pub const MISSING_ROWS: &'static str = "bitmap rows missing";

pub const BITMAP_SIZE: &'static str = "bitmap size differs from bounding box";

pub const SHORT_ROW: &'static str = "bitmap row shorter than its width";

/// Where the parser stands in the nesting of blocks.
#[derive(Copy, Clone, Debug, PartialEq, Eq, Structural)]
pub enum ParseState {
    Empty,
    InFont,
    InProperties,
    InChars,
    InChar,
    InBitmap,
}

/// A glyph being read: every field optional until the glyph is validated.
pub ghost struct GlyphDraft {
    pub name: Option<Seq<char>>,
    pub codepoint: Option<char>,
    pub bounding_box: Option<BoundingBox>,
    pub width: nat,
    pub height: nat,
    pub rows: Seq<Seq<bool>>,
    pub metrics: Option<MetricsSet>,
    pub scalable_width: Option<XYPair>,
    pub device_width: Option<XYPair>,
    pub scalable_width_alt: Option<XYPair>,
    pub device_width_alt: Option<XYPair>,
    pub vector: Option<XYPair>,
}

/// A font being read.
pub ghost struct FontDraft {
    pub bdf_version: Option<Seq<char>>,
    pub name: Option<Seq<char>>,
    pub size: Option<FontSize>,
    pub bounding_box: Option<BoundingBox>,
    pub metrics: Option<MetricsSet>,
    pub comments: Seq<Seq<char>>,
    pub properties: Seq<PropertyModel>,
    pub glyphs: Seq<GlyphDraft>,
    pub content_version: Option<i32>,
    pub scalable_width: Option<XYPair>,
    pub device_width: Option<XYPair>,
    pub scalable_width_alt: Option<XYPair>,
    pub device_width_alt: Option<XYPair>,
    pub vector: Option<XYPair>,
    pub xlfd: XlfdModel,
}

/// The whole state of the parser.
pub ghost struct ParseModel {
    pub state: ParseState,
    pub font: FontDraft,
    /// Rows still owed by the current `BITMAP` block.
    pub rows_left: nat,
}

/// The draft that `STARTCHAR` opens.
pub open spec fn new_glyph(name: Seq<char>) -> GlyphDraft {
    GlyphDraft {
        name: Some(name),
        codepoint: None,
        bounding_box: None,
        width: 0,
        height: 0,
        rows: Seq::empty(),
        metrics: None,
        scalable_width: None,
        device_width: None,
        scalable_width_alt: None,
        device_width_alt: None,
        vector: None,
    }
}

/// The empty font draft.
pub open spec fn new_font() -> FontDraft {
    FontDraft {
        bdf_version: None,
        name: None,
        size: None,
        bounding_box: None,
        metrics: None,
        comments: Seq::empty(),
        properties: Seq::empty(),
        glyphs: Seq::empty(),
        content_version: None,
        scalable_width: None,
        device_width: None,
        scalable_width_alt: None,
        device_width_alt: None,
        vector: None,
        xlfd: empty_xlfd(),
    }
}

/// The parser before its first line.
pub open spec fn initial() -> ParseModel {
    ParseModel { state: ParseState::Empty, font: new_font(), rows_left: 0 }
}

/// Inside a glyph there is a current glyph.
pub open spec fn parse_wf(m: ParseModel) -> bool {
    (m.state == ParseState::InChar || m.state == ParseState::InBitmap) ==> m.font.glyphs.len() > 0
}

/// A trimmed line split at its first whitespace into the keyword and the
/// trimmed rest, if any.
pub open spec fn split_record(line: Seq<char>) -> (Seq<char>, Option<Seq<char>>) {
    match first_ws(line) {
        Some(n) => (line.subrange(0, n), Some(trim(line.subrange(n, line.len() as int)))),
        None => (line, None),
    }
}

/// The glyph being read: the last one.
pub open spec fn last_glyph(f: FontDraft) -> GlyphDraft {
    f.glyphs.last()
}

/// The draft with the glyph being read replaced.
pub open spec fn with_last_glyph(f: FontDraft, g: GlyphDraft) -> FontDraft {
    FontDraft { glyphs: f.glyphs.update(f.glyphs.len() - 1, g), ..f }
}

/// Whether `u` is a Unicode scalar value.
pub open spec fn is_scalar(u: u32) -> bool {
    u < 0xD800 || (0xE000 <= u && u <= 0x10FFFF)
}

/// A record in a font's header.
pub open spec fn font_record(f: FontDraft, id: Seq<char>, r: Seq<char>) -> Result<
    (FontDraft, ParseState),
    ErrorModel,
> {
    let bad = ErrorModel::UnexpectedEntry(id);
    let here = ParseState::InFont;
    if id == ids::FONT@ {
        Ok((FontDraft { name: Some(r), ..f }, here))
    } else if id == ids::CONTENTVERSION@ {
        match i32_of(r) {
            Some(v) => Ok((FontDraft { content_version: Some(v), ..f }, here)),
            None => Err(ErrorModel::ParseError(INTEGER_SHAPE@)),
        }
    } else if id == ids::SIZE@ {
        match size_of(r) {
            Some(v) => Ok((FontDraft { size: Some(v), ..f }, here)),
            None => Err(ErrorModel::ParseError(crate::values::SIZE_SHAPE@)),
        }
    } else if id == ids::FONTBOUNDINGBOX@ {
        match bbox_of(r) {
            Some(v) => Ok((FontDraft { bounding_box: Some(v), ..f }, here)),
            None => Err(ErrorModel::ParseError(crate::values::BBOX_SHAPE@)),
        }
    } else if id == ids::METRICSSET@ {
        match metrics_of(r) {
            Some(v) => Ok((FontDraft { metrics: Some(v), ..f }, here)),
            None => Err(ErrorModel::ParseError(crate::values::METRICS_SHAPE@)),
        }
    } else if id == ids::SWIDTH@ || id == ids::DWIDTH@ || id == ids::SWIDTH1@ || id
        == ids::DWIDTH1@ || id == ids::VVECTOR@ {
        match xy_of(r) {
            Some(v) => Ok(
                (
                    if id == ids::SWIDTH@ {
                        FontDraft { scalable_width: Some(v), ..f }
                    } else if id == ids::DWIDTH@ {
                        FontDraft { device_width: Some(v), ..f }
                    } else if id == ids::SWIDTH1@ {
                        FontDraft { scalable_width_alt: Some(v), ..f }
                    } else if id == ids::DWIDTH1@ {
                        FontDraft { device_width_alt: Some(v), ..f }
                    } else {
                        FontDraft { vector: Some(v), ..f }
                    },
                    here,
                ),
            ),
            None => Err(ErrorModel::ParseError(crate::values::XY_SHAPE@)),
        }
    } else if id == ids::STARTPROPERTIES@ {
        match usize_of(r) {
            Some(_) => Ok((f, ParseState::InProperties)),
            None => Err(ErrorModel::ParseError(INTEGER_SHAPE@)),
        }
    } else if id == ids::CHARS@ {
        match usize_of(r) {
            Some(_) => Ok((f, ParseState::InChars)),
            None => Err(ErrorModel::ParseError(INTEGER_SHAPE@)),
        }
    } else {
        Err(bad)
    }
}

/// The XLFD fields that take a string, set from a property, if `id` names one.
pub open spec fn xlfd_with_str(x: XlfdModel, id: Seq<char>, s: Seq<char>) -> Option<XlfdModel> {
    if id == ids::FOUNDRY@ {
        Some(XlfdModel { foundry: Some(s), ..x })
    } else if id == ids::FAMILY_NAME@ {
        Some(XlfdModel { family_name: Some(s), ..x })
    } else if id == ids::WEIGHT_NAME@ {
        Some(XlfdModel { weight_name: Some(s), ..x })
    } else if id == ids::SLANT@ {
        Some(XlfdModel { slant: Some(s), ..x })
    } else if id == ids::SETWIDTH_NAME@ {
        Some(XlfdModel { setwidth_name: Some(s), ..x })
    } else if id == ids::ADD_STYLE_NAME@ {
        Some(XlfdModel { add_style_name: Some(s), ..x })
    } else if id == ids::SPACING@ {
        Some(XlfdModel { spacing: Some(s), ..x })
    } else if id == ids::CHARSET_REGISTRY@ {
        Some(XlfdModel { charset_registry: Some(s), ..x })
    } else if id == ids::CHARSET_ENCODING@ {
        Some(XlfdModel { charset_encoding: Some(s), ..x })
    } else {
        None
    }
}

/// The XLFD fields that take an integer, set from a property, if `id` names one.
pub open spec fn xlfd_with_int(x: XlfdModel, id: Seq<char>, i: i32) -> Option<XlfdModel> {
    if id == ids::PIXEL_SIZE@ {
        Some(XlfdModel { pixel_size: Some(i), ..x })
    } else if id == ids::POINT_SIZE@ {
        Some(XlfdModel { point_size: Some(i), ..x })
    } else if id == ids::RESOLUTION_X@ {
        Some(XlfdModel { resolution_x: Some(i), ..x })
    } else if id == ids::RESOLUTION_Y@ {
        Some(XlfdModel { resolution_y: Some(i), ..x })
    } else if id == ids::AVERAGE_WIDTH@ {
        Some(XlfdModel { average_width: Some(i), ..x })
    } else {
        None
    }
}

/// A record in a property block: an XLFD field of the right type, or else
/// a free-form property.
pub open spec fn property_record(f: FontDraft, id: Seq<char>, r: Seq<char>) -> Result<
    FontDraft,
    ErrorModel,
> {
    match prop_value_of(r) {
        None => Err(ErrorModel::ParseError(PROPERTY_SHAPE@)),
        Some(PropValue::Str(s)) => match xlfd_with_str(f.xlfd, id, s) {
            Some(x) => Ok(FontDraft { xlfd: x, ..f }),
            None => if xlfd_with_int(f.xlfd, id, 0) is Some {
                Err(ErrorModel::ParseError(INTEGER_SHAPE@))
            } else {
                Ok(
                    FontDraft {
                        properties: f.properties.push(
                            PropertyModel { name: id, value: PropValue::Str(s) },
                        ),
                        ..f
                    },
                )
            },
        },
        Some(PropValue::Int(i)) => match xlfd_with_int(f.xlfd, id, i) {
            Some(x) => Ok(FontDraft { xlfd: x, ..f }),
            None => if xlfd_with_str(f.xlfd, id, Seq::empty()) is Some {
                Err(ErrorModel::ParseError(STRING_SHAPE@))
            } else {
                Ok(
                    FontDraft {
                        properties: f.properties.push(
                            PropertyModel { name: id, value: PropValue::Int(i) },
                        ),
                        ..f
                    },
                )
            },
        },
    }
}

/// The codepoint of an `ENCODING` argument.
pub open spec fn encoding_of(r: Seq<char>) -> Result<u32, ErrorModel> {
    match first_ws(r) {
        Some(n) => if int_of(r.subrange(0, n), true) == Some(-1int) {
            Err(ErrorModel::SpecialEncoding)
        } else {
            Err(ErrorModel::ParseError(ENCODING_SHAPE@))
        },
        None => if int_of(r, true) == Some(-1int) {
            Err(ErrorModel::SpecialEncoding)
        } else {
            match u32_of(r) {
                Some(u) => if is_scalar(u) {
                    Ok(u)
                } else {
                    Err(ErrorModel::InvalidCodepoint(u))
                },
                None => Err(ErrorModel::ParseError(INTEGER_SHAPE@)),
            }
        },
    }
}

/// A record inside a glyph, changing the current glyph.
pub open spec fn glyph_record(g: GlyphDraft, id: Seq<char>, r: Seq<char>) -> Result<
    GlyphDraft,
    ErrorModel,
> {
    if id == ids::ENCODING@ {
        match encoding_of(r) {
            Ok(u) => Ok(GlyphDraft { codepoint: Some(u as char), ..g }),
            Err(e) => Err(e),
        }
    } else if id == ids::METRICSSET@ {
        match metrics_of(r) {
            Some(v) => Ok(GlyphDraft { metrics: Some(v), ..g }),
            None => Err(ErrorModel::ParseError(crate::values::METRICS_SHAPE@)),
        }
    } else if id == ids::SWIDTH@ || id == ids::DWIDTH@ || id == ids::SWIDTH1@ || id
        == ids::DWIDTH1@ || id == ids::VVECTOR@ {
        match xy_of(r) {
            Some(v) => Ok(
                if id == ids::SWIDTH@ {
                    GlyphDraft { scalable_width: Some(v), ..g }
                } else if id == ids::DWIDTH@ {
                    GlyphDraft { device_width: Some(v), ..g }
                } else if id == ids::SWIDTH1@ {
                    GlyphDraft { scalable_width_alt: Some(v), ..g }
                } else if id == ids::DWIDTH1@ {
                    GlyphDraft { device_width_alt: Some(v), ..g }
                } else {
                    GlyphDraft { vector: Some(v), ..g }
                },
            ),
            None => Err(ErrorModel::ParseError(crate::values::XY_SHAPE@)),
        }
    } else if id == ids::BBX@ {
        match bbox_of(r) {
            Some(v) => Ok(GlyphDraft { bounding_box: Some(v), ..g }),
            None => Err(ErrorModel::ParseError(crate::values::BBOX_SHAPE@)),
        }
    } else {
        Err(ErrorModel::UnexpectedEntry(id))
    }
}

/// The error that validating a glyph draft gives, if any.
pub open spec fn glyph_draft_error(g: GlyphDraft) -> Option<ErrorModel> {
    match g.codepoint {
        None => Some(ErrorModel::GlyphValidation('\0', NO_CODEPOINT@)),
        Some(c) => if g.name is None {
            Some(ErrorModel::GlyphValidation(c, NO_NAME@))
        } else if g.bounding_box is None {
            Some(ErrorModel::GlyphValidation(c, NO_BOUNDING_BOX@))
        } else if !alt_widths_ok(
            g.metrics.unwrap_or(MetricsSet::Normal),
            g.scalable_width_alt,
            g.device_width_alt,
        ) {
            if g.metrics.unwrap_or(MetricsSet::Normal) == MetricsSet::Normal {
                Some(ErrorModel::GlyphValidation(c, NORMAL_GLYPH@))
            } else {
                Some(ErrorModel::GlyphValidation(c, ALTERNATE_GLYPH@))
            }
        } else if g.width != g.bounding_box->0.width || g.height != g.bounding_box->0.height {
            Some(ErrorModel::GlyphValidation(c, BITMAP_SIZE@))
        } else if g.rows.len() != g.height {
            Some(ErrorModel::GlyphValidation(c, MISSING_ROWS@))
        } else if !rows_cover(g.rows, g.width) {
            Some(ErrorModel::GlyphValidation(c, SHORT_ROW@))
        } else {
            None
        },
    }
}

/// A `BITMAP` record: the block takes its size from the glyph's bounding
/// box, else from the font's.
pub open spec fn bitmap_start(m: ParseModel) -> Result<ParseModel, ErrorModel> {
    let f = m.font;
    let g = last_glyph(f);
    let bb = if g.bounding_box is Some {
        g.bounding_box
    } else {
        f.bounding_box
    };
    match bb {
        None => Err(ErrorModel::MissingBoundingBox),
        Some(b) => Ok(
            ParseModel {
                state: ParseState::InBitmap,
                font: with_last_glyph(
                    f,
                    GlyphDraft {
                        width: b.width as nat,
                        height: b.height as nat,
                        rows: Seq::empty(),
                        ..g
                    },
                ),
                rows_left: b.height as nat,
            },
        ),
    }
}

/// What a line does after the rows of a bitmap block: the closing and
/// structural keywords first, then the records of the current block.
pub open spec fn record_step(m: ParseModel, id: Seq<char>, rest: Option<Seq<char>>) -> Result<
    ParseModel,
    ErrorModel,
> {
    let f = m.font;
    let st = m.state;
    let bad = ErrorModel::UnexpectedEntry(id);
    if id == ids::COMMENT@ && rest is Some {
        Ok(ParseModel { font: FontDraft { comments: f.comments.push(rest->0), ..f }, ..m })
    } else if id == ids::ENDPROPERTIES@ {
        if st == ParseState::InProperties {
            Ok(ParseModel { state: ParseState::InFont, ..m })
        } else {
            Err(bad)
        }
    } else if id == ids::ENDCHAR@ {
        if st == ParseState::InChar {
            match glyph_draft_error(last_glyph(f)) {
                Some(e) => Err(e),
                None => Ok(ParseModel { state: ParseState::InChars, ..m }),
            }
        } else {
            Err(bad)
        }
    } else if id == ids::BITMAP@ && st == ParseState::InChar {
        bitmap_start(m)
    } else if rest is None {
        Err(ErrorModel::MissingValue(id))
    } else {
        let r = rest->0;
        if st == ParseState::Empty {
            if id == ids::STARTFONT@ {
                Ok(
                    ParseModel {
                        state: ParseState::InFont,
                        font: FontDraft { bdf_version: Some(r), ..f },
                        ..m
                    },
                )
            } else {
                Err(bad)
            }
        } else if st == ParseState::InFont {
            match font_record(f, id, r) {
                Ok((f2, s2)) => Ok(ParseModel { state: s2, font: f2, ..m }),
                Err(e) => Err(e),
            }
        } else if st == ParseState::InProperties {
            match property_record(f, id, r) {
                Ok(f2) => Ok(ParseModel { font: f2, ..m }),
                Err(e) => Err(e),
            }
        } else if st == ParseState::InChars {
            if id == ids::STARTCHAR@ {
                Ok(
                    ParseModel {
                        state: ParseState::InChar,
                        font: FontDraft { glyphs: f.glyphs.push(new_glyph(r)), ..f },
                        ..m
                    },
                )
            } else {
                Err(bad)
            }
        } else {
            match glyph_record(last_glyph(f), id, r) {
                Ok(g) => Ok(ParseModel { font: with_last_glyph(f, g), ..m }),
                Err(e) => Err(e),
            }
        }
    }
}

/// What one non-blank, trimmed line does; `ln` is its number and `last`
/// the number of the last non-blank line.
#[verifier::opaque]
pub open spec fn step(m: ParseModel, line: Seq<char>, ln: nat, last: nat) -> Result<
    ParseModel,
    ErrorModel,
> {
    let (id, rest) = split_record(line);
    if m.state == ParseState::InBitmap && m.rows_left > 0 {
        if rest is Some {
            Err(ErrorModel::ParseError(ROW_SHAPE@))
        } else if id == ids::ENDCHAR@ {
            Err(ErrorModel::UnexpectedEntry(id))
        } else {
            match row_of(id) {
                None => Err(ErrorModel::ParseError(ROW_SHAPE@)),
                Some(bits) => {
                    let g = last_glyph(m.font);
                    Ok(
                        ParseModel {
                            font: with_last_glyph(m.font, GlyphDraft { rows: g.rows.push(bits), ..g }),
                            rows_left: (m.rows_left - 1) as nat,
                            ..m
                        },
                    )
                },
            }
        }
    } else {
        let m1 = if m.state == ParseState::InBitmap {
            ParseModel { state: ParseState::InChar, ..m }
        } else {
            m
        };
        if id == ids::ENDFONT@ {
            if (m1.state == ParseState::InChars || m1.state == ParseState::InFont) && ln == last {
                Ok(m1)
            } else {
                Err(ErrorModel::UnexpectedEntry(id))
            }
        } else {
            record_step(m1, id, rest)
        }
    }
}

/// The glyph that a valid draft becomes.
pub open spec fn finish_glyph(g: GlyphDraft) -> GlyphModel {
    GlyphModel {
        name: g.name->0,
        codepoint: g.codepoint->0,
        bounding_box: g.bounding_box->0,
        bitmap: BitmapModel { width: g.width, height: g.height, rows: g.rows },
        metrics: g.metrics.unwrap_or(MetricsSet::Normal),
        scalable_width: g.scalable_width,
        device_width: g.device_width,
        scalable_width_alt: g.scalable_width_alt,
        device_width_alt: g.device_width_alt,
        vector: g.vector,
    }
}

/// The error of the first glyph draft that fails validation.
pub open spec fn first_draft_error(gs: Seq<GlyphDraft>) -> Option<ErrorModel>
    decreases gs.len(),
{
    if gs.len() == 0 {
        None
    } else {
        match glyph_draft_error(gs[0]) {
            Some(e) => Some(e),
            None => first_draft_error(gs.drop_first()),
        }
    }
}

/// The error that validating a font draft gives, if any: its required
/// fields, its widths, then its glyphs in order.
pub open spec fn font_draft_error(f: FontDraft) -> Option<ErrorModel> {
    if f.bdf_version is None {
        Some(ErrorModel::FontValidation(NO_VERSION@))
    } else if f.name is None {
        Some(ErrorModel::FontValidation(NO_NAME@))
    } else if f.size is None {
        Some(ErrorModel::FontValidation(NO_SIZE@))
    } else if f.bounding_box is None {
        Some(ErrorModel::FontValidation(NO_BOUNDING_BOX@))
    } else if !alt_widths_ok(
        f.metrics.unwrap_or(MetricsSet::Normal),
        f.scalable_width_alt,
        f.device_width_alt,
    ) {
        if f.metrics.unwrap_or(MetricsSet::Normal) == MetricsSet::Normal {
            Some(ErrorModel::FontValidation(NORMAL_FONT@))
        } else {
            Some(ErrorModel::FontValidation(ALTERNATE_FONT@))
        }
    } else {
        first_draft_error(f.glyphs)
    }
}

/// The font that a draft becomes, or the first validation error.
pub open spec fn finish(f: FontDraft) -> Result<FontModel, ErrorModel> {
    match font_draft_error(f) {
        Some(e) => Err(e),
        None => Ok(
            FontModel {
                bdf_version: f.bdf_version->0,
                name: f.name->0,
                size: f.size->0,
                bounding_box: f.bounding_box->0,
                metrics: f.metrics.unwrap_or(MetricsSet::Normal),
                comments: f.comments,
                properties: f.properties,
                glyphs: f.glyphs.map_values(|g: GlyphDraft| finish_glyph(g)),
                content_version: f.content_version,
                scalable_width: f.scalable_width,
                device_width: f.device_width,
                scalable_width_alt: f.scalable_width_alt,
                device_width_alt: f.device_width_alt,
                vector: f.vector,
                xlfd: f.xlfd,
            },
        ),
    }
}

struct GlyphShell {
    name: Option<String>,
    codepoint: Option<char>,
    bounding_box: Option<BoundingBox>,
    width: u32,
    height: u32,
    rows: Vec<BitmapRow>,
    metrics: Option<MetricsSet>,
    scalable_width: Option<XYPair>,
    device_width: Option<XYPair>,
    scalable_width_alt: Option<XYPair>,
    device_width_alt: Option<XYPair>,
    vector: Option<XYPair>,
}

impl View for GlyphShell {
    type V = GlyphDraft;

    closed spec fn view(&self) -> GlyphDraft {
        GlyphDraft {
            name: self.name.deep_view(),
            codepoint: self.codepoint,
            bounding_box: self.bounding_box,
            width: self.width as nat,
            height: self.height as nat,
            rows: self.rows@.map_values(|r: BitmapRow| r@),
            metrics: self.metrics,
            scalable_width: self.scalable_width,
            device_width: self.device_width,
            scalable_width_alt: self.scalable_width_alt,
            device_width_alt: self.device_width_alt,
            vector: self.vector,
        }
    }
}

struct FontShell {
    bdf_version: Option<String>,
    name: Option<String>,
    size: Option<FontSize>,
    bounding_box: Option<BoundingBox>,
    metrics: Option<MetricsSet>,
    comments: Vec<String>,
    properties: Vec<Property>,
    glyphs: Vec<GlyphShell>,
    content_version: Option<i32>,
    scalable_width: Option<XYPair>,
    device_width: Option<XYPair>,
    scalable_width_alt: Option<XYPair>,
    device_width_alt: Option<XYPair>,
    vector: Option<XYPair>,
    xlfd: Xlfd,
}

impl View for FontShell {
    type V = FontDraft;

    closed spec fn view(&self) -> FontDraft {
        FontDraft {
            bdf_version: self.bdf_version.deep_view(),
            name: self.name.deep_view(),
            size: self.size,
            bounding_box: self.bounding_box,
            metrics: self.metrics,
            comments: self.comments.deep_view(),
            properties: self.properties@.map_values(|p: Property| p@),
            glyphs: self.glyphs@.map_values(|g: GlyphShell| g@),
            content_version: self.content_version,
            scalable_width: self.scalable_width,
            device_width: self.device_width,
            scalable_width_alt: self.scalable_width_alt,
            device_width_alt: self.device_width_alt,
            vector: self.vector,
            xlfd: self.xlfd@,
        }
    }
}

/// Relies on `char::from_u32`: the character with code `u`, where `u` is a
/// Unicode scalar value.
#[verifier::external_body]
fn char_from_u32(u: u32) -> (r: Option<char>)
    ensures
        r == if is_scalar(u) {
            Some(u as char)
        } else {
            None
        },
{
    char::from_u32(u)
}

fn owned(s: &[char]) -> (r: String)
    ensures
        r@ == s@,
{
    string_of(s)
}

impl GlyphShell {
    fn new(name: String) -> (r: GlyphShell)
        ensures
            r@ == new_glyph(name@),
    {
        let rows: Vec<BitmapRow> = Vec::new();
        let r = GlyphShell {
            name: Some(name),
            codepoint: None,
            bounding_box: None,
            width: 0,
            height: 0,
            rows,
            metrics: None,
            scalable_width: None,
            device_width: None,
            scalable_width_alt: None,
            device_width_alt: None,
            vector: None,
        };
        assert(r@.rows =~= Seq::<Seq<bool>>::empty());
        r
    }

    fn encoding(r: &[char]) -> (res: Result<char, Error>)
        ensures
            match encoding_of(r@) {
                Ok(u) => res == Ok::<char, Error>(u as char),
                Err(e) => res matches Err(x) && x@ == e,
            },
    {
        match find_ws(r) {
            Some(n) => {
                let head = copy_range(r, 0, n);
                if is_minus_one(head.as_slice()) {
                    Err(Error::SpecialEncoding)
                } else {
                    Err(Error::ParseError(ENCODING_SHAPE))
                }
            },
            None => {
                if is_minus_one(r) {
                    return Err(Error::SpecialEncoding);
                }
                match parse_u32(r) {
                    Some(u) => match char_from_u32(u) {
                        Some(c) => Ok(c),
                        None => Err(Error::InvalidCodepoint(u)),
                    },
                    None => Err(Error::ParseError(INTEGER_SHAPE)),
                }
            },
        }
    }

    /// Applies a record inside a glyph.
    fn record(&mut self, id: &[char], r: &[char]) -> (res: Result<(), Error>)
        ensures
            match glyph_record(old(self)@, id@, r@) {
                Ok(g) => res is Ok && final(self)@ == g,
                Err(e) => res matches Err(x) && x@ == e,
            },
    {
        if eq_str(id, ids::ENCODING) {
            let c = GlyphShell::encoding(r)?;
            self.codepoint = Some(c);
        } else if eq_str(id, ids::METRICSSET) {
            match MetricsSet::parse_chars(r) {
                Some(v) => self.metrics = Some(v),
                None => return Err(Error::ParseError(crate::values::METRICS_SHAPE)),
            }
        } else if eq_str(id, ids::SWIDTH) || eq_str(id, ids::DWIDTH) || eq_str(id, ids::SWIDTH1)
            || eq_str(id, ids::DWIDTH1) || eq_str(id, ids::VVECTOR) {
            let v = match XYPair::parse_chars(r) {
                Some(v) => v,
                None => return Err(Error::ParseError(crate::values::XY_SHAPE)),
            };
            if eq_str(id, ids::SWIDTH) {
                self.scalable_width = Some(v);
            } else if eq_str(id, ids::DWIDTH) {
                self.device_width = Some(v);
            } else if eq_str(id, ids::SWIDTH1) {
                self.scalable_width_alt = Some(v);
            } else if eq_str(id, ids::DWIDTH1) {
                self.device_width_alt = Some(v);
            } else {
                self.vector = Some(v);
            }
        } else if eq_str(id, ids::BBX) {
            match BoundingBox::parse_chars(r) {
                Some(v) => self.bounding_box = Some(v),
                None => return Err(Error::ParseError(crate::values::BBOX_SHAPE)),
            }
        } else {
            return Err(Error::UnexpectedEntry(owned(id)));
        }
        Ok(())
    }

    /// The error that validating the draft gives, if any.
    fn check(&self) -> (r: Option<Error>)
        ensures
            match glyph_draft_error(self@) {
                Some(e) => r matches Some(x) && x@ == e,
                None => r is None,
            },
    {
        let c = match self.codepoint {
            None => return Some(Error::GlyphValidation('\0', NO_CODEPOINT)),
            Some(c) => c,
        };
        if self.name.is_none() {
            return Some(Error::GlyphValidation(c, NO_NAME));
        }
        if self.bounding_box.is_none() {
            return Some(Error::GlyphValidation(c, NO_BOUNDING_BOX));
        }
        let m = match self.metrics {
            Some(m) => m,
            None => MetricsSet::Normal,
        };
        match m {
            MetricsSet::Normal => {
                if !(self.scalable_width_alt.is_none() && self.device_width_alt.is_none()) {
                    return Some(Error::GlyphValidation(c, NORMAL_GLYPH));
                }
            },
            _ => {
                if !(self.scalable_width_alt.is_some() && self.device_width_alt.is_some()) {
                    return Some(Error::GlyphValidation(c, ALTERNATE_GLYPH));
                }
            },
        }
        let b = match self.bounding_box {
            Some(b) => b,
            None => return Some(Error::GlyphValidation(c, NO_BOUNDING_BOX)),
        };
        if self.width != b.width || self.height != b.height {
            return Some(Error::GlyphValidation(c, BITMAP_SIZE));
        }
        if self.rows.len() != self.height as usize {
            return Some(Error::GlyphValidation(c, MISSING_ROWS));
        }
        let ghost rows = self@.rows;
        assert(glyph_draft_error(self@) == if rows_cover(rows, self@.width) {
            None
        } else {
            Some(ErrorModel::GlyphValidation(c, SHORT_ROW@))
        });
        let mut i: usize = 0;
        while i < self.rows.len()
            invariant
                glyph_draft_error(self@) == if rows_cover(rows, self@.width) {
                    None
                } else {
                    Some(ErrorModel::GlyphValidation(c, SHORT_ROW@))
                },
                i <= self.rows@.len(),
                rows == self@.rows,
                rows.len() == self.rows@.len(),
                forall|k: int| 0 <= k < i ==> rows[k].len() >= self.width,
            decreases self.rows.len() - i,
        {
            assert(rows[i as int] == self.rows@[i as int]@);
            if self.rows[i].len() < self.width as usize {
                assert(rows[i as int].len() < self@.width);
                assert(!rows_cover(self@.rows, self@.width));
                return Some(Error::GlyphValidation(c, SHORT_ROW));
            }
            i += 1;
        }
        None
    }

    /// The glyph that a valid draft becomes.
    fn finish(self) -> (r: Glyph)
        requires
            glyph_draft_error(self@) is None,
        ensures
            r@ == finish_glyph(self@),
    {
        let bitmap = Bitmap::from_rows(self.width as usize, self.height as usize, self.rows);
        Glyph {
            name: self.name.unwrap(),
            codepoint: self.codepoint.unwrap(),
            bounding_box: self.bounding_box.unwrap(),
            bitmap,
            metrics: match self.metrics {
                Some(m) => m,
                None => MetricsSet::Normal,
            },
            scalable_width: self.scalable_width,
            device_width: self.device_width,
            scalable_width_alt: self.scalable_width_alt,
            device_width_alt: self.device_width_alt,
            vector: self.vector,
        }
    }
}

impl FontShell {
    fn new() -> (r: FontShell)
        ensures
            r@ == new_font(),
    {
        let comments: Vec<String> = Vec::new();
        let properties: Vec<Property> = Vec::new();
        let glyphs: Vec<GlyphShell> = Vec::new();
        let r = FontShell {
            bdf_version: None,
            name: None,
            size: None,
            bounding_box: None,
            metrics: None,
            comments,
            properties,
            glyphs,
            content_version: None,
            scalable_width: None,
            device_width: None,
            scalable_width_alt: None,
            device_width_alt: None,
            vector: None,
            xlfd: Xlfd::empty(),
        };
        assert(r@.comments =~= Seq::<Seq<char>>::empty());
        assert(r@.properties =~= Seq::<PropertyModel>::empty());
        assert(r@.glyphs =~= Seq::<GlyphDraft>::empty());
        r
    }

    /// Applies a record of the font's header.
    #[verifier::spinoff_prover]
    fn record(&mut self, id: &[char], r: &[char]) -> (res: Result<ParseState, Error>)
        ensures
            match font_record(old(self)@, id@, r@) {
                Ok((f, s)) => res == Ok::<ParseState, Error>(s) && final(self)@ == f,
                Err(e) => res matches Err(x) && x@ == e,
            },
    {
        if eq_str(id, ids::FONT) {
            self.name = Some(owned(r));
        } else if eq_str(id, ids::CONTENTVERSION) {
            match parse_i32(r) {
                Some(v) => self.content_version = Some(v),
                None => return Err(Error::ParseError(INTEGER_SHAPE)),
            }
        } else if eq_str(id, ids::SIZE) {
            match FontSize::parse_chars(r) {
                Some(v) => self.size = Some(v),
                None => return Err(Error::ParseError(crate::values::SIZE_SHAPE)),
            }
        } else if eq_str(id, ids::FONTBOUNDINGBOX) {
            match BoundingBox::parse_chars(r) {
                Some(v) => self.bounding_box = Some(v),
                None => return Err(Error::ParseError(crate::values::BBOX_SHAPE)),
            }
        } else if eq_str(id, ids::METRICSSET) {
            match MetricsSet::parse_chars(r) {
                Some(v) => self.metrics = Some(v),
                None => return Err(Error::ParseError(crate::values::METRICS_SHAPE)),
            }
        } else if eq_str(id, ids::SWIDTH) || eq_str(id, ids::DWIDTH) || eq_str(id, ids::SWIDTH1)
            || eq_str(id, ids::DWIDTH1) || eq_str(id, ids::VVECTOR) {
            let v = match XYPair::parse_chars(r) {
                Some(v) => v,
                None => return Err(Error::ParseError(crate::values::XY_SHAPE)),
            };
            if eq_str(id, ids::SWIDTH) {
                self.scalable_width = Some(v);
            } else if eq_str(id, ids::DWIDTH) {
                self.device_width = Some(v);
            } else if eq_str(id, ids::SWIDTH1) {
                self.scalable_width_alt = Some(v);
            } else if eq_str(id, ids::DWIDTH1) {
                self.device_width_alt = Some(v);
            } else {
                self.vector = Some(v);
            }
        } else if eq_str(id, ids::STARTPROPERTIES) {
            match parse_usize(r) {
                Some(_) => return Ok(ParseState::InProperties),
                None => return Err(Error::ParseError(INTEGER_SHAPE)),
            }
        } else if eq_str(id, ids::CHARS) {
            match parse_usize(r) {
                Some(_) => return Ok(ParseState::InChars),
                None => return Err(Error::ParseError(INTEGER_SHAPE)),
            }
        } else {
            return Err(Error::UnexpectedEntry(owned(id)));
        }
        Ok(ParseState::InFont)
    }

    /// Sets the XLFD string field that `id` names; false where it names none.
    fn set_xlfd_str(&mut self, id: &[char], s: &String) -> (found: bool)
        ensures
            match xlfd_with_str(old(self)@.xlfd, id@, s@) {
                Some(x) => found && final(self)@ == (FontDraft { xlfd: x, ..old(self)@ }),
                None => !found && final(self)@ == old(self)@,
            },
    {
        let v = Some(s.clone());
        if eq_str(id, ids::FOUNDRY) {
            self.xlfd.foundry = v;
        } else if eq_str(id, ids::FAMILY_NAME) {
            self.xlfd.family_name = v;
        } else if eq_str(id, ids::WEIGHT_NAME) {
            self.xlfd.weight_name = v;
        } else if eq_str(id, ids::SLANT) {
            self.xlfd.slant = v;
        } else if eq_str(id, ids::SETWIDTH_NAME) {
            self.xlfd.setwidth_name = v;
        } else if eq_str(id, ids::ADD_STYLE_NAME) {
            self.xlfd.add_style_name = v;
        } else if eq_str(id, ids::SPACING) {
            self.xlfd.spacing = v;
        } else if eq_str(id, ids::CHARSET_REGISTRY) {
            self.xlfd.charset_registry = v;
        } else if eq_str(id, ids::CHARSET_ENCODING) {
            self.xlfd.charset_encoding = v;
        } else {
            return false;
        }
        true
    }

    /// Sets the XLFD integer field that `id` names; false where it names none.
    fn set_xlfd_int(&mut self, id: &[char], i: i32) -> (found: bool)
        ensures
            match xlfd_with_int(old(self)@.xlfd, id@, i) {
                Some(x) => found && final(self)@ == (FontDraft { xlfd: x, ..old(self)@ }),
                None => !found && final(self)@ == old(self)@,
            },
    {
        if eq_str(id, ids::PIXEL_SIZE) {
            self.xlfd.pixel_size = Some(i);
        } else if eq_str(id, ids::POINT_SIZE) {
            self.xlfd.point_size = Some(i);
        } else if eq_str(id, ids::RESOLUTION_X) {
            self.xlfd.resolution_x = Some(i);
        } else if eq_str(id, ids::RESOLUTION_Y) {
            self.xlfd.resolution_y = Some(i);
        } else if eq_str(id, ids::AVERAGE_WIDTH) {
            self.xlfd.average_width = Some(i);
        } else {
            return false;
        }
        true
    }

    fn push_property(&mut self, id: &[char], value: PropertyValue)
        ensures
            final(self)@ == (FontDraft {
                properties: old(self)@.properties.push(
                    PropertyModel { name: id@, value: value@ },
                ),
                ..old(self)@
            }),
    {
        let p = Property { name: owned(id), value };
        let ghost before = self@.properties;
        self.properties.push(p);
        assert(self@.properties =~= before.push(p@));
    }

    /// Applies a record of a property block.
    #[verifier::spinoff_prover]
    fn property(&mut self, id: &[char], r: &[char]) -> (res: Result<(), Error>)
        ensures
            match property_record(old(self)@, id@, r@) {
                Ok(f) => res is Ok && final(self)@ == f,
                Err(e) => res matches Err(x) && x@ == e,
            },
    {
        match PropertyValue::parse_chars(r) {
            None => Err(Error::ParseError(PROPERTY_SHAPE)),
            Some(PropertyValue::Str(s)) => {
                if self.set_xlfd_str(id, &s) {
                    return Ok(());
                }
                let ghost before = self@;
                if self.set_xlfd_int(id, 0) {
                    return Err(Error::ParseError(INTEGER_SHAPE));
                }
                self.push_property(id, PropertyValue::Str(s));
                Ok(())
            },
            Some(PropertyValue::Int(i)) => {
                if self.set_xlfd_int(id, i) {
                    return Ok(());
                }
                let empty = owned(&[]);
                assert(empty@ =~= Seq::<char>::empty());
                if self.set_xlfd_str(id, &empty) {
                    return Err(Error::ParseError(STRING_SHAPE));
                }
                self.push_property(id, PropertyValue::Int(i));
                Ok(())
            },
        }
    }

    /// The error that validating the draft gives, if any.
    fn check(&self) -> (r: Option<Error>)
        ensures
            match font_draft_error(self@) {
                Some(e) => r matches Some(x) && x@ == e,
                None => r is None,
            },
    {
        if self.bdf_version.is_none() {
            return Some(Error::FontValidation(NO_VERSION));
        }
        if self.name.is_none() {
            return Some(Error::FontValidation(NO_NAME));
        }
        if self.size.is_none() {
            return Some(Error::FontValidation(NO_SIZE));
        }
        if self.bounding_box.is_none() {
            return Some(Error::FontValidation(NO_BOUNDING_BOX));
        }
        let m = match self.metrics {
            Some(m) => m,
            None => MetricsSet::Normal,
        };
        match m {
            MetricsSet::Normal => {
                if !(self.scalable_width_alt.is_none() && self.device_width_alt.is_none()) {
                    return Some(Error::FontValidation(NORMAL_FONT));
                }
            },
            _ => {
                if !(self.scalable_width_alt.is_some() && self.device_width_alt.is_some()) {
                    return Some(Error::FontValidation(ALTERNATE_FONT));
                }
            },
        }
        let ghost gs = self@.glyphs;
        assert(self@.metrics.unwrap_or(MetricsSet::Normal) == m);
        assert(font_draft_error(self@) == first_draft_error(gs));
        let mut i: usize = 0;
        assert(gs.subrange(0, gs.len() as int) =~= gs);
        while i < self.glyphs.len()
            invariant
                i <= self.glyphs@.len(),
                gs == self@.glyphs,
                gs.len() == self.glyphs@.len(),
                font_draft_error(self@) == first_draft_error(gs),
                first_draft_error(gs) == first_draft_error(gs.subrange(i as int, gs.len() as int)),
            decreases self.glyphs.len() - i,
        {
            let ghost rest = gs.subrange(i as int, gs.len() as int);
            assert(rest[0] == self.glyphs@[i as int]@);
            assert(rest.drop_first() == gs.subrange(i + 1, gs.len() as int));
            match self.glyphs[i].check() {
                None => {},
                Some(e) => {
                    assert(glyph_draft_error(rest[0]) == Some(e@));
                    assert(first_draft_error(rest) == Some(e@));
                    return Some(e);
                },
            }
            i += 1;
        }
        assert(gs.subrange(i as int, gs.len() as int) =~= Seq::<GlyphDraft>::empty());
        None
    }

    /// The font that the draft becomes, or the first validation error.
    fn finish(self) -> (r: Result<Font, Error>)
        ensures
            match finish(self@) {
                Ok(f) => r matches Ok(x) && x@ == f,
                Err(e) => r matches Err(x) && x@ == e,
            },
    {
        if let Some(e) = self.check() {
            return Err(e);
        }
        let ghost d = self@;
        let FontShell {
            bdf_version,
            name,
            size,
            bounding_box,
            metrics,
            comments,
            properties,
            mut glyphs,
            content_version,
            scalable_width,
            device_width,
            scalable_width_alt,
            device_width_alt,
            vector,
            xlfd,
        } = self;
        let ghost gs = d.glyphs;
        let mut out: Vec<Glyph> = Vec::new();
        let n = glyphs.len();
        let mut i: usize = 0;
        while i < n
            invariant
                n == glyphs@.len() == gs.len(),
                i <= n,
                first_draft_error(gs) is None,
                forall|k: int| i <= k < n ==> (#[trigger] glyphs@[k])@ == gs[k],
                out@.len() == i,
                forall|k: int| 0 <= k < i ==> (#[trigger] out@[k])@ == finish_glyph(gs[k]),
            decreases n - i,
        {
            proof {
                lemma_first_draft_error_none(gs, i as int);
            }
            let mut g = GlyphShell::new(owned(&[]));
            glyphs.set_and_swap(i, &mut g);
            out.push(g.finish());
            i += 1;
        }
        let r = Font {
            bdf_version: bdf_version.unwrap(),
            name: name.unwrap(),
            size: size.unwrap(),
            bounding_box: bounding_box.unwrap(),
            metrics: match metrics {
                Some(m) => m,
                None => MetricsSet::Normal,
            },
            comments,
            properties,
            glyphs: out,
            content_version,
            scalable_width,
            device_width,
            scalable_width_alt,
            device_width_alt,
            vector,
            xlfd,
        };
        assert(r@.glyphs =~= gs.map_values(|g: GlyphDraft| finish_glyph(g)));
        Ok(r)
    }
}

pub(crate) proof fn lemma_first_draft_error_none(gs: Seq<GlyphDraft>, i: int)
    requires
        first_draft_error(gs) is None,
        0 <= i < gs.len(),
    ensures
        glyph_draft_error(gs[i]) is None,
    decreases gs.len(),
{
    if i > 0 {
        assert(gs.drop_first()[i - 1] == gs[i]);
        lemma_first_draft_error_none(gs.drop_first(), i - 1);
    }
}

/// The characters of an optional vector.
pub open spec fn opt_view(o: Option<Vec<char>>) -> Option<Seq<char>> {
    match o {
        Some(v) => Some(v@),
        None => None,
    }
}

/// Splits a trimmed line into its keyword and the trimmed rest, if any.
fn split_line(line: &[char]) -> (r: (Vec<char>, Option<Vec<char>>))
    ensures
        (r.0@, opt_view(r.1)) == split_record(line@),
{
    match find_ws(line) {
        Some(n) => {
            let id = copy_range(line, 0, n);
            let tail = copy_range(line, n, line.len());
            let rest = trimmed(tail.as_slice());
            (id, Some(rest))
        },
        None => {
            let id = copy_range(line, 0, line.len());
            assert(line@.subrange(0, line@.len() as int) =~= line@);
            (id, None)
        },
    }
}

/// The BDF parser: the current block, the font drafted so far and the rows
/// that the current bitmap block still owes.
pub struct Parser {
    state: ParseState,
    font: FontShell,
    rows_left: u32,
}

impl View for Parser {
    type V = ParseModel;

    closed spec fn view(&self) -> ParseModel {
        ParseModel { state: self.state, font: self.font@, rows_left: self.rows_left as nat }
    }
}

impl Parser {
    /// A parser before its first line.
    pub fn new() -> (r: Parser)
        ensures
            r@ == initial(),
    {
        Parser { state: ParseState::Empty, font: FontShell::new(), rows_left: 0 }
    }

    /// Applies a record to the current glyph.
    fn glyph_record(&mut self, id: &[char], r: &[char]) -> (res: Result<(), Error>)
        requires
            old(self)@.font.glyphs.len() > 0,
        ensures
            match glyph_record(last_glyph(old(self)@.font), id@, r@) {
                Ok(g) => res is Ok && final(self)@ == (ParseModel {
                    font: with_last_glyph(old(self)@.font, g),
                    ..old(self)@
                }),
                Err(e) => res matches Err(x) && x@ == e,
            },
    {
        let ghost before = self.font.glyphs@.map_values(|g: GlyphShell| g@);
        let mut g = self.font.glyphs.pop().unwrap();
        assert(g@ == before.last());
        let res = g.record(id, r);
        let ghost gv = g@;
        self.font.glyphs.push(g);
        assert(self.font.glyphs@.map_values(|g: GlyphShell| g@) =~= before.update(
            before.len() - 1,
            gv,
        ));
        res
    }

    /// Appends a bitmap row to the current glyph.
    fn push_row(&mut self, row: BitmapRow)
        requires
            old(self)@.font.glyphs.len() > 0,
            old(self)@.rows_left > 0,
        ensures
            final(self)@ == (ParseModel {
                font: with_last_glyph(
                    old(self)@.font,
                    GlyphDraft {
                        rows: last_glyph(old(self)@.font).rows.push(row@),
                        ..last_glyph(old(self)@.font)
                    },
                ),
                rows_left: (old(self)@.rows_left - 1) as nat,
                ..old(self)@
            }),
    {
        let ghost before = self.font.glyphs@.map_values(|g: GlyphShell| g@);
        let mut g = self.font.glyphs.pop().unwrap();
        assert(g@ == before.last());
        let ghost rows = g@.rows;
        let ghost rv = row@;
        g.rows.push(row);
        assert(g@.rows =~= rows.push(rv));
        let ghost gv = g@;
        self.font.glyphs.push(g);
        assert(self.font.glyphs@.map_values(|g: GlyphShell| g@) =~= before.update(
            before.len() - 1,
            gv,
        ));
        self.rows_left = self.rows_left - 1;
    }

    /// Opens the bitmap block of the current glyph.
    fn start_bitmap(&mut self) -> (res: Result<(), Error>)
        requires
            old(self)@.font.glyphs.len() > 0,
            old(self)@.state == ParseState::InChar,
        ensures
            match bitmap_start(old(self)@) {
                Ok(m) => res is Ok && final(self)@ == m,
                Err(e) => res matches Err(x) && x@ == e,
            },
    {
        let ghost before = self.font.glyphs@.map_values(|g: GlyphShell| g@);
        let mut g = self.font.glyphs.pop().unwrap();
        assert(g@ == before.last());
        let bb = if g.bounding_box.is_some() {
            g.bounding_box
        } else {
            self.font.bounding_box
        };
        match bb {
            None => {
                self.font.glyphs.push(g);
                Err(Error::MissingBoundingBox)
            },
            Some(b) => {
                g.width = b.width;
                g.height = b.height;
                g.rows = Vec::new();
                assert(g@.rows =~= Seq::<Seq<bool>>::empty());
                let ghost gv = g@;
                self.font.glyphs.push(g);
                assert(self.font.glyphs@.map_values(|g: GlyphShell| g@) =~= before.update(
                    before.len() - 1,
                    gv,
                ));
                self.rows_left = b.height;
                self.state = ParseState::InBitmap;
                Ok(())
            },
        }
    }

    /// Applies a record once no bitmap rows are owed.
    #[verifier::spinoff_prover]
    #[verifier::rlimit(50)]
    fn record_step(&mut self, id: &[char], rest: &Option<Vec<char>>) -> (res: Result<(), Error>)
        requires
            parse_wf(old(self)@),
            old(self)@.state != ParseState::InBitmap,
        ensures
            match record_step(old(self)@, id@, opt_view(*rest)) {
                Ok(m) => res is Ok && final(self)@ == m && parse_wf(m),
                Err(e) => res matches Err(x) && x@ == e,
            },
    {
        let st = self.state;
        if eq_str(id, ids::COMMENT) && rest.is_some() {
            let c = match rest {
                Some(v) => owned(v.as_slice()),
                None => owned(&[]),
            };
            let ghost before = self.font.comments.deep_view();
            let ghost cv = c@;
            self.font.comments.push(c);
            assert(self.font.comments.deep_view() =~= before.push(cv));
            return Ok(());
        }
        if eq_str(id, ids::ENDPROPERTIES) {
            if st == ParseState::InProperties {
                self.state = ParseState::InFont;
                return Ok(());
            }
            return Err(Error::UnexpectedEntry(owned(id)));
        }
        if eq_str(id, ids::ENDCHAR) {
            if st == ParseState::InChar {
                let n = self.font.glyphs.len();
                match self.font.glyphs[n - 1].check() {
                    Some(e) => return Err(e),
                    None => {
                        self.state = ParseState::InChars;
                        return Ok(());
                    },
                }
            }
            return Err(Error::UnexpectedEntry(owned(id)));
        }
        if eq_str(id, ids::BITMAP) && st == ParseState::InChar {
            return self.start_bitmap();
        }
        let r = match rest {
            None => return Err(Error::MissingValue(owned(id))),
            Some(r) => r,
        };
        match st {
            ParseState::Empty => {
                if eq_str(id, ids::STARTFONT) {
                    self.font.bdf_version = Some(owned(r.as_slice()));
                    self.state = ParseState::InFont;
                    Ok(())
                } else {
                    Err(Error::UnexpectedEntry(owned(id)))
                }
            },
            ParseState::InFont => {
                let s2 = self.font.record(id, r.as_slice())?;
                self.state = s2;
                Ok(())
            },
            ParseState::InProperties => self.font.property(id, r.as_slice()),
            ParseState::InChars => {
                if eq_str(id, ids::STARTCHAR) {
                    let g = GlyphShell::new(owned(r.as_slice()));
                    let ghost before = self.font.glyphs@.map_values(|g: GlyphShell| g@);
                    let ghost gv = g@;
                    self.font.glyphs.push(g);
                    assert(self.font.glyphs@.map_values(|g: GlyphShell| g@) =~= before.push(gv));
                    self.state = ParseState::InChar;
                    Ok(())
                } else {
                    Err(Error::UnexpectedEntry(owned(id)))
                }
            },
            _ => self.glyph_record(id, r.as_slice()),
        }
    }

    /// Applies one non-blank, trimmed line, numbered `ln` of `last`.
    #[verifier::spinoff_prover]
    fn step(&mut self, line: &[char], ln: usize, last: usize) -> (res: Result<(), Error>)
        requires
            parse_wf(old(self)@),
        ensures
            match step(old(self)@, line@, ln as nat, last as nat) {
                Ok(m) => res is Ok && final(self)@ == m && parse_wf(m),
                Err(e) => res matches Err(x) && x@ == e,
            },
    {
        proof {
            reveal(step);
        }
        let (id, rest) = split_line(line);
        if self.state == ParseState::InBitmap && self.rows_left > 0 {
            if rest.is_some() {
                return Err(Error::ParseError(ROW_SHAPE));
            }
            if eq_str(id.as_slice(), ids::ENDCHAR) {
                return Err(Error::UnexpectedEntry(id_string(id)));
            }
            match BitmapRow::parse_chars(id.as_slice()) {
                None => return Err(Error::ParseError(ROW_SHAPE)),
                Some(row) => {
                    self.push_row(row);
                    return Ok(());
                },
            }
        }
        if self.state == ParseState::InBitmap {
            self.state = ParseState::InChar;
        }
        if eq_str(id.as_slice(), ids::ENDFONT) {
            if (self.state == ParseState::InChars || self.state == ParseState::InFont) && ln
                == last {
                return Ok(());
            }
            return Err(Error::UnexpectedEntry(id_string(id)));
        }
        self.record_step(id.as_slice(), &rest)
    }
}

fn id_string(id: Vec<char>) -> (r: String)
    ensures
        r@ == id@,
{
    string_of(id.as_slice())
}

/// The lines of a text, split at each `\n`; the last line is what follows
/// the last `\n`, possibly empty.
pub open spec fn split_lines(s: Seq<char>) -> Seq<Seq<char>>
    decreases s.len(),
{
    if s.len() == 0 {
        seq![Seq::empty()]
    } else {
        let p = split_lines(s.drop_last());
        if s.last() == '\n' {
            p.push(Seq::empty())
        } else {
            p.update(p.len() - 1, p.last().push(s.last()))
        }
    }
}

/// How many lines are not blank.
pub open spec fn count_nonblank(ls: Seq<Seq<char>>) -> nat
    decreases ls.len(),
{
    if ls.len() == 0 {
        0
    } else {
        count_nonblank(ls.drop_last()) + if all_ws(ls.last()) {
            0nat
        } else {
            1nat
        }
    }
}

/// One line of input: blank lines are skipped; the others are trimmed,
/// numbered and stepped. An error carries its line's number.
pub open spec fn line_step(st: (ParseModel, nat), line: Seq<char>, last: nat) -> Result<
    (ParseModel, nat),
    (nat, ErrorModel),
> {
    if all_ws(line) {
        Ok(st)
    } else {
        match step(st.0, trim(line), st.1 + 1, last) {
            Ok(m) => Ok((m, st.1 + 1)),
            Err(e) => Err((st.1 + 1, e)),
        }
    }
}

/// The parser after the lines `ls`, starting from `st`, with the number of
/// non-blank lines read, or the first error.
pub open spec fn run_from(st: (ParseModel, nat), ls: Seq<Seq<char>>, last: nat) -> Result<
    (ParseModel, nat),
    (nat, ErrorModel),
>
    decreases ls.len(),
{
    if ls.len() == 0 {
        Ok(st)
    } else {
        match run_from(st, ls.drop_last(), last) {
            Err(e) => Err(e),
            Ok(s2) => line_step(s2, ls.last(), last),
        }
    }
}

/// The parser after the lines `ls`, from its start.
pub open spec fn run(ls: Seq<Seq<char>>, last: nat) -> Result<(ParseModel, nat), (nat, ErrorModel)> {
    run_from((initial(), 0), ls, last)
}

/// What parsing a text gives: the validated font, or the first error with
/// its line number; errors found once the input is read carry the number
/// of the last non-blank line.
pub open spec fn parse_spec(s: Seq<char>) -> Result<FontModel, (nat, ErrorModel)> {
    let ls = split_lines(s);
    let last = count_nonblank(ls);
    match run(ls, last) {
        Err(e) => Err(e),
        Ok((m, _)) => match finish(m.font) {
            Ok(f) => Ok(f),
            Err(e) => Err((last, e)),
        },
    }
}

proof fn lemma_run_err(ls: Seq<Seq<char>>, i: int, last: nat)
    requires
        0 <= i <= ls.len(),
        run(ls.subrange(0, i), last) is Err,
    ensures
        run(ls, last) == run(ls.subrange(0, i), last),
    decreases ls.len() - i,
{
    if i < ls.len() {
        assert(ls.subrange(0, i + 1).drop_last() == ls.subrange(0, i));
        lemma_run_err(ls, i + 1, last);
    } else {
        assert(ls.subrange(0, i) == ls);
    }
}

/// The lines of `cs`.
fn lines_of(cs: &[char]) -> (r: Vec<Vec<char>>)
    ensures
        r@.map_values(|l: Vec<char>| l@) == split_lines(cs@),
{
    let mut done: Vec<Vec<char>> = Vec::new();
    let mut cur: Vec<char> = Vec::new();
    let mut i: usize = 0;
    assert(cs@.subrange(0, 0) =~= Seq::<char>::empty());
    assert(done@.map_values(|l: Vec<char>| l@).push(cur@) =~= seq![Seq::<char>::empty()]);
    while i < cs.len()
        invariant
            i <= cs.len(),
            done@.map_values(|l: Vec<char>| l@).push(cur@) == split_lines(
                cs@.subrange(0, i as int),
            ),
        decreases cs.len() - i,
    {
        let c = cs[i];
        let ghost pre = cs@.subrange(0, i as int);
        let ghost next = cs@.subrange(0, i + 1);
        assert(next.drop_last() == pre);
        assert(next.last() == c);
        let ghost before = done@.map_values(|l: Vec<char>| l@).push(cur@);
        if c == '\n' {
            let line = cur;
            cur = Vec::new();
            done.push(line);
            assert(done@.map_values(|l: Vec<char>| l@).push(cur@) =~= before.push(
                Seq::empty(),
            ));
        } else {
            cur.push(c);
            assert(done@.map_values(|l: Vec<char>| l@).push(cur@) =~= before.update(
                before.len() - 1,
                before.last().push(c),
            ));
        }
        i += 1;
    }
    assert(cs@.subrange(0, i as int) =~= cs@);
    let ghost before = done@.map_values(|l: Vec<char>| l@).push(cur@);
    done.push(cur);
    assert(done@.map_values(|l: Vec<char>| l@) =~= before);
    done
}

/// The number of non-blank lines.
fn count_lines(ls: &Vec<Vec<char>>) -> (r: usize)
    ensures
        r == count_nonblank(ls@.map_values(|l: Vec<char>| l@)),
{
    let ghost lv = ls@.map_values(|l: Vec<char>| l@);
    let mut n: usize = 0;
    let mut i: usize = 0;
    assert(lv.subrange(0, 0) =~= Seq::<Seq<char>>::empty());
    while i < ls.len()
        invariant
            i <= ls@.len(),
            lv == ls@.map_values(|l: Vec<char>| l@),
            n <= i,
            n == count_nonblank(lv.subrange(0, i as int)),
        decreases ls.len() - i,
    {
        assert(lv.subrange(0, i + 1).drop_last() == lv.subrange(0, i as int));
        assert(lv[i as int] == ls@[i as int]@);
        if !is_blank(ls[i].as_slice()) {
            n += 1;
        }
        i += 1;
    }
    assert(lv.subrange(0, i as int) =~= lv);
    n
}

impl Parser {
    /// Parses a whole text into a validated font.
    #[verifier::spinoff_prover]
    pub fn parse(input: &str) -> (r: Result<Font, (usize, Error)>)
        ensures
            match parse_spec(input@) {
                Ok(f) => r matches Ok(x) && x@ == f,
                Err((n, e)) => r matches Err((k, x)) && k == n && x@ == e,
            },
    {
        let cs = chars_of(input);
        let ls = lines_of(cs.as_slice());
        let ghost lv = ls@.map_values(|l: Vec<char>| l@);
        let last = count_lines(&ls);
        let mut p = Parser::new();
        let mut ln: usize = 0;
        let mut i: usize = 0;
        assert(lv.subrange(0, 0) =~= Seq::<Seq<char>>::empty());
        while i < ls.len()
            invariant
                i <= ls@.len(),
                lv == ls@.map_values(|l: Vec<char>| l@),
                lv == split_lines(cs@),
                cs@ == input@,
                last == count_nonblank(lv),
                ln <= i,
                parse_wf(p@),
                run(lv.subrange(0, i as int), last as nat) == Ok::<(ParseModel, nat), (nat, ErrorModel)>((p@, ln as nat)),
            decreases ls.len() - i,
        {
            assert(lv.subrange(0, i + 1).drop_last() == lv.subrange(0, i as int));
            assert(lv[i as int] == ls@[i as int]@);
            if !is_blank(ls[i].as_slice()) {
                let line = trimmed(ls[i].as_slice());
                ln += 1;
                match p.step(line.as_slice(), ln, last) {
                    Ok(()) => {},
                    Err(e) => {
                        proof {
                            lemma_run_err(lv, i + 1, last as nat);
                        }
                        return Err((ln, e));
                    },
                }
            }
            i += 1;
        }
        assert(lv.subrange(0, i as int) =~= lv);
        match p.font.finish() {
            Ok(f) => Ok(f),
            Err(e) => Err((last, e)),
        }
    }
}

} // verus!
