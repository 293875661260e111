//! The finished font: bitmaps, glyphs, properties, the XLFD fields and the
//! font itself, with their invariants and their canonical BDF text.
use vstd::prelude::*;

use crate::bitmap::{row_chars, BitmapRow};
use crate::error::{Error, ErrorModel};
use crate::ids;
use crate::text::{
    chars_of, concat_map, dec_chars, int_chars, lemma_concat_map_step, push_all, push_decimal,
    push_signed, push_str, string_of,
};
use crate::values::{
    bbox_chars, metrics_code, prop_value_chars, quoted_chars, size_chars, xy_chars, BoundingBox,
    FontSize, MetricsSet, PropValue, PropertyValue, XYPair,
};

verus! {

pub const NORMAL_GLYPH: &'static str = "glyph with normal metrics cannot have alternate widths";

pub const ALTERNATE_GLYPH: &'static str = "glyph with alternate metrics must have alternate widths";

pub const NORMAL_FONT: &'static str = "font with normal metrics cannot have alternate widths";

pub const ALTERNATE_FONT: &'static str = "font with alternate metrics must have alternate widths";

/// A glyph's image: `height` rows, each addressed by `x < width`.
#[derive(Debug)]
pub struct Bitmap {
    width: usize,
    height: usize,
    data: Vec<BitmapRow>,
}

pub ghost struct BitmapModel {
    pub width: nat,
    pub height: nat,
    pub rows: Seq<Seq<bool>>,
}

impl View for Bitmap {
    type V = BitmapModel;

    closed spec fn view(&self) -> BitmapModel {
        BitmapModel {
            width: self.width as nat,
            height: self.height as nat,
            rows: self.data@.map_values(|r: BitmapRow| r@),
        }
    }
}

/// Whether every row holds at least `width` bits.
pub open spec fn rows_cover(rows: Seq<Seq<bool>>, width: nat) -> bool {
    forall|i: int| 0 <= i < rows.len() ==> (#[trigger] rows[i]).len() >= width
}

/// A bitmap holds one row per unit of height, each addressable for every
/// `x < width`.
pub open spec fn bitmap_wf(m: BitmapModel) -> bool {
    m.rows.len() == m.height && rows_cover(m.rows, m.width)
}

/// The pixel at `(x, y)`, where there is one.
pub open spec fn pixel(m: BitmapModel, x: int, y: int) -> Option<bool> {
    if 0 <= x < m.width && 0 <= y < m.height && y < m.rows.len() && x < m.rows[y].len() {
        Some(m.rows[y][x])
    } else {
        None
    }
}

/// The `BITMAP` block: the keyword, then one hexadecimal line per row.
pub open spec fn bitmap_chars(m: BitmapModel) -> Seq<char> {
    line(ids::BITMAP@) + concat_map(m.rows, |r: Seq<bool>| row_chars(r) + seq!['\n'])
}

/// A record: keyword, one space, argument, newline.
pub open spec fn rec(kw: Seq<char>, arg: Seq<char>) -> Seq<char> {
    kw + seq![' '] + arg + seq!['\n']
}

/// A record without an argument.
pub open spec fn line(kw: Seq<char>) -> Seq<char> {
    kw + seq!['\n']
}

/// A pair's record, where the pair is present.
pub open spec fn opt_xy(kw: Seq<char>, o: Option<XYPair>) -> Seq<char> {
    match o {
        Some(p) => rec(kw, xy_chars(p)),
        None => Seq::empty(),
    }
}

/// A quoted string's record, where the string is present.
pub open spec fn opt_str(kw: Seq<char>, o: Option<Seq<char>>) -> Seq<char> {
    match o {
        Some(s) => rec(kw, quoted_chars(s)),
        None => Seq::empty(),
    }
}

/// An integer's record, where the integer is present.
pub open spec fn opt_int(kw: Seq<char>, o: Option<i32>) -> Seq<char> {
    match o {
        Some(i) => rec(kw, int_chars(i as int)),
        None => Seq::empty(),
    }
}

/// `METRICSSET` where it is not `Normal`, then the widths and the vector
/// that are present.
pub open spec fn widths_chars(
    m: MetricsSet,
    sw: Option<XYPair>,
    dw: Option<XYPair>,
    swa: Option<XYPair>,
    dwa: Option<XYPair>,
    v: Option<XYPair>,
) -> Seq<char> {
    (if m != MetricsSet::Normal {
        rec(ids::METRICSSET@, dec_chars(metrics_code(m)))
    } else {
        Seq::empty()
    }) + opt_xy(ids::SWIDTH@, sw) + opt_xy(ids::DWIDTH@, dw) + opt_xy(ids::SWIDTH1@, swa)
        + opt_xy(ids::DWIDTH1@, dwa) + opt_xy(ids::VVECTOR@, v)
}

/// Whether the alternate widths agree with the metrics set: both absent
/// for `Normal`, both present otherwise.
pub open spec fn alt_widths_ok(m: MetricsSet, swa: Option<XYPair>, dwa: Option<XYPair>) -> bool {
    if m == MetricsSet::Normal {
        swa is None && dwa is None
    } else {
        swa is Some && dwa is Some
    }
}

fn push_widths(
    out: &mut Vec<char>,
    m: MetricsSet,
    sw: Option<XYPair>,
    dw: Option<XYPair>,
    swa: Option<XYPair>,
    dwa: Option<XYPair>,
    v: Option<XYPair>,
)
    ensures
        final(out)@ == old(out)@ + widths_chars(m, sw, dw, swa, dwa, v),
{
    let ghost start = out@;
    if m != MetricsSet::Normal {
        push_str(out, ids::METRICSSET);
        out.push(' ');
        m.push_bdf(out);
        out.push('\n');
    }
    let ghost a = out@;
    assert(a =~= start + (if m != MetricsSet::Normal {
        rec(ids::METRICSSET@, dec_chars(metrics_code(m)))
    } else {
        Seq::empty()
    }));
    push_opt_xy(out, ids::SWIDTH, sw);
    push_opt_xy(out, ids::DWIDTH, dw);
    push_opt_xy(out, ids::SWIDTH1, swa);
    push_opt_xy(out, ids::DWIDTH1, dwa);
    push_opt_xy(out, ids::VVECTOR, v);
    assert(out@ =~= start + widths_chars(m, sw, dw, swa, dwa, v));
}

fn push_opt_xy(out: &mut Vec<char>, kw: &str, o: Option<XYPair>)
    ensures
        final(out)@ == old(out)@ + opt_xy(kw@, o),
{
    if let Some(p) = o {
        push_str(out, kw);
        out.push(' ');
        p.push_bdf(out);
        out.push('\n');
        assert(final(out)@ =~= old(out)@ + opt_xy(kw@, o));
    } else {
        assert(final(out)@ =~= old(out)@ + opt_xy(kw@, o));
    }
}

fn push_opt_str(out: &mut Vec<char>, kw: &str, o: &Option<String>)
    ensures
        final(out)@ == old(out)@ + opt_str(kw@, o.deep_view()),
{
    if let Some(s) = o {
        push_str(out, kw);
        out.push(' ');
        let v = PropertyValue::Str(s.clone());
        v.push_bdf(out);
        out.push('\n');
        assert(final(out)@ =~= old(out)@ + opt_str(kw@, o.deep_view()));
    } else {
        assert(final(out)@ =~= old(out)@ + opt_str(kw@, o.deep_view()));
    }
}

fn push_opt_int(out: &mut Vec<char>, kw: &str, o: Option<i32>)
    ensures
        final(out)@ == old(out)@ + opt_int(kw@, o),
{
    if let Some(i) = o {
        push_str(out, kw);
        out.push(' ');
        push_signed(out, i as i64);
        out.push('\n');
        assert(final(out)@ =~= old(out)@ + opt_int(kw@, o));
    } else {
        assert(final(out)@ =~= old(out)@ + opt_int(kw@, o));
    }
}

impl Bitmap {
    /// A bitmap of `height` rows of `width` unset pixels.
    pub fn new(width: usize, height: usize) -> (r: Bitmap)
        ensures
            r@ == (BitmapModel {
                width: width as nat,
                height: height as nat,
                rows: Seq::new(height as nat, |i: int| Seq::new(width as nat, |j: int| false)),
            }),
            bitmap_wf(r@),
    {
        let mut data: Vec<BitmapRow> = Vec::new();
        let mut i: usize = 0;
        while i < height
            invariant
                i <= height,
                data@.map_values(|r: BitmapRow| r@) =~= Seq::new(
                    i as nat,
                    |k: int| Seq::new(width as nat, |j: int| false),
                ),
            decreases height - i,
        {
            let row = BitmapRow::unset(width);
            let ghost before = data@.map_values(|r: BitmapRow| r@);
            data.push(row);
            i += 1;
            assert(data@.map_values(|r: BitmapRow| r@) =~= before.push(row@));
            assert(before.push(row@) =~= Seq::new(
                i as nat,
                |k: int| Seq::new(width as nat, |j: int| false),
            ));
        }
        Bitmap { width, height, data }
    }

    /// A bitmap from its rows, which must number `height` and each hold at
    /// least `width` bits.
    pub fn from_rows(width: usize, height: usize, data: Vec<BitmapRow>) -> (r: Bitmap)
        requires
            data@.len() == height,
            rows_cover(data@.map_values(|r: BitmapRow| r@), width as nat),
        ensures
            bitmap_wf(r@),
            r@ == (BitmapModel {
                width: width as nat,
                height: height as nat,
                rows: data@.map_values(|r: BitmapRow| r@),
            }),
    {
        Bitmap { width, height, data }
    }

    pub fn width(&self) -> (r: usize)
        ensures
            r == self@.width,
    {
        self.width
    }

    pub fn height(&self) -> (r: usize)
        ensures
            r == self@.height,
    {
        self.height
    }

    pub fn rows(&self) -> (r: &[BitmapRow])
        ensures
            r@.map_values(|row: BitmapRow| row@) == self@.rows,
    {
        self.data.as_slice()
    }

    /// The pixel at `(x, y)`, or `None` outside the bitmap.
    pub fn get(&self, x: usize, y: usize) -> (r: Option<bool>)
        ensures
            r == pixel(self@, x as int, y as int),
            bitmap_wf(self@) ==> (r is Some <==> (x < self@.width && y < self@.height)),
    {
        if x >= self.width || y >= self.height || y >= self.data.len() {
            None
        } else {
            self.data[y].get(x)
        }
    }

    /// Sets the pixel at `(x, y)`; outside the bitmap nothing changes.
    pub fn set(&mut self, x: usize, y: usize, to: bool)
        ensures
            final(self)@ == if pixel(old(self)@, x as int, y as int) is Some {
                BitmapModel {
                    rows: old(self)@.rows.update(
                        y as int,
                        old(self)@.rows[y as int].update(x as int, to),
                    ),
                    ..old(self)@
                }
            } else {
                old(self)@
            },
            bitmap_wf(old(self)@) ==> bitmap_wf(final(self)@),
            bitmap_wf(old(self)@) && x < old(self)@.width && y < old(self)@.height ==> pixel(
                final(self)@,
                x as int,
                y as int,
            ) == Some(to),
    {
        if x >= self.width || y >= self.height || y >= self.data.len() {
            return;
        }
        let ghost before = self@;
        let mut row = BitmapRow::unset(0);
        self.data.set_and_swap(y, &mut row);
        row.set(x, to);
        self.data.set_and_swap(y, &mut row);
        assert(self@.rows =~= if (x as int) < before.rows[y as int].len() {
            before.rows.update(y as int, before.rows[y as int].update(x as int, to))
        } else {
            before.rows
        });
    }

    /// Appends the `BITMAP` block.
    pub fn push_bdf(&self, out: &mut Vec<char>)
        ensures
            final(out)@ == old(out)@ + bitmap_chars(self@),
    {
        push_str(out, ids::BITMAP);
        out.push('\n');
        let ghost start = out@;
        let ghost f = |r: Seq<bool>| row_chars(r) + seq!['\n'];
        let ghost rows = self@.rows;
        let mut i: usize = 0;
        while i < self.data.len()
            invariant
                i <= self.data@.len(),
                rows == self@.rows,
                rows == self.data@.map_values(|r: BitmapRow| r@),
                f == (|r: Seq<bool>| row_chars(r) + seq!['\n']),
                out@ == start + concat_map(rows.subrange(0, i as int), f),
            decreases self.data.len() - i,
        {
            self.data[i].push_bdf(out);
            out.push('\n');
            proof {
                lemma_concat_map_step(rows, f, i as int);
            }
            i += 1;
            assert(out@ =~= start + concat_map(rows.subrange(0, i as int), f));
        }
        assert(rows.subrange(0, i as int) =~= rows);
        assert(out@ =~= old(out)@ + bitmap_chars(self@));
    }
}

/// One glyph of a font.
#[derive(Debug)]
pub struct Glyph {
    pub name: String,
    pub codepoint: char,
    pub bounding_box: BoundingBox,
    pub bitmap: Bitmap,
    pub metrics: MetricsSet,
    pub scalable_width: Option<XYPair>,
    pub device_width: Option<XYPair>,
    pub scalable_width_alt: Option<XYPair>,
    pub device_width_alt: Option<XYPair>,
    pub vector: Option<XYPair>,
}

pub ghost struct GlyphModel {
    pub name: Seq<char>,
    pub codepoint: char,
    pub bounding_box: BoundingBox,
    pub bitmap: BitmapModel,
    pub metrics: MetricsSet,
    pub scalable_width: Option<XYPair>,
    pub device_width: Option<XYPair>,
    pub scalable_width_alt: Option<XYPair>,
    pub device_width_alt: Option<XYPair>,
    pub vector: Option<XYPair>,
}

impl View for Glyph {
    type V = GlyphModel;

    open spec fn view(&self) -> GlyphModel {
        GlyphModel {
            name: self.name@,
            codepoint: self.codepoint,
            bounding_box: self.bounding_box,
            bitmap: self.bitmap@,
            metrics: self.metrics,
            scalable_width: self.scalable_width,
            device_width: self.device_width,
            scalable_width_alt: self.scalable_width_alt,
            device_width_alt: self.device_width_alt,
            vector: self.vector,
        }
    }
}

/// The error that validating a glyph gives, if any.
pub open spec fn glyph_error(g: GlyphModel) -> Option<ErrorModel> {
    if alt_widths_ok(g.metrics, g.scalable_width_alt, g.device_width_alt) {
        None
    } else if g.metrics == MetricsSet::Normal {
        Some(ErrorModel::GlyphValidation(g.codepoint, NORMAL_GLYPH@))
    } else {
        Some(ErrorModel::GlyphValidation(g.codepoint, ALTERNATE_GLYPH@))
    }
}

/// The glyph's records, `STARTCHAR` to `ENDCHAR`.
pub open spec fn glyph_chars(g: GlyphModel) -> Seq<char> {
    rec(ids::STARTCHAR@, g.name) + rec(ids::ENCODING@, dec_chars(g.codepoint as u32 as nat)) + rec(
        ids::BBX@,
        bbox_chars(g.bounding_box),
    ) + widths_chars(
        g.metrics,
        g.scalable_width,
        g.device_width,
        g.scalable_width_alt,
        g.device_width_alt,
        g.vector,
    ) + bitmap_chars(g.bitmap) + line(ids::ENDCHAR@)
}

impl Glyph {
    /// A glyph with normal metrics and no widths or vector.
    pub fn new(name: &str, codepoint: char, bounding_box: BoundingBox, bitmap: Bitmap) -> (r: Glyph)
        ensures
            r@ == (GlyphModel {
                name: name@,
                codepoint,
                bounding_box,
                bitmap: bitmap@,
                metrics: MetricsSet::Normal,
                scalable_width: None,
                device_width: None,
                scalable_width_alt: None,
                device_width_alt: None,
                vector: None,
            }),
    {
        let cs = chars_of(name);
        Glyph {
            name: string_of(cs.as_slice()),
            codepoint,
            bounding_box,
            bitmap,
            metrics: MetricsSet::Normal,
            scalable_width: None,
            device_width: None,
            scalable_width_alt: None,
            device_width_alt: None,
            vector: None,
        }
    }

    /// Checks that the alternate widths agree with the metrics set.
    pub fn validate(&self) -> (r: Result<(), Error>)
        ensures
            match glyph_error(self@) {
                Some(e) => r matches Err(x) && x@ == e,
                None => r is Ok,
            },
    {
        match self.metrics {
            MetricsSet::Normal => {
                if !(self.scalable_width_alt.is_none() && self.device_width_alt.is_none()) {
                    return Err(Error::GlyphValidation(self.codepoint, NORMAL_GLYPH));
                }
            },
            _ => {
                if !(self.scalable_width_alt.is_some() && self.device_width_alt.is_some()) {
                    return Err(Error::GlyphValidation(self.codepoint, ALTERNATE_GLYPH));
                }
            },
        }
        Ok(())
    }

    /// Appends the glyph's records.
    pub fn push_bdf(&self, out: &mut Vec<char>)
        ensures
            final(out)@ == old(out)@ + glyph_chars(self@),
    {
        let ghost start = out@;
        push_str(out, ids::STARTCHAR);
        out.push(' ');
        let name = chars_of(self.name.as_str());
        push_all(out, name.as_slice());
        out.push('\n');
        push_str(out, ids::ENCODING);
        out.push(' ');
        push_decimal(out, self.codepoint as u32 as u128);
        out.push('\n');
        push_str(out, ids::BBX);
        out.push(' ');
        self.bounding_box.push_bdf(out);
        out.push('\n');
        let ghost a = out@;
        assert(a =~= start + rec(ids::STARTCHAR@, self@.name) + rec(
            ids::ENCODING@,
            dec_chars(self.codepoint as u32 as nat),
        ) + rec(ids::BBX@, bbox_chars(self.bounding_box)));
        push_widths(
            out,
            self.metrics,
            self.scalable_width,
            self.device_width,
            self.scalable_width_alt,
            self.device_width_alt,
            self.vector,
        );
        self.bitmap.push_bdf(out);
        push_str(out, ids::ENDCHAR);
        out.push('\n');
        assert(out@ =~= start + glyph_chars(self@));
    }
}

/// A free-form font property.
#[derive(Clone, Debug)]
pub struct Property {
    pub name: String,
    pub value: PropertyValue,
}

pub ghost struct PropertyModel {
    pub name: Seq<char>,
    pub value: PropValue,
}

impl View for Property {
    type V = PropertyModel;

    open spec fn view(&self) -> PropertyModel {
        PropertyModel { name: self.name@, value: self.value@ }
    }
}

/// The property's record: its name, then its value.
pub open spec fn property_chars(p: PropertyModel) -> Seq<char> {
    rec(p.name, prop_value_chars(p.value))
}

impl Property {
    pub fn new(name: &str, value: &PropertyValue) -> (r: Property)
        ensures
            r@ == (PropertyModel { name: name@, value: value@ }),
    {
        let cs = chars_of(name);
        let value = match value {
            PropertyValue::Str(s) => {
                let v = chars_of(s.as_str());
                PropertyValue::Str(string_of(v.as_slice()))
            },
            PropertyValue::Int(i) => PropertyValue::Int(*i),
        };
        Property { name: string_of(cs.as_slice()), value }
    }

    pub fn push_bdf(&self, out: &mut Vec<char>)
        ensures
            final(out)@ == old(out)@ + property_chars(self@),
    {
        let name = chars_of(self.name.as_str());
        push_all(out, name.as_slice());
        out.push(' ');
        self.value.push_bdf(out);
        out.push('\n');
        assert(final(out)@ =~= old(out)@ + property_chars(self@));
    }
}

/// The XLFD properties that a font names, each optional.
#[derive(Debug)]
pub struct Xlfd {
    pub foundry: Option<String>,
    pub family_name: Option<String>,
    pub weight_name: Option<String>,
    pub slant: Option<String>,
    pub setwidth_name: Option<String>,
    pub add_style_name: Option<String>,
    pub pixel_size: Option<i32>,
    pub point_size: Option<i32>,
    pub resolution_x: Option<i32>,
    pub resolution_y: Option<i32>,
    pub spacing: Option<String>,
    pub average_width: Option<i32>,
    pub charset_registry: Option<String>,
    pub charset_encoding: Option<String>,
}

pub ghost struct XlfdModel {
    pub foundry: Option<Seq<char>>,
    pub family_name: Option<Seq<char>>,
    pub weight_name: Option<Seq<char>>,
    pub slant: Option<Seq<char>>,
    pub setwidth_name: Option<Seq<char>>,
    pub add_style_name: Option<Seq<char>>,
    pub pixel_size: Option<i32>,
    pub point_size: Option<i32>,
    pub resolution_x: Option<i32>,
    pub resolution_y: Option<i32>,
    pub spacing: Option<Seq<char>>,
    pub average_width: Option<i32>,
    pub charset_registry: Option<Seq<char>>,
    pub charset_encoding: Option<Seq<char>>,
}

impl View for Xlfd {
    type V = XlfdModel;

    open spec fn view(&self) -> XlfdModel {
        XlfdModel {
            foundry: self.foundry.deep_view(),
            family_name: self.family_name.deep_view(),
            weight_name: self.weight_name.deep_view(),
            slant: self.slant.deep_view(),
            setwidth_name: self.setwidth_name.deep_view(),
            add_style_name: self.add_style_name.deep_view(),
            pixel_size: self.pixel_size,
            point_size: self.point_size,
            resolution_x: self.resolution_x,
            resolution_y: self.resolution_y,
            spacing: self.spacing.deep_view(),
            average_width: self.average_width,
            charset_registry: self.charset_registry.deep_view(),
            charset_encoding: self.charset_encoding.deep_view(),
        }
    }
}

/// No XLFD field present.
pub open spec fn empty_xlfd() -> XlfdModel {
    XlfdModel {
        foundry: None,
        family_name: None,
        weight_name: None,
        slant: None,
        setwidth_name: None,
        add_style_name: None,
        pixel_size: None,
        point_size: None,
        resolution_x: None,
        resolution_y: None,
        spacing: None,
        average_width: None,
        charset_registry: None,
        charset_encoding: None,
    }
}

/// 1 where the value is present, else 0.
pub open spec fn some_count<T>(o: Option<T>) -> nat {
    if o is Some {
        1
    } else {
        0
    }
}

/// How many XLFD fields are present.
pub open spec fn xlfd_count(x: XlfdModel) -> nat {
    some_count(x.foundry) + some_count(x.family_name) + some_count(x.weight_name) + some_count(
        x.slant,
    ) + some_count(x.setwidth_name) + some_count(x.add_style_name) + some_count(x.pixel_size)
        + some_count(x.point_size) + some_count(x.resolution_x) + some_count(x.resolution_y)
        + some_count(x.spacing) + some_count(x.average_width) + some_count(x.charset_registry)
        + some_count(x.charset_encoding)
}

/// The records of the present XLFD fields, in their fixed order.
pub open spec fn xlfd_chars(x: XlfdModel) -> Seq<char> {
    opt_str(ids::FOUNDRY@, x.foundry) + opt_str(ids::FAMILY_NAME@, x.family_name) + opt_str(
        ids::WEIGHT_NAME@,
        x.weight_name,
    ) + opt_str(ids::SLANT@, x.slant) + opt_str(ids::SETWIDTH_NAME@, x.setwidth_name) + opt_str(
        ids::ADD_STYLE_NAME@,
        x.add_style_name,
    ) + opt_int(ids::PIXEL_SIZE@, x.pixel_size) + opt_int(ids::POINT_SIZE@, x.point_size)
        + opt_int(ids::RESOLUTION_X@, x.resolution_x) + opt_int(
        ids::RESOLUTION_Y@,
        x.resolution_y,
    ) + opt_str(ids::SPACING@, x.spacing) + opt_int(ids::AVERAGE_WIDTH@, x.average_width)
        + opt_str(ids::CHARSET_REGISTRY@, x.charset_registry) + opt_str(
        ids::CHARSET_ENCODING@,
        x.charset_encoding,
    )
}

/// A `-`, then the string where it is present.
pub open spec fn name_str(o: Option<Seq<char>>) -> Seq<char> {
    match o {
        Some(s) => seq!['-'] + s,
        None => seq!['-'],
    }
}

/// A `-`, then the integer where it is present.
pub open spec fn name_int(o: Option<i32>) -> Seq<char> {
    match o {
        Some(i) => seq!['-'] + int_chars(i as int),
        None => seq!['-'],
    }
}

/// The XLFD name: each of the fourteen fields after a `-`, empty where absent.
pub open spec fn xlfd_name(x: XlfdModel) -> Seq<char> {
    name_str(x.foundry) + name_str(x.family_name) + name_str(x.weight_name) + name_str(x.slant)
        + name_str(x.setwidth_name) + name_str(x.add_style_name) + name_int(x.pixel_size)
        + name_int(x.point_size) + name_int(x.resolution_x) + name_int(x.resolution_y) + name_str(
        x.spacing,
    ) + name_int(x.average_width) + name_str(x.charset_registry) + name_str(x.charset_encoding)
}

fn push_name_str(out: &mut Vec<char>, o: &Option<String>)
    ensures
        final(out)@ == old(out)@ + name_str(o.deep_view()),
{
    out.push('-');
    if let Some(s) = o {
        let cs = chars_of(s.as_str());
        push_all(out, cs.as_slice());
    }
    assert(final(out)@ =~= old(out)@ + name_str(o.deep_view()));
}

fn push_name_int(out: &mut Vec<char>, o: Option<i32>)
    ensures
        final(out)@ == old(out)@ + name_int(o),
{
    out.push('-');
    if let Some(i) = o {
        push_signed(out, i as i64);
    }
    assert(final(out)@ =~= old(out)@ + name_int(o));
}

fn count_of<T>(o: &Option<T>) -> (r: u8)
    ensures
        r == some_count(*o),
{
    if o.is_some() {
        1
    } else {
        0
    }
}

impl Xlfd {
    /// No field present.
    pub fn empty() -> (r: Xlfd)
        ensures
            r@ == empty_xlfd(),
    {
        Xlfd {
            foundry: None,
            family_name: None,
            weight_name: None,
            slant: None,
            setwidth_name: None,
            add_style_name: None,
            pixel_size: None,
            point_size: None,
            resolution_x: None,
            resolution_y: None,
            spacing: None,
            average_width: None,
            charset_registry: None,
            charset_encoding: None,
        }
    }

    /// How many fields are present.
    pub fn count(&self) -> (r: u8)
        ensures
            r == xlfd_count(self@),
    {
        count_of(&self.foundry) + count_of(&self.family_name) + count_of(&self.weight_name)
            + count_of(&self.slant) + count_of(&self.setwidth_name) + count_of(
            &self.add_style_name,
        ) + count_of(&self.pixel_size) + count_of(&self.point_size) + count_of(
            &self.resolution_x,
        ) + count_of(&self.resolution_y) + count_of(&self.spacing) + count_of(
            &self.average_width,
        ) + count_of(&self.charset_registry) + count_of(&self.charset_encoding)
    }

    /// The hyphen-delimited XLFD name of the fields.
    #[verifier::spinoff_prover]
    #[verifier::rlimit(60)]
    pub fn to_name(&self) -> (r: String)
        ensures
            r@ == xlfd_name(self@),
    {
        let ghost x = self@;
        let mut out: Vec<char> = Vec::new();
        let ghost mut acc = Seq::<char>::empty();
        push_name_str(&mut out, &self.foundry);
        proof { acc = acc + name_str(x.foundry); assert(out@ =~= acc); }
        push_name_str(&mut out, &self.family_name);
        proof { acc = acc + name_str(x.family_name); assert(out@ =~= acc); }
        push_name_str(&mut out, &self.weight_name);
        proof { acc = acc + name_str(x.weight_name); assert(out@ =~= acc); }
        push_name_str(&mut out, &self.slant);
        proof { acc = acc + name_str(x.slant); assert(out@ =~= acc); }
        push_name_str(&mut out, &self.setwidth_name);
        proof { acc = acc + name_str(x.setwidth_name); assert(out@ =~= acc); }
        push_name_str(&mut out, &self.add_style_name);
        proof { acc = acc + name_str(x.add_style_name); assert(out@ =~= acc); }
        push_name_int(&mut out, self.pixel_size);
        proof { acc = acc + name_int(x.pixel_size); assert(out@ =~= acc); }
        push_name_int(&mut out, self.point_size);
        proof { acc = acc + name_int(x.point_size); assert(out@ =~= acc); }
        push_name_int(&mut out, self.resolution_x);
        proof { acc = acc + name_int(x.resolution_x); assert(out@ =~= acc); }
        push_name_int(&mut out, self.resolution_y);
        proof { acc = acc + name_int(x.resolution_y); assert(out@ =~= acc); }
        push_name_str(&mut out, &self.spacing);
        proof { acc = acc + name_str(x.spacing); assert(out@ =~= acc); }
        push_name_int(&mut out, self.average_width);
        proof { acc = acc + name_int(x.average_width); assert(out@ =~= acc); }
        push_name_str(&mut out, &self.charset_registry);
        proof { acc = acc + name_str(x.charset_registry); assert(out@ =~= acc); }
        push_name_str(&mut out, &self.charset_encoding);
        proof { acc = acc + name_str(x.charset_encoding); assert(out@ =~= acc); }
        assert(acc == xlfd_name(x));
        string_of(out.as_slice())
    }

    /// Appends the records of the present fields.
    #[verifier::spinoff_prover]
    #[verifier::rlimit(60)]
    pub fn push_bdf(&self, out: &mut Vec<char>)
        ensures
            final(out)@ == old(out)@ + xlfd_chars(self@),
    {
        let ghost start = out@;
        let ghost x = self@;
        let ghost mut acc = Seq::<char>::empty();
        push_opt_str(out, ids::FOUNDRY, &self.foundry);
        proof { acc = acc + opt_str(ids::FOUNDRY@, x.foundry); assert(out@ =~= start + acc); }
        push_opt_str(out, ids::FAMILY_NAME, &self.family_name);
        proof { acc = acc + opt_str(ids::FAMILY_NAME@, x.family_name); assert(out@ =~= start + acc); }
        push_opt_str(out, ids::WEIGHT_NAME, &self.weight_name);
        proof { acc = acc + opt_str(ids::WEIGHT_NAME@, x.weight_name); assert(out@ =~= start + acc); }
        push_opt_str(out, ids::SLANT, &self.slant);
        proof { acc = acc + opt_str(ids::SLANT@, x.slant); assert(out@ =~= start + acc); }
        push_opt_str(out, ids::SETWIDTH_NAME, &self.setwidth_name);
        proof { acc = acc + opt_str(ids::SETWIDTH_NAME@, x.setwidth_name); assert(out@ =~= start + acc); }
        push_opt_str(out, ids::ADD_STYLE_NAME, &self.add_style_name);
        proof { acc = acc + opt_str(ids::ADD_STYLE_NAME@, x.add_style_name); assert(out@ =~= start + acc); }
        push_opt_int(out, ids::PIXEL_SIZE, self.pixel_size);
        proof { acc = acc + opt_int(ids::PIXEL_SIZE@, x.pixel_size); assert(out@ =~= start + acc); }
        push_opt_int(out, ids::POINT_SIZE, self.point_size);
        proof { acc = acc + opt_int(ids::POINT_SIZE@, x.point_size); assert(out@ =~= start + acc); }
        push_opt_int(out, ids::RESOLUTION_X, self.resolution_x);
        proof { acc = acc + opt_int(ids::RESOLUTION_X@, x.resolution_x); assert(out@ =~= start + acc); }
        push_opt_int(out, ids::RESOLUTION_Y, self.resolution_y);
        proof { acc = acc + opt_int(ids::RESOLUTION_Y@, x.resolution_y); assert(out@ =~= start + acc); }
        push_opt_str(out, ids::SPACING, &self.spacing);
        proof { acc = acc + opt_str(ids::SPACING@, x.spacing); assert(out@ =~= start + acc); }
        push_opt_int(out, ids::AVERAGE_WIDTH, self.average_width);
        proof { acc = acc + opt_int(ids::AVERAGE_WIDTH@, x.average_width); assert(out@ =~= start + acc); }
        push_opt_str(out, ids::CHARSET_REGISTRY, &self.charset_registry);
        proof { acc = acc + opt_str(ids::CHARSET_REGISTRY@, x.charset_registry); assert(out@ =~= start + acc); }
        push_opt_str(out, ids::CHARSET_ENCODING, &self.charset_encoding);
        proof { acc = acc + opt_str(ids::CHARSET_ENCODING@, x.charset_encoding); assert(out@ =~= start + acc); }
        assert(acc == xlfd_chars(x));
    }
}

/// A validated font.
#[derive(Debug)]
pub struct Font {
    pub bdf_version: String,
    pub name: String,
    pub size: FontSize,
    pub bounding_box: BoundingBox,
    pub metrics: MetricsSet,
    pub comments: Vec<String>,
    pub properties: Vec<Property>,
    pub glyphs: Vec<Glyph>,
    pub content_version: Option<i32>,
    pub scalable_width: Option<XYPair>,
    pub device_width: Option<XYPair>,
    pub scalable_width_alt: Option<XYPair>,
    pub device_width_alt: Option<XYPair>,
    pub vector: Option<XYPair>,
    pub xlfd: Xlfd,
}

pub ghost struct FontModel {
    pub bdf_version: Seq<char>,
    pub name: Seq<char>,
    pub size: FontSize,
    pub bounding_box: BoundingBox,
    pub metrics: MetricsSet,
    pub comments: Seq<Seq<char>>,
    pub properties: Seq<PropertyModel>,
    pub glyphs: Seq<GlyphModel>,
    pub content_version: Option<i32>,
    pub scalable_width: Option<XYPair>,
    pub device_width: Option<XYPair>,
    pub scalable_width_alt: Option<XYPair>,
    pub device_width_alt: Option<XYPair>,
    pub vector: Option<XYPair>,
    pub xlfd: XlfdModel,
}

impl View for Font {
    type V = FontModel;

    open spec fn view(&self) -> FontModel {
        FontModel {
            bdf_version: self.bdf_version@,
            name: self.name@,
            size: self.size,
            bounding_box: self.bounding_box,
            metrics: self.metrics,
            comments: self.comments.deep_view(),
            properties: self.properties@.map_values(|p: Property| p@),
            glyphs: self.glyphs@.map_values(|g: Glyph| g@),
            content_version: self.content_version,
            scalable_width: self.scalable_width,
            device_width: self.device_width,
            scalable_width_alt: self.scalable_width_alt,
            device_width_alt: self.device_width_alt,
            vector: self.vector,
            xlfd: self.xlfd@,
        }
    }
}

/// The error of the first glyph that fails validation.
pub open spec fn first_glyph_error(gs: Seq<GlyphModel>) -> Option<ErrorModel>
    decreases gs.len(),
{
    if gs.len() == 0 {
        None
    } else {
        match glyph_error(gs[0]) {
            Some(e) => Some(e),
            None => first_glyph_error(gs.drop_first()),
        }
    }
}

/// The error that validating a font gives, if any: that of its first
/// failing glyph, else that of its own widths.
pub open spec fn font_error(f: FontModel) -> Option<ErrorModel> {
    match first_glyph_error(f.glyphs) {
        Some(e) => Some(e),
        None => if alt_widths_ok(f.metrics, f.scalable_width_alt, f.device_width_alt) {
            None
        } else if f.metrics == MetricsSet::Normal {
            Some(ErrorModel::FontValidation(NORMAL_FONT@))
        } else {
            Some(ErrorModel::FontValidation(ALTERNATE_FONT@))
        },
    }
}

/// A comment's record.
pub open spec fn comment_chars(c: Seq<char>) -> Seq<char> {
    rec(ids::COMMENT@, c)
}

/// The property block, written where there is at least one XLFD field or
/// property: its count, the XLFD fields, then the properties.
pub open spec fn properties_block(f: FontModel) -> Seq<char> {
    let n = xlfd_count(f.xlfd) + f.properties.len();
    if n > 0 {
        rec(ids::STARTPROPERTIES@, dec_chars(n)) + xlfd_chars(f.xlfd) + concat_map(
            f.properties,
            |p: PropertyModel| property_chars(p),
        ) + line(ids::ENDPROPERTIES@)
    } else {
        Seq::empty()
    }
}

/// The glyph block, written where there is at least one glyph.
pub open spec fn glyphs_block(f: FontModel) -> Seq<char> {
    if f.glyphs.len() > 0 {
        rec(ids::CHARS@, dec_chars(f.glyphs.len())) + concat_map(
            f.glyphs,
            |g: GlyphModel| glyph_chars(g),
        )
    } else {
        Seq::empty()
    }
}

/// The records of the font's header, before the property block.
pub open spec fn header_chars(f: FontModel) -> Seq<char> {
    rec(ids::STARTFONT@, f.bdf_version) + rec(ids::FONT@, f.name) + concat_map(
        f.comments,
        |c: Seq<char>| comment_chars(c),
    ) + opt_int(ids::CONTENTVERSION@, f.content_version) + rec(ids::SIZE@, size_chars(f.size))
        + rec(ids::FONTBOUNDINGBOX@, bbox_chars(f.bounding_box)) + widths_chars(
        f.metrics,
        f.scalable_width,
        f.device_width,
        f.scalable_width_alt,
        f.device_width_alt,
        f.vector,
    )
}

/// The canonical BDF text of a font.
pub open spec fn font_chars(f: FontModel) -> Seq<char> {
    header_chars(f) + properties_block(f) + glyphs_block(f) + line(ids::ENDFONT@)
}

impl Font {
    /// A font of version 2.2 with the given name, size and bounding box, and
    /// nothing else.
    pub fn new(name: &str, size: FontSize, bounding_box: BoundingBox) -> (r: Font)
        ensures
            r@ == (FontModel {
                bdf_version: "2.2"@,
                name: name@,
                size,
                bounding_box,
                metrics: MetricsSet::Normal,
                comments: Seq::empty(),
                properties: Seq::empty(),
                glyphs: Seq::empty(),
                content_version: None,
                scalable_width: None,
                device_width: None,
                scalable_width_alt: None,
                device_width_alt: None,
                vector: None,
                xlfd: empty_xlfd(),
            }),
    {
        let v = chars_of("2.2");
        let n = chars_of(name);
        let comments: Vec<String> = Vec::new();
        let properties: Vec<Property> = Vec::new();
        let glyphs: Vec<Glyph> = Vec::new();
        let r = Font {
            bdf_version: string_of(v.as_slice()),
            name: string_of(n.as_slice()),
            size,
            bounding_box,
            metrics: MetricsSet::Normal,
            comments,
            properties,
            glyphs,
            content_version: None,
            scalable_width: None,
            device_width: None,
            scalable_width_alt: None,
            device_width_alt: None,
            vector: None,
            xlfd: Xlfd::empty(),
        };
        assert(r@.comments =~= Seq::empty());
        assert(r@.properties =~= Seq::empty());
        assert(r@.glyphs =~= Seq::empty());
        r
    }

    /// Checks every glyph, then the font's own alternate widths.
    pub fn validate(&self) -> (r: Result<(), Error>)
        ensures
            match font_error(self@) {
                Some(e) => r matches Err(x) && x@ == e,
                None => r is Ok,
            },
    {
        let ghost gs = self@.glyphs;
        let mut i: usize = 0;
        assert(gs.subrange(0, gs.len() as int) =~= gs);
        while i < self.glyphs.len()
            invariant
                i <= self.glyphs@.len(),
                gs == self@.glyphs,
                gs.len() == self.glyphs@.len(),
                first_glyph_error(gs) == first_glyph_error(gs.subrange(i as int, gs.len() as int)),
            decreases self.glyphs.len() - i,
        {
            let ghost rest = gs.subrange(i as int, gs.len() as int);
            assert(rest[0] == self.glyphs@[i as int]@);
            assert(rest.drop_first() == gs.subrange(i + 1, gs.len() as int));
            match self.glyphs[i].validate() {
                Ok(()) => {},
                Err(e) => {
                    return Err(e);
                },
            }
            i += 1;
        }
        assert(gs.subrange(i as int, gs.len() as int) =~= Seq::<GlyphModel>::empty());
        match self.metrics {
            MetricsSet::Normal => {
                if !(self.scalable_width_alt.is_none() && self.device_width_alt.is_none()) {
                    return Err(Error::FontValidation(NORMAL_FONT));
                }
            },
            _ => {
                if !(self.scalable_width_alt.is_some() && self.device_width_alt.is_some()) {
                    return Err(Error::FontValidation(ALTERNATE_FONT));
                }
            },
        }
        Ok(())
    }

    fn push_header(&self, out: &mut Vec<char>)
        ensures
            final(out)@ == old(out)@ + header_chars(self@),
    {
        let ghost start = out@;
        push_str(out, ids::STARTFONT);
        out.push(' ');
        let v = chars_of(self.bdf_version.as_str());
        push_all(out, v.as_slice());
        out.push('\n');
        push_str(out, ids::FONT);
        out.push(' ');
        let n = chars_of(self.name.as_str());
        push_all(out, n.as_slice());
        out.push('\n');
        let ghost a = out@;
        assert(a =~= start + rec(ids::STARTFONT@, self@.bdf_version) + rec(ids::FONT@, self@.name));
        let ghost cs = self@.comments;
        let ghost f = |c: Seq<char>| comment_chars(c);
        let mut i: usize = 0;
        while i < self.comments.len()
            invariant
                i <= self.comments@.len(),
                cs == self@.comments,
                cs.len() == self.comments@.len(),
                f == (|c: Seq<char>| comment_chars(c)),
                out@ == a + concat_map(cs.subrange(0, i as int), f),
            decreases self.comments.len() - i,
        {
            push_str(out, ids::COMMENT);
            out.push(' ');
            let c = chars_of(self.comments[i].as_str());
            push_all(out, c.as_slice());
            out.push('\n');
            proof {
                lemma_concat_map_step(cs, f, i as int);
                assert(cs[i as int] == self.comments@[i as int]@);
            }
            i += 1;
            assert(out@ =~= a + concat_map(cs.subrange(0, i as int), f));
        }
        assert(cs.subrange(0, i as int) =~= cs);
        let ghost b = out@;
        push_opt_int(out, ids::CONTENTVERSION, self.content_version);
        push_str(out, ids::SIZE);
        out.push(' ');
        self.size.push_bdf(out);
        out.push('\n');
        push_str(out, ids::FONTBOUNDINGBOX);
        out.push(' ');
        self.bounding_box.push_bdf(out);
        out.push('\n');
        let ghost c = out@;
        assert(c =~= b + opt_int(ids::CONTENTVERSION@, self.content_version) + rec(
            ids::SIZE@,
            size_chars(self.size),
        ) + rec(ids::FONTBOUNDINGBOX@, bbox_chars(self.bounding_box)));
        push_widths(
            out,
            self.metrics,
            self.scalable_width,
            self.device_width,
            self.scalable_width_alt,
            self.device_width_alt,
            self.vector,
        );
        assert(out@ =~= start + header_chars(self@));
    }

    #[verifier::spinoff_prover]
    fn push_properties(&self, out: &mut Vec<char>)
        ensures
            final(out)@ == old(out)@ + properties_block(self@),
    {
        let xc = self.xlfd.count();
        if xc == 0 && self.properties.len() == 0 {
            return;
        }
        let ghost start = out@;
        push_str(out, ids::STARTPROPERTIES);
        out.push(' ');
        push_decimal(out, self.properties.len() as u128 + xc as u128);
        out.push('\n');
        self.xlfd.push_bdf(out);
        let ghost a = out@;
        let ghost n = xlfd_count(self@.xlfd) + self@.properties.len();
        assert(a =~= start + rec(ids::STARTPROPERTIES@, dec_chars(n)) + xlfd_chars(self@.xlfd));
        let ghost ps = self@.properties;
        let ghost f = |p: PropertyModel| property_chars(p);
        let mut i: usize = 0;
        while i < self.properties.len()
            invariant
                i <= self.properties@.len(),
                ps == self@.properties,
                ps.len() == self.properties@.len(),
                f == (|p: PropertyModel| property_chars(p)),
                out@ == a + concat_map(ps.subrange(0, i as int), f),
            decreases self.properties.len() - i,
        {
            self.properties[i].push_bdf(out);
            proof {
                lemma_concat_map_step(ps, f, i as int);
            }
            i += 1;
            assert(out@ =~= a + concat_map(ps.subrange(0, i as int), f));
        }
        assert(ps.subrange(0, i as int) =~= ps);
        push_str(out, ids::ENDPROPERTIES);
        out.push('\n');
        assert(out@ =~= start + (rec(ids::STARTPROPERTIES@, dec_chars(n)) + xlfd_chars(self@.xlfd)
            + concat_map(ps, f) + line(ids::ENDPROPERTIES@)));
    }

    fn push_glyphs(&self, out: &mut Vec<char>)
        ensures
            final(out)@ == old(out)@ + glyphs_block(self@),
    {
        if self.glyphs.len() == 0 {
            return;
        }
        let ghost start = out@;
        push_str(out, ids::CHARS);
        out.push(' ');
        push_decimal(out, self.glyphs.len() as u128);
        out.push('\n');
        let ghost a = out@;
        let ghost gs = self@.glyphs;
        let ghost f = |g: GlyphModel| glyph_chars(g);
        let mut i: usize = 0;
        while i < self.glyphs.len()
            invariant
                i <= self.glyphs@.len(),
                gs == self@.glyphs,
                gs.len() == self.glyphs@.len(),
                f == (|g: GlyphModel| glyph_chars(g)),
                out@ == a + concat_map(gs.subrange(0, i as int), f),
            decreases self.glyphs.len() - i,
        {
            self.glyphs[i].push_bdf(out);
            proof {
                lemma_concat_map_step(gs, f, i as int);
            }
            i += 1;
            assert(out@ =~= a + concat_map(gs.subrange(0, i as int), f));
        }
        assert(gs.subrange(0, i as int) =~= gs);
        assert(out@ =~= start + glyphs_block(self@));
    }

    /// Appends the font's canonical BDF text, valid or not.
    pub fn push_bdf(&self, out: &mut Vec<char>)
        ensures
            final(out)@ == old(out)@ + font_chars(self@),
    {
        let ghost start = out@;
        self.push_header(out);
        self.push_properties(out);
        self.push_glyphs(out);
        push_str(out, ids::ENDFONT);
        out.push('\n');
        assert(out@ =~= start + font_chars(self@));
    }

    /// The font's canonical BDF text; a font that fails validation is
    /// refused with the validation error.
    pub fn to_bdf(&self) -> (r: Result<String, Error>)
        ensures
            match font_error(self@) {
                Some(e) => r matches Err(x) && x@ == e,
                None => r matches Ok(s) && s@ == font_chars(self@),
            },
    {
        match self.validate() {
            Err(e) => Err(e),
            Ok(()) => {
                let mut out: Vec<char> = Vec::new();
                self.push_bdf(&mut out);
                assert(out@ =~= font_chars(self@));
                Ok(string_of(out.as_slice()))
            },
        }
    }
}

} // verus!
