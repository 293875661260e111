//! The value grammar: the typed arguments of BDF records, how they are read
//! from a record's argument text and how they are written back.
use vstd::prelude::*;

use crate::error::Error;
use crate::text::{
    chars_of, string_of,
    dec_chars, i32_of, int_chars, parse_i32, parse_u32, push_decimal, push_signed, split_words,
    u32_of, words,
};

verus! {

pub const XY_SHAPE: &'static str = "X:integer Y:integer";

pub const METRICS_SHAPE: &'static str = "N:integer(0, 1 or 2)";

pub const BBOX_SHAPE: &'static str = "W:integer H:integer X:integer Y:integer";

pub const SIZE_SHAPE: &'static str = "PT:number X:number Y:number";

pub const PROPERTY_SHAPE: &'static str = "s:\"string\"|i:integer";

pub const ROW_SHAPE: &'static str = "bytestring";

/// A two-axis metric: a scalable or device width, or a vector.
#[derive(Copy, Clone, Debug, PartialEq, Eq, Structural)]
pub struct XYPair {
    pub x: u32,
    pub y: u32,
}

/// `X Y`: exactly two unsigned integers.
pub open spec fn xy_of(s: Seq<char>) -> Option<XYPair> {
    let w = words(s);
    if w.len() == 2 {
        match (u32_of(w[0]), u32_of(w[1])) {
            (Some(x), Some(y)) => Some(XYPair { x, y }),
            _ => None,
        }
    } else {
        None
    }
}

/// The canonical text of a pair: `X Y`.
pub open spec fn xy_chars(p: XYPair) -> Seq<char> {
    dec_chars(p.x as nat) + seq![' '] + dec_chars(p.y as nat)
}

impl XYPair {
    pub fn new(x: u32, y: u32) -> (r: Self)
        ensures
            r == (XYPair { x, y }),
    {
        XYPair { x, y }
    }

    /// The shape that a parse error reports.
    pub fn desired() -> (r: &'static str)
        ensures
            r == XY_SHAPE,
    {
        XY_SHAPE
    }

    /// Reads `X Y` from a record's argument text.
    pub fn parse_chars(s: &[char]) -> (r: Option<XYPair>)
        ensures
            r == xy_of(s@),
    {
        let w = split_words(s);
        proof {
            assert(w@.map_values(|v: Vec<char>| v@).len() == w@.len());
        }
        if w.len() != 2 {
            return None;
        }
        proof {
            assert(w@.map_values(|v: Vec<char>| v@)[0] == w@[0]@);
            assert(w@.map_values(|v: Vec<char>| v@)[1] == w@[1]@);
        }
        let x = parse_u32(w[0].as_slice());
        let y = parse_u32(w[1].as_slice());
        match (x, y) {
            (Some(x), Some(y)) => Some(XYPair { x, y }),
            _ => None,
        }
    }

    /// Appends the canonical text `X Y`.
    pub fn push_bdf(&self, out: &mut Vec<char>)
        ensures
            final(out)@ == old(out)@ + xy_chars(*self),
    {
        push_decimal(out, self.x as u128);
        out.push(' ');
        push_decimal(out, self.y as u128);
        assert(final(out)@ =~= old(out)@ + xy_chars(*self));
    }

    /// Reads the value from a record's argument text.
    pub fn from_bdf(s: &str) -> (r: Result<XYPair, Error>)
        ensures
            match xy_of(s@) {
                Some(v) => r == Ok::<XYPair, Error>(v),
                None => r matches Err(e) && e@ == Error::ParseError(XY_SHAPE)@,
            },
    {
        let cs = chars_of(s);
        match XYPair::parse_chars(cs.as_slice()) {
            Some(v) => Ok(v),
            None => Err(Error::ParseError(XY_SHAPE)),
        }
    }

    /// The canonical text of the value.
    pub fn to_bdf(&self) -> (r: String)
        ensures
            r@ == xy_chars(*self),
    {
        let mut out: Vec<char> = Vec::new();
        self.push_bdf(&mut out);
        assert(out@ =~= xy_chars(*self));
        string_of(out.as_slice())
    }
}

/// Which width metrics a font or glyph carries.
#[derive(Copy, Clone, Debug, PartialEq, Eq, Structural)]
pub enum MetricsSet {
    Normal,
    Alternate,
    Both,
}

/// The earlier name of [`MetricsSet`].
pub type WritingMetrics = MetricsSet;

/// One integer: 0, 1 or 2.
pub open spec fn metrics_of(s: Seq<char>) -> Option<MetricsSet> {
    match i32_of(s) {
        Some(0i32) => Some(MetricsSet::Normal),
        Some(1i32) => Some(MetricsSet::Alternate),
        Some(2i32) => Some(MetricsSet::Both),
        _ => None,
    }
}

/// The integer that encodes a metrics set.
pub open spec fn metrics_code(m: MetricsSet) -> nat {
    match m {
        MetricsSet::Normal => 0,
        MetricsSet::Alternate => 1,
        MetricsSet::Both => 2,
    }
}

impl MetricsSet {
    pub fn desired() -> (r: &'static str)
        ensures
            r == METRICS_SHAPE,
    {
        METRICS_SHAPE
    }

    pub fn parse_chars(s: &[char]) -> (r: Option<MetricsSet>)
        ensures
            r == metrics_of(s@),
    {
        match parse_i32(s) {
            Some(0) => Some(MetricsSet::Normal),
            Some(1) => Some(MetricsSet::Alternate),
            Some(2) => Some(MetricsSet::Both),
            _ => None,
        }
    }

    /// The integer that encodes this set.
    pub fn code(&self) -> (r: u8)
        ensures
            r == metrics_code(*self),
    {
        match self {
            MetricsSet::Normal => 0,
            MetricsSet::Alternate => 1,
            MetricsSet::Both => 2,
        }
    }

    pub fn push_bdf(&self, out: &mut Vec<char>)
        ensures
            final(out)@ == old(out)@ + dec_chars(metrics_code(*self)),
    {
        push_decimal(out, self.code() as u128);
    }

    /// Reads the value from a record's argument text.
    pub fn from_bdf(s: &str) -> (r: Result<MetricsSet, Error>)
        ensures
            match metrics_of(s@) {
                Some(v) => r == Ok::<MetricsSet, Error>(v),
                None => r matches Err(e) && e@ == Error::ParseError(METRICS_SHAPE)@,
            },
    {
        let cs = chars_of(s);
        match MetricsSet::parse_chars(cs.as_slice()) {
            Some(v) => Ok(v),
            None => Err(Error::ParseError(METRICS_SHAPE)),
        }
    }

    /// The canonical text of the value.
    pub fn to_bdf(&self) -> (r: String)
        ensures
            r@ == dec_chars(metrics_code(*self)),
    {
        let mut out: Vec<char> = Vec::new();
        self.push_bdf(&mut out);
        assert(out@ =~= dec_chars(metrics_code(*self)));
        string_of(out.as_slice())
    }
}

/// A pixel extent and the offset of its origin.
#[derive(Copy, Clone, Debug, PartialEq, Eq, Structural)]
pub struct BoundingBox {
    pub width: u32,
    pub height: u32,
    pub x_offset: i32,
    pub y_offset: i32,
}

/// `W H X Y`: two unsigned and two signed integers.
pub open spec fn bbox_of(s: Seq<char>) -> Option<BoundingBox> {
    let w = words(s);
    if w.len() == 4 {
        match (u32_of(w[0]), u32_of(w[1]), i32_of(w[2]), i32_of(w[3])) {
            (Some(width), Some(height), Some(x_offset), Some(y_offset)) => Some(
                BoundingBox { width, height, x_offset, y_offset },
            ),
            _ => None,
        }
    } else {
        None
    }
}

/// The canonical text of a bounding box: `W H X Y`.
pub open spec fn bbox_chars(b: BoundingBox) -> Seq<char> {
    dec_chars(b.width as nat) + seq![' '] + dec_chars(b.height as nat) + seq![' '] + int_chars(
        b.x_offset as int,
    ) + seq![' '] + int_chars(b.y_offset as int)
}

impl BoundingBox {
    pub fn new(width: u32, height: u32, x_offset: i32, y_offset: i32) -> (r: Self)
        ensures
            r == (BoundingBox { width, height, x_offset, y_offset }),
    {
        BoundingBox { width, height, x_offset, y_offset }
    }

    pub fn desired() -> (r: &'static str)
        ensures
            r == BBOX_SHAPE,
    {
        BBOX_SHAPE
    }

    pub fn parse_chars(s: &[char]) -> (r: Option<BoundingBox>)
        ensures
            r == bbox_of(s@),
    {
        let w = split_words(s);
        proof {
            assert(w@.map_values(|v: Vec<char>| v@).len() == w@.len());
        }
        if w.len() != 4 {
            return None;
        }
        proof {
            assert(w@.map_values(|v: Vec<char>| v@)[0] == w@[0]@);
            assert(w@.map_values(|v: Vec<char>| v@)[1] == w@[1]@);
            assert(w@.map_values(|v: Vec<char>| v@)[2] == w@[2]@);
            assert(w@.map_values(|v: Vec<char>| v@)[3] == w@[3]@);
        }
        let width = parse_u32(w[0].as_slice());
        let height = parse_u32(w[1].as_slice());
        let x_offset = parse_i32(w[2].as_slice());
        let y_offset = parse_i32(w[3].as_slice());
        match (width, height, x_offset, y_offset) {
            (Some(width), Some(height), Some(x_offset), Some(y_offset)) => Some(
                BoundingBox { width, height, x_offset, y_offset },
            ),
            _ => None,
        }
    }

    pub fn push_bdf(&self, out: &mut Vec<char>)
        ensures
            final(out)@ == old(out)@ + bbox_chars(*self),
    {
        push_decimal(out, self.width as u128);
        out.push(' ');
        push_decimal(out, self.height as u128);
        out.push(' ');
        push_signed(out, self.x_offset as i64);
        out.push(' ');
        push_signed(out, self.y_offset as i64);
        assert(final(out)@ =~= old(out)@ + bbox_chars(*self));
    }

    /// Reads the value from a record's argument text.
    pub fn from_bdf(s: &str) -> (r: Result<BoundingBox, Error>)
        ensures
            match bbox_of(s@) {
                Some(v) => r == Ok::<BoundingBox, Error>(v),
                None => r matches Err(e) && e@ == Error::ParseError(BBOX_SHAPE)@,
            },
    {
        let cs = chars_of(s);
        match BoundingBox::parse_chars(cs.as_slice()) {
            Some(v) => Ok(v),
            None => Err(Error::ParseError(BBOX_SHAPE)),
        }
    }

    /// The canonical text of the value.
    pub fn to_bdf(&self) -> (r: String)
        ensures
            r@ == bbox_chars(*self),
    {
        let mut out: Vec<char> = Vec::new();
        self.push_bdf(&mut out);
        assert(out@ =~= bbox_chars(*self));
        string_of(out.as_slice())
    }
}

/// The nominal size of a font.
#[derive(Copy, Clone, Debug, PartialEq, Eq, Structural)]
pub struct FontSize {
    pub point_size: u32,
    pub x_dpi: u32,
    pub y_dpi: u32,
}

/// `PT X Y`: three unsigned integers.
pub open spec fn size_of(s: Seq<char>) -> Option<FontSize> {
    let w = words(s);
    if w.len() == 3 {
        match (u32_of(w[0]), u32_of(w[1]), u32_of(w[2])) {
            (Some(point_size), Some(x_dpi), Some(y_dpi)) => Some(
                FontSize { point_size, x_dpi, y_dpi },
            ),
            _ => None,
        }
    } else {
        None
    }
}

/// The canonical text of a size: `PT X Y`.
pub open spec fn size_chars(z: FontSize) -> Seq<char> {
    dec_chars(z.point_size as nat) + seq![' '] + dec_chars(z.x_dpi as nat) + seq![' ']
        + dec_chars(z.y_dpi as nat)
}

impl FontSize {
    pub fn new(point_size: u32, x_dpi: u32, y_dpi: u32) -> (r: Self)
        ensures
            r == (FontSize { point_size, x_dpi, y_dpi }),
    {
        FontSize { point_size, x_dpi, y_dpi }
    }

    pub fn desired() -> (r: &'static str)
        ensures
            r == SIZE_SHAPE,
    {
        SIZE_SHAPE
    }

    pub fn parse_chars(s: &[char]) -> (r: Option<FontSize>)
        ensures
            r == size_of(s@),
    {
        let w = split_words(s);
        proof {
            assert(w@.map_values(|v: Vec<char>| v@).len() == w@.len());
        }
        if w.len() != 3 {
            return None;
        }
        proof {
            assert(w@.map_values(|v: Vec<char>| v@)[0] == w@[0]@);
            assert(w@.map_values(|v: Vec<char>| v@)[1] == w@[1]@);
            assert(w@.map_values(|v: Vec<char>| v@)[2] == w@[2]@);
        }
        let p = parse_u32(w[0].as_slice());
        let x = parse_u32(w[1].as_slice());
        let y = parse_u32(w[2].as_slice());
        match (p, x, y) {
            (Some(point_size), Some(x_dpi), Some(y_dpi)) => Some(
                FontSize { point_size, x_dpi, y_dpi },
            ),
            _ => None,
        }
    }

    pub fn push_bdf(&self, out: &mut Vec<char>)
        ensures
            final(out)@ == old(out)@ + size_chars(*self),
    {
        push_decimal(out, self.point_size as u128);
        out.push(' ');
        push_decimal(out, self.x_dpi as u128);
        out.push(' ');
        push_decimal(out, self.y_dpi as u128);
        assert(final(out)@ =~= old(out)@ + size_chars(*self));
    }

    /// Reads the value from a record's argument text.
    pub fn from_bdf(s: &str) -> (r: Result<FontSize, Error>)
        ensures
            match size_of(s@) {
                Some(v) => r == Ok::<FontSize, Error>(v),
                None => r matches Err(e) && e@ == Error::ParseError(SIZE_SHAPE)@,
            },
    {
        let cs = chars_of(s);
        match FontSize::parse_chars(cs.as_slice()) {
            Some(v) => Ok(v),
            None => Err(Error::ParseError(SIZE_SHAPE)),
        }
    }

    /// The canonical text of the value.
    pub fn to_bdf(&self) -> (r: String)
        ensures
            r@ == size_chars(*self),
    {
        let mut out: Vec<char> = Vec::new();
        self.push_bdf(&mut out);
        assert(out@ =~= size_chars(*self));
        string_of(out.as_slice())
    }
}

/// The value of a property: a string or an integer.
#[derive(Clone, Debug)]
pub enum PropertyValue {
    Str(String),
    Int(i32),
}

/// The mathematical value of a [`PropertyValue`].
pub ghost enum PropValue {
    Str(Seq<char>),
    Int(i32),
}

impl View for PropertyValue {
    type V = PropValue;

    open spec fn view(&self) -> PropValue {
        match self {
            PropertyValue::Str(s) => PropValue::Str(s@),
            PropertyValue::Int(i) => PropValue::Int(*i),
        }
    }
}

/// `s` with each `"` written twice.
pub open spec fn double_quotes(s: Seq<char>) -> Seq<char>
    decreases s.len(),
{
    if s.len() == 0 {
        Seq::empty()
    } else {
        (if s[0] == '"' {
            seq!['"', '"']
        } else {
            seq![s[0]]
        }) + double_quotes(s.drop_first())
    }
}

/// `s` with each `""`, read from the left, taken as one `"`.
pub open spec fn undouble_quotes(s: Seq<char>) -> Seq<char>
    decreases s.len(),
{
    if s.len() == 0 {
        Seq::empty()
    } else if s.len() >= 2 && s[0] == '"' && s[1] == '"' {
        seq!['"'] + undouble_quotes(s.subrange(2, s.len() as int))
    } else {
        seq![s[0]] + undouble_quotes(s.drop_first())
    }
}

/// The index of the last `c` in `s`.
pub open spec fn last_index_of(s: Seq<char>, c: char) -> Option<int>
    decreases s.len(),
{
    if s.len() == 0 {
        None
    } else if s.last() == c {
        Some(s.len() - 1)
    } else {
        last_index_of(s.drop_last(), c)
    }
}

/// A quoted string, whose closing quote is the last `"` after the opening
/// one, or else a signed integer.
pub open spec fn prop_value_of(s: Seq<char>) -> Option<PropValue> {
    if s.len() > 0 && s[0] == '"' {
        let r = s.drop_first();
        match last_index_of(r, '"') {
            Some(n) => Some(PropValue::Str(undouble_quotes(r.subrange(0, n)))),
            None => None,
        }
    } else {
        match i32_of(s) {
            Some(i) => Some(PropValue::Int(i)),
            None => None,
        }
    }
}

/// A string in quotes, its own quotes doubled.
pub open spec fn quoted_chars(s: Seq<char>) -> Seq<char> {
    seq!['"'] + double_quotes(s) + seq!['"']
}

/// The canonical text of a property value.
pub open spec fn prop_value_chars(v: PropValue) -> Seq<char> {
    match v {
        PropValue::Str(s) => quoted_chars(s),
        PropValue::Int(i) => int_chars(i as int),
    }
}

/// Undoing the doubling of quotes gives the string back.
pub proof fn lemma_undouble_double(s: Seq<char>)
    ensures
        undouble_quotes(double_quotes(s)) == s,
    decreases s.len(),
{
    if s.len() > 0 {
        let d = double_quotes(s);
        let rest = double_quotes(s.drop_first());
        lemma_undouble_double(s.drop_first());
        if s[0] == '"' {
            assert(d == seq!['"', '"'] + rest);
            assert(d.subrange(2, d.len() as int) == rest);
            assert(s == seq!['"'] + s.drop_first());
        } else {
            assert(d == seq![s[0]] + rest);
            assert(d.drop_first() == rest);
            assert(s == seq![s[0]] + s.drop_first());
        }
    }
}

proof fn lemma_double_no_trailing_lone(s: Seq<char>)
    ensures
        last_index_of(double_quotes(s) + seq!['"'], '"') == Some(double_quotes(s).len() as int),
{
    let t = double_quotes(s) + seq!['"'];
    assert(t.last() == '"');
}

/// A string value, written and read again, is the same string.
pub proof fn lemma_quote_round_trip(s: Seq<char>)
    ensures
        prop_value_of(quoted_chars(s)) == Some(PropValue::Str(s)),
{
    let q = quoted_chars(s);
    let r = q.drop_first();
    assert(r == double_quotes(s) + seq!['"']);
    lemma_double_no_trailing_lone(s);
    assert(r.subrange(0, double_quotes(s).len() as int) == double_quotes(s));
    lemma_undouble_double(s);
}

/// Appends `s` with each `"` doubled.
fn push_doubled(out: &mut Vec<char>, s: &[char])
    ensures
        final(out)@ == old(out)@ + double_quotes(s@),
{
    let mut i: usize = 0;
    assert(s@.subrange(0, s.len() as int) =~= s@);
    while i < s.len()
        invariant
            i <= s.len(),
            out@ + double_quotes(s@.subrange(i as int, s.len() as int)) == old(out)@
                + double_quotes(s@),
        decreases s.len() - i,
    {
        let ghost rest = s@.subrange(i as int, s.len() as int);
        assert(rest.drop_first() == s@.subrange(i + 1, s.len() as int));
        if s[i] == '"' {
            out.push('"');
            out.push('"');
        } else {
            out.push(s[i]);
        }
        i += 1;
        assert(out@ + double_quotes(s@.subrange(i as int, s.len() as int)) =~= old(out)@
            + double_quotes(s@));
    }
    assert(s@.subrange(i as int, s.len() as int) =~= Seq::<char>::empty());
    assert(out@ =~= old(out)@ + double_quotes(s@));
}

/// `undouble_quotes(s[start..end])`.
fn undoubled(s: &[char], start: usize, end: usize) -> (r: Vec<char>)
    requires
        start <= end <= s.len(),
    ensures
        r@ == undouble_quotes(s@.subrange(start as int, end as int)),
{
    let mut r: Vec<char> = Vec::new();
    let mut i: usize = start;
    while i < end
        invariant
            start <= i <= end <= s.len(),
            r@ + undouble_quotes(s@.subrange(i as int, end as int)) == undouble_quotes(
                s@.subrange(start as int, end as int),
            ),
        decreases end - i,
    {
        let ghost rest = s@.subrange(i as int, end as int);
        if i + 1 < end && s[i] == '"' && s[i + 1] == '"' {
            assert(rest.subrange(2, rest.len() as int) == s@.subrange(i + 2, end as int));
            r.push('"');
            i += 2;
        } else {
            assert(rest.drop_first() == s@.subrange(i + 1, end as int));
            r.push(s[i]);
            i += 1;
        }
        assert(r@ + undouble_quotes(s@.subrange(i as int, end as int)) =~= undouble_quotes(
            s@.subrange(start as int, end as int),
        ));
    }
    assert(s@.subrange(i as int, end as int) =~= Seq::<char>::empty());
    assert(r@ =~= r@ + undouble_quotes(s@.subrange(i as int, end as int)));
    r
}

/// The index of the last `"` in `s[from..]`, counted from `from`.
fn last_quote(s: &[char], from: usize) -> (r: Option<usize>)
    requires
        from <= s.len(),
    ensures
        r matches Some(n) ==> from + n < s.len() && last_index_of(
            s@.subrange(from as int, s.len() as int),
            '"',
        ) == Some(n as int),
        r is None ==> last_index_of(s@.subrange(from as int, s.len() as int), '"') is None,
{
    let mut j: usize = s.len();
    while j > from
        invariant
            from <= j <= s.len(),
            last_index_of(s@.subrange(from as int, s.len() as int), '"') == last_index_of(
                s@.subrange(from as int, j as int),
                '"',
            ),
        decreases j,
    {
        let ghost t = s@.subrange(from as int, j as int);
        assert(t.last() == s@[j - 1]);
        assert(t.drop_last() == s@.subrange(from as int, j - 1));
        if s[j - 1] == '"' {
            return Some(j - 1 - from);
        }
        j -= 1;
    }
    None
}

impl PropertyValue {
    pub fn desired() -> (r: &'static str)
        ensures
            r == PROPERTY_SHAPE,
    {
        PROPERTY_SHAPE
    }

    pub fn parse_chars(s: &[char]) -> (r: Option<PropertyValue>)
        ensures
            match prop_value_of(s@) {
                Some(v) => r matches Some(p) && p@ == v,
                None => r is None,
            },
    {
        if s.len() > 0 && s[0] == '"' {
            assert(s@.drop_first() == s@.subrange(1, s.len() as int));
            match last_quote(s, 1) {
                Some(n) => {
                    let body = undoubled(s, 1, 1 + n);
                    assert(s@.drop_first().subrange(0, n as int) == s@.subrange(1, 1 + n));
                    Some(PropertyValue::Str(crate::text::string_of(body.as_slice())))
                },
                None => None,
            }
        } else {
            match parse_i32(s) {
                Some(i) => Some(PropertyValue::Int(i)),
                None => None,
            }
        }
    }

    /// Appends the canonical text: a quoted string with its quotes doubled, or
    /// the integer.
    pub fn push_bdf(&self, out: &mut Vec<char>)
        ensures
            final(out)@ == old(out)@ + prop_value_chars(self@),
    {
        match self {
            PropertyValue::Str(s) => {
                let cs = crate::text::chars_of(s.as_str());
                out.push('"');
                push_doubled(out, cs.as_slice());
                out.push('"');
                assert(final(out)@ =~= old(out)@ + prop_value_chars(self@));
            },
            PropertyValue::Int(i) => {
                push_signed(out, *i as i64);
            },
        }
    }

    /// Reads a property value from a record's argument text.
    pub fn from_bdf(s: &str) -> (r: Result<PropertyValue, Error>)
        ensures
            match prop_value_of(s@) {
                Some(v) => r matches Ok(p) && p@ == v,
                None => r matches Err(e) && e@ == Error::ParseError(PROPERTY_SHAPE)@,
            },
    {
        let cs = chars_of(s);
        match PropertyValue::parse_chars(cs.as_slice()) {
            Some(v) => Ok(v),
            None => Err(Error::ParseError(PROPERTY_SHAPE)),
        }
    }

    /// The canonical text of the value.
    pub fn to_bdf(&self) -> (r: String)
        ensures
            r@ == prop_value_chars(self@),
    {
        let mut out: Vec<char> = Vec::new();
        self.push_bdf(&mut out);
        assert(out@ =~= prop_value_chars(self@));
        string_of(out.as_slice())
    }
}

} // verus!
