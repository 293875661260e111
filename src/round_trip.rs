//! Writing a font and reading the text back: the lines that the writer
//! produces, how the parser reads each of them, and the font that results.
use vstd::prelude::*;

use crate::ids;
use crate::laws::{
    lemma_bbox_round_trip, lemma_bytes_to_bits, lemma_dec_chars, lemma_hex_chars,
    lemma_i32_round_trip, lemma_int_chars, lemma_metrics_round_trip, lemma_row_round_trip,
    lemma_size_round_trip, lemma_u32_round_trip, lemma_xy_round_trip,
};
use crate::model::{
    alt_widths_ok, opt_str, comment_chars, empty_xlfd, font_chars, font_error, glyph_chars, glyph_error,
    glyphs_block, header_chars, opt_int, opt_xy, properties_block, rec, widths_chars,
    BitmapModel, FontModel, GlyphModel, PropertyModel, XlfdModel,
};
use crate::parser::{
    parse_wf,
    property_record, xlfd_with_int, xlfd_with_str,
    bitmap_start, count_nonblank, encoding_of, finish, glyph_draft_error, glyph_record, initial,
    last_glyph, line_step, new_glyph, parse_spec, record_step, run, run_from, split_lines,
    split_record, step, with_last_glyph, FontDraft, GlyphDraft, ParseModel, ParseState,
};
use crate::text::{
    all_ws, concat_map, dec_chars, first_ws, int_chars, is_ws, lead_ws, trail_ws, trim, u32_of,
};
use crate::values::{
    prop_value_of, PropValue,
    bbox_chars, bbox_of, metrics_code, metrics_of, size_chars, xy_chars, xy_of, MetricsSet,
    XYPair,
};

verus! {

/// The text of lines, each followed by `\n`.
pub open spec fn join_lines(ls: Seq<Seq<char>>) -> Seq<char>
    decreases ls.len(),
{
    if ls.len() == 0 {
        Seq::empty()
    } else {
        join_lines(ls.drop_last()) + ls.last() + seq!['\n']
    }
}

/// Whether `s` holds no line break.
pub open spec fn no_newline(s: Seq<char>) -> bool {
    forall|i: int| 0 <= i < s.len() ==> s[i] != '\n'
}

/// A keyword: not empty, without whitespace.
pub open spec fn word_ok(s: Seq<char>) -> bool {
    s.len() > 0 && forall|i: int| 0 <= i < s.len() ==> !is_ws(#[trigger] s[i])
}

/// A record argument: not empty, on one line, without whitespace at either
/// end.
pub open spec fn text_ok(s: Seq<char>) -> bool {
    s.len() > 0 && !is_ws(s[0]) && !is_ws(s.last()) && no_newline(s)
}

/// A record line: keyword, one space, argument.
pub open spec fn line_of(kw: Seq<char>, arg: Seq<char>) -> Seq<char> {
    kw + seq![' '] + arg
}

proof fn lemma_split_append(x: Seq<char>, y: Seq<char>)
    requires
        no_newline(y),
    ensures
        split_lines(x + y) == split_lines(x).update(
            split_lines(x).len() - 1,
            split_lines(x).last() + y,
        ),
        split_lines(x + y).len() == split_lines(x).len(),
    decreases y.len(),
{
    lemma_split_lines_len(x);
    if y.len() == 0 {
        assert(x + y =~= x);
        assert(split_lines(x).last() + y =~= split_lines(x).last());
        assert(split_lines(x).update(split_lines(x).len() - 1, split_lines(x).last())
            =~= split_lines(x));
    } else {
        let s = x + y;
        assert(s.drop_last() =~= x + y.drop_last());
        assert(s.last() == y.last());
        assert(y.last() != '\n');
        lemma_split_append(x, y.drop_last());
        let p = split_lines(x);
        let q = p.update(p.len() - 1, p.last() + y.drop_last());
        assert(split_lines(s.drop_last()) == q);
        assert(q.last() == p.last() + y.drop_last());
        assert(split_lines(s) == q.update(q.len() - 1, q.last().push(s.last())));
        assert((p.last() + y.drop_last()).push(y.last()) =~= p.last() + y);
        assert(q.update(q.len() - 1, q.last().push(s.last())) =~= p.update(
            p.len() - 1,
            p.last() + y,
        ));
    }
}

proof fn lemma_split_lines_len(s: Seq<char>)
    ensures
        split_lines(s).len() > 0,
    decreases s.len(),
{
    if s.len() > 0 {
        lemma_split_lines_len(s.drop_last());
    }
}

/// Lines without `\n`, joined, split back into the same lines and an empty
/// last one.
pub proof fn lemma_split_join(ls: Seq<Seq<char>>)
    requires
        forall|i: int| 0 <= i < ls.len() ==> no_newline(#[trigger] ls[i]),
    ensures
        split_lines(join_lines(ls)) == ls.push(Seq::empty()),
    decreases ls.len(),
{
    if ls.len() == 0 {
        assert(split_lines(Seq::<char>::empty()) =~= seq![Seq::<char>::empty()]);
    } else {
        let p = ls.drop_last();
        assert forall|i: int| 0 <= i < p.len() implies no_newline(#[trigger] p[i]) by {
            assert(p[i] == ls[i]);
        }
        lemma_split_join(p);
        let x = join_lines(p) + ls.last();
        assert(no_newline(ls.last()));
        lemma_split_append(join_lines(p), ls.last());
        let s = join_lines(ls);
        assert(s.drop_last() =~= x);
        assert(p.push(Seq::empty()).update(p.len() as int, Seq::<char>::empty() + ls.last())
            =~= ls);
    }
}

/// Joining two runs of lines is joining each.
pub proof fn lemma_join_append(a: Seq<Seq<char>>, b: Seq<Seq<char>>)
    ensures
        join_lines(a + b) == join_lines(a) + join_lines(b),
    decreases b.len(),
{
    if b.len() == 0 {
        assert(a + b =~= a);
        assert(join_lines(a) + join_lines(b) =~= join_lines(a));
    } else {
        assert((a + b).drop_last() =~= a + b.drop_last());
        lemma_join_append(a, b.drop_last());
        assert(join_lines(a + b) =~= join_lines(a) + join_lines(b));
    }
}

proof fn lemma_join_one(l: Seq<char>)
    ensures
        join_lines(seq![l]) == l + seq!['\n'],
{
    let one = seq![l];
    assert(one.drop_last() =~= Seq::<Seq<char>>::empty());
    assert(join_lines(one.drop_last()) == Seq::<char>::empty());
    assert(join_lines(one) == join_lines(one.drop_last()) + one.last() + seq!['\n']);
    assert(Seq::<char>::empty() + l + seq!['\n'] =~= l + seq!['\n']);
}

/// Running over two runs of lines is running over the first, then the
/// second.
pub proof fn lemma_run_append(
    st: (ParseModel, nat),
    a: Seq<Seq<char>>,
    b: Seq<Seq<char>>,
    last: nat,
)
    ensures
        run_from(st, a + b, last) == match run_from(st, a, last) {
            Ok(s) => run_from(s, b, last),
            Err(e) => Err(e),
        },
    decreases b.len(),
{
    if b.len() == 0 {
        assert(a + b =~= a);
    } else {
        assert((a + b).drop_last() =~= a + b.drop_last());
        assert((a + b).last() == b.last());
        lemma_run_append(st, a, b.drop_last(), last);
    }
}

proof fn lemma_run_one(st: (ParseModel, nat), l: Seq<char>, last: nat)
    ensures
        run_from(st, seq![l], last) == line_step(st, l, last),
{
    let one = seq![l];
    assert(one.drop_last() =~= Seq::<Seq<char>>::empty());
    assert(run_from(st, one.drop_last(), last) == Ok::<(ParseModel, nat), (nat, crate::error::ErrorModel)>(st));
    assert(one.last() == l);
}

proof fn lemma_first_ws_at(s: Seq<char>, k: int)
    requires
        0 <= k < s.len(),
        is_ws(s[k]),
        forall|j: int| 0 <= j < k ==> !is_ws(#[trigger] s[j]),
    ensures
        first_ws(s) == Some(k),
{
    let c = choose|i: int|
        0 <= i < s.len() && is_ws(s[i]) && forall|j: int| 0 <= j < i ==> !is_ws(#[trigger] s[j]);
    assert(c == k) by {
        if c < k {
            assert(!is_ws(s[c]));
        }
        if c > k {
            assert(!is_ws(s[k]));
        }
    }
}

proof fn lemma_first_ws_none(s: Seq<char>)
    requires
        forall|j: int| 0 <= j < s.len() ==> !is_ws(#[trigger] s[j]),
    ensures
        first_ws(s) is None,
{
}

/// A record line is not blank, is its own trim, and splits into its keyword
/// and its argument.
pub proof fn lemma_record_line(kw: Seq<char>, arg: Seq<char>)
    requires
        word_ok(kw),
        text_ok(arg),
    ensures
        !all_ws(line_of(kw, arg)),
        trim(line_of(kw, arg)) == line_of(kw, arg),
        split_record(line_of(kw, arg)) == (kw, Some(arg)),
        no_newline(line_of(kw, arg)),
{
    let l = line_of(kw, arg);
    let n = kw.len() as int;
    assert(l[0] == kw[0]);
    assert(l.last() == arg.last());
    assert(!is_ws(l[0]));
    assert(lead_ws(l) == 0);
    assert(trail_ws(l) == 0);
    assert(l.subrange(0, l.len() as int) =~= l);
    assert(l[n] == ' ');
    assert forall|j: int| 0 <= j < n implies !is_ws(#[trigger] l[j]) by {
        assert(l[j] == kw[j]);
    }
    lemma_first_ws_at(l, n);
    assert(l.subrange(0, n) =~= kw);
    let t = l.subrange(n, l.len() as int);
    assert(t =~= seq![' '] + arg);
    assert(t.drop_first() =~= arg);
    assert(lead_ws(arg) == 0);
    assert(lead_ws(t) == 1);
    assert(t.last() == arg.last());
    assert(trail_ws(t) == 0);
    assert(t.subrange(1, t.len() as int) =~= arg);
    assert forall|i: int| 0 <= i < l.len() implies l[i] != '\n' by {
        if i < n {
            assert(l[i] == kw[i]);
        } else if i > n {
            assert(l[i] == arg[i - n - 1]);
        }
    }
}

/// A keyword alone on its line.
pub proof fn lemma_keyword_line(kw: Seq<char>)
    requires
        word_ok(kw),
    ensures
        !all_ws(kw),
        trim(kw) == kw,
        split_record(kw) == (kw, None::<Seq<char>>),
        no_newline(kw),
{
    assert(!is_ws(kw[0]));
    assert(!is_ws(kw.last()));
    assert(lead_ws(kw) == 0);
    assert(trail_ws(kw) == 0);
    assert(kw.subrange(0, kw.len() as int) =~= kw);
    lemma_first_ws_none(kw);
    assert forall|i: int| 0 <= i < kw.len() implies kw[i] != '\n' by {
        assert(!is_ws(kw[i]));
    }
}

/// What the keywords look like, enough to tell them apart.
pub proof fn lemma_keywords()
    ensures
        word_ok(ids::STARTFONT@),
        word_ok(ids::FONT@),
        word_ok(ids::COMMENT@),
        word_ok(ids::CONTENTVERSION@),
        word_ok(ids::SIZE@),
        word_ok(ids::FONTBOUNDINGBOX@),
        word_ok(ids::METRICSSET@),
        word_ok(ids::SWIDTH@),
        word_ok(ids::DWIDTH@),
        word_ok(ids::SWIDTH1@),
        word_ok(ids::DWIDTH1@),
        word_ok(ids::VVECTOR@),
        word_ok(ids::ENDFONT@),
        ids::STARTFONT@.len() == 9 && ids::STARTFONT@[0] == 'S',
        ids::FONT@.len() == 4 && ids::FONT@[0] == 'F',
        ids::COMMENT@.len() == 7 && ids::COMMENT@[0] == 'C',
        ids::CONTENTVERSION@.len() == 14 && ids::CONTENTVERSION@[0] == 'C',
        ids::SIZE@.len() == 4 && ids::SIZE@[0] == 'S',
        ids::FONTBOUNDINGBOX@.len() == 15 && ids::FONTBOUNDINGBOX@[0] == 'F',
        ids::METRICSSET@.len() == 10 && ids::METRICSSET@[0] == 'M',
        ids::SWIDTH@.len() == 6 && ids::SWIDTH@[0] == 'S',
        ids::DWIDTH@.len() == 6 && ids::DWIDTH@[0] == 'D',
        ids::SWIDTH1@.len() == 7 && ids::SWIDTH1@[0] == 'S',
        ids::DWIDTH1@.len() == 7 && ids::DWIDTH1@[0] == 'D',
        ids::VVECTOR@.len() == 7 && ids::VVECTOR@[0] == 'V',
        ids::ENDFONT@.len() == 7 && ids::ENDFONT@[0] == 'E' && ids::ENDFONT@[3] == 'F',
        ids::ENDCHAR@.len() == 7 && ids::ENDCHAR@[0] == 'E' && ids::ENDCHAR@[3] == 'C',
        ids::ENDPROPERTIES@.len() == 13,
        ids::STARTPROPERTIES@.len() == 15 && ids::STARTPROPERTIES@[0] == 'S',
        ids::CHARS@.len() == 5 && ids::CHARS@[0] == 'C',
        ids::BITMAP@.len() == 6 && ids::BITMAP@[0] == 'B',
{
    reveal_strlit("STARTFONT");
    reveal_strlit("FONT");
    reveal_strlit("COMMENT");
    reveal_strlit("CONTENTVERSION");
    reveal_strlit("SIZE");
    reveal_strlit("FONTBOUNDINGBOX");
    reveal_strlit("METRICSSET");
    reveal_strlit("SWIDTH");
    reveal_strlit("DWIDTH");
    reveal_strlit("SWIDTH1");
    reveal_strlit("DWIDTH1");
    reveal_strlit("VVECTOR");
    reveal_strlit("ENDFONT");
    reveal_strlit("ENDCHAR");
    reveal_strlit("ENDPROPERTIES");
    reveal_strlit("STARTPROPERTIES");
    reveal_strlit("CHARS");
    reveal_strlit("BITMAP");
    lemma_word(ids::STARTFONT@);
    lemma_word(ids::FONT@);
    lemma_word(ids::COMMENT@);
    lemma_word(ids::CONTENTVERSION@);
    lemma_word(ids::SIZE@);
    lemma_word(ids::FONTBOUNDINGBOX@);
    lemma_word(ids::METRICSSET@);
    lemma_word(ids::SWIDTH@);
    lemma_word(ids::DWIDTH@);
    lemma_word(ids::SWIDTH1@);
    lemma_word(ids::DWIDTH1@);
    lemma_word(ids::VVECTOR@);
    lemma_word(ids::ENDFONT@);
}

/// What the keywords inside the glyph block look like.
pub proof fn lemma_glyph_keywords()
    ensures
        word_ok(ids::STARTCHAR@),
        word_ok(ids::ENCODING@),
        word_ok(ids::BBX@),
        word_ok(ids::BITMAP@),
        word_ok(ids::ENDCHAR@),
        word_ok(ids::CHARS@),
        ids::STARTCHAR@.len() == 9 && ids::STARTCHAR@[0] == 'S',
        ids::ENCODING@.len() == 8 && ids::ENCODING@[0] == 'E',
        ids::BBX@.len() == 3 && ids::BBX@[0] == 'B',
{
    reveal_strlit("STARTCHAR");
    reveal_strlit("ENCODING");
    reveal_strlit("BBX");
    reveal_strlit("BITMAP");
    reveal_strlit("ENDCHAR");
    reveal_strlit("CHARS");
    lemma_word(ids::STARTCHAR@);
    lemma_word(ids::ENCODING@);
    lemma_word(ids::BBX@);
    lemma_word(ids::BITMAP@);
    lemma_word(ids::ENDCHAR@);
    lemma_word(ids::CHARS@);
}

/// Upper-case letters, digits and `_` are no whitespace.
proof fn lemma_word(s: Seq<char>)
    requires
        s.len() > 0,
        forall|i: int|
            0 <= i < s.len() ==> ('A' <= #[trigger] s[i] <= 'Z') || ('0' <= s[i] <= '9') || s[i]
                == '_',
    ensures
        word_ok(s),
{
}

/// A pair's record line, where the pair is present.
pub open spec fn xy_lines(kw: Seq<char>, o: Option<XYPair>) -> Seq<Seq<char>> {
    match o {
        Some(p) => seq![line_of(kw, xy_chars(p))],
        None => Seq::empty(),
    }
}

/// The `CONTENTVERSION` line, where there is one.
pub open spec fn version_lines(o: Option<i32>) -> Seq<Seq<char>> {
    match o {
        Some(v) => seq![line_of(ids::CONTENTVERSION@, int_chars(v as int))],
        None => Seq::empty(),
    }
}

/// The `METRICSSET` line, where the set is not `Normal`.
pub open spec fn metrics_lines(m: MetricsSet) -> Seq<Seq<char>> {
    if m != MetricsSet::Normal {
        seq![line_of(ids::METRICSSET@, dec_chars(metrics_code(m)))]
    } else {
        Seq::empty()
    }
}

/// The comment lines.
pub open spec fn comment_lines(cs: Seq<Seq<char>>) -> Seq<Seq<char>> {
    cs.map_values(|c: Seq<char>| line_of(ids::COMMENT@, c))
}

/// The first lines of a font's header, up to its bounding box.
pub open spec fn head_lines(f: FontModel) -> Seq<Seq<char>> {
    seq![line_of(ids::STARTFONT@, f.bdf_version)] + seq![line_of(ids::FONT@, f.name)]
        + comment_lines(f.comments) + version_lines(f.content_version) + seq![
        line_of(ids::SIZE@, size_chars(f.size)),
    ] + seq![line_of(ids::FONTBOUNDINGBOX@, bbox_chars(f.bounding_box))]
}

/// The metrics set, widths and vector lines of a header.
pub open spec fn widths_lines(
    m: MetricsSet,
    sw: Option<XYPair>,
    dw: Option<XYPair>,
    swa: Option<XYPair>,
    dwa: Option<XYPair>,
    v: Option<XYPair>,
) -> Seq<Seq<char>> {
    metrics_lines(m) + xy_lines(ids::SWIDTH@, sw) + xy_lines(ids::DWIDTH@, dw) + xy_lines(
        ids::SWIDTH1@,
        swa,
    ) + xy_lines(ids::DWIDTH1@, dwa) + xy_lines(ids::VVECTOR@, v)
}

/// The lines of a font's header, as the writer produces them.
pub open spec fn header_lines(f: FontModel) -> Seq<Seq<char>> {
    head_lines(f) + widths_lines(
        f.metrics,
        f.scalable_width,
        f.device_width,
        f.scalable_width_alt,
        f.device_width_alt,
        f.vector,
    )
}

proof fn lemma_join_rec(kw: Seq<char>, arg: Seq<char>)
    ensures
        join_lines(seq![line_of(kw, arg)]) == rec(kw, arg),
{
    lemma_join_one(line_of(kw, arg));
    assert(line_of(kw, arg) + seq!['\n'] =~= rec(kw, arg));
}

proof fn lemma_join_comments(cs: Seq<Seq<char>>)
    ensures
        join_lines(comment_lines(cs)) == concat_map(cs, |c: Seq<char>| comment_chars(c)),
    decreases cs.len(),
{
    if cs.len() > 0 {
        lemma_join_comments(cs.drop_last());
        let ls = comment_lines(cs);
        assert(ls.drop_last() =~= comment_lines(cs.drop_last()));
        assert(ls.last() == line_of(ids::COMMENT@, cs.last()));
        assert(line_of(ids::COMMENT@, cs.last()) + seq!['\n'] =~= comment_chars(cs.last()));
        assert(join_lines(ls) =~= join_lines(ls.drop_last()) + (ls.last() + seq!['\n']));
    }
}

proof fn lemma_join_xy(kw: Seq<char>, o: Option<XYPair>)
    ensures
        join_lines(xy_lines(kw, o)) == opt_xy(kw, o),
{
    if let Some(p) = o {
        lemma_join_rec(kw, xy_chars(p));
    }
}

proof fn lemma_join_head(f: FontModel)
    ensures
        join_lines(head_lines(f)) == rec(ids::STARTFONT@, f.bdf_version) + rec(ids::FONT@, f.name)
            + concat_map(f.comments, |c: Seq<char>| comment_chars(c)) + opt_int(
            ids::CONTENTVERSION@,
            f.content_version,
        ) + rec(ids::SIZE@, size_chars(f.size)) + rec(
            ids::FONTBOUNDINGBOX@,
            bbox_chars(f.bounding_box),
        ),
{
    let a1 = seq![line_of(ids::STARTFONT@, f.bdf_version)];
    let a2 = seq![line_of(ids::FONT@, f.name)];
    let b = comment_lines(f.comments);
    let c = version_lines(f.content_version);
    let d1 = seq![line_of(ids::SIZE@, size_chars(f.size))];
    let d2 = seq![line_of(ids::FONTBOUNDINGBOX@, bbox_chars(f.bounding_box))];
    lemma_join_rec(ids::STARTFONT@, f.bdf_version);
    lemma_join_rec(ids::FONT@, f.name);
    lemma_join_comments(f.comments);
    if let Some(v) = f.content_version {
        lemma_join_rec(ids::CONTENTVERSION@, int_chars(v as int));
    }
    assert(join_lines(c) == opt_int(ids::CONTENTVERSION@, f.content_version));
    lemma_join_rec(ids::SIZE@, size_chars(f.size));
    lemma_join_rec(ids::FONTBOUNDINGBOX@, bbox_chars(f.bounding_box));
    lemma_join_append(a1, a2);
    lemma_join_append(a1 + a2, b);
    lemma_join_append(a1 + a2 + b, c);
    lemma_join_append(a1 + a2 + b + c, d1);
    lemma_join_append(a1 + a2 + b + c + d1, d2);
}

proof fn lemma_join_widths(
    m: MetricsSet,
    sw: Option<XYPair>,
    dw: Option<XYPair>,
    swa: Option<XYPair>,
    dwa: Option<XYPair>,
    v: Option<XYPair>,
)
    ensures
        join_lines(widths_lines(m, sw, dw, swa, dwa, v)) == widths_chars(m, sw, dw, swa, dwa, v),
{
    let e = metrics_lines(m);
    let g1 = xy_lines(ids::SWIDTH@, sw);
    let g2 = xy_lines(ids::DWIDTH@, dw);
    let g3 = xy_lines(ids::SWIDTH1@, swa);
    let g4 = xy_lines(ids::DWIDTH1@, dwa);
    let g5 = xy_lines(ids::VVECTOR@, v);
    if m != MetricsSet::Normal {
        lemma_join_rec(ids::METRICSSET@, dec_chars(metrics_code(m)));
    }
    lemma_join_xy(ids::SWIDTH@, sw);
    lemma_join_xy(ids::DWIDTH@, dw);
    lemma_join_xy(ids::SWIDTH1@, swa);
    lemma_join_xy(ids::DWIDTH1@, dwa);
    lemma_join_xy(ids::VVECTOR@, v);
    lemma_join_append(e, g1);
    lemma_join_append(e + g1, g2);
    lemma_join_append(e + g1 + g2, g3);
    lemma_join_append(e + g1 + g2 + g3, g4);
    lemma_join_append(e + g1 + g2 + g3 + g4, g5);
}

/// The header's lines, joined, are the header's text.
proof fn lemma_join_header(f: FontModel)
    ensures
        join_lines(header_lines(f)) == header_chars(f),
{
    lemma_join_head(f);
    lemma_join_widths(
        f.metrics,
        f.scalable_width,
        f.device_width,
        f.scalable_width_alt,
        f.device_width_alt,
        f.vector,
    );
    lemma_join_append(
        head_lines(f),
        widths_lines(
            f.metrics,
            f.scalable_width,
            f.device_width,
            f.scalable_width_alt,
            f.device_width_alt,
            f.vector,
        ),
    );
}

proof fn lemma_text_no_ws(s: Seq<char>)
    requires
        s.len() > 0,
        forall|i: int| 0 <= i < s.len() ==> !is_ws(#[trigger] s[i]),
    ensures
        text_ok(s),
{
    assert forall|i: int| 0 <= i < s.len() implies s[i] != '\n' by {
        assert(!is_ws(s[i]));
    }
}

proof fn lemma_text_pair(a: Seq<char>, b: Seq<char>)
    requires
        text_ok(a),
        text_ok(b),
    ensures
        text_ok(a + seq![' '] + b),
{
    let s = a + seq![' '] + b;
    assert(s[0] == a[0]);
    assert(s.last() == b.last());
    assert forall|i: int| 0 <= i < s.len() implies s[i] != '\n' by {
        if i < a.len() {
            assert(s[i] == a[i]);
        } else if i > a.len() {
            assert(s[i] == b[i - a.len() - 1]);
        }
    }
}

proof fn lemma_dec_text(n: nat)
    ensures
        text_ok(dec_chars(n)),
{
    lemma_dec_chars(n);
    lemma_text_no_ws(dec_chars(n));
}

proof fn lemma_int_text(v: int)
    ensures
        text_ok(int_chars(v)),
{
    lemma_int_chars(v);
    lemma_text_no_ws(int_chars(v));
}

proof fn lemma_xy_text(p: XYPair)
    ensures
        text_ok(xy_chars(p)),
{
    lemma_dec_text(p.x as nat);
    lemma_dec_text(p.y as nat);
    lemma_text_pair(dec_chars(p.x as nat), dec_chars(p.y as nat));
}

proof fn lemma_bbox_text(b: crate::values::BoundingBox)
    ensures
        text_ok(bbox_chars(b)),
{
    lemma_dec_text(b.width as nat);
    lemma_dec_text(b.height as nat);
    lemma_int_text(b.x_offset as int);
    lemma_int_text(b.y_offset as int);
    let w = dec_chars(b.width as nat);
    let h = dec_chars(b.height as nat);
    let x = int_chars(b.x_offset as int);
    let y = int_chars(b.y_offset as int);
    lemma_text_pair(w, h);
    lemma_text_pair(w + seq![' '] + h, x);
    lemma_text_pair(w + seq![' '] + h + seq![' '] + x, y);
}

proof fn lemma_size_text(z: crate::values::FontSize)
    ensures
        text_ok(size_chars(z)),
{
    lemma_dec_text(z.point_size as nat);
    lemma_dec_text(z.x_dpi as nat);
    lemma_dec_text(z.y_dpi as nat);
    let a = dec_chars(z.point_size as nat);
    let b = dec_chars(z.x_dpi as nat);
    let c = dec_chars(z.y_dpi as nat);
    lemma_text_pair(a, b);
    lemma_text_pair(a + seq![' '] + b, c);
}

/// One record line, read where no bitmap rows are owed, does what
/// `record_step` says of its keyword and argument.
proof fn lemma_run_record(st: (ParseModel, nat), kw: Seq<char>, arg: Seq<char>, last: nat)
    requires
        word_ok(kw),
        text_ok(arg),
        st.0.state != ParseState::InBitmap,
        kw != ids::ENDFONT@,
    ensures
        run_from(st, seq![line_of(kw, arg)], last) == match record_step(st.0, kw, Some(arg)) {
            Ok(m) => Ok((m, st.1 + 1)),
            Err(e) => Err((st.1 + 1, e)),
        },
{
    lemma_run_one(st, line_of(kw, arg), last);
    lemma_record_line(kw, arg);
    reveal(step);
}

#[verifier::spinoff_prover]
proof fn lemma_run_comments(st: (ParseModel, nat), cs: Seq<Seq<char>>, last: nat)
    requires
        st.0.state != ParseState::InBitmap,
        forall|i: int| 0 <= i < cs.len() ==> text_ok(#[trigger] cs[i]),
    ensures
        run_from(st, comment_lines(cs), last) == Ok::<(ParseModel, nat), (nat, crate::error::ErrorModel)>(
            (
                ParseModel {
                    font: FontDraft { comments: st.0.font.comments + cs, ..st.0.font },
                    ..st.0
                },
                st.1 + cs.len(),
            ),
        ),
    decreases cs.len(),
{
    lemma_keywords();
    if cs.len() == 0 {
        assert(comment_lines(cs) =~= Seq::<Seq<char>>::empty());
        assert(st.0.font.comments + cs =~= st.0.font.comments);
    } else {
        let p = cs.drop_last();
        assert forall|i: int| 0 <= i < p.len() implies text_ok(#[trigger] p[i]) by {
            assert(p[i] == cs[i]);
        }
        lemma_run_comments(st, p, last);
        let ls = comment_lines(cs);
        assert(ls.drop_last() =~= comment_lines(p));
        assert(ls.last() == line_of(ids::COMMENT@, cs.last()));
        let s2 = (
            ParseModel { font: FontDraft { comments: st.0.font.comments + p, ..st.0.font }, ..st.0 },
            st.1 + p.len(),
        );
        assert(text_ok(cs.last()));
        lemma_run_record(s2, ids::COMMENT@, cs.last(), last);
        lemma_run_one(s2, ls.last(), last);
        assert(line_step(s2, ls.last(), last) == Ok::<(ParseModel, nat), (nat, crate::error::ErrorModel)>(
            (
                ParseModel {
                    font: FontDraft {
                        comments: (st.0.font.comments + p).push(cs.last()),
                        ..st.0.font
                    },
                    ..st.0
                },
                st.1 + cs.len(),
            ),
        ));
        assert((st.0.font.comments + p).push(cs.last()) =~= st.0.font.comments + cs);
    }
}

/// The draft that a font's header leaves behind.
pub open spec fn head_draft(f: FontModel) -> FontDraft {
    FontDraft {
        bdf_version: Some(f.bdf_version),
        name: Some(f.name),
        size: Some(f.size),
        bounding_box: Some(f.bounding_box),
        comments: f.comments,
        content_version: f.content_version,
        ..crate::parser::new_font()
    }
}

#[verifier::spinoff_prover]
#[verifier::rlimit(100)]
proof fn lemma_run_head(f: FontModel, last: nat)
    requires
        text_ok(f.bdf_version),
        text_ok(f.name),
        forall|i: int| 0 <= i < f.comments.len() ==> text_ok(#[trigger] f.comments[i]),
    ensures
        run_from((initial(), 0), head_lines(f), last) == Ok::<(ParseModel, nat), (nat, crate::error::ErrorModel)>(
            (
                ParseModel { state: ParseState::InFont, font: head_draft(f), rows_left: 0 },
                head_lines(f).len(),
            ),
        ),
{
    lemma_keywords();
    let a1 = seq![line_of(ids::STARTFONT@, f.bdf_version)];
    let a2 = seq![line_of(ids::FONT@, f.name)];
    let b = comment_lines(f.comments);
    let c = version_lines(f.content_version);
    let d1 = seq![line_of(ids::SIZE@, size_chars(f.size))];
    let d2 = seq![line_of(ids::FONTBOUNDINGBOX@, bbox_chars(f.bounding_box))];
    let st0 = (initial(), 0nat);
    let f1 = FontDraft { bdf_version: Some(f.bdf_version), ..crate::parser::new_font() };
    let st1 = (ParseModel { state: ParseState::InFont, font: f1, rows_left: 0 }, 1nat);
    lemma_run_record(st0, ids::STARTFONT@, f.bdf_version, last);
    assert(run_from(st0, a1, last) == Ok::<(ParseModel, nat), (nat, crate::error::ErrorModel)>(st1));
    let f2 = FontDraft { name: Some(f.name), ..f1 };
    let st2 = (ParseModel { state: ParseState::InFont, font: f2, rows_left: 0 }, 2nat);
    lemma_run_record(st1, ids::FONT@, f.name, last);
    assert(run_from(st1, a2, last) == Ok::<(ParseModel, nat), (nat, crate::error::ErrorModel)>(st2));
    lemma_run_append(st0, a1, a2, last);
    let f3 = FontDraft { comments: f.comments, ..f2 };
    let st3 = (ParseModel { state: ParseState::InFont, font: f3, rows_left: 0 }, 2 + f.comments.len());
    lemma_run_comments(st2, f.comments, last);
    assert(f2.comments + f.comments =~= f.comments);
    lemma_run_append(st0, a1 + a2, b, last);
    let f4 = FontDraft { content_version: f.content_version, ..f3 };
    let n4: nat = st3.1 + c.len();
    let st4 = (ParseModel { state: ParseState::InFont, font: f4, rows_left: 0 }, n4);
    if let Some(v) = f.content_version {
        lemma_int_text(v as int);
        lemma_i32_round_trip(v);
        lemma_run_record(st3, ids::CONTENTVERSION@, int_chars(v as int), last);
    } else {
        assert(f4 == f3);
    }
    assert(run_from(st3, c, last) == Ok::<(ParseModel, nat), (nat, crate::error::ErrorModel)>(st4));
    lemma_run_append(st0, a1 + a2 + b, c, last);
    let f5 = FontDraft { size: Some(f.size), ..f4 };
    let st5 = (ParseModel { state: ParseState::InFont, font: f5, rows_left: 0 }, n4 + 1);
    lemma_size_text(f.size);
    lemma_size_round_trip(f.size);
    lemma_run_record(st4, ids::SIZE@, size_chars(f.size), last);
    assert(run_from(st4, d1, last) == Ok::<(ParseModel, nat), (nat, crate::error::ErrorModel)>(st5));
    lemma_run_append(st0, a1 + a2 + b + c, d1, last);
    let f6 = FontDraft { bounding_box: Some(f.bounding_box), ..f5 };
    let st6 = (ParseModel { state: ParseState::InFont, font: f6, rows_left: 0 }, n4 + 2);
    lemma_bbox_text(f.bounding_box);
    lemma_bbox_round_trip(f.bounding_box);
    lemma_run_record(st5, ids::FONTBOUNDINGBOX@, bbox_chars(f.bounding_box), last);
    assert(run_from(st5, d2, last) == Ok::<(ParseModel, nat), (nat, crate::error::ErrorModel)>(st6));
    lemma_run_append(st0, a1 + a2 + b + c + d1, d2, last);
    assert(f6 == head_draft(f));
}

proof fn lemma_run_xy(st: (ParseModel, nat), kw: Seq<char>, o: Option<XYPair>, last: nat)
    requires
        word_ok(kw),
        st.0.state != ParseState::InBitmap,
        kw != ids::ENDFONT@,
    ensures
        o is None ==> run_from(st, xy_lines(kw, o), last) == Ok::<(ParseModel, nat), (nat, crate::error::ErrorModel)>(st),
        o matches Some(p) ==> run_from(st, xy_lines(kw, o), last) == match record_step(
            st.0,
            kw,
            Some(xy_chars(p)),
        ) {
            Ok(m) => Ok((m, st.1 + 1)),
            Err(e) => Err((st.1 + 1, e)),
        },
{
    if let Some(p) = o {
        lemma_xy_text(p);
        lemma_xy_round_trip(p);
        lemma_run_record(st, kw, xy_chars(p), last);
    } else {
        assert(xy_lines(kw, o) =~= Seq::<Seq<char>>::empty());
    }
}

/// How a draft holds a metrics set: `Normal` as absent.
pub open spec fn metrics_draft(m: MetricsSet) -> Option<MetricsSet> {
    if m != MetricsSet::Normal {
        Some(m)
    } else {
        None
    }
}

#[verifier::spinoff_prover]
#[verifier::rlimit(100)]
proof fn lemma_run_scalable_width(st: (ParseModel, nat), o: Option<XYPair>, last: nat)
    requires
        st.0.state == ParseState::InFont,
        st.0.font.scalable_width is None,
    ensures
        run_from(st, xy_lines(ids::SWIDTH@, o), last) == Ok::<(ParseModel, nat), (nat, crate::error::ErrorModel)>(
            (
                ParseModel { font: FontDraft { scalable_width: o, ..st.0.font }, ..st.0 },
                st.1 + xy_lines(ids::SWIDTH@, o).len(),
            ),
        ),
{
    lemma_keywords();
    lemma_run_xy(st, ids::SWIDTH@, o, last);
    if let Some(p) = o {
        let arg = xy_chars(p);
        lemma_xy_round_trip(p);
        assert(ids::SWIDTH@ != ids::ENDFONT@);
        assert(xy_of(arg) == Some(p));
        assert(crate::parser::font_record(st.0.font, ids::SWIDTH@, arg) == Ok::<(FontDraft, ParseState), crate::error::ErrorModel>((FontDraft { scalable_width: Some(p), ..st.0.font }, ParseState::InFont)));
        assert(record_step(st.0, ids::SWIDTH@, Some(arg)) == Ok::<ParseModel, crate::error::ErrorModel>(ParseModel { font: FontDraft { scalable_width: Some(p), ..st.0.font }, ..st.0 }));
        assert(xy_lines(ids::SWIDTH@, o).len() == 1);
    }
    if o is None {
        assert(FontDraft { scalable_width: o, ..st.0.font } == st.0.font);
    }
}

#[verifier::spinoff_prover]
#[verifier::rlimit(100)]
proof fn lemma_run_device_width(st: (ParseModel, nat), o: Option<XYPair>, last: nat)
    requires
        st.0.state == ParseState::InFont,
        st.0.font.device_width is None,
    ensures
        run_from(st, xy_lines(ids::DWIDTH@, o), last) == Ok::<(ParseModel, nat), (nat, crate::error::ErrorModel)>(
            (
                ParseModel { font: FontDraft { device_width: o, ..st.0.font }, ..st.0 },
                st.1 + xy_lines(ids::DWIDTH@, o).len(),
            ),
        ),
{
    lemma_keywords();
    lemma_run_xy(st, ids::DWIDTH@, o, last);
    if let Some(p) = o {
        let arg = xy_chars(p);
        lemma_xy_round_trip(p);
        assert(ids::DWIDTH@ != ids::ENDFONT@);
        assert(xy_of(arg) == Some(p));
        assert(crate::parser::font_record(st.0.font, ids::DWIDTH@, arg) == Ok::<(FontDraft, ParseState), crate::error::ErrorModel>((FontDraft { device_width: Some(p), ..st.0.font }, ParseState::InFont)));
        assert(record_step(st.0, ids::DWIDTH@, Some(arg)) == Ok::<ParseModel, crate::error::ErrorModel>(ParseModel { font: FontDraft { device_width: Some(p), ..st.0.font }, ..st.0 }));
        assert(xy_lines(ids::DWIDTH@, o).len() == 1);
    }
    if o is None {
        assert(FontDraft { device_width: o, ..st.0.font } == st.0.font);
    }
}

#[verifier::spinoff_prover]
#[verifier::rlimit(100)]
proof fn lemma_run_scalable_width_alt(st: (ParseModel, nat), o: Option<XYPair>, last: nat)
    requires
        st.0.state == ParseState::InFont,
        st.0.font.scalable_width_alt is None,
    ensures
        run_from(st, xy_lines(ids::SWIDTH1@, o), last) == Ok::<(ParseModel, nat), (nat, crate::error::ErrorModel)>(
            (
                ParseModel { font: FontDraft { scalable_width_alt: o, ..st.0.font }, ..st.0 },
                st.1 + xy_lines(ids::SWIDTH1@, o).len(),
            ),
        ),
{
    lemma_keywords();
    lemma_run_xy(st, ids::SWIDTH1@, o, last);
    if let Some(p) = o {
        let arg = xy_chars(p);
        lemma_xy_round_trip(p);
        assert(ids::SWIDTH1@ != ids::ENDFONT@);
        assert(xy_of(arg) == Some(p));
        assert(crate::parser::font_record(st.0.font, ids::SWIDTH1@, arg) == Ok::<(FontDraft, ParseState), crate::error::ErrorModel>((FontDraft { scalable_width_alt: Some(p), ..st.0.font }, ParseState::InFont)));
        assert(record_step(st.0, ids::SWIDTH1@, Some(arg)) == Ok::<ParseModel, crate::error::ErrorModel>(ParseModel { font: FontDraft { scalable_width_alt: Some(p), ..st.0.font }, ..st.0 }));
        assert(xy_lines(ids::SWIDTH1@, o).len() == 1);
    }
    if o is None {
        assert(FontDraft { scalable_width_alt: o, ..st.0.font } == st.0.font);
    }
}

#[verifier::spinoff_prover]
#[verifier::rlimit(100)]
proof fn lemma_run_device_width_alt(st: (ParseModel, nat), o: Option<XYPair>, last: nat)
    requires
        st.0.state == ParseState::InFont,
        st.0.font.device_width_alt is None,
    ensures
        run_from(st, xy_lines(ids::DWIDTH1@, o), last) == Ok::<(ParseModel, nat), (nat, crate::error::ErrorModel)>(
            (
                ParseModel { font: FontDraft { device_width_alt: o, ..st.0.font }, ..st.0 },
                st.1 + xy_lines(ids::DWIDTH1@, o).len(),
            ),
        ),
{
    lemma_keywords();
    lemma_run_xy(st, ids::DWIDTH1@, o, last);
    if let Some(p) = o {
        let arg = xy_chars(p);
        lemma_xy_round_trip(p);
        assert(ids::DWIDTH1@ != ids::ENDFONT@);
        assert(xy_of(arg) == Some(p));
        assert(crate::parser::font_record(st.0.font, ids::DWIDTH1@, arg) == Ok::<(FontDraft, ParseState), crate::error::ErrorModel>((FontDraft { device_width_alt: Some(p), ..st.0.font }, ParseState::InFont)));
        assert(record_step(st.0, ids::DWIDTH1@, Some(arg)) == Ok::<ParseModel, crate::error::ErrorModel>(ParseModel { font: FontDraft { device_width_alt: Some(p), ..st.0.font }, ..st.0 }));
        assert(xy_lines(ids::DWIDTH1@, o).len() == 1);
    }
    if o is None {
        assert(FontDraft { device_width_alt: o, ..st.0.font } == st.0.font);
    }
}

#[verifier::spinoff_prover]
#[verifier::rlimit(100)]
proof fn lemma_run_vector(st: (ParseModel, nat), o: Option<XYPair>, last: nat)
    requires
        st.0.state == ParseState::InFont,
        st.0.font.vector is None,
    ensures
        run_from(st, xy_lines(ids::VVECTOR@, o), last) == Ok::<(ParseModel, nat), (nat, crate::error::ErrorModel)>(
            (
                ParseModel { font: FontDraft { vector: o, ..st.0.font }, ..st.0 },
                st.1 + xy_lines(ids::VVECTOR@, o).len(),
            ),
        ),
{
    lemma_keywords();
    lemma_run_xy(st, ids::VVECTOR@, o, last);
    if let Some(p) = o {
        let arg = xy_chars(p);
        lemma_xy_round_trip(p);
        assert(ids::VVECTOR@ != ids::ENDFONT@);
        assert(xy_of(arg) == Some(p));
        assert(crate::parser::font_record(st.0.font, ids::VVECTOR@, arg) == Ok::<(FontDraft, ParseState), crate::error::ErrorModel>((FontDraft { vector: Some(p), ..st.0.font }, ParseState::InFont)));
        assert(record_step(st.0, ids::VVECTOR@, Some(arg)) == Ok::<ParseModel, crate::error::ErrorModel>(ParseModel { font: FontDraft { vector: Some(p), ..st.0.font }, ..st.0 }));
        assert(xy_lines(ids::VVECTOR@, o).len() == 1);
    }
    if o is None {
        assert(FontDraft { vector: o, ..st.0.font } == st.0.font);
    }
}

#[verifier::spinoff_prover]
proof fn lemma_run_metrics(st: (ParseModel, nat), m: MetricsSet, last: nat)
    requires
        st.0.state == ParseState::InFont,
        st.0.font.metrics is None,
    ensures
        run_from(st, metrics_lines(m), last) == Ok::<(ParseModel, nat), (nat, crate::error::ErrorModel)>(
            (
                ParseModel { font: FontDraft { metrics: metrics_draft(m), ..st.0.font }, ..st.0 },
                st.1 + metrics_lines(m).len(),
            ),
        ),
{
    lemma_keywords();
    if m != MetricsSet::Normal {
        lemma_dec_text(metrics_code(m));
        lemma_metrics_round_trip(m);
        lemma_run_record(st, ids::METRICSSET@, dec_chars(metrics_code(m)), last);
    } else {
        assert(metrics_lines(m) =~= Seq::<Seq<char>>::empty());
        assert(FontDraft { metrics: metrics_draft(m), ..st.0.font } == st.0.font);
    }
}

proof fn lemma_run_widths(st: (ParseModel, nat), f: FontModel, last: nat)
    requires
        st.0.state == ParseState::InFont,
        st.0.font.metrics is None,
        st.0.font.scalable_width is None,
        st.0.font.device_width is None,
        st.0.font.scalable_width_alt is None,
        st.0.font.device_width_alt is None,
        st.0.font.vector is None,
    ensures
        run_from(
            st,
            widths_lines(
                f.metrics,
                f.scalable_width,
                f.device_width,
                f.scalable_width_alt,
                f.device_width_alt,
                f.vector,
            ),
            last,
        ) == Ok::<(ParseModel, nat), (nat, crate::error::ErrorModel)>(
            (
                ParseModel {
                    font: FontDraft {
                        metrics: metrics_draft(f.metrics),
                        scalable_width: f.scalable_width,
                        device_width: f.device_width,
                        scalable_width_alt: f.scalable_width_alt,
                        device_width_alt: f.device_width_alt,
                        vector: f.vector,
                        ..st.0.font
                    },
                    ..st.0
                },
                st.1 + widths_lines(
                    f.metrics,
                    f.scalable_width,
                    f.device_width,
                    f.scalable_width_alt,
                    f.device_width_alt,
                    f.vector,
                ).len(),
            ),
        ),
{
    let e = metrics_lines(f.metrics);
    let g1 = xy_lines(ids::SWIDTH@, f.scalable_width);
    let g2 = xy_lines(ids::DWIDTH@, f.device_width);
    let g3 = xy_lines(ids::SWIDTH1@, f.scalable_width_alt);
    let g4 = xy_lines(ids::DWIDTH1@, f.device_width_alt);
    let g5 = xy_lines(ids::VVECTOR@, f.vector);
    let m0 = st.0;
    let s1 = (ParseModel { font: FontDraft { metrics: metrics_draft(f.metrics), ..m0.font }, ..m0 }, st.1 + e.len());
    lemma_run_metrics(st, f.metrics, last);
    let s2 = (ParseModel { font: FontDraft { scalable_width: f.scalable_width, ..s1.0.font }, ..m0 }, s1.1 + g1.len());
    lemma_run_scalable_width(s1, f.scalable_width, last);
    lemma_run_append(st, e, g1, last);
    let s3 = (ParseModel { font: FontDraft { device_width: f.device_width, ..s2.0.font }, ..m0 }, s2.1 + g2.len());
    lemma_run_device_width(s2, f.device_width, last);
    lemma_run_append(st, e + g1, g2, last);
    let s4 = (ParseModel { font: FontDraft { scalable_width_alt: f.scalable_width_alt, ..s3.0.font }, ..m0 }, s3.1 + g3.len());
    lemma_run_scalable_width_alt(s3, f.scalable_width_alt, last);
    lemma_run_append(st, e + g1 + g2, g3, last);
    let s5 = (ParseModel { font: FontDraft { device_width_alt: f.device_width_alt, ..s4.0.font }, ..m0 }, s4.1 + g4.len());
    lemma_run_device_width_alt(s4, f.device_width_alt, last);
    lemma_run_append(st, e + g1 + g2 + g3, g4, last);
    lemma_run_vector(s5, f.vector, last);
    lemma_run_append(st, e + g1 + g2 + g3 + g4, g5, last);
}

/// Lines that each stand on one line and are not blank.
pub open spec fn lines_ok(ls: Seq<Seq<char>>) -> bool {
    forall|i: int| 0 <= i < ls.len() ==> no_newline(#[trigger] ls[i]) && !all_ws(ls[i])
}

proof fn lemma_lines_ok_append(a: Seq<Seq<char>>, b: Seq<Seq<char>>)
    requires
        lines_ok(a),
        lines_ok(b),
    ensures
        lines_ok(a + b),
{
    assert forall|i: int| 0 <= i < (a + b).len() implies no_newline(#[trigger] (a + b)[i]) && !all_ws(
        (a + b)[i],
    ) by {
        if i < a.len() {
            assert((a + b)[i] == a[i]);
        } else {
            assert((a + b)[i] == b[i - a.len()]);
        }
    }
}

proof fn lemma_record_lines_ok(kw: Seq<char>, arg: Seq<char>)
    requires
        word_ok(kw),
        text_ok(arg),
    ensures
        lines_ok(seq![line_of(kw, arg)]),
{
    lemma_record_line(kw, arg);
    let l = line_of(kw, arg);
    assert(seq![l][0] == l);
}

proof fn lemma_xy_lines_ok(kw: Seq<char>, o: Option<XYPair>)
    requires
        word_ok(kw),
    ensures
        lines_ok(xy_lines(kw, o)),
{
    if let Some(p) = o {
        lemma_xy_text(p);
        lemma_record_lines_ok(kw, xy_chars(p));
    }
}

proof fn lemma_header_lines_ok(f: FontModel)
    requires
        text_ok(f.bdf_version),
        text_ok(f.name),
        forall|i: int| 0 <= i < f.comments.len() ==> text_ok(#[trigger] f.comments[i]),
    ensures
        lines_ok(header_lines(f)),
{
    lemma_keywords();
    let a1 = seq![line_of(ids::STARTFONT@, f.bdf_version)];
    let a2 = seq![line_of(ids::FONT@, f.name)];
    let b = comment_lines(f.comments);
    let c = version_lines(f.content_version);
    let d1 = seq![line_of(ids::SIZE@, size_chars(f.size))];
    let d2 = seq![line_of(ids::FONTBOUNDINGBOX@, bbox_chars(f.bounding_box))];
    lemma_record_lines_ok(ids::STARTFONT@, f.bdf_version);
    lemma_record_lines_ok(ids::FONT@, f.name);
    assert forall|i: int| 0 <= i < b.len() implies no_newline(#[trigger] b[i]) && !all_ws(b[i]) by {
        assert(b[i] == line_of(ids::COMMENT@, f.comments[i]));
        lemma_record_line(ids::COMMENT@, f.comments[i]);
    }
    if let Some(v) = f.content_version {
        lemma_int_text(v as int);
        lemma_record_lines_ok(ids::CONTENTVERSION@, int_chars(v as int));
    }
    lemma_size_text(f.size);
    lemma_record_lines_ok(ids::SIZE@, size_chars(f.size));
    lemma_bbox_text(f.bounding_box);
    lemma_record_lines_ok(ids::FONTBOUNDINGBOX@, bbox_chars(f.bounding_box));
    lemma_lines_ok_append(a1, a2);
    lemma_lines_ok_append(a1 + a2, b);
    lemma_lines_ok_append(a1 + a2 + b, c);
    lemma_lines_ok_append(a1 + a2 + b + c, d1);
    lemma_lines_ok_append(a1 + a2 + b + c + d1, d2);
    let e = metrics_lines(f.metrics);
    if f.metrics != MetricsSet::Normal {
        lemma_dec_text(metrics_code(f.metrics));
        lemma_record_lines_ok(ids::METRICSSET@, dec_chars(metrics_code(f.metrics)));
    }
    let g1 = xy_lines(ids::SWIDTH@, f.scalable_width);
    let g2 = xy_lines(ids::DWIDTH@, f.device_width);
    let g3 = xy_lines(ids::SWIDTH1@, f.scalable_width_alt);
    let g4 = xy_lines(ids::DWIDTH1@, f.device_width_alt);
    let g5 = xy_lines(ids::VVECTOR@, f.vector);
    lemma_xy_lines_ok(ids::SWIDTH@, f.scalable_width);
    lemma_xy_lines_ok(ids::DWIDTH@, f.device_width);
    lemma_xy_lines_ok(ids::SWIDTH1@, f.scalable_width_alt);
    lemma_xy_lines_ok(ids::DWIDTH1@, f.device_width_alt);
    lemma_xy_lines_ok(ids::VVECTOR@, f.vector);
    lemma_lines_ok_append(e, g1);
    lemma_lines_ok_append(e + g1, g2);
    lemma_lines_ok_append(e + g1 + g2, g3);
    lemma_lines_ok_append(e + g1 + g2 + g3, g4);
    lemma_lines_ok_append(e + g1 + g2 + g3 + g4, g5);
    lemma_lines_ok_append(head_lines(f), e + g1 + g2 + g3 + g4 + g5);
}

proof fn lemma_count_nonblank(ls: Seq<Seq<char>>)
    requires
        lines_ok(ls),
    ensures
        count_nonblank(ls) == ls.len(),
    decreases ls.len(),
{
    if ls.len() > 0 {
        let p = ls.drop_last();
        assert forall|i: int| 0 <= i < p.len() implies no_newline(#[trigger] p[i]) && !all_ws(p[i]) by {
            assert(p[i] == ls[i]);
        }
        lemma_count_nonblank(p);
        assert(!all_ws(ls[ls.len() - 1]));
    }
}

/// The hexadecimal lines of bitmap rows.
pub open spec fn row_lines(rows: Seq<Seq<bool>>) -> Seq<Seq<char>> {
    rows.map_values(|r: Seq<bool>| crate::bitmap::row_chars(r))
}

/// The lines of a bitmap block.
pub open spec fn bitmap_lines(m: BitmapModel) -> Seq<Seq<char>> {
    seq![ids::BITMAP@] + row_lines(m.rows)
}

/// The lines of a glyph, as the writer produces them.
pub open spec fn glyph_lines(g: GlyphModel) -> Seq<Seq<char>> {
    seq![line_of(ids::STARTCHAR@, g.name)] + seq![
        line_of(ids::ENCODING@, dec_chars(g.codepoint as u32 as nat)),
    ] + seq![line_of(ids::BBX@, bbox_chars(g.bounding_box))] + widths_lines(
        g.metrics,
        g.scalable_width,
        g.device_width,
        g.scalable_width_alt,
        g.device_width_alt,
        g.vector,
    ) + bitmap_lines(g.bitmap) + seq![ids::ENDCHAR@]
}

/// The lines of glyphs, one after the other.
pub open spec fn glyphs_lines(gs: Seq<GlyphModel>) -> Seq<Seq<char>>
    decreases gs.len(),
{
    if gs.len() == 0 {
        Seq::empty()
    } else {
        glyphs_lines(gs.drop_last()) + glyph_lines(gs.last())
    }
}

proof fn lemma_join_rows(rows: Seq<Seq<bool>>)
    ensures
        join_lines(row_lines(rows)) == concat_map(
            rows,
            |r: Seq<bool>| crate::bitmap::row_chars(r) + seq!['\n'],
        ),
    decreases rows.len(),
{
    if rows.len() > 0 {
        lemma_join_rows(rows.drop_last());
        let ls = row_lines(rows);
        assert(ls.drop_last() =~= row_lines(rows.drop_last()));
        assert(join_lines(ls) =~= join_lines(ls.drop_last()) + (ls.last() + seq!['\n']));
    }
}

proof fn lemma_join_glyph(g: GlyphModel)
    ensures
        join_lines(glyph_lines(g)) == glyph_chars(g),
{
    let a = seq![line_of(ids::STARTCHAR@, g.name)];
    let b = seq![line_of(ids::ENCODING@, dec_chars(g.codepoint as u32 as nat))];
    let c = seq![line_of(ids::BBX@, bbox_chars(g.bounding_box))];
    let w = widths_lines(
        g.metrics,
        g.scalable_width,
        g.device_width,
        g.scalable_width_alt,
        g.device_width_alt,
        g.vector,
    );
    let bm = bitmap_lines(g.bitmap);
    let e = seq![ids::ENDCHAR@];
    lemma_join_rec(ids::STARTCHAR@, g.name);
    lemma_join_rec(ids::ENCODING@, dec_chars(g.codepoint as u32 as nat));
    lemma_join_rec(ids::BBX@, bbox_chars(g.bounding_box));
    lemma_join_widths(
        g.metrics,
        g.scalable_width,
        g.device_width,
        g.scalable_width_alt,
        g.device_width_alt,
        g.vector,
    );
    lemma_join_one(ids::BITMAP@);
    lemma_join_rows(g.bitmap.rows);
    lemma_join_append(seq![ids::BITMAP@], row_lines(g.bitmap.rows));
    lemma_join_one(ids::ENDCHAR@);
    lemma_join_append(a, b);
    lemma_join_append(a + b, c);
    lemma_join_append(a + b + c, w);
    lemma_join_append(a + b + c + w, bm);
    lemma_join_append(a + b + c + w + bm, e);
}

proof fn lemma_join_glyphs(gs: Seq<GlyphModel>)
    ensures
        join_lines(glyphs_lines(gs)) == concat_map(gs, |g: GlyphModel| glyph_chars(g)),
    decreases gs.len(),
{
    if gs.len() > 0 {
        lemma_join_glyphs(gs.drop_last());
        lemma_join_glyph(gs.last());
        lemma_join_append(glyphs_lines(gs.drop_last()), glyph_lines(gs.last()));
    }
}

/// A row that the writer can put on a line of its own: whole bytes, at
/// least one.
pub open spec fn row_ok(r: Seq<bool>) -> bool {
    r.len() > 0 && r.len() % 8 == 0 && r.len() <= usize::MAX
}

proof fn lemma_row_line(r: Seq<bool>)
    requires
        row_ok(r),
    ensures
        word_ok(crate::bitmap::row_chars(r)),
        crate::bitmap::row_chars(r).len() % 2 == 0,
        crate::bitmap::row_of(crate::bitmap::row_chars(r)) == Some(r),
{
    let bs = crate::bitmap::bits_to_bytes(r);
    lemma_bytes_to_bits(r);
    assert(bs.len() * 8 == r.len());
    lemma_row_round_trip(bs);
    lemma_hex_chars(bs);
    let h = crate::bitmap::hex_chars(bs);
    assert forall|k: int| 0 <= k < h.len() implies !is_ws(#[trigger] h[k]) by {
        let i = k / 2;
        assert(k == 2 * i || k == 2 * i + 1);
        lemma_hex_digit_char((bs[i] / 16) as nat);
        lemma_hex_digit_char((bs[i] % 16) as nat);
    }
}

proof fn lemma_hex_digit_char(d: nat)
    requires
        d < 16,
    ensures
        !is_ws(crate::bitmap::hex_digit_char(d)),
{
}

/// A glyph draft with the rows `rows` added.
pub open spec fn with_rows(g: GlyphDraft, rows: Seq<Seq<bool>>) -> GlyphDraft {
    GlyphDraft { rows: g.rows + rows, ..g }
}

/// A row line, read where bitmap rows are owed, adds its bits to the
/// current glyph.
#[verifier::spinoff_prover]
proof fn lemma_step_row(m: ParseModel, l: Seq<char>, bits: Seq<bool>, ln: nat, last: nat)
    requires
        m.state == ParseState::InBitmap,
        m.rows_left > 0,
        split_record(l) == (l, None::<Seq<char>>),
        l != ids::ENDCHAR@,
        crate::bitmap::row_of(l) == Some(bits),
    ensures
        step(m, l, ln, last) == Ok::<ParseModel, crate::error::ErrorModel>(
            ParseModel {
                font: with_last_glyph(
                    m.font,
                    GlyphDraft { rows: last_glyph(m.font).rows.push(bits), ..last_glyph(m.font) },
                ),
                rows_left: (m.rows_left - 1) as nat,
                ..m
            },
        ),
{
    reveal(step);
}

#[verifier::spinoff_prover]
proof fn lemma_run_rows(st: (ParseModel, nat), rows: Seq<Seq<bool>>, last: nat)
    requires
        st.0.state == ParseState::InBitmap,
        st.0.rows_left >= rows.len(),
        st.0.font.glyphs.len() > 0,
        forall|i: int| 0 <= i < rows.len() ==> row_ok(#[trigger] rows[i]),
    ensures
        run_from(st, row_lines(rows), last) == Ok::<(ParseModel, nat), (nat, crate::error::ErrorModel)>(
            (
                ParseModel {
                    font: with_last_glyph(st.0.font, with_rows(last_glyph(st.0.font), rows)),
                    rows_left: (st.0.rows_left - rows.len()) as nat,
                    ..st.0
                },
                st.1 + rows.len(),
            ),
        ),
    decreases rows.len(),
{
    let f = st.0.font;
    let g = last_glyph(f);
    if rows.len() == 0 {
        assert(row_lines(rows) =~= Seq::<Seq<char>>::empty());
        assert(g.rows + rows =~= g.rows);
        assert(with_last_glyph(f, with_rows(g, rows)).glyphs =~= f.glyphs);
    } else {
        let p = rows.drop_last();
        assert forall|i: int| 0 <= i < p.len() implies row_ok(#[trigger] p[i]) by {
            assert(p[i] == rows[i]);
        }
        lemma_run_rows(st, p, last);
        let ls = row_lines(rows);
        assert(ls.drop_last() =~= row_lines(p));
        let r = rows.last();
        assert(row_ok(r));
        let l = crate::bitmap::row_chars(r);
        assert(ls.last() == l);
        lemma_row_line(r);
        lemma_keyword_line(l);
        lemma_keywords();
        assert(l != ids::ENDCHAR@);
        let m1 = ParseModel {
            font: with_last_glyph(f, with_rows(g, p)),
            rows_left: (st.0.rows_left - p.len()) as nat,
            ..st.0
        };
        assert(last_glyph(m1.font) == with_rows(g, p));
        lemma_step_row(m1, l, r, st.1 + p.len() + 1, last);
        lemma_run_one((m1, st.1 + p.len()), l, last);
        assert((g.rows + p).push(r) =~= g.rows + rows);
        assert(with_last_glyph(m1.font, with_rows(g, rows)).glyphs =~= with_last_glyph(
            f,
            with_rows(g, rows),
        ).glyphs);
    }
}

proof fn lemma_last(f: FontDraft, a: GlyphDraft, b: GlyphDraft)
    requires
        f.glyphs.len() > 0,
    ensures
        last_glyph(with_last_glyph(f, a)) == a,
        with_last_glyph(with_last_glyph(f, a), b) == with_last_glyph(f, b),
        with_last_glyph(f, a).glyphs.len() == f.glyphs.len(),
{
    assert(with_last_glyph(with_last_glyph(f, a), b).glyphs =~= with_last_glyph(f, b).glyphs);
}

/// A record line inside a glyph changes the current glyph as
/// `glyph_record` says.
proof fn lemma_run_glyph_field(st: (ParseModel, nat), kw: Seq<char>, arg: Seq<char>, last: nat)
    requires
        st.0.state == ParseState::InChar,
        word_ok(kw),
        text_ok(arg),
        kw != ids::ENDFONT@,
        kw != ids::COMMENT@,
        kw != ids::ENDPROPERTIES@,
        kw != ids::ENDCHAR@,
        kw != ids::BITMAP@,
    ensures
        run_from(st, seq![line_of(kw, arg)], last) == match glyph_record(
            last_glyph(st.0.font),
            kw,
            arg,
        ) {
            Ok(g) => Ok((ParseModel { font: with_last_glyph(st.0.font, g), ..st.0 }, st.1 + 1)),
            Err(e) => Err((st.1 + 1, e)),
        },
{
    lemma_run_record(st, kw, arg, last);
}

/// The draft that reading a glyph leaves behind.
pub open spec fn glyph_draft(g: GlyphModel) -> GlyphDraft {
    GlyphDraft {
        name: Some(g.name),
        codepoint: Some(g.codepoint),
        bounding_box: Some(g.bounding_box),
        width: g.bounding_box.width as nat,
        height: g.bounding_box.height as nat,
        rows: g.bitmap.rows,
        metrics: metrics_draft(g.metrics),
        scalable_width: g.scalable_width,
        device_width: g.device_width,
        scalable_width_alt: g.scalable_width_alt,
        device_width_alt: g.device_width_alt,
        vector: g.vector,
    }
}

/// A glyph fit for one-line records: its name stands on one line without
/// whitespace at either end, its bitmap has the size of its bounding box,
/// and each row is whole bytes.
pub open spec fn glyph_ok(g: GlyphModel) -> bool {
    &&& text_ok(g.name)
    &&& g.bitmap.width == g.bounding_box.width
    &&& g.bitmap.height == g.bounding_box.height
    &&& g.bitmap.rows.len() == g.bitmap.height
    &&& forall|i: int| 0 <= i < g.bitmap.rows.len() ==> row_ok(#[trigger] g.bitmap.rows[i])
    &&& crate::model::rows_cover(g.bitmap.rows, g.bitmap.width)
}

#[verifier::spinoff_prover]
proof fn lemma_run_startchar(st: (ParseModel, nat), name: Seq<char>, last: nat)
    requires
        st.0.state == ParseState::InChars,
        text_ok(name),
    ensures
        run_from(st, seq![line_of(ids::STARTCHAR@, name)], last) == Ok::<(ParseModel, nat), (nat, crate::error::ErrorModel)>(
            (
                ParseModel {
                    state: ParseState::InChar,
                    font: FontDraft { glyphs: st.0.font.glyphs.push(new_glyph(name)), ..st.0.font },
                    ..st.0
                },
                st.1 + 1,
            ),
        ),
{
    lemma_keywords();
    lemma_glyph_keywords();
    lemma_run_record(st, ids::STARTCHAR@, name, last);
}

#[verifier::spinoff_prover]
proof fn lemma_run_encoding(st: (ParseModel, nat), c: char, last: nat)
    requires
        st.0.state == ParseState::InChar,
        st.0.font.glyphs.len() > 0,
    ensures
        run_from(st, seq![line_of(ids::ENCODING@, dec_chars(c as u32 as nat))], last) == Ok::<(ParseModel, nat), (nat, crate::error::ErrorModel)>(
            (
                ParseModel {
                    font: with_last_glyph(
                        st.0.font,
                        GlyphDraft { codepoint: Some(c), ..last_glyph(st.0.font) },
                    ),
                    ..st.0
                },
                st.1 + 1,
            ),
        ),
{
    lemma_keywords();
    lemma_glyph_keywords();
    let arg = dec_chars(c as u32 as nat);
    lemma_dec_text(c as u32 as nat);
    lemma_dec_chars(c as u32 as nat);
    lemma_first_ws_none(arg);
    lemma_u32_round_trip(c as u32);
    assert(u32_of(arg) == Some(c as u32));
    assert(encoding_of(arg) == Ok::<u32, crate::error::ErrorModel>(c as u32));
    assert((c as u32) as char == c);
    lemma_run_glyph_field(st, ids::ENCODING@, arg, last);
}

#[verifier::spinoff_prover]
proof fn lemma_run_bbx(st: (ParseModel, nat), b: crate::values::BoundingBox, last: nat)
    requires
        st.0.state == ParseState::InChar,
        st.0.font.glyphs.len() > 0,
    ensures
        run_from(st, seq![line_of(ids::BBX@, bbox_chars(b))], last) == Ok::<(ParseModel, nat), (nat, crate::error::ErrorModel)>(
            (
                ParseModel {
                    font: with_last_glyph(
                        st.0.font,
                        GlyphDraft { bounding_box: Some(b), ..last_glyph(st.0.font) },
                    ),
                    ..st.0
                },
                st.1 + 1,
            ),
        ),
{
    lemma_keywords();
    lemma_glyph_keywords();
    lemma_bbox_text(b);
    lemma_bbox_round_trip(b);
    assert(bbox_of(bbox_chars(b)) == Some(b));
    lemma_run_glyph_field(st, ids::BBX@, bbox_chars(b), last);
}

#[verifier::spinoff_prover]
#[verifier::rlimit(100)]
proof fn lemma_run_glyph_scalable_width(st: (ParseModel, nat), o: Option<XYPair>, last: nat)
    requires
        st.0.state == ParseState::InChar,
        st.0.font.glyphs.len() > 0,
        last_glyph(st.0.font).scalable_width is None,
    ensures
        run_from(st, xy_lines(ids::SWIDTH@, o), last) == Ok::<(ParseModel, nat), (nat, crate::error::ErrorModel)>(
            (
                ParseModel {
                    font: with_last_glyph(
                        st.0.font,
                        GlyphDraft { scalable_width: o, ..last_glyph(st.0.font) },
                    ),
                    ..st.0
                },
                st.1 + xy_lines(ids::SWIDTH@, o).len(),
            ),
        ),
{
    lemma_keywords();
    lemma_glyph_keywords();
    let g = last_glyph(st.0.font);
    if let Some(p) = o {
        lemma_xy_text(p);
        lemma_xy_round_trip(p);
        assert(xy_of(xy_chars(p)) == Some(p));
        assert(glyph_record(g, ids::SWIDTH@, xy_chars(p)) == Ok::<GlyphDraft, crate::error::ErrorModel>(GlyphDraft { scalable_width: Some(p), ..g }));
        lemma_run_glyph_field(st, ids::SWIDTH@, xy_chars(p), last);
    } else {
        assert(xy_lines(ids::SWIDTH@, o) =~= Seq::<Seq<char>>::empty());
        assert(GlyphDraft { scalable_width: o, ..g } == g);
        assert(with_last_glyph(st.0.font, g).glyphs =~= st.0.font.glyphs);
        assert(with_last_glyph(st.0.font, g) == st.0.font);
    }
}

#[verifier::spinoff_prover]
#[verifier::rlimit(100)]
proof fn lemma_run_glyph_device_width(st: (ParseModel, nat), o: Option<XYPair>, last: nat)
    requires
        st.0.state == ParseState::InChar,
        st.0.font.glyphs.len() > 0,
        last_glyph(st.0.font).device_width is None,
    ensures
        run_from(st, xy_lines(ids::DWIDTH@, o), last) == Ok::<(ParseModel, nat), (nat, crate::error::ErrorModel)>(
            (
                ParseModel {
                    font: with_last_glyph(
                        st.0.font,
                        GlyphDraft { device_width: o, ..last_glyph(st.0.font) },
                    ),
                    ..st.0
                },
                st.1 + xy_lines(ids::DWIDTH@, o).len(),
            ),
        ),
{
    lemma_keywords();
    lemma_glyph_keywords();
    let g = last_glyph(st.0.font);
    if let Some(p) = o {
        lemma_xy_text(p);
        lemma_xy_round_trip(p);
        assert(xy_of(xy_chars(p)) == Some(p));
        assert(glyph_record(g, ids::DWIDTH@, xy_chars(p)) == Ok::<GlyphDraft, crate::error::ErrorModel>(GlyphDraft { device_width: Some(p), ..g }));
        lemma_run_glyph_field(st, ids::DWIDTH@, xy_chars(p), last);
    } else {
        assert(xy_lines(ids::DWIDTH@, o) =~= Seq::<Seq<char>>::empty());
        assert(GlyphDraft { device_width: o, ..g } == g);
        assert(with_last_glyph(st.0.font, g).glyphs =~= st.0.font.glyphs);
        assert(with_last_glyph(st.0.font, g) == st.0.font);
    }
}

#[verifier::spinoff_prover]
#[verifier::rlimit(100)]
proof fn lemma_run_glyph_scalable_width_alt(st: (ParseModel, nat), o: Option<XYPair>, last: nat)
    requires
        st.0.state == ParseState::InChar,
        st.0.font.glyphs.len() > 0,
        last_glyph(st.0.font).scalable_width_alt is None,
    ensures
        run_from(st, xy_lines(ids::SWIDTH1@, o), last) == Ok::<(ParseModel, nat), (nat, crate::error::ErrorModel)>(
            (
                ParseModel {
                    font: with_last_glyph(
                        st.0.font,
                        GlyphDraft { scalable_width_alt: o, ..last_glyph(st.0.font) },
                    ),
                    ..st.0
                },
                st.1 + xy_lines(ids::SWIDTH1@, o).len(),
            ),
        ),
{
    lemma_keywords();
    lemma_glyph_keywords();
    let g = last_glyph(st.0.font);
    if let Some(p) = o {
        lemma_xy_text(p);
        lemma_xy_round_trip(p);
        assert(xy_of(xy_chars(p)) == Some(p));
        assert(glyph_record(g, ids::SWIDTH1@, xy_chars(p)) == Ok::<GlyphDraft, crate::error::ErrorModel>(GlyphDraft { scalable_width_alt: Some(p), ..g }));
        lemma_run_glyph_field(st, ids::SWIDTH1@, xy_chars(p), last);
    } else {
        assert(xy_lines(ids::SWIDTH1@, o) =~= Seq::<Seq<char>>::empty());
        assert(GlyphDraft { scalable_width_alt: o, ..g } == g);
        assert(with_last_glyph(st.0.font, g).glyphs =~= st.0.font.glyphs);
        assert(with_last_glyph(st.0.font, g) == st.0.font);
    }
}

#[verifier::spinoff_prover]
#[verifier::rlimit(100)]
proof fn lemma_run_glyph_device_width_alt(st: (ParseModel, nat), o: Option<XYPair>, last: nat)
    requires
        st.0.state == ParseState::InChar,
        st.0.font.glyphs.len() > 0,
        last_glyph(st.0.font).device_width_alt is None,
    ensures
        run_from(st, xy_lines(ids::DWIDTH1@, o), last) == Ok::<(ParseModel, nat), (nat, crate::error::ErrorModel)>(
            (
                ParseModel {
                    font: with_last_glyph(
                        st.0.font,
                        GlyphDraft { device_width_alt: o, ..last_glyph(st.0.font) },
                    ),
                    ..st.0
                },
                st.1 + xy_lines(ids::DWIDTH1@, o).len(),
            ),
        ),
{
    lemma_keywords();
    lemma_glyph_keywords();
    let g = last_glyph(st.0.font);
    if let Some(p) = o {
        lemma_xy_text(p);
        lemma_xy_round_trip(p);
        assert(xy_of(xy_chars(p)) == Some(p));
        assert(glyph_record(g, ids::DWIDTH1@, xy_chars(p)) == Ok::<GlyphDraft, crate::error::ErrorModel>(GlyphDraft { device_width_alt: Some(p), ..g }));
        lemma_run_glyph_field(st, ids::DWIDTH1@, xy_chars(p), last);
    } else {
        assert(xy_lines(ids::DWIDTH1@, o) =~= Seq::<Seq<char>>::empty());
        assert(GlyphDraft { device_width_alt: o, ..g } == g);
        assert(with_last_glyph(st.0.font, g).glyphs =~= st.0.font.glyphs);
        assert(with_last_glyph(st.0.font, g) == st.0.font);
    }
}

#[verifier::spinoff_prover]
#[verifier::rlimit(100)]
proof fn lemma_run_glyph_vector(st: (ParseModel, nat), o: Option<XYPair>, last: nat)
    requires
        st.0.state == ParseState::InChar,
        st.0.font.glyphs.len() > 0,
        last_glyph(st.0.font).vector is None,
    ensures
        run_from(st, xy_lines(ids::VVECTOR@, o), last) == Ok::<(ParseModel, nat), (nat, crate::error::ErrorModel)>(
            (
                ParseModel {
                    font: with_last_glyph(
                        st.0.font,
                        GlyphDraft { vector: o, ..last_glyph(st.0.font) },
                    ),
                    ..st.0
                },
                st.1 + xy_lines(ids::VVECTOR@, o).len(),
            ),
        ),
{
    lemma_keywords();
    lemma_glyph_keywords();
    let g = last_glyph(st.0.font);
    if let Some(p) = o {
        lemma_xy_text(p);
        lemma_xy_round_trip(p);
        assert(xy_of(xy_chars(p)) == Some(p));
        assert(glyph_record(g, ids::VVECTOR@, xy_chars(p)) == Ok::<GlyphDraft, crate::error::ErrorModel>(GlyphDraft { vector: Some(p), ..g }));
        lemma_run_glyph_field(st, ids::VVECTOR@, xy_chars(p), last);
    } else {
        assert(xy_lines(ids::VVECTOR@, o) =~= Seq::<Seq<char>>::empty());
        assert(GlyphDraft { vector: o, ..g } == g);
        assert(with_last_glyph(st.0.font, g).glyphs =~= st.0.font.glyphs);
        assert(with_last_glyph(st.0.font, g) == st.0.font);
    }
}

#[verifier::spinoff_prover]
#[verifier::rlimit(100)]
proof fn lemma_run_glyph_metrics(st: (ParseModel, nat), m: MetricsSet, last: nat)
    requires
        st.0.state == ParseState::InChar,
        st.0.font.glyphs.len() > 0,
        last_glyph(st.0.font).metrics is None,
    ensures
        run_from(st, metrics_lines(m), last) == Ok::<(ParseModel, nat), (nat, crate::error::ErrorModel)>(
            (
                ParseModel {
                    font: with_last_glyph(
                        st.0.font,
                        GlyphDraft { metrics: metrics_draft(m), ..last_glyph(st.0.font) },
                    ),
                    ..st.0
                },
                st.1 + metrics_lines(m).len(),
            ),
        ),
{
    lemma_keywords();
    lemma_glyph_keywords();
    let g = last_glyph(st.0.font);
    if m != MetricsSet::Normal {
        let arg = dec_chars(metrics_code(m));
        lemma_dec_text(metrics_code(m));
        lemma_metrics_round_trip(m);
        assert(metrics_of(arg) == Some(m));
        assert(glyph_record(g, ids::METRICSSET@, arg) == Ok::<GlyphDraft, crate::error::ErrorModel>(GlyphDraft { metrics: Some(m), ..g }));
        lemma_run_glyph_field(st, ids::METRICSSET@, arg, last);
    } else {
        assert(metrics_lines(m) =~= Seq::<Seq<char>>::empty());
        assert(GlyphDraft { metrics: metrics_draft(m), ..g } == g);
        assert(with_last_glyph(st.0.font, g).glyphs =~= st.0.font.glyphs);
        assert(with_last_glyph(st.0.font, g) == st.0.font);
    }
}


#[verifier::spinoff_prover]
proof fn lemma_run_bitmap_start(st: (ParseModel, nat), b: crate::values::BoundingBox, last: nat)
    requires
        st.0.state == ParseState::InChar,
        st.0.font.glyphs.len() > 0,
        last_glyph(st.0.font).bounding_box == Some(b),
    ensures
        run_from(st, seq![ids::BITMAP@], last) == Ok::<(ParseModel, nat), (nat, crate::error::ErrorModel)>(
            (
                ParseModel {
                    state: ParseState::InBitmap,
                    font: with_last_glyph(
                        st.0.font,
                        GlyphDraft {
                            width: b.width as nat,
                            height: b.height as nat,
                            rows: Seq::empty(),
                            ..last_glyph(st.0.font)
                        },
                    ),
                    rows_left: b.height as nat,
                },
                st.1 + 1,
            ),
        ),
{
    lemma_keywords();
    lemma_glyph_keywords();
    lemma_run_one(st, ids::BITMAP@, last);
    lemma_keyword_line(ids::BITMAP@);
    reveal(step);
    assert(record_step(st.0, ids::BITMAP@, None) == bitmap_start(st.0));
}

#[verifier::spinoff_prover]
proof fn lemma_run_endchar(st: (ParseModel, nat), last: nat)
    requires
        st.0.state == ParseState::InBitmap,
        st.0.rows_left == 0,
        st.0.font.glyphs.len() > 0,
        glyph_draft_error(last_glyph(st.0.font)) is None,
    ensures
        run_from(st, seq![ids::ENDCHAR@], last) == Ok::<(ParseModel, nat), (nat, crate::error::ErrorModel)>(
            (ParseModel { state: ParseState::InChars, ..st.0 }, st.1 + 1),
        ),
{
    lemma_keywords();
    lemma_glyph_keywords();
    lemma_run_one(st, ids::ENDCHAR@, last);
    lemma_keyword_line(ids::ENDCHAR@);
    reveal(step);
    let m1 = ParseModel { state: ParseState::InChar, ..st.0 };
    assert(ids::ENDCHAR@ != ids::ENDFONT@);
    assert(ids::ENDCHAR@ != ids::COMMENT@);
    assert(record_step(m1, ids::ENDCHAR@, None) == Ok::<ParseModel, crate::error::ErrorModel>(
        ParseModel { state: ParseState::InChars, ..st.0 },
    ));
}

/// A glyph draft with the glyph's metrics set, widths and vector.
pub open spec fn glyph_widths(c: GlyphDraft, g: GlyphModel) -> GlyphDraft {
    GlyphDraft {
        metrics: metrics_draft(g.metrics),
        scalable_width: g.scalable_width,
        device_width: g.device_width,
        scalable_width_alt: g.scalable_width_alt,
        device_width_alt: g.device_width_alt,
        vector: g.vector,
        ..c
    }
}

#[verifier::spinoff_prover]
#[verifier::rlimit(100)]
proof fn lemma_run_glyph_widths(st: (ParseModel, nat), g: GlyphModel, last: nat)
    requires
        st.0.state == ParseState::InChar,
        st.0.font.glyphs.len() > 0,
        last_glyph(st.0.font).metrics is None,
        last_glyph(st.0.font).scalable_width is None,
        last_glyph(st.0.font).device_width is None,
        last_glyph(st.0.font).scalable_width_alt is None,
        last_glyph(st.0.font).device_width_alt is None,
        last_glyph(st.0.font).vector is None,
    ensures
        run_from(
            st,
            widths_lines(
                g.metrics,
                g.scalable_width,
                g.device_width,
                g.scalable_width_alt,
                g.device_width_alt,
                g.vector,
            ),
            last,
        ) == Ok::<(ParseModel, nat), (nat, crate::error::ErrorModel)>(
            (
                ParseModel {
                    font: with_last_glyph(st.0.font, glyph_widths(last_glyph(st.0.font), g)),
                    ..st.0
                },
                st.1 + widths_lines(
                    g.metrics,
                    g.scalable_width,
                    g.device_width,
                    g.scalable_width_alt,
                    g.device_width_alt,
                    g.vector,
                ).len(),
            ),
        ),
{
    let f0 = st.0.font;
    let c0 = last_glyph(f0);
    let e = metrics_lines(g.metrics);
    let g1 = xy_lines(ids::SWIDTH@, g.scalable_width);
    let g2 = xy_lines(ids::DWIDTH@, g.device_width);
    let g3 = xy_lines(ids::SWIDTH1@, g.scalable_width_alt);
    let g4 = xy_lines(ids::DWIDTH1@, g.device_width_alt);
    let g5 = xy_lines(ids::VVECTOR@, g.vector);
    let c1 = GlyphDraft { metrics: metrics_draft(g.metrics), ..c0 };
    let c2 = GlyphDraft { scalable_width: g.scalable_width, ..c1 };
    let c3 = GlyphDraft { device_width: g.device_width, ..c2 };
    let c4 = GlyphDraft { scalable_width_alt: g.scalable_width_alt, ..c3 };
    let c5 = GlyphDraft { device_width_alt: g.device_width_alt, ..c4 };
    let c6 = GlyphDraft { vector: g.vector, ..c5 };
    let s1 = (ParseModel { font: with_last_glyph(f0, c1), ..st.0 }, st.1 + e.len());
    lemma_run_glyph_metrics(st, g.metrics, last);
    lemma_last(f0, c1, c2);
    let s2 = (ParseModel { font: with_last_glyph(f0, c2), ..st.0 }, s1.1 + g1.len());
    lemma_run_glyph_scalable_width(s1, g.scalable_width, last);
    lemma_run_append(st, e, g1, last);
    lemma_last(f0, c2, c3);
    let s3 = (ParseModel { font: with_last_glyph(f0, c3), ..st.0 }, s2.1 + g2.len());
    lemma_run_glyph_device_width(s2, g.device_width, last);
    lemma_run_append(st, e + g1, g2, last);
    lemma_last(f0, c3, c4);
    let s4 = (ParseModel { font: with_last_glyph(f0, c4), ..st.0 }, s3.1 + g3.len());
    lemma_run_glyph_scalable_width_alt(s3, g.scalable_width_alt, last);
    lemma_run_append(st, e + g1 + g2, g3, last);
    lemma_last(f0, c4, c5);
    let s5 = (ParseModel { font: with_last_glyph(f0, c5), ..st.0 }, s4.1 + g4.len());
    lemma_run_glyph_device_width_alt(s4, g.device_width_alt, last);
    lemma_run_append(st, e + g1 + g2 + g3, g4, last);
    lemma_last(f0, c5, c6);
    lemma_run_glyph_vector(s5, g.vector, last);
    lemma_run_append(st, e + g1 + g2 + g3 + g4, g5, last);
    assert(c6 == glyph_widths(c0, g));
}

/// One glyph's lines, read between glyphs, add the glyph's draft.
#[verifier::spinoff_prover]
#[verifier::rlimit(100)]
proof fn lemma_run_glyph(st: (ParseModel, nat), g: GlyphModel, last: nat)
    requires
        st.0.state == ParseState::InChars,
        st.0.rows_left == 0,
        glyph_ok(g),
        glyph_error(g) is None,
    ensures
        run_from(st, glyph_lines(g), last) == Ok::<(ParseModel, nat), (nat, crate::error::ErrorModel)>(
            (
                ParseModel {
                    font: FontDraft { glyphs: st.0.font.glyphs.push(glyph_draft(g)), ..st.0.font },
                    ..st.0
                },
                st.1 + glyph_lines(g).len(),
            ),
        ),
{
    let f = st.0.font;
    let b = g.bounding_box;
    let a = seq![line_of(ids::STARTCHAR@, g.name)];
    let bl = seq![line_of(ids::ENCODING@, dec_chars(g.codepoint as u32 as nat))];
    let cl = seq![line_of(ids::BBX@, bbox_chars(b))];
    let w = widths_lines(
        g.metrics,
        g.scalable_width,
        g.device_width,
        g.scalable_width_alt,
        g.device_width_alt,
        g.vector,
    );
    let bm = seq![ids::BITMAP@];
    let rl = row_lines(g.bitmap.rows);
    let el = seq![ids::ENDCHAR@];
    let f1 = FontDraft { glyphs: f.glyphs.push(new_glyph(g.name)), ..f };
    let m1 = ParseModel { state: ParseState::InChar, font: f1, ..st.0 };
    lemma_run_startchar(st, g.name, last);
    assert(last_glyph(f1) == new_glyph(g.name));
    let c2 = GlyphDraft { codepoint: Some(g.codepoint), ..new_glyph(g.name) };
    let s2 = (ParseModel { font: with_last_glyph(f1, c2), ..m1 }, st.1 + 2);
    lemma_run_encoding((m1, st.1 + 1), g.codepoint, last);
    lemma_run_append(st, a, bl, last);
    let c3 = GlyphDraft { bounding_box: Some(b), ..c2 };
    lemma_last(f1, c2, c3);
    let s3 = (ParseModel { font: with_last_glyph(f1, c3), ..m1 }, st.1 + 3);
    lemma_run_bbx(s2, b, last);
    lemma_run_append(st, a + bl, cl, last);
    lemma_last(f1, c3, c3);
    let c4 = glyph_widths(c3, g);
    lemma_last(f1, c3, c4);
    let s4 = (ParseModel { font: with_last_glyph(f1, c4), ..m1 }, s3.1 + w.len());
    lemma_run_glyph_widths(s3, g, last);
    lemma_run_append(st, a + bl + cl, w, last);
    let c5 = GlyphDraft { width: b.width as nat, height: b.height as nat, rows: Seq::empty(), ..c4 };
    lemma_last(f1, c4, c5);
    let s5 = (
        ParseModel { state: ParseState::InBitmap, font: with_last_glyph(f1, c5), rows_left: b.height as nat },
        s4.1 + 1,
    );
    lemma_run_bitmap_start(s4, b, last);
    lemma_run_append(st, a + bl + cl + w, bm, last);
    let c6 = with_rows(c5, g.bitmap.rows);
    lemma_last(f1, c5, c6);
    let s6 = (
        ParseModel { state: ParseState::InBitmap, font: with_last_glyph(f1, c6), rows_left: 0 },
        s5.1 + g.bitmap.rows.len(),
    );
    lemma_run_rows(s5, g.bitmap.rows, last);
    lemma_run_append(st, a + bl + cl + w + bm, rl, last);
    assert(c6.rows =~= g.bitmap.rows);
    assert(c6 == glyph_draft(g));
    assert(glyph_draft_error(c6) is None);
    lemma_last(f1, c6, c6);
    lemma_run_endchar(s6, last);
    lemma_run_append(st, a + bl + cl + w + bm + rl, el, last);
    assert(with_last_glyph(f1, c6).glyphs =~= f.glyphs.push(glyph_draft(g)));
    assert(a + bl + cl + w + bm + rl + el =~= glyph_lines(g));
}

/// A glyph fit for one-line records and valid.
pub open spec fn glyph_fits(g: GlyphModel) -> bool {
    glyph_ok(g) && glyph_error(g) is None
}

/// Glyphs' lines, read between glyphs, add their drafts in order.
proof fn lemma_run_glyphs(st: (ParseModel, nat), gs: Seq<GlyphModel>, last: nat)
    requires
        st.0.state == ParseState::InChars,
        st.0.rows_left == 0,
        forall|i: int| 0 <= i < gs.len() ==> glyph_fits(#[trigger] gs[i]),
    ensures
        run_from(st, glyphs_lines(gs), last) == Ok::<(ParseModel, nat), (nat, crate::error::ErrorModel)>(
            (
                ParseModel {
                    font: FontDraft {
                        glyphs: st.0.font.glyphs + gs.map_values(|g: GlyphModel| glyph_draft(g)),
                        ..st.0.font
                    },
                    ..st.0
                },
                st.1 + glyphs_lines(gs).len(),
            ),
        ),
    decreases gs.len(),
{
    if gs.len() == 0 {
        assert(glyphs_lines(gs) =~= Seq::<Seq<char>>::empty());
        assert(st.0.font.glyphs + gs.map_values(|g: GlyphModel| glyph_draft(g)) =~= st.0.font.glyphs);
    } else {
        let p = gs.drop_last();
        assert forall|i: int| 0 <= i < p.len() implies glyph_fits(#[trigger] p[i]) by {
            assert(p[i] == gs[i]);
        }
        lemma_run_glyphs(st, p, last);
        let sp = (
            ParseModel {
                font: FontDraft {
                    glyphs: st.0.font.glyphs + p.map_values(|g: GlyphModel| glyph_draft(g)),
                    ..st.0.font
                },
                ..st.0
            },
            st.1 + glyphs_lines(p).len(),
        );
        assert(glyph_fits(gs.last()));
        lemma_run_glyph(sp, gs.last(), last);
        lemma_run_append(st, glyphs_lines(p), glyph_lines(gs.last()), last);
        assert((st.0.font.glyphs + p.map_values(|g: GlyphModel| glyph_draft(g))).push(
            glyph_draft(gs.last()),
        ) =~= st.0.font.glyphs + gs.map_values(|g: GlyphModel| glyph_draft(g)));
    }
}

proof fn lemma_widths_lines_ok(
    m: MetricsSet,
    sw: Option<XYPair>,
    dw: Option<XYPair>,
    swa: Option<XYPair>,
    dwa: Option<XYPair>,
    v: Option<XYPair>,
)
    ensures
        lines_ok(widths_lines(m, sw, dw, swa, dwa, v)),
{
    lemma_keywords();
    let e = metrics_lines(m);
    if m != MetricsSet::Normal {
        lemma_dec_text(metrics_code(m));
        lemma_record_lines_ok(ids::METRICSSET@, dec_chars(metrics_code(m)));
    }
    let g1 = xy_lines(ids::SWIDTH@, sw);
    let g2 = xy_lines(ids::DWIDTH@, dw);
    let g3 = xy_lines(ids::SWIDTH1@, swa);
    let g4 = xy_lines(ids::DWIDTH1@, dwa);
    let g5 = xy_lines(ids::VVECTOR@, v);
    lemma_xy_lines_ok(ids::SWIDTH@, sw);
    lemma_xy_lines_ok(ids::DWIDTH@, dw);
    lemma_xy_lines_ok(ids::SWIDTH1@, swa);
    lemma_xy_lines_ok(ids::DWIDTH1@, dwa);
    lemma_xy_lines_ok(ids::VVECTOR@, v);
    lemma_lines_ok_append(e, g1);
    lemma_lines_ok_append(e + g1, g2);
    lemma_lines_ok_append(e + g1 + g2, g3);
    lemma_lines_ok_append(e + g1 + g2 + g3, g4);
    lemma_lines_ok_append(e + g1 + g2 + g3 + g4, g5);
}

proof fn lemma_glyph_lines_ok(g: GlyphModel)
    requires
        glyph_ok(g),
    ensures
        lines_ok(glyph_lines(g)),
{
    lemma_keywords();
    lemma_glyph_keywords();
    let a = seq![line_of(ids::STARTCHAR@, g.name)];
    let bl = seq![line_of(ids::ENCODING@, dec_chars(g.codepoint as u32 as nat))];
    let cl = seq![line_of(ids::BBX@, bbox_chars(g.bounding_box))];
    let w = widths_lines(
        g.metrics,
        g.scalable_width,
        g.device_width,
        g.scalable_width_alt,
        g.device_width_alt,
        g.vector,
    );
    let bm = seq![ids::BITMAP@];
    let rl = row_lines(g.bitmap.rows);
    let el = seq![ids::ENDCHAR@];
    lemma_record_lines_ok(ids::STARTCHAR@, g.name);
    lemma_dec_text(g.codepoint as u32 as nat);
    lemma_record_lines_ok(ids::ENCODING@, dec_chars(g.codepoint as u32 as nat));
    lemma_bbox_text(g.bounding_box);
    lemma_record_lines_ok(ids::BBX@, bbox_chars(g.bounding_box));
    lemma_widths_lines_ok(
        g.metrics,
        g.scalable_width,
        g.device_width,
        g.scalable_width_alt,
        g.device_width_alt,
        g.vector,
    );
    lemma_keyword_line(ids::BITMAP@);
    assert(bm[0] == ids::BITMAP@);
    lemma_keyword_line(ids::ENDCHAR@);
    assert(el[0] == ids::ENDCHAR@);
    assert forall|i: int| 0 <= i < rl.len() implies no_newline(#[trigger] rl[i]) && !all_ws(rl[i]) by {
        assert(row_ok(g.bitmap.rows[i]));
        lemma_row_line(g.bitmap.rows[i]);
        lemma_keyword_line(rl[i]);
    }
    lemma_lines_ok_append(a, bl);
    lemma_lines_ok_append(a + bl, cl);
    lemma_lines_ok_append(a + bl + cl, w);
    lemma_lines_ok_append(a + bl + cl + w, bm);
    lemma_lines_ok_append(a + bl + cl + w + bm, rl);
    lemma_lines_ok_append(a + bl + cl + w + bm + rl, el);
}

proof fn lemma_glyphs_lines_ok(gs: Seq<GlyphModel>)
    requires
        forall|i: int| 0 <= i < gs.len() ==> glyph_ok(#[trigger] gs[i]),
    ensures
        lines_ok(glyphs_lines(gs)),
    decreases gs.len(),
{
    if gs.len() > 0 {
        let p = gs.drop_last();
        assert forall|i: int| 0 <= i < p.len() implies glyph_ok(#[trigger] p[i]) by {
            assert(p[i] == gs[i]);
        }
        lemma_glyphs_lines_ok(p);
        assert(glyph_ok(gs.last()));
        lemma_glyph_lines_ok(gs.last());
        lemma_lines_ok_append(glyphs_lines(p), glyph_lines(gs.last()));
    }
}

proof fn lemma_glyph_drafts(gs: Seq<GlyphModel>)
    requires
        forall|i: int| 0 <= i < gs.len() ==> glyph_fits(#[trigger] gs[i]),
    ensures
        crate::parser::first_draft_error(gs.map_values(|g: GlyphModel| glyph_draft(g))) is None,
        gs.map_values(|g: GlyphModel| glyph_draft(g)).map_values(
            |d: GlyphDraft| crate::parser::finish_glyph(d),
        ) == gs,
    decreases gs.len(),
{
    let ds = gs.map_values(|g: GlyphModel| glyph_draft(g));
    if gs.len() == 0 {
        assert(ds.map_values(|d: GlyphDraft| crate::parser::finish_glyph(d)) =~= gs);
    } else {
        let rest = gs.drop_first();
        assert forall|i: int| 0 <= i < rest.len() implies glyph_fits(#[trigger] rest[i]) by {
            assert(rest[i] == gs[i + 1]);
        }
        lemma_glyph_drafts(rest);
        assert(ds.drop_first() =~= rest.map_values(|g: GlyphModel| glyph_draft(g)));
        assert(glyph_fits(gs[0]));
        assert(ds[0] == glyph_draft(gs[0]));
        assert(crate::parser::finish_glyph(glyph_draft(gs[0])) == gs[0]);
        assert forall|i: int| 0 <= i < gs.len() implies #[trigger] crate::parser::finish_glyph(
            ds[i],
        ) == gs[i] by {
            if i > 0 {
                assert(ds[i] == ds.drop_first()[i - 1]);
                assert(gs[i] == rest[i - 1]);
                assert(rest.map_values(|g: GlyphModel| glyph_draft(g)).map_values(
                    |d: GlyphDraft| crate::parser::finish_glyph(d),
                )[i - 1] == rest[i - 1]);
            }
        }
        assert(ds.map_values(|d: GlyphDraft| crate::parser::finish_glyph(d)) =~= gs);
    }
}

/// What the property-block keywords look like, enough to tell them apart.
pub proof fn lemma_xlfd_keywords()
    ensures
        word_ok(ids::FOUNDRY@),
        word_ok(ids::FAMILY_NAME@),
        word_ok(ids::WEIGHT_NAME@),
        word_ok(ids::SLANT@),
        word_ok(ids::SETWIDTH_NAME@),
        word_ok(ids::ADD_STYLE_NAME@),
        word_ok(ids::PIXEL_SIZE@),
        word_ok(ids::POINT_SIZE@),
        word_ok(ids::RESOLUTION_X@),
        word_ok(ids::RESOLUTION_Y@),
        word_ok(ids::SPACING@),
        word_ok(ids::AVERAGE_WIDTH@),
        word_ok(ids::CHARSET_REGISTRY@),
        word_ok(ids::CHARSET_ENCODING@),
        word_ok(ids::STARTPROPERTIES@),
        word_ok(ids::ENDPROPERTIES@),
        ids::ENDPROPERTIES@[0] == 'E',
        ids::FOUNDRY@.len() == 7 && ids::FOUNDRY@[0] == 'F',
        ids::FAMILY_NAME@.len() == 11 && ids::FAMILY_NAME@[0] == 'F',
        ids::WEIGHT_NAME@.len() == 11 && ids::WEIGHT_NAME@[0] == 'W',
        ids::SLANT@.len() == 5 && ids::SLANT@[0] == 'S',
        ids::SETWIDTH_NAME@.len() == 13 && ids::SETWIDTH_NAME@[0] == 'S',
        ids::ADD_STYLE_NAME@.len() == 14 && ids::ADD_STYLE_NAME@[0] == 'A',
        ids::PIXEL_SIZE@.len() == 10 && ids::PIXEL_SIZE@[0] == 'P' && ids::PIXEL_SIZE@[1] == 'I',
        ids::POINT_SIZE@.len() == 10 && ids::POINT_SIZE@[0] == 'P' && ids::POINT_SIZE@[1] == 'O',
        ids::RESOLUTION_X@.len() == 12 && ids::RESOLUTION_X@[0] == 'R' && ids::RESOLUTION_X@[11] == 'X',
        ids::RESOLUTION_Y@.len() == 12 && ids::RESOLUTION_Y@[0] == 'R' && ids::RESOLUTION_Y@[11] == 'Y',
        ids::SPACING@.len() == 7 && ids::SPACING@[0] == 'S',
        ids::AVERAGE_WIDTH@.len() == 13 && ids::AVERAGE_WIDTH@[0] == 'A',
        ids::CHARSET_REGISTRY@.len() == 16 && ids::CHARSET_REGISTRY@[0] == 'C' && ids::CHARSET_REGISTRY@[8] == 'R',
        ids::CHARSET_ENCODING@.len() == 16 && ids::CHARSET_ENCODING@[0] == 'C' && ids::CHARSET_ENCODING@[8] == 'E',
{
    reveal_strlit("FOUNDRY");
    reveal_strlit("FAMILY_NAME");
    reveal_strlit("WEIGHT_NAME");
    reveal_strlit("SLANT");
    reveal_strlit("SETWIDTH_NAME");
    reveal_strlit("ADD_STYLE_NAME");
    reveal_strlit("PIXEL_SIZE");
    reveal_strlit("POINT_SIZE");
    reveal_strlit("RESOLUTION_X");
    reveal_strlit("RESOLUTION_Y");
    reveal_strlit("SPACING");
    reveal_strlit("AVERAGE_WIDTH");
    reveal_strlit("CHARSET_REGISTRY");
    reveal_strlit("CHARSET_ENCODING");
    reveal_strlit("STARTPROPERTIES");
    reveal_strlit("ENDPROPERTIES");
    lemma_word(ids::FOUNDRY@);
    lemma_word(ids::FAMILY_NAME@);
    lemma_word(ids::WEIGHT_NAME@);
    lemma_word(ids::SLANT@);
    lemma_word(ids::SETWIDTH_NAME@);
    lemma_word(ids::ADD_STYLE_NAME@);
    lemma_word(ids::PIXEL_SIZE@);
    lemma_word(ids::POINT_SIZE@);
    lemma_word(ids::RESOLUTION_X@);
    lemma_word(ids::RESOLUTION_Y@);
    lemma_word(ids::SPACING@);
    lemma_word(ids::AVERAGE_WIDTH@);
    lemma_word(ids::CHARSET_REGISTRY@);
    lemma_word(ids::CHARSET_ENCODING@);
    lemma_word(ids::STARTPROPERTIES@);
    lemma_word(ids::ENDPROPERTIES@);
}

proof fn lemma_double_no_newline(s: Seq<char>)
    requires
        no_newline(s),
    ensures
        no_newline(crate::values::double_quotes(s)),
    decreases s.len(),
{
    if s.len() > 0 {
        let t = s.drop_first();
        assert forall|i: int| 0 <= i < t.len() implies t[i] != '\n' by {
            assert(t[i] == s[i + 1]);
        }
        lemma_double_no_newline(t);
        assert(s[0] != '\n');
    }
}

proof fn lemma_quoted_text(s: Seq<char>)
    requires
        no_newline(s),
    ensures
        text_ok(crate::values::quoted_chars(s)),
{
    lemma_double_no_newline(s);
    let d = crate::values::double_quotes(s);
    let q = crate::values::quoted_chars(s);
    assert(q[0] == '"');
    assert(q.last() == '"');
    assert forall|i: int| 0 <= i < q.len() implies q[i] != '\n' by {
        if 0 < i < q.len() - 1 {
            assert(q[i] == d[i - 1]);
        }
    }
}

/// A quoted string's record line, where the string is present.
pub open spec fn str_lines(kw: Seq<char>, o: Option<Seq<char>>) -> Seq<Seq<char>> {
    match o {
        Some(s) => seq![line_of(kw, crate::values::quoted_chars(s))],
        None => Seq::empty(),
    }
}

/// An integer's record line, where the integer is present.
pub open spec fn int_lines(kw: Seq<char>, o: Option<i32>) -> Seq<Seq<char>> {
    match o {
        Some(i) => seq![line_of(kw, int_chars(i as int))],
        None => Seq::empty(),
    }
}

/// The lines of the first seven XLFD fields.
pub open spec fn xlfd_lines_a(x: XlfdModel) -> Seq<Seq<char>> {
    str_lines(ids::FOUNDRY@, x.foundry) + str_lines(ids::FAMILY_NAME@, x.family_name) + str_lines(ids::WEIGHT_NAME@, x.weight_name) + str_lines(ids::SLANT@, x.slant) + str_lines(ids::SETWIDTH_NAME@, x.setwidth_name) + str_lines(ids::ADD_STYLE_NAME@, x.add_style_name) + int_lines(ids::PIXEL_SIZE@, x.pixel_size)
}

/// The lines of the last seven XLFD fields.
pub open spec fn xlfd_lines_b(x: XlfdModel) -> Seq<Seq<char>> {
    int_lines(ids::POINT_SIZE@, x.point_size) + int_lines(ids::RESOLUTION_X@, x.resolution_x) + int_lines(ids::RESOLUTION_Y@, x.resolution_y) + str_lines(ids::SPACING@, x.spacing) + int_lines(ids::AVERAGE_WIDTH@, x.average_width) + str_lines(ids::CHARSET_REGISTRY@, x.charset_registry) + str_lines(ids::CHARSET_ENCODING@, x.charset_encoding)
}

/// The lines of the present XLFD fields.
pub open spec fn xlfd_lines(x: XlfdModel) -> Seq<Seq<char>> {
    xlfd_lines_a(x) + xlfd_lines_b(x)
}

/// The records of the first seven XLFD fields.
pub open spec fn xlfd_chars_a(x: XlfdModel) -> Seq<char> {
    opt_str(ids::FOUNDRY@, x.foundry) + opt_str(ids::FAMILY_NAME@, x.family_name) + opt_str(ids::WEIGHT_NAME@, x.weight_name) + opt_str(ids::SLANT@, x.slant) + opt_str(ids::SETWIDTH_NAME@, x.setwidth_name) + opt_str(ids::ADD_STYLE_NAME@, x.add_style_name) + opt_int(ids::PIXEL_SIZE@, x.pixel_size)
}

/// The records of the last seven XLFD fields.
pub open spec fn xlfd_chars_b(x: XlfdModel) -> Seq<char> {
    opt_int(ids::POINT_SIZE@, x.point_size) + opt_int(ids::RESOLUTION_X@, x.resolution_x) + opt_int(ids::RESOLUTION_Y@, x.resolution_y) + opt_str(ids::SPACING@, x.spacing) + opt_int(ids::AVERAGE_WIDTH@, x.average_width) + opt_str(ids::CHARSET_REGISTRY@, x.charset_registry) + opt_str(ids::CHARSET_ENCODING@, x.charset_encoding)
}

proof fn lemma_join_str(kw: Seq<char>, o: Option<Seq<char>>)
    ensures
        join_lines(str_lines(kw, o)) == opt_str(kw, o),
{
    if let Some(s) = o {
        lemma_join_rec(kw, crate::values::quoted_chars(s));
    }
}

proof fn lemma_join_int(kw: Seq<char>, o: Option<i32>)
    ensures
        join_lines(int_lines(kw, o)) == opt_int(kw, o),
{
    if let Some(i) = o {
        lemma_join_rec(kw, int_chars(i as int));
    }
}

#[verifier::spinoff_prover]
proof fn lemma_join_xlfd_a(x: XlfdModel)
    ensures
        join_lines(xlfd_lines_a(x)) == xlfd_chars_a(x),
{
    lemma_join_str(ids::FOUNDRY@, x.foundry);
    lemma_join_str(ids::FAMILY_NAME@, x.family_name);
    lemma_join_str(ids::WEIGHT_NAME@, x.weight_name);
    lemma_join_str(ids::SLANT@, x.slant);
    lemma_join_str(ids::SETWIDTH_NAME@, x.setwidth_name);
    lemma_join_str(ids::ADD_STYLE_NAME@, x.add_style_name);
    lemma_join_int(ids::PIXEL_SIZE@, x.pixel_size);
    lemma_join_append(str_lines(ids::FOUNDRY@, x.foundry), str_lines(ids::FAMILY_NAME@, x.family_name));
    lemma_join_append(str_lines(ids::FOUNDRY@, x.foundry) + str_lines(ids::FAMILY_NAME@, x.family_name), str_lines(ids::WEIGHT_NAME@, x.weight_name));
    lemma_join_append(str_lines(ids::FOUNDRY@, x.foundry) + str_lines(ids::FAMILY_NAME@, x.family_name) + str_lines(ids::WEIGHT_NAME@, x.weight_name), str_lines(ids::SLANT@, x.slant));
    lemma_join_append(str_lines(ids::FOUNDRY@, x.foundry) + str_lines(ids::FAMILY_NAME@, x.family_name) + str_lines(ids::WEIGHT_NAME@, x.weight_name) + str_lines(ids::SLANT@, x.slant), str_lines(ids::SETWIDTH_NAME@, x.setwidth_name));
    lemma_join_append(str_lines(ids::FOUNDRY@, x.foundry) + str_lines(ids::FAMILY_NAME@, x.family_name) + str_lines(ids::WEIGHT_NAME@, x.weight_name) + str_lines(ids::SLANT@, x.slant) + str_lines(ids::SETWIDTH_NAME@, x.setwidth_name), str_lines(ids::ADD_STYLE_NAME@, x.add_style_name));
    lemma_join_append(str_lines(ids::FOUNDRY@, x.foundry) + str_lines(ids::FAMILY_NAME@, x.family_name) + str_lines(ids::WEIGHT_NAME@, x.weight_name) + str_lines(ids::SLANT@, x.slant) + str_lines(ids::SETWIDTH_NAME@, x.setwidth_name) + str_lines(ids::ADD_STYLE_NAME@, x.add_style_name), int_lines(ids::PIXEL_SIZE@, x.pixel_size));
}

#[verifier::spinoff_prover]
proof fn lemma_join_xlfd_b(x: XlfdModel)
    ensures
        join_lines(xlfd_lines_b(x)) == xlfd_chars_b(x),
{
    lemma_join_int(ids::POINT_SIZE@, x.point_size);
    lemma_join_int(ids::RESOLUTION_X@, x.resolution_x);
    lemma_join_int(ids::RESOLUTION_Y@, x.resolution_y);
    lemma_join_str(ids::SPACING@, x.spacing);
    lemma_join_int(ids::AVERAGE_WIDTH@, x.average_width);
    lemma_join_str(ids::CHARSET_REGISTRY@, x.charset_registry);
    lemma_join_str(ids::CHARSET_ENCODING@, x.charset_encoding);
    lemma_join_append(int_lines(ids::POINT_SIZE@, x.point_size), int_lines(ids::RESOLUTION_X@, x.resolution_x));
    lemma_join_append(int_lines(ids::POINT_SIZE@, x.point_size) + int_lines(ids::RESOLUTION_X@, x.resolution_x), int_lines(ids::RESOLUTION_Y@, x.resolution_y));
    lemma_join_append(int_lines(ids::POINT_SIZE@, x.point_size) + int_lines(ids::RESOLUTION_X@, x.resolution_x) + int_lines(ids::RESOLUTION_Y@, x.resolution_y), str_lines(ids::SPACING@, x.spacing));
    lemma_join_append(int_lines(ids::POINT_SIZE@, x.point_size) + int_lines(ids::RESOLUTION_X@, x.resolution_x) + int_lines(ids::RESOLUTION_Y@, x.resolution_y) + str_lines(ids::SPACING@, x.spacing), int_lines(ids::AVERAGE_WIDTH@, x.average_width));
    lemma_join_append(int_lines(ids::POINT_SIZE@, x.point_size) + int_lines(ids::RESOLUTION_X@, x.resolution_x) + int_lines(ids::RESOLUTION_Y@, x.resolution_y) + str_lines(ids::SPACING@, x.spacing) + int_lines(ids::AVERAGE_WIDTH@, x.average_width), str_lines(ids::CHARSET_REGISTRY@, x.charset_registry));
    lemma_join_append(int_lines(ids::POINT_SIZE@, x.point_size) + int_lines(ids::RESOLUTION_X@, x.resolution_x) + int_lines(ids::RESOLUTION_Y@, x.resolution_y) + str_lines(ids::SPACING@, x.spacing) + int_lines(ids::AVERAGE_WIDTH@, x.average_width) + str_lines(ids::CHARSET_REGISTRY@, x.charset_registry), str_lines(ids::CHARSET_ENCODING@, x.charset_encoding));
}

proof fn lemma_join_xlfd(x: XlfdModel)
    ensures
        join_lines(xlfd_lines(x)) == crate::model::xlfd_chars(x),
{
    lemma_join_xlfd_a(x);
    lemma_join_xlfd_b(x);
    lemma_join_append(xlfd_lines_a(x), xlfd_lines_b(x));
    assert(crate::model::xlfd_chars(x) =~= xlfd_chars_a(x) + xlfd_chars_b(x));
}

/// The record lines of free-form properties.
pub open spec fn prop_lines(ps: Seq<PropertyModel>) -> Seq<Seq<char>> {
    ps.map_values(|p: PropertyModel| line_of(p.name, crate::values::prop_value_chars(p.value)))
}

proof fn lemma_join_props(ps: Seq<PropertyModel>)
    ensures
        join_lines(prop_lines(ps)) == concat_map(
            ps,
            |p: PropertyModel| crate::model::property_chars(p),
        ),
    decreases ps.len(),
{
    if ps.len() > 0 {
        lemma_join_props(ps.drop_last());
        let ls = prop_lines(ps);
        assert(ls.drop_last() =~= prop_lines(ps.drop_last()));
        let p = ps.last();
        assert(ls.last() + seq!['\n'] =~= crate::model::property_chars(p));
        assert(join_lines(ls) =~= join_lines(ls.drop_last()) + (ls.last() + seq!['\n']));
    }
}

/// The count that `STARTPROPERTIES` carries.
pub open spec fn props_count(f: FontModel) -> nat {
    crate::model::xlfd_count(f.xlfd) + f.properties.len()
}

/// The lines of the property block.
pub open spec fn props_lines(f: FontModel) -> Seq<Seq<char>> {
    if props_count(f) > 0 {
        seq![line_of(ids::STARTPROPERTIES@, dec_chars(props_count(f)))] + xlfd_lines(f.xlfd)
            + prop_lines(f.properties) + seq![ids::ENDPROPERTIES@]
    } else {
        Seq::empty()
    }
}

proof fn lemma_join_props_block(f: FontModel)
    ensures
        join_lines(props_lines(f)) == properties_block(f),
{
    let n = props_count(f);
    if n > 0 {
        let a = seq![line_of(ids::STARTPROPERTIES@, dec_chars(n))];
        let b = xlfd_lines(f.xlfd);
        let c = prop_lines(f.properties);
        let e = seq![ids::ENDPROPERTIES@];
        lemma_join_rec(ids::STARTPROPERTIES@, dec_chars(n));
        lemma_join_xlfd(f.xlfd);
        lemma_join_props(f.properties);
        lemma_join_one(ids::ENDPROPERTIES@);
        lemma_join_append(a, b);
        lemma_join_append(a + b, c);
        lemma_join_append(a + b + c, e);
    } else {
        assert(props_lines(f) =~= Seq::<Seq<char>>::empty());
    }
}

/// A record line inside a property block does what `property_record` says.
proof fn lemma_run_prop_record(st: (ParseModel, nat), kw: Seq<char>, arg: Seq<char>, last: nat)
    requires
        st.0.state == ParseState::InProperties,
        word_ok(kw),
        text_ok(arg),
        kw != ids::ENDFONT@,
        kw != ids::COMMENT@,
        kw != ids::ENDPROPERTIES@,
        kw != ids::ENDCHAR@,
    ensures
        run_from(st, seq![line_of(kw, arg)], last) == match property_record(st.0.font, kw, arg) {
            Ok(f) => Ok((ParseModel { font: f, ..st.0 }, st.1 + 1)),
            Err(e) => Err((st.1 + 1, e)),
        },
{
    lemma_run_record(st, kw, arg, last);
}

proof fn lemma_int_value(i: i32)
    ensures
        prop_value_of(int_chars(i as int)) == Some(PropValue::Int(i)),
        text_ok(int_chars(i as int)),
{
    lemma_int_text(i as int);
    lemma_i32_round_trip(i);
    let s = int_chars(i as int);
    if i < 0 {
        assert(s[0] == '-');
    } else {
        lemma_dec_chars(i as nat);
        assert('0' <= s[0] && s[0] <= '9');
    }
}

proof fn lemma_str_value(t: Seq<char>)
    requires
        no_newline(t),
    ensures
        prop_value_of(crate::values::quoted_chars(t)) == Some(PropValue::Str(t)),
        text_ok(crate::values::quoted_chars(t)),
{
    lemma_quoted_text(t);
    crate::values::lemma_quote_round_trip(t);
}

#[verifier::spinoff_prover]
#[verifier::rlimit(100)]
proof fn lemma_run_x_foundry(st: (ParseModel, nat), o: Option<Seq<char>>, last: nat)
    requires
        st.0.state == ParseState::InProperties,
        st.0.font.xlfd.foundry is None,
        o matches Some(t) ==> no_newline(t),
    ensures
        run_from(st, str_lines(ids::FOUNDRY@, o), last) == Ok::<(ParseModel, nat), (nat, crate::error::ErrorModel)>(
            (
                ParseModel {
                    font: FontDraft { xlfd: XlfdModel { foundry: o, ..st.0.font.xlfd }, ..st.0.font },
                    ..st.0
                },
                st.1 + str_lines(ids::FOUNDRY@, o).len(),
            ),
        ),
{
    lemma_keywords();
    lemma_glyph_keywords();
    lemma_xlfd_keywords();
    let x = st.0.font.xlfd;
    if let Some(t) = o {
        let arg = crate::values::quoted_chars(t);
        lemma_str_value(t);
        assert(xlfd_with_str(x, ids::FOUNDRY@, t) == Some(XlfdModel { foundry: Some(t), ..x }));
        assert(property_record(st.0.font, ids::FOUNDRY@, arg) == Ok::<FontDraft, crate::error::ErrorModel>(FontDraft { xlfd: XlfdModel { foundry: Some(t), ..x }, ..st.0.font }));
        lemma_run_prop_record(st, ids::FOUNDRY@, arg, last);
    } else {
        assert(str_lines(ids::FOUNDRY@, o) =~= Seq::<Seq<char>>::empty());
        assert(XlfdModel { foundry: o, ..x } == x);
        assert(FontDraft { xlfd: x, ..st.0.font } == st.0.font);
    }
}

#[verifier::spinoff_prover]
#[verifier::rlimit(100)]
proof fn lemma_run_x_family_name(st: (ParseModel, nat), o: Option<Seq<char>>, last: nat)
    requires
        st.0.state == ParseState::InProperties,
        st.0.font.xlfd.family_name is None,
        o matches Some(t) ==> no_newline(t),
    ensures
        run_from(st, str_lines(ids::FAMILY_NAME@, o), last) == Ok::<(ParseModel, nat), (nat, crate::error::ErrorModel)>(
            (
                ParseModel {
                    font: FontDraft { xlfd: XlfdModel { family_name: o, ..st.0.font.xlfd }, ..st.0.font },
                    ..st.0
                },
                st.1 + str_lines(ids::FAMILY_NAME@, o).len(),
            ),
        ),
{
    lemma_keywords();
    lemma_glyph_keywords();
    lemma_xlfd_keywords();
    let x = st.0.font.xlfd;
    if let Some(t) = o {
        let arg = crate::values::quoted_chars(t);
        lemma_str_value(t);
        assert(xlfd_with_str(x, ids::FAMILY_NAME@, t) == Some(XlfdModel { family_name: Some(t), ..x }));
        assert(property_record(st.0.font, ids::FAMILY_NAME@, arg) == Ok::<FontDraft, crate::error::ErrorModel>(FontDraft { xlfd: XlfdModel { family_name: Some(t), ..x }, ..st.0.font }));
        lemma_run_prop_record(st, ids::FAMILY_NAME@, arg, last);
    } else {
        assert(str_lines(ids::FAMILY_NAME@, o) =~= Seq::<Seq<char>>::empty());
        assert(XlfdModel { family_name: o, ..x } == x);
        assert(FontDraft { xlfd: x, ..st.0.font } == st.0.font);
    }
}

#[verifier::spinoff_prover]
#[verifier::rlimit(100)]
proof fn lemma_run_x_weight_name(st: (ParseModel, nat), o: Option<Seq<char>>, last: nat)
    requires
        st.0.state == ParseState::InProperties,
        st.0.font.xlfd.weight_name is None,
        o matches Some(t) ==> no_newline(t),
    ensures
        run_from(st, str_lines(ids::WEIGHT_NAME@, o), last) == Ok::<(ParseModel, nat), (nat, crate::error::ErrorModel)>(
            (
                ParseModel {
                    font: FontDraft { xlfd: XlfdModel { weight_name: o, ..st.0.font.xlfd }, ..st.0.font },
                    ..st.0
                },
                st.1 + str_lines(ids::WEIGHT_NAME@, o).len(),
            ),
        ),
{
    lemma_keywords();
    lemma_glyph_keywords();
    lemma_xlfd_keywords();
    let x = st.0.font.xlfd;
    if let Some(t) = o {
        let arg = crate::values::quoted_chars(t);
        lemma_str_value(t);
        assert(xlfd_with_str(x, ids::WEIGHT_NAME@, t) == Some(XlfdModel { weight_name: Some(t), ..x }));
        assert(property_record(st.0.font, ids::WEIGHT_NAME@, arg) == Ok::<FontDraft, crate::error::ErrorModel>(FontDraft { xlfd: XlfdModel { weight_name: Some(t), ..x }, ..st.0.font }));
        lemma_run_prop_record(st, ids::WEIGHT_NAME@, arg, last);
    } else {
        assert(str_lines(ids::WEIGHT_NAME@, o) =~= Seq::<Seq<char>>::empty());
        assert(XlfdModel { weight_name: o, ..x } == x);
        assert(FontDraft { xlfd: x, ..st.0.font } == st.0.font);
    }
}

#[verifier::spinoff_prover]
#[verifier::rlimit(100)]
proof fn lemma_run_x_slant(st: (ParseModel, nat), o: Option<Seq<char>>, last: nat)
    requires
        st.0.state == ParseState::InProperties,
        st.0.font.xlfd.slant is None,
        o matches Some(t) ==> no_newline(t),
    ensures
        run_from(st, str_lines(ids::SLANT@, o), last) == Ok::<(ParseModel, nat), (nat, crate::error::ErrorModel)>(
            (
                ParseModel {
                    font: FontDraft { xlfd: XlfdModel { slant: o, ..st.0.font.xlfd }, ..st.0.font },
                    ..st.0
                },
                st.1 + str_lines(ids::SLANT@, o).len(),
            ),
        ),
{
    lemma_keywords();
    lemma_glyph_keywords();
    lemma_xlfd_keywords();
    let x = st.0.font.xlfd;
    if let Some(t) = o {
        let arg = crate::values::quoted_chars(t);
        lemma_str_value(t);
        assert(xlfd_with_str(x, ids::SLANT@, t) == Some(XlfdModel { slant: Some(t), ..x }));
        assert(property_record(st.0.font, ids::SLANT@, arg) == Ok::<FontDraft, crate::error::ErrorModel>(FontDraft { xlfd: XlfdModel { slant: Some(t), ..x }, ..st.0.font }));
        lemma_run_prop_record(st, ids::SLANT@, arg, last);
    } else {
        assert(str_lines(ids::SLANT@, o) =~= Seq::<Seq<char>>::empty());
        assert(XlfdModel { slant: o, ..x } == x);
        assert(FontDraft { xlfd: x, ..st.0.font } == st.0.font);
    }
}

#[verifier::spinoff_prover]
#[verifier::rlimit(100)]
proof fn lemma_run_x_setwidth_name(st: (ParseModel, nat), o: Option<Seq<char>>, last: nat)
    requires
        st.0.state == ParseState::InProperties,
        st.0.font.xlfd.setwidth_name is None,
        o matches Some(t) ==> no_newline(t),
    ensures
        run_from(st, str_lines(ids::SETWIDTH_NAME@, o), last) == Ok::<(ParseModel, nat), (nat, crate::error::ErrorModel)>(
            (
                ParseModel {
                    font: FontDraft { xlfd: XlfdModel { setwidth_name: o, ..st.0.font.xlfd }, ..st.0.font },
                    ..st.0
                },
                st.1 + str_lines(ids::SETWIDTH_NAME@, o).len(),
            ),
        ),
{
    lemma_keywords();
    lemma_glyph_keywords();
    lemma_xlfd_keywords();
    let x = st.0.font.xlfd;
    if let Some(t) = o {
        let arg = crate::values::quoted_chars(t);
        lemma_str_value(t);
        assert(xlfd_with_str(x, ids::SETWIDTH_NAME@, t) == Some(XlfdModel { setwidth_name: Some(t), ..x }));
        assert(property_record(st.0.font, ids::SETWIDTH_NAME@, arg) == Ok::<FontDraft, crate::error::ErrorModel>(FontDraft { xlfd: XlfdModel { setwidth_name: Some(t), ..x }, ..st.0.font }));
        lemma_run_prop_record(st, ids::SETWIDTH_NAME@, arg, last);
    } else {
        assert(str_lines(ids::SETWIDTH_NAME@, o) =~= Seq::<Seq<char>>::empty());
        assert(XlfdModel { setwidth_name: o, ..x } == x);
        assert(FontDraft { xlfd: x, ..st.0.font } == st.0.font);
    }
}

#[verifier::spinoff_prover]
#[verifier::rlimit(100)]
proof fn lemma_run_x_add_style_name(st: (ParseModel, nat), o: Option<Seq<char>>, last: nat)
    requires
        st.0.state == ParseState::InProperties,
        st.0.font.xlfd.add_style_name is None,
        o matches Some(t) ==> no_newline(t),
    ensures
        run_from(st, str_lines(ids::ADD_STYLE_NAME@, o), last) == Ok::<(ParseModel, nat), (nat, crate::error::ErrorModel)>(
            (
                ParseModel {
                    font: FontDraft { xlfd: XlfdModel { add_style_name: o, ..st.0.font.xlfd }, ..st.0.font },
                    ..st.0
                },
                st.1 + str_lines(ids::ADD_STYLE_NAME@, o).len(),
            ),
        ),
{
    lemma_keywords();
    lemma_glyph_keywords();
    lemma_xlfd_keywords();
    let x = st.0.font.xlfd;
    if let Some(t) = o {
        let arg = crate::values::quoted_chars(t);
        lemma_str_value(t);
        assert(xlfd_with_str(x, ids::ADD_STYLE_NAME@, t) == Some(XlfdModel { add_style_name: Some(t), ..x }));
        assert(property_record(st.0.font, ids::ADD_STYLE_NAME@, arg) == Ok::<FontDraft, crate::error::ErrorModel>(FontDraft { xlfd: XlfdModel { add_style_name: Some(t), ..x }, ..st.0.font }));
        lemma_run_prop_record(st, ids::ADD_STYLE_NAME@, arg, last);
    } else {
        assert(str_lines(ids::ADD_STYLE_NAME@, o) =~= Seq::<Seq<char>>::empty());
        assert(XlfdModel { add_style_name: o, ..x } == x);
        assert(FontDraft { xlfd: x, ..st.0.font } == st.0.font);
    }
}

#[verifier::spinoff_prover]
#[verifier::rlimit(100)]
proof fn lemma_run_x_pixel_size(st: (ParseModel, nat), o: Option<i32>, last: nat)
    requires
        st.0.state == ParseState::InProperties,
        st.0.font.xlfd.pixel_size is None,
    ensures
        run_from(st, int_lines(ids::PIXEL_SIZE@, o), last) == Ok::<(ParseModel, nat), (nat, crate::error::ErrorModel)>(
            (
                ParseModel {
                    font: FontDraft { xlfd: XlfdModel { pixel_size: o, ..st.0.font.xlfd }, ..st.0.font },
                    ..st.0
                },
                st.1 + int_lines(ids::PIXEL_SIZE@, o).len(),
            ),
        ),
{
    lemma_keywords();
    lemma_glyph_keywords();
    lemma_xlfd_keywords();
    let x = st.0.font.xlfd;
    if let Some(i) = o {
        let arg = int_chars(i as int);
        lemma_int_value(i);
        assert(xlfd_with_int(x, ids::PIXEL_SIZE@, i) == Some(XlfdModel { pixel_size: Some(i), ..x }));
        assert(property_record(st.0.font, ids::PIXEL_SIZE@, arg) == Ok::<FontDraft, crate::error::ErrorModel>(FontDraft { xlfd: XlfdModel { pixel_size: Some(i), ..x }, ..st.0.font }));
        lemma_run_prop_record(st, ids::PIXEL_SIZE@, arg, last);
    } else {
        assert(int_lines(ids::PIXEL_SIZE@, o) =~= Seq::<Seq<char>>::empty());
        assert(XlfdModel { pixel_size: o, ..x } == x);
        assert(FontDraft { xlfd: x, ..st.0.font } == st.0.font);
    }
}

#[verifier::spinoff_prover]
#[verifier::rlimit(100)]
proof fn lemma_run_x_point_size(st: (ParseModel, nat), o: Option<i32>, last: nat)
    requires
        st.0.state == ParseState::InProperties,
        st.0.font.xlfd.point_size is None,
    ensures
        run_from(st, int_lines(ids::POINT_SIZE@, o), last) == Ok::<(ParseModel, nat), (nat, crate::error::ErrorModel)>(
            (
                ParseModel {
                    font: FontDraft { xlfd: XlfdModel { point_size: o, ..st.0.font.xlfd }, ..st.0.font },
                    ..st.0
                },
                st.1 + int_lines(ids::POINT_SIZE@, o).len(),
            ),
        ),
{
    lemma_keywords();
    lemma_glyph_keywords();
    lemma_xlfd_keywords();
    let x = st.0.font.xlfd;
    if let Some(i) = o {
        let arg = int_chars(i as int);
        lemma_int_value(i);
        assert(xlfd_with_int(x, ids::POINT_SIZE@, i) == Some(XlfdModel { point_size: Some(i), ..x }));
        assert(property_record(st.0.font, ids::POINT_SIZE@, arg) == Ok::<FontDraft, crate::error::ErrorModel>(FontDraft { xlfd: XlfdModel { point_size: Some(i), ..x }, ..st.0.font }));
        lemma_run_prop_record(st, ids::POINT_SIZE@, arg, last);
    } else {
        assert(int_lines(ids::POINT_SIZE@, o) =~= Seq::<Seq<char>>::empty());
        assert(XlfdModel { point_size: o, ..x } == x);
        assert(FontDraft { xlfd: x, ..st.0.font } == st.0.font);
    }
}

#[verifier::spinoff_prover]
#[verifier::rlimit(100)]
proof fn lemma_run_x_resolution_x(st: (ParseModel, nat), o: Option<i32>, last: nat)
    requires
        st.0.state == ParseState::InProperties,
        st.0.font.xlfd.resolution_x is None,
    ensures
        run_from(st, int_lines(ids::RESOLUTION_X@, o), last) == Ok::<(ParseModel, nat), (nat, crate::error::ErrorModel)>(
            (
                ParseModel {
                    font: FontDraft { xlfd: XlfdModel { resolution_x: o, ..st.0.font.xlfd }, ..st.0.font },
                    ..st.0
                },
                st.1 + int_lines(ids::RESOLUTION_X@, o).len(),
            ),
        ),
{
    lemma_keywords();
    lemma_glyph_keywords();
    lemma_xlfd_keywords();
    let x = st.0.font.xlfd;
    if let Some(i) = o {
        let arg = int_chars(i as int);
        lemma_int_value(i);
        assert(xlfd_with_int(x, ids::RESOLUTION_X@, i) == Some(XlfdModel { resolution_x: Some(i), ..x }));
        assert(property_record(st.0.font, ids::RESOLUTION_X@, arg) == Ok::<FontDraft, crate::error::ErrorModel>(FontDraft { xlfd: XlfdModel { resolution_x: Some(i), ..x }, ..st.0.font }));
        lemma_run_prop_record(st, ids::RESOLUTION_X@, arg, last);
    } else {
        assert(int_lines(ids::RESOLUTION_X@, o) =~= Seq::<Seq<char>>::empty());
        assert(XlfdModel { resolution_x: o, ..x } == x);
        assert(FontDraft { xlfd: x, ..st.0.font } == st.0.font);
    }
}

#[verifier::spinoff_prover]
#[verifier::rlimit(100)]
proof fn lemma_run_x_resolution_y(st: (ParseModel, nat), o: Option<i32>, last: nat)
    requires
        st.0.state == ParseState::InProperties,
        st.0.font.xlfd.resolution_y is None,
    ensures
        run_from(st, int_lines(ids::RESOLUTION_Y@, o), last) == Ok::<(ParseModel, nat), (nat, crate::error::ErrorModel)>(
            (
                ParseModel {
                    font: FontDraft { xlfd: XlfdModel { resolution_y: o, ..st.0.font.xlfd }, ..st.0.font },
                    ..st.0
                },
                st.1 + int_lines(ids::RESOLUTION_Y@, o).len(),
            ),
        ),
{
    lemma_keywords();
    lemma_glyph_keywords();
    lemma_xlfd_keywords();
    let x = st.0.font.xlfd;
    if let Some(i) = o {
        let arg = int_chars(i as int);
        lemma_int_value(i);
        assert(xlfd_with_int(x, ids::RESOLUTION_Y@, i) == Some(XlfdModel { resolution_y: Some(i), ..x }));
        assert(property_record(st.0.font, ids::RESOLUTION_Y@, arg) == Ok::<FontDraft, crate::error::ErrorModel>(FontDraft { xlfd: XlfdModel { resolution_y: Some(i), ..x }, ..st.0.font }));
        lemma_run_prop_record(st, ids::RESOLUTION_Y@, arg, last);
    } else {
        assert(int_lines(ids::RESOLUTION_Y@, o) =~= Seq::<Seq<char>>::empty());
        assert(XlfdModel { resolution_y: o, ..x } == x);
        assert(FontDraft { xlfd: x, ..st.0.font } == st.0.font);
    }
}

#[verifier::spinoff_prover]
#[verifier::rlimit(100)]
proof fn lemma_run_x_spacing(st: (ParseModel, nat), o: Option<Seq<char>>, last: nat)
    requires
        st.0.state == ParseState::InProperties,
        st.0.font.xlfd.spacing is None,
        o matches Some(t) ==> no_newline(t),
    ensures
        run_from(st, str_lines(ids::SPACING@, o), last) == Ok::<(ParseModel, nat), (nat, crate::error::ErrorModel)>(
            (
                ParseModel {
                    font: FontDraft { xlfd: XlfdModel { spacing: o, ..st.0.font.xlfd }, ..st.0.font },
                    ..st.0
                },
                st.1 + str_lines(ids::SPACING@, o).len(),
            ),
        ),
{
    lemma_keywords();
    lemma_glyph_keywords();
    lemma_xlfd_keywords();
    let x = st.0.font.xlfd;
    if let Some(t) = o {
        let arg = crate::values::quoted_chars(t);
        lemma_str_value(t);
        assert(xlfd_with_str(x, ids::SPACING@, t) == Some(XlfdModel { spacing: Some(t), ..x }));
        assert(property_record(st.0.font, ids::SPACING@, arg) == Ok::<FontDraft, crate::error::ErrorModel>(FontDraft { xlfd: XlfdModel { spacing: Some(t), ..x }, ..st.0.font }));
        lemma_run_prop_record(st, ids::SPACING@, arg, last);
    } else {
        assert(str_lines(ids::SPACING@, o) =~= Seq::<Seq<char>>::empty());
        assert(XlfdModel { spacing: o, ..x } == x);
        assert(FontDraft { xlfd: x, ..st.0.font } == st.0.font);
    }
}

#[verifier::spinoff_prover]
#[verifier::rlimit(100)]
proof fn lemma_run_x_average_width(st: (ParseModel, nat), o: Option<i32>, last: nat)
    requires
        st.0.state == ParseState::InProperties,
        st.0.font.xlfd.average_width is None,
    ensures
        run_from(st, int_lines(ids::AVERAGE_WIDTH@, o), last) == Ok::<(ParseModel, nat), (nat, crate::error::ErrorModel)>(
            (
                ParseModel {
                    font: FontDraft { xlfd: XlfdModel { average_width: o, ..st.0.font.xlfd }, ..st.0.font },
                    ..st.0
                },
                st.1 + int_lines(ids::AVERAGE_WIDTH@, o).len(),
            ),
        ),
{
    lemma_keywords();
    lemma_glyph_keywords();
    lemma_xlfd_keywords();
    let x = st.0.font.xlfd;
    if let Some(i) = o {
        let arg = int_chars(i as int);
        lemma_int_value(i);
        assert(xlfd_with_int(x, ids::AVERAGE_WIDTH@, i) == Some(XlfdModel { average_width: Some(i), ..x }));
        assert(property_record(st.0.font, ids::AVERAGE_WIDTH@, arg) == Ok::<FontDraft, crate::error::ErrorModel>(FontDraft { xlfd: XlfdModel { average_width: Some(i), ..x }, ..st.0.font }));
        lemma_run_prop_record(st, ids::AVERAGE_WIDTH@, arg, last);
    } else {
        assert(int_lines(ids::AVERAGE_WIDTH@, o) =~= Seq::<Seq<char>>::empty());
        assert(XlfdModel { average_width: o, ..x } == x);
        assert(FontDraft { xlfd: x, ..st.0.font } == st.0.font);
    }
}

#[verifier::spinoff_prover]
#[verifier::rlimit(100)]
proof fn lemma_run_x_charset_registry(st: (ParseModel, nat), o: Option<Seq<char>>, last: nat)
    requires
        st.0.state == ParseState::InProperties,
        st.0.font.xlfd.charset_registry is None,
        o matches Some(t) ==> no_newline(t),
    ensures
        run_from(st, str_lines(ids::CHARSET_REGISTRY@, o), last) == Ok::<(ParseModel, nat), (nat, crate::error::ErrorModel)>(
            (
                ParseModel {
                    font: FontDraft { xlfd: XlfdModel { charset_registry: o, ..st.0.font.xlfd }, ..st.0.font },
                    ..st.0
                },
                st.1 + str_lines(ids::CHARSET_REGISTRY@, o).len(),
            ),
        ),
{
    lemma_keywords();
    lemma_glyph_keywords();
    lemma_xlfd_keywords();
    let x = st.0.font.xlfd;
    if let Some(t) = o {
        let arg = crate::values::quoted_chars(t);
        lemma_str_value(t);
        assert(xlfd_with_str(x, ids::CHARSET_REGISTRY@, t) == Some(XlfdModel { charset_registry: Some(t), ..x }));
        assert(property_record(st.0.font, ids::CHARSET_REGISTRY@, arg) == Ok::<FontDraft, crate::error::ErrorModel>(FontDraft { xlfd: XlfdModel { charset_registry: Some(t), ..x }, ..st.0.font }));
        lemma_run_prop_record(st, ids::CHARSET_REGISTRY@, arg, last);
    } else {
        assert(str_lines(ids::CHARSET_REGISTRY@, o) =~= Seq::<Seq<char>>::empty());
        assert(XlfdModel { charset_registry: o, ..x } == x);
        assert(FontDraft { xlfd: x, ..st.0.font } == st.0.font);
    }
}

#[verifier::spinoff_prover]
#[verifier::rlimit(100)]
proof fn lemma_run_x_charset_encoding(st: (ParseModel, nat), o: Option<Seq<char>>, last: nat)
    requires
        st.0.state == ParseState::InProperties,
        st.0.font.xlfd.charset_encoding is None,
        o matches Some(t) ==> no_newline(t),
    ensures
        run_from(st, str_lines(ids::CHARSET_ENCODING@, o), last) == Ok::<(ParseModel, nat), (nat, crate::error::ErrorModel)>(
            (
                ParseModel {
                    font: FontDraft { xlfd: XlfdModel { charset_encoding: o, ..st.0.font.xlfd }, ..st.0.font },
                    ..st.0
                },
                st.1 + str_lines(ids::CHARSET_ENCODING@, o).len(),
            ),
        ),
{
    lemma_keywords();
    lemma_glyph_keywords();
    lemma_xlfd_keywords();
    let x = st.0.font.xlfd;
    if let Some(t) = o {
        let arg = crate::values::quoted_chars(t);
        lemma_str_value(t);
        assert(xlfd_with_str(x, ids::CHARSET_ENCODING@, t) == Some(XlfdModel { charset_encoding: Some(t), ..x }));
        assert(property_record(st.0.font, ids::CHARSET_ENCODING@, arg) == Ok::<FontDraft, crate::error::ErrorModel>(FontDraft { xlfd: XlfdModel { charset_encoding: Some(t), ..x }, ..st.0.font }));
        lemma_run_prop_record(st, ids::CHARSET_ENCODING@, arg, last);
    } else {
        assert(str_lines(ids::CHARSET_ENCODING@, o) =~= Seq::<Seq<char>>::empty());
        assert(XlfdModel { charset_encoding: o, ..x } == x);
        assert(FontDraft { xlfd: x, ..st.0.font } == st.0.font);
    }
}

#[verifier::spinoff_prover]
#[verifier::rlimit(100)]
proof fn lemma_run_xlfd_a(st: (ParseModel, nat), x: XlfdModel, last: nat)
    requires
        st.0.state == ParseState::InProperties,
        st.0.font.xlfd.foundry is None,
        st.0.font.xlfd.family_name is None,
        st.0.font.xlfd.weight_name is None,
        st.0.font.xlfd.slant is None,
        st.0.font.xlfd.setwidth_name is None,
        st.0.font.xlfd.add_style_name is None,
        st.0.font.xlfd.pixel_size is None,
        x.foundry matches Some(t) ==> no_newline(t),
        x.family_name matches Some(t) ==> no_newline(t),
        x.weight_name matches Some(t) ==> no_newline(t),
        x.slant matches Some(t) ==> no_newline(t),
        x.setwidth_name matches Some(t) ==> no_newline(t),
        x.add_style_name matches Some(t) ==> no_newline(t),
    ensures
        run_from(st, xlfd_lines_a(x), last) == Ok::<(ParseModel, nat), (nat, crate::error::ErrorModel)>(
            (
                ParseModel {
                    font: FontDraft { xlfd: XlfdModel { foundry: x.foundry, family_name: x.family_name, weight_name: x.weight_name, slant: x.slant, setwidth_name: x.setwidth_name, add_style_name: x.add_style_name, pixel_size: x.pixel_size, ..st.0.font.xlfd }, ..st.0.font },
                    ..st.0
                },
                st.1 + xlfd_lines_a(x).len(),
            ),
        ),
{
    let m0 = st.0;
    lemma_run_x_foundry(st, x.foundry, last);
    let s1 = (ParseModel { font: FontDraft { xlfd: XlfdModel { foundry: x.foundry, ..m0.font.xlfd }, ..m0.font }, ..m0 }, st.1 + str_lines(ids::FOUNDRY@, x.foundry).len());
    assert(s1.0.font.xlfd == XlfdModel { foundry: x.foundry, ..st.0.font.xlfd });
    lemma_run_x_family_name(s1, x.family_name, last);
    let s2 = (ParseModel { font: FontDraft { xlfd: XlfdModel { foundry: x.foundry, family_name: x.family_name, ..m0.font.xlfd }, ..m0.font }, ..m0 }, s1.1 + str_lines(ids::FAMILY_NAME@, x.family_name).len());
    assert(s2.0.font.xlfd == XlfdModel { family_name: x.family_name, ..s1.0.font.xlfd });
    lemma_run_append(st, str_lines(ids::FOUNDRY@, x.foundry), str_lines(ids::FAMILY_NAME@, x.family_name), last);
    lemma_run_x_weight_name(s2, x.weight_name, last);
    let s3 = (ParseModel { font: FontDraft { xlfd: XlfdModel { foundry: x.foundry, family_name: x.family_name, weight_name: x.weight_name, ..m0.font.xlfd }, ..m0.font }, ..m0 }, s2.1 + str_lines(ids::WEIGHT_NAME@, x.weight_name).len());
    assert(s3.0.font.xlfd == XlfdModel { weight_name: x.weight_name, ..s2.0.font.xlfd });
    lemma_run_append(st, str_lines(ids::FOUNDRY@, x.foundry) + str_lines(ids::FAMILY_NAME@, x.family_name), str_lines(ids::WEIGHT_NAME@, x.weight_name), last);
    lemma_run_x_slant(s3, x.slant, last);
    let s4 = (ParseModel { font: FontDraft { xlfd: XlfdModel { foundry: x.foundry, family_name: x.family_name, weight_name: x.weight_name, slant: x.slant, ..m0.font.xlfd }, ..m0.font }, ..m0 }, s3.1 + str_lines(ids::SLANT@, x.slant).len());
    assert(s4.0.font.xlfd == XlfdModel { slant: x.slant, ..s3.0.font.xlfd });
    lemma_run_append(st, str_lines(ids::FOUNDRY@, x.foundry) + str_lines(ids::FAMILY_NAME@, x.family_name) + str_lines(ids::WEIGHT_NAME@, x.weight_name), str_lines(ids::SLANT@, x.slant), last);
    lemma_run_x_setwidth_name(s4, x.setwidth_name, last);
    let s5 = (ParseModel { font: FontDraft { xlfd: XlfdModel { foundry: x.foundry, family_name: x.family_name, weight_name: x.weight_name, slant: x.slant, setwidth_name: x.setwidth_name, ..m0.font.xlfd }, ..m0.font }, ..m0 }, s4.1 + str_lines(ids::SETWIDTH_NAME@, x.setwidth_name).len());
    assert(s5.0.font.xlfd == XlfdModel { setwidth_name: x.setwidth_name, ..s4.0.font.xlfd });
    lemma_run_append(st, str_lines(ids::FOUNDRY@, x.foundry) + str_lines(ids::FAMILY_NAME@, x.family_name) + str_lines(ids::WEIGHT_NAME@, x.weight_name) + str_lines(ids::SLANT@, x.slant), str_lines(ids::SETWIDTH_NAME@, x.setwidth_name), last);
    lemma_run_x_add_style_name(s5, x.add_style_name, last);
    let s6 = (ParseModel { font: FontDraft { xlfd: XlfdModel { foundry: x.foundry, family_name: x.family_name, weight_name: x.weight_name, slant: x.slant, setwidth_name: x.setwidth_name, add_style_name: x.add_style_name, ..m0.font.xlfd }, ..m0.font }, ..m0 }, s5.1 + str_lines(ids::ADD_STYLE_NAME@, x.add_style_name).len());
    assert(s6.0.font.xlfd == XlfdModel { add_style_name: x.add_style_name, ..s5.0.font.xlfd });
    lemma_run_append(st, str_lines(ids::FOUNDRY@, x.foundry) + str_lines(ids::FAMILY_NAME@, x.family_name) + str_lines(ids::WEIGHT_NAME@, x.weight_name) + str_lines(ids::SLANT@, x.slant) + str_lines(ids::SETWIDTH_NAME@, x.setwidth_name), str_lines(ids::ADD_STYLE_NAME@, x.add_style_name), last);
    lemma_run_x_pixel_size(s6, x.pixel_size, last);
    let s7 = (ParseModel { font: FontDraft { xlfd: XlfdModel { foundry: x.foundry, family_name: x.family_name, weight_name: x.weight_name, slant: x.slant, setwidth_name: x.setwidth_name, add_style_name: x.add_style_name, pixel_size: x.pixel_size, ..m0.font.xlfd }, ..m0.font }, ..m0 }, s6.1 + int_lines(ids::PIXEL_SIZE@, x.pixel_size).len());
    assert(s7.0.font.xlfd == XlfdModel { pixel_size: x.pixel_size, ..s6.0.font.xlfd });
    lemma_run_append(st, str_lines(ids::FOUNDRY@, x.foundry) + str_lines(ids::FAMILY_NAME@, x.family_name) + str_lines(ids::WEIGHT_NAME@, x.weight_name) + str_lines(ids::SLANT@, x.slant) + str_lines(ids::SETWIDTH_NAME@, x.setwidth_name) + str_lines(ids::ADD_STYLE_NAME@, x.add_style_name), int_lines(ids::PIXEL_SIZE@, x.pixel_size), last);
}

#[verifier::spinoff_prover]
#[verifier::rlimit(100)]
proof fn lemma_run_xlfd_b(st: (ParseModel, nat), x: XlfdModel, last: nat)
    requires
        st.0.state == ParseState::InProperties,
        st.0.font.xlfd.point_size is None,
        st.0.font.xlfd.resolution_x is None,
        st.0.font.xlfd.resolution_y is None,
        st.0.font.xlfd.spacing is None,
        st.0.font.xlfd.average_width is None,
        st.0.font.xlfd.charset_registry is None,
        st.0.font.xlfd.charset_encoding is None,
        x.spacing matches Some(t) ==> no_newline(t),
        x.charset_registry matches Some(t) ==> no_newline(t),
        x.charset_encoding matches Some(t) ==> no_newline(t),
    ensures
        run_from(st, xlfd_lines_b(x), last) == Ok::<(ParseModel, nat), (nat, crate::error::ErrorModel)>(
            (
                ParseModel {
                    font: FontDraft { xlfd: XlfdModel { point_size: x.point_size, resolution_x: x.resolution_x, resolution_y: x.resolution_y, spacing: x.spacing, average_width: x.average_width, charset_registry: x.charset_registry, charset_encoding: x.charset_encoding, ..st.0.font.xlfd }, ..st.0.font },
                    ..st.0
                },
                st.1 + xlfd_lines_b(x).len(),
            ),
        ),
{
    let m0 = st.0;
    lemma_run_x_point_size(st, x.point_size, last);
    let s1 = (ParseModel { font: FontDraft { xlfd: XlfdModel { point_size: x.point_size, ..m0.font.xlfd }, ..m0.font }, ..m0 }, st.1 + int_lines(ids::POINT_SIZE@, x.point_size).len());
    assert(s1.0.font.xlfd == XlfdModel { point_size: x.point_size, ..st.0.font.xlfd });
    lemma_run_x_resolution_x(s1, x.resolution_x, last);
    let s2 = (ParseModel { font: FontDraft { xlfd: XlfdModel { point_size: x.point_size, resolution_x: x.resolution_x, ..m0.font.xlfd }, ..m0.font }, ..m0 }, s1.1 + int_lines(ids::RESOLUTION_X@, x.resolution_x).len());
    assert(s2.0.font.xlfd == XlfdModel { resolution_x: x.resolution_x, ..s1.0.font.xlfd });
    lemma_run_append(st, int_lines(ids::POINT_SIZE@, x.point_size), int_lines(ids::RESOLUTION_X@, x.resolution_x), last);
    lemma_run_x_resolution_y(s2, x.resolution_y, last);
    let s3 = (ParseModel { font: FontDraft { xlfd: XlfdModel { point_size: x.point_size, resolution_x: x.resolution_x, resolution_y: x.resolution_y, ..m0.font.xlfd }, ..m0.font }, ..m0 }, s2.1 + int_lines(ids::RESOLUTION_Y@, x.resolution_y).len());
    assert(s3.0.font.xlfd == XlfdModel { resolution_y: x.resolution_y, ..s2.0.font.xlfd });
    lemma_run_append(st, int_lines(ids::POINT_SIZE@, x.point_size) + int_lines(ids::RESOLUTION_X@, x.resolution_x), int_lines(ids::RESOLUTION_Y@, x.resolution_y), last);
    lemma_run_x_spacing(s3, x.spacing, last);
    let s4 = (ParseModel { font: FontDraft { xlfd: XlfdModel { point_size: x.point_size, resolution_x: x.resolution_x, resolution_y: x.resolution_y, spacing: x.spacing, ..m0.font.xlfd }, ..m0.font }, ..m0 }, s3.1 + str_lines(ids::SPACING@, x.spacing).len());
    assert(s4.0.font.xlfd == XlfdModel { spacing: x.spacing, ..s3.0.font.xlfd });
    lemma_run_append(st, int_lines(ids::POINT_SIZE@, x.point_size) + int_lines(ids::RESOLUTION_X@, x.resolution_x) + int_lines(ids::RESOLUTION_Y@, x.resolution_y), str_lines(ids::SPACING@, x.spacing), last);
    lemma_run_x_average_width(s4, x.average_width, last);
    let s5 = (ParseModel { font: FontDraft { xlfd: XlfdModel { point_size: x.point_size, resolution_x: x.resolution_x, resolution_y: x.resolution_y, spacing: x.spacing, average_width: x.average_width, ..m0.font.xlfd }, ..m0.font }, ..m0 }, s4.1 + int_lines(ids::AVERAGE_WIDTH@, x.average_width).len());
    assert(s5.0.font.xlfd == XlfdModel { average_width: x.average_width, ..s4.0.font.xlfd });
    lemma_run_append(st, int_lines(ids::POINT_SIZE@, x.point_size) + int_lines(ids::RESOLUTION_X@, x.resolution_x) + int_lines(ids::RESOLUTION_Y@, x.resolution_y) + str_lines(ids::SPACING@, x.spacing), int_lines(ids::AVERAGE_WIDTH@, x.average_width), last);
    lemma_run_x_charset_registry(s5, x.charset_registry, last);
    let s6 = (ParseModel { font: FontDraft { xlfd: XlfdModel { point_size: x.point_size, resolution_x: x.resolution_x, resolution_y: x.resolution_y, spacing: x.spacing, average_width: x.average_width, charset_registry: x.charset_registry, ..m0.font.xlfd }, ..m0.font }, ..m0 }, s5.1 + str_lines(ids::CHARSET_REGISTRY@, x.charset_registry).len());
    assert(s6.0.font.xlfd == XlfdModel { charset_registry: x.charset_registry, ..s5.0.font.xlfd });
    lemma_run_append(st, int_lines(ids::POINT_SIZE@, x.point_size) + int_lines(ids::RESOLUTION_X@, x.resolution_x) + int_lines(ids::RESOLUTION_Y@, x.resolution_y) + str_lines(ids::SPACING@, x.spacing) + int_lines(ids::AVERAGE_WIDTH@, x.average_width), str_lines(ids::CHARSET_REGISTRY@, x.charset_registry), last);
    lemma_run_x_charset_encoding(s6, x.charset_encoding, last);
    let s7 = (ParseModel { font: FontDraft { xlfd: XlfdModel { point_size: x.point_size, resolution_x: x.resolution_x, resolution_y: x.resolution_y, spacing: x.spacing, average_width: x.average_width, charset_registry: x.charset_registry, charset_encoding: x.charset_encoding, ..m0.font.xlfd }, ..m0.font }, ..m0 }, s6.1 + str_lines(ids::CHARSET_ENCODING@, x.charset_encoding).len());
    assert(s7.0.font.xlfd == XlfdModel { charset_encoding: x.charset_encoding, ..s6.0.font.xlfd });
    lemma_run_append(st, int_lines(ids::POINT_SIZE@, x.point_size) + int_lines(ids::RESOLUTION_X@, x.resolution_x) + int_lines(ids::RESOLUTION_Y@, x.resolution_y) + str_lines(ids::SPACING@, x.spacing) + int_lines(ids::AVERAGE_WIDTH@, x.average_width) + str_lines(ids::CHARSET_REGISTRY@, x.charset_registry), str_lines(ids::CHARSET_ENCODING@, x.charset_encoding), last);
}

/// A property that the writer can put on a line of its own: its name is
/// a keyword that the parser takes for a free-form property, and a string
/// value stands on one line.
pub open spec fn prop_ok(p: PropertyModel) -> bool {
    &&& word_ok(p.name)
    &&& p.name != ids::COMMENT@
    &&& p.name != ids::ENDPROPERTIES@
    &&& p.name != ids::ENDCHAR@
    &&& p.name != ids::ENDFONT@
    &&& xlfd_with_str(empty_xlfd(), p.name, Seq::empty()) is None
    &&& xlfd_with_int(empty_xlfd(), p.name, 0) is None
    &&& (p.value matches PropValue::Str(t) ==> no_newline(t))
}

#[verifier::spinoff_prover]
#[verifier::rlimit(100)]
proof fn lemma_run_props(st: (ParseModel, nat), ps: Seq<PropertyModel>, last: nat)
    requires
        st.0.state == ParseState::InProperties,
        forall|i: int| 0 <= i < ps.len() ==> prop_ok(#[trigger] ps[i]),
    ensures
        run_from(st, prop_lines(ps), last) == Ok::<(ParseModel, nat), (nat, crate::error::ErrorModel)>(
            (
                ParseModel {
                    font: FontDraft { properties: st.0.font.properties + ps, ..st.0.font },
                    ..st.0
                },
                st.1 + ps.len(),
            ),
        ),
    decreases ps.len(),
{
    if ps.len() == 0 {
        assert(prop_lines(ps) =~= Seq::<Seq<char>>::empty());
        assert(st.0.font.properties + ps =~= st.0.font.properties);
    } else {
        let q = ps.drop_last();
        assert forall|i: int| 0 <= i < q.len() implies prop_ok(#[trigger] q[i]) by {
            assert(q[i] == ps[i]);
        }
        lemma_run_props(st, q, last);
        let ls = prop_lines(ps);
        assert(ls.drop_last() =~= prop_lines(q));
        let p = ps.last();
        assert(prop_ok(p));
        let arg = crate::values::prop_value_chars(p.value);
        assert(ls.last() == line_of(p.name, arg));
        let f2 = FontDraft { properties: st.0.font.properties + q, ..st.0.font };
        let s2 = (ParseModel { font: f2, ..st.0 }, st.1 + q.len());
        match p.value {
            PropValue::Str(t) => {
                lemma_str_value(t);
            },
            PropValue::Int(i) => {
                lemma_int_value(i);
            },
        }
        assert(property_record(f2, p.name, arg) == Ok::<FontDraft, crate::error::ErrorModel>(
            FontDraft { properties: f2.properties.push(PropertyModel { name: p.name, value: p.value }), ..f2 },
        ));
        lemma_run_prop_record(s2, p.name, arg, last);
        lemma_run_one(s2, ls.last(), last);
        assert(f2.properties.push(PropertyModel { name: p.name, value: p.value }) =~= st.0.font.properties + ps);
    }
}

#[verifier::spinoff_prover]
proof fn lemma_run_startprops(m: ParseModel, n: nat, ln: nat, last: nat)
    requires
        m.state == ParseState::InFont,
        n <= usize::MAX,
    ensures
        run_from((m, ln), seq![line_of(ids::STARTPROPERTIES@, dec_chars(n))], last) == Ok::<(ParseModel, nat), (nat, crate::error::ErrorModel)>(
            (ParseModel { state: ParseState::InProperties, ..m }, ln + 1),
        ),
{
    lemma_keywords();
    lemma_glyph_keywords();
    lemma_xlfd_keywords();
    lemma_dec_text(n);
    lemma_int_of_usize(n);
    lemma_run_record((m, ln), ids::STARTPROPERTIES@, dec_chars(n), last);
}

#[verifier::spinoff_prover]
proof fn lemma_run_endprops(m: ParseModel, ln: nat, last: nat)
    requires
        m.state == ParseState::InProperties,
    ensures
        run_from((m, ln), seq![ids::ENDPROPERTIES@], last) == Ok::<(ParseModel, nat), (nat, crate::error::ErrorModel)>(
            (ParseModel { state: ParseState::InFont, ..m }, ln + 1),
        ),
{
    lemma_keywords();
    lemma_xlfd_keywords();
    lemma_run_one((m, ln), ids::ENDPROPERTIES@, last);
    lemma_keyword_line(ids::ENDPROPERTIES@);
    reveal(step);
}

/// A font's property block that the writer can put on one-line records:
/// its XLFD strings and its properties stand on one line each, and its
/// count fits in a `usize`.
pub open spec fn props_ok(f: FontModel) -> bool {
    &&& props_count(f) <= usize::MAX
    &&& forall|i: int| 0 <= i < f.properties.len() ==> prop_ok(#[trigger] f.properties[i])
    &&& (f.xlfd.foundry matches Some(t) ==> no_newline(t))
    &&& (f.xlfd.family_name matches Some(t) ==> no_newline(t))
    &&& (f.xlfd.weight_name matches Some(t) ==> no_newline(t))
    &&& (f.xlfd.slant matches Some(t) ==> no_newline(t))
    &&& (f.xlfd.setwidth_name matches Some(t) ==> no_newline(t))
    &&& (f.xlfd.add_style_name matches Some(t) ==> no_newline(t))
    &&& (f.xlfd.spacing matches Some(t) ==> no_newline(t))
    &&& (f.xlfd.charset_registry matches Some(t) ==> no_newline(t))
    &&& (f.xlfd.charset_encoding matches Some(t) ==> no_newline(t))
}

/// The draft after the header and the property block.
pub open spec fn props_draft(f: FontModel) -> FontDraft {
    FontDraft { xlfd: f.xlfd, properties: f.properties, ..header_draft(f) }
}

#[verifier::spinoff_prover]
#[verifier::rlimit(100)]
proof fn lemma_run_props_block(f: FontModel, ln: nat, last: nat)
    requires
        props_ok(f),
    ensures
        run_from(
            (ParseModel { state: ParseState::InFont, font: header_draft(f), rows_left: 0 }, ln),
            props_lines(f),
            last,
        ) == Ok::<(ParseModel, nat), (nat, crate::error::ErrorModel)>(
            (
                ParseModel { state: ParseState::InFont, font: props_draft(f), rows_left: 0 },
                ln + props_lines(f).len(),
            ),
        ),
{
    let n = props_count(f);
    let x = f.xlfd;
    let d = header_draft(f);
    let m = ParseModel { state: ParseState::InFont, font: d, rows_left: 0 };
    if n > 0 {
        let a = seq![line_of(ids::STARTPROPERTIES@, dec_chars(n))];
        let xa = xlfd_lines_a(x);
        let xb = xlfd_lines_b(x);
        let c = prop_lines(f.properties);
        let e = seq![ids::ENDPROPERTIES@];
        lemma_run_startprops(m, n, ln, last);
        let m1 = ParseModel { state: ParseState::InProperties, ..m };
        lemma_run_xlfd_a((m1, ln + 1), x, last);
        let xa_model = XlfdModel {
            foundry: x.foundry,
            family_name: x.family_name,
            weight_name: x.weight_name,
            slant: x.slant,
            setwidth_name: x.setwidth_name,
            add_style_name: x.add_style_name,
            pixel_size: x.pixel_size,
            ..d.xlfd
        };
        let m2 = ParseModel { font: FontDraft { xlfd: xa_model, ..d }, ..m1 };
        lemma_run_append((m, ln), a, xa, last);
        lemma_run_xlfd_b((m2, ln + 1 + xa.len()), x, last);
        assert(XlfdModel {
            point_size: x.point_size,
            resolution_x: x.resolution_x,
            resolution_y: x.resolution_y,
            spacing: x.spacing,
            average_width: x.average_width,
            charset_registry: x.charset_registry,
            charset_encoding: x.charset_encoding,
            ..xa_model
        } == x);
        let m3 = ParseModel { font: FontDraft { xlfd: x, ..d }, ..m1 };
        lemma_run_append((m, ln), a + xa, xb, last);
        lemma_run_props((m3, ln + 1 + xa.len() + xb.len()), f.properties, last);
        assert(d.properties + f.properties =~= f.properties);
        let m4 = ParseModel { font: props_draft(f), ..m1 };
        lemma_run_append((m, ln), a + xa + xb, c, last);
        lemma_run_endprops(m4, ln + 1 + xa.len() + xb.len() + c.len(), last);
        lemma_run_append((m, ln), a + xa + xb + c, e, last);
        assert(a + xa + xb + c + e =~= props_lines(f));
    } else {
        assert(props_lines(f) =~= Seq::<Seq<char>>::empty());
        assert(x == empty_xlfd());
        assert(f.properties =~= Seq::<PropertyModel>::empty());
        assert(props_draft(f) == d);
    }
}

#[verifier::spinoff_prover]
proof fn lemma_xlfd_lines_ok_a(f: FontModel)
    requires
        props_ok(f),
    ensures
        lines_ok(xlfd_lines_a(f.xlfd)),
{
    lemma_xlfd_keywords();
    let x = f.xlfd;
    if let Some(t) = x.foundry {
        lemma_quoted_text(t);
        lemma_record_lines_ok(ids::FOUNDRY@, crate::values::quoted_chars(t));
    }
    if let Some(t) = x.family_name {
        lemma_quoted_text(t);
        lemma_record_lines_ok(ids::FAMILY_NAME@, crate::values::quoted_chars(t));
    }
    lemma_lines_ok_append(str_lines(ids::FOUNDRY@, x.foundry), str_lines(ids::FAMILY_NAME@, x.family_name));
    if let Some(t) = x.weight_name {
        lemma_quoted_text(t);
        lemma_record_lines_ok(ids::WEIGHT_NAME@, crate::values::quoted_chars(t));
    }
    lemma_lines_ok_append(str_lines(ids::FOUNDRY@, x.foundry) + str_lines(ids::FAMILY_NAME@, x.family_name), str_lines(ids::WEIGHT_NAME@, x.weight_name));
    if let Some(t) = x.slant {
        lemma_quoted_text(t);
        lemma_record_lines_ok(ids::SLANT@, crate::values::quoted_chars(t));
    }
    lemma_lines_ok_append(str_lines(ids::FOUNDRY@, x.foundry) + str_lines(ids::FAMILY_NAME@, x.family_name) + str_lines(ids::WEIGHT_NAME@, x.weight_name), str_lines(ids::SLANT@, x.slant));
    if let Some(t) = x.setwidth_name {
        lemma_quoted_text(t);
        lemma_record_lines_ok(ids::SETWIDTH_NAME@, crate::values::quoted_chars(t));
    }
    lemma_lines_ok_append(str_lines(ids::FOUNDRY@, x.foundry) + str_lines(ids::FAMILY_NAME@, x.family_name) + str_lines(ids::WEIGHT_NAME@, x.weight_name) + str_lines(ids::SLANT@, x.slant), str_lines(ids::SETWIDTH_NAME@, x.setwidth_name));
    if let Some(t) = x.add_style_name {
        lemma_quoted_text(t);
        lemma_record_lines_ok(ids::ADD_STYLE_NAME@, crate::values::quoted_chars(t));
    }
    lemma_lines_ok_append(str_lines(ids::FOUNDRY@, x.foundry) + str_lines(ids::FAMILY_NAME@, x.family_name) + str_lines(ids::WEIGHT_NAME@, x.weight_name) + str_lines(ids::SLANT@, x.slant) + str_lines(ids::SETWIDTH_NAME@, x.setwidth_name), str_lines(ids::ADD_STYLE_NAME@, x.add_style_name));
    if let Some(i) = x.pixel_size {
        lemma_int_text(i as int);
        lemma_record_lines_ok(ids::PIXEL_SIZE@, int_chars(i as int));
    }
    lemma_lines_ok_append(str_lines(ids::FOUNDRY@, x.foundry) + str_lines(ids::FAMILY_NAME@, x.family_name) + str_lines(ids::WEIGHT_NAME@, x.weight_name) + str_lines(ids::SLANT@, x.slant) + str_lines(ids::SETWIDTH_NAME@, x.setwidth_name) + str_lines(ids::ADD_STYLE_NAME@, x.add_style_name), int_lines(ids::PIXEL_SIZE@, x.pixel_size));
}

#[verifier::spinoff_prover]
proof fn lemma_xlfd_lines_ok_b(f: FontModel)
    requires
        props_ok(f),
    ensures
        lines_ok(xlfd_lines_b(f.xlfd)),
{
    lemma_xlfd_keywords();
    let x = f.xlfd;
    if let Some(i) = x.point_size {
        lemma_int_text(i as int);
        lemma_record_lines_ok(ids::POINT_SIZE@, int_chars(i as int));
    }
    if let Some(i) = x.resolution_x {
        lemma_int_text(i as int);
        lemma_record_lines_ok(ids::RESOLUTION_X@, int_chars(i as int));
    }
    lemma_lines_ok_append(int_lines(ids::POINT_SIZE@, x.point_size), int_lines(ids::RESOLUTION_X@, x.resolution_x));
    if let Some(i) = x.resolution_y {
        lemma_int_text(i as int);
        lemma_record_lines_ok(ids::RESOLUTION_Y@, int_chars(i as int));
    }
    lemma_lines_ok_append(int_lines(ids::POINT_SIZE@, x.point_size) + int_lines(ids::RESOLUTION_X@, x.resolution_x), int_lines(ids::RESOLUTION_Y@, x.resolution_y));
    if let Some(t) = x.spacing {
        lemma_quoted_text(t);
        lemma_record_lines_ok(ids::SPACING@, crate::values::quoted_chars(t));
    }
    lemma_lines_ok_append(int_lines(ids::POINT_SIZE@, x.point_size) + int_lines(ids::RESOLUTION_X@, x.resolution_x) + int_lines(ids::RESOLUTION_Y@, x.resolution_y), str_lines(ids::SPACING@, x.spacing));
    if let Some(i) = x.average_width {
        lemma_int_text(i as int);
        lemma_record_lines_ok(ids::AVERAGE_WIDTH@, int_chars(i as int));
    }
    lemma_lines_ok_append(int_lines(ids::POINT_SIZE@, x.point_size) + int_lines(ids::RESOLUTION_X@, x.resolution_x) + int_lines(ids::RESOLUTION_Y@, x.resolution_y) + str_lines(ids::SPACING@, x.spacing), int_lines(ids::AVERAGE_WIDTH@, x.average_width));
    if let Some(t) = x.charset_registry {
        lemma_quoted_text(t);
        lemma_record_lines_ok(ids::CHARSET_REGISTRY@, crate::values::quoted_chars(t));
    }
    lemma_lines_ok_append(int_lines(ids::POINT_SIZE@, x.point_size) + int_lines(ids::RESOLUTION_X@, x.resolution_x) + int_lines(ids::RESOLUTION_Y@, x.resolution_y) + str_lines(ids::SPACING@, x.spacing) + int_lines(ids::AVERAGE_WIDTH@, x.average_width), str_lines(ids::CHARSET_REGISTRY@, x.charset_registry));
    if let Some(t) = x.charset_encoding {
        lemma_quoted_text(t);
        lemma_record_lines_ok(ids::CHARSET_ENCODING@, crate::values::quoted_chars(t));
    }
    lemma_lines_ok_append(int_lines(ids::POINT_SIZE@, x.point_size) + int_lines(ids::RESOLUTION_X@, x.resolution_x) + int_lines(ids::RESOLUTION_Y@, x.resolution_y) + str_lines(ids::SPACING@, x.spacing) + int_lines(ids::AVERAGE_WIDTH@, x.average_width) + str_lines(ids::CHARSET_REGISTRY@, x.charset_registry), str_lines(ids::CHARSET_ENCODING@, x.charset_encoding));
}

proof fn lemma_xlfd_lines_ok(f: FontModel)
    requires
        props_ok(f),
    ensures
        lines_ok(xlfd_lines(f.xlfd)),
{
    lemma_xlfd_lines_ok_a(f);
    lemma_xlfd_lines_ok_b(f);
    lemma_lines_ok_append(xlfd_lines_a(f.xlfd), xlfd_lines_b(f.xlfd));
}

#[verifier::spinoff_prover]
proof fn lemma_props_lines_ok(f: FontModel)
    requires
        props_ok(f),
    ensures
        lines_ok(props_lines(f)),
{
    lemma_keywords();
    lemma_glyph_keywords();
    lemma_xlfd_keywords();
    let n = props_count(f);
    let x = f.xlfd;
    if n > 0 {
        let a = seq![line_of(ids::STARTPROPERTIES@, dec_chars(n))];
        let xl = xlfd_lines(x);
        let c = prop_lines(f.properties);
        let e = seq![ids::ENDPROPERTIES@];
        lemma_dec_text(n);
        lemma_record_lines_ok(ids::STARTPROPERTIES@, dec_chars(n));
        lemma_xlfd_lines_ok(f);
        assert forall|i: int| 0 <= i < c.len() implies no_newline(#[trigger] c[i]) && !all_ws(c[i]) by {
            let p = f.properties[i];
            assert(prop_ok(p));
            assert(c[i] == line_of(p.name, crate::values::prop_value_chars(p.value)));
            match p.value {
                PropValue::Str(t) => {
                    lemma_str_value(t);
                },
                PropValue::Int(v) => {
                    lemma_int_value(v);
                },
            }
            lemma_record_line(p.name, crate::values::prop_value_chars(p.value));
        }
        lemma_keyword_line(ids::ENDPROPERTIES@);
        assert(e[0] == ids::ENDPROPERTIES@);
        lemma_lines_ok_append(a, xl);
        lemma_lines_ok_append(a + xl, c);
        lemma_lines_ok_append(a + xl + c, e);
    }
}

/// The lines of the glyph block.
pub open spec fn chars_lines(f: FontModel) -> Seq<Seq<char>> {
    if f.glyphs.len() > 0 {
        seq![line_of(ids::CHARS@, dec_chars(f.glyphs.len()))] + glyphs_lines(f.glyphs)
    } else {
        Seq::empty()
    }
}

/// A font fit for one-line records: its version, name and comments each
/// stand on one line without whitespace at either end, and its property
/// block and glyphs are fit for them too.
pub open spec fn font_fits(f: FontModel) -> bool {
    &&& text_ok(f.bdf_version)
    &&& text_ok(f.name)
    &&& forall|i: int| 0 <= i < f.comments.len() ==> text_ok(#[trigger] f.comments[i])
    &&& props_ok(f)
    &&& f.glyphs.len() <= usize::MAX
    &&& forall|i: int| 0 <= i < f.glyphs.len() ==> glyph_ok(#[trigger] f.glyphs[i])
}

/// All the lines that the writer produces for a font.
pub open spec fn font_lines(f: FontModel) -> Seq<Seq<char>> {
    (header_lines(f) + props_lines(f) + chars_lines(f)).push(ids::ENDFONT@)
}

/// The draft that reading a fitting font's lines leaves behind.
pub open spec fn font_draft(f: FontModel) -> FontDraft {
    FontDraft {
        metrics: metrics_draft(f.metrics),
        scalable_width: f.scalable_width,
        device_width: f.device_width,
        scalable_width_alt: f.scalable_width_alt,
        device_width_alt: f.device_width_alt,
        vector: f.vector,
        glyphs: f.glyphs.map_values(|g: GlyphModel| glyph_draft(g)),
        xlfd: f.xlfd,
        properties: f.properties,
        ..head_draft(f)
    }
}

proof fn lemma_glyphs_fit(f: FontModel)
    requires
        font_fits(f),
        font_error(f) is None,
    ensures
        forall|i: int| 0 <= i < f.glyphs.len() ==> glyph_fits(#[trigger] f.glyphs[i]),
{
    crate::laws::lemma_alt_width_invariant(f);
    assert forall|i: int| 0 <= i < f.glyphs.len() implies glyph_fits(#[trigger] f.glyphs[i]) by {
        assert(glyph_ok(f.glyphs[i]));
        assert(alt_widths_ok(
            f.glyphs[i].metrics,
            f.glyphs[i].scalable_width_alt,
            f.glyphs[i].device_width_alt,
        ));
    }
}

/// The text of a fitting font splits into its lines and an empty rest,
/// none of them blank but the rest.
#[verifier::spinoff_prover]
proof fn lemma_font_text(f: FontModel)
    requires
        font_fits(f),
    ensures
        split_lines(font_chars(f)) == font_lines(f).push(Seq::empty()),
        count_nonblank(font_lines(f).push(Seq::empty())) == font_lines(f).len(),
{
    lemma_keywords();
    lemma_glyph_keywords();
    let n = f.glyphs.len();
    let h = header_lines(f);
    let pl = props_lines(f);
    let k = chars_lines(f);
    let l = font_lines(f);
    let all = l.push(Seq::empty());
    lemma_join_header(f);
    lemma_join_props_block(f);
    lemma_join_append(h, pl);
    if n > 0 {
        lemma_join_rec(ids::CHARS@, dec_chars(n));
        lemma_join_glyphs(f.glyphs);
        lemma_join_append(seq![line_of(ids::CHARS@, dec_chars(n))], glyphs_lines(f.glyphs));
    } else {
        assert(k =~= Seq::<Seq<char>>::empty());
    }
    assert(join_lines(k) == glyphs_block(f));
    lemma_join_append(h + pl, k);
    assert(l.drop_last() == h + pl + k);
    assert(join_lines(l) =~= font_chars(f));
    lemma_header_lines_ok(f);
    if n > 0 {
        lemma_dec_text(n);
        lemma_record_lines_ok(ids::CHARS@, dec_chars(n));
        lemma_glyphs_lines_ok(f.glyphs);
        lemma_lines_ok_append(seq![line_of(ids::CHARS@, dec_chars(n))], glyphs_lines(f.glyphs));
    }
    lemma_keyword_line(ids::ENDFONT@);
    lemma_props_lines_ok(f);
    lemma_lines_ok_append(h, pl);
    lemma_lines_ok_append(h + pl, k);
    lemma_lines_ok_append(h + pl + k, seq![ids::ENDFONT@]);
    assert(h + pl + k + seq![ids::ENDFONT@] =~= l);
    lemma_split_join(l);
    lemma_count_nonblank(l);
    assert(all.drop_last() == l);
    assert(all_ws(all.last()));
}

/// The draft after a font's header.
pub open spec fn header_draft(f: FontModel) -> FontDraft {
    FontDraft {
        metrics: metrics_draft(f.metrics),
        scalable_width: f.scalable_width,
        device_width: f.device_width,
        scalable_width_alt: f.scalable_width_alt,
        device_width_alt: f.device_width_alt,
        vector: f.vector,
        ..head_draft(f)
    }
}

#[verifier::spinoff_prover]
proof fn lemma_run_header(f: FontModel, last: nat)
    requires
        font_fits(f),
    ensures
        run_from((initial(), 0), header_lines(f), last) == Ok::<(ParseModel, nat), (nat, crate::error::ErrorModel)>(
            (
                ParseModel { state: ParseState::InFont, font: header_draft(f), rows_left: 0 },
                header_lines(f).len(),
            ),
        ),
{
    let st0 = (initial(), 0nat);
    lemma_run_head(f, last);
    let sh = (ParseModel { state: ParseState::InFont, font: head_draft(f), rows_left: 0 }, head_lines(f).len());
    lemma_run_widths(sh, f, last);
    lemma_run_append(
        st0,
        head_lines(f),
        widths_lines(
            f.metrics,
            f.scalable_width,
            f.device_width,
            f.scalable_width_alt,
            f.device_width_alt,
            f.vector,
        ),
        last,
    );
}

/// The parser after the glyph block, before `ENDFONT`.
pub open spec fn after_chars(f: FontModel) -> ParseModel {
    ParseModel {
        state: if f.glyphs.len() > 0 {
            ParseState::InChars
        } else {
            ParseState::InFont
        },
        font: font_draft(f),
        rows_left: 0,
    }
}

#[verifier::spinoff_prover]
#[verifier::rlimit(100)]
proof fn lemma_run_chars(f: FontModel, ln: nat, last: nat)
    requires
        font_fits(f),
        forall|i: int| 0 <= i < f.glyphs.len() ==> glyph_fits(#[trigger] f.glyphs[i]),
    ensures
        run_from(
            (ParseModel { state: ParseState::InFont, font: props_draft(f), rows_left: 0 }, ln),
            chars_lines(f),
            last,
        ) == Ok::<(ParseModel, nat), (nat, crate::error::ErrorModel)>(
            (after_chars(f), ln + chars_lines(f).len()),
        ),
{
    lemma_keywords();
    lemma_glyph_keywords();
    let n = f.glyphs.len();
    let k = chars_lines(f);
    let d = props_draft(f);
    let m = ParseModel { state: ParseState::InFont, font: d, rows_left: 0 };
    if n > 0 {
        let mc = ParseModel { state: ParseState::InChars, ..m };
        lemma_dec_text(n);
        lemma_int_of_usize(n);
        lemma_run_record((m, ln), ids::CHARS@, dec_chars(n), last);
        assert(run_from((m, ln), seq![line_of(ids::CHARS@, dec_chars(n))], last) == Ok::<(ParseModel, nat), (nat, crate::error::ErrorModel)>((mc, ln + 1)));
        lemma_run_glyphs((mc, ln + 1), f.glyphs, last);
        assert(Seq::<GlyphDraft>::empty() + f.glyphs.map_values(|g: GlyphModel| glyph_draft(g)) =~= f.glyphs.map_values(|g: GlyphModel| glyph_draft(g)));
        lemma_run_append((m, ln), seq![line_of(ids::CHARS@, dec_chars(n))], glyphs_lines(f.glyphs), last);
    } else {
        assert(k =~= Seq::<Seq<char>>::empty());
        assert(f.glyphs.map_values(|g: GlyphModel| glyph_draft(g)) =~= Seq::<GlyphDraft>::empty());
        assert(font_draft(f) == d);
    }
}

#[verifier::spinoff_prover]
proof fn lemma_run_endfont(m: ParseModel, ln: nat)
    requires
        m.state == ParseState::InFont || m.state == ParseState::InChars,
    ensures
        run_from((m, ln), seq![ids::ENDFONT@], ln + 1) == Ok::<(ParseModel, nat), (nat, crate::error::ErrorModel)>(
            (m, ln + 1),
        ),
{
    lemma_keywords();
    lemma_keyword_line(ids::ENDFONT@);
    lemma_run_one((m, ln), ids::ENDFONT@, ln + 1);
    reveal(step);
}

/// Reading a fitting font's lines leaves its draft, with no error.
proof fn lemma_font_run(f: FontModel)
    requires
        font_fits(f),
        forall|i: int| 0 <= i < f.glyphs.len() ==> glyph_fits(#[trigger] f.glyphs[i]),
    ensures
        run(font_lines(f).push(Seq::empty()), font_lines(f).len()) matches Ok((m, _))
            && m.font == font_draft(f),
{
    let h = header_lines(f);
    let pl = props_lines(f);
    let k = chars_lines(f);
    let l = font_lines(f);
    let all = l.push(Seq::empty());
    let last = l.len();
    let st0 = (initial(), 0nat);
    lemma_run_header(f, last);
    lemma_run_props_block(f, h.len(), last);
    lemma_run_append(st0, h, pl, last);
    lemma_run_chars(f, h.len() + pl.len(), last);
    lemma_run_append(st0, h + pl, k, last);
    lemma_run_endfont(after_chars(f), h.len() + pl.len() + k.len());
    assert((h + pl + k) + seq![ids::ENDFONT@] =~= l);
    lemma_run_append(st0, h + pl + k, seq![ids::ENDFONT@], last);
    assert(all.drop_last() == l);
    assert(all_ws(all.last()));
    assert(run_from(st0, l, last) == Ok::<(ParseModel, nat), (nat, crate::error::ErrorModel)>(
        (after_chars(f), l.len()),
    ));
}

/// The draft of a fitting, valid font converts back into it.
#[verifier::spinoff_prover]
proof fn lemma_font_finish(f: FontModel)
    requires
        font_fits(f),
        font_error(f) is None,
        forall|i: int| 0 <= i < f.glyphs.len() ==> glyph_fits(#[trigger] f.glyphs[i]),
    ensures
        finish(font_draft(f)) == Ok::<FontModel, crate::error::ErrorModel>(f),
{
    crate::laws::lemma_alt_width_invariant(f);
    let d2 = font_draft(f);
    lemma_glyph_drafts(f.glyphs);
    assert(d2.metrics.unwrap_or(MetricsSet::Normal) == f.metrics);
    assert(d2.properties =~= f.properties);
}

/// Round trip: a valid font that fits one-line records, written as text and
/// parsed again, is the same font.
pub proof fn lemma_font_round_trip(f: FontModel)
    requires
        font_fits(f),
        font_error(f) is None,
    ensures
        parse_spec(font_chars(f)) == Ok::<FontModel, (nat, crate::error::ErrorModel)>(f),
{
    lemma_glyphs_fit(f);
    lemma_font_text(f);
    lemma_font_run(f);
    lemma_font_finish(f);
}

proof fn lemma_int_of_usize(n: nat)
    requires
        n <= usize::MAX,
    ensures
        crate::text::usize_of(dec_chars(n)) == Some(n as usize),
{
    lemma_dec_chars(n);
    let s = dec_chars(n);
    assert(s[0] != '+' && s[0] != '-') by {
        assert('0' <= s[0] && s[0] <= '9');
    }
}

proof fn lemma_lead_ws(s: Seq<char>)
    ensures
        lead_ws(s) <= s.len(),
        forall|i: int| 0 <= i < lead_ws(s) ==> is_ws(#[trigger] s[i]),
        lead_ws(s) < s.len() ==> !is_ws(s[lead_ws(s) as int]),
    decreases s.len(),
{
    if s.len() > 0 && is_ws(s[0]) {
        lemma_lead_ws(s.drop_first());
        assert forall|i: int| 0 <= i < lead_ws(s) implies is_ws(#[trigger] s[i]) by {
            if i > 0 {
                assert(s[i] == s.drop_first()[i - 1]);
            }
        }
    }
}

proof fn lemma_trail_ws(s: Seq<char>)
    ensures
        trail_ws(s) <= s.len(),
        forall|i: int| s.len() - trail_ws(s) <= i < s.len() ==> is_ws(#[trigger] s[i]),
        trail_ws(s) < s.len() ==> !is_ws(s[s.len() - trail_ws(s) - 1]),
    decreases s.len(),
{
    if s.len() > 0 && is_ws(s.last()) {
        lemma_trail_ws(s.drop_last());
        assert forall|i: int| s.len() - trail_ws(s) <= i < s.len() implies is_ws(
            #[trigger] s[i],
        ) by {
            if i < s.len() - 1 {
                assert(s[i] == s.drop_last()[i]);
            }
        }
    }
}

/// What trimming a non-blank line without line breaks leaves: a text with
/// no whitespace at either end and no line break.
proof fn lemma_trim_text(l: Seq<char>)
    requires
        !all_ws(l),
        no_newline(l),
    ensures
        text_ok(trim(l)),
{
    lemma_lead_ws(l);
    lemma_trail_ws(l);
    let a = lead_ws(l) as int;
    let k = choose|k: int| 0 <= k < l.len() && !is_ws(l[k]);
    assert(a <= k);
    assert(a < l.len());
    assert(l.len() - trail_ws(l) > k);
    let t = trim(l);
    assert(t == l.subrange(a, l.len() - trail_ws(l)));
    assert(t[0] == l[a]);
    assert(t.last() == l[l.len() - trail_ws(l) - 1]);
    assert forall|i: int| 0 <= i < t.len() implies t[i] != '\n' by {
        assert(t[i] == l[a + i]);
    }
}

/// The first whitespace character, given one at `w`.
proof fn lemma_first_ws_min(s: Seq<char>, w: int) -> (k: int)
    requires
        0 <= w < s.len(),
        is_ws(s[w]),
    ensures
        0 <= k <= w,
        is_ws(s[k]),
        forall|j: int| 0 <= j < k ==> !is_ws(#[trigger] s[j]),
    decreases s.len(),
{
    if is_ws(s[0]) {
        0
    } else {
        let t = s.drop_first();
        assert(t[w - 1] == s[w]);
        let k = lemma_first_ws_min(t, w - 1);
        assert forall|j: int| 0 <= j < k + 1 implies !is_ws(#[trigger] s[j]) by {
            if j > 0 {
                assert(s[j] == t[j - 1]);
            }
        }
        k + 1
    }
}

/// The keyword of a record line is a word; its rest, where there is one, is
/// a record argument.
proof fn lemma_split_fits(t: Seq<char>)
    requires
        text_ok(t),
    ensures
        word_ok(split_record(t).0),
        split_record(t).1 matches Some(r) ==> text_ok(r),
{
    match first_ws(t) {
        Some(n) => {
            let w = choose|i: int| 0 <= i < t.len() && is_ws(#[trigger] t[i]);
            let c = lemma_first_ws_min(t, w);
            lemma_first_ws_at(t, c);
            assert(n == c);
            assert(n > 0) by {
                assert(!is_ws(t[0]));
            }
            let id = t.subrange(0, n);
            assert forall|i: int| 0 <= i < id.len() implies !is_ws(#[trigger] id[i]) by {
                assert(id[i] == t[i]);
            }
            let u = t.subrange(n, t.len() as int);
            assert(u.last() == t.last());
            assert(!all_ws(u));
            assert forall|i: int| 0 <= i < u.len() implies u[i] != '\n' by {
                assert(u[i] == t[n + i]);
            }
            lemma_trim_text(u);
        },
        None => {
            assert forall|i: int| 0 <= i < t.len() implies !is_ws(#[trigger] t[i]) by {
                if is_ws(t[i]) {
                    assert(exists|i: int| 0 <= i < t.len() && is_ws(#[trigger] t[i]));
                }
            }
        },
    }
}

/// The lines of a text hold no line break, and there is at most one more
/// line than characters.
proof fn lemma_split_lines_facts(s: Seq<char>)
    ensures
        split_lines(s).len() <= s.len() + 1,
        forall|i: int| 0 <= i < split_lines(s).len() ==> no_newline(#[trigger] split_lines(s)[i]),
    decreases s.len(),
{
    lemma_split_lines_len(s);
    if s.len() > 0 {
        lemma_split_lines_facts(s.drop_last());
        let p = split_lines(s.drop_last());
        lemma_split_lines_len(s.drop_last());
        if s.last() == '\n' {
            assert forall|i: int| 0 <= i < split_lines(s).len() implies no_newline(
                #[trigger] split_lines(s)[i],
            ) by {
                if i < p.len() {
                    assert(split_lines(s)[i] == p[i]);
                }
            }
        } else {
            assert forall|i: int| 0 <= i < split_lines(s).len() implies no_newline(
                #[trigger] split_lines(s)[i],
            ) by {
                if i < p.len() - 1 {
                    assert(split_lines(s)[i] == p[i]);
                } else {
                    let l = p.last().push(s.last());
                    assert(split_lines(s)[i] == l);
                    assert(no_newline(p[p.len() - 1]));
                    assert forall|j: int| 0 <= j < l.len() implies l[j] != '\n' by {
                        if j < l.len() - 1 {
                            assert(l[j] == p.last()[j]);
                        }
                    }
                }
            }
        }
    }
}

proof fn lemma_undouble_no_newline(x: Seq<char>)
    requires
        no_newline(x),
    ensures
        no_newline(crate::values::undouble_quotes(x)),
    decreases x.len(),
{
    if x.len() > 0 {
        if x.len() >= 2 && x[0] == '"' && x[1] == '"' {
            let t = x.subrange(2, x.len() as int);
            assert forall|i: int| 0 <= i < t.len() implies t[i] != '\n' by {
                assert(t[i] == x[i + 2]);
            }
            lemma_undouble_no_newline(t);
            let u = crate::values::undouble_quotes(t);
            assert forall|i: int| 0 <= i < (seq!['"'] + u).len() implies (seq!['"'] + u)[i] != '\n' by {
                if i > 0 {
                    assert((seq!['"'] + u)[i] == u[i - 1]);
                }
            }
        } else {
            let t = x.drop_first();
            assert forall|i: int| 0 <= i < t.len() implies t[i] != '\n' by {
                assert(t[i] == x[i + 1]);
            }
            lemma_undouble_no_newline(t);
            let u = crate::values::undouble_quotes(t);
            assert forall|i: int| 0 <= i < (seq![x[0]] + u).len() implies (seq![x[0]] + u)[i]
                != '\n' by {
                if i > 0 {
                    assert((seq![x[0]] + u)[i] == u[i - 1]);
                }
            }
        }
    }
}

/// A string value read from a record argument stands on one line.
proof fn lemma_prop_value_no_newline(r: Seq<char>)
    requires
        no_newline(r),
    ensures
        prop_value_of(r) matches Some(PropValue::Str(t)) ==> no_newline(t),
{
    if r.len() > 0 && r[0] == '"' {
        let q = r.drop_first();
        if let Some(n) = crate::values::last_index_of(q, '"') {
            lemma_last_index_bound(q, '"');
            let x = q.subrange(0, n);
            assert forall|i: int| 0 <= i < x.len() implies x[i] != '\n' by {
                assert(x[i] == r[i + 1]);
            }
            lemma_undouble_no_newline(x);
        }
    }
}

proof fn lemma_last_index_bound(s: Seq<char>, c: char)
    ensures
        crate::values::last_index_of(s, c) matches Some(n) ==> 0 <= n < s.len(),
    decreases s.len(),
{
    if s.len() > 0 && s.last() != c {
        lemma_last_index_bound(s.drop_last(), c);
    }
}

/// The bits of a row read from a non-empty line fill whole bytes.
proof fn lemma_row_of_ok(s: Seq<char>, bits: Seq<bool>)
    requires
        s.len() > 0,
        crate::bitmap::row_of(s) == Some(bits),
    ensures
        row_ok(bits),
{
}

/// The XLFD strings of a draft stand on one line each.
pub open spec fn xlfd_fits(x: XlfdModel) -> bool {
    &&& (x.foundry matches Some(t) ==> no_newline(t))
    &&& (x.family_name matches Some(t) ==> no_newline(t))
    &&& (x.weight_name matches Some(t) ==> no_newline(t))
    &&& (x.slant matches Some(t) ==> no_newline(t))
    &&& (x.setwidth_name matches Some(t) ==> no_newline(t))
    &&& (x.add_style_name matches Some(t) ==> no_newline(t))
    &&& (x.spacing matches Some(t) ==> no_newline(t))
    &&& (x.charset_registry matches Some(t) ==> no_newline(t))
    &&& (x.charset_encoding matches Some(t) ==> no_newline(t))
}

/// A glyph draft whose name and rows the writer can put on lines.
pub open spec fn glyph_draft_fits(g: GlyphDraft) -> bool {
    &&& (g.name matches Some(n) ==> text_ok(n))
    &&& forall|i: int| 0 <= i < g.rows.len() ==> row_ok(#[trigger] g.rows[i])
}

/// A draft whose texts, properties and rows the writer can put on lines.
pub open spec fn draft_fits(d: FontDraft) -> bool {
    &&& (d.bdf_version matches Some(v) ==> text_ok(v))
    &&& (d.name matches Some(v) ==> text_ok(v))
    &&& forall|i: int| 0 <= i < d.comments.len() ==> text_ok(#[trigger] d.comments[i])
    &&& forall|i: int| 0 <= i < d.properties.len() ==> prop_ok(#[trigger] d.properties[i])
    &&& xlfd_fits(d.xlfd)
    &&& forall|i: int| 0 <= i < d.glyphs.len() ==> glyph_draft_fits(#[trigger] d.glyphs[i])
}

/// How many XLFD fields, properties and glyphs a draft holds.
pub open spec fn draft_count(d: FontDraft) -> nat {
    crate::model::xlfd_count(d.xlfd) + d.properties.len() + d.glyphs.len()
}

proof fn lemma_with_last_fits(f: FontDraft, g: GlyphDraft)
    requires
        draft_fits(f),
        f.glyphs.len() > 0,
        glyph_draft_fits(g),
    ensures
        draft_fits(with_last_glyph(f, g)),
        draft_count(with_last_glyph(f, g)) == draft_count(f),
        with_last_glyph(f, g).glyphs.len() == f.glyphs.len(),
{
    let h = with_last_glyph(f, g);
    assert forall|i: int| 0 <= i < h.glyphs.len() implies glyph_draft_fits(#[trigger] h.glyphs[i]) by {
        if i < f.glyphs.len() - 1 {
            assert(h.glyphs[i] == f.glyphs[i]);
        }
    }
}

#[verifier::spinoff_prover]
#[verifier::rlimit(100)]
proof fn lemma_xlfd_str_fits(x: XlfdModel, id: Seq<char>, t: Seq<char>)
    requires
        xlfd_fits(x),
        no_newline(t),
    ensures
        xlfd_with_str(x, id, t) matches Some(y) ==> xlfd_fits(y) && crate::model::xlfd_count(y)
            <= crate::model::xlfd_count(x) + 1,
        xlfd_with_str(x, id, t) is None <==> xlfd_with_str(empty_xlfd(), id, Seq::empty()) is None,
{
    if id == ids::FOUNDRY@ {
        let y = XlfdModel { foundry: Some(t), ..x };
        assert(xlfd_with_str(x, id, t) == Some(y));
        assert(crate::model::xlfd_count(y) <= crate::model::xlfd_count(x) + 1);
    } else if id == ids::FAMILY_NAME@ {
        let y = XlfdModel { family_name: Some(t), ..x };
        assert(xlfd_with_str(x, id, t) == Some(y));
        assert(crate::model::xlfd_count(y) <= crate::model::xlfd_count(x) + 1);
    } else if id == ids::WEIGHT_NAME@ {
        let y = XlfdModel { weight_name: Some(t), ..x };
        assert(xlfd_with_str(x, id, t) == Some(y));
        assert(crate::model::xlfd_count(y) <= crate::model::xlfd_count(x) + 1);
    } else if id == ids::SLANT@ {
        let y = XlfdModel { slant: Some(t), ..x };
        assert(xlfd_with_str(x, id, t) == Some(y));
        assert(crate::model::xlfd_count(y) <= crate::model::xlfd_count(x) + 1);
    } else if id == ids::SETWIDTH_NAME@ {
        let y = XlfdModel { setwidth_name: Some(t), ..x };
        assert(xlfd_with_str(x, id, t) == Some(y));
        assert(crate::model::xlfd_count(y) <= crate::model::xlfd_count(x) + 1);
    } else if id == ids::ADD_STYLE_NAME@ {
        let y = XlfdModel { add_style_name: Some(t), ..x };
        assert(xlfd_with_str(x, id, t) == Some(y));
        assert(crate::model::xlfd_count(y) <= crate::model::xlfd_count(x) + 1);
    } else if id == ids::SPACING@ {
        let y = XlfdModel { spacing: Some(t), ..x };
        assert(xlfd_with_str(x, id, t) == Some(y));
        assert(crate::model::xlfd_count(y) <= crate::model::xlfd_count(x) + 1);
    } else if id == ids::CHARSET_REGISTRY@ {
        let y = XlfdModel { charset_registry: Some(t), ..x };
        assert(xlfd_with_str(x, id, t) == Some(y));
        assert(crate::model::xlfd_count(y) <= crate::model::xlfd_count(x) + 1);
    } else if id == ids::CHARSET_ENCODING@ {
        let y = XlfdModel { charset_encoding: Some(t), ..x };
        assert(xlfd_with_str(x, id, t) == Some(y));
        assert(crate::model::xlfd_count(y) <= crate::model::xlfd_count(x) + 1);
    }
}

#[verifier::spinoff_prover]
#[verifier::rlimit(100)]
proof fn lemma_xlfd_int_fits(x: XlfdModel, id: Seq<char>, i: i32)
    requires
        xlfd_fits(x),
    ensures
        xlfd_with_int(x, id, i) matches Some(y) ==> xlfd_fits(y) && crate::model::xlfd_count(y)
            <= crate::model::xlfd_count(x) + 1,
        xlfd_with_int(x, id, i) is None <==> xlfd_with_int(empty_xlfd(), id, 0) is None,
{
    if id == ids::PIXEL_SIZE@ {
        let y = XlfdModel { pixel_size: Some(i), ..x };
        assert(xlfd_with_int(x, id, i) == Some(y));
        assert(crate::model::xlfd_count(y) <= crate::model::xlfd_count(x) + 1);
    } else if id == ids::POINT_SIZE@ {
        let y = XlfdModel { point_size: Some(i), ..x };
        assert(xlfd_with_int(x, id, i) == Some(y));
        assert(crate::model::xlfd_count(y) <= crate::model::xlfd_count(x) + 1);
    } else if id == ids::RESOLUTION_X@ {
        let y = XlfdModel { resolution_x: Some(i), ..x };
        assert(xlfd_with_int(x, id, i) == Some(y));
        assert(crate::model::xlfd_count(y) <= crate::model::xlfd_count(x) + 1);
    } else if id == ids::RESOLUTION_Y@ {
        let y = XlfdModel { resolution_y: Some(i), ..x };
        assert(xlfd_with_int(x, id, i) == Some(y));
        assert(crate::model::xlfd_count(y) <= crate::model::xlfd_count(x) + 1);
    } else if id == ids::AVERAGE_WIDTH@ {
        let y = XlfdModel { average_width: Some(i), ..x };
        assert(xlfd_with_int(x, id, i) == Some(y));
        assert(crate::model::xlfd_count(y) <= crate::model::xlfd_count(x) + 1);
    }
}

proof fn lemma_push_prop_fits(f: FontDraft, p: PropertyModel)
    requires
        draft_fits(f),
        prop_ok(p),
    ensures
        draft_fits(FontDraft { properties: f.properties.push(p), ..f }),
{
    let ps = f.properties.push(p);
    assert forall|i: int| 0 <= i < ps.len() implies prop_ok(#[trigger] ps[i]) by {
        if i < f.properties.len() {
            assert(ps[i] == f.properties[i]);
        }
    }
}

#[verifier::spinoff_prover]
#[verifier::rlimit(100)]
proof fn lemma_property_fits(f: FontDraft, id: Seq<char>, r: Seq<char>)
    requires
        draft_fits(f),
        word_ok(id),
        text_ok(r),
        id != ids::COMMENT@,
        id != ids::ENDPROPERTIES@,
        id != ids::ENDCHAR@,
        id != ids::ENDFONT@,
    ensures
        property_record(f, id, r) matches Ok(f2) ==> draft_fits(f2) && draft_count(f2)
            <= draft_count(f) + 1 && f2.glyphs == f.glyphs,
{
    lemma_prop_value_no_newline(r);
    match prop_value_of(r) {
        None => {},
        Some(PropValue::Str(t)) => {
            lemma_xlfd_str_fits(f.xlfd, id, t);
            lemma_xlfd_int_fits(f.xlfd, id, 0);
            if xlfd_with_str(f.xlfd, id, t) is None && xlfd_with_int(f.xlfd, id, 0) is None {
                let p = PropertyModel { name: id, value: PropValue::Str(t) };
                assert(prop_ok(p));
                lemma_push_prop_fits(f, p);
            }
        },
        Some(PropValue::Int(i)) => {
            lemma_xlfd_int_fits(f.xlfd, id, i);
            lemma_xlfd_str_fits(f.xlfd, id, Seq::empty());
            if xlfd_with_int(f.xlfd, id, i) is None && xlfd_with_str(f.xlfd, id, Seq::empty()) is None {
                let p = PropertyModel { name: id, value: PropValue::Int(i) };
                assert(prop_ok(p));
                lemma_push_prop_fits(f, p);
            }
        },
    }
}

#[verifier::spinoff_prover]
#[verifier::rlimit(100)]
proof fn lemma_record_step_fits(m: ParseModel, id: Seq<char>, rest: Option<Seq<char>>)
    requires
        draft_fits(m.font),
        parse_wf(m),
        m.state != ParseState::InBitmap,
        word_ok(id),
        rest matches Some(r) ==> text_ok(r),
        id != ids::ENDFONT@,
    ensures
        record_step(m, id, rest) matches Ok(m2) ==> draft_fits(m2.font) && parse_wf(m2)
            && draft_count(m2.font) <= draft_count(m.font) + 1,
{
    let f = m.font;
    if let Ok(m2) = record_step(m, id, rest) {
        if id == ids::COMMENT@ && rest is Some {
            assert forall|i: int| 0 <= i < m2.font.comments.len() implies text_ok(
                #[trigger] m2.font.comments[i],
            ) by {
                if i < f.comments.len() {
                    assert(m2.font.comments[i] == f.comments[i]);
                }
            }
        } else if id == ids::ENDPROPERTIES@ || id == ids::ENDCHAR@ {
        } else if id == ids::BITMAP@ && m.state == ParseState::InChar {
            let g = last_glyph(f);
            assert(glyph_draft_fits(g));
            let b = if g.bounding_box is Some { g.bounding_box } else { f.bounding_box };
            let g2 = GlyphDraft { width: b->0.width as nat, height: b->0.height as nat, rows: Seq::empty(), ..g };
            lemma_with_last_fits(f, g2);
        } else {
            let r = rest->0;
            if m.state == ParseState::InProperties {
                lemma_property_fits(f, id, r);
            } else if m.state == ParseState::InChars {
                let h = m2.font;
                assert(h.glyphs == f.glyphs.push(new_glyph(r)));
                assert forall|i: int| 0 <= i < h.glyphs.len() implies glyph_draft_fits(
                    #[trigger] h.glyphs[i],
                ) by {
                    if i < f.glyphs.len() {
                        assert(h.glyphs[i] == f.glyphs[i]);
                    }
                }
            } else if m.state == ParseState::InChar {
                let g = last_glyph(f);
                assert(glyph_draft_fits(g));
                if let Ok(g2) = glyph_record(g, id, r) {
                    assert(g2.name == g.name && g2.rows == g.rows);
                    lemma_with_last_fits(f, g2);
                }
            }
        }
    }
}

#[verifier::spinoff_prover]
proof fn lemma_step_fits(m: ParseModel, t: Seq<char>, ln: nat, last: nat)
    requires
        draft_fits(m.font),
        parse_wf(m),
        text_ok(t),
    ensures
        step(m, t, ln, last) matches Ok(m2) ==> draft_fits(m2.font) && parse_wf(m2)
            && draft_count(m2.font) <= draft_count(m.font) + 1,
{
    reveal(step);
    lemma_split_fits(t);
    let (id, rest) = split_record(t);
    if let Ok(m2) = step(m, t, ln, last) {
        if m.state == ParseState::InBitmap && m.rows_left > 0 {
            let bits = crate::bitmap::row_of(id)->0;
            lemma_row_of_ok(id, bits);
            let g = last_glyph(m.font);
            assert(glyph_draft_fits(g));
            let g2 = GlyphDraft { rows: g.rows.push(bits), ..g };
            assert forall|i: int| 0 <= i < g2.rows.len() implies row_ok(#[trigger] g2.rows[i]) by {
                if i < g.rows.len() {
                    assert(g2.rows[i] == g.rows[i]);
                }
            }
            lemma_with_last_fits(m.font, g2);
        } else {
            let m1 = if m.state == ParseState::InBitmap {
                ParseModel { state: ParseState::InChar, ..m }
            } else {
                m
            };
            if id != ids::ENDFONT@ {
                lemma_record_step_fits(m1, id, rest);
            }
        }
    }
}

/// Reading lines keeps the draft fit for writing, and each line adds at
/// most one XLFD field, property or glyph.
proof fn lemma_run_fits(ls: Seq<Seq<char>>, last: nat)
    requires
        forall|i: int| 0 <= i < ls.len() ==> no_newline(#[trigger] ls[i]),
    ensures
        run(ls, last) matches Ok((m, ln)) ==> draft_fits(m.font) && parse_wf(m) && draft_count(
            m.font,
        ) <= ln && ln <= ls.len(),
    decreases ls.len(),
{
    if ls.len() > 0 {
        let p = ls.drop_last();
        assert forall|i: int| 0 <= i < p.len() implies no_newline(#[trigger] p[i]) by {
            assert(p[i] == ls[i]);
        }
        lemma_run_fits(p, last);
        assert(run(ls, last) == match run(p, last) {
            Err(e) => Err(e),
            Ok(st) => line_step(st, ls.last(), last),
        });
        if let Ok((m0, ln0)) = run(p, last) {
            let l = ls.last();
            assert(no_newline(l));
            if !all_ws(l) {
                lemma_trim_text(l);
                lemma_step_fits(m0, trim(l), ln0 + 1, last);
            }
        }
    } else {
        assert(draft_fits(crate::parser::new_font()));
    }
}

/// A font that comes out of a fitting draft fits one-line records.
#[verifier::spinoff_prover]
#[verifier::rlimit(100)]
proof fn lemma_finish_fits(d: FontDraft)
    requires
        draft_fits(d),
        draft_count(d) <= usize::MAX,
    ensures
        finish(d) matches Ok(f) ==> font_fits(f),
{
    if let Ok(f) = finish(d) {
        assert forall|i: int| 0 <= i < f.glyphs.len() implies glyph_ok(#[trigger] f.glyphs[i]) by {
            let g = d.glyphs[i];
            crate::parser::lemma_first_draft_error_none(d.glyphs, i);
            assert(glyph_draft_fits(g));
            assert(f.glyphs[i] == crate::parser::finish_glyph(g));
        }
        assert(props_ok(f));
    }
}

/// Round trip: a font parsed from a text, written as text and parsed again,
/// is the same font.
pub proof fn lemma_parsed_round_trip(s: Seq<char>)
    requires
        s.len() < usize::MAX,
    ensures
        parse_spec(s) matches Ok(f) ==> parse_spec(font_chars(f)) == Ok::<
            FontModel,
            (nat, crate::error::ErrorModel),
        >(f),
{
    let ls = split_lines(s);
    let last = count_nonblank(ls);
    lemma_split_lines_facts(s);
    lemma_run_fits(ls, last);
    if let Ok((m, ln)) = run(ls, last) {
        lemma_finish_fits(m.font);
        crate::laws::lemma_parsed_font_valid(s);
        if let Ok(f) = parse_spec(s) {
            lemma_font_round_trip(f);
        }
    }
}

} // verus!
