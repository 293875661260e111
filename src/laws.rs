//! Properties of the library, stated over its spec functions and proved.
use vstd::prelude::*;

use crate::bitmap::{
    bit_of, bits_to_bytes, byte_at, bytes_to_bits, hex_byte, hex_chars,
    hex_digit_char, hex_val, all_hex, row_chars, row_of,
};
use crate::error::ErrorModel;
use crate::model::{bitmap_wf, alt_widths_ok, first_glyph_error, font_error, glyph_error, FontModel, GlyphModel};
use crate::parser::{
    finish, finish_glyph, first_draft_error, font_draft_error, glyph_draft_error, parse_spec,
    FontDraft, GlyphDraft,
};
use crate::text::{
    all_digits, dec_chars, digit_char, digit_val, digits_value, i32_of, int_chars, int_of, is_ws,
    u32_of, words,
};
use crate::values::{
    bbox_chars, bbox_of, metrics_code, metrics_of, size_chars, size_of, xy_chars, xy_of,
    BoundingBox, FontSize, MetricsSet, XYPair,
};

verus! {

proof fn lemma_first_glyph_error(gs: Seq<GlyphModel>)
    ensures
        first_glyph_error(gs) is None <==> forall|i: int|
            0 <= i < gs.len() ==> #[trigger] glyph_error(gs[i]) is None,
        first_glyph_error(gs) matches Some(e) ==> e is GlyphValidation,
    decreases gs.len(),
{
    if gs.len() > 0 {
        lemma_first_glyph_error(gs.drop_first());
        if first_glyph_error(gs) is None {
            assert forall|i: int| 0 <= i < gs.len() implies #[trigger] glyph_error(gs[i]) is None by {
                if i > 0 {
                    assert(gs.drop_first()[i - 1] == gs[i]);
                }
            }
        } else {
            if glyph_error(gs[0]) is None {
                let j = choose|j: int|
                    0 <= j < gs.drop_first().len() && !(#[trigger] glyph_error(
                        gs.drop_first()[j],
                    ) is None);
                assert(gs.drop_first()[j] == gs[j + 1]);
            }
        }
    }
}

/// Alternate widths: a font passes validation exactly when, for the font
/// and for each of its glyphs, the metrics set is `Normal` with both
/// alternate widths absent, or another set with both present; and a font
/// that fails is refused with a font or a glyph validation error.
pub proof fn lemma_alt_width_invariant(f: FontModel)
    ensures
        font_error(f) is None <==> (alt_widths_ok(
            f.metrics,
            f.scalable_width_alt,
            f.device_width_alt,
        ) && forall|i: int|
            0 <= i < f.glyphs.len() ==> alt_widths_ok(
                (#[trigger] f.glyphs[i]).metrics,
                f.glyphs[i].scalable_width_alt,
                f.glyphs[i].device_width_alt,
            )),
        font_error(f) matches Some(e) ==> (e is FontValidation || e is GlyphValidation),
{
    lemma_first_glyph_error(f.glyphs);
    if first_glyph_error(f.glyphs) is None {
        assert forall|i: int| 0 <= i < f.glyphs.len() implies alt_widths_ok(
            (#[trigger] f.glyphs[i]).metrics,
            f.glyphs[i].scalable_width_alt,
            f.glyphs[i].device_width_alt,
        ) by {
            assert(glyph_error(f.glyphs[i]) is None);
        }
    } else {
        let j = choose|j: int| 0 <= j < f.glyphs.len() && !(#[trigger] glyph_error(f.glyphs[j]) is None);
        assert(!alt_widths_ok(
            f.glyphs[j].metrics,
            f.glyphs[j].scalable_width_alt,
            f.glyphs[j].device_width_alt,
        ));
    }
}

proof fn lemma_finished_glyphs_valid(gs: Seq<GlyphDraft>)
    requires
        first_draft_error(gs) is None,
    ensures
        first_glyph_error(gs.map_values(|g: GlyphDraft| finish_glyph(g))) is None,
        forall|i: int| 0 <= i < gs.len() ==> bitmap_wf(finish_glyph(#[trigger] gs[i]).bitmap),
    decreases gs.len(),
{
    let ms = gs.map_values(|g: GlyphDraft| finish_glyph(g));
    if gs.len() > 0 {
        lemma_finished_glyphs_valid(gs.drop_first());
        let rest = gs.drop_first().map_values(|g: GlyphDraft| finish_glyph(g));
        assert(ms.drop_first() =~= rest);
        assert(ms[0] == finish_glyph(gs[0]));
        assert(glyph_draft_error(gs[0]) is None);
        assert forall|i: int| 0 <= i < gs.len() implies bitmap_wf(
            finish_glyph(#[trigger] gs[i]).bitmap,
        ) by {
            if i > 0 {
                assert(gs[i] == gs.drop_first()[i - 1]);
            }
        }
    }
}

/// A draft that converts into a font converts into one that passes
/// validation, and whose bitmaps hold one row per unit of height.
pub proof fn lemma_finished_font_valid(d: FontDraft)
    ensures
        finish(d) matches Ok(f) ==> font_error(f) is None && forall|i: int|
            0 <= i < f.glyphs.len() ==> bitmap_wf(#[trigger] f.glyphs[i].bitmap),
{
    if font_draft_error(d) is None {
        lemma_finished_glyphs_valid(d.glyphs);
        let ms = d.glyphs.map_values(|g: GlyphDraft| finish_glyph(g));
        assert forall|i: int| 0 <= i < ms.len() implies bitmap_wf(#[trigger] ms[i].bitmap) by {
            assert(ms[i] == finish_glyph(d.glyphs[i]));
        }
    }
}

/// Every font that parsing yields passes validation, so it can be written,
/// and its bitmaps hold one row per unit of height.
pub proof fn lemma_parsed_font_valid(s: Seq<char>)
    ensures
        parse_spec(s) matches Ok(f) ==> font_error(f) is None && forall|i: int|
            0 <= i < f.glyphs.len() ==> bitmap_wf(#[trigger] f.glyphs[i].bitmap),
{
    let ls = crate::parser::split_lines(s);
    let last = crate::parser::count_nonblank(ls);
    if let Ok((m, _)) = crate::parser::run(ls, last) {
        lemma_finished_font_valid(m.font);
    }
}

/// Token counts: a pair takes exactly two words, a bounding box four and a
/// size three; any other count is refused.
pub proof fn lemma_token_counts(s: Seq<char>)
    ensures
        words(s).len() != 2 ==> xy_of(s) is None,
        words(s).len() != 4 ==> bbox_of(s) is None,
        words(s).len() != 3 ==> size_of(s) is None,
{
}

proof fn lemma_digit_char(d: nat)
    requires
        d < 10,
    ensures
        digit_val(digit_char(d)) == d,
        '0' <= digit_char(d) && digit_char(d) <= '9',
        !is_ws(digit_char(d)),
{
}

pub(crate) proof fn lemma_dec_chars(n: nat)
    ensures
        dec_chars(n).len() > 0,
        all_digits(dec_chars(n)),
        digits_value(dec_chars(n)) == n,
        forall|i: int| 0 <= i < dec_chars(n).len() ==> !is_ws(#[trigger] dec_chars(n)[i]),
    decreases n,
{
    if n < 10 {
        lemma_digit_char(n);
        let s = dec_chars(n);
        assert(s.drop_last() =~= Seq::<char>::empty());
        assert(s.last() == digit_char(n));
        assert(digits_value(s) == digits_value(s.drop_last()) * 10 + digit_val(s.last()));
        assert(digits_value(Seq::<char>::empty()) == 0);
    } else {
        lemma_dec_chars(n / 10);
        lemma_digit_char(n % 10);
        let s = dec_chars(n);
        assert(s.drop_last() == dec_chars(n / 10));
        assert(s.last() == digit_char(n % 10));
        assert(forall|i: int| 0 <= i < s.len() - 1 ==> s[i] == dec_chars(n / 10)[i]);
        assert(digits_value(s) == digits_value(dec_chars(n / 10)) * 10 + digit_val(s.last()));
        assert((n / 10) * 10 + n % 10 == n);
    }
}

proof fn lemma_int_of_dec(n: nat, signed: bool)
    ensures
        int_of(dec_chars(n), signed) == Some(n as int),
{
    lemma_dec_chars(n);
    let s = dec_chars(n);
    assert(s[0] != '+' && s[0] != '-') by {
        assert('0' <= s[0] && s[0] <= '9');
    }
}

pub(crate) proof fn lemma_int_chars(v: int)
    ensures
        int_of(int_chars(v), true) == Some(v),
        int_chars(v).len() > 0,
        forall|i: int| 0 <= i < int_chars(v).len() ==> !is_ws(#[trigger] int_chars(v)[i]),
{
    lemma_dec_chars((if v < 0 {
        -v
    } else {
        v
    }) as nat);
    if v < 0 {
        let d = dec_chars((-v) as nat);
        let s = int_chars(v);
        assert(s.drop_first() == d);
        assert(s[0] == '-');
        assert forall|i: int| 0 <= i < s.len() implies !is_ws(#[trigger] s[i]) by {
            if i > 0 {
                assert(s[i] == d[i - 1]);
            }
        }
    } else {
        lemma_int_of_dec(v as nat, true);
    }
}

/// A run of non-whitespace characters is one word.
proof fn lemma_words_single(x: Seq<char>)
    requires
        x.len() > 0,
        forall|i: int| 0 <= i < x.len() ==> !is_ws(#[trigger] x[i]),
    ensures
        words(x) == seq![x],
    decreases x.len(),
{
    if x.len() == 1 {
        assert(x.drop_last() =~= Seq::<char>::empty());
        assert(words(x.drop_last()) == Seq::<Seq<char>>::empty());
        assert(seq![x.last()] =~= x);
        assert(Seq::<Seq<char>>::empty().push(seq![x.last()]) =~= seq![x]);
    } else {
        lemma_words_single(x.drop_last());
        assert(x[x.len() - 2] == x.drop_last().last());
        assert(x.drop_last().push(x.last()) =~= x);
        assert(seq![x.drop_last()].update(0, x) =~= seq![x]);
    }
}

/// A space then a run of non-whitespace characters adds one word.
proof fn lemma_words_append(x: Seq<char>, b: Seq<char>)
    requires
        b.len() > 0,
        forall|i: int| 0 <= i < b.len() ==> !is_ws(#[trigger] b[i]),
    ensures
        words(x + seq![' '] + b) == words(x).push(b),
    decreases b.len(),
{
    let s = x + seq![' '] + b;
    assert(s.last() == b.last());
    if b.len() == 1 {
        assert(s.drop_last() =~= x + seq![' ']);
        assert((x + seq![' ']).drop_last() =~= x);
        assert((x + seq![' ']).last() == ' ');
        assert(words(x + seq![' ']) == words(x));
        assert(s[s.len() - 2] == ' ');
        assert(seq![b.last()] =~= b);
        assert(words(s) == words(x).push(seq![b.last()]));
    } else {
        lemma_words_append(x, b.drop_last());
        assert(s.drop_last() =~= x + seq![' '] + b.drop_last());
        assert(s[s.len() - 2] == b[b.len() - 2]);
        assert(b.drop_last().push(b.last()) =~= b);
        let w = words(x).push(b.drop_last());
        assert(w.update(w.len() - 1, w.last().push(b.last())) =~= words(x).push(b));
    }
}

pub(crate) proof fn lemma_u32_round_trip(x: u32)
    ensures
        u32_of(dec_chars(x as nat)) == Some(x),
{
    lemma_int_of_dec(x as nat, false);
}

pub(crate) proof fn lemma_i32_round_trip(v: i32)
    ensures
        i32_of(int_chars(v as int)) == Some(v),
{
    lemma_int_chars(v as int);
}

/// A pair, written and read again, is the same pair.
pub proof fn lemma_xy_round_trip(p: XYPair)
    ensures
        xy_of(xy_chars(p)) == Some(p),
{
    let a = dec_chars(p.x as nat);
    let b = dec_chars(p.y as nat);
    lemma_dec_chars(p.x as nat);
    lemma_dec_chars(p.y as nat);
    lemma_words_single(a);
    lemma_words_append(a, b);
    lemma_u32_round_trip(p.x);
    lemma_u32_round_trip(p.y);
}

/// A bounding box, written and read again, is the same box.
pub proof fn lemma_bbox_round_trip(bb: BoundingBox)
    ensures
        bbox_of(bbox_chars(bb)) == Some(bb),
{
    let a = dec_chars(bb.width as nat);
    let b = dec_chars(bb.height as nat);
    let c = int_chars(bb.x_offset as int);
    let d = int_chars(bb.y_offset as int);
    lemma_dec_chars(bb.width as nat);
    lemma_dec_chars(bb.height as nat);
    lemma_int_chars(bb.x_offset as int);
    lemma_int_chars(bb.y_offset as int);
    lemma_words_single(a);
    lemma_words_append(a, b);
    lemma_words_append(a + seq![' '] + b, c);
    lemma_words_append(a + seq![' '] + b + seq![' '] + c, d);
    lemma_u32_round_trip(bb.width);
    lemma_u32_round_trip(bb.height);
    lemma_i32_round_trip(bb.x_offset);
    lemma_i32_round_trip(bb.y_offset);
    assert(words(bbox_chars(bb)) =~= seq![a, b, c, d]);
}

/// A size, written and read again, is the same size.
pub proof fn lemma_size_round_trip(z: FontSize)
    ensures
        size_of(size_chars(z)) == Some(z),
{
    let a = dec_chars(z.point_size as nat);
    let b = dec_chars(z.x_dpi as nat);
    let c = dec_chars(z.y_dpi as nat);
    lemma_dec_chars(z.point_size as nat);
    lemma_dec_chars(z.x_dpi as nat);
    lemma_dec_chars(z.y_dpi as nat);
    lemma_words_single(a);
    lemma_words_append(a, b);
    lemma_words_append(a + seq![' '] + b, c);
    lemma_u32_round_trip(z.point_size);
    lemma_u32_round_trip(z.x_dpi);
    lemma_u32_round_trip(z.y_dpi);
    assert(words(size_chars(z)) =~= seq![a, b, c]);
}

/// A metrics set, written and read again, is the same set.
pub proof fn lemma_metrics_round_trip(m: MetricsSet)
    ensures
        metrics_of(dec_chars(metrics_code(m))) == Some(m),
{
    lemma_int_of_dec(metrics_code(m), true);
}

proof fn lemma_byte_of_bits(b: u8)
    ensures
        (if bit_of(b, 0) {
            128nat
        } else {
            0nat
        }) + (if bit_of(b, 1) {
            64nat
        } else {
            0nat
        }) + (if bit_of(b, 2) {
            32nat
        } else {
            0nat
        }) + (if bit_of(b, 3) {
            16nat
        } else {
            0nat
        }) + (if bit_of(b, 4) {
            8nat
        } else {
            0nat
        }) + (if bit_of(b, 5) {
            4nat
        } else {
            0nat
        }) + (if bit_of(b, 6) {
            2nat
        } else {
            0nat
        }) + (if bit_of(b, 7) {
            1nat
        } else {
            0nat
        }) == b as nat,
{
    assert((if (b >> 7u8) & 1u8 == 1u8 {
        128u8
    } else {
        0u8
    }) + (if (b >> 6u8) & 1u8 == 1u8 {
        64u8
    } else {
        0u8
    }) + (if (b >> 5u8) & 1u8 == 1u8 {
        32u8
    } else {
        0u8
    }) + (if (b >> 4u8) & 1u8 == 1u8 {
        16u8
    } else {
        0u8
    }) + (if (b >> 3u8) & 1u8 == 1u8 {
        8u8
    } else {
        0u8
    }) + (if (b >> 2u8) & 1u8 == 1u8 {
        4u8
    } else {
        0u8
    }) + (if (b >> 1u8) & 1u8 == 1u8 {
        2u8
    } else {
        0u8
    }) + (if (b >> 0u8) & 1u8 == 1u8 {
        1u8
    } else {
        0u8
    }) == b) by (bit_vector);
}

/// Packing the bits of whole bytes gives the bytes back.
proof fn lemma_bits_to_bytes(bs: Seq<u8>)
    ensures
        bits_to_bytes(bytes_to_bits(bs)) == bs,
{
    let bits = bytes_to_bits(bs);
    assert((bs.len() * 8 + 7) / 8 == bs.len());
    assert forall|i: int| 0 <= i < bs.len() implies #[trigger] byte_at(bits, i) == bs[i] by {
        let b = bs[i];
        assert forall|j: int| 0 <= j < 8 implies #[trigger] bits[8 * i + j] == bit_of(b, j) by {
            assert((8 * i + j) / 8 == i);
            assert((8 * i + j) % 8 == j);
        }
        assert(bits[8 * i + 0] == bit_of(b, 0));
        assert(bits[8 * i + 1] == bit_of(b, 1));
        assert(bits[8 * i + 2] == bit_of(b, 2));
        assert(bits[8 * i + 3] == bit_of(b, 3));
        assert(bits[8 * i + 4] == bit_of(b, 4));
        assert(bits[8 * i + 5] == bit_of(b, 5));
        assert(bits[8 * i + 6] == bit_of(b, 6));
        assert(bits[8 * i + 7] == bit_of(b, 7));
        lemma_byte_of_bits(b);
    }
    assert(bits_to_bytes(bits) =~= bs);
}

pub(crate) proof fn lemma_hex_chars(bs: Seq<u8>)
    ensures
        hex_chars(bs).len() == 2 * bs.len(),
        forall|i: int|
            0 <= i < bs.len() ==> hex_chars(bs)[2 * i] == hex_digit_char((#[trigger] bs[i] / 16) as nat)
                && hex_chars(bs)[2 * i + 1] == hex_digit_char((bs[i] % 16) as nat),
    decreases bs.len(),
{
    if bs.len() > 0 {
        let p = bs.drop_last();
        lemma_hex_chars(p);
        assert forall|i: int| 0 <= i < bs.len() implies hex_chars(bs)[2 * i] == hex_digit_char(
            (#[trigger] bs[i] / 16) as nat,
        ) && hex_chars(bs)[2 * i + 1] == hex_digit_char((bs[i] % 16) as nat) by {
            if i < bs.len() - 1 {
                assert(bs[i] == p[i]);
            }
        }
    }
}

proof fn lemma_hex_digit(d: nat)
    requires
        d < 16,
    ensures
        hex_val(hex_digit_char(d)) == Some(d),
{
}

/// A row of whole bytes is written as their hexadecimal digits, and that
/// text reads back to the same bits.
pub proof fn lemma_row_round_trip(bs: Seq<u8>)
    requires
        bs.len() * 8 <= usize::MAX,
    ensures
        row_chars(bytes_to_bits(bs)) == hex_chars(bs),
        row_of(hex_chars(bs)) == Some(bytes_to_bits(bs)),
{
    lemma_bits_to_bytes(bs);
    lemma_hex_chars(bs);
    let s = hex_chars(bs);
    assert forall|k: int| 0 <= k < s.len() implies (#[trigger] hex_val(s[k])) is Some by {
        let i = k / 2;
        assert(k == 2 * i || k == 2 * i + 1);
        assert(0 <= i < bs.len());
        lemma_hex_digit((bs[i] / 16) as nat);
        lemma_hex_digit((bs[i] % 16) as nat);
    }
    assert(all_hex(s));
    assert forall|i: int| 0 <= i < bs.len() implies #[trigger] hex_byte(s, i) == bs[i] by {
        lemma_hex_digit((bs[i] / 16) as nat);
        lemma_hex_digit((bs[i] % 16) as nat);
    }
    assert(Seq::new(s.len() / 2, |i: int| hex_byte(s, i)) =~= bs);
}

proof fn lemma_bits_of_byte(b0: bool, b1: bool, b2: bool, b3: bool, b4: bool, b5: bool, b6: bool, b7: bool)
    ensures
        ({
            let v = ((if b0 {
                128nat
            } else {
                0nat
            }) + (if b1 {
                64nat
            } else {
                0nat
            }) + (if b2 {
                32nat
            } else {
                0nat
            }) + (if b3 {
                16nat
            } else {
                0nat
            }) + (if b4 {
                8nat
            } else {
                0nat
            }) + (if b5 {
                4nat
            } else {
                0nat
            }) + (if b6 {
                2nat
            } else {
                0nat
            }) + (if b7 {
                1nat
            } else {
                0nat
            })) as u8;
            bit_of(v, 0) == b0 && bit_of(v, 1) == b1 && bit_of(v, 2) == b2 && bit_of(v, 3) == b3
                && bit_of(v, 4) == b4 && bit_of(v, 5) == b5 && bit_of(v, 6) == b6 && bit_of(v, 7)
                == b7
        }),
{
    let v: u8 = ((if b0 {
        128u8
    } else {
        0u8
    }) | (if b1 {
        64u8
    } else {
        0u8
    }) | (if b2 {
        32u8
    } else {
        0u8
    }) | (if b3 {
        16u8
    } else {
        0u8
    }) | (if b4 {
        8u8
    } else {
        0u8
    }) | (if b5 {
        4u8
    } else {
        0u8
    }) | (if b6 {
        2u8
    } else {
        0u8
    }) | (if b7 {
        1u8
    } else {
        0u8
    }));
    assert((v >> 7u8) & 1u8 == 1u8 <==> b0) by (bit_vector)
        requires
            v == ((if b0 { 128u8 } else { 0u8 }) | (if b1 { 64u8 } else { 0u8 }) | (if b2 { 32u8 } else { 0u8 }) | (if b3 { 16u8 } else { 0u8 }) | (if b4 { 8u8 } else { 0u8 }) | (if b5 { 4u8 } else { 0u8 }) | (if b6 { 2u8 } else { 0u8 }) | (if b7 { 1u8 } else { 0u8 })),
    ;
    assert((v >> 6u8) & 1u8 == 1u8 <==> b1) by (bit_vector)
        requires
            v == ((if b0 { 128u8 } else { 0u8 }) | (if b1 { 64u8 } else { 0u8 }) | (if b2 { 32u8 } else { 0u8 }) | (if b3 { 16u8 } else { 0u8 }) | (if b4 { 8u8 } else { 0u8 }) | (if b5 { 4u8 } else { 0u8 }) | (if b6 { 2u8 } else { 0u8 }) | (if b7 { 1u8 } else { 0u8 })),
    ;
    assert((v >> 5u8) & 1u8 == 1u8 <==> b2) by (bit_vector)
        requires
            v == ((if b0 { 128u8 } else { 0u8 }) | (if b1 { 64u8 } else { 0u8 }) | (if b2 { 32u8 } else { 0u8 }) | (if b3 { 16u8 } else { 0u8 }) | (if b4 { 8u8 } else { 0u8 }) | (if b5 { 4u8 } else { 0u8 }) | (if b6 { 2u8 } else { 0u8 }) | (if b7 { 1u8 } else { 0u8 })),
    ;
    assert((v >> 4u8) & 1u8 == 1u8 <==> b3) by (bit_vector)
        requires
            v == ((if b0 { 128u8 } else { 0u8 }) | (if b1 { 64u8 } else { 0u8 }) | (if b2 { 32u8 } else { 0u8 }) | (if b3 { 16u8 } else { 0u8 }) | (if b4 { 8u8 } else { 0u8 }) | (if b5 { 4u8 } else { 0u8 }) | (if b6 { 2u8 } else { 0u8 }) | (if b7 { 1u8 } else { 0u8 })),
    ;
    assert((v >> 3u8) & 1u8 == 1u8 <==> b4) by (bit_vector)
        requires
            v == ((if b0 { 128u8 } else { 0u8 }) | (if b1 { 64u8 } else { 0u8 }) | (if b2 { 32u8 } else { 0u8 }) | (if b3 { 16u8 } else { 0u8 }) | (if b4 { 8u8 } else { 0u8 }) | (if b5 { 4u8 } else { 0u8 }) | (if b6 { 2u8 } else { 0u8 }) | (if b7 { 1u8 } else { 0u8 })),
    ;
    assert((v >> 2u8) & 1u8 == 1u8 <==> b5) by (bit_vector)
        requires
            v == ((if b0 { 128u8 } else { 0u8 }) | (if b1 { 64u8 } else { 0u8 }) | (if b2 { 32u8 } else { 0u8 }) | (if b3 { 16u8 } else { 0u8 }) | (if b4 { 8u8 } else { 0u8 }) | (if b5 { 4u8 } else { 0u8 }) | (if b6 { 2u8 } else { 0u8 }) | (if b7 { 1u8 } else { 0u8 })),
    ;
    assert((v >> 1u8) & 1u8 == 1u8 <==> b6) by (bit_vector)
        requires
            v == ((if b0 { 128u8 } else { 0u8 }) | (if b1 { 64u8 } else { 0u8 }) | (if b2 { 32u8 } else { 0u8 }) | (if b3 { 16u8 } else { 0u8 }) | (if b4 { 8u8 } else { 0u8 }) | (if b5 { 4u8 } else { 0u8 }) | (if b6 { 2u8 } else { 0u8 }) | (if b7 { 1u8 } else { 0u8 })),
    ;
    assert((v >> 0u8) & 1u8 == 1u8 <==> b7) by (bit_vector)
        requires
            v == ((if b0 { 128u8 } else { 0u8 }) | (if b1 { 64u8 } else { 0u8 }) | (if b2 { 32u8 } else { 0u8 }) | (if b3 { 16u8 } else { 0u8 }) | (if b4 { 8u8 } else { 0u8 }) | (if b5 { 4u8 } else { 0u8 }) | (if b6 { 2u8 } else { 0u8 }) | (if b7 { 1u8 } else { 0u8 })),
    ;
    assert(v as nat == (if b0 { 128nat } else { 0nat }) + (if b1 { 64nat } else { 0nat }) + (if b2 { 32nat } else { 0nat }) + (if b3 { 16nat } else { 0nat }) + (if b4 { 8nat } else { 0nat }) + (if b5 { 4nat } else { 0nat }) + (if b6 { 2nat } else { 0nat }) + (if b7 { 1nat } else { 0nat })) by {
        assert((if b0 { 128u8 } else { 0u8 }) + (if b1 { 64u8 } else { 0u8 }) + (if b2 { 32u8 } else { 0u8 }) + (if b3 { 16u8 } else { 0u8 }) + (if b4 { 8u8 } else { 0u8 }) + (if b5 { 4u8 } else { 0u8 }) + (if b6 { 2u8 } else { 0u8 }) + (if b7 { 1u8 } else { 0u8 }) == v) by (bit_vector)
            requires
                v == ((if b0 { 128u8 } else { 0u8 }) | (if b1 { 64u8 } else { 0u8 }) | (if b2 { 32u8 } else { 0u8 }) | (if b3 { 16u8 } else { 0u8 }) | (if b4 { 8u8 } else { 0u8 }) | (if b5 { 4u8 } else { 0u8 }) | (if b6 { 2u8 } else { 0u8 }) | (if b7 { 1u8 } else { 0u8 })),
        ;
    }
}

/// Bits that fill whole bytes, packed and unpacked, are the same bits.
pub proof fn lemma_bytes_to_bits(bits: Seq<bool>)
    requires
        bits.len() % 8 == 0,
    ensures
        bytes_to_bits(bits_to_bytes(bits)) == bits,
{
    let bs = bits_to_bytes(bits);
    assert(bs.len() * 8 == bits.len());
    assert forall|k: int| 0 <= k < bits.len() implies #[trigger] bytes_to_bits(bs)[k] == bits[k] by {
        let i = k / 8;
        let j = k % 8;
        assert(0 <= i < bs.len());
        assert(k == 8 * i + j);
        lemma_bits_of_byte(
            bits[8 * i],
            bits[8 * i + 1],
            bits[8 * i + 2],
            bits[8 * i + 3],
            bits[8 * i + 4],
            bits[8 * i + 5],
            bits[8 * i + 6],
            bits[8 * i + 7],
        );
        assert(bs[i] == byte_at(bits, i));
    }
    assert(bytes_to_bits(bs) =~= bits);
}

} // verus!
