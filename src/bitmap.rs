//! Glyph images: rows of bits held in `bit_vec::BitVec`, their hexadecimal
//! text, and the bitmap that stacks them.
use vstd::prelude::*;

use bit_vec::BitVec;

use crate::error::Error;
use crate::text::{chars_of, string_of};
use crate::values::ROW_SHAPE;

verus! {

#[verifier::external_type_specification]
#[verifier::external_body]
#[verifier::reject_recursive_types(B)]
pub struct ExBitVec<B>(BitVec<B>);

/// The bits that a `BitVec` holds, in order.
pub uninterp spec fn bits_of(v: BitVec) -> Seq<bool>;

/// Bit `j` of `b`, counted from the most significant.
pub open spec fn bit_of(b: u8, j: int) -> bool {
    (b >> ((7 - j) as u8)) & 1u8 == 1u8
}

/// Each byte as eight bits, most significant first.
pub open spec fn bytes_to_bits(bs: Seq<u8>) -> Seq<bool> {
    Seq::new(bs.len() * 8, |i: int| bit_of(bs[i / 8], i % 8))
}

/// `w` where bit `k` exists and is set, else 0.
pub open spec fn bit_weight(bits: Seq<bool>, k: int, w: nat) -> nat {
    if 0 <= k < bits.len() && bits[k] {
        w
    } else {
        0
    }
}

/// The byte made of `bits[8 * i .. 8 * i + 8]`, most significant first, with
/// the bits past the end taken as 0.
pub open spec fn byte_at(bits: Seq<bool>, i: int) -> u8 {
    let k = 8 * i;
    (bit_weight(bits, k, 128) + bit_weight(bits, k + 1, 64) + bit_weight(bits, k + 2, 32)
        + bit_weight(bits, k + 3, 16) + bit_weight(bits, k + 4, 8) + bit_weight(bits, k + 5, 4)
        + bit_weight(bits, k + 6, 2) + bit_weight(bits, k + 7, 1)) as u8
}

/// The bits packed into bytes, the last byte padded with zeros.
pub open spec fn bits_to_bytes(bits: Seq<bool>) -> Seq<u8> {
    Seq::new((bits.len() + 7) / 8, |i: int| byte_at(bits, i))
}

/// Relies on `BitVec::from_bytes`: eight bits per byte, most significant first.
#[verifier::external_body]
fn bitvec_from_bytes(bytes: &[u8]) -> (r: BitVec)
    requires
        bytes@.len() * 8 <= usize::MAX,
    ensures
        bits_of(r) == bytes_to_bits(bytes@),
{
    BitVec::from_bytes(bytes)
}

/// Relies on `BitVec::from_elem`: `n` copies of `bit`.
#[verifier::external_body]
fn bitvec_from_elem(n: usize, bit: bool) -> (r: BitVec)
    ensures
        bits_of(r) == Seq::new(n as nat, |i: int| bit),
{
    BitVec::from_elem(n, bit)
}

/// Relies on `BitVec::len`: the number of bits.
#[verifier::external_body]
fn bitvec_len(v: &BitVec) -> (r: usize)
    ensures
        r == bits_of(*v).len(),
{
    v.len()
}

/// Relies on `BitVec::get`: the bit at `i`, or `None` past the end.
#[verifier::external_body]
fn bitvec_get(v: &BitVec, i: usize) -> (r: Option<bool>)
    ensures
        r == if i < bits_of(*v).len() {
            Some(bits_of(*v)[i as int])
        } else {
            None
        },
{
    v.get(i)
}

/// Relies on `BitVec::set`, which panics past the end: changes the bit at `i`.
#[verifier::external_body]
fn bitvec_set(v: &mut BitVec, i: usize, x: bool)
    requires
        i < bits_of(*old(v)).len(),
    ensures
        bits_of(*final(v)) == bits_of(*old(v)).update(i as int, x),
{
    v.set(i, x)
}

/// Relies on `BitVec::to_bytes`: the bits packed most significant first, the
/// last byte padded with zeros.
#[verifier::external_body]
fn bitvec_to_bytes(v: &BitVec) -> (r: Vec<u8>)
    ensures
        r@ == bits_to_bytes(bits_of(*v)),
{
    v.to_bytes()
}

/// The value of a hexadecimal digit, either case.
pub open spec fn hex_val(c: char) -> Option<nat> {
    if '0' <= c && c <= '9' {
        Some((c as u32 - '0' as u32) as nat)
    } else if 'a' <= c && c <= 'f' {
        Some((c as u32 - 'a' as u32 + 10) as nat)
    } else if 'A' <= c && c <= 'F' {
        Some((c as u32 - 'A' as u32 + 10) as nat)
    } else {
        None
    }
}

/// Whether every character is a hexadecimal digit.
pub open spec fn all_hex(s: Seq<char>) -> bool {
    forall|i: int| 0 <= i < s.len() ==> (#[trigger] hex_val(s[i])) is Some
}

/// Byte `i` of a hexadecimal text: the two digits `s[2i]`, `s[2i + 1]`.
pub open spec fn hex_byte(s: Seq<char>, i: int) -> u8 {
    (hex_val(s[2 * i])->0 * 16 + hex_val(s[2 * i + 1])->0) as u8
}

/// The bytes of a hexadecimal text: an even number of hexadecimal digits,
/// two to a byte. Texts too long for their bits to be counted in a `usize`
/// are refused too.
pub open spec fn hex_bytes_of(s: Seq<char>) -> Option<Seq<u8>> {
    if s.len() % 2 == 0 && all_hex(s) && s.len() / 2 * 8 <= usize::MAX {
        Some(Seq::new(s.len() / 2, |i: int| hex_byte(s, i)))
    } else {
        None
    }
}

/// The bits of a row text.
pub open spec fn row_of(s: Seq<char>) -> Option<Seq<bool>> {
    match hex_bytes_of(s) {
        Some(bs) => Some(bytes_to_bits(bs)),
        None => None,
    }
}

/// The upper-case hexadecimal digit of `d < 16`.
pub open spec fn hex_digit_char(d: nat) -> char {
    if d < 10 {
        (('0' as u32) + d) as char
    } else {
        (('A' as u32) + d - 10) as char
    }
}

/// Each byte as two upper-case hexadecimal digits.
pub open spec fn hex_chars(bs: Seq<u8>) -> Seq<char>
    decreases bs.len(),
{
    if bs.len() == 0 {
        Seq::empty()
    } else {
        hex_chars(bs.drop_last()) + seq![
            hex_digit_char((bs.last() / 16) as nat),
            hex_digit_char((bs.last() % 16) as nat),
        ]
    }
}

/// The canonical text of a row of bits.
pub open spec fn row_chars(bits: Seq<bool>) -> Seq<char> {
    hex_chars(bits_to_bytes(bits))
}

fn hex_value(c: char) -> (r: Option<u8>)
    ensures
        match hex_val(c) {
            Some(v) => r == Some(v as u8),
            None => r is None,
        },
        r matches Some(v) ==> v < 16,
{
    if '0' <= c && c <= '9' {
        Some((c as u32 - '0' as u32) as u8)
    } else if 'a' <= c && c <= 'f' {
        Some((c as u32 - 'a' as u32 + 10) as u8)
    } else if 'A' <= c && c <= 'F' {
        Some((c as u32 - 'A' as u32 + 10) as u8)
    } else {
        None
    }
}

fn hex_digit(d: u8) -> (c: char)
    requires
        d < 16,
    ensures
        c == hex_digit_char(d as nat),
{
    let ds: [char; 16] = [
        '0', '1', '2', '3', '4', '5', '6', '7', '8', '9', 'A', 'B', 'C', 'D', 'E', 'F',
    ];
    assert(ds@ == seq![
        '0', '1', '2', '3', '4', '5', '6', '7', '8', '9', 'A', 'B', 'C', 'D', 'E', 'F',
    ]);
    ds[d as usize]
}

/// One row of a glyph's image, padded to whole bytes.
#[derive(Debug)]
pub struct BitmapRow {
    bits: BitVec,
}

impl View for BitmapRow {
    type V = Seq<bool>;

    closed spec fn view(&self) -> Seq<bool> {
        bits_of(self.bits)
    }
}

impl BitmapRow {
    /// A row of `n` unset bits.
    pub fn unset(n: usize) -> (r: BitmapRow)
        ensures
            r@ == Seq::new(n as nat, |i: int| false),
    {
        BitmapRow { bits: bitvec_from_elem(n, false) }
    }

    pub fn desired() -> (r: &'static str)
        ensures
            r == ROW_SHAPE,
    {
        ROW_SHAPE
    }

    /// Reads a row from its hexadecimal text.
    pub fn parse_chars(s: &[char]) -> (r: Option<BitmapRow>)
        ensures
            match row_of(s@) {
                Some(bits) => r matches Some(row) && row@ == bits,
                None => r is None,
            },
    {
        if s.len() % 2 != 0 || s.len() / 2 > usize::MAX / 8 {
            return None;
        }
        let n = s.len() / 2;
        let mut buf: Vec<u8> = Vec::new();
        let mut i: usize = 0;
        while i < n
            invariant
                n == s.len() / 2,
                s.len() % 2 == 0,
                i <= n,
                buf@.len() == i,
                forall|j: int| 0 <= j < 2 * i ==> (#[trigger] hex_val(s@[j])) is Some,
                forall|j: int| 0 <= j < i ==> buf@[j] == hex_byte(s@, j),
            decreases n - i,
        {
            let hi = hex_value(s[2 * i]);
            let lo = hex_value(s[2 * i + 1]);
            match (hi, lo) {
                (Some(h), Some(l)) => {
                    buf.push(h * 16 + l);
                },
                _ => {
                    assert(!all_hex(s@));
                    return None;
                },
            }
            i += 1;
        }
        assert(all_hex(s@)) by {
            assert forall|j: int| 0 <= j < s@.len() implies (#[trigger] hex_val(s@[j])) is Some by {
                assert(j < 2 * n);
            }
        }
        assert(buf@ =~= Seq::new(s@.len() / 2, |j: int| hex_byte(s@, j)));
        Some(BitmapRow { bits: bitvec_from_bytes(buf.as_slice()) })
    }

    /// Reads a row from its hexadecimal text.
    pub fn from_hex(s: &str) -> (r: Result<BitmapRow, Error>)
        ensures
            match row_of(s@) {
                Some(bits) => r matches Ok(row) && row@ == bits,
                None => r matches Err(e) && e@ == Error::ParseError(ROW_SHAPE)@,
            },
    {
        let cs = chars_of(s);
        match BitmapRow::parse_chars(cs.as_slice()) {
            Some(row) => Ok(row),
            None => Err(Error::ParseError(ROW_SHAPE)),
        }
    }

    /// The number of bits, padding included.
    pub fn len(&self) -> (r: usize)
        ensures
            r == self@.len(),
    {
        bitvec_len(&self.bits)
    }

    /// The bit at `i`, or `None` past the end.
    pub fn get(&self, i: usize) -> (r: Option<bool>)
        ensures
            r == if i < self@.len() {
                Some(self@[i as int])
            } else {
                None
            },
    {
        bitvec_get(&self.bits, i)
    }

    /// Sets the bit at `i`; past the end nothing changes.
    pub fn set(&mut self, i: usize, x: bool)
        ensures
            final(self)@ == if i < old(self)@.len() {
                old(self)@.update(i as int, x)
            } else {
                old(self)@
            },
    {
        if i < bitvec_len(&self.bits) {
            bitvec_set(&mut self.bits, i, x);
        }
    }

    /// The bits packed into bytes, most significant first.
    pub fn to_bytes(&self) -> (r: Vec<u8>)
        ensures
            r@ == bits_to_bytes(self@),
    {
        bitvec_to_bytes(&self.bits)
    }

    /// Appends the canonical hexadecimal text of the row.
    pub fn push_bdf(&self, out: &mut Vec<char>)
        ensures
            final(out)@ == old(out)@ + row_chars(self@),
    {
        let bytes = self.to_bytes();
        let mut i: usize = 0;
        while i < bytes.len()
            invariant
                i <= bytes@.len(),
                out@ == old(out)@ + hex_chars(bytes@.subrange(0, i as int)),
            decreases bytes.len() - i,
        {
            let b = bytes[i];
            out.push(hex_digit(b / 16));
            out.push(hex_digit(b % 16));
            let ghost next = bytes@.subrange(0, i + 1);
            assert(next.drop_last() == bytes@.subrange(0, i as int));
            i += 1;
            assert(out@ =~= old(out)@ + hex_chars(bytes@.subrange(0, i as int)));
        }
        assert(bytes@.subrange(0, i as int) =~= bytes@);
    }

    /// The canonical hexadecimal text of the row.
    pub fn to_hex(&self) -> (r: String)
        ensures
            r@ == row_chars(self@),
    {
        let mut out: Vec<char> = Vec::new();
        self.push_bdf(&mut out);
        assert(out@ =~= row_chars(self@));
        string_of(out.as_slice())
    }
}

} // verus!
