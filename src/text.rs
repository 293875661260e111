//! Character-level helpers: whitespace, trimming, word splitting, decimal
//! numbers and their rendering.
use vstd::prelude::*;
use vstd::std_specs::iter::IteratorSpec;

verus! {

/// The characters with the Unicode `White_Space` property.
pub open spec fn is_ws(c: char) -> bool {
    let u = c as u32;
    (0x09 <= u && u <= 0x0d) || u == 0x20 || u == 0x85 || u == 0xa0 || u == 0x1680 || (0x2000
        <= u && u <= 0x200a) || u == 0x2028 || u == 0x2029 || u == 0x202f || u == 0x205f || u
        == 0x3000
}

/// Whether `c` is whitespace, as `char::is_whitespace` decides it.
pub fn is_whitespace(c: char) -> (r: bool)
    ensures
        r == is_ws(c),
{
    let u = c as u32;
    (0x09 <= u && u <= 0x0d) || u == 0x20 || u == 0x85 || u == 0xa0 || u == 0x1680 || (0x2000
        <= u && u <= 0x200a) || u == 0x2028 || u == 0x2029 || u == 0x202f || u == 0x205f || u
        == 0x3000
}

/// Whether every character is whitespace.
pub open spec fn all_ws(s: Seq<char>) -> bool {
    forall|i: int| 0 <= i < s.len() ==> is_ws(#[trigger] s[i])
}

/// Number of leading whitespace characters.
pub open spec fn lead_ws(s: Seq<char>) -> nat
    decreases s.len(),
{
    if s.len() > 0 && is_ws(s[0]) {
        1 + lead_ws(s.drop_first())
    } else {
        0
    }
}

/// Number of trailing whitespace characters.
pub open spec fn trail_ws(s: Seq<char>) -> nat
    decreases s.len(),
{
    if s.len() > 0 && is_ws(s.last()) {
        1 + trail_ws(s.drop_last())
    } else {
        0
    }
}

/// `s` without leading and trailing whitespace.
pub open spec fn trim(s: Seq<char>) -> Seq<char> {
    let a = lead_ws(s);
    if a == s.len() {
        Seq::empty()
    } else {
        s.subrange(a as int, s.len() - trail_ws(s))
    }
}

/// A prefix of whitespace characters is counted by `lead_ws`.
proof fn lemma_lead_ws_exact(s: Seq<char>, k: int)
    requires
        0 <= k <= s.len(),
        forall|i: int| 0 <= i < k ==> is_ws(#[trigger] s[i]),
        k < s.len() ==> !is_ws(s[k]),
    ensures
        lead_ws(s) == k,
    decreases k,
{
    if k > 0 {
        assert forall|i: int| 0 <= i < k - 1 implies is_ws(#[trigger] s.drop_first()[i]) by {
            assert(s.drop_first()[i] == s[i + 1]);
        }
        if k < s.len() {
            assert(s.drop_first()[k - 1] == s[k]);
        }
        lemma_lead_ws_exact(s.drop_first(), k - 1);
    } else if s.len() > 0 {
        assert(!is_ws(s[0]));
    }
}

/// A suffix of whitespace characters is counted by `trail_ws`.
proof fn lemma_trail_ws_exact(s: Seq<char>, k: int)
    requires
        0 <= k <= s.len(),
        forall|i: int| s.len() - k <= i < s.len() ==> is_ws(#[trigger] s[i]),
        k < s.len() ==> !is_ws(s[s.len() - k - 1]),
    ensures
        trail_ws(s) == k,
    decreases k,
{
    if k > 0 {
        let t = s.drop_last();
        assert forall|i: int| t.len() - (k - 1) <= i < t.len() implies is_ws(#[trigger] t[i]) by {
            assert(t[i] == s[i]);
        }
        if k < s.len() {
            assert(t[t.len() - (k - 1) - 1] == s[s.len() - k - 1]);
        }
        lemma_trail_ws_exact(t, k - 1);
    } else if s.len() > 0 {
        assert(!is_ws(s.last()));
    }
}

/// Whether every character of `s` is whitespace.
pub fn is_blank(s: &[char]) -> (r: bool)
    ensures
        r == all_ws(s@),
{
    let mut i: usize = 0;
    while i < s.len()
        invariant
            i <= s.len(),
            forall|j: int| 0 <= j < i ==> is_ws(#[trigger] s@[j]),
        decreases s.len() - i,
    {
        if !is_whitespace(s[i]) {
            return false;
        }
        i += 1;
    }
    true
}

/// The characters of `s[start..end]`.
pub fn copy_range(s: &[char], start: usize, end: usize) -> (r: Vec<char>)
    requires
        start <= end <= s.len(),
    ensures
        r@ == s@.subrange(start as int, end as int),
{
    let mut r: Vec<char> = Vec::new();
    let mut i: usize = start;
    while i < end
        invariant
            start <= i <= end <= s.len(),
            r@ == s@.subrange(start as int, i as int),
        decreases end - i,
    {
        r.push(s[i]);
        i += 1;
    }
    r
}

/// The bounds `[a, b)` of `trim(s)` inside `s`.
pub fn trim_bounds(s: &[char]) -> (r: (usize, usize))
    ensures
        r.0 <= r.1 <= s.len(),
        s@.subrange(r.0 as int, r.1 as int) == trim(s@),
        r.0 == r.1 ==> trim(s@).len() == 0,
{
    let n = s.len();
    let mut a: usize = 0;
    while a < n && is_whitespace(s[a])
        invariant
            a <= n == s.len(),
            forall|i: int| 0 <= i < a ==> is_ws(#[trigger] s@[i]),
        decreases n - a,
    {
        a += 1;
    }
    proof {
        lemma_lead_ws_exact(s@, a as int);
    }
    if a == n {
        return (n, n);
    }
    let mut b: usize = n;
    while b > a && is_whitespace(s[b - 1])
        invariant
            a < n,
            a <= b <= n == s.len(),
            !is_ws(s@[a as int]),
            forall|i: int| b <= i < n ==> is_ws(#[trigger] s@[i]),
        decreases b,
    {
        b -= 1;
    }
    proof {
        lemma_trail_ws_exact(s@, (n - b) as int);
    }
    (a, b)
}

/// `trim(s)` as a new vector.
pub fn trimmed(s: &[char]) -> (r: Vec<char>)
    ensures
        r@ == trim(s@),
{
    let (a, b) = trim_bounds(s);
    copy_range(s, a, b)
}

/// Index of the first whitespace character, if any.
pub open spec fn first_ws(s: Seq<char>) -> Option<int> {
    if exists|i: int| 0 <= i < s.len() && is_ws(#[trigger] s[i]) {
        Some(choose|i: int| 0 <= i < s.len() && is_ws(s[i]) && forall|j: int| 0 <= j < i ==> !is_ws(#[trigger] s[j]))
    } else {
        None
    }
}

/// The index of the first whitespace character, if any.
pub fn find_ws(s: &[char]) -> (r: Option<usize>)
    ensures
        match r {
            Some(i) => i < s.len() && is_ws(s@[i as int]) && forall|j: int|
                0 <= j < i ==> !is_ws(#[trigger] s@[j]),
            None => forall|j: int| 0 <= j < s.len() ==> !is_ws(#[trigger] s@[j]),
        },
        r matches Some(i) ==> first_ws(s@) == Some(i as int),
        r is None ==> first_ws(s@) is None,
{
    let mut i: usize = 0;
    while i < s.len()
        invariant
            i <= s.len(),
            forall|j: int| 0 <= j < i ==> !is_ws(#[trigger] s@[j]),
        decreases s.len() - i,
    {
        if is_whitespace(s[i]) {
            proof {
                let k = choose|k: int|
                    0 <= k < s.len() && is_ws(s@[k]) && forall|j: int|
                        0 <= j < k ==> !is_ws(#[trigger] s@[j]);
                assert(k == i) by {
                    if k < i {
                        assert(!is_ws(s@[k]));
                    }
                    if k > i {
                        assert(!is_ws(s@[i as int]));
                    }
                }
            }
            return Some(i);
        }
        i += 1;
    }
    None
}

/// The maximal runs of non-whitespace characters of `s`, in order.
pub open spec fn words(s: Seq<char>) -> Seq<Seq<char>>
    decreases s.len(),
{
    if s.len() == 0 {
        Seq::empty()
    } else if is_ws(s.last()) {
        words(s.drop_last())
    } else if s.len() >= 2 && !is_ws(s[s.len() - 2]) {
        let w = words(s.drop_last());
        w.update(w.len() - 1, w.last().push(s.last()))
    } else {
        words(s.drop_last()).push(seq![s.last()])
    }
}

/// The whitespace-separated words of `s`.
pub fn split_words(s: &[char]) -> (r: Vec<Vec<char>>)
    ensures
        r@.map_values(|w: Vec<char>| w@) == words(s@),
{
    let mut r: Vec<Vec<char>> = Vec::new();
    let mut cur: Vec<char> = Vec::new();
    let mut i: usize = 0;
    while i < s.len()
        invariant
            i <= s.len(),
            cur@.len() > 0 ==> i > 0 && !is_ws(s@[i - 1]),
            (i > 0 && !is_ws(s@[i - 1])) ==> cur@.len() > 0,
            cur@.len() == 0 ==> r@.map_values(|w: Vec<char>| w@) == words(
                s@.subrange(0, i as int),
            ),
            cur@.len() > 0 ==> r@.map_values(|w: Vec<char>| w@).push(cur@) == words(
                s@.subrange(0, i as int),
            ),
        decreases s.len() - i,
    {
        let c = s[i];
        let ghost pre = s@.subrange(0, i as int);
        let ghost next = s@.subrange(0, i + 1);
        assert(next.drop_last() == pre);
        assert(next.last() == c);
        if is_whitespace(c) {
            if cur.len() > 0 {
                let ghost before = r@.map_values(|w: Vec<char>| w@).push(cur@);
                let w = cur;
                cur = Vec::new();
                r.push(w);
                assert(r@.map_values(|w: Vec<char>| w@) =~= before);
            }
        } else {
            if cur.len() > 0 {
                assert(next[next.len() - 2] == s@[i - 1]);
                let ghost before = r@.map_values(|w: Vec<char>| w@).push(cur@);
                cur.push(c);
                assert(r@.map_values(|w: Vec<char>| w@).push(cur@) =~= before.update(
                    before.len() - 1,
                    before.last().push(c),
                ));
            } else {
                if i > 0 {
                    assert(next[next.len() - 2] == s@[i - 1]);
                }
                cur.push(c);
                assert(cur@ =~= seq![c]);
            }
        }
        i += 1;
    }
    if cur.len() > 0 {
        let ghost before = r@.map_values(|w: Vec<char>| w@).push(cur@);
        r.push(cur);
        assert(r@.map_values(|w: Vec<char>| w@) =~= before);
    }
    assert(s@.subrange(0, s.len() as int) =~= s@);
    r
}

/// A decimal digit.
pub open spec fn is_digit(c: char) -> bool {
    '0' <= c && c <= '9'
}

/// The value of a decimal digit.
pub open spec fn digit_val(c: char) -> nat {
    (c as u32 - '0' as u32) as nat
}

/// Whether every character is a decimal digit.
pub open spec fn all_digits(s: Seq<char>) -> bool {
    forall|i: int| 0 <= i < s.len() ==> is_digit(#[trigger] s[i])
}

/// The value of a string of decimal digits.
pub open spec fn digits_value(s: Seq<char>) -> nat
    decreases s.len(),
{
    if s.len() == 0 {
        0
    } else {
        digits_value(s.drop_last()) * 10 + digit_val(s.last())
    }
}

/// What Rust's integer `from_str` reads from `s`, before the range check of
/// the target type: an optional `+` (or `-` where `signed`), then one or
/// more decimal digits.
pub open spec fn int_of(s: Seq<char>, signed: bool) -> Option<int> {
    if s.len() > 0 && s[0] == '+' {
        if s.len() > 1 && all_digits(s.drop_first()) {
            Some(digits_value(s.drop_first()) as int)
        } else {
            None
        }
    } else if signed && s.len() > 0 && s[0] == '-' {
        if s.len() > 1 && all_digits(s.drop_first()) {
            Some(-(digits_value(s.drop_first()) as int))
        } else {
            None
        }
    } else if s.len() > 0 && all_digits(s) {
        Some(digits_value(s) as int)
    } else {
        None
    }
}

/// What `u32::from_str` reads from `s`.
pub open spec fn u32_of(s: Seq<char>) -> Option<u32> {
    match int_of(s, false) {
        Some(v) => if v <= u32::MAX {
            Some(v as u32)
        } else {
            None
        },
        None => None,
    }
}

/// What `i32::from_str` reads from `s`.
pub open spec fn i32_of(s: Seq<char>) -> Option<i32> {
    match int_of(s, true) {
        Some(v) => if i32::MIN <= v <= i32::MAX {
            Some(v as i32)
        } else {
            None
        },
        None => None,
    }
}

/// What `usize::from_str` reads from `s`.
pub open spec fn usize_of(s: Seq<char>) -> Option<usize> {
    match int_of(s, false) {
        Some(v) => if v <= usize::MAX {
            Some(v as usize)
        } else {
            None
        },
        None => None,
    }
}

proof fn lemma_digits_value_mono(s: Seq<char>, k: int)
    requires
        0 <= k <= s.len(),
    ensures
        digits_value(s.subrange(0, k)) <= digits_value(s),
    decreases s.len(),
{
    if k < s.len() {
        assert(s.drop_last().subrange(0, k) == s.subrange(0, k));
        lemma_digits_value_mono(s.drop_last(), k);
    } else {
        assert(s.subrange(0, k) == s);
    }
}

/// The value of the digits `s[start..]`, or `None` where one of them is not
/// a digit, there are none, or the value exceeds `u64::MAX`.
fn scan_digits(s: &[char], start: usize) -> (r: Option<u64>)
    requires
        start <= s.len(),
    ensures
        ({
            let d = s@.subrange(start as int, s.len() as int);
            r == if d.len() > 0 && all_digits(d) && digits_value(d) <= u64::MAX {
                Some(digits_value(d) as u64)
            } else {
                None
            }
        }),
{
    let ghost d = s@.subrange(start as int, s.len() as int);
    if start == s.len() {
        return None;
    }
    let mut acc: u64 = 0;
    let mut i: usize = start;
    while i < s.len()
        invariant
            start <= i <= s.len(),
            d == s@.subrange(start as int, s.len() as int),
            all_digits(s@.subrange(start as int, i as int)),
            acc == digits_value(s@.subrange(start as int, i as int)),
        decreases s.len() - i,
    {
        let c = s[i];
        let ghost pre = s@.subrange(start as int, i as int);
        let ghost next = s@.subrange(start as int, i + 1);
        assert(next.drop_last() == pre);
        assert(pre == d.subrange(0, i - start));
        assert(next == d.subrange(0, i + 1 - start));
        if !('0' <= c && c <= '9') {
            assert(!is_digit(d[i - start]));
            return None;
        }
        let dv = (c as u32 - '0' as u32) as u64;
        if acc > (u64::MAX - dv) / 10 {
            proof {
                lemma_digits_value_mono(d, i + 1 - start);
                assert(acc * 10 + dv > u64::MAX) by (nonlinear_arith)
                    requires
                        acc > (u64::MAX - dv) / 10,
                        dv <= 9,
                ;
            }
            return None;
        }
        assert(acc * 10 + dv <= u64::MAX) by (nonlinear_arith)
            requires
                acc <= (u64::MAX - dv) / 10,
                dv <= 9,
        ;
        acc = acc * 10 + dv;
        i += 1;
    }
    assert(s@.subrange(start as int, i as int) == d);
    Some(acc)
}

/// Where `int_of(s, signed)` starts its digits, and whether it reads a `-`.
fn sign_prefix(s: &[char], signed: bool) -> (r: (usize, bool))
    ensures
        r.0 <= s.len(),
        r.0 == 0 ==> !(s.len() > 0 && s[0] == '+') && !(signed && s.len() > 0 && s[0] == '-'),
        r.0 == 1 ==> s.len() > 0 && (s[0] == '+' || (signed && s[0] == '-')),
        r.0 <= 1,
        r.1 <==> (r.0 == 1 && s[0] == '-'),
{
    if s.len() > 0 && s[0] == '+' {
        (1, false)
    } else if signed && s.len() > 0 && s[0] == '-' {
        (1, true)
    } else {
        (0, false)
    }
}

/// Reads an unsigned decimal as `u32::from_str` does.
pub fn parse_u32(s: &[char]) -> (r: Option<u32>)
    ensures
        r == u32_of(s@),
{
    let (k, _neg) = sign_prefix(s, false);
    proof {
        if k == 1 {
            assert(s@.subrange(1, s.len() as int) == s@.drop_first());
        } else {
            assert(s@.subrange(0, s.len() as int) == s@);
        }
    }
    match scan_digits(s, k) {
        Some(v) => if v <= u32::MAX as u64 {
            Some(v as u32)
        } else {
            None
        },
        None => None,
    }
}

/// Reads an unsigned decimal as `usize::from_str` does.
pub fn parse_usize(s: &[char]) -> (r: Option<usize>)
    ensures
        r == usize_of(s@),
{
    let (k, _neg) = sign_prefix(s, false);
    proof {
        if k == 1 {
            assert(s@.subrange(1, s.len() as int) == s@.drop_first());
        } else {
            assert(s@.subrange(0, s.len() as int) == s@);
        }
    }
    match scan_digits(s, k) {
        Some(v) => if v <= usize::MAX as u64 {
            Some(v as usize)
        } else {
            None
        },
        None => None,
    }
}

/// The signed decimal read from `s`, kept where it lies in `[lo, hi]`.
fn parse_signed(s: &[char], lo: i64, hi: i64) -> (r: Option<i64>)
    requires
        lo <= 0 <= hi,
    ensures
        r == match int_of(s@, true) {
            Some(v) => if lo <= v <= hi {
                Some(v as i64)
            } else {
                None
            },
            None => None,
        },
{
    let (k, neg) = sign_prefix(s, true);
    proof {
        if k == 1 {
            assert(s@.subrange(1, s.len() as int) == s@.drop_first());
        } else {
            assert(s@.subrange(0, s.len() as int) == s@);
        }
    }
    match scan_digits(s, k) {
        Some(v) => {
            if neg {
                if v <= (-(lo as i128)) as u64 {
                    Some(-(v as i128) as i64)
                } else {
                    None
                }
            } else {
                if v <= hi as u64 {
                    Some(v as i64)
                } else {
                    None
                }
            }
        },
        None => None,
    }
}

/// Reads a signed decimal as `i32::from_str` does.
pub fn parse_i32(s: &[char]) -> (r: Option<i32>)
    ensures
        r == i32_of(s@),
{
    match parse_signed(s, i32::MIN as i64, i32::MAX as i64) {
        Some(v) => Some(v as i32),
        None => None,
    }
}

/// Whether `s` reads as the `i64` value `-1`.
pub fn is_minus_one(s: &[char]) -> (r: bool)
    ensures
        r == (int_of(s@, true) == Some(-1int)),
{
    match parse_signed(s, i64::MIN, i64::MAX) {
        Some(v) => v == -1,
        None => false,
    }
}

/// The decimal digit of `d < 10`.
pub open spec fn digit_char(d: nat) -> char {
    (('0' as u32) + d) as char
}

/// The decimal digits of `n`, without leading zeros.
pub open spec fn dec_chars(n: nat) -> Seq<char>
    decreases n,
{
    if n < 10 {
        seq![digit_char(n)]
    } else {
        dec_chars(n / 10).push(digit_char(n % 10))
    }
}

/// The decimal text of an integer, with a `-` where it is negative.
pub open spec fn int_chars(v: int) -> Seq<char> {
    if v < 0 {
        seq!['-'] + dec_chars((-v) as nat)
    } else {
        dec_chars(v as nat)
    }
}

/// Appends the decimal digits of `n`.
pub fn push_decimal(out: &mut Vec<char>, n: u128)
    ensures
        final(out)@ == old(out)@ + dec_chars(n as nat),
    decreases n,
{
    if n < 10 {
        out.push(char_of_digit(n as u32));
        assert(dec_chars(n as nat) == seq![digit_char(n as nat)]);
    } else {
        push_decimal(out, n / 10);
        out.push(char_of_digit((n % 10) as u32));
        assert(old(out)@ + dec_chars(n as nat) =~= old(out)@ + dec_chars((n / 10) as nat) + seq![
            digit_char((n % 10) as nat),
        ]);
    }
}

fn char_of_digit(d: u32) -> (c: char)
    requires
        d < 10,
    ensures
        c == digit_char(d as nat),
{
    let ds: [char; 10] = ['0', '1', '2', '3', '4', '5', '6', '7', '8', '9'];
    let c = ds[d as usize];
    assert(c == digit_char(d as nat)) by {
        assert(ds@ == seq!['0', '1', '2', '3', '4', '5', '6', '7', '8', '9']);
    }
    c
}

/// Appends the decimal text of `v`.
pub fn push_signed(out: &mut Vec<char>, v: i64)
    ensures
        final(out)@ == old(out)@ + int_chars(v as int),
{
    if v < 0 {
        out.push('-');
        let m = (-(v as i128)) as u128;
        push_decimal(out, m);
        assert(final(out)@ =~= old(out)@ + int_chars(v as int));
    } else {
        push_decimal(out, v as u128);
    }
}

/// Appends every character of `s`.
pub fn push_all(out: &mut Vec<char>, s: &[char])
    ensures
        final(out)@ == old(out)@ + s@,
{
    let mut i: usize = 0;
    while i < s.len()
        invariant
            i <= s.len(),
            out@ == old(out)@ + s@.subrange(0, i as int),
        decreases s.len() - i,
    {
        out.push(s[i]);
        i += 1;
        assert(out@ =~= old(out)@ + s@.subrange(0, i as int));
    }
    assert(s@.subrange(0, i as int) =~= s@);
}

/// The characters of `s`, in order.
pub fn chars_of(s: &str) -> (r: Vec<char>)
    ensures
        r@ == s@,
{
    let mut r: Vec<char> = Vec::new();
    for c in it: s.chars()
        invariant
            r@ == it.seq().subrange(0, it.index() as int),
            it.seq() == s@,
    {
        r.push(c);
        assert(r@ =~= it.seq().subrange(0, it.index() + 1));
    }
    assert(r@ =~= s@);
    r
}

/// Relies on `String`'s `FromIterator<char>`: the string holds the characters in order.
#[verifier::external_body]
pub fn string_of(v: &[char]) -> (r: String)
    ensures
        r@ == v@,
{
    v.iter().collect()
}

/// Appends the characters of `s`.
pub fn push_str(out: &mut Vec<char>, s: &str)
    ensures
        final(out)@ == old(out)@ + s@,
{
    let cs = chars_of(s);
    push_all(out, cs.as_slice());
}

/// Whether `a` holds the characters of `s`.
pub fn eq_str(a: &[char], s: &str) -> (r: bool)
    ensures
        r == (a@ == s@),
{
    let cs = chars_of(s);
    if a.len() != cs.len() {
        assert(a@.len() != s@.len());
        return false;
    }
    let mut i: usize = 0;
    while i < a.len()
        invariant
            i <= a.len() == cs@.len(),
            cs@ == s@,
            forall|j: int| 0 <= j < i ==> a@[j] == cs@[j],
        decreases a.len() - i,
    {
        if a[i] != cs[i] {
            assert(a@[i as int] != s@[i as int]);
            return false;
        }
        i += 1;
    }
    assert(a@ =~= s@);
    true
}

/// The concatenation of `f` over `s`.
pub open spec fn concat_map<A>(s: Seq<A>, f: spec_fn(A) -> Seq<char>) -> Seq<char>
    decreases s.len(),
{
    if s.len() == 0 {
        Seq::empty()
    } else {
        concat_map(s.drop_last(), f) + f(s.last())
    }
}

/// Extending the concatenation by one element.
pub proof fn lemma_concat_map_step<A>(s: Seq<A>, f: spec_fn(A) -> Seq<char>, i: int)
    requires
        0 <= i < s.len(),
    ensures
        concat_map(s.subrange(0, i + 1), f) == concat_map(s.subrange(0, i), f) + f(s[i]),
{
    assert(s.subrange(0, i + 1).drop_last() == s.subrange(0, i));
}

} // verus!
