//! Exact fixed-point money amounts.
//!
//! An amount is a plain integer count of ten-thousandths (four fractional
//! digits). Transaction amounts fit in `i64`; account balances use `i128`.
//! This module gives the decimal grammar for amounts and the rendering with
//! exactly four fractional digits, both specified over byte sequences.

use vstd::prelude::*;

verus! {

/// Fixed-point units per whole currency unit: four fractional digits.
pub const UNITS_PER_WHOLE: i64 = 10_000;

/// Largest transaction amount accepted, in fixed-point units
/// (fourteen integer digits and four fractional digits).
pub const MAX_AMOUNT_UNITS: i64 = 1_000_000_000_000_000_000;

pub open spec fn is_digit_byte(b: u8) -> bool {
    48 <= b <= 57
}

pub open spec fn digit_val(b: u8) -> int {
    b - 48
}

pub open spec fn all_digits(s: Seq<u8>) -> bool {
    forall|i: int| 0 <= i < s.len() ==> is_digit_byte(#[trigger] s[i])
}

/// Value of a big-endian string of decimal digit bytes.
pub open spec fn digits_value(s: Seq<u8>) -> int
    decreases s.len(),
{
    if s.len() == 0 {
        0
    } else {
        digits_value(s.drop_last()) * 10 + digit_val(s.last())
    }
}

pub open spec fn pow10(n: nat) -> int
    decreases n,
{
    if n == 0 {
        1
    } else {
        10 * pow10((n - 1) as nat)
    }
}

pub proof fn lemma_pow10_pos(n: nat)
    ensures
        pow10(n) >= 1,
    decreases n,
{
    if n > 0 {
        lemma_pow10_pos((n - 1) as nat);
    }
}

pub proof fn lemma_digits_value_nonneg(s: Seq<u8>)
    requires
        all_digits(s),
    ensures
        digits_value(s) >= 0,
    decreases s.len(),
{
    if s.len() > 0 {
        assert(all_digits(s.drop_last()));
        lemma_digits_value_nonneg(s.drop_last());
    }
}

/// An all-digit string of length `n` denotes a value below `10^n`.
pub proof fn lemma_digits_value_upper(s: Seq<u8>)
    requires
        all_digits(s),
    ensures
        digits_value(s) < pow10(s.len()),
    decreases s.len(),
{
    if s.len() > 0 {
        assert(all_digits(s.drop_last()));
        lemma_digits_value_upper(s.drop_last());
        assert(is_digit_byte(s.last()));
    } else {
        assert(pow10(0) == 1);
    }
}

/// A digit string with a nonzero leading digit denotes at least `10^(n-1)`.
pub proof fn lemma_digits_value_lower(s: Seq<u8>)
    requires
        all_digits(s),
        s.len() > 0,
        s[0] != 48,
    ensures
        digits_value(s) >= pow10((s.len() - 1) as nat),
    decreases s.len(),
{
    if s.len() == 1 {
        assert(is_digit_byte(s[0]));
        assert(digits_value(s) == digits_value(s.drop_last()) * 10 + digit_val(s.last()));
        assert(s.last() == s[0]);
    } else {
        let d = s.drop_last();
        assert(all_digits(d));
        assert(d[0] == s[0]);
        lemma_digits_value_lower(d);
        assert(is_digit_byte(s.last()));
        assert(pow10((s.len() - 1) as nat) == 10 * pow10((s.len() - 2) as nat));
        assert(digits_value(d) * 10 >= pow10((s.len() - 2) as nat) * 10) by (nonlinear_arith)
            requires
                digits_value(d) >= pow10((s.len() - 2) as nat),
        ;
    }
}

/// Reads the decimal value of `s[from..to]`, which must be all digits and
/// short enough that the value fits comfortably.
pub fn parse_digits_range(s: &[u8], from: usize, to: usize) -> (v: i64)
    requires
        0 <= from <= to <= s@.len(),
        all_digits(s@.subrange(from as int, to as int)),
        to - from <= 18,
    ensures
        v == digits_value(s@.subrange(from as int, to as int)),
        v >= 0,
{
    let ghost whole = s@.subrange(from as int, to as int);
    proof {
        lemma_digits_value_nonneg(whole);
        lemma_digits_value_upper(whole);
        lemma_pow10_18();
    }
    let mut v: i64 = 0;
    let mut i: usize = from;
    while i < to
        invariant
            from <= i <= to <= s@.len(),
            to - from <= 18,
            whole == s@.subrange(from as int, to as int),
            all_digits(whole),
            v == digits_value(whole.take(i - from)),
            0 <= v < pow10((i - from) as nat),
            pow10(18) == 1_000_000_000_000_000_000,
        decreases to - i,
    {
        let b = s[i];
        proof {
            let prefix = whole.take(i - from);
            let next = whole.take(i + 1 - from);
            assert(next.drop_last() =~= prefix);
            assert(next.last() == whole[i - from]);
            assert(whole[i - from] == s@[i as int]);
            assert(all_digits(prefix));
            assert(all_digits(next));
            lemma_digits_value_upper(next);
            assert(pow10(((i + 1 - from) as nat)) <= pow10(18)) by {
                lemma_pow10_mono((i + 1 - from) as nat, 18);
            }
        }
        v = v * 10 + (b - 48) as i64;
        i = i + 1;
    }
    proof {
        assert(whole.take(to - from) =~= whole);
    }
    v
}

/// ASCII lowercase of one byte.
pub open spec fn lower_byte(b: u8) -> u8 {
    if 65 <= b <= 90 {
        (b + 32) as u8
    } else {
        b
    }
}

/// ASCII lowercase of a byte string.
pub open spec fn lower_bytes(s: Seq<u8>) -> Seq<u8> {
    s.map_values(|b: u8| lower_byte(b))
}

/// Bytes the stream format treats as blank padding around a field:
/// space, tab, vertical tab, form feed, and carriage return.
pub open spec fn is_space_byte(b: u8) -> bool {
    b == 32 || b == 9 || b == 11 || b == 12 || b == 13
}

pub open spec fn trim_front(s: Seq<u8>) -> Seq<u8>
    decreases s.len(),
{
    if s.len() > 0 && is_space_byte(s[0]) {
        trim_front(s.skip(1))
    } else {
        s
    }
}

pub open spec fn trim_back(s: Seq<u8>) -> Seq<u8>
    decreases s.len(),
{
    if s.len() > 0 && is_space_byte(s.last()) {
        trim_back(s.drop_last())
    } else {
        s
    }
}

/// A field with surrounding blank bytes removed.
pub open spec fn trimmed(s: Seq<u8>) -> Seq<u8> {
    trim_back(trim_front(s))
}

/// Index of the first occurrence of `b` in `s` at or after `i`, or -1.
pub open spec fn find_from(s: Seq<u8>, b: u8, i: int) -> int
    decreases s.len() - i,
{
    if i < 0 || i >= s.len() {
        -1
    } else if s[i] == b {
        i
    } else {
        find_from(s, b, i + 1)
    }
}

pub proof fn lemma_find_from_range(s: Seq<u8>, b: u8, i: int)
    requires
        0 <= i <= s.len(),
    ensures
        find_from(s, b, i) == -1 ==> forall|j: int| i <= j < s.len() ==> s[j] != b,
        find_from(s, b, i) != -1 ==> i <= find_from(s, b, i) < s.len() && s[find_from(s, b, i)]
            == b && forall|j: int| i <= j < find_from(s, b, i) ==> s[j] != b,
    decreases s.len() - i,
{
    if i < s.len() && s[i] != b {
        lemma_find_from_range(s, b, i + 1);
    }
}

/// Narrows `[from, to)` in `s` to the trimmed extent of that field.
pub fn trim_range(s: &[u8], from: usize, to: usize) -> (r: (usize, usize))
    requires
        0 <= from <= to <= s@.len(),
    ensures
        from <= r.0 <= r.1 <= to,
        s@.subrange(r.0 as int, r.1 as int) == trimmed(s@.subrange(from as int, to as int)),
{
    let ghost t = s@.subrange(from as int, to as int);
    let mut lo: usize = from;
    while lo < to && is_space(s[lo])
        invariant
            from <= lo <= to <= s@.len(),
            t == s@.subrange(from as int, to as int),
            trim_front(t) == trim_front(s@.subrange(lo as int, to as int)),
        decreases to - lo,
    {
        proof {
            let cur = s@.subrange(lo as int, to as int);
            assert(cur[0] == s@[lo as int]);
            assert(cur.skip(1) =~= s@.subrange(lo as int + 1, to as int));
        }
        lo = lo + 1;
    }
    proof {
        let cur = s@.subrange(lo as int, to as int);
        if lo < to {
            assert(cur[0] == s@[lo as int]);
        }
        assert(trim_front(t) == cur);
    }
    let mut hi: usize = to;
    while hi > lo && is_space(s[hi - 1])
        invariant
            from <= lo <= hi <= to <= s@.len(),
            trim_front(t) == s@.subrange(lo as int, to as int),
            trim_back(trim_front(t)) == trim_back(s@.subrange(lo as int, hi as int)),
        decreases hi,
    {
        proof {
            let cur = s@.subrange(lo as int, hi as int);
            assert(cur.last() == s@[hi - 1]);
            assert(cur.drop_last() =~= s@.subrange(lo as int, hi as int - 1));
        }
        hi = hi - 1;
    }
    proof {
        let cur = s@.subrange(lo as int, hi as int);
        if hi > lo {
            assert(cur.last() == s@[hi - 1]);
        }
        assert(trim_back(s@.subrange(lo as int, hi as int)) == cur);
    }
    (lo, hi)
}

pub fn is_space(b: u8) -> (r: bool)
    ensures
        r == is_space_byte(b),
{
    b == 32 || b == 9 || b == 11 || b == 12 || b == 13
}

/// Finds the first occurrence of `b` in `s[from..to)`.
pub fn find_byte_range(s: &[u8], b: u8, from: usize, to: usize) -> (r: Option<usize>)
    requires
        0 <= from <= to <= s@.len(),
    ensures
        match r {
            Some(i) => from <= i < to && find_from(s@.subrange(from as int, to as int), b, 0) == i
                - from,
            None => find_from(s@.subrange(from as int, to as int), b, 0) == -1,
        },
{
    let ghost t = s@.subrange(from as int, to as int);
    let mut i: usize = from;
    while i < to
        invariant
            from <= i <= to <= s@.len(),
            t == s@.subrange(from as int, to as int),
            find_from(t, b, 0) == find_from(t, b, i - from),
        decreases to - i,
    {
        proof {
            assert(t[i - from] == s@[i as int]);
        }
        if s[i] == b {
            return Some(i);
        }
        i = i + 1;
    }
    None
}

pub proof fn lemma_pow10_18()
    ensures
        pow10(18) == 1_000_000_000_000_000_000,
{
    reveal_with_fuel(pow10, 20);
}

pub proof fn lemma_pow10_mono(m: nat, n: nat)
    requires
        m <= n,
    ensures
        pow10(m) <= pow10(n),
    decreases n,
{
    if m < n {
        lemma_pow10_mono(m, (n - 1) as nat);
        lemma_pow10_pos((n - 1) as nat);
    }
}

/// The digit string with leading zero digits removed.
pub open spec fn strip_zeros(s: Seq<u8>) -> Seq<u8>
    decreases s.len(),
{
    if s.len() > 0 && s[0] == 48 {
        strip_zeros(s.skip(1))
    } else {
        s
    }
}

pub proof fn lemma_strip_zeros_value(s: Seq<u8>)
    requires
        all_digits(s),
    ensures
        all_digits(strip_zeros(s)),
        digits_value(strip_zeros(s)) == digits_value(s),
        strip_zeros(s).len() <= s.len(),
    decreases s.len(),
{
    if s.len() > 0 && s[0] == 48 {
        lemma_leading_zero_value(s);
        assert(all_digits(s.skip(1)));
        lemma_strip_zeros_value(s.skip(1));
    }
}

pub proof fn lemma_leading_zero_value(s: Seq<u8>)
    requires
        all_digits(s),
        s.len() > 0,
        s[0] == 48,
    ensures
        digits_value(s.skip(1)) == digits_value(s),
    decreases s.len(),
{
    if s.len() == 1 {
        assert(s.skip(1) =~= Seq::<u8>::empty());
        assert(digits_value(s) == digits_value(s.drop_last()) * 10 + digit_val(s.last()));
        assert(s.last() == s[0]);
        assert(s.drop_last() =~= Seq::<u8>::empty());
    } else {
        let d = s.drop_last();
        assert(all_digits(d));
        assert(d[0] == s[0]);
        lemma_leading_zero_value(d);
        let t = s.skip(1);
        assert(t.drop_last() =~= d.skip(1));
        assert(t.last() == s.last());
        assert(digits_value(t) == digits_value(t.drop_last()) * 10 + digit_val(t.last()));
        assert(digits_value(s) == digits_value(d) * 10 + digit_val(s.last()));
    }
}

/// What leading-zero stripping leaves never starts with a zero digit.
pub proof fn lemma_strip_zeros_head(s: Seq<u8>)
    ensures
        strip_zeros(s).len() > 0 ==> strip_zeros(s)[0] != 48,
    decreases s.len(),
{
    if s.len() > 0 && s[0] == 48 {
        lemma_strip_zeros_head(s.skip(1));
    }
}

/// Sign byte of an amount field, if present.
pub open spec fn amount_is_negative(t: Seq<u8>) -> bool {
    t.len() > 0 && t[0] == 45
}

/// The amount field without its sign byte.
pub open spec fn amount_body(t: Seq<u8>) -> Seq<u8> {
    if amount_is_negative(t) {
        t.skip(1)
    } else {
        t
    }
}

/// Integer digits of the body: everything before the first dot.
pub open spec fn int_part(b: Seq<u8>) -> Seq<u8> {
    let d = find_from(b, 46, 0);
    if d == -1 {
        b
    } else {
        b.take(d)
    }
}

/// Fractional digits of the body: everything after the first dot.
pub open spec fn frac_part(b: Seq<u8>) -> Seq<u8> {
    let d = find_from(b, 46, 0);
    if d == -1 {
        Seq::empty()
    } else {
        b.skip(d + 1)
    }
}

/// A well-formed amount body: digits, at most one dot, at least one digit,
/// at most fourteen significant integer digits, and nothing but zeros past
/// the fourth fractional digit.
pub open spec fn valid_amount_body(b: Seq<u8>) -> bool {
    let ip = int_part(b);
    let fp = frac_part(b);
    &&& all_digits(ip)
    &&& all_digits(fp)
    &&& ip.len() + fp.len() > 0
    &&& strip_zeros(ip).len() <= 14
    &&& (forall|i: int| 4 <= i < fp.len() ==> fp[i] == 48)
}

/// A well-formed amount field: optional minus sign, then a valid body.
pub open spec fn valid_amount(t: Seq<u8>) -> bool {
    valid_amount_body(amount_body(t))
}

/// The fractional digits padded or truncated to exactly four digits.
pub open spec fn frac4(fp: Seq<u8>) -> Seq<u8> {
    if fp.len() >= 4 {
        fp.take(4)
    } else {
        fp + Seq::new((4 - fp.len()) as nat, |i: int| 48u8)
    }
}

/// Value of a well-formed amount field in fixed-point units.
pub open spec fn amount_units(t: Seq<u8>) -> int {
    let b = amount_body(t);
    let v = digits_value(int_part(b)) * 10000 + digits_value(frac4(frac_part(b)));
    if amount_is_negative(t) {
        -v
    } else {
        v
    }
}

pub proof fn lemma_append_zero_digits(s: Seq<u8>, n: nat)
    requires
        all_digits(s),
    ensures
        all_digits(s + Seq::new(n, |i: int| 48u8)),
        digits_value(s + Seq::new(n, |i: int| 48u8)) == digits_value(s) * pow10(n),
    decreases n,
{
    let z = Seq::new(n, |i: int| 48u8);
    if n == 0 {
        assert(s + z =~= s);
    } else {
        let z1 = Seq::new((n - 1) as nat, |i: int| 48u8);
        lemma_append_zero_digits(s, (n - 1) as nat);
        assert((s + z).drop_last() =~= s + z1);
        assert((s + z).last() == 48);
        assert(digits_value(s + z) == digits_value(s + z1) * 10);
        assert(pow10(n) == 10 * pow10((n - 1) as nat));
        assert((digits_value(s) * pow10((n - 1) as nat)) * 10 == digits_value(s) * (10 * pow10(
            (n - 1) as nat,
        ))) by (nonlinear_arith);
    }
}

/// A valid amount's magnitude stays below `MAX_AMOUNT_UNITS`.
pub proof fn lemma_amount_units_range(t: Seq<u8>)
    requires
        valid_amount(t),
    ensures
        -MAX_AMOUNT_UNITS < amount_units(t) < MAX_AMOUNT_UNITS,
{
    let b = amount_body(t);
    let ip = int_part(b);
    let fp = frac_part(b);
    lemma_strip_zeros_value(ip);
    lemma_digits_value_upper(strip_zeros(ip));
    lemma_digits_value_nonneg(ip);
    lemma_pow10_mono(strip_zeros(ip).len(), 14);
    assert(pow10(14) == 100_000_000_000_000) by {
        reveal_with_fuel(pow10, 16);
    }
    assert(digits_value(ip) <= 99_999_999_999_999);
    let f4 = frac4(fp);
    assert(all_digits(f4)) by {
        if fp.len() >= 4 {
            assert(forall|i: int| 0 <= i < 4 ==> f4[i] == fp[i]);
        } else {
            assert(forall|i: int| 0 <= i < f4.len() ==> is_digit_byte(#[trigger] f4[i]));
        }
    }
    assert(f4.len() == 4);
    lemma_digits_value_nonneg(f4);
    lemma_digits_value_upper(f4);
    assert(pow10(4) == 10_000) by {
        reveal_with_fuel(pow10, 6);
    }
    assert(digits_value(ip) * 10000 <= 99_999_999_999_999 * 10000) by (nonlinear_arith)
        requires
            digits_value(ip) <= 99_999_999_999_999,
    ;
    assert(digits_value(ip) * 10000 >= 0) by (nonlinear_arith)
        requires
            digits_value(ip) >= 0,
    ;
}

/// True when `s[from..to)` is all decimal digits.
pub fn check_digits(s: &[u8], from: usize, to: usize) -> (r: bool)
    requires
        0 <= from <= to <= s@.len(),
    ensures
        r == all_digits(s@.subrange(from as int, to as int)),
{
    let ghost t = s@.subrange(from as int, to as int);
    let mut i: usize = from;
    while i < to
        invariant
            from <= i <= to <= s@.len(),
            t == s@.subrange(from as int, to as int),
            forall|j: int| 0 <= j < i - from ==> is_digit_byte(#[trigger] t[j]),
        decreases to - i,
    {
        proof {
            assert(t[i - from] == s@[i as int]);
        }
        if s[i] < 48 || s[i] > 57 {
            return false;
        }
        i = i + 1;
    }
    true
}

/// True when every byte of `s[from..to)` past the fourth is a zero digit.
fn check_frac_tail(s: &[u8], from: usize, to: usize) -> (r: bool)
    requires
        0 <= from <= to <= s@.len(),
    ensures
        r == (forall|i: int|
            4 <= i < to - from ==> #[trigger] s@.subrange(from as int, to as int)[i] == 48),
{
    let ghost t = s@.subrange(from as int, to as int);
    if to - from <= 4 {
        return true;
    }
    let mut i: usize = from + 4;
    while i < to
        invariant
            from + 4 <= i <= to <= s@.len(),
            t == s@.subrange(from as int, to as int),
            forall|j: int| 4 <= j < i - from ==> #[trigger] t[j] == 48,
        decreases to - i,
    {
        proof {
            assert(t[i - from] == s@[i as int]);
        }
        if s[i] != 48 {
            return false;
        }
        i = i + 1;
    }
    true
}

/// First index in `[from, to)` past the leading zero digits.
pub fn skip_leading_zeros(s: &[u8], from: usize, to: usize) -> (z: usize)
    requires
        0 <= from <= to <= s@.len(),
    ensures
        from <= z <= to,
        strip_zeros(s@.subrange(from as int, to as int)) == s@.subrange(z as int, to as int),
{
    let ghost t = s@.subrange(from as int, to as int);
    let mut z: usize = from;
    while z < to && s[z] == 48
        invariant
            from <= z <= to <= s@.len(),
            t == s@.subrange(from as int, to as int),
            strip_zeros(t) == strip_zeros(s@.subrange(z as int, to as int)),
        decreases to - z,
    {
        proof {
            let cur = s@.subrange(z as int, to as int);
            assert(cur[0] == s@[z as int]);
            assert(cur.skip(1) =~= s@.subrange(z as int + 1, to as int));
        }
        z = z + 1;
    }
    proof {
        let cur = s@.subrange(z as int, to as int);
        if z < to {
            assert(cur[0] == s@[z as int]);
        }
        assert(strip_zeros(t) == cur);
    }
    z
}

/// Value of `frac4` of the digit string `s[from..to)`.
fn parse_frac4(s: &[u8], from: usize, to: usize) -> (v: i64)
    requires
        0 <= from <= to <= s@.len(),
        all_digits(s@.subrange(from as int, to as int)),
    ensures
        v == digits_value(frac4(s@.subrange(from as int, to as int))),
        0 <= v < 10000,
{
    let ghost fp = s@.subrange(from as int, to as int);
    let k: usize = if to - from >= 4 {
        4
    } else {
        to - from
    };
    let ghost fhead = s@.subrange(from as int, from + k as int);
    proof {
        assert(fhead =~= fp.take(k as int));
        assert(all_digits(fhead));
    }
    let fv_raw = parse_digits_range(s, from, from + k);
    let scale: i64 = if k == 0 {
        10000
    } else if k == 1 {
        1000
    } else if k == 2 {
        100
    } else if k == 3 {
        10
    } else {
        1
    };
    proof {
        lemma_digits_value_upper(fhead);
        assert(pow10(0) == 1 && pow10(1) == 10 && pow10(2) == 100 && pow10(3) == 1000 && pow10(4)
            == 10000) by {
            reveal_with_fuel(pow10, 6);
        }
        lemma_append_zero_digits(fhead, (4 - k) as nat);
        if k == 4 {
            assert(frac4(fp) =~= fhead);
            assert(fhead + Seq::new(0, |i: int| 48u8) =~= fhead);
        } else {
            assert(frac4(fp) =~= fhead + Seq::new((4 - k) as nat, |i: int| 48u8));
        }
        assert(scale == pow10((4 - k) as nat));
        assert(fv_raw * scale == digits_value(frac4(fp))) by (nonlinear_arith)
            requires
                fv_raw == digits_value(fhead),
                scale == pow10((4 - k) as nat),
                digits_value(frac4(fp)) == digits_value(fhead) * pow10((4 - k) as nat),
        ;
        lemma_pow10_add(k as nat, (4 - k) as nat);
        assert(fv_raw * scale < 10000) by (nonlinear_arith)
            requires
                0 <= fv_raw < pow10(k as nat),
                1 <= scale == pow10((4 - k) as nat),
                pow10(k as nat) * pow10((4 - k) as nat) == 10000,
        ;
        assert(fv_raw * scale >= 0) by (nonlinear_arith)
            requires
                fv_raw >= 0 && scale >= 1,
        ;
    }
    fv_raw * scale
}

/// Parses a trimmed amount field into fixed-point units.
///
/// Returns the exact value for every well-formed field and `None` otherwise.
pub fn parse_amount(s: &[u8]) -> (r: Option<i64>)
    ensures
        match r {
            Some(v) => valid_amount(s@) && v == amount_units(s@) && -MAX_AMOUNT_UNITS < v
                < MAX_AMOUNT_UNITS,
            None => !valid_amount(s@),
        },
{
    let n = s.len();
    let neg = n > 0 && s[0] == 45;
    let bo: usize = if neg {
        1
    } else {
        0
    };
    let ghost b = amount_body(s@);
    proof {
        assert(b =~= s@.subrange(bo as int, n as int));
    }
    // Locate the dot, if any.
    let dot = find_byte_range(s, 46, bo, n);
    let (ip_to, fp_from) = match dot {
        Some(d) => (d, d + 1),
        None => (n, n),
    };
    let ghost ip = int_part(b);
    let ghost fp = frac_part(b);
    proof {
        assert(ip =~= s@.subrange(bo as int, ip_to as int));
        assert(fp =~= s@.subrange(fp_from as int, n as int));
    }
    if ip_to == bo && fp_from == n {
        return None;
    }
    if !check_digits(s, bo, ip_to) {
        return None;
    }
    if !check_digits(s, fp_from, n) {
        return None;
    }
    if !check_frac_tail(s, fp_from, n) {
        return None;
    }
    // Skip leading zeros of the integer part and bound what is left.
    let z = skip_leading_zeros(s, bo, ip_to);
    if ip_to - z > 14 {
        return None;
    }
    proof {
        lemma_strip_zeros_value(ip);
        lemma_digits_value_upper(strip_zeros(ip));
        lemma_pow10_mono(strip_zeros(ip).len(), 14);
        assert(pow10(14) == 100_000_000_000_000) by {
            reveal_with_fuel(pow10, 16);
        }
    }
    let ipv = parse_digits_range(s, z, ip_to);
    let fv = parse_frac4(s, fp_from, n);
    proof {
        assert(ipv * 10000 <= 99_999_999_999_999 * 10000 && 0 <= ipv * 10000) by (
        nonlinear_arith)
            requires
                0 <= ipv <= 99_999_999_999_999,
        ;
    }
    let v = ipv * 10000 + fv;
    if neg {
        Some(-v)
    } else {
        Some(v)
    }
}

pub proof fn lemma_pow10_add(m: nat, n: nat)
    ensures
        pow10(m) * pow10(n) == pow10((m + n) as nat),
    decreases m,
{
    if m == 0 {
        assert(pow10(0) == 1);
    } else {
        lemma_pow10_add((m - 1) as nat, n);
        assert(pow10(m) == 10 * pow10((m - 1) as nat));
        assert((10 * pow10((m - 1) as nat)) * pow10(n) == 10 * (pow10((m - 1) as nat) * pow10(
            n,
        ))) by (nonlinear_arith);
    }
}

/// Decimal digit bytes of a non-negative integer, most significant first.
pub open spec fn dec_digits(n: int) -> Seq<u8>
    decreases n,
{
    if n < 10 {
        seq![(48 + if n >= 0 { n } else { 0 }) as u8]
    } else {
        dec_digits(n / 10).push((48 + n % 10) as u8)
    }
}

/// Appends the decimal digits of `n` to `out`.
pub fn write_digits(n: i128, out: &mut Vec<u8>)
    requires
        n >= 0,
    ensures
        final(out)@ == old(out)@ + dec_digits(n as int),
    decreases n,
{
    if n < 10 {
        out.push(48 + n as u8);
        assert(out@ =~= old(out)@ + dec_digits(n as int));
    } else {
        write_digits(n / 10, out);
        out.push(48 + (n % 10) as u8);
        assert(out@ =~= old(out)@ + dec_digits(n as int));
    }
}

/// The last four decimal digits of a non-negative integer, zero padded.
pub open spec fn frac4_digits(n: int) -> Seq<u8> {
    seq![
        (48 + (n / 1000) % 10) as u8,
        (48 + (n / 100) % 10) as u8,
        (48 + (n / 10) % 10) as u8,
        (48 + n % 10) as u8,
    ]
}

/// Rendering of a balance in fixed-point units: optional minus sign, the
/// whole part, a dot, and exactly four fractional digits.
pub open spec fn spec_format_amount(v: int) -> Seq<u8> {
    let a = if v < 0 {
        -v
    } else {
        v
    };
    (if v < 0 {
        seq![45u8]
    } else {
        Seq::<u8>::empty()
    }) + dec_digits(a / 10000) + seq![46u8] + frac4_digits(a % 10000)
}

/// Appends the rendering of a balance to `out`.
pub fn format_amount_into(v: i128, out: &mut Vec<u8>)
    requires
        i128::MIN < v,
    ensures
        final(out)@ == old(out)@ + spec_format_amount(v as int),
{
    let a: i128 = if v < 0 {
        out.push(45);
        -v
    } else {
        v
    };
    write_digits(a / 10000, out);
    out.push(46);
    let f = a % 10000;
    out.push(48 + ((f / 1000) % 10) as u8);
    out.push(48 + ((f / 100) % 10) as u8);
    out.push(48 + ((f / 10) % 10) as u8);
    out.push(48 + (f % 10) as u8);
    assert(out@ =~= old(out)@ + spec_format_amount(v as int));
}

} // verus!
