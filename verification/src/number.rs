//! Decimal fixed-point temperature values.
//!
//! A reading is carried as a count of ten-thousandths of a degree
//! Celsius in an `i64`. Backend responses encode each value as a decimal
//! numeral in a string; `parse_scaled` turns such a numeral into the
//! fixed-point form, and the rounding functions implement the output
//! precision policy (tenths for the minutely and daily windows, whole
//! degrees for the hourly window), rounding halves away from zero.

use vstd::prelude::*;

verus! {

/// One degree Celsius in fixed-point units.
pub const SCALE: i64 = 10000;

/// Magnitude bound on every parsed value: numerals are limited to twelve
/// integer digits, so the fixed-point form stays strictly below this.
pub const VALUE_BOUND: i64 = 10_000_000_000_000_000;

pub open spec fn is_digit_char(c: char) -> bool {
    48 <= c as u32 && c as u32 <= 57
}

pub open spec fn digit_value(c: char) -> int {
    c as u32 - 48
}

pub open spec fn all_digits(s: Seq<char>) -> bool {
    forall|i: int| 0 <= i < s.len() ==> is_digit_char(s[i])
}

/// Value of a digit string read in base ten.
pub open spec fn digits_value(s: Seq<char>) -> int
    decreases s.len(),
{
    if s.len() == 0 {
        0
    } else {
        digits_value(s.drop_last()) * 10 + digit_value(s.last())
    }
}

pub open spec fn pow10(n: nat) -> int
    decreases n,
{
    if n == 0 {
        1
    } else {
        10 * pow10((n - 1) as nat)
    }
}

/// Index of the first `'.'` in `s`, or `s.len()` if there is none.
pub open spec fn dot_index(s: Seq<char>) -> int
    decreases s.len(),
{
    if s.len() == 0 {
        0
    } else if s[0] == '.' {
        0
    } else {
        1 + dot_index(s.drop_first())
    }
}

pub open spec fn dec_negative(s: Seq<char>) -> bool {
    s.len() > 0 && s[0] == '-'
}

/// The numeral with a leading sign removed.
pub open spec fn dec_body(s: Seq<char>) -> Seq<char> {
    if dec_negative(s) {
        s.drop_first()
    } else {
        s
    }
}

pub open spec fn dec_int_part(s: Seq<char>) -> Seq<char> {
    dec_body(s).take(dot_index(dec_body(s)))
}

pub open spec fn dec_frac_part(s: Seq<char>) -> Seq<char> {
    let b = dec_body(s);
    if dot_index(b) < b.len() {
        b.skip(dot_index(b) + 1)
    } else {
        Seq::empty()
    }
}

/// A numeral the library understands: an optional `'-'`, one to twelve
/// integer digits, and optionally a `'.'` followed by at least one digit.
pub open spec fn decimal_ok(s: Seq<char>) -> bool {
    let b = dec_body(s);
    let ip = dec_int_part(s);
    let fp = dec_frac_part(s);
    &&& 1 <= ip.len() <= 12
    &&& all_digits(ip)
    &&& (dot_index(b) < b.len() ==> 1 <= fp.len() && all_digits(fp))
}

/// Contribution of the fractional digits, kept to four places: extra
/// digits are cut off, missing ones count as zero.
pub open spec fn frac_scaled(fp: Seq<char>) -> int {
    if fp.len() >= 4 {
        digits_value(fp.take(4))
    } else {
        digits_value(fp) * pow10((4 - fp.len()) as nat)
    }
}

/// The fixed-point value a well-formed numeral denotes.
pub open spec fn decimal_scaled(s: Seq<char>) -> int {
    let mag = digits_value(dec_int_part(s)) * (SCALE as int) + frac_scaled(dec_frac_part(s));
    if dec_negative(s) {
        -mag
    } else {
        mag
    }
}

/// Nearest multiple of `unit`, halves rounded away from zero, as a count
/// of `unit`s.
pub open spec fn round_half_away(v: int, unit: int) -> int
    recommends
        unit >= 2,
{
    if v >= 0 {
        (v + unit / 2) / unit
    } else {
        -(((-v) + unit / 2) / unit)
    }
}

proof fn lemma_pow10_values()
    ensures
        pow10(0) == 1,
        pow10(1) == 10,
        pow10(2) == 100,
        pow10(3) == 1000,
        pow10(4) == 10000,
        pow10(11) == 100_000_000_000,
        pow10(12) == 1_000_000_000_000,
{
    assert(pow10(0) == 1);
    assert(pow10(1) == 10);
    assert(pow10(2) == 100);
    assert(pow10(3) == 1000);
    assert(pow10(4) == 10000);
    assert(pow10(5) == 100000);
    assert(pow10(6) == 1_000_000);
    assert(pow10(7) == 10_000_000);
    assert(pow10(8) == 100_000_000);
    assert(pow10(9) == 1_000_000_000);
    assert(pow10(10) == 10_000_000_000);
    assert(pow10(11) == 100_000_000_000);
    assert(pow10(12) == 1_000_000_000_000);
}

proof fn lemma_pow10_mono(a: nat, b: nat)
    requires
        a <= b,
    ensures
        1 <= pow10(a) <= pow10(b),
    decreases b,
{
    if a == b {
        lemma_pow10_pos(a);
    } else {
        lemma_pow10_mono(a, (b - 1) as nat);
    }
}

proof fn lemma_pow10_pos(n: nat)
    ensures
        pow10(n) >= 1,
    decreases n,
{
    if n > 0 {
        lemma_pow10_pos((n - 1) as nat);
    }
}

proof fn lemma_digits_value_bound(s: Seq<char>)
    requires
        all_digits(s),
    ensures
        0 <= digits_value(s) < pow10(s.len()),
    decreases s.len(),
{
    if s.len() > 0 {
        assert(all_digits(s.drop_last())) by {
            assert(forall|i: int|
                0 <= i < s.len() - 1 ==> s.drop_last()[i] == s[i]);
        }
        lemma_digits_value_bound(s.drop_last());
        assert(is_digit_char(s.last()));
    }
}

proof fn lemma_digits_value_push(s: Seq<char>, c: char)
    ensures
        digits_value(s.push(c)) == digits_value(s) * 10 + digit_value(c),
{
    assert(s.push(c).drop_last() =~= s);
    assert(s.push(c).last() == c);
}

/// Where the first `'.'` sits determines `dot_index`.
proof fn lemma_dot_index_of(s: Seq<char>, i: int)
    requires
        0 <= i <= s.len(),
        forall|j: int| 0 <= j < i ==> s[j] != '.',
        i < s.len() ==> s[i] == '.',
    ensures
        dot_index(s) == i,
    decreases i,
{
    if i == 0 {
    } else {
        assert(s[0] != '.');
        assert(forall|j: int| 0 <= j < i - 1 ==> s.drop_first()[j] == s[j + 1]);
        lemma_dot_index_of(s.drop_first(), i - 1);
    }
}

/// Every value a well-formed numeral denotes fits the fixed-point range.
pub proof fn lemma_decimal_scaled_bound(s: Seq<char>)
    requires
        decimal_ok(s),
    ensures
        -VALUE_BOUND < decimal_scaled(s) < VALUE_BOUND,
{
    let ip = dec_int_part(s);
    let fp = dec_frac_part(s);
    lemma_pow10_values();
    lemma_digits_value_bound(ip);
    lemma_pow10_mono(ip.len(), 12);
    lemma_frac_scaled_bound(fp);
}

proof fn lemma_frac_scaled_bound(fp: Seq<char>)
    requires
        all_digits(fp) || fp.len() == 0,
    ensures
        0 <= frac_scaled(fp) < 10000,
{
    lemma_pow10_values();
    if fp.len() >= 4 {
        assert(all_digits(fp.take(4))) by {
            assert(forall|i: int| 0 <= i < 4 ==> fp.take(4)[i] == fp[i]);
        }
        lemma_digits_value_bound(fp.take(4));
    } else {
        lemma_digits_value_bound(fp);
    }
}

/// Rounds a fixed-point value to a whole count of `unit`s, halves away
/// from zero.
pub fn round_to_unit(v: i64, unit: i64) -> (r: i64)
    requires
        unit == 1000 || unit == 10000,
        -VALUE_BOUND <= v <= VALUE_BOUND,
    ensures
        r as int == round_half_away(v as int, unit as int),
{
    let a: u64 = if v >= 0 {
        v as u64
    } else {
        (-v) as u64
    };
    let u: u64 = unit as u64;
    let q: u64 = (a + u / 2) / u;
    proof {
        vstd::arithmetic::div_mod::lemma_div_nonincreasing((a + u / 2) as int, u as int);
    }
    let qi: i64 = q as i64;
    if v >= 0 {
        qi
    } else {
        -qi
    }
}

/// Reads a decimal numeral into fixed-point units, or reports that the
/// string is not a numeral the library understands.
#[verifier::loop_isolation(false)]
#[verifier::rlimit(100)]
pub fn parse_scaled(s: &str) -> (r: Option<i64>)
    ensures
        match r {
            Some(v) => decimal_ok(s@) && v as int == decimal_scaled(s@) && -VALUE_BOUND < v
                < VALUE_BOUND,
            None => !decimal_ok(s@),
        },
{
    let n: usize = s.unicode_len();
    let neg: bool = n > 0 && s.get_char(0) == '-';
    let start: usize = if neg {
        1
    } else {
        0
    };
    let ghost b = dec_body(s@);
    proof {
        assert(b =~= s@.skip(start as int));
    }

    // Find the first dot at or after `start`.
    let mut d: usize = start;
    while d < n && s.get_char(d) != '.'
        invariant
            start <= d <= n,
            forall|j: int| start <= j < d ==> s@[j] != '.',
        decreases n - d,
    {
        d += 1;
    }
    proof {
        lemma_dot_index_of(b, d - start);
        assert(dec_int_part(s@) =~= s@.subrange(start as int, d as int));
    }

    let int_len: usize = d - start;
    if int_len == 0 || int_len > 12 {
        return None;
    }

    // Integer part.
    let mut int_val: i64 = 0;
    let mut i: usize = start;
    while i < d
        invariant
            start <= i <= d <= n,
            n == s@.len(),
            int_len == d - start,
            1 <= int_len <= 12,
            0 <= int_val,
            int_val as int == digits_value(s@.subrange(start as int, i as int)),
            int_val < 1_000_000_000_000i64,
            all_digits(s@.subrange(start as int, i as int)),
        decreases d - i,
    {
        let c = s.get_char(i);
        let cu: u32 = c as u32;
        if cu < 48 || cu > 57 {
            proof {
                assert(dec_int_part(s@)[i - start] == c);
            }
            return None;
        }
        let dig: i64 = (cu - 48) as i64;
        proof {
            let pre = s@.subrange(start as int, i as int);
            lemma_digits_value_push(pre, c);
            assert(s@.subrange(start as int, i + 1 as int) =~= pre.push(c));
            lemma_digits_value_bound(pre);
            lemma_pow10_mono(pre.len(), 11);
            lemma_pow10_values();
        }
        int_val = int_val * 10 + dig;
        i += 1;
    }
    proof {
        assert(int_val as int == digits_value(dec_int_part(s@)));
    }

    // Fractional part, if any.
    let mut frac_total: i64 = 0;
    if d < n {
        let fstart: usize = d + 1;
        let flen: usize = n - fstart;
        if flen == 0 {
            return None;
        }
        proof {
            assert(dec_frac_part(s@) =~= s@.skip(fstart as int));
        }
        let mut frac_val: i64 = 0;
        let mut j: usize = fstart;
        while j < n
            invariant
                fstart <= j <= n,
                n == s@.len(),
                fstart == d + 1,
                d < n,
                flen == n - fstart,
                dec_frac_part(s@) =~= s@.skip(fstart as int),
                0 <= frac_val,
                frac_val as int == digits_value(
                    s@.subrange(fstart as int, fstart + min4(j - fstart) as int),
                ),
                frac_val < 10000,
                all_digits(s@.subrange(fstart as int, j as int)),
            decreases n - j,
        {
            let c = s.get_char(j);
            let cu: u32 = c as u32;
            if cu < 48 || cu > 57 {
                proof {
                    assert(dec_frac_part(s@)[j - fstart] == c);
                }
                return None;
            }
            if j - fstart < 4 {
                let dig: i64 = (cu - 48) as i64;
                proof {
                    let pre = s@.subrange(fstart as int, fstart + min4(j - fstart) as int);
                    lemma_digits_value_push(pre, c);
                    assert(s@.subrange(fstart as int, fstart + min4(j + 1 - fstart) as int)
                        =~= pre.push(c));
                    lemma_digits_value_bound(pre);
                    lemma_pow10_values();
                    lemma_pow10_mono(pre.len(), 3);
                }
                frac_val = frac_val * 10 + dig;
            } else {
                proof {
                    assert(min4(j + 1 - fstart) == min4(j - fstart));
                }
            }
            proof {
                let prev = s@.subrange(fstart as int, j as int);
                assert(s@.subrange(fstart as int, j + 1 as int) =~= prev.push(c));
                assert(forall|k: int|
                    0 <= k < prev.push(c).len() ==> is_digit_char(prev.push(c)[k]));
            }
            j += 1;
        }
        let mult: i64 = if flen == 1 {
            1000
        } else if flen == 2 {
            100
        } else if flen == 3 {
            10
        } else {
            1
        };
        proof {
            lemma_pow10_values();
            let fp = dec_frac_part(s@);
            if flen >= 4 {
                assert(fp.take(4) =~= s@.subrange(fstart as int, fstart + 4));
            }
            assert(frac_val as int * mult as int == frac_scaled(fp));
            lemma_frac_scaled_bound(fp);
        }
        frac_total = frac_val * mult;
    }

    let mag: i64 = int_val * 10000 + frac_total;
    proof {
        lemma_pow10_values();
        assert(mag as int == digits_value(dec_int_part(s@)) * (SCALE as int) + frac_scaled(
            dec_frac_part(s@),
        ));
    }
    if neg {
        Some(-mag)
    } else {
        Some(mag)
    }
}

/// The count of fractional digits that carry into the fixed-point form.
pub open spec fn min4(n: int) -> int {
    if n < 4 {
        n
    } else {
        4
    }
}

} // verus!
