//! Decimal text: parsing amount strings into exact [`Amount`]s and
//! rendering amounts back into decimal strings.
//!
//! The accepted shape is a plain decimal literal: an optional leading
//! minus sign, one or more digits, and optionally a point followed by one
//! or more digits.  The parsed value keeps the written scale exactly.

use vstd::prelude::*;
use vstd::string::StrSliceExecFns;

use crate::amount::{pow10, Amount, MAX_SCALE};

verus! {

pub open spec fn is_digit_char(c: char) -> bool {
    48 <= c as u32 <= 57
}

pub open spec fn digit_val(c: char) -> int {
    c as u32 - 48
}

pub open spec fn all_digits(ds: Seq<char>) -> bool {
    forall|i: int| 0 <= i < ds.len() ==> is_digit_char(#[trigger] ds[i])
}

/// The integer denoted by a digit string, most significant digit first.
pub open spec fn digits_value(ds: Seq<char>) -> int
    decreases ds.len(),
{
    if ds.len() == 0 {
        0
    } else {
        digits_value(ds.drop_last()) * 10 + digit_val(ds.last())
    }
}

/// A digit run extends a previously accumulated value positionally.
pub open spec fn run_value(acc: int, ds: Seq<char>) -> int {
    acc * pow10(ds.len()) + digits_value(ds)
}

/// The index of the first point, or the length when there is none.
pub open spec fn dot_index(s: Seq<char>) -> int
    decreases s.len(),
{
    if s.len() == 0 {
        0
    } else if s[0] == '.' {
        0
    } else {
        1 + dot_index(s.drop_first())
    }
}

/// An unsigned plain decimal: digits, optionally a point with at least
/// one digit on each side.
pub open spec fn is_plain_unsigned(b: Seq<char>) -> bool {
    let d = dot_index(b);
    &&& d >= 1
    &&& all_digits(b.take(d))
    &&& (d < b.len() ==> d + 1 < b.len() && all_digits(b.skip(d + 1)))
}

/// The digits of an unsigned plain decimal read as one integer.
pub open spec fn unsigned_mantissa(b: Seq<char>) -> int {
    let d = dot_index(b);
    if d == b.len() {
        digits_value(b)
    } else {
        digits_value(b.take(d) + b.skip(d + 1))
    }
}

/// The number of digits written after the point.
pub open spec fn unsigned_scale(b: Seq<char>) -> int {
    let d = dot_index(b);
    if d == b.len() {
        0
    } else {
        b.len() - d - 1
    }
}

pub open spec fn decimal_neg(s: Seq<char>) -> bool {
    s.len() >= 1 && s[0] == '-'
}

pub open spec fn decimal_body(s: Seq<char>) -> Seq<char> {
    if decimal_neg(s) {
        s.drop_first()
    } else {
        s
    }
}

/// A plain decimal literal: an optional minus sign and an unsigned body.
pub open spec fn plain_decimal(s: Seq<char>) -> bool {
    is_plain_unsigned(decimal_body(s))
}

/// What parsing a string yields: the exact written amount, or nothing
/// when the shape is wrong, the digits exceed `u128::MAX`, or the scale
/// exceeds [`MAX_SCALE`].
pub open spec fn parse_amount_spec(s: Seq<char>) -> Option<Amount> {
    let b = decimal_body(s);
    if plain_decimal(s) && unsigned_mantissa(b) <= u128::MAX as int && unsigned_scale(b)
        <= MAX_SCALE as int {
        Amount::spec_new(decimal_neg(s), unsigned_mantissa(b) as u128, unsigned_scale(b) as u32)
    } else {
        None
    }
}

proof fn lemma_dot_index_bounds(s: Seq<char>)
    ensures
        0 <= dot_index(s) <= s.len(),
        dot_index(s) < s.len() ==> s[dot_index(s)] == '.',
        forall|k: int| 0 <= k < dot_index(s) ==> s[k] != '.',
    decreases s.len(),
{
    if s.len() > 0 && s[0] != '.' {
        lemma_dot_index_bounds(s.drop_first());
        assert forall|k: int| 0 <= k < dot_index(s) implies s[k] != '.' by {
            if k > 0 {
                assert(s.drop_first()[k - 1] == s[k]);
            }
        }
    }
}

proof fn lemma_dot_index_determined(s: Seq<char>, i: int)
    requires
        0 <= i <= s.len(),
        forall|k: int| 0 <= k < i ==> s[k] != '.',
        i < s.len() ==> s[i] == '.',
    ensures
        dot_index(s) == i,
    decreases s.len(),
{
    if s.len() == 0 {
    } else if s[0] == '.' {
        assert(i == 0);
    } else {
        assert(i >= 1);
        assert forall|k: int| 0 <= k < i - 1 implies s.drop_first()[k] != '.' by {
            assert(s.drop_first()[k] == s[k + 1]);
        }
        lemma_dot_index_determined(s.drop_first(), i - 1);
    }
}

/// Concatenating digit runs composes positionally.
proof fn lemma_digits_value_concat(a: Seq<char>, b: Seq<char>)
    ensures
        digits_value(a + b) == digits_value(a) * pow10(b.len()) + digits_value(b),
    decreases b.len(),
{
    if b.len() == 0 {
        assert(a + b =~= a);
        assert(digits_value(a) * 1 == digits_value(a));
    } else {
        lemma_digits_value_concat(a, b.drop_last());
        assert((a + b).drop_last() =~= a + b.drop_last());
        assert((a + b).last() == b.last());
        let va = digits_value(a);
        let l = b.len() - 1;
        assert(pow10((l + 1) as nat) == 10 * pow10(l as nat));
        assert((va * pow10(l as nat)) * 10 == va * (10 * pow10(l as nat))) by (nonlinear_arith);
    }
}

proof fn lemma_digits_value_nonneg(ds: Seq<char>)
    requires
        all_digits(ds),
    ensures
        digits_value(ds) >= 0,
    decreases ds.len(),
{
    if ds.len() > 0 {
        assert(all_digits(ds.drop_last())) by {
            assert(forall|i: int|
                0 <= i < ds.len() - 1 ==> ds.drop_last()[i] == #[trigger] ds[i]);
        }
        lemma_digits_value_nonneg(ds.drop_last());
    }
}

/// The digit value of a character, when it is one.
fn digit_at(s: &str, j: usize) -> (r: Option<u32>)
    requires
        j < s@.len(),
    ensures
        match r {
            Some(d) => is_digit_char(s@[j as int]) && d == digit_val(s@[j as int]),
            None => !is_digit_char(s@[j as int]),
        },
{
    let c = s.get_char(j);
    let u = c as u32;
    if 48 <= u && u <= 57 {
        Some(u - 48)
    } else {
        None
    }
}

/// Scans the digit run starting at `from`, folding the digits onto
/// `acc0`; reports where the run ends and the folded value, or `None`
/// once it exceeds `u128::MAX`.
fn scan_run(s: &str, n: usize, from: usize, acc0: u128) -> (r: (usize, Option<u128>))
    requires
        n == s@.len(),
        from <= n,
    ensures
        from <= r.0 <= n,
        forall|k: int| from <= k < r.0 ==> is_digit_char(#[trigger] s@[k]),
        r.0 < n ==> !is_digit_char(s@[r.0 as int]),
        match r.1 {
            Some(v) => v as int == run_value(acc0 as int, s@.subrange(from as int, r.0 as int)),
            None => run_value(acc0 as int, s@.subrange(from as int, r.0 as int)) > u128::MAX as int,
        },
{
    let mut j: usize = from;
    let mut cur: Option<u128> = Some(acc0);
    proof {
        assert(s@.subrange(from as int, from as int) =~= Seq::<char>::empty());
        assert((acc0 as int) * 1 == acc0 as int);
    }
    while j < n
        invariant_except_break
            n == s@.len(),
            from <= j <= n,
            forall|k: int| from <= k < j ==> is_digit_char(#[trigger] s@[k]),
            match cur {
                Some(v) => v as int == run_value(acc0 as int, s@.subrange(from as int, j as int)),
                None => run_value(acc0 as int, s@.subrange(from as int, j as int)) > u128::MAX as int,
            },
        ensures
            from <= j <= n,
            forall|k: int| from <= k < j ==> is_digit_char(#[trigger] s@[k]),
            j < n ==> !is_digit_char(s@[j as int]),
            match cur {
                Some(v) => v as int == run_value(acc0 as int, s@.subrange(from as int, j as int)),
                None => run_value(acc0 as int, s@.subrange(from as int, j as int)) > u128::MAX as int,
            },
        decreases n - j,
    {
        let d = match digit_at(s, j) {
            Some(d) => d,
            None => { break },
        };
        proof {
            let ds = s@.subrange(from as int, j as int);
            let ds2 = s@.subrange(from as int, j + 1 as int);
            assert(ds2.drop_last() =~= ds);
            assert(ds2.last() == s@[j as int]);
            assert(run_value(acc0 as int, ds2) == run_value(acc0 as int, ds) * 10 + digit_val(
                s@[j as int],
            )) by {
                assert(pow10(ds2.len()) == 10 * pow10(ds.len()));
                assert((acc0 as int) * (10 * pow10(ds.len())) == ((acc0 as int) * pow10(ds.len()))
                    * 10) by (nonlinear_arith);
            };
        }
        cur = match cur {
            Some(v) => match v.checked_mul(10) {
                Some(x) => x.checked_add(d as u128),
                None => None,
            },
            None => None,
        };
        j = j + 1;
    }
    (j, cur)
}

/// Parses a plain decimal literal into an exact amount, keeping the
/// written scale.  `None` when the shape is wrong or the number is too
/// large to represent.
pub fn parse_amount(s: &str) -> (r: Option<Amount>)
    ensures
        r == parse_amount_spec(s@),
        r is Some ==> r->Some_0.valid(),
{
    let n = s.unicode_len();
    let mut neg = false;
    let mut start: usize = 0;
    if n > 0 {
        if s.get_char(0) == '-' {
            neg = true;
            start = 1;
        }
    }
    let ghost b = decimal_body(s@);
    proof {
        assert(neg == decimal_neg(s@));
        assert(b =~= s@.subrange(start as int, n as int));
        lemma_dot_index_bounds(b);
    }
    let (j, m1) = scan_run(s, n, start, 0);
    proof {
        assert((0 as int) * pow10(s@.subrange(start as int, j as int).len()) == 0)
            by (nonlinear_arith);
    }
    if j == start {
        // No leading digit: not a plain decimal.
        proof {
            if dot_index(b) >= 1 {
                if b.len() > 0 {
                    assert(b.take(dot_index(b))[0] == b[0]);
                    assert(b[0] == s@[start as int]);
                }
            }
        }
        return None;
    }
    if j == n {
        // Digits only: scale zero.
        proof {
            assert forall|k: int| 0 <= k < b.len() implies b[k] != '.' by {
                assert(b[k] == s@[k + start]);
            }
            lemma_dot_index_determined(b, b.len() as int);
            assert(all_digits(b)) by {
                assert(forall|k: int| 0 <= k < b.len() ==> #[trigger] b[k] == s@[k + start]);
            }
            assert(b.take(b.len() as int) =~= b);
            assert(b =~= s@.subrange(start as int, j as int));
        }
        return match m1 {
            Some(v) => Amount::new(neg, v, 0),
            None => None,
        };
    }
    // The run stopped on a non-digit before the end.
    let c = s.get_char(j);
    let ghost t0 = j - start;
    if c != '.' {
        proof {
            let d = dot_index(b);
            assert(b[t0 as int] == s@[j as int]);
            if d < t0 as int {
                assert(b[d] == s@[d + start]);
                assert(is_digit_char(b[d]));
            } else if d == t0 as int {
                assert(d < b.len());
            } else {
                if d >= 1 && all_digits(b.take(d)) {
                    assert(b.take(d)[t0 as int] == b[t0 as int]);
                }
            }
        }
        return None;
    }
    // A point: the fraction must be one or more digits to the end.
    proof {
        assert(b[t0 as int] == s@[j as int]);
        assert forall|k: int| 0 <= k < t0 as int implies b[k] != '.' by {
            assert(b[k] == s@[k + start]);
            assert(is_digit_char(s@[k + start]));
        }
        lemma_dot_index_determined(b, t0 as int);
    }
    let v1 = match m1 {
        Some(v) => v,
        None => {
            // The integer digits alone already exceed `u128::MAX`.
            proof {
                let d = t0 as int;
                let ip = b.take(d);
                let fp = b.skip(d + 1);
                assert(ip =~= s@.subrange(start as int, j as int));
                if is_plain_unsigned(b) {
                    lemma_digits_value_concat(ip, fp);
                    lemma_digits_value_nonneg(fp);
                    crate::amount::lemma_pow10_pos(fp.len());
                    assert(digits_value(ip) * pow10(fp.len()) >= digits_value(ip) * 1)
                        by (nonlinear_arith)
                        requires
                            digits_value(ip) >= 0,
                            pow10(fp.len()) >= 1,
                    ;
                }
            }
            return None;
        },
    };
    let (k, m2) = scan_run(s, n, j + 1, v1);
    proof {
        let d = t0 as int;
        let ip = b.take(d);
        assert(ip =~= s@.subrange(start as int, j as int));
    }
    if k == j + 1 {
        // Nothing after the point: not a plain decimal.
        proof {
            let d = t0 as int;
            if d + 1 < b.len() {
                assert(b.skip(d + 1)[0] == s@[j + 1]);
            }
        }
        return None;
    }
    if k < n {
        // The fraction run stopped before the end: a stray character.
        proof {
            let d = t0 as int;
            if d + 1 < b.len() && all_digits(b.skip(d + 1)) {
                assert(b.skip(d + 1)[k - start - (d + 1)] == s@[k as int]);
            }
        }
        return None;
    }
    // Full shape: digits, a point, digits to the end.
    proof {
        let d = t0 as int;
        let ip = b.take(d);
        let fp = b.skip(d + 1);
        assert(all_digits(ip)) by {
            assert(forall|x: int| 0 <= x < d ==> ip[x] == s@[x + start]);
        }
        assert(all_digits(fp)) by {
            assert(forall|x: int|
                0 <= x < fp.len() ==> #[trigger] fp[x] == s@[x + (j + 1)]);
        }
        assert(is_plain_unsigned(b));
        assert(fp =~= s@.subrange(j + 1 as int, n as int));
        lemma_digits_value_concat(ip, fp);
        assert(unsigned_mantissa(b) == run_value(v1 as int, fp));
        assert(unsigned_scale(b) == n - j - 1);
    }
    let scale_len = n - j - 1;
    if scale_len > MAX_SCALE as usize {
        return None;
    }
    match m2 {
        Some(v) => Amount::new(neg, v, scale_len as u32),
        None => None,
    }
}

pub open spec fn digit_byte(d: int) -> u8 {
    (48 + d) as u8
}

/// The decimal digits of `n`, most significant first; empty for zero.
pub open spec fn dec_digits_bytes(n: int) -> Seq<u8>
    decreases n,
{
    if n <= 0 {
        Seq::empty()
    } else {
        dec_digits_bytes(n / 10).push(digit_byte(n % 10))
    }
}

/// The decimal digits of `n`, with a single `0` for zero.
pub open spec fn dec_string_bytes(n: int) -> Seq<u8> {
    if n == 0 {
        seq![48u8]
    } else {
        dec_digits_bytes(n)
    }
}

/// The last `width` decimal digits of `n`, zero-padded on the left.
pub open spec fn padded_digits_bytes(n: int, width: int) -> Seq<u8>
    decreases width,
{
    if width <= 0 {
        Seq::empty()
    } else {
        padded_digits_bytes(n / 10, width - 1).push(digit_byte(n % 10))
    }
}

/// How an amount renders: sign, integer digits, and — when the scale is
/// positive — a point followed by exactly `scale` fraction digits.
pub open spec fn decimal_bytes(a: Amount) -> Seq<u8> {
    let sign: Seq<u8> = if a.neg {
        seq![45u8]
    } else {
        Seq::empty()
    };
    if a.scale == 0 {
        sign + dec_string_bytes(a.mag as int)
    } else {
        let p = pow10(a.scale as nat);
        sign + dec_string_bytes(a.mag as int / p) + seq![46u8] + padded_digits_bytes(
            a.mag as int % p,
            a.scale as int,
        )
    }
}

pub open spec fn decimal_chars(a: Amount) -> Seq<char> {
    decimal_bytes(a).map_values(|b: u8| b as char)
}

proof fn lemma_pow10_mono(a: nat, b: nat)
    requires
        a <= b,
    ensures
        pow10(a) <= pow10(b),
{
    crate::amount::lemma_pow10_adds(a, (b - a) as nat);
    crate::amount::lemma_pow10_pos(a);
    crate::amount::lemma_pow10_pos((b - a) as nat);
    assert(pow10(a) * pow10((b - a) as nat) >= pow10(a) * 1) by (nonlinear_arith)
        requires
            pow10(a) >= 1,
            pow10((b - a) as nat) >= 1,
    ;
}

proof fn lemma_pow10_max_scale_fits()
    ensures
        pow10(MAX_SCALE as nat) <= u128::MAX as int,
{
    assert(pow10(MAX_SCALE as nat) == 10000000000000000000000000000) by {
        reveal_with_fuel(pow10, 29);
    }
}

proof fn lemma_dec_digits_ascii(n: int)
    requires
        n >= 0,
    ensures
        forall|i: int|
            0 <= i < dec_digits_bytes(n).len() ==> 48 <= #[trigger] dec_digits_bytes(n)[i] <= 57,
    decreases n,
{
    if n > 0 {
        lemma_dec_digits_ascii(n / 10);
        assert forall|i: int|
            0 <= i < dec_digits_bytes(n).len() implies 48 <= #[trigger] dec_digits_bytes(n)[i]
            <= 57 by {
            if i < dec_digits_bytes(n).len() - 1 {
                assert(dec_digits_bytes(n)[i] == dec_digits_bytes(n / 10)[i]);
            }
        }
    }
}

proof fn lemma_padded_ascii(n: int, width: int)
    requires
        n >= 0,
    ensures
        forall|i: int|
            0 <= i < padded_digits_bytes(n, width).len() ==> 48 <= #[trigger] padded_digits_bytes(
                n,
                width,
            )[i] <= 57,
    decreases width,
{
    if width > 0 {
        lemma_padded_ascii(n / 10, width - 1);
        assert forall|i: int|
            0 <= i < padded_digits_bytes(n, width).len() implies 48
            <= #[trigger] padded_digits_bytes(n, width)[i] <= 57 by {
            if i < padded_digits_bytes(n, width).len() - 1 {
                assert(padded_digits_bytes(n, width)[i] == padded_digits_bytes(n / 10, width - 1)[i]);
            }
        }
    }
}

fn pow10_u128(e: u32) -> (r: u128)
    requires
        e <= MAX_SCALE,
    ensures
        r as int == pow10(e as nat),
{
    let mut cur: u128 = 1;
    let mut i: u32 = 0;
    while i < e
        invariant
            i <= e,
            e <= MAX_SCALE,
            cur as int == pow10(i as nat),
        decreases e - i,
    {
        proof {
            lemma_pow10_mono((i + 1) as nat, MAX_SCALE as nat);
            lemma_pow10_max_scale_fits();
            assert(pow10((i + 1) as nat) == 10 * pow10(i as nat));
        }
        cur = cur * 10;
        i = i + 1;
    }
    cur
}

fn push_digits(out: &mut Vec<u8>, n: u128)
    ensures
        final(out)@ == old(out)@ + dec_digits_bytes(n as int),
    decreases n,
{
    if n > 0 {
        proof {
            assert(n as int / 10 < n as int) by (nonlinear_arith)
                requires
                    n as int > 0,
            ;
        }
        push_digits(out, n / 10);
        out.push(48 + (n % 10) as u8);
        proof {
            assert(final(out)@ =~= old(out)@ + dec_digits_bytes(n as int));
        }
    } else {
        proof {
            assert(final(out)@ =~= old(out)@ + dec_digits_bytes(0));
        }
    }
}

fn push_dec_string(out: &mut Vec<u8>, n: u128)
    ensures
        final(out)@ == old(out)@ + dec_string_bytes(n as int),
{
    if n == 0 {
        out.push(48);
        proof {
            assert(final(out)@ =~= old(out)@ + dec_string_bytes(0));
        }
    } else {
        push_digits(out, n);
    }
}

fn push_padded(out: &mut Vec<u8>, n: u128, width: u32)
    ensures
        final(out)@ == old(out)@ + padded_digits_bytes(n as int, width as int),
    decreases width,
{
    if width > 0 {
        push_padded(out, n / 10, width - 1);
        out.push(48 + (n % 10) as u8);
        proof {
            assert(final(out)@ =~= old(out)@ + padded_digits_bytes(n as int, width as int));
        }
    } else {
        proof {
            assert(final(out)@ =~= old(out)@ + padded_digits_bytes(n as int, 0));
        }
    }
}

/// Relies on String::from_utf8: bytes below 128 decode one-to-one to the
/// characters with the same code points.
#[verifier::external_body]
fn ascii_string(bytes: Vec<u8>) -> (r: String)
    requires
        forall|i: int| 0 <= i < bytes@.len() ==> bytes@[i] < 128,
    ensures
        r@.len() == bytes@.len(),
        forall|i: int| 0 <= i < bytes@.len() ==> r@[i] == bytes@[i] as char,
{
    match String::from_utf8(bytes) {
        Ok(s) => s,
        Err(_) => String::new(),
    }
}

impl Amount {
    /// Renders the amount as a decimal string, keeping its scale: the
    /// sign, the integer digits, and `scale` digits after the point.
    pub fn to_decimal_string(&self) -> (r: String)
        requires
            self.valid(),
        ensures
            r@ == decimal_chars(*self),
    {
        let mut out: Vec<u8> = Vec::new();
        if self.neg {
            out.push(45);
        }
        if self.scale == 0 {
            push_dec_string(&mut out, self.mag);
        } else {
            let p = pow10_u128(self.scale);
            proof {
                crate::amount::lemma_pow10_pos(self.scale as nat);
            }
            push_dec_string(&mut out, self.mag / p);
            out.push(46);
            push_padded(&mut out, self.mag % p, self.scale);
        }
        proof {
            assert(out@ =~= decimal_bytes(*self));
            lemma_dec_digits_ascii(self.mag as int);
            if self.scale > 0 {
                let p = pow10(self.scale as nat);
                lemma_dec_digits_ascii(self.mag as int / p);
                lemma_padded_ascii(self.mag as int % p, self.scale as int);
            }
            assert(forall|i: int| 0 <= i < out@.len() ==> out@[i] < 128);
        }
        let r = ascii_string(out);
        proof {
            assert(r@ =~= decimal_chars(*self));
        }
        r
    }
}

} // verus!
