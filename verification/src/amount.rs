//! Convert Horizon decimal amount strings to integer stroops without floating point.
//!
//! Stellar amounts have exactly 7 decimal places (1 unit = 10_000_000 stroops). Horizon returns
//! them as strings like "10.0000000". They are parsed digit by digit, so no rounding occurs.

use vstd::prelude::*;

use crate::text::{
    all_digits, all_digits_in, chars_of, decimal, digit_value, digits_value, digits_value_in, fixed_digits,
    is_digit, is_white_space, lemma_decimal, lemma_digits_value_bound, lemma_fixed_digits,
    lemma_trim_surrounded, pow10, trim, trim_bounds, trim_end, trim_start,
};

verus! {

/// Stroops per whole unit (7 decimal places).
const STROOPS_PER_UNIT: i64 = 10_000_000;

/// Number of decimal places of a Stellar amount.
const DECIMALS: usize = 7;

/// Index of the first `'.'` in `t`, or `t.len()` when there is none.
pub open spec fn first_dot(t: Seq<char>) -> int
    decreases t.len(),
{
    if t.len() == 0 || t[0] == '.' {
        0
    } else {
        1 + first_dot(t.drop_first())
    }
}

/// The part of `t` before its first `'.'` (all of `t` when there is none).
pub open spec fn int_part(t: Seq<char>) -> Seq<char> {
    t.take(first_dot(t))
}

/// The part of `t` after its first `'.'` (empty when there is none).
pub open spec fn frac_part(t: Seq<char>) -> Seq<char> {
    if first_dot(t) < t.len() {
        t.skip(first_dot(t) + 1)
    } else {
        Seq::empty()
    }
}

/// The exact number of stroops that the decimal numeral `t` denotes: one or more digits,
/// optionally followed by `'.'` and at most seven digits. `None` when `t` has another shape.
pub open spec fn decimal_stroops(t: Seq<char>) -> Option<int> {
    let ip = int_part(t);
    let fp = frac_part(t);
    if ip.len() > 0 && all_digits(ip) && all_digits(fp) && fp.len() <= 7 {
        Some((digits_value(ip) * 10_000_000 + digits_value(fp) * pow10((7 - fp.len()) as nat)) as int)
    } else {
        None
    }
}

/// What `to_stroops` returns for the characters `s`: the stroops that `s` denotes once
/// surrounding white space is removed, when that is a positive `i64`.
pub open spec fn spec_to_stroops(s: Seq<char>) -> Option<i64> {
    match decimal_stroops(trim(s)) {
        Some(v) => if 0 < v <= i64::MAX {
            Some(v as i64)
        } else {
            None
        },
        None => None,
    }
}

/// `first_dot` is the index of the first `'.'`, characterised without recursion.
proof fn lemma_first_dot(t: Seq<char>, k: int)
    requires
        0 <= k <= t.len(),
        k == t.len() || t[k] == '.',
        forall|j: int| 0 <= j < k ==> t[j] != '.',
    ensures
        first_dot(t) == k,
    decreases k,
{
    if k > 0 {
        assert(t[0] != '.');
        lemma_first_dot(t.drop_first(), k - 1);
    }
}

/// Parse a Stellar decimal amount string into stroops. Returns `None` on malformed input or
/// overflow, and rejects negative and non-positive results.
pub fn to_stroops(amount: &str) -> (r: Option<i64>)
    ensures
        r == spec_to_stroops(amount@),
        r matches Some(v) ==> v > 0,
{
    let chars = chars_of(amount);
    let (lo, hi) = trim_bounds(&chars);
    let ghost t = chars@.subrange(lo as int, hi as int);

    // Split at the first '.'.
    let mut d = lo;
    while d < hi && chars[d] != '.'
        invariant
            lo <= d <= hi <= chars.len(),
            forall|j: int| lo <= j < d ==> chars@[j] != '.',
        decreases hi - d,
    {
        d = d + 1;
    }
    proof {
        lemma_first_dot(t, d - lo);
    }
    let frac_start = if d < hi {
        d + 1
    } else {
        hi
    };
    assert(int_part(t) =~= chars@.subrange(lo as int, d as int));
    assert(frac_part(t) =~= chars@.subrange(frac_start as int, hi as int));

    if d == lo || !all_digits_in(&chars, lo, d) || !all_digits_in(&chars, frac_start, hi) || hi
        - frac_start > DECIMALS {
        return None;
    }
    let ghost ip = chars@.subrange(lo as int, d as int);
    let ghost fp = chars@.subrange(frac_start as int, hi as int);

    let int_val = match digits_value_in(&chars, lo, d) {
        Some(v) => v,
        None => {
            return None;
        },
    };

    // The fractional digits, padded on the right to exactly seven places.
    let mut frac_val = match digits_value_in(&chars, frac_start, hi) {
        Some(v) => v,
        None => {
            proof {
                lemma_digits_value_bound(fp);
                lemma_pow10_le(fp.len(), 7);
            }
            return None;
        },
    };
    proof {
        lemma_digits_value_bound(fp);
    }
    let mut places = hi - frac_start;
    while places < DECIMALS
        invariant
            hi - frac_start <= places <= DECIMALS,
            fp.len() == hi - frac_start,
            0 <= frac_val < pow10(places as nat),
            frac_val * pow10((DECIMALS - places) as nat) == digits_value(fp) * pow10(
                (DECIMALS - fp.len()) as nat,
            ),
        decreases DECIMALS - places,
    {
        proof {
            lemma_pow10_le(places as nat, 6);
            lemma_pow10_shift(frac_val as int, (DECIMALS - places - 1) as nat);
        }
        frac_val = frac_val * 10;
        places = places + 1;
    }
    assert(((DECIMALS - places) as nat) == 0nat && pow10(0) == 1);
    assert(frac_val * pow10(0) == frac_val);
    assert(decimal_stroops(t) == Some(int_val * 10_000_000 + frac_val));

    match int_val.checked_mul(STROOPS_PER_UNIT) {
        Some(whole) => match whole.checked_add(frac_val) {
            Some(total) => {
                if total > 0 {
                    Some(total)
                } else {
                    None
                }
            },
            None => None,
        },
        None => None,
    }
}

/// `10^a <= 10^b` for `a <= b`, and `10^7` is ten million.
proof fn lemma_pow10_le(a: nat, b: nat)
    requires
        a <= b,
    ensures
        pow10(a) <= pow10(b),
        pow10(7) == 10_000_000,
    decreases b,
{
    reveal_with_fuel(pow10, 8);
    if a < b {
        lemma_pow10_le(a, (b - 1) as nat);
    }
}

/// Moving one factor ten from the power onto the value leaves the product unchanged.
proof fn lemma_pow10_shift(x: int, n: nat)
    ensures
        (x * 10) * pow10(n) == x * pow10(n + 1),
{
    assert(pow10(n + 1) == 10 * pow10(n));
    assert((x * 10) * pow10(n) == x * (10 * pow10(n))) by (nonlinear_arith);
}

/// Horizon's canonical amount text: the whole units in decimal, a `'.'`, and exactly seven
/// fractional digits.
pub open spec fn canonical_amount(whole: nat, frac: nat) -> Seq<char> {
    decimal(whole) + seq!['.'] + fixed_digits(frac, 7)
}

/// A digit string with no white space at either end is left alone by `trim`.
proof fn lemma_trim_digits_edges(t: Seq<char>)
    requires
        t.len() > 0,
        is_digit(t[0]),
        is_digit(t.last()),
    ensures
        trim(t) == t,
{
    assert(!is_white_space(t[0]));
    assert(!is_white_space(t.last()));
    assert(trim_start(t) == t);
}

/// Surrounding white space never changes what an amount converts to.
pub proof fn lemma_to_stroops_ignores_surrounding_white_space(
    pre: Seq<char>,
    s: Seq<char>,
    post: Seq<char>,
)
    requires
        forall|i: int| 0 <= i < pre.len() ==> #[trigger] is_white_space(pre[i]),
        forall|i: int| 0 <= i < post.len() ==> #[trigger] is_white_space(post[i]),
    ensures
        spec_to_stroops(pre + s + post) == spec_to_stroops(s),
{
    lemma_trim_surrounded(pre, s, post);
}

/// Horizon's canonical text for an amount converts to exactly that many stroops, with no
/// rounding, whenever the amount is a positive `i64`.
pub proof fn lemma_canonical_amount_exact(whole: nat, frac: nat)
    requires
        frac < 10_000_000,
        0 < whole * 10_000_000 + frac <= i64::MAX,
    ensures
        spec_to_stroops(canonical_amount(whole, frac)) == Some(
            (whole * 10_000_000 + frac) as i64,
        ),
{
    let w = decimal(whole);
    lemma_decimal(whole);
    lemma_pow10_le(7, 7);
    lemma_fixed_digits(frac, 7);
    let f = fixed_digits(frac, 7);
    let t = canonical_amount(whole, frac);
    assert(t[0] == w[0]);
    assert(is_digit(w[0]));
    assert(t.last() == f[6]);
    assert(is_digit(f[6]));
    lemma_trim_digits_edges(t);
    assert forall|j: int| 0 <= j < w.len() implies t[j] != '.' by {
        assert(t[j] == w[j]);
        assert(is_digit(w[j]));
    }
    lemma_first_dot(t, w.len() as int);
    assert(int_part(t) =~= w);
    assert(frac_part(t) =~= f);
    assert(((7 - f.len()) as nat) == 0nat && pow10(0) == 1);
    assert(frac * pow10(0) == frac);
    assert(decimal_stroops(t) == Some((whole * 10_000_000 + frac) as int));
}

/// A whole number of units, written in decimal without a fraction, converts exactly.
pub proof fn lemma_whole_amount_exact(whole: nat)
    requires
        0 < whole * 10_000_000 <= i64::MAX,
    ensures
        spec_to_stroops(decimal(whole)) == Some((whole * 10_000_000) as i64),
{
    let w = decimal(whole);
    lemma_decimal(whole);
    lemma_pow10_le(7, 7);
    assert(is_digit(w[0]));
    assert(is_digit(w.last()));
    lemma_trim_digits_edges(w);
    assert forall|j: int| 0 <= j < w.len() implies w[j] != '.' by {
        assert(is_digit(w[j]));
    }
    lemma_first_dot(w, w.len() as int);
    assert(int_part(w) =~= w);
    assert(frac_part(w) =~= Seq::<char>::empty());
    assert(digits_value(Seq::<char>::empty()) == 0);
}

/// `t` is the numeral `whole`, or `whole`, a `'.'` and the fraction digits `frac`.
pub open spec fn splits_as(t: Seq<char>, whole: Seq<char>, frac: Seq<char>) -> bool {
    t == whole + seq!['.'] + frac || (frac.len() == 0 && t == whole)
}

/// `whole` and `frac` are the digit strings of a Stellar amount: at least one whole digit and
/// at most seven fractional digits.
pub open spec fn amount_digits(whole: Seq<char>, frac: Seq<char>) -> bool {
    &&& whole.len() > 0
    &&& all_digits(whole)
    &&& all_digits(frac)
    &&& frac.len() <= 7
}

/// `first_dot` points at the first `'.'`, or past the end when there is none.
proof fn lemma_first_dot_props(t: Seq<char>)
    ensures
        0 <= first_dot(t) <= t.len(),
        first_dot(t) < t.len() ==> t[first_dot(t)] == '.',
        forall|j: int| 0 <= j < first_dot(t) ==> t[j] != '.',
    decreases t.len(),
{
    if t.len() > 0 && t[0] != '.' {
        lemma_first_dot_props(t.drop_first());
        assert forall|j: int| 0 <= j < first_dot(t) implies t[j] != '.' by {
            if j > 0 {
                assert(t[j] == t.drop_first()[j - 1]);
            }
        }
    }
}

/// A text with no white space at either end is left alone by `trim`.
proof fn lemma_trim_plain(t: Seq<char>)
    requires
        t.len() > 0,
        !is_white_space(t[0]),
        !is_white_space(t.last()),
    ensures
        trim(t) == t,
{
    assert(trim_start(t) == t);
}

/// Every accepted amount text has the decimal shape — after trimming, one or more digits,
/// optionally a `'.'` followed by at most seven digits — and converts to the value of those
/// digits in units of 10^-7.
pub proof fn lemma_accepted_amounts_are_decimal(s: Seq<char>)
    ensures
        spec_to_stroops(s) matches Some(v) ==> exists|whole: Seq<char>, frac: Seq<char>|
            {
                &&& amount_digits(whole, frac)
                &&& splits_as(trim(s), whole, frac)
                &&& v == digits_value(whole) * 10_000_000 + digits_value(frac) * pow10(
                    (7 - frac.len()) as nat,
                )
            },
{
    let t = trim(s);
    lemma_first_dot_props(t);
    let whole = int_part(t);
    let frac = frac_part(t);
    if first_dot(t) < t.len() {
        assert(t =~= whole + seq!['.'] + frac);
    } else {
        assert(t =~= whole);
    }
    if let Some(v) = spec_to_stroops(s) {
        assert(amount_digits(whole, frac));
        assert(splits_as(trim(s), whole, frac));
        assert(v == digits_value(whole) * 10_000_000 + digits_value(frac) * pow10(
            (7 - frac.len()) as nat,
        ));
    }
}

/// Every text of the decimal shape is accepted, and converts to the value of its digits in
/// units of 10^-7, whenever that is a positive `i64`.
pub proof fn lemma_decimal_amounts_are_accepted(s: Seq<char>, whole: Seq<char>, frac: Seq<char>)
    requires
        amount_digits(whole, frac),
        splits_as(trim(s), whole, frac),
    ensures
        ({
            let v = digits_value(whole) * 10_000_000 + digits_value(frac) * pow10(
                (7 - frac.len()) as nat,
            );
            spec_to_stroops(s) == if 0 < v <= i64::MAX {
                Some(v as i64)
            } else {
                None
            }
        }),
{
    let t = trim(s);
    assert forall|j: int| 0 <= j < whole.len() implies t[j] != '.' by {
        assert(t[j] == whole[j]);
        assert(is_digit(whole[j]));
    }
    if t == whole + seq!['.'] + frac {
        assert(t[whole.len() as int] == '.');
        lemma_first_dot(t, whole.len() as int);
        assert(int_part(t) =~= whole);
        assert(frac_part(t) =~= frac);
    } else {
        lemma_first_dot(t, whole.len() as int);
        assert(int_part(t) =~= whole);
        assert(frac_part(t) =~= frac);
    }
}

/// Trailing zeros in the fraction, and a bare trailing `'.'`, never change the result:
/// `w.f0` converts like `w.f`, and `w.` like `w`.
pub proof fn lemma_fraction_trailing_zero(whole: Seq<char>, frac: Seq<char>)
    requires
        amount_digits(whole, frac),
        frac.len() < 7,
    ensures
        spec_to_stroops(whole + seq!['.'] + frac.push('0')) == spec_to_stroops(
            whole + seq!['.'] + frac,
        ),
        spec_to_stroops(whole + seq!['.']) == spec_to_stroops(whole),
{
    let t0 = whole + seq!['.'] + frac;
    let t1 = whole + seq!['.'] + frac.push('0');
    let f1 = frac.push('0');
    assert(is_digit(whole[0]));
    assert(t0[0] == whole[0] && t1[0] == whole[0]);
    if frac.len() > 0 {
        assert(t0.last() == frac.last());
        assert(is_digit(frac.last()));
    } else {
        assert(t0.last() == '.');
    }
    assert(t1.last() == '0');
    lemma_trim_plain(t0);
    lemma_trim_plain(t1);
    assert forall|i: int| 0 <= i < f1.len() implies #[trigger] is_digit(f1[i]) by {
        if i < frac.len() {
            assert(f1[i] == frac[i]);
        }
    }
    lemma_decimal_amounts_are_accepted(t0, whole, frac);
    lemma_decimal_amounts_are_accepted(t1, whole, f1);
    assert(f1.drop_last() =~= frac);
    assert(digits_value(f1) == digits_value(frac) * 10);
    let n = (7 - f1.len()) as nat;
    assert((7 - frac.len()) as nat == n + 1);
    lemma_pow10_shift(digits_value(frac) as int, n);

    let tw = whole;
    let td = whole + seq!['.'];
    assert(is_digit(whole.last()));
    lemma_trim_plain(tw);
    assert(td.last() == '.' && td[0] == whole[0]);
    lemma_trim_plain(td);
    assert(td =~= whole + seq!['.'] + Seq::<char>::empty());
    lemma_decimal_amounts_are_accepted(tw, whole, Seq::empty());
    lemma_decimal_amounts_are_accepted(td, whole, Seq::empty());
}

/// A leading zero is worth nothing.
proof fn lemma_leading_zero_value(w: Seq<char>)
    ensures
        digits_value(seq!['0'] + w) == digits_value(w),
    decreases w.len(),
{
    let z = seq!['0'] + w;
    if w.len() == 0 {
        assert(z.drop_last() =~= Seq::<char>::empty());
        assert(z.last() == '0');
        assert(digit_value('0') == 0);
        assert(digits_value(z) == digits_value(z.drop_last()) * 10 + digit_value(z.last()));
        assert(digits_value(z.drop_last()) == 0);
    } else {
        assert(z.drop_last() =~= seq!['0'] + w.drop_last());
        assert(z.last() == w.last());
        lemma_leading_zero_value(w.drop_last());
        assert(digits_value(z) == digits_value(z.drop_last()) * 10 + digit_value(z.last()));
    }
}

/// Leading zeros on the whole part never change the result: `0w.f` converts like `w.f`.
pub proof fn lemma_whole_leading_zero(whole: Seq<char>, frac: Seq<char>)
    requires
        amount_digits(whole, frac),
    ensures
        spec_to_stroops(seq!['0'] + whole + seq!['.'] + frac) == spec_to_stroops(
            whole + seq!['.'] + frac,
        ),
        spec_to_stroops(seq!['0'] + whole) == spec_to_stroops(whole),
{
    let z = seq!['0'] + whole;
    assert forall|i: int| 0 <= i < z.len() implies #[trigger] is_digit(z[i]) by {
        if i > 0 {
            assert(z[i] == whole[i - 1]);
        }
    }
    lemma_leading_zero_value(whole);
    let t0 = whole + seq!['.'] + frac;
    let t1 = z + seq!['.'] + frac;
    assert(is_digit(whole[0]));
    assert(is_digit(whole.last()));
    assert(t0[0] == whole[0]);
    assert(t1[0] == '0');
    if frac.len() > 0 {
        assert(t0.last() == frac.last() && t1.last() == frac.last());
        assert(is_digit(frac.last()));
    } else {
        assert(t0.last() == '.' && t1.last() == '.');
    }
    lemma_trim_plain(t0);
    lemma_trim_plain(t1);
    assert(seq!['0'] + whole + seq!['.'] + frac =~= t1);
    lemma_decimal_amounts_are_accepted(t0, whole, frac);
    lemma_decimal_amounts_are_accepted(t1, z, frac);
    assert(z.last() == whole.last());
    lemma_trim_plain(whole);
    lemma_trim_plain(z);
    lemma_decimal_amounts_are_accepted(whole, whole, Seq::empty());
    lemma_decimal_amounts_are_accepted(z, z, Seq::empty());
}

} // verus!
