//! Token amounts: unsigned 256-bit values modeled as canonical decimal digit
//! strings, with parsing from human-readable decimal text.

use vstd::prelude::*;
use vstd::arithmetic::mul::lemma_mul_inequality;
use vstd::string::StrSliceExecFns;
use crate::hashing::{edge_trimmed, is_unicode_whitespace, trim_of};
use crate::text::chars_to_string;

verus! {

/// 10 raised to the power `n`.
pub open spec fn pow10(n: nat) -> nat
    decreases n,
{
    if n == 0 {
        1
    } else {
        10 * pow10((n - 1) as nat)
    }
}

/// The value of a decimal digit sequence, most significant digit first.
pub open spec fn dec_val(ds: Seq<u8>) -> nat
    decreases ds.len(),
{
    if ds.len() == 0 {
        0
    } else {
        dec_val(ds.drop_last()) * 10 + ds.last() as nat
    }
}

/// Every element is a decimal digit.
pub open spec fn all_digits(ds: Seq<u8>) -> bool {
    forall|i: int| 0 <= i < ds.len() ==> #[trigger] ds[i] < 10
}

/// Canonical form: at least one digit, and no leading zero unless the value
/// itself is zero.
pub open spec fn canonical_digits(ds: Seq<u8>) -> bool {
    &&& all_digits(ds)
    &&& ds.len() >= 1
    &&& (ds.len() > 1 ==> ds[0] != 0)
}

/// The decimal digits of the largest representable amount, 2^256 - 1.
pub open spec fn max_digits() -> Seq<u8> {
    seq![
        1, 1, 5, 7, 9, 2, 0, 8, 9, 2, 3, 7, 3, 1, 6, 1, 9, 5, 4, 2, 3, 5, 7, 0, 9, 8,
        5, 0, 0, 8, 6, 8, 7, 9, 0, 7, 8, 5, 3, 2, 6, 9, 9, 8, 4, 6, 6, 5, 6, 4, 0, 5,
        6, 4, 0, 3, 9, 4, 5, 7, 5, 8, 4, 0, 0, 7, 9, 1, 3, 1, 2, 9, 6, 3, 9, 9, 3, 5,
    ]
}

/// One more than the largest representable amount.
pub open spec fn amount_limit() -> nat {
    dec_val(max_digits()) + 1
}

pub proof fn lemma_pow10_pos(n: nat)
    ensures
        pow10(n) >= 1,
    decreases n,
{
    if n > 0 {
        lemma_pow10_pos((n - 1) as nat);
    }
}

pub proof fn lemma_pow10_add(a: nat, b: nat)
    ensures
        pow10(a + b) == pow10(a) * pow10(b),
    decreases a,
{
    if a == 0 {
        assert(pow10(0 + b) == 1 * pow10(b));
    } else {
        lemma_pow10_add((a - 1) as nat, b);
        assert(pow10(a + b) == 10 * pow10((a + b - 1) as nat));
        assert(10 * (pow10((a - 1) as nat) * pow10(b)) == (10 * pow10((a - 1) as nat))
            * pow10(b)) by (nonlinear_arith);
    }
}

pub proof fn lemma_pow10_mono(a: nat, b: nat)
    requires
        a <= b,
    ensures
        pow10(a) <= pow10(b),
{
    lemma_pow10_add(a, (b - a) as nat);
    lemma_pow10_pos((b - a) as nat);
    lemma_pow10_pos(a);
    lemma_mul_inequality(1, pow10((b - a) as nat) as int, pow10(a) as int);
    assert(pow10(a) * pow10((b - a) as nat) >= pow10(a) * 1) by (nonlinear_arith)
        requires pow10((b - a) as nat) >= 1, pow10(a) >= 1;
}

/// A digit sequence is bounded by 10 to its length.
pub proof fn lemma_dec_val_bound(ds: Seq<u8>)
    requires
        all_digits(ds),
    ensures
        dec_val(ds) < pow10(ds.len()),
    decreases ds.len(),
{
    if ds.len() > 0 {
        assert(all_digits(ds.drop_last()));
        lemma_dec_val_bound(ds.drop_last());
        assert(dec_val(ds.drop_last()) * 10 + 10 <= pow10((ds.len() - 1) as nat) * 10)
            by (nonlinear_arith)
            requires dec_val(ds.drop_last()) + 1 <= pow10((ds.len() - 1) as nat);
    }
}

/// Concatenation: the left part is scaled by 10 to the length of the right.
pub proof fn lemma_dec_val_concat(a: Seq<u8>, b: Seq<u8>)
    ensures
        dec_val(a + b) == dec_val(a) * pow10(b.len()) + dec_val(b),
    decreases b.len(),
{
    if b.len() == 0 {
        assert(a + b =~= a);
        assert(dec_val(b) == 0);
        assert(pow10(b.len()) == 1);
        assert(dec_val(a) * 1 == dec_val(a)) by (nonlinear_arith);
        assert(dec_val(a + b) == dec_val(a) * pow10(b.len()) + dec_val(b));
    } else {
        lemma_dec_val_concat(a, b.drop_last());
        assert((a + b).drop_last() =~= a + b.drop_last());
        assert((a + b).last() == b.last());
        let x = dec_val(a);
        let p = pow10((b.len() - 1) as nat);
        let y = dec_val(b.drop_last());
        assert(dec_val(a + b) == dec_val(a + b.drop_last()) * 10 + b.last() as nat);
        assert(dec_val(a + b) == (x * p + y) * 10 + b.last() as nat);
        assert((x * p + y) * 10 == x * (10 * p) + y * 10) by (nonlinear_arith);
        assert(pow10(b.len()) == 10 * p);
        assert(dec_val(b) == y * 10 + b.last() as nat);
        assert(dec_val(a + b) == x * (10 * p) + (y * 10 + b.last() as nat));
        assert(x * (10 * p) == x * pow10(b.len()));
        assert(dec_val(a + b) == x * pow10(b.len()) + dec_val(b));
    }
}

/// Front decomposition: the first digit carries 10 to the remaining length.
pub proof fn lemma_dec_val_first(ds: Seq<u8>)
    requires
        ds.len() >= 1,
    ensures
        dec_val(ds) == ds[0] * pow10((ds.len() - 1) as nat) + dec_val(ds.drop_first()),
{
    assert(ds =~= seq![ds[0]] + ds.drop_first());
    lemma_dec_val_concat(seq![ds[0]], ds.drop_first());
    assert(dec_val(seq![ds[0]]) == ds[0]) by {
        assert(seq![ds[0]].drop_last() =~= Seq::<u8>::empty());
        assert(dec_val(Seq::<u8>::empty()) == 0);
        assert(seq![ds[0]].last() == ds[0]);
    }
}

/// A sequence whose first digit is nonzero is at least 10 to the remaining
/// length.
pub proof fn lemma_dec_val_lower(ds: Seq<u8>)
    requires
        ds.len() >= 1,
        ds[0] >= 1,
    ensures
        dec_val(ds) >= pow10((ds.len() - 1) as nat),
{
    lemma_dec_val_first(ds);
    lemma_mul_inequality(1, ds[0] as int, pow10((ds.len() - 1) as nat) as int);
}

/// An all-zero digit sequence has value zero.
pub proof fn lemma_dec_val_all_zero(ds: Seq<u8>)
    requires
        forall|i: int| 0 <= i < ds.len() ==> #[trigger] ds[i] == 0,
    ensures
        dec_val(ds) == 0,
    decreases ds.len(),
{
    if ds.len() > 0 {
        lemma_dec_val_all_zero(ds.drop_last());
    }
}

/// Dropping leading zeros keeps the value.
pub proof fn lemma_dec_val_skip_zeros(ds: Seq<u8>, k: int)
    requires
        0 <= k <= ds.len(),
        forall|i: int| 0 <= i < k ==> #[trigger] ds[i] == 0,
    ensures
        dec_val(ds.skip(k)) == dec_val(ds),
{
    assert(ds =~= ds.take(k) + ds.skip(k));
    lemma_dec_val_concat(ds.take(k), ds.skip(k));
    lemma_dec_val_all_zero(ds.take(k));
}

/// A digit sequence is at least as large as any of its prefixes.
pub proof fn lemma_dec_val_prefix(s: Seq<u8>, k: int)
    requires
        0 <= k <= s.len(),
    ensures
        dec_val(s) >= dec_val(s.take(k)),
{
    assert(s =~= s.take(k) + s.skip(k));
    lemma_dec_val_concat(s.take(k), s.skip(k));
    lemma_pow10_pos(s.skip(k).len());
    assert(dec_val(s.take(k)) * pow10(s.skip(k).len()) >= dec_val(s.take(k)) * 1)
        by (nonlinear_arith)
        requires pow10(s.skip(k).len()) >= 1;
}

/// Digit sequences of equal length compare by their first difference.
proof fn lemma_dec_val_lt(a: Seq<u8>, b: Seq<u8>, i: int)
    requires
        a.len() == b.len(),
        all_digits(a),
        all_digits(b),
        0 <= i < a.len(),
        forall|j: int| 0 <= j < i ==> #[trigger] a[j] == b[j],
        a[i] < b[i],
    ensures
        dec_val(a) < dec_val(b),
{
    let n = a.len() as int;
    let m = (n - i - 1) as nat;
    assert(a =~= a.take(i + 1) + a.skip(i + 1));
    assert(b =~= b.take(i + 1) + b.skip(i + 1));
    lemma_dec_val_concat(a.take(i + 1), a.skip(i + 1));
    lemma_dec_val_concat(b.take(i + 1), b.skip(i + 1));
    assert(a.take(i + 1).drop_last() =~= a.take(i));
    assert(b.take(i + 1).drop_last() =~= b.take(i));
    assert(a.take(i) =~= b.take(i));
    let va = dec_val(a.take(i + 1));
    let vb = dec_val(b.take(i + 1));
    assert(va == dec_val(a.take(i)) * 10 + a[i]);
    assert(vb == dec_val(a.take(i)) * 10 + b[i]);
    assert(all_digits(a.skip(i + 1))) by {
        assert(forall|j: int| 0 <= j < a.skip(i + 1).len() ==> a.skip(i + 1)[j] == a[j + i
            + 1] && #[trigger] a[j + i + 1] < 10);
    }
    lemma_dec_val_bound(a.skip(i + 1));
    assert(a.skip(i + 1).len() == m);
    assert(b.skip(i + 1).len() == m);
    lemma_mul_inequality(va as int + 1, vb as int, pow10(m) as int);
    assert((va + 1) * pow10(m) == va * pow10(m) + pow10(m)) by (nonlinear_arith);
    assert(dec_val(b) >= vb * pow10(m));
    assert(dec_val(a) < va * pow10(m) + pow10(m));
}

/// Compare two equal-length digit sequences: true when the first is at most
/// the second in value.
fn le_digits(a: &Vec<u8>, b: &Vec<u8>) -> (r: bool)
    requires
        a@.len() == b@.len(),
        all_digits(a@),
        all_digits(b@),
    ensures
        r == (dec_val(a@) <= dec_val(b@)),
{
    let n = a.len();
    let mut i: usize = 0;
    while i < n
        invariant
            0 <= i <= n,
            n == a@.len() == b@.len(),
            all_digits(a@),
            all_digits(b@),
            forall|j: int| 0 <= j < i ==> #[trigger] a@[j] == b@[j],
        decreases n - i,
    {
        if a[i] < b[i] {
            proof {
                lemma_dec_val_lt(a@, b@, i as int);
            }
            return true;
        }
        if a[i] > b[i] {
            proof {
                lemma_dec_val_lt(b@, a@, i as int);
            }
            return false;
        }
        i += 1;
    }
    proof {
        assert(a@ =~= b@);
    }
    true
}

/// The value of a digit sequence read least significant digit first.
pub open spec fn val_le(ds: Seq<u8>) -> nat
    decreases ds.len(),
{
    if ds.len() == 0 {
        0
    } else {
        ds.first() as nat + 10 * val_le(ds.drop_first())
    }
}

/// The digits in the opposite order.
pub open spec fn rev_digits(ds: Seq<u8>) -> Seq<u8>
    decreases ds.len(),
{
    if ds.len() == 0 {
        Seq::<u8>::empty()
    } else {
        seq![ds.last()] + rev_digits(ds.drop_last())
    }
}

/// Reversal flips every index.
pub proof fn lemma_rev_index(ds: Seq<u8>)
    ensures
        rev_digits(ds).len() == ds.len(),
        forall|j: int|
            0 <= j < ds.len() ==> #[trigger] rev_digits(ds)[j] == ds[ds.len() - 1 - j],
    decreases ds.len(),
{
    if ds.len() > 0 {
        lemma_rev_index(ds.drop_last());
        assert forall|j: int| 0 <= j < ds.len() implies #[trigger] rev_digits(ds)[j] == ds[
            ds.len() - 1 - j] by {
            if j > 0 {
                assert(rev_digits(ds)[j] == rev_digits(ds.drop_last())[j - 1]);
                assert(ds.drop_last()[ds.len() - 1 - j] == ds[ds.len() - 1 - j]);
            }
        }
    }
}

/// Appending a digit at the least significant end scales it by the length.
pub proof fn lemma_val_le_push(ds: Seq<u8>, d: u8)
    ensures
        val_le(ds.push(d)) == val_le(ds) + d * pow10(ds.len()),
    decreases ds.len(),
{
    if ds.len() == 0 {
        assert(ds.push(d).first() == d);
        assert(ds.push(d).drop_first() =~= Seq::<u8>::empty());
        assert(val_le(Seq::<u8>::empty()) == 0);
        assert(val_le(ds.push(d)) == d as nat + 10 * val_le(Seq::<u8>::empty()));
        assert(val_le(ds) == 0);
        assert(pow10(ds.len()) == 1);
        assert(d * pow10(ds.len()) == d) by (nonlinear_arith)
            requires pow10(ds.len()) == 1;
    } else {
        lemma_val_le_push(ds.drop_first(), d);
        assert(ds.push(d).drop_first() =~= ds.drop_first().push(d));
        assert(ds.push(d).first() == ds.first());
        let dfl = ds.drop_first().len();
        assert(val_le(ds.push(d)) == ds.first() as nat + 10 * (val_le(ds.drop_first()) + d
            * pow10(dfl)));
        assert(10 * (val_le(ds.drop_first()) + d * pow10(dfl)) == 10 * val_le(
            ds.drop_first(),
        ) + d * (10 * pow10(dfl))) by (nonlinear_arith);
        assert(pow10(ds.len()) == 10 * pow10(dfl));
        assert(val_le(ds) == ds.first() as nat + 10 * val_le(ds.drop_first()));
        assert(d * pow10(ds.len()) == d * (10 * pow10(dfl)));
    }
}

/// Reading most significant first or least significant first gives the
/// same value once the order is flipped.
pub proof fn lemma_dec_val_rev(ds: Seq<u8>)
    ensures
        dec_val(ds) == val_le(rev_digits(ds)),
    decreases ds.len(),
{
    if ds.len() > 0 {
        lemma_dec_val_rev(ds.drop_last());
        assert(rev_digits(ds).first() == ds.last());
        assert(rev_digits(ds).drop_first() =~= rev_digits(ds.drop_last()));
        assert(val_le(rev_digits(ds)) == ds.last() as nat + 10 * dec_val(ds.drop_last()));
    }
}

/// A decimal digit character.
pub open spec fn is_dec_digit(c: char) -> bool {
    '0' <= c && c <= '9'
}

/// The numeric value of a decimal digit character.
pub open spec fn digit_of(c: char) -> u8 {
    ((c as u32) - 48) as u8
}

/// Every character is a decimal digit.
pub open spec fn all_dec_digits(s: Seq<char>) -> bool {
    forall|i: int| 0 <= i < s.len() ==> is_dec_digit(#[trigger] s[i])
}

/// The digit values of a sequence of digit characters.
pub open spec fn digits_of(s: Seq<char>) -> Seq<u8> {
    s.map_values(|c: char| digit_of(c))
}

/// The numeric value of a sequence of decimal digit characters.
pub open spec fn dec_str_val(s: Seq<char>) -> nat {
    dec_val(digits_of(s))
}

/// A canonically written decimal number: only digits, at least one, and no
/// leading zero unless the number is zero itself.
pub open spec fn canonical_dec_chars(s: Seq<char>) -> bool {
    &&& all_dec_digits(s)
    &&& s.len() >= 1
    &&& (s.len() > 1 ==> s[0] != '0')
}

/// A decimal digit is not whitespace, so a canonical rendering is already
/// trimmed; and it never starts with the hexadecimal prefix.
pub proof fn lemma_canonical_dec_trimmed(s: Seq<char>)
    requires
        canonical_dec_chars(s),
    ensures
        edge_trimmed(s),
        !has_hex_prefix(s),
{
    assert(is_dec_digit(s.first()) && !is_unicode_whitespace(s.first()));
    assert(is_dec_digit(s.last()) && !is_unicode_whitespace(s.last()));
    if s.len() >= 2 && s[0] == '0' {
        assert(false);
    }
    if s.len() >= 2 {
        assert(is_dec_digit(s[1]));
        assert(s[1] != 'x' && s[1] != 'X');
    }
}

/// The ten decimal digit characters, in value order.
pub open spec fn dec_digit_chars() -> Seq<char> {
    seq!['0', '1', '2', '3', '4', '5', '6', '7', '8', '9']
}

/// The character of a decimal digit value.
pub open spec fn char_of_digit(d: u8) -> char {
    dec_digit_chars()[d as int]
}

/// The index of the first `.` in the string, or its length when none occurs.
pub open spec fn first_dot(t: Seq<char>) -> int
    decreases t.len(),
{
    if t.len() == 0 {
        0
    } else if t[0] == '.' {
        0
    } else {
        1 + first_dot(t.drop_first())
    }
}

pub proof fn lemma_first_dot(t: Seq<char>)
    ensures
        0 <= first_dot(t) <= t.len(),
        first_dot(t) < t.len() ==> t[first_dot(t)] == '.',
        forall|j: int| 0 <= j < first_dot(t) ==> #[trigger] t[j] != '.',
    decreases t.len(),
{
    if t.len() > 0 && t[0] != '.' {
        lemma_first_dot(t.drop_first());
        assert forall|j: int| 0 <= j < first_dot(t) implies #[trigger] t[j] != '.' by {
            if j >= 1 {
                assert(t.drop_first()[j - 1] != '.');
            }
        }
    }
}

/// The string without its trailing zero characters.
pub open spec fn trim_zeros(s: Seq<char>) -> Seq<char>
    decreases s.len(),
{
    if s.len() > 0 && s.last() == '0' {
        trim_zeros(s.drop_last())
    } else {
        s
    }
}

proof fn lemma_trim_zeros(s: Seq<char>, k: int)
    requires
        0 <= k <= s.len(),
        forall|j: int| k <= j < s.len() ==> #[trigger] s[j] == '0',
        k > 0 ==> s[k - 1] != '0',
    ensures
        trim_zeros(s) == s.take(k),
    decreases s.len(),
{
    if k == s.len() {
        if s.len() > 0 {
            assert(s.take(k) =~= s);
        } else {
            assert(s.take(0) =~= s);
        }
    } else {
        assert(s.last() == '0');
        lemma_trim_zeros(s.drop_last(), k);
        assert(s.drop_last().take(k) =~= s.take(k));
    }
}

/// Whether the trimmed text contains a decimal point.
pub open spec fn has_dot(t: Seq<char>) -> bool {
    first_dot(t) < t.len()
}

/// The integer part: everything before the first decimal point.
pub open spec fn int_part(t: Seq<char>) -> Seq<char> {
    t.take(first_dot(t))
}

/// The fractional part: everything after the first decimal point, with
/// trailing zeros removed; empty when there is no point.
pub open spec fn frac_part(t: Seq<char>) -> Seq<char> {
    if has_dot(t) {
        trim_zeros(t.skip(first_dot(t) + 1))
    } else {
        Seq::<char>::empty()
    }
}

/// The raw (minor-unit) value denoted by a human-readable amount at the
/// given precision: the integer part scaled by 10^decimals plus the
/// fraction scaled by the remaining places.
pub open spec fn human_amount_val(t: Seq<char>, decimals: u8) -> nat {
    dec_str_val(int_part(t)) * pow10(decimals as nat) + dec_str_val(frac_part(t)) * pow10(
        (decimals - frac_part(t).len()) as nat,
    )
}

/// When a human-readable amount at the given precision is accepted: the
/// fraction fits the precision, everything else is decimal digits, and the
/// scaled value fits in 256 bits.
pub open spec fn human_amount_ok(t: Seq<char>, decimals: u8) -> bool {
    &&& !(has_dot(t) && frac_part(t).len() > decimals)
    &&& all_dec_digits(int_part(t) + frac_part(t))
    &&& human_amount_val(t, decimals) < amount_limit()
}

/// Why a human-readable amount was rejected.
#[derive(Debug, Clone, Copy, PartialEq, Eq)]
pub enum AmountError {
    /// The fraction has more places than the token's precision.
    TooManyDecimals,
    /// A character other than a decimal digit occurs in the number.
    InvalidDigit,
    /// The value does not fit in 256 bits.
    Overflow,
}

impl AmountError {
    /// A short description of the error.
    pub fn message(&self) -> (r: &'static str)
        ensures
            r@.len() > 0,
    {
        proof {
            reveal_strlit("too many decimal places");
            reveal_strlit("invalid digit in amount");
            reveal_strlit("amount does not fit in 256 bits");
        }
        match self {
            AmountError::TooManyDecimals => "too many decimal places",
            AmountError::InvalidDigit => "invalid digit in amount",
            AmountError::Overflow => "amount does not fit in 256 bits",
        }
    }
}

/// Splitting a digit-character test over a concatenation.
proof fn lemma_all_dec_split(a: Seq<char>, b: Seq<char>)
    ensures
        all_dec_digits(a + b) <==> all_dec_digits(a) && all_dec_digits(b),
{
    if all_dec_digits(a + b) {
        assert forall|i: int| 0 <= i < a.len() implies is_dec_digit(#[trigger] a[i]) by {
            assert((a + b)[i] == a[i]);
        }
        assert forall|i: int| 0 <= i < b.len() implies is_dec_digit(#[trigger] b[i]) by {
            assert((a + b)[i + a.len()] == b[i]);
        }
    }
    if all_dec_digits(a) && all_dec_digits(b) {
        assert forall|i: int| 0 <= i < (a + b).len() implies is_dec_digit(
            #[trigger] (a + b)[i],
        ) by {
            if i < a.len() {
                assert((a + b)[i] == a[i]);
            } else {
                assert((a + b)[i] == b[i - a.len()]);
            }
        }
    }
}

/// The decimal digits of 2^256 - 1, as a vector.
fn max_u256_digits() -> (r: Vec<u8>)
    ensures
        r@ == max_digits(),
{
    let r: Vec<u8> = vec![
        1, 1, 5, 7, 9, 2, 0, 8, 9, 2, 3, 7, 3, 1, 6, 1, 9, 5, 4, 2, 3, 5, 7, 0, 9, 8,
        5, 0, 0, 8, 6, 8, 7, 9, 0, 7, 8, 5, 3, 2, 6, 9, 9, 8, 4, 6, 6, 5, 6, 4, 0, 5,
        6, 4, 0, 3, 9, 4, 5, 7, 5, 8, 4, 0, 0, 7, 9, 1, 3, 1, 2, 9, 6, 3, 9, 9, 3, 5,
    ];
    proof {
        assert(r@ =~= max_digits());
    }
    r
}

/// Parse the characters of `s` in `[from, to)` as decimal digit values.
fn parse_digits(s: &str, from: usize, to: usize) -> (r: Option<Vec<u8>>)
    requires
        from <= to,
        to as int <= s@.len(),
    ensures
        r is Some <==> all_dec_digits(s@.subrange(from as int, to as int)),
        r is Some ==> r->Some_0@ == digits_of(s@.subrange(from as int, to as int)),
{
    let ghost whole = s@.subrange(from as int, to as int);
    let mut out: Vec<u8> = Vec::new();
    let mut i = from;
    proof {
        assert(s@.subrange(from as int, from as int) =~= Seq::<char>::empty());
        assert(out@ =~= digits_of(s@.subrange(from as int, from as int)));
    }
    while i < to
        invariant
            from <= i <= to,
            to as int <= s@.len(),
            whole == s@.subrange(from as int, to as int),
            all_dec_digits(s@.subrange(from as int, i as int)),
            out@ == digits_of(s@.subrange(from as int, i as int)),
        decreases to - i,
    {
        let c = s.get_char(i);
        let u = c as u32;
        if u < 48 || u > 57 {
            proof {
                assert(whole[i - from] == c);
                assert(!is_dec_digit(c));
            }
            return None;
        }
        out.push((u - 48) as u8);
        proof {
            assert(s@.subrange(from as int, i + 1) =~= s@.subrange(from as int, i as int).push(
                c,
            ));
            assert(digits_of(s@.subrange(from as int, i as int).push(c)) =~= digits_of(
                s@.subrange(from as int, i as int),
            ).push(digit_of(c)));
            assert forall|j: int| 0 <= j < i + 1 - from implies is_dec_digit(
                #[trigger] s@.subrange(from as int, i + 1)[j],
            ) by {
                if j < i - from {
                    assert(s@.subrange(from as int, i + 1)[j] == s@.subrange(
                        from as int,
                        i as int,
                    )[j]);
                }
            }
        }
        i += 1;
    }
    Some(out)
}

/// Digit strings of equal length with equal values are identical.
proof fn lemma_dec_val_injective(x: Seq<u8>, y: Seq<u8>)
    requires
        x.len() == y.len(),
        all_digits(x),
        all_digits(y),
        dec_val(x) == dec_val(y),
    ensures
        x == y,
    decreases x.len(),
{
    if x.len() == 0 {
        assert(x =~= y);
    } else {
        lemma_dec_val_first(x);
        lemma_dec_val_first(y);
        let p = pow10((x.len() - 1) as nat);
        assert(all_digits(x.drop_first())) by {
            assert(forall|i: int|
                0 <= i < x.drop_first().len() ==> x.drop_first()[i] == x[i + 1]
                    && #[trigger] x[i + 1] < 10);
        }
        assert(all_digits(y.drop_first())) by {
            assert(forall|i: int|
                0 <= i < y.drop_first().len() ==> y.drop_first()[i] == y[i + 1]
                    && #[trigger] y[i + 1] < 10);
        }
        lemma_dec_val_bound(x.drop_first());
        lemma_dec_val_bound(y.drop_first());
        assert(x[0] == y[0]) by {
            if x[0] < y[0] {
                lemma_mul_inequality(x[0] as int + 1, y[0] as int, p as int);
                assert((x[0] + 1) * p == x[0] * p + p) by (nonlinear_arith);
            }
            if y[0] < x[0] {
                lemma_mul_inequality(y[0] as int + 1, x[0] as int, p as int);
                assert((y[0] + 1) * p == y[0] * p + p) by (nonlinear_arith);
            }
        }
        lemma_dec_val_injective(x.drop_first(), y.drop_first());
        assert forall|i: int| 0 <= i < x.len() implies x[i] == y[i] by {
            if i >= 1 {
                assert(x.drop_first()[i - 1] == y.drop_first()[i - 1]);
            }
        }
        assert(x =~= y);
    }
}

/// A value is written canonically in exactly one way: two canonical decimal
/// strings denoting the same value are the same string.
pub proof fn lemma_canonical_dec_unique(a: Seq<char>, b: Seq<char>)
    requires
        canonical_dec_chars(a),
        canonical_dec_chars(b),
        dec_str_val(a) == dec_str_val(b),
    ensures
        a == b,
{
    let da = digits_of(a);
    let db = digits_of(b);
    assert(all_digits(da));
    assert(all_digits(db));
    // Equal lengths: a longer canonical string denotes a larger value.
    if a.len() < b.len() {
        assert(b.len() > 1);
        assert(db[0] >= 1) by {
            assert(is_dec_digit(b[0]) && b[0] != '0');
        }
        lemma_dec_val_lower(db);
        lemma_dec_val_bound(da);
        lemma_pow10_mono(a.len(), (b.len() - 1) as nat);
        assert(false);
    }
    if b.len() < a.len() {
        assert(a.len() > 1);
        assert(da[0] >= 1) by {
            assert(is_dec_digit(a[0]) && a[0] != '0');
        }
        lemma_dec_val_lower(da);
        lemma_dec_val_bound(db);
        lemma_pow10_mono(b.len(), (a.len() - 1) as nat);
        assert(false);
    }
    lemma_dec_val_injective(da, db);
    assert forall|i: int| 0 <= i < a.len() implies #[trigger] a[i] == b[i] by {
        assert(da[i] == digit_of(a[i]));
        assert(db[i] == digit_of(b[i]));
        assert(is_dec_digit(a[i]) && is_dec_digit(b[i]));
        assert((a[i] as u32) == (b[i] as u32));
        vstd::utf8::char_u32_cast(a[i], a[i] as u32);
        vstd::utf8::char_u32_cast(b[i], b[i] as u32);
    }
    assert(a =~= b);
}

/// Reverse a digit vector.
fn reverse_digits(ds: &Vec<u8>) -> (r: Vec<u8>)
    ensures
        r@ == rev_digits(ds@),
{
    let n = ds.len();
    let mut r: Vec<u8> = Vec::new();
    let mut i: usize = 0;
    while i < n
        invariant
            0 <= i <= n,
            n == ds@.len(),
            r@.len() == i,
            forall|j: int| 0 <= j < i ==> #[trigger] r@[j] == ds@[n - 1 - j],
        decreases n - i,
    {
        r.push(ds[n - 1 - i]);
        i += 1;
    }
    proof {
        lemma_rev_index(ds@);
        assert(r@ =~= rev_digits(ds@));
    }
    r
}

/// Multiply a digit string by a small factor and add a small term,
/// schoolbook fashion, returning canonical digits.
#[verifier::loop_isolation(false)]
#[verifier::rlimit(60)]
fn mul_small_add(ds: &Vec<u8>, m: u8, a: u8) -> (r: Vec<u8>)
    requires
        all_digits(ds@),
        m <= 16,
        a < 16,
    ensures
        canonical_digits(r@),
        dec_val(r@) == dec_val(ds@) * m + a,
{
    let ghost target = (dec_val(ds@) * m + a) as nat;
    let rev = reverse_digits(ds);
    let n = rev.len();
    let mut out: Vec<u8> = Vec::new();
    let mut carry: u8 = a;
    let mut i: usize = 0;
    proof {
        lemma_rev_index(ds@);
        lemma_dec_val_rev(ds@);
        assert(rev@.take(0) =~= Seq::<u8>::empty());
        assert(val_le(Seq::<u8>::empty()) == 0);
        assert(carry * pow10(0) == carry) by (nonlinear_arith)
            requires pow10(0) == 1;
        assert(val_le(Seq::<u8>::empty()) * m == 0) by (nonlinear_arith);
    }
    while i < n
        invariant
            0 <= i <= n,
            out@.len() == i,
            all_digits(out@),
            carry <= 16,
            val_le(out@) + carry * pow10(i as nat) == val_le(rev@.take(i as int)) * m + a,
        decreases n - i,
    {
        let d = rev[i];
        proof {
            assert(rev@[i as int] == ds@[n - 1 - i as int]);
            assert(ds@[n - 1 - i as int] < 10);
            assert(d < 10);
            assert((d as int) * (m as int) <= 144) by (nonlinear_arith)
                requires d < 10, m <= 16;
        }
        let t: u8 = d * m + carry;
        let ghost o0 = out@;
        out.push(t % 10);
        proof {
            lemma_val_le_push(o0, t % 10);
            assert(rev@.take(i + 1) =~= rev@.take(i as int).push(d));
            lemma_val_le_push(rev@.take(i as int), d);
            let p = pow10(i as nat);
            assert(pow10((i + 1) as nat) == 10 * p);
            assert((t % 10) * p + (t / 10) * (10 * p) == t * p) by (nonlinear_arith);
            assert((d * m + carry) * p == (d * m) * p + carry * p) by (nonlinear_arith);
            assert((val_le(rev@.take(i as int)) + d * p) * m == val_le(rev@.take(i as int)) * m
                + (d * m) * p) by (nonlinear_arith);
            assert(val_le(out@) + (t / 10) * pow10((i + 1) as nat) == val_le(rev@.take(i + 1))
                * m + a);
        }
        carry = t / 10;
        i += 1;
    }
    proof {
        assert(rev@.take(n as int) =~= rev@);
        assert(val_le(out@) + carry * pow10(out@.len()) == target);
    }
    while carry > 0
        invariant
            all_digits(out@),
            val_le(out@) + carry * pow10(out@.len()) == target,
        decreases carry,
    {
        let ghost o0 = out@;
        let ghost c0 = carry;
        out.push(carry % 10);
        proof {
            lemma_val_le_push(o0, c0 % 10);
            let p = pow10(o0.len());
            assert(pow10(out@.len()) == 10 * p);
            assert((c0 % 10) * p + (c0 / 10) * (10 * p) == c0 * p) by (nonlinear_arith);
        }
        carry = carry / 10;
    }
    proof {
        assert(carry * pow10(out@.len()) == 0) by (nonlinear_arith)
            requires carry == 0;
        assert(val_le(out@) == target);
    }
    while out.len() > 1 && out[out.len() - 1] == 0
        invariant
            all_digits(out@),
            val_le(out@) == target,
        decreases out@.len(),
    {
        let ghost o0 = out@;
        out.pop();
        proof {
            assert(o0 =~= out@.push(0u8));
            lemma_val_le_push(out@, 0u8);
            assert((0u8 as nat) * pow10(out@.len()) == 0) by (nonlinear_arith);
        }
    }
    if out.len() == 0 {
        out.push(0);
        proof {
            assert(out@ =~= seq![0u8]);
            assert(out@.first() == 0u8);
            assert(out@.drop_first() =~= Seq::<u8>::empty());
            assert(val_le(Seq::<u8>::empty()) == 0);
            assert(val_le(out@) == 0);
        }
    }
    let r = reverse_digits(&out);
    proof {
        lemma_rev_index(out@);
        lemma_rev_index(r@);
        assert(rev_digits(r@) =~= out@);
        lemma_dec_val_rev(r@);
        assert(dec_val(r@) == val_le(out@));
        if r@.len() > 1 {
            assert(r@[0] == out@[out@.len() - 1]);
        }
    }
    r
}

/// Turn a digit string into an amount: the value must fit in 256 bits;
/// leading zeros are dropped.
fn from_digits(digits: Vec<u8>) -> (r: Result<DomainU256, AmountError>)
    requires
        all_digits(digits@),
    ensures
        r is Ok <==> dec_val(digits@) < amount_limit(),
        r is Ok ==> r->Ok_0.wf() && r->Ok_0.value() == dec_val(digits@),
        r is Err ==> r->Err_0 == AmountError::Overflow,
{
    // Strip leading zeros, keeping at least one digit.
    let mut k: usize = 0;
    while k < digits.len() && digits[k] == 0
        invariant
            0 <= k <= digits@.len(),
            forall|j: int| 0 <= j < k ==> #[trigger] digits@[j] == 0,
        decreases digits@.len() - k,
    {
        k += 1;
    }
    let mut ds: Vec<u8> = Vec::new();
    if k == digits.len() {
        ds.push(0u8);
        proof {
            lemma_dec_val_all_zero(digits@);
            assert(ds@ =~= seq![0u8]);
            assert(ds@.drop_last() =~= Seq::<u8>::empty());
            assert(dec_val(Seq::<u8>::empty()) == 0);
            assert(ds@.last() == 0);
            assert(dec_val(ds@) == dec_val(ds@.drop_last()) * 10 + ds@.last() as nat);
            assert(dec_val(ds@) == 0);
        }
    } else {
        let mut j = k;
        while j < digits.len()
            invariant
                k <= j <= digits@.len(),
                k < digits@.len(),
                forall|q: int| 0 <= q < k ==> #[trigger] digits@[q] == 0,
                ds@ == digits@.subrange(k as int, j as int),
            decreases digits@.len() - j,
        {
            let d = digits[j];
            ds.push(d);
            proof {
                assert(digits@.subrange(k as int, j + 1) =~= digits@.subrange(
                    k as int,
                    j as int,
                ).push(d));
            }
            j += 1;
        }
        proof {
            assert(ds@ =~= digits@.skip(k as int));
            lemma_dec_val_skip_zeros(digits@, k as int);
        }
    }
    proof {
        assert(dec_val(ds@) == dec_val(digits@));
        assert(canonical_digits(ds@));
    }
    // Reject values that do not fit in 256 bits.
    let len = ds.len();
    if len > 78 {
        proof {
            lemma_dec_val_lower(ds@);
            lemma_pow10_mono(78, (len - 1) as nat);
            lemma_dec_val_bound(max_digits());
            assert(max_digits().len() == 78);
            assert(dec_val(ds@) >= pow10(78));
            assert(dec_val(max_digits()) < pow10(78));
        }
        return Err(AmountError::Overflow);
    }
    if len == 78 {
        let maxd = max_u256_digits();
        proof {
            assert(all_digits(max_digits()));
        }
        if !le_digits(&ds, &maxd) {
            return Err(AmountError::Overflow);
        }
    } else {
        proof {
            lemma_dec_val_bound(ds@);
            lemma_pow10_mono(ds@.len(), 77);
            lemma_dec_val_lower(max_digits());
            assert(dec_val(ds@) < pow10(77));
            assert(dec_val(max_digits()) >= pow10(77));
        }
    }
    Ok(DomainU256 { digits: ds })
}

/// A hexadecimal digit character, either case.
pub open spec fn is_hex_digit_char(c: char) -> bool {
    ('0' <= c && c <= '9') || ('a' <= c && c <= 'f') || ('A' <= c && c <= 'F')
}

/// The value of a hexadecimal digit character.
pub open spec fn hex_digit_of(c: char) -> u8 {
    if '0' <= c && c <= '9' {
        ((c as u32) - 48) as u8
    } else if 'a' <= c && c <= 'f' {
        ((c as u32) - 87) as u8
    } else {
        ((c as u32) - 55) as u8
    }
}

/// Every character is a hexadecimal digit.
pub open spec fn all_hex_digits(s: Seq<char>) -> bool {
    forall|i: int| 0 <= i < s.len() ==> is_hex_digit_char(#[trigger] s[i])
}

/// The numeric value of a sequence of hexadecimal digit characters.
pub open spec fn hex_str_val(s: Seq<char>) -> nat
    decreases s.len(),
{
    if s.len() == 0 {
        0
    } else {
        hex_str_val(s.drop_last()) * 16 + hex_digit_of(s.last()) as nat
    }
}

/// Whether the trimmed text announces a hexadecimal value.
pub open spec fn has_hex_prefix(t: Seq<char>) -> bool {
    t.len() >= 2 && t[0] == '0' && (t[1] == 'x' || t[1] == 'X')
}

/// An unsigned 256-bit amount, held as its canonical decimal digits.
#[derive(Debug)]
pub struct DomainU256 {
    digits: Vec<u8>,
}

impl DomainU256 {
    /// The digits are canonical and the value fits in 256 bits.
    pub closed spec fn wf(&self) -> bool {
        &&& canonical_digits(self.digits@)
        &&& dec_val(self.digits@) < amount_limit()
    }

    /// The numeric value of the amount.
    pub closed spec fn value(&self) -> nat {
        dec_val(self.digits@)
    }

    /// Parse a human-readable token amount (such as `10` or `1.5`) and scale
    /// it to raw minor units by the token's decimal precision. The text is
    /// trimmed first; the fraction may not have more places than the
    /// precision; every other character must be a decimal digit; and the
    /// scaled value must fit in 256 bits.
    #[verifier::rlimit(100)]
    pub fn from_human_amount(s: &str, decimals: u8) -> (r: Result<DomainU256, AmountError>)
        ensures
            edge_trimmed(s@) ==> trim_of(s@) == s@,
            (r is Err && r->Err_0 == AmountError::TooManyDecimals) <==> has_dot(trim_of(s@))
                && frac_part(trim_of(s@)).len() > decimals,
            (r is Err && r->Err_0 == AmountError::InvalidDigit) <==> !(has_dot(trim_of(s@))
                && frac_part(trim_of(s@)).len() > decimals) && !all_dec_digits(
                int_part(trim_of(s@)) + frac_part(trim_of(s@)),
            ),
            (r is Err && r->Err_0 == AmountError::Overflow) <==> !(has_dot(trim_of(s@))
                && frac_part(trim_of(s@)).len() > decimals) && all_dec_digits(
                int_part(trim_of(s@)) + frac_part(trim_of(s@)),
            ) && human_amount_val(trim_of(s@), decimals) >= amount_limit(),
            r is Ok <==> human_amount_ok(trim_of(s@), decimals),
            r is Ok ==> r->Ok_0.wf() && r->Ok_0.value() == human_amount_val(
                trim_of(s@),
                decimals,
            ),
    {
        let cleaned = crate::hashing::trim_str(s);
        let ghost t = trim_of(s@);
        let n = cleaned.unicode_len();
        proof {
            lemma_first_dot(t);
        }
        // Find the first decimal point, if any.
        let mut dot: usize = n;
        let mut i: usize = 0;
        while i < n
            invariant
                cleaned@ == t,
                n == t.len(),
                0 <= i <= n,
                dot == n || (dot < i && t[dot as int] == '.'),
                forall|j: int| 0 <= j < i && j < dot ==> #[trigger] t[j] != '.',
            decreases n - i,
        {
            if dot == n && cleaned.get_char(i) == '.' {
                dot = i;
            }
            i += 1;
        }
        let has = dot < n;
        proof {
            assert(first_dot(t) == dot as int);
            assert(has == has_dot(t));
        }
        // Trim trailing zeros off the fraction.
        let mut fe: usize = n;
        if has {
            while fe > dot + 1 && cleaned.get_char(fe - 1) == '0'
                invariant
                    cleaned@ == t,
                    n == t.len(),
                    dot + 1 <= fe <= n,
                    forall|j: int| fe <= j < n ==> #[trigger] t[j] == '0',
                decreases fe,
            {
                fe -= 1;
            }
            proof {
                let f0 = t.skip(dot + 1);
                lemma_trim_zeros(f0, fe - (dot + 1));
                assert(f0.take(fe - (dot + 1)) =~= t.subrange(dot + 1, fe as int));
                assert(frac_part(t) == t.subrange(dot + 1, fe as int));
            }
        } else {
            fe = n;
            proof {
                assert(frac_part(t) =~= Seq::<char>::empty());
            }
        }
        let frac_len: usize = if has {
            fe - (dot + 1)
        } else {
            0
        };
        proof {
            assert(frac_part(t).len() == frac_len as int);
        }
        if has && frac_len > decimals as usize {
            return Err(AmountError::TooManyDecimals);
        }
        // Parse the digits of both parts.
        proof {
            assert(int_part(t) == t.subrange(0, dot as int));
        }
        let int_digits = match parse_digits(cleaned, 0, dot) {
            Some(v) => v,
            None => {
                proof {
                    lemma_all_dec_split(int_part(t), frac_part(t));
                }
                return Err(AmountError::InvalidDigit);
            },
        };
        let mut frac_digits: Vec<u8> = Vec::new();
        if has {
            match parse_digits(cleaned, dot + 1, fe) {
                Some(v) => {
                    frac_digits = v;
                },
                None => {
                    proof {
                        lemma_all_dec_split(int_part(t), frac_part(t));
                    }
                    return Err(AmountError::InvalidDigit);
                },
            }
        }
        proof {
            lemma_all_dec_split(int_part(t), frac_part(t));
        }
        // Build the full minor-unit digit string: integer part, fraction,
        // then zero padding up to the precision.
        let ghost di = digits_of(int_part(t));
        let ghost df = digits_of(frac_part(t));
        let pad: usize = decimals as usize - frac_len;
        let mut digits = int_digits;
        digits.append(&mut frac_digits);
        let ghost base = digits@;
        proof {
            assert(base == di + df);
        }
        let mut p: usize = 0;
        while p < pad
            invariant
                0 <= p <= pad,
                digits@.len() == base.len() + p,
                digits@.subrange(0, base.len() as int) == base,
                forall|j: int| base.len() <= j < digits@.len() ==> #[trigger] digits@[j] == 0,
            decreases pad - p,
        {
            digits.push(0u8);
            proof {
                assert(digits@.subrange(0, base.len() as int) =~= base);
            }
            p += 1;
        }
        let ghost zeros = digits@.skip(base.len() as int);
        proof {
            assert(digits@ =~= base + zeros);
            lemma_dec_val_concat(base, zeros);
            lemma_dec_val_all_zero(zeros);
            lemma_dec_val_concat(di, df);
            let a = dec_val(di);
            let b = dec_val(df);
            let fl = df.len();
            assert(digits_of(int_part(t) + frac_part(t)) =~= di + df);
            assert((a * pow10(fl) + b) * pow10(pad as nat) == a * (pow10(fl) * pow10(
                pad as nat,
            )) + b * pow10(pad as nat)) by (nonlinear_arith);
            lemma_pow10_add(fl, pad as nat);
            assert(fl + pad == decimals);
            assert(dec_val(digits@) == a * pow10(decimals as nat) + b * pow10(pad as nat));
            assert(dec_val(digits@) == human_amount_val(t, decimals));
        }
        // All digits are below ten; the bound check finishes the job.
        proof {
            assert(all_digits(digits@));
        }
        match from_digits(digits) {
            Ok(a) => Ok(a),
            Err(_) => Err(AmountError::Overflow),
        }
    }

    /// Parse an amount written either as a decimal number or, after a `0x`
    /// or `0X` prefix, as a hexadecimal number. The text is trimmed first;
    /// at least one digit is required, and the value must fit in 256 bits.
    #[verifier::loop_isolation(false)]
    pub fn from_string(s: &str) -> (r: Result<DomainU256, AmountError>)
        ensures
            edge_trimmed(s@) ==> trim_of(s@) == s@,
            has_hex_prefix(trim_of(s@)) ==> {
                let body = trim_of(s@).skip(2);
                &&& (r is Ok <==> body.len() > 0 && all_hex_digits(body) && hex_str_val(body)
                    < amount_limit())
                &&& (r is Ok ==> r->Ok_0.wf() && r->Ok_0.value() == hex_str_val(body))
                &&& ((r is Err && r->Err_0 == AmountError::Overflow) <==> body.len() > 0
                    && all_hex_digits(body) && hex_str_val(body) >= amount_limit())
            },
            !has_hex_prefix(trim_of(s@)) ==> {
                let t = trim_of(s@);
                &&& (r is Ok <==> t.len() > 0 && all_dec_digits(t) && dec_str_val(t)
                    < amount_limit())
                &&& (r is Ok ==> r->Ok_0.wf() && r->Ok_0.value() == dec_str_val(t))
                &&& ((r is Err && r->Err_0 == AmountError::Overflow) <==> t.len() > 0
                    && all_dec_digits(t) && dec_str_val(t) >= amount_limit())
            },
    {
        let cleaned = crate::hashing::trim_str(s);
        let ghost t = trim_of(s@);
        let n = cleaned.unicode_len();
        let hex = n >= 2 && cleaned.get_char(0) == '0' && (cleaned.get_char(1) == 'x'
            || cleaned.get_char(1) == 'X');
        proof {
            assert(hex == has_hex_prefix(t));
        }
        if hex {
            let ghost body = t.skip(2);
            if n == 2 {
                proof {
                    assert(body.len() == 0);
                }
                return Err(AmountError::InvalidDigit);
            }
            let mut acc: Vec<u8> = Vec::new();
            acc.push(0u8);
            proof {
                assert(acc@ =~= seq![0u8]);
                assert(acc@.drop_last() =~= Seq::<u8>::empty());
                assert(dec_val(Seq::<u8>::empty()) == 0);
                assert(dec_val(acc@) == 0);
                assert(body.take(0) =~= Seq::<char>::empty());
                assert(hex_str_val(Seq::<char>::empty()) == 0);
            }
            let mut i: usize = 2;
            while i < n
                invariant
                    2 <= i <= n,
                    all_hex_digits(body.take(i - 2)),
                    canonical_digits(acc@),
                    dec_val(acc@) == hex_str_val(body.take(i - 2)),
                decreases n - i,
            {
                let c = cleaned.get_char(i);
                let u = c as u32;
                let hv: u8 = if u >= 48 && u <= 57 {
                    (u - 48) as u8
                } else if u >= 97 && u <= 102 {
                    (u - 87) as u8
                } else if u >= 65 && u <= 70 {
                    (u - 55) as u8
                } else {
                    proof {
                        assert(body[i - 2] == c);
                        assert(!is_hex_digit_char(c));
                    }
                    return Err(AmountError::InvalidDigit);
                };
                proof {
                    assert(body[i - 2] == c);
                    assert(is_hex_digit_char(c));
                    assert(hv == hex_digit_of(c));
                    assert(hv < 16);
                }
                let next = mul_small_add(&acc, 16, hv);
                acc = next;
                proof {
                    assert(body.take(i - 1).drop_last() =~= body.take(i - 2));
                    assert(body.take(i - 1).last() == c);
                    assert forall|j: int| 0 <= j < i - 1 implies is_hex_digit_char(
                        #[trigger] body.take(i - 1)[j],
                    ) by {
                        if j < i - 2 {
                            assert(body.take(i - 1)[j] == body.take(i - 2)[j]);
                        }
                    }
                }
                i += 1;
            }
            proof {
                assert(body.take(n - 2) =~= body);
            }
            match from_digits(acc) {
                Ok(a) => Ok(a),
                Err(_) => Err(AmountError::Overflow),
            }
        } else {
            if n == 0 {
                return Err(AmountError::InvalidDigit);
            }
            let digits = match parse_digits(cleaned, 0, n) {
                Some(v) => v,
                None => {
                    proof {
                        assert(t.subrange(0, n as int) =~= t);
                    }
                    return Err(AmountError::InvalidDigit);
                },
            };
            proof {
                assert(t.subrange(0, n as int) =~= t);
            }
            match from_digits(digits) {
                Ok(a) => Ok(a),
                Err(_) => Err(AmountError::Overflow),
            }
        }
    }

    /// Render the amount as its canonical decimal string: only digits, no
    /// leading zero (except for zero itself), denoting exactly the value.
    pub fn to_decimal_string(&self) -> (r: String)
        requires
            self.wf(),
        ensures
            canonical_dec_chars(r@),
            edge_trimmed(r@),
            dec_str_val(r@) == self.value(),
            dec_str_val(r@) < amount_limit(),
    {
        let mut chars: Vec<char> = Vec::new();
        let mut i: usize = 0;
        proof {
            assert(digits_of(chars@) =~= self.digits@.subrange(0, 0));
        }
        while i < self.digits.len()
            invariant
                self.wf(),
                0 <= i <= self.digits@.len(),
                chars@.len() == i,
                all_dec_digits(chars@),
                digits_of(chars@) == self.digits@.subrange(0, i as int),
            decreases self.digits@.len() - i,
        {
            let c = digit_char(self.digits[i]);
            chars.push(c);
            proof {
                assert(digits_of(chars@) =~= self.digits@.subrange(0, i + 1));
            }
            i += 1;
        }
        proof {
            assert(digits_of(chars@) =~= self.digits@);
            if chars@.len() > 1 && chars@[0] == '0' {
                assert(digits_of(chars@)[0] == digit_of('0'));
                assert(digit_of('0') == 0);
            }
            lemma_canonical_dec_trimmed(chars@);
        }
        chars_to_string(&chars)
    }
}

/// A well-formed amount's value fits in 256 bits.
pub proof fn lemma_amount_bounded(x: &DomainU256)
    requires
        x.wf(),
    ensures
        x.value() < amount_limit(),
{
}

/// The character of a single digit value.
fn digit_char(d: u8) -> (c: char)
    requires
        d < 10,
    ensures
        c == char_of_digit(d),
        is_dec_digit(c),
        digit_of(c) == d,
{
    match d {
        0 => '0',
        1 => '1',
        2 => '2',
        3 => '3',
        4 => '4',
        5 => '5',
        6 => '6',
        7 => '7',
        8 => '8',
        _ => '9',
    }
}

} // verus!

