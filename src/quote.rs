//! Reading a decimal number text as a price in millionths.
use vstd::prelude::*;
use vstd::arithmetic::div_mod::lemma_fundamental_div_mod_converse;

verus! {

/// Largest magnitude, in millionths, that a quoted price is reported with;
/// larger magnitudes are clamped to it (they are far outside any valid price).
pub const QUOTE_LIMIT: i64 = 1_000_000_000_000_000;

pub open spec fn is_digit(c: u8) -> bool {
    48 <= c <= 57
}

pub open spec fn pow10(n: nat) -> nat
    decreases n,
{
    if n == 0 { 1 } else { 10 * pow10((n - 1) as nat) }
}

/// The number that a string of decimal digits denotes.
pub open spec fn digits_value(s: Seq<u8>) -> nat
    decreases s.len(),
{
    if s.len() == 0 {
        0
    } else {
        digits_value(s.drop_last()) * 10 + (s.last() - 48) as nat
    }
}

/// Index of the first byte at or after `i` that is not a decimal digit.
pub open spec fn digits_end(t: Seq<u8>, i: int) -> int
    decreases t.len() - i,
{
    if i < 0 || i >= t.len() || !is_digit(t[i]) {
        i
    } else {
        digits_end(t, i + 1)
    }
}

/// The parts of a number written as `-?D+(.D+)?([eE][+-]?D+)?`: whether it
/// is negative, its integer digits, its fraction digits, whether the
/// exponent is negative, and the exponent digits. `None` for any other text.
pub open spec fn number_parts(t: Seq<u8>) -> Option<(bool, Seq<u8>, Seq<u8>, bool, Seq<u8>)> {
    let neg = t.len() > 0 && t[0] == 45u8;
    let s0: int = if neg { 1 } else { 0 };
    let ie = digits_end(t, s0);
    let has_frac = ie < t.len() && t[ie] == 46u8;
    let fe = if has_frac { digits_end(t, ie + 1) } else { ie };
    let has_exp = fe < t.len() && (t[fe] == 101u8 || t[fe] == 69u8);
    let exp_sign = has_exp && fe + 1 < t.len() && (t[fe + 1] == 43u8 || t[fe + 1] == 45u8);
    let es = if exp_sign { fe + 2 } else { fe + 1 };
    let ee = digits_end(t, es);
    if ie == s0 || (has_frac && fe == ie + 1) {
        None
    } else if has_exp && (ee == es || ee != t.len()) {
        None
    } else if !has_exp && fe != t.len() {
        None
    } else {
        Some(
            (
                neg,
                t.subrange(s0, ie),
                if has_frac { t.subrange(ie + 1, fe) } else { Seq::empty() },
                exp_sign && t[fe + 1] == 45u8,
                if has_exp { t.subrange(es, ee) } else { Seq::empty() },
            ),
        )
    }
}

/// `n * 10^shift`, rounded to the nearest integer, halves rounded up.
pub open spec fn scaled_round(n: nat, shift: int) -> nat {
    if shift >= 0 {
        n * pow10(shift as nat)
    } else {
        let d = pow10((-shift) as nat);
        ((2 * n + d) / (2 * d)) as nat
    }
}

/// Whether `n * 10^shift` exceeds one whole unit, a million millionths.
pub open spec fn above_one(n: nat, shift: int) -> bool {
    if shift >= 0 {
        n * pow10(shift as nat) > 1_000_000
    } else {
        n > 1_000_000 * pow10((-shift) as nat)
    }
}

/// The price, in millionths, that a number text denotes: its value times a
/// million, rounded to the nearest integer with halves away from zero, and
/// clamped to `[-QUOTE_LIMIT, QUOTE_LIMIT]`. A value outside [0.0, 1.0] is
/// never rounded into it: a negative value that would round to 0 gives -1,
/// and a value above 1.0 that would round to 1.0 gives 1.000001. `None` when
/// the text is not a number.
pub open spec fn quote_micros(t: Seq<u8>) -> Option<int> {
    match number_parts(t) {
        None => None,
        Some((neg, int_digits, frac_digits, exp_neg, exp_digits)) => {
            let exp = if exp_neg { -digits_value(exp_digits) } else { digits_value(exp_digits) as int };
            let shift = exp - frac_digits.len() + 6;
            let v = digits_value(int_digits + frac_digits);
            let raw = scaled_round(v, shift);
            let clamped = if raw > QUOTE_LIMIT { QUOTE_LIMIT as int } else { raw as int };
            let mag = if neg && v > 0 && clamped == 0 {
                1
            } else if !neg && clamped == 1_000_000 && above_one(v, shift) {
                1_000_001
            } else {
                clamped
            };
            Some(if neg { -mag } else { mag })
        },
    }
}

pub open spec fn all_digits(s: Seq<u8>) -> bool {
    forall|k: int| 0 <= k < s.len() ==> is_digit(#[trigger] s[k])
}

pub open spec fn clamp_to(x: nat, limit: nat) -> nat {
    if x > limit { limit } else { x }
}

proof fn lemma_pow10_positive(n: nat)
    ensures
        pow10(n) >= 1,
    decreases n,
{
    if n > 0 {
        lemma_pow10_positive((n - 1) as nat);
    }
}

proof fn lemma_pow10_monotone(a: nat, b: nat)
    requires
        a <= b,
    ensures
        pow10(a) <= pow10(b),
    decreases b,
{
    if a < b {
        lemma_pow10_monotone(a, (b - 1) as nat);
        lemma_pow10_positive((b - 1) as nat);
    }
}

/// A string of `n` digits denotes less than `10^n`.
proof fn lemma_digits_value_bound(s: Seq<u8>)
    requires
        all_digits(s),
    ensures
        digits_value(s) < pow10(s.len()),
    decreases s.len(),
{
    if s.len() > 0 {
        let h = s.drop_last();
        assert(all_digits(h)) by {
            assert forall|k: int| 0 <= k < h.len() implies is_digit(#[trigger] h[k]) by {
                assert(h[k] == s[k]);
            }
        }
        lemma_digits_value_bound(h);
        assert(is_digit(s[s.len() - 1]));
    }
}

/// Splitting a digit string at `i`: the head's value shifted past the tail,
/// plus the tail's value.
proof fn lemma_digits_value_split(s: Seq<u8>, i: int)
    requires
        0 <= i <= s.len(),
    ensures
        digits_value(s) == digits_value(s.subrange(0, i)) * pow10((s.len() - i) as nat)
            + digits_value(s.subrange(i, s.len() as int)),
    decreases s.len(),
{
    if i == s.len() {
        assert(s.subrange(0, i) =~= s);
        assert(s.subrange(i, s.len() as int) =~= Seq::<u8>::empty());
        assert(pow10(0) == 1);
        assert(digits_value(Seq::<u8>::empty()) == 0);
        assert(digits_value(s.subrange(0, i)) * pow10(0) == digits_value(s));
    } else {
        let h = s.drop_last();
        lemma_digits_value_split(h, i);
        assert(h.subrange(0, i) =~= s.subrange(0, i));
        let tail = s.subrange(i, s.len() as int);
        assert(tail.drop_last() =~= h.subrange(i, h.len() as int));
        assert(tail.last() == s.last());
        let p = digits_value(s.subrange(0, i));
        let q = pow10((h.len() - i) as nat);
        let v = digits_value(h.subrange(i, h.len() as int));
        assert(pow10((s.len() - i) as nat) == 10 * q);
        let d = (s.last() - 48) as nat;
        assert(digits_value(s) == digits_value(h) * 10 + d);
        assert(digits_value(tail) == v * 10 + d);
        assert((p * q + v) * 10 == p * (10 * q) + v * 10) by (nonlinear_arith);
        assert(digits_value(h) == p * q + v);
        assert(digits_value(s) == p * (10 * q) + (v * 10 + d));
    }
}

/// Rounding `(p * 10^k + r) / 10^k` to the nearest integer, halves up,
/// depends only on the leading digit of the remainder `r`.
proof fn lemma_round_by_leading_digit(p: nat, dig: nat, rest: nat, k: nat)
    requires
        k >= 1,
        dig <= 9,
        rest < pow10((k - 1) as nat),
    ensures
        scaled_round(p * pow10(k) + dig * pow10((k - 1) as nat) + rest, -(k as int))
            == p + if dig >= 5 { 1nat } else { 0nat },
{
    let q = pow10((k - 1) as nat);
    lemma_pow10_positive((k - 1) as nat);
    assert(pow10(k) == 10 * q);
    let n = p * pow10(k) + dig * q + rest;
    let c: nat = if dig >= 5 { 1 } else { 0 };
    let x = 2 * n + 10 * q;
    let d = 20 * q;
    let r = 2 * dig * q + 2 * rest + 10 * q - 20 * q * c;
    assert(x == (p + c) * d + r) by (nonlinear_arith)
        requires
            x == 2 * n + 10 * q,
            d == 20 * q,
            n == p * (10 * q) + dig * q + rest,
            r == 2 * dig * q + 2 * rest + 10 * q - 20 * q * c,
    ;
    assert(0 <= r < d) by (nonlinear_arith)
        requires
            r == 2 * dig * q + 2 * rest + 10 * q - 20 * q * c,
            d == 20 * q,
            rest < q,
            q >= 1,
            dig <= 9,
            c == (if dig >= 5 { 1nat } else { 0nat }),
    ;
    lemma_fundamental_div_mod_converse(x as int, d as int, (p + c) as int, r as int);
}

/// Below the rounding point entirely: a value under `10^m` scaled down by
/// more than `m` places rounds to zero.
proof fn lemma_round_vanishes(n: nat, m: nat, k: nat)
    requires
        n < pow10(m),
        k > m,
    ensures
        scaled_round(n, -(k as int)) == 0,
{
    lemma_pow10_monotone(m, (k - 1) as nat);
    assert(pow10(k) == 10 * pow10((k - 1) as nat));
    let d = pow10(k);
    assert(0 <= 2 * n + d < 2 * d);
    lemma_fundamental_div_mod_converse((2 * n + d) as int, (2 * d) as int, 0, (2 * n + d) as int);
}

/// Index of the first byte at or after `i` that is not a digit.
fn scan_digits(t: &[u8], i: usize) -> (j: usize)
    requires
        i <= t@.len(),
    ensures
        j == digits_end(t@, i as int),
        i <= j <= t@.len(),
        forall|k: int| i <= k < j ==> is_digit(#[trigger] t@[k]),
{
    let mut j = i;
    while j < t.len() && t[j] >= 48 && t[j] <= 57
        invariant
            i <= j <= t@.len(),
            digits_end(t@, i as int) == digits_end(t@, j as int),
            forall|k: int| i <= k < j ==> is_digit(#[trigger] t@[k]),
        decreases t@.len() - j,
    {
        j = j + 1;
    }
    j
}

/// Continues a clamped digit accumulation over `t[from..to]`: from the
/// clamped value of `head` to the clamped value of `head` followed by those
/// digits.
fn accumulate(acc: u128, t: &[u8], from: usize, to: usize, limit: u128, Ghost(head): Ghost<
    Seq<u8>,
>) -> (r: u128)
    requires
        from <= to <= t@.len(),
        all_digits(t@.subrange(from as int, to as int)),
        limit <= 1_000_000_000_000_000_000_000_000_000_000,
        acc == clamp_to(digits_value(head), limit as nat),
    ensures
        r == clamp_to(digits_value(head + t@.subrange(from as int, to as int)), limit as nat),
{
    let mut acc = acc;
    let mut j = from;
    assert(head + t@.subrange(from as int, from as int) =~= head);
    while j < to
        invariant
            from <= j <= to <= t@.len(),
            all_digits(t@.subrange(from as int, to as int)),
            limit <= 1_000_000_000_000_000_000_000_000_000_000,
            acc == clamp_to(digits_value(head + t@.subrange(from as int, j as int)), limit as nat),
        decreases to - j,
    {
        assert(is_digit(t@.subrange(from as int, to as int)[j - from]));
        let d = (t[j] - 48) as u128;
        let ghost prev = head + t@.subrange(from as int, j as int);
        let ghost next = head + t@.subrange(from as int, j + 1);
        assert(next.drop_last() =~= prev);
        assert(next.last() == t@[j as int]);
        acc = if acc * 10 + d > limit { limit } else { acc * 10 + d };
        j = j + 1;
    }
    acc
}

/// The digits of a number text's mantissa: its integer digits followed by
/// its fraction digits.
pub open spec fn mantissa(t: Seq<u8>, s0: int, ie: int, fs: int, fe: int) -> Seq<u8> {
    t.subrange(s0, ie) + t.subrange(fs, fe)
}

/// Clamped value of the first `c` mantissa digits.
fn mantissa_prefix(t: &[u8], s0: usize, ie: usize, fs: usize, fe: usize, c: usize, limit: u128) -> (r:
    u128)
    requires
        s0 <= ie <= fs <= fe <= t@.len(),
        all_digits(t@.subrange(s0 as int, ie as int)),
        all_digits(t@.subrange(fs as int, fe as int)),
        c <= (ie - s0) + (fe - fs),
        limit <= 1_000_000_000_000_000_000_000_000_000_000,
    ensures
        r == clamp_to(
            digits_value(mantissa(t@, s0 as int, ie as int, fs as int, fe as int).subrange(0, c as int)),
            limit as nat,
        ),
{
    let ghost m = mantissa(t@, s0 as int, ie as int, fs as int, fe as int);
    let ghost empty = Seq::<u8>::empty();
    let ni = ie - s0;
    if c <= ni {
        assert(all_digits(t@.subrange(s0 as int, (s0 + c) as int))) by {
            assert forall|k: int| 0 <= k < c implies is_digit(
                #[trigger] t@.subrange(s0 as int, (s0 + c) as int)[k],
            ) by {
                assert(t@.subrange(s0 as int, ie as int)[k] == t@[s0 + k]);
            }
        }
        assert(m.subrange(0, c as int) =~= empty + t@.subrange(s0 as int, (s0 + c) as int));
        accumulate(0, t, s0, s0 + c, limit, Ghost(empty))
    } else {
        assert(empty + t@.subrange(s0 as int, ie as int) =~= t@.subrange(s0 as int, ie as int));
        let a = accumulate(0, t, s0, ie, limit, Ghost(empty));
        let cf = c - ni;
        assert(all_digits(t@.subrange(fs as int, (fs + cf) as int))) by {
            assert forall|k: int| 0 <= k < cf implies is_digit(
                #[trigger] t@.subrange(fs as int, (fs + cf) as int)[k],
            ) by {
                assert(t@.subrange(fs as int, fe as int)[k] == t@[fs + k]);
            }
        }
        assert(m.subrange(0, c as int) =~= t@.subrange(s0 as int, ie as int) + t@.subrange(
            fs as int,
            (fs + cf) as int,
        ));
        accumulate(a, t, fs, fs + cf, limit, Ghost(t@.subrange(s0 as int, ie as int)))
    }
}

/// The mantissa digit at position `c`.
fn mantissa_digit(t: &[u8], s0: usize, ie: usize, fs: usize, fe: usize, c: usize) -> (r: u8)
    requires
        s0 <= ie <= fs <= fe <= t@.len(),
        c < (ie - s0) + (fe - fs),
    ensures
        r == mantissa(t@, s0 as int, ie as int, fs as int, fe as int)[c as int],
{
    if c < ie - s0 {
        t[s0 + c]
    } else {
        t[fs + (c - (ie - s0))]
    }
}

/// A nonzero value moved up by at least sixteen places exceeds the clamp.
proof fn lemma_large_shift_saturates(v: nat, shift: nat)
    requires
        v >= 1,
        shift >= 16,
    ensures
        v * pow10(shift) > QUOTE_LIMIT,
{
    reveal_with_fuel(pow10, 17);
    lemma_pow10_monotone(16, shift);
    assert(v * pow10(shift) >= pow10(shift)) by (nonlinear_arith)
        requires
            v >= 1,
            pow10(shift) >= 0,
    ;
}

/// The clamped magnitude, in millionths, of a mantissa scaled by `shift`.
fn scale_mantissa(t: &[u8], s0: usize, ie: usize, fs: usize, fe: usize, shift: i128) -> (r: u128)
    requires
        s0 <= ie <= fs <= fe <= t@.len(),
        all_digits(t@.subrange(s0 as int, ie as int)),
        all_digits(t@.subrange(fs as int, fe as int)),
        -2 * (t@.len() as int) - 100 <= shift <= t@.len() + 100,
        t@.len() <= usize::MAX,
    ensures
        r == clamp_to(
            scaled_round(digits_value(mantissa(t@, s0 as int, ie as int, fs as int, fe as int)), shift as int),
            QUOTE_LIMIT as nat,
        ),
{
    let ghost mt = mantissa(t@, s0 as int, ie as int, fs as int, fe as int);
    let ghost v = digits_value(mt);
    let limit: u128 = QUOTE_LIMIT as u128;
    let m = (ie - s0) + (fe - fs);
    assert(mt.subrange(0, m as int) =~= mt);
    if shift >= 0 {
        let mut acc = mantissa_prefix(t, s0, ie, fs, fe, m, limit);
        let mut i: i128 = 0;
        assert(pow10(0) == 1);
        assert(v * pow10(0) == v);
        while i < shift
            invariant
                0 <= i <= shift,
                acc == clamp_to(v * pow10(i as nat), limit as nat),
                limit == QUOTE_LIMIT,
            decreases shift - i,
        {
            assert(v * pow10((i + 1) as nat) == (v * pow10(i as nat)) * 10) by (nonlinear_arith)
                requires
                    pow10((i + 1) as nat) == 10 * pow10(i as nat),
            ;
            acc = if acc * 10 > limit { limit } else { acc * 10 };
            i = i + 1;
        }
        acc
    } else {
        if -shift > m as i128 {
            let ghost k = -shift;
            proof {
                assert(all_digits(mt));
                lemma_digits_value_bound(mt);
                lemma_round_vanishes(v, m as nat, k as nat);
            }
            0
        } else {
            let k = (-shift) as usize;
            let c = m - k;
            let p = mantissa_prefix(t, s0, ie, fs, fe, c, limit);
            let dig = mantissa_digit(t, s0, ie, fs, fe, c);
            proof {
                assert(all_digits(mt));
                let tail = mt.subrange(c as int, m as int);
                lemma_digits_value_split(mt, c as int);
                lemma_digits_value_split(tail, 1);
                let first = tail.subrange(0, 1);
                assert(first.drop_last() =~= Seq::<u8>::empty());
                assert(is_digit(mt[c as int]));
                assert(first.last() == mt[c as int]);
                assert(digits_value(Seq::<u8>::empty()) == 0);
                assert(digits_value(first) == digits_value(first.drop_last()) * 10 + (first.last()
                    - 48) as nat);
                assert(digits_value(first) == (dig - 48) as nat);
                let rest = tail.subrange(1, tail.len() as int);
                assert(all_digits(rest)) by {
                    assert forall|j: int| 0 <= j < rest.len() implies is_digit(#[trigger] rest[j]) by {
                        assert(rest[j] == mt[c + 1 + j]);
                    }
                }
                lemma_digits_value_bound(rest);
                lemma_round_by_leading_digit(
                    digits_value(mt.subrange(0, c as int)),
                    (dig - 48) as nat,
                    digits_value(rest),
                    k as nat,
                );
            }
            let up: u128 = if dig >= 53 { 1 } else { 0 };
            if p + up > limit { limit } else { p + up }
        }
    }
}

/// Moving a mantissa by an exponent clamped to `cap` gives the same clamped
/// magnitude as moving it by the exponent itself, once `cap` exceeds the
/// mantissa length by enough.
proof fn lemma_exponent_cap(v: nat, m: nat, nf: nat, e: nat, cap: nat, exp_neg: bool)
    requires
        v < pow10(m),
        nf <= m,
        m + 32 <= cap,
        e > cap,
    ensures
        ({
            let sc = if exp_neg { -cap } else { cap as int } - nf + 6;
            let st = if exp_neg { -e } else { e as int } - nf + 6;
            &&& clamp_to(scaled_round(v, sc), QUOTE_LIMIT as nat) == clamp_to(
                scaled_round(v, st),
                QUOTE_LIMIT as nat,
            )
            &&& clamp_to(scaled_round(v, sc), QUOTE_LIMIT as nat) != 1_000_000
        }),
{
    let sc = if exp_neg { -cap } else { cap as int } - nf + 6;
    let st = if exp_neg { -e } else { e as int } - nf + 6;
    if exp_neg {
        lemma_round_vanishes(v, m, (-sc) as nat);
        lemma_round_vanishes(v, m, (-st) as nat);
    } else if v >= 1 {
        lemma_large_shift_saturates(v, sc as nat);
        lemma_large_shift_saturates(v, st as nat);
    } else {
        assert(v * pow10(sc as nat) == 0) by (nonlinear_arith)
            requires
                v == 0,
        ;
        assert(v * pow10(st as nat) == 0) by (nonlinear_arith)
            requires
                v == 0,
        ;
    }
}

/// Whether the mantissa digits from position `c` on are not all zero.
fn mantissa_tail_nonzero(t: &[u8], s0: usize, ie: usize, fs: usize, fe: usize, c: usize) -> (r: bool)
    requires
        s0 <= ie <= fs <= fe <= t@.len(),
        all_digits(t@.subrange(s0 as int, ie as int)),
        all_digits(t@.subrange(fs as int, fe as int)),
        c <= (ie - s0) + (fe - fs),
    ensures
        r == (digits_value(
            mantissa(t@, s0 as int, ie as int, fs as int, fe as int).subrange(
                c as int,
                ((ie - s0) + (fe - fs)) as int,
            ),
        ) > 0),
{
    let ghost mt = mantissa(t@, s0 as int, ie as int, fs as int, fe as int);
    let m = (ie - s0) + (fe - fs);
    let mut j = c;
    let mut nz = false;
    assert(mt.subrange(c as int, c as int) =~= Seq::<u8>::empty());
    while j < m
        invariant
            s0 <= ie <= fs <= fe <= t@.len(),
            all_digits(t@.subrange(s0 as int, ie as int)),
            all_digits(t@.subrange(fs as int, fe as int)),
            m == (ie - s0) + (fe - fs),
            mt == mantissa(t@, s0 as int, ie as int, fs as int, fe as int),
            c <= j <= m,
            nz == (digits_value(mt.subrange(c as int, j as int)) > 0),
        decreases m - j,
    {
        let d = mantissa_digit(t, s0, ie, fs, fe, j);
        proof {
            if j < ie - s0 {
                assert(t@.subrange(s0 as int, ie as int)[j as int] == mt[j as int]);
            } else {
                assert(t@.subrange(fs as int, fe as int)[j - (ie - s0)] == mt[j as int]);
            }
            let next = mt.subrange(c as int, j + 1);
            assert(next.drop_last() =~= mt.subrange(c as int, j as int));
            assert(next.last() == d);
        }
        nz = nz || d != 48;
        j = j + 1;
    }
    nz
}

/// Whether the scaled mantissa exceeds one whole unit, for a mantissa that
/// rounds to exactly one whole unit.
fn mantissa_above_one(t: &[u8], s0: usize, ie: usize, fs: usize, fe: usize, shift: i128) -> (r: bool)
    requires
        s0 <= ie <= fs <= fe <= t@.len(),
        all_digits(t@.subrange(s0 as int, ie as int)),
        all_digits(t@.subrange(fs as int, fe as int)),
        -2 * (t@.len() as int) - 100 <= shift <= t@.len() + 100,
        t@.len() <= usize::MAX,
        clamp_to(
            scaled_round(digits_value(mantissa(t@, s0 as int, ie as int, fs as int, fe as int)), shift as int),
            QUOTE_LIMIT as nat,
        ) == 1_000_000,
    ensures
        r == above_one(digits_value(mantissa(t@, s0 as int, ie as int, fs as int, fe as int)), shift as int),
{
    let ghost mt = mantissa(t@, s0 as int, ie as int, fs as int, fe as int);
    let ghost v = digits_value(mt);
    let m = (ie - s0) + (fe - fs);
    assert(mt.subrange(0, m as int) =~= mt);
    assert(all_digits(mt)) by {
        assert forall|j: int| 0 <= j < mt.len() implies is_digit(#[trigger] mt[j]) by {
            if j < ie - s0 {
                assert(t@.subrange(s0 as int, ie as int)[j] == mt[j]);
            } else {
                assert(t@.subrange(fs as int, fe as int)[j - (ie - s0)] == mt[j]);
            }
        }
    }
    if shift >= 0 {
        return false;
    }
    if -shift > m as i128 {
        proof {
            lemma_digits_value_bound(mt);
            lemma_round_vanishes(v, m as nat, (-shift) as nat);
        }
        return false;
    }
    let k = (-shift) as usize;
    let c = m - k;
    let p = mantissa_prefix(t, s0, ie, fs, fe, c, QUOTE_LIMIT as u128);
    let nz = mantissa_tail_nonzero(t, s0, ie, fs, fe, c);
    proof {
        let pv = digits_value(mt.subrange(0, c as int));
        let sv = digits_value(mt.subrange(c as int, m as int));
        let q = pow10(k as nat);
        lemma_digits_value_split(mt, c as int);
        let tail = mt.subrange(c as int, m as int);
        assert(all_digits(tail)) by {
            assert forall|j: int| 0 <= j < tail.len() implies is_digit(#[trigger] tail[j]) by {
                assert(tail[j] == mt[c + j]);
            }
        }
        lemma_digits_value_bound(tail);
        assert(v == pv * q + sv);
        if pv > 1_000_000 {
            assert(v > 1_000_000 * q) by (nonlinear_arith)
                requires
                    v == pv * q + sv,
                    pv >= 1_000_001,
                    q >= 1,
            ;
        } else if pv == 1_000_000 {
            assert(v == 1_000_000 * q + sv);
        } else {
            assert(v < 1_000_000 * q) by (nonlinear_arith)
                requires
                    v == pv * q + sv,
                    pv <= 999_999,
                    sv < q,
            ;
        }
    }
    p > 1_000_000 || (p == 1_000_000 && nz)
}

/// Where the parts of a number text lie: `(negative, s0, ie, fs, fe,
/// exp_negative, es, ee)`, with the integer digits at `s0..ie`, the fraction
/// digits at `fs..fe` and the exponent digits at `es..ee`.
fn split_number(t: &[u8]) -> (r: Option<(bool, usize, usize, usize, usize, bool, usize, usize)>)
    ensures
        r.is_some() == number_parts(t@).is_some(),
        r.is_some() ==> ({
            let (neg, s0, ie, fs, fe, exp_neg, es, ee) = r.unwrap();
            let (pn, pi, pf, pen, pe) = number_parts(t@).unwrap();
            &&& s0 <= ie <= fs <= fe <= es <= ee <= t@.len()
            &&& pn == neg && pen == exp_neg
            &&& pi == t@.subrange(s0 as int, ie as int)
            &&& pf == t@.subrange(fs as int, fe as int)
            &&& pe == t@.subrange(es as int, ee as int)
            &&& all_digits(pi) && all_digits(pf) && all_digits(pe)
        }),
{
    let n = t.len();
    let neg = n > 0 && t[0] == 45;
    let s0: usize = if neg { 1 } else { 0 };
    let ie = scan_digits(t, s0);
    if ie == s0 {
        return None;
    }
    let has_frac = ie < n && t[ie] == 46;
    let fs: usize = if has_frac { ie + 1 } else { ie };
    let fe = if has_frac { scan_digits(t, ie + 1) } else { ie };
    if has_frac && fe == ie + 1 {
        return None;
    }
    let has_exp = fe < n && (t[fe] == 101 || t[fe] == 69);
    let exp_sign = has_exp && fe + 1 < n && (t[fe + 1] == 43 || t[fe + 1] == 45);
    let exp_neg = exp_sign && t[fe + 1] == 45;
    let es: usize = if !has_exp { fe } else if exp_sign { fe + 2 } else { fe + 1 };
    let ee = if has_exp { scan_digits(t, es) } else { fe };
    if has_exp && (ee == es || ee != n) {
        return None;
    }
    if !has_exp && fe != n {
        return None;
    }
    proof {
        if !has_frac {
            assert(t@.subrange(fs as int, fe as int) =~= Seq::<u8>::empty());
        }
        if !has_exp {
            assert(t@.subrange(es as int, ee as int) =~= Seq::<u8>::empty());
        }
    }
    Some((neg, s0, ie, fs, fe, exp_neg, es, ee))
}

/// The price, in millionths, that a number text (such as `0.55`, `-1`,
/// `5e-7` or `1.25E+2`) denotes, rounded to the nearest millionth with
/// halves away from zero and clamped to `[-QUOTE_LIMIT, QUOTE_LIMIT]`;
/// `None` when the text is not a number.
pub fn parse_quote(t: &[u8]) -> (r: Option<i64>)
    ensures
        r.is_some() == quote_micros(t@).is_some(),
        r.is_some() ==> r.unwrap() as int == quote_micros(t@).unwrap(),
{
    let (neg, s0, ie, fs, fe, exp_neg, es, ee) = match split_number(t) {
        None => return None,
        Some(parts) => parts,
    };
    let ghost int_digits = t@.subrange(s0 as int, ie as int);
    let ghost frac_digits = t@.subrange(fs as int, fe as int);
    let ghost exp_digits = t@.subrange(es as int, ee as int);
    proof {
        assert(Seq::<u8>::empty() + exp_digits =~= exp_digits);
    }
    // Exponents beyond this bound move every digit past the clamp or below
    // the rounding point, so the exponent is accumulated up to it only.
    let exp_cap: u128 = t.len() as u128 + 32;
    let e = accumulate(0, t, es, ee, exp_cap, Ghost(Seq::<u8>::empty()));
    let nf = fe - fs;
    let shift: i128 = if exp_neg { -(e as i128) } else { e as i128 } - nf as i128 + 6;
    let mag = scale_mantissa(t, s0, ie, fs, fe, shift);
    proof {
        let mt = mantissa(t@, s0 as int, ie as int, fs as int, fe as int);
        let exp_true = digits_value(exp_digits);
        if exp_true > exp_cap {
            assert(all_digits(mt)) by {
                assert forall|j: int| 0 <= j < mt.len() implies is_digit(#[trigger] mt[j]) by {
                    if j < int_digits.len() {
                        assert(mt[j] == int_digits[j]);
                    } else {
                        assert(mt[j] == frac_digits[j - int_digits.len()]);
                    }
                }
            }
            lemma_digits_value_bound(mt);
            lemma_exponent_cap(digits_value(mt), mt.len(), nf as nat, exp_true, exp_cap as nat, exp_neg);
        }
    }
    let m0 = (ie - s0) + (fe - fs);
    assert(mantissa(t@, s0 as int, ie as int, fs as int, fe as int).subrange(0, m0 as int)
        =~= mantissa(t@, s0 as int, ie as int, fs as int, fe as int));
    let mut mag = mag;
    if neg {
        if mag == 0 && mantissa_tail_nonzero(t, s0, ie, fs, fe, 0) {
            mag = 1;
        }
    } else if mag == 1_000_000 {
        if mantissa_above_one(t, s0, ie, fs, fe, shift) {
            mag = 1_000_001;
        }
    }
    let m = mag as i64;
    if neg {
        Some(-m)
    } else {
        Some(m)
    }
}

} // verus!
