//! Decimal numerals: spec-level definitions of powers of ten, digit
//! counts and fixed-width decimal strings, together with an executable
//! conversion from integers to their decimal representation.
//!
//! Folder names are derived from numeric bucket boundaries, so most of
//! the grouping contracts are stated over these definitions.

use vstd::prelude::*;

verus! {

/// 10 to the power `k`.
pub open spec fn pow10(k: nat) -> nat
    decreases k,
{
    if k == 0 {
        1
    } else {
        10 * pow10((k - 1) as nat)
    }
}

/// Floor of the base-10 logarithm; 0 for inputs below 10.
pub open spec fn log10(n: int) -> nat
    decreases n,
{
    if n < 10 {
        0
    } else {
        (1 + log10(n / 10)) as nat
    }
}

/// Number of digits in the decimal representation of `n` (1 for 0).
pub open spec fn n_digits(n: int) -> nat {
    log10(n) + 1
}

/// The character for one decimal digit.
pub open spec fn digit_char(d: int) -> char {
    if d == 0 {
        '0'
    } else if d == 1 {
        '1'
    } else if d == 2 {
        '2'
    } else if d == 3 {
        '3'
    } else if d == 4 {
        '4'
    } else if d == 5 {
        '5'
    } else if d == 6 {
        '6'
    } else if d == 7 {
        '7'
    } else if d == 8 {
        '8'
    } else {
        '9'
    }
}

/// Whether `c` is a decimal digit character.
pub open spec fn is_digit(c: char) -> bool {
    '0' <= c && c <= '9'
}

/// The numeric value of a digit character.
pub open spec fn digit_val(c: char) -> int {
    c as u32 - '0' as u32
}

/// `n` written in exactly `w` decimal digit characters, zero-padded on
/// the left; if `n` needs more than `w` digits, only the lowest `w`
/// digits appear.
pub open spec fn zp(v: int, w: nat) -> Seq<char>
    decreases w,
{
    if w == 0 {
        Seq::empty()
    } else {
        zp(v / 10, (w - 1) as nat).push(digit_char(if v >= 0 {
            v % 10
        } else {
            0
        }))
    }
}

/// The decimal representation of `v`, with no padding.
pub open spec fn dec_digits(v: int) -> Seq<char> {
    zp(v, n_digits(v))
}

/// `k` copies of the character `c`.
pub open spec fn repeat_char(c: char, k: nat) -> Seq<char> {
    Seq::new(k, |i: int| c)
}

/// Strict lexicographic order on equal-length character sequences.
pub open spec fn lex_lt(a: Seq<char>, b: Seq<char>) -> bool {
    exists|i: int|
        0 <= i < a.len() && i < b.len() && (forall|j: int| 0 <= j < i ==> a[j] == b[j]) && (a[i]
            as u32) < (b[i] as u32)
}

pub proof fn lemma_pow10_pos(k: nat)
    ensures
        pow10(k) >= 1,
    decreases k,
{
    if k > 0 {
        lemma_pow10_pos((k - 1) as nat);
    }
}

pub proof fn lemma_pow10_mono(a: nat, b: nat)
    requires
        a <= b,
    ensures
        pow10(a) <= pow10(b),
    decreases b,
{
    if a < b {
        lemma_pow10_mono(a, (b - 1) as nat);
        lemma_pow10_pos((b - 1) as nat);
    }
}

/// Bounds of the decimal length: `n < pow10(n_digits(n))`, and for
/// positive `n` also `pow10(n_digits(n) - 1) <= n`.
pub proof fn lemma_log10_bounds(n: int)
    requires
        n >= 0,
    ensures
        n < pow10(n_digits(n)),
        n >= 1 ==> pow10((n_digits(n) - 1) as nat) <= n,
    decreases n,
{
    if n < 10 {
        assert(pow10(0) == 1);
        assert(pow10(1) == 10 * pow10(0));
    } else {
        lemma_log10_bounds(n / 10);
    }
}

pub proof fn lemma_log10_mono(a: int, b: int)
    requires
        0 <= a <= b,
    ensures
        log10(a) <= log10(b),
    decreases b,
{
    if b >= 10 && a >= 10 {
        lemma_log10_mono(a / 10, b / 10);
    }
}

/// If `n` fits in `w` digits then its decimal length is at most `w`.
pub proof fn lemma_n_digits_le(n: int, w: nat)
    requires
        0 <= n,
        w >= 1,
        n < pow10(w),
    ensures
        n_digits(n) <= w,
    decreases w,
{
    if n >= 10 {
        assert(pow10(w) == 10 * pow10((w - 1) as nat));
        lemma_n_digits_le(n / 10, (w - 1) as nat);
    }
}

pub proof fn lemma_zp_len(v: int, w: nat)
    ensures
        zp(v, w).len() == w,
    decreases w,
{
    if w > 0 {
        lemma_zp_len(v / 10, (w - 1) as nat);
    }
}

pub proof fn lemma_digit_char_val(d: int)
    requires
        0 <= d < 10,
    ensures
        is_digit(digit_char(d)),
        digit_char(d) as u32 == '0' as u32 + d,
{
}

/// Every character of a fixed-width numeral is a digit.
pub proof fn lemma_zp_digits(v: int, w: nat)
    requires
        v >= 0,
    ensures
        forall|i: int| 0 <= i < w ==> is_digit(#[trigger] zp(v, w)[i]),
    decreases w,
{
    if w > 0 {
        lemma_zp_len(v / 10, (w - 1) as nat);
        lemma_zp_digits(v / 10, (w - 1) as nat);
        lemma_digit_char_val(v % 10);
        assert forall|i: int| 0 <= i < w implies is_digit(#[trigger] zp(v, w)[i]) by {
            if i < w - 1 {
                assert(zp(v, w)[i] == zp(v / 10, (w - 1) as nat)[i]);
            } else {
                assert(zp(v, w)[i] == digit_char(v % 10));
            }
        }
    }
}

/// The character at position `i` of a `w`-digit numeral.
pub proof fn lemma_zp_index(v: int, w: nat, i: int)
    requires
        v >= 0,
        0 <= i < w,
    ensures
        zp(v, w)[i] == digit_char((v / (pow10((w - 1 - i) as nat) as int)) % 10),
    decreases w,
{
    lemma_zp_len(v / 10, (w - 1) as nat);
    if i == w - 1 {
        assert(pow10(0) == 1);
        vstd::arithmetic::div_mod::lemma_div_basics(v);
    } else {
        lemma_zp_index(v / 10, (w - 1) as nat, i);
        let k = (w - 2 - i) as nat;
        assert(pow10(k + 1) == 10 * pow10(k));
        lemma_pow10_pos(k);
        vstd::arithmetic::div_mod::lemma_div_denominator(v, 10, pow10(k) as int);
        assert(v / 10 / (pow10(k) as int) == v / (pow10((k + 1) as nat) as int));
    }
}

/// Dropping the last `k` characters of a `w`-digit numeral leaves the
/// numeral of the value divided by `pow10(k)`.
pub proof fn lemma_zp_trunc(v: int, w: nat, k: nat)
    requires
        v >= 0,
        k <= w,
    ensures
        zp(v, w).subrange(0, w - k) == zp(v / (pow10(k) as int), (w - k) as nat),
    decreases k,
{
    lemma_zp_len(v, w);
    if k == 0 {
        assert(pow10(0) == 1);
        assert(zp(v, w).subrange(0, w as int) =~= zp(v, w));
    } else {
        lemma_zp_trunc(v, w, (k - 1) as nat);
        let pk1 = pow10((k - 1) as nat) as int;
        lemma_pow10_pos((k - 1) as nat);
        let a = zp(v / pk1, (w - k + 1) as nat);
        lemma_zp_len(v / pk1, (w - k + 1) as nat);
        lemma_zp_len(v / pk1 / 10, (w - k) as nat);
        // a == zp(v, w).subrange(0, w-k+1), and dropping a's last char
        // leaves zp(v / pow10(k), w - k).
        assert(a == zp(v / pk1 / 10, (w - k) as nat).push(digit_char((v / pk1) % 10)));
        vstd::arithmetic::div_mod::lemma_div_denominator(v, pk1, 10);
        assert(pow10(k) == 10 * pow10((k - 1) as nat));
        assert(pk1 * 10 == pow10(k));
        assert(v / pk1 / 10 == v / (pow10(k) as int));
        assert(zp(v, w).subrange(0, w - k) =~= a.subrange(0, (w - k) as int));
        assert(a.subrange(0, (w - k) as int) =~= zp(v / pk1 / 10, (w - k) as nat));
    }
}

/// Numeric order agrees with lexicographic order on equal-width numerals.
pub proof fn lemma_zp_lt(v1: int, v2: int, w: nat)
    requires
        0 <= v1 < v2 < pow10(w),
    ensures
        lex_lt(zp(v1, w), zp(v2, w)),
    decreases w,
{
    lemma_zp_len(v1, w);
    lemma_zp_len(v2, w);
    assert(w >= 1) by {
        if w == 0 {
            assert(pow10(0) == 1);
        }
    }
    let a = zp(v1, w);
    let b = zp(v2, w);
    if v1 / 10 == v2 / 10 {
        assert(v1 % 10 < v2 % 10);
        lemma_digit_char_val(v1 % 10);
        lemma_digit_char_val(v2 % 10);
        let i = w - 1;
        assert((a[i] as u32) < (b[i] as u32));
        assert(forall|j: int| 0 <= j < i ==> a[j] == b[j]);
    } else {
        assert(pow10(w) == 10 * pow10((w - 1) as nat));
        assert(v1 / 10 < v2 / 10);
        assert(v2 / 10 < pow10((w - 1) as nat)) by {
            vstd::arithmetic::div_mod::lemma_multiply_divide_lt(v2, 10, pow10((w - 1) as nat) as int);
        }
        lemma_zp_lt(v1 / 10, v2 / 10, (w - 1) as nat);
        let a0 = zp(v1 / 10, (w - 1) as nat);
        let b0 = zp(v2 / 10, (w - 1) as nat);
        lemma_zp_len(v1 / 10, (w - 1) as nat);
        lemma_zp_len(v2 / 10, (w - 1) as nat);
        let i = choose|i: int|
            0 <= i < a0.len() && i < b0.len() && (forall|j: int| 0 <= j < i ==> a0[j] == b0[j]) && (
            a0[i] as u32) < (b0[i] as u32);
        assert((a[i] as u32) < (b[i] as u32));
        assert(forall|j: int| 0 <= j < i ==> a[j] == b[j]);
    }
}

/// Two distinct values below `pow10(w)` have distinct `w`-digit numerals.
pub proof fn lemma_zp_injective(v1: int, v2: int, w: nat)
    requires
        0 <= v1 < pow10(w),
        0 <= v2 < pow10(w),
        v1 != v2,
    ensures
        zp(v1, w) != zp(v2, w),
{
    lemma_zp_len(v1, w);
    lemma_zp_len(v2, w);
    if v1 < v2 {
        lemma_zp_lt(v1, v2, w);
        let i = choose|i: int|
            0 <= i < zp(v1, w).len() && i < zp(v2, w).len() && (forall|j: int|
                0 <= j < i ==> zp(v1, w)[j] == zp(v2, w)[j]) && (zp(v1, w)[i] as u32) < (zp(
                v2,
                w,
            )[i] as u32);
        assert(zp(v1, w)[i] != zp(v2, w)[i]);
    } else {
        lemma_zp_lt(v2, v1, w);
        let i = choose|i: int|
            0 <= i < zp(v2, w).len() && i < zp(v1, w).len() && (forall|j: int|
                0 <= j < i ==> zp(v2, w)[j] == zp(v1, w)[j]) && (zp(v2, w)[i] as u32) < (zp(
                v1,
                w,
            )[i] as u32);
        assert(zp(v1, w)[i] != zp(v2, w)[i]);
    }
}

/// `pow10(20)` exceeds every `u64`, so decimal lengths fit in 20.
pub proof fn lemma_n_digits_u64(n: u64)
    ensures
        n_digits(n as int) <= 20,
{
    reveal_with_fuel(pow10, 21);
    assert(pow10(20) > u64::MAX);
    lemma_n_digits_le(n as int, 20);
}

/// Whether `u` is a power of ten.
pub open spec fn is_pow10(u: int) -> bool {
    u >= 1 && pow10(log10(u)) == u
}

pub proof fn lemma_log10_pow10(k: nat)
    ensures
        log10(pow10(k) as int) == k,
    decreases k,
{
    if k > 0 {
        lemma_pow10_pos((k - 1) as nat);
        assert(pow10(k) == 10 * pow10((k - 1) as nat));
        vstd::arithmetic::div_mod::lemma_div_multiples_vanish(pow10((k - 1) as nat) as int, 10);
        lemma_log10_pow10((k - 1) as nat);
    }
}

/// A power of ten that is at least 10 is ten times the next one down.
pub proof fn lemma_pow10_step_down(u: int)
    requires
        is_pow10(u),
        u >= 10,
    ensures
        u % 10 == 0,
        is_pow10(u / 10),
        10 * (u / 10) == u,
        log10(u / 10) == log10(u) - 1,
        u / 10 >= 1,
{
    let k = log10(u);
    assert(k >= 1) by {
        if k == 0 {
            assert(pow10(0) == 1);
        }
    }
    assert(pow10(k) == 10 * pow10((k - 1) as nat));
    lemma_pow10_pos((k - 1) as nat);
    vstd::arithmetic::div_mod::lemma_div_multiples_vanish(pow10((k - 1) as nat) as int, 10);
    lemma_log10_pow10((k - 1) as nat);
    vstd::arithmetic::div_mod::lemma_mod_multiples_basic(pow10((k - 1) as nat) as int, 10);
}

/// There is only one power of ten `p` with `p <= m < 10 * p`, namely
/// `pow10(log10(m))`.
pub proof fn lemma_pow10_log10_unique(p: int, m: int)
    requires
        is_pow10(p),
        p <= m,
        m < 10 * p,
    ensures
        pow10(log10(m)) == p,
    decreases m,
{
    if m < 10 {
        assert(log10(p) == 0);
        assert(pow10(0) == 1);
    } else {
        if p < 10 {
            assert(log10(p) == 0);
            assert(pow10(0) == 1);
            assert(false);
        } else {
            lemma_pow10_step_down(p);
            vstd::arithmetic::div_mod::lemma_div_is_ordered(p, m, 10);
            vstd::arithmetic::div_mod::lemma_multiply_divide_lt(m, 10, p);
            lemma_pow10_log10_unique(p / 10, m / 10);
            assert(pow10(log10(m)) == 10 * pow10(log10(m / 10)));
        }
    }
}


/// Powers of ten multiply by adding exponents.
pub proof fn lemma_pow10_add(a: nat, b: nat)
    ensures
        pow10(a + b) == pow10(a) * pow10(b),
    decreases a,
{
    if a == 0 {
        assert(pow10(0) == 1);
        assert(a + b == b);
        assert(pow10(a + b) == pow10(b));
        assert(pow10(a) * pow10(b) == 1 * pow10(b));
        assert(pow10(a + b) == pow10(a) * pow10(b));
    } else {
        lemma_pow10_add((a - 1) as nat, b);
        assert(pow10((a - 1) as nat + b) == pow10((a - 1) as nat) * pow10(b));
        assert(pow10(a + b) == 10 * pow10((a + b - 1) as nat));
        assert((a + b - 1) as nat == (a - 1) as nat + b);
        vstd::arithmetic::mul::lemma_mul_is_associative(
            10,
            pow10((a - 1) as nat) as int,
            pow10(b) as int,
        );
        assert(10 * (pow10((a - 1) as nat) * pow10(b)) == (10 * pow10((a - 1) as nat)) * pow10(b));
        assert(pow10(a) == 10 * pow10((a - 1) as nat));
        assert(pow10(a + b) == 10 * (pow10((a - 1) as nat) * pow10(b)));
        assert(pow10(a + b) == (10 * pow10((a - 1) as nat)) * pow10(b));
        assert(pow10(a + b) == pow10(a) * pow10(b));
    }
}

/// A value between two adjacent powers of ten has exactly `w` digits.
pub proof fn lemma_n_digits_between(v: int, w: nat)
    requires
        w >= 1,
        pow10((w - 1) as nat) <= v,
        v < pow10(w),
    ensures
        n_digits(v) == w,
{
    lemma_pow10_pos((w - 1) as nat);
    lemma_n_digits_le(v, w);
    if n_digits(v) < w {
        lemma_log10_bounds(v);
        lemma_pow10_mono(n_digits(v), (w - 1) as nat);
        assert(v < pow10(n_digits(v)));
        assert(false);
    }
}

/// A fixed-width numeral is the bare numeral with zeros in front.
pub proof fn lemma_zp_pad(v: int, w: nat)
    requires
        0 <= v,
        n_digits(v) <= w,
    ensures
        zp(v, w) == repeat_char('0', (w - n_digits(v)) as nat) + dec_digits(v),
    decreases w,
{
    let nd = n_digits(v);
    lemma_zp_len(v, w);
    lemma_zp_len(v, nd);
    lemma_log10_bounds(v);
    assert forall|j: int| 0 <= j < w implies zp(v, w)[j] == (repeat_char('0', (w - nd) as nat)
        + dec_digits(v))[j] by {
        lemma_zp_index(v, w, j);
        if j < w - nd {
            let k = (w - 1 - j) as nat;
            assert(k >= nd);
            lemma_pow10_mono(nd, k);
            vstd::arithmetic::div_mod::lemma_basic_div(v, pow10(k) as int);
            assert(zp(v, w)[j] == digit_char(0));
        } else {
            let jj = j - (w - nd);
            lemma_zp_index(v, nd, jj);
            assert((nd - 1 - jj) as nat == (w - 1 - j) as nat);
        }
    }
    assert(zp(v, w) =~= repeat_char('0', (w - nd) as nat) + dec_digits(v));
}

/// Converts a digit value to its character.
pub fn digit_to_char(d: u64) -> (c: char)
    requires
        d < 10,
    ensures
        c == digit_char(d as int),
{
    if d == 0 {
        '0'
    } else if d == 1 {
        '1'
    } else if d == 2 {
        '2'
    } else if d == 3 {
        '3'
    } else if d == 4 {
        '4'
    } else if d == 5 {
        '5'
    } else if d == 6 {
        '6'
    } else if d == 7 {
        '7'
    } else if d == 8 {
        '8'
    } else {
        '9'
    }
}

/// 10 to the power `k`, as a `u64`; defined for exponents that fit.
pub fn pow10_u64(k: usize) -> (r: u64)
    requires
        k <= 19,
    ensures
        r == pow10(k as nat),
{
    proof {
        reveal_with_fuel(pow10, 21);
        assert(pow10(19) <= u64::MAX);
    }
    let mut r: u64 = 1;
    let mut i: usize = 0;
    while i < k
        invariant
            i <= k <= 19,
            r == pow10(i as nat),
        decreases k - i,
    {
        proof {
            reveal_with_fuel(pow10, 21);
            assert(pow10(19) <= u64::MAX);
            lemma_pow10_mono((i + 1) as nat, 19);
            assert(pow10((i + 1) as nat) == 10 * pow10(i as nat));
        }
        r = r * 10;
        i = i + 1;
    }
    r
}

/// Number of decimal digits of `n`.
pub fn ndigits_u64(n: u64) -> (r: usize)
    ensures
        r == n_digits(n as int),
{
    let mut count: usize = 1;
    let mut num: u64 = n;
    while num >= 10
        invariant
            count >= 1,
            count + log10(num as int) == n_digits(n as int),
            count <= n_digits(n as int),
        decreases num,
    {
        proof {
            lemma_n_digits_u64(n);
        }
        num = num / 10;
        count = count + 1;
    }
    count
}

/// Relies on `String::push`: appends one character to the string.
#[verifier::external_body]
pub fn push_char(s: &mut String, c: char)
    ensures
        final(s)@ == old(s)@.push(c),
{
    s.push(c);
}

/// The decimal representation of `n`.
pub fn u64_to_string(n: u64) -> (r: String)
    ensures
        r@ == dec_digits(n as int),
{
    let w = ndigits_u64(n);
    proof {
        lemma_n_digits_u64(n);
        lemma_zp_len(n as int, w as nat);
    }
    let mut s = String::new();
    let mut i: usize = 0;
    while i < w
        invariant
            w == n_digits(n as int),
            1 <= w <= 20,
            i <= w,
            zp(n as int, w as nat).len() == w,
            s@ == zp(n as int, w as nat).subrange(0, i as int),
        decreases w - i,
    {
        let e = w - 1 - i;
        let p = pow10_u64(e);
        proof {
            lemma_pow10_pos(e as nat);
            lemma_zp_index(n as int, w as nat, i as int);
        }
        let d = (n / p) % 10;
        let c = digit_to_char(d);
        push_char(&mut s, c);
        proof {
            lemma_zp_len(n as int, w as nat);
            assert(s@ =~= zp(n as int, w as nat).subrange(0, (i + 1) as int));
        }
        i = i + 1;
    }
    proof {
        assert(s@ =~= zp(n as int, w as nat));
    }
    s
}

} // verus!
