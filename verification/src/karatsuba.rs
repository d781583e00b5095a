//! Karatsuba multiplication of non-negative integers, splitting the
//! operands by their decimal digits.
//!
//! When the two operands have different decimal lengths the routine falls
//! back to native multiplication. With equal lengths `n >= 2` each operand
//! splits at the same power of ten into a high part of `n / 2` digits and
//! a low part of the remaining digits, and the product is recombined from
//! three recursive products. Either way the result is exactly the
//! product.

use vstd::prelude::*;
use vstd::arithmetic::div_mod::lemma_fundamental_div_mod;

verus! {

/// Ten to the `k`-th power.
spec fn pow10(k: nat) -> nat
    decreases k,
{
    if k == 0 {
        1
    } else {
        10 * pow10((k - 1) as nat)
    }
}

/// Number of decimal digits; zero has one digit.
spec fn dec_len(x: nat) -> nat
    decreases x,
{
    if x < 10 {
        1
    } else {
        1 + dec_len(x / 10)
    }
}

proof fn lemma_pow10_pos(k: nat)
    ensures
        pow10(k) >= 1,
    decreases k,
{
    if k > 0 {
        lemma_pow10_pos((k - 1) as nat);
    }
}

proof fn lemma_pow10_mono(a: nat, b: nat)
    requires
        a <= b,
    ensures
        pow10(a) <= pow10(b),
    decreases b,
{
    if a < b {
        lemma_pow10_mono(a, (b - 1) as nat);
        lemma_pow10_pos((b - 1) as nat);
    }
}

proof fn lemma_pow10_add(a: nat, b: nat)
    ensures
        pow10(a + b) == pow10(a) * pow10(b),
    decreases a,
{
    if a == 0 {
        assert(pow10(b) == 1 * pow10(b)) by (nonlinear_arith);
    } else {
        lemma_pow10_add((a - 1) as nat, b);
        assert(10 * (pow10((a - 1) as nat) * pow10(b)) == (10 * pow10((a - 1) as nat)) * pow10(
            b,
        )) by (nonlinear_arith);
    }
}

/// Every number sits under `pow10` of its digit count and, when positive,
/// at or above `pow10` of one less.
proof fn lemma_dec_len_bounds(x: nat)
    ensures
        x < pow10(dec_len(x)),
        x >= 1 ==> x >= pow10((dec_len(x) - 1) as nat),
    decreases x,
{
    if x < 10 {
        assert(pow10(0nat) == 1);
        assert(pow10(1) == 10);
    } else {
        let q = x / 10;
        lemma_fundamental_div_mod(x as int, 10);
        assert(q >= 1);
        lemma_dec_len_bounds(q);
        assert(dec_len(x) == 1 + dec_len(q));
        assert(x == 10 * q + x % 10);
        assert(q < pow10(dec_len(q)));
        assert(10 * q + x % 10 < 10 * pow10(dec_len(q)));
        assert(q >= pow10((dec_len(q) - 1) as nat));
        assert(x >= 10 * pow10((dec_len(q) - 1) as nat));
    }
}

/// A number below `pow10(k)` has at most `k` digits.
proof fn lemma_dec_len_upper(x: nat, k: nat)
    requires
        x < pow10(k),
        k >= 1,
    ensures
        dec_len(x) <= k,
    decreases k,
{
    if x < 10 {
    } else {
        let q = x / 10;
        lemma_fundamental_div_mod(x as int, 10);
        assert(pow10(k) == 10 * pow10((k - 1) as nat));
        assert(q < pow10((k - 1) as nat));
        if k == 1 {
            assert(pow10(0nat) == 1);
            assert(q == 0);
            assert(x < 10);
        } else {
            lemma_dec_len_upper(q, (k - 1) as nat);
        }
    }
}

/// `pow10(39)` exceeds every `u128` value.
proof fn lemma_every_u128_has_39_digits()
    ensures
        (u128::MAX as nat) < pow10(39),
{
    reveal_with_fuel(pow10, 41);
    assert(pow10(39) == 1000000000000000000000000000000000000000nat);
}

/// The number of decimal digits of `x`.
fn digit_count(x: u128) -> (r: usize)
    ensures
        r == dec_len(x as nat),
        1 <= r <= 39,
{
    proof {
        lemma_every_u128_has_39_digits();
        lemma_dec_len_upper(x as nat, 39);
    }
    let mut len: usize = 1;
    let mut t = x;
    while t >= 10
        invariant
            dec_len(x as nat) == (len - 1) + dec_len(t as nat),
            1 <= len,
            len <= dec_len(x as nat),
            dec_len(x as nat) <= 39,
        decreases t,
    {
        t = t / 10;
        len = len + 1;
        proof {
            assert(dec_len(t as nat) >= 1);
        }
    }
    len
}

/// Ten to the `k`-th power as a machine integer.
fn pow10_exec(k: usize) -> (r: u128)
    requires
        pow10(k as nat) <= u128::MAX as nat,
    ensures
        r as nat == pow10(k as nat),
{
    let mut r: u128 = 1;
    let mut i: usize = 0;
    while i < k
        invariant
            i <= k,
            r as nat == pow10(i as nat),
            pow10(k as nat) <= u128::MAX as nat,
        decreases k - i,
    {
        proof {
            lemma_pow10_mono((i + 1) as nat, k as nat);
        }
        r = r * 10;
        i = i + 1;
    }
    r
}

/// Multiplies two non-negative integers. Operands of different decimal
/// lengths are multiplied natively; operands of one digit each as well;
/// otherwise both are split at the same power of ten and the product is
/// recombined from the three recursive products `ac`, `bd` and
/// `(a + b)(c + d)`.
pub fn karatsuba(x: u128, y: u128) -> (r: u128)
    requires
        x as nat * y as nat <= u128::MAX as nat,
    ensures
        r as nat == x as nat * y as nat,
    decreases x,
{
    let xl = digit_count(x);
    let yl = digit_count(y);
    if xl != yl {
        return x * y;
    }
    let n = xl;
    if n == 1 {
        return x * y;
    }
    proof {
        if x < 10 {
            assert(dec_len(x as nat) == 1);
        }
        if y < 10 {
            assert(dec_len(y as nat) == 1);
        }
        lemma_dec_len_bounds(x as nat);
        lemma_dec_len_bounds(y as nat);
        lemma_pow10_mono((n - n / 2) as nat, (n - 1) as nat);
    }
    let low_len = n - n / 2;
    let pw = pow10_exec(low_len);
    proof {
        lemma_pow10_pos((low_len - 1) as nat);
        assert(pw >= 10);
        assert(pw as nat <= pow10((n - 1) as nat) <= x as nat);
        assert(pw as nat <= y as nat);
    }
    let a = x / pw;
    let b = x % pw;
    let c = y / pw;
    let d = y % pw;
    proof {
        lemma_fundamental_div_mod(x as int, pw as int);
        lemma_fundamental_div_mod(y as int, pw as int);
        assert(a >= 1 && c >= 1) by (nonlinear_arith)
            requires
                x as int == pw as int * a as int + b as int,
                y as int == pw as int * c as int + d as int,
                b < pw,
                d < pw,
                x >= pw,
                y >= pw,
                pw >= 10,
        ;
        assert(a < x && b < x && a + b < x) by (nonlinear_arith)
            requires
                x as int == pw as int * a as int + b as int,
                b < pw,
                pw >= 10,
                pw <= x,
                a >= 1,
        ;
        assert(c <= y && d <= y && c + d < y) by (nonlinear_arith)
            requires
                y as int == pw as int * c as int + d as int,
                d < pw,
                pw >= 10,
                pw <= y,
                c >= 1,
        ;
        assert(a as nat * c as nat <= x as nat * y as nat) by (nonlinear_arith)
            requires
                a <= x,
                c <= y,
        ;
        assert(b as nat * d as nat <= x as nat * y as nat) by (nonlinear_arith)
            requires
                b <= x,
                d <= y,
        ;
        assert((a + b) as nat * (c + d) as nat <= x as nat * y as nat) by (nonlinear_arith)
            requires
                a + b <= x,
                c + d <= y,
        ;
    }
    let p = a + b;
    let q = c + d;
    let ac = karatsuba(a, c);
    let bd = karatsuba(b, d);
    let pq = karatsuba(p, q);
    proof {
        assert(pq as nat == ac as nat + a as nat * d as nat + b as nat * c as nat
            + bd as nat) by (nonlinear_arith)
            requires
                pq as nat == (a as nat + b as nat) * (c as nat + d as nat),
                ac as nat == a as nat * c as nat,
                bd as nat == b as nat * d as nat,
        ;
    }
    let mid = pq - ac - bd;
    proof {
        lemma_pow10_add(low_len as nat, low_len as nat);
        lemma_pow10_add((n - 1) as nat, (n - 1) as nat);
        lemma_pow10_mono((low_len + low_len) as nat, ((n - 1) + (n - 1)) as nat);
        assert(pow10((low_len + low_len) as nat) <= pow10((n - 1) as nat) * pow10(
            (n - 1) as nat,
        ));
        assert(pow10((n - 1) as nat) * pow10((n - 1) as nat) <= x as nat * y as nat)
            by (nonlinear_arith)
            requires
                pow10((n - 1) as nat) <= x as nat,
                pow10((n - 1) as nat) <= y as nat,
        ;
    }
    let hi = pow10_exec(2 * low_len);
    proof {
        assert(hi as nat == pw as nat * pw as nat);
        assert(hi as nat * ac as nat + pw as nat * mid as nat + bd as nat == x as nat
            * y as nat) by (nonlinear_arith)
            requires
                x as nat == pw as nat * a as nat + b as nat,
                y as nat == pw as nat * c as nat + d as nat,
                hi as nat == pw as nat * pw as nat,
                ac as nat == a as nat * c as nat,
                bd as nat == b as nat * d as nat,
                mid as nat == a as nat * d as nat + b as nat * c as nat,
        ;
    }
    let r = hi * ac + pw * mid + bd;
    r
}

} // verus!
