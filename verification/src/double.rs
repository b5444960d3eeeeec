//! Double-precision numbers by their 64 bits: which integer a double is, and which
//! double an integer converts to.

use vstd::arithmetic::div_mod::{
    lemma_div_multiples_vanish, lemma_fundamental_div_mod, lemma_fundamental_div_mod_converse,
    lemma_mod_multiples_basic,
};
use vstd::arithmetic::power2::{
    lemma2_to64, lemma2_to64_rest, lemma_pow2_adds, lemma_pow2_pos,
    lemma_pow2_strictly_increases, lemma_pow2_unfold, pow2,
};
use vstd::prelude::*;

verus! {

/// Whether the sign bit is set.
pub open spec fn is_negative(bits: u64) -> bool {
    bits >= 0x8000_0000_0000_0000
}

/// The eleven bits of the biased exponent.
pub open spec fn exponent(bits: u64) -> u64 {
    (bits / 0x10_0000_0000_0000) % 2048
}

/// The fifty-two bits after the leading one.
pub open spec fn fraction(bits: u64) -> u64 {
    bits % 0x10_0000_0000_0000
}

/// Whether the bits are those of a double that is not a number.
pub open spec fn is_nan(bits: u64) -> bool {
    exponent(bits) == 0x7ff && fraction(bits) != 0
}

/// Whether two doubles are the same, bit by bit or in that neither is a number.
pub open spec fn same_double(a: u64, b: u64) -> bool {
    a == b || is_nan(a) && is_nan(b)
}

/// `magnitude`, negated where the double is negative.
pub open spec fn signed(bits: u64, magnitude: int) -> int {
    if is_negative(bits) {
        -magnitude
    } else {
        magnitude
    }
}

/// The integer that the double is, if it is one: a double with biased exponent `e` and
/// leading digits `m` stands for `m` times two to the power `e - 1075`.
pub open spec fn integer_value(bits: u64) -> Option<int> {
    let e = exponent(bits);
    let m = (0x10_0000_0000_0000 + fraction(bits)) as int;
    if e == 2047 {
        None
    } else if e == 0 {
        if fraction(bits) == 0 {
            Some(0)
        } else {
            None
        }
    } else if e >= 1075 {
        Some(signed(bits, m * pow2((e - 1075) as nat)))
    } else if e >= 1023 && m % (pow2((1075 - e) as nat) as int) == 0 {
        Some(signed(bits, m / (pow2((1075 - e) as nat) as int)))
    } else {
        None
    }
}

/// How many binary digits of `n` a double has no room for.
pub open spec fn excess_digits(n: nat) -> nat
    decreases n,
{
    if n < 0x20_0000_0000_0000 {
        0
    } else {
        1 + excess_digits(n / 2)
    }
}

/// `n` rounded to the closest multiple of `unit`, and half way between two of them to
/// the even one.
pub open spec fn rounded(n: nat, unit: nat) -> nat {
    let q = n / unit;
    let r = n % unit;
    if 2 * r < unit || (2 * r == unit && q % 2 == 0) {
        q * unit
    } else {
        (q + 1) * unit
    }
}

/// The integer that `v` becomes when it is converted to a double.
pub open spec fn nearest(v: int) -> int {
    if v < 0 {
        -(rounded((-v) as nat, pow2(excess_digits((-v) as nat))) as int)
    } else {
        rounded(v as nat, pow2(excess_digits(v as nat))) as int
    }
}

/// Two to the power `k`.
fn power(k: u64) -> (r: u64)
    requires
        k <= 52,
    ensures
        r == pow2(k as nat),
        r <= 0x10_0000_0000_0000,
{
    let mut r: u64 = 1;
    let mut i: u64 = 0;
    proof {
        lemma2_to64();
        lemma2_to64_rest();
    }
    while i < k
        invariant
            i <= k <= 52,
            r == pow2(i as nat),
            pow2(52) == 0x10_0000_0000_0000,
        decreases k - i,
    {
        proof {
            lemma_pow2_unfold((i + 1) as nat);
            if i + 1 < 52 {
                lemma_pow2_strictly_increases((i + 1) as nat, 52);
            }
        }
        r = r * 2;
        i += 1;
    }
    proof {
        if k < 52 {
            lemma_pow2_strictly_increases(k as nat, 52);
        }
    }
    r
}

/// The integer that the double is, if it is one and fits in 64 bits.
pub fn double_to_i64(bits: u64) -> (r: Option<i64>)
    ensures
        match r {
            Some(n) => integer_value(bits) == Some(n as int),
            None => match integer_value(bits) {
                Some(v) => v < i64::MIN || v > i64::MAX,
                None => true,
            },
        },
{
    let negative = bits >= 0x8000_0000_0000_0000;
    let e: u64 = (bits / 0x10_0000_0000_0000) % 2048;
    let f: u64 = bits % 0x10_0000_0000_0000;
    let m: u64 = 0x10_0000_0000_0000 + f;
    if e == 2047 {
        return None;
    }
    if e == 0 {
        return if f == 0 {
            Some(0)
        } else {
            None
        };
    }
    if e >= 1075 {
        let ghost p = pow2((e - 1075) as nat);
        if e - 1075 >= 11 {
            proof {
                lemma2_to64();
                assert(m * 2048 >= 0x8000_0000_0000_0000);
                if e > 1086 {
                    if e > 1087 {
                        lemma_pow2_strictly_increases(12, (e - 1075) as nat);
                    }
                    assert(m * p >= 0x10_0000_0000_0000 * 4096) by (nonlinear_arith)
                        requires
                            m >= 0x10_0000_0000_0000,
                            p >= 4096,
                    ;
                }
            }
            return if negative && e == 1086 && f == 0 {
                Some(i64::MIN)
            } else {
                None
            };
        }
        let k = power(e - 1075);
        proof {
            lemma2_to64();
            if e - 1075 < 10 {
                lemma_pow2_strictly_increases((e - 1075) as nat, 10);
            }
            assert(0 <= m * k <= 0x1f_ffff_ffff_ffff * 1024) by (nonlinear_arith)
                requires
                    m <= 0x1f_ffff_ffff_ffff,
                    k <= 1024,
            ;
        }
        let magnitude = (m * k) as i64;
        return if negative {
            Some(-magnitude)
        } else {
            Some(magnitude)
        };
    }
    if e < 1023 {
        return None;
    }
    let k = power(1075 - e);
    proof {
        lemma_pow2_pos((1075 - e) as nat);
    }
    if m % k != 0 {
        return None;
    }
    proof {
        assert(0 <= m / k <= m) by (nonlinear_arith)
            requires
                k > 0,
        ;
    }
    let magnitude = (m / k) as i64;
    if negative {
        Some(-magnitude)
    } else {
        Some(magnitude)
    }
}

/// The integer that the double is, if it is one and fits in 32 bits.
pub fn double_to_i32(bits: u64) -> (r: Option<i32>)
    ensures
        match r {
            Some(n) => integer_value(bits) == Some(n as int),
            None => match integer_value(bits) {
                Some(v) => v < i32::MIN || v > i32::MAX,
                None => true,
            },
        },
{
    match double_to_i64(bits) {
        Some(n) => if i32::MIN as i64 <= n && n <= i32::MAX as i64 {
            Some(n as i32)
        } else {
            None
        },
        None => None,
    }
}

proof fn lemma_excess_digits(n: nat)
    requires
        n <= 0x8000_0000_0000_0000,
    ensures
        excess_digits(n) <= 11,
{
    reveal_with_fuel(excess_digits, 13);
}

proof fn lemma_excess_unit(n: nat)
    requires
        n >= 0x20_0000_0000_0000,
    ensures
        0x10_0000_0000_0000 * pow2(excess_digits(n)) <= n,
        n < 0x20_0000_0000_0000 * pow2(excess_digits(n)),
    decreases n,
{
    lemma_pow2_unfold(excess_digits(n));
    let d = excess_digits(n);
    if n / 2 >= 0x20_0000_0000_0000 {
        lemma_excess_unit(n / 2);
        assert(pow2(d) == 2 * pow2((d - 1) as nat));
    } else {
        lemma2_to64();
        assert(excess_digits(n / 2) == 0);
        assert(d == 1);
        assert(pow2(1) == 2);
    }
}

/// The bits of a double with sign `negative`, biased exponent `e` and leading digits `m`.
fn compose(negative: bool, e: u64, m: u64) -> (r: u64)
    requires
        0 < e < 2047,
        0x10_0000_0000_0000 <= m < 0x20_0000_0000_0000,
    ensures
        is_negative(r) == negative,
        exponent(r) == e,
        fraction(r) == m - 0x10_0000_0000_0000,
{
    let sign: u64 = if negative {
        0x8000_0000_0000_0000
    } else {
        0
    };
    sign + e * 0x10_0000_0000_0000 + (m - 0x10_0000_0000_0000)
}

/// The double that the integer converts to: the closest one, and half way between two
/// of them the one with an even last digit.
pub fn integer_to_double(v: i64) -> (r: u64)
    ensures
        integer_value(r) == Some(nearest(v as int)),
        v == 0 ==> r == 0,
{
    if v == 0 {
        proof {
            lemma2_to64();
            assert(excess_digits(0) == 0);
            assert(rounded(0, 1) == 0);
        }
        return 0;
    }
    let negative = v < 0;
    let n: u64 = if negative {
        (-(v + 1)) as u64 + 1
    } else {
        v as u64
    };
    let ghost unit = pow2(excess_digits(n as nat));
    if n < 0x20_0000_0000_0000 {
        proof {
            lemma2_to64();
            lemma2_to64_rest();
            assert(unit == 1);
            assert(rounded(n as nat, 1) == n);
        }
        let mut m: u64 = n;
        let mut e: u64 = 1075;
        assert(n * pow2(0) == n);
        while m < 0x10_0000_0000_0000
            invariant
                0 < m < 0x20_0000_0000_0000,
                1 <= n,
                1023 <= e <= 1075,
                m == n * pow2((1075 - e) as nat),
                m < 0x10_0000_0000_0000 ==> e > 1023,
                pow2(52) == 0x10_0000_0000_0000,
            decreases 0x20_0000_0000_0000 - m,
        {
            let ghost s = (1075 - e) as nat;
            proof {
                lemma_pow2_unfold(s + 1);
                assert(n * pow2(s + 1) == 2 * (n * pow2(s))) by (nonlinear_arith)
                    requires
                        pow2(s + 1) == 2 * pow2(s),
                ;
            }
            m = m * 2;
            e = e - 1;
            proof {
                if e == 1023 {
                    assert(s + 1 == 52);
                    assert(m >= 0x10_0000_0000_0000) by (nonlinear_arith)
                        requires
                            m == n * pow2(52),
                            n >= 1,
                            pow2(52) == 0x10_0000_0000_0000,
                    ;
                }
            }
        }
        let r = compose(negative, e, m);
        proof {
            let s = (1075 - e) as nat;
            let p = pow2(s) as int;
            lemma_pow2_pos(s);
            lemma_mod_multiples_basic(n as int, p);
            lemma_div_multiples_vanish(n as int, p);
            assert(m as int == n as int * p);
            assert(p * n as int == n as int * p) by (nonlinear_arith);
            if e == 1075 {
                assert(m == n);
                assert(m as int * pow2(0) == m);
            }
        }
        return r;
    }
    proof {
        lemma_excess_digits(n as nat);
        lemma_excess_unit(n as nat);
    }
    let mut t: u64 = n;
    let mut d: u64 = 0;
    while t >= 0x20_0000_0000_0000
        invariant
            excess_digits(n as nat) == d + excess_digits(t as nat),
            excess_digits(n as nat) <= 11,
            d <= 11,
        decreases t,
    {
        t = t / 2;
        d = d + 1;
    }
    assert(d == excess_digits(n as nat));
    let k = power(d);
    assert(k == unit);
    proof {
        lemma_pow2_pos(d as nat);
        lemma_fundamental_div_mod(n as int, k as int);
    }
    let q: u64 = n / k;
    let rest: u64 = n % k;
    proof {
        assert(0x10_0000_0000_0000 <= q < 0x20_0000_0000_0000) by (nonlinear_arith)
            requires
                n as int == k as int * q + rest,
                0 <= rest < k,
                0x10_0000_0000_0000 * k <= n,
                n < 0x20_0000_0000_0000 * k,
                k > 0,
        ;
        assert(rest < k);
        assert(k <= 2048) by {
            lemma2_to64();
            if d < 11 {
                lemma_pow2_strictly_increases(d as nat, 11);
            }
        }
    }
    let up = 2 * rest > k || (2 * rest == k && q % 2 == 1);
    let m: u64 = if up {
        q + 1
    } else {
        q
    };
    assert(rounded(n as nat, unit) == m * unit);
    if m == 0x20_0000_0000_0000 {
        proof {
            lemma_pow2_unfold((d + 1) as nat);
            assert(0x10_0000_0000_0000 * pow2((d + 1) as nat) == m * unit) by (nonlinear_arith)
                requires
                    pow2((d + 1) as nat) == 2 * unit,
                    m == 0x20_0000_0000_0000,
            ;
        }
        compose(negative, 1076 + d, 0x10_0000_0000_0000)
    } else {
        compose(negative, 1075 + d, m)
    }
}

/// No integer but zero converts to zero.
pub proof fn law_only_zero_converts_to_zero(v: int)
    requires
        v != 0,
    ensures
        nearest(v) != 0,
{
    let n = if v < 0 {
        (-v) as nat
    } else {
        v as nat
    };
    let unit = pow2(excess_digits(n));
    lemma_pow2_pos(excess_digits(n));
    lemma2_to64();
    if n < 0x20_0000_0000_0000 {
        assert(rounded(n, 1) == n);
    } else {
        lemma_excess_unit(n);
        let q = n / unit;
        lemma_fundamental_div_mod(n as int, unit as int);
        assert(q > 0) by (nonlinear_arith)
            requires
                n as int == unit as int * (q as int) + n as int % unit as int,
                0 <= n as int % (unit as int) < unit,
                0x10_0000_0000_0000 * unit <= n,
                unit > 0,
        ;
        assert(q * unit > 0 && (q + 1) * unit > 0) by (nonlinear_arith)
            requires
                q > 0,
                unit > 0,
        ;
    }
}

/// Integers of no more than fifty-three binary digits, and the next one, convert to
/// doubles exactly.
pub proof fn law_small_integers_convert_exactly(v: int)
    requires
        -0x20_0000_0000_0000 <= v <= 0x20_0000_0000_0000,
    ensures
        nearest(v) == v,
{
    let n = if v < 0 {
        (-v) as nat
    } else {
        v as nat
    };
    lemma2_to64();
    reveal_with_fuel(excess_digits, 2);
    if n < 0x20_0000_0000_0000 {
        assert(rounded(n, 1) == n);
    } else {
        assert(excess_digits(n) == 1);
        assert(rounded(n, 2) == n);
    }
}

proof fn lemma_scaled(bits: u64, n: int)
    requires
        integer_value(bits) == Some(n),
        n != 0,
    ensures
        1023 <= exponent(bits) < 2047,
        signed(bits, n) > 0,
        signed(bits, n) * 0x10_0000_0000_0000 == (0x10_0000_0000_0000 + fraction(bits)) * pow2(
            (exponent(bits) - 1023) as nat,
        ),
{
    let e = exponent(bits);
    let m = (0x10_0000_0000_0000 + fraction(bits)) as int;
    let a = signed(bits, n);
    lemma2_to64();
    lemma2_to64_rest();
    if e >= 1075 {
        let p = pow2((e - 1075) as nat) as int;
        lemma_pow2_pos((e - 1075) as nat);
        lemma_pow2_adds((e - 1075) as nat, 52);
        assert(a == m * p);
        assert(m * p * 0x10_0000_0000_0000 == m * (p * 0x10_0000_0000_0000)) by (nonlinear_arith);
        assert(m * p > 0) by (nonlinear_arith)
            requires
                m > 0,
                p > 0,
        ;
    } else {
        let p = pow2((1075 - e) as nat) as int;
        let q = pow2((e - 1023) as nat) as int;
        lemma_pow2_pos((1075 - e) as nat);
        lemma_pow2_adds((1075 - e) as nat, (e - 1023) as nat);
        lemma_fundamental_div_mod(m, p);
        assert(a == m / p);
        assert(m == p * a);
        assert(a > 0) by (nonlinear_arith)
            requires
                m == p * a,
                m > 0,
                p > 0,
        ;
        assert(a * (p * q) == p * a * q) by (nonlinear_arith);
    }
}

proof fn lemma_exponents_agree(a: u64, b: u64, n: int)
    requires
        integer_value(a) == Some(n),
        integer_value(b) == Some(n),
        n != 0,
        is_negative(a) == is_negative(b),
    ensures
        exponent(a) >= exponent(b),
{
    lemma_scaled(a, n);
    lemma_scaled(b, n);
    if exponent(a) < exponent(b) {
        let x = (exponent(a) - 1023) as nat;
        let y = (exponent(b) - 1023) as nat;
        let m = 0x10_0000_0000_0000 + fraction(a);
        let k = 0x10_0000_0000_0000 + fraction(b);
        lemma_pow2_unfold(x + 1);
        if x + 1 < y {
            lemma_pow2_strictly_increases(x + 1, y);
        }
        lemma_pow2_pos(x);
        let p = pow2(x) as int;
        let q = pow2(y) as int;
        assert(m * p < k * q) by (nonlinear_arith)
            requires
                m < 0x20_0000_0000_0000,
                k >= 0x10_0000_0000_0000,
                q >= 2 * p,
                p > 0,
        ;
    }
}

/// There is one double for each integer but zero, which has two.
pub proof fn law_integers_have_one_double(a: u64, b: u64, n: int)
    requires
        integer_value(a) == Some(n),
        integer_value(b) == Some(n),
        n != 0,
    ensures
        a == b,
{
    lemma_scaled(a, n);
    lemma_scaled(b, n);
    lemma_exponents_agree(a, b, n);
    lemma_exponents_agree(b, a, n);
    let p = pow2((exponent(a) - 1023) as nat) as int;
    lemma_pow2_pos((exponent(a) - 1023) as nat);
    let x = fraction(a) as int;
    let y = fraction(b) as int;
    assert(x == y) by (nonlinear_arith)
        requires
            (0x10_0000_0000_0000 + x) * p == (0x10_0000_0000_0000 + y) * p,
            p > 0,
    ;
}

/// The bits of a double are its sign, then eleven bits of exponent, then fifty-two bits of
/// fraction.
pub proof fn law_double_is_made_of_its_parts(bits: u64)
    ensures
        bits == if is_negative(bits) {
            0x8000_0000_0000_0000int
        } else {
            0
        } + exponent(bits) * 0x10_0000_0000_0000 + fraction(bits),
        exponent(bits) < 2048,
        fraction(bits) < 0x10_0000_0000_0000,
        is_nan(bits) <==> bits % 0x8000_0000_0000_0000 > 0x7ff0_0000_0000_0000,
{
}

/// Two doubles are the same exactly where their bits are, or neither is a number.
pub proof fn law_doubles_are_told_apart(a: u64, b: u64)
    ensures
        same_double(a, b) <==> a == b || (is_nan(a) && is_nan(b)),
        same_double(a, b) <==> same_double(b, a),
{
}

/// The distance between two integers.
pub open spec fn distance(a: int, b: int) -> int {
    if a < b {
        b - a
    } else {
        a - b
    }
}

proof fn lemma_factor(a: int, b: int, c: int)
    requires
        c > 0,
    ensures
        a * c == b * c <==> a == b,
{
    assert(a * c == b * c ==> a == b) by (nonlinear_arith)
        requires
            c > 0,
    ;
}

/// A double is the integer `n` exactly where its leading digits, shifted by its exponent,
/// are `n` without its sign, and its sign is that of `n`.
pub proof fn law_double_is_the_integer_of_its_digits(bits: u64, n: int)
    ensures
        ({
            let e = exponent(bits);
            let (digits, shift) = if e == 0 {
                (fraction(bits) as int, 1nat)
            } else {
                (0x10_0000_0000_0000 + fraction(bits), e as nat)
            };
            integer_value(bits) == Some(n) <==> {
                &&& e < 2047
                &&& distance(n, 0) * pow2(1075) == digits * pow2(shift)
                &&& n > 0 ==> !is_negative(bits)
                &&& n < 0 ==> is_negative(bits)
            }
        }),
{
    let e = exponent(bits);
    let f = fraction(bits) as int;
    let m = 0x10_0000_0000_0000 + f;
    let a = distance(n, 0);
    lemma2_to64();
    lemma2_to64_rest();
    lemma_pow2_pos(1075);
    if e == 0 {
        lemma_pow2_strictly_increases(64, 1075);
        let x = pow2(1075) as int;
        assert(f < 0x10_0000_0000_0000);
        assert(pow2(1) == 2);
        assert(a * x == f * 2 <==> a == 0 && f == 0) by (nonlinear_arith)
            requires
                0 <= f < 0x10_0000_0000_0000,
                x > 0x10_0000_0000_0000 * 2,
                a >= 0,
        ;
    } else if 1075 <= e < 2047 {
        let p = pow2((e - 1075) as nat) as int;
        let x = pow2(1075) as int;
        lemma_pow2_adds((e - 1075) as nat, 1075);
        lemma_pow2_pos((e - 1075) as nat);
        assert(m * (p * x) == m * p * x) by (nonlinear_arith);
        lemma_factor(a, m * p, x);
        assert(m * p > 0) by (nonlinear_arith)
            requires
                m > 0,
                p > 0,
        ;
    } else if e < 1075 {
        let q = pow2((1075 - e) as nat) as int;
        let y = pow2(e as nat) as int;
        lemma_pow2_adds((1075 - e) as nat, e as nat);
        lemma_pow2_pos((1075 - e) as nat);
        lemma_pow2_pos(e as nat);
        assert(a * (q * y) == a * q * y) by (nonlinear_arith);
        lemma_factor(a * q, m, y);
        lemma_fundamental_div_mod(m, q);
        if e < 1023 {
            if 1075 - e > 53 {
                lemma_pow2_strictly_increases(53, (1075 - e) as nat);
            }
            assert(a * q != m) by (nonlinear_arith)
                requires
                    0 < m < 0x20_0000_0000_0000,
                    q >= 0x20_0000_0000_0000,
                    a >= 0,
            ;
        } else {
            if a * q == m {
                lemma_mod_multiples_basic(a, q);
                lemma_div_multiples_vanish(a, q);
                assert(q * a == a * q) by (nonlinear_arith);
            }
            assert(q * (m / q) == m / q * q) by (nonlinear_arith);
            assert(m / q >= 0) by (nonlinear_arith)
                requires
                    m > 0,
                    q > 0,
            ;
        }
    }
}

proof fn lemma_rounded_is_closest(n: nat, unit: nat, t: int)
    requires
        unit > 0,
    ensures
        distance(rounded(n, unit) as int, n as int) <= distance(t * unit, n as int),
{
    let q = (n / unit) as int;
    let r = (n % unit) as int;
    let u = unit as int;
    lemma_fundamental_div_mod(n as int, u);
    assert(u * q == q * u) by (nonlinear_arith);
    assert((q + 1) * u == q * u + u) by (nonlinear_arith);
    if t <= q {
        assert(t * u <= q * u) by (nonlinear_arith)
            requires
                t <= q,
                u > 0,
        ;
    } else {
        assert(t * u >= (q + 1) * u) by (nonlinear_arith)
            requires
                t >= q + 1,
                u > 0,
        ;
    }
}

proof fn lemma_magnitude_is_closest(n: nat, m: nat, k: nat)
    requires
        m <= 0x20_0000_0000_0000,
    ensures
        distance(rounded(n, pow2(excess_digits(n))) as int, n as int) <= distance(
            (m * pow2(k)) as int,
            n as int,
        ),
{
    let d = excess_digits(n);
    let unit = pow2(d);
    lemma_pow2_pos(d);
    lemma_pow2_pos(k);
    lemma2_to64();
    if n < 0x20_0000_0000_0000 {
        law_small_integers_convert_exactly(n as int);
    } else {
        lemma_excess_unit(n);
        if k >= d {
            lemma_pow2_adds((k - d) as nat, d);
            let s = pow2((k - d) as nat);
            assert(m * (s * unit) == m * s * unit) by (nonlinear_arith);
            lemma_rounded_is_closest(n, unit, (m * s) as int);
        } else {
            lemma_pow2_unfold(d);
            if k < d - 1 {
                lemma_pow2_strictly_increases(k, (d - 1) as nat);
            }
            let p = pow2(k);
            assert(m * p <= 0x10_0000_0000_0000 * unit) by (nonlinear_arith)
                requires
                    m <= 0x20_0000_0000_0000,
                    2 * p <= unit,
            ;
            lemma_rounded_is_closest(n, unit, 0x10_0000_0000_0000);
        }
    }
}

/// No double is closer to an integer than the one that it converts to, among those of at
/// most fifty-three digits and either sign.
pub proof fn law_conversion_gives_the_closest_double(v: int, m: nat, k: nat)
    requires
        m <= 0x20_0000_0000_0000,
    ensures
        distance(nearest(v), v) <= distance((m * pow2(k)) as int, v),
        distance(nearest(v), v) <= distance(-(m * pow2(k)), v),
        nearest(-v) == -nearest(v),
{
    let n = distance(v, 0) as nat;
    lemma_magnitude_is_closest(n, m, k);
    law_small_integers_convert_exactly(0);
    lemma_pow2_pos(k);
    assert(m * pow2(k) >= 0) by (nonlinear_arith)
        requires
            m >= 0,
            pow2(k) > 0,
    ;
}

proof fn lemma_excess_is_unique(n: nat, d: nat)
    requires
        d > 0,
        0x10_0000_0000_0000 * pow2(d) <= n < 0x20_0000_0000_0000 * pow2(d),
    ensures
        excess_digits(n) == d,
{
    let x = excess_digits(n);
    lemma_pow2_unfold(d);
    lemma_pow2_pos((d - 1) as nat);
    lemma_excess_unit(n);
    if x < d {
        lemma_pow2_unfold(x + 1);
        if x + 1 < d {
            lemma_pow2_strictly_increases(x + 1, d);
        }
    } else if x > d {
        lemma_pow2_unfold(d + 1);
        if d + 1 < x {
            lemma_pow2_strictly_increases(d + 1, x);
        }
    }
}

/// An integer half way between two doubles converts to the one with an even last digit.
pub proof fn law_half_way_conversion_gives_the_even_double(q: nat, d: nat)
    requires
        0x10_0000_0000_0000 <= q < 0x20_0000_0000_0000,
    ensures
        nearest((q * pow2(d + 1) + pow2(d)) as int) == if q % 2 == 0 {
            q * pow2(d + 1)
        } else {
            (q + 1) * pow2(d + 1)
        },
{
    let unit = pow2(d + 1);
    let n = q * unit + pow2(d);
    lemma_pow2_pos(d);
    lemma_pow2_unfold(d + 1);
    assert(0x10_0000_0000_0000 * unit <= n < 0x20_0000_0000_0000 * unit) by (nonlinear_arith)
        requires
            0x10_0000_0000_0000 <= q < 0x20_0000_0000_0000,
            n == q * unit + pow2(d),
            0 < pow2(d) < unit,
    ;
    lemma_excess_is_unique(n, d + 1);
    lemma_fundamental_div_mod_converse(n as int, unit as int, q as int, pow2(d) as int);
}

} // verus!
