use vstd::prelude::*;
use vstd::arithmetic::div_mod::{lemma_fundamental_div_mod, lemma_fundamental_div_mod_converse};

verus! {

/// The floored quotient `⌊left / right⌋`: rounded toward negative infinity.
pub open spec fn floor_div(left: int, right: int) -> int
    recommends
        right != 0,
{
    if right > 0 {
        left / right
    } else {
        (-left) / (-right)
    }
}

/// The remainder that goes with `floor_div`: it takes the sign of the divisor.
pub open spec fn floor_rem(left: int, right: int) -> int
    recommends
        right != 0,
{
    left - right * floor_div(left, right)
}

/// For `a >= 0` and `b > 0`, the floored quotient of `-a` by `b` is minus the
/// ceiling of `a / b`.
proof fn lemma_negated_quotient(a: int, b: int)
    requires
        a >= 0,
        b > 0,
    ensures
        (-a) / b == -(a / b) - (if a % b == 0 { 0int } else { 1int }),
{
    lemma_fundamental_div_mod(a, b);
    let q = a / b;
    let r = a % b;
    if r == 0 {
        assert(-a == (-q) * b + 0) by (nonlinear_arith)
            requires
                a == b * q + r,
                r == 0,
        ;
        lemma_fundamental_div_mod_converse(-a, b, -q, 0);
    } else {
        assert(-a == (-q - 1) * b + (b - r)) by (nonlinear_arith)
            requires
                a == b * q + r,
        ;
        lemma_fundamental_div_mod_converse(-a, b, -q - 1, b - r);
    }
}

/// Both floored quotients agree when the divisor changes sign together with the dividend.
proof fn lemma_floor_div_facts(left: int, right: int)
    requires
        right != 0,
    ensures
        right > 0 ==> 0 <= floor_rem(left, right) < right,
        right < 0 ==> right < floor_rem(left, right) <= 0,
{
    if right > 0 {
        lemma_fundamental_div_mod(left, right);
    } else {
        lemma_fundamental_div_mod(-left, -right);
        assert(floor_rem(left, right) == -((-left) % (-right))) by (nonlinear_arith)
            requires
                -left == (-right) * ((-left) / (-right)) + (-left) % (-right),
                floor_rem(left, right) == left - right * ((-left) / (-right)),
        ;
    }
}

/// The magnitude of a 64-bit integer, which always fits in 64 unsigned bits.
fn magnitude(found: i64) -> (size: u64)
    ensures
        size as int == if found < 0 { -found } else { found as int },
{
    if found < 0 {
        ((0i128 - found as i128) as u64)
    } else {
        found as u64
    }
}

/// Floored quotient of two integers. A zero divisor stops the program, so
/// it is left out; the quotient of `i64::MIN` by `-1` does not fit and
/// wraps around to `i64::MIN`.
pub fn sr_quot_int(left: i64, right: i64) -> (made: i64)
    requires
        right != 0,
    ensures
        made == if left == i64::MIN && right == -1 {
            i64::MIN as int
        } else {
            floor_div(left as int, right as int)
        },
{
    if left == i64::MIN && right == -1 {
        return i64::MIN;
    }
    let a = magnitude(left);
    let b = magnitude(right);
    let whole = a / b;
    let rest = a % b;
    proof {
        lemma_fundamental_div_mod(a as int, b as int);
    }
    if (left < 0) == (right < 0) {
        proof {
            if right > 0 {
                assert(left as int / right as int == a as int / b as int);
            } else {
                assert((-left) / (-right) == a as int / b as int);
            }
            assert(whole < 0x8000_0000_0000_0000u64) by {
                if a == 0x8000_0000_0000_0000u64 {
                    assert(b >= 2);
                    assert(whole as int <= a as int / 2) by (nonlinear_arith)
                        requires
                            b >= 2,
                            whole == a as int / b as int,
                            a >= 0,
                    ;
                }
            }
        }
        whole as i64
    } else {
        proof {
            lemma_negated_quotient(a as int, b as int);
            if right > 0 {
                assert(left as int == -(a as int));
            } else {
                assert(left as int == a as int);
                assert(-(right as int) == b as int);
            }
            if b == 1 {
                assert(rest == 0);
            } else {
                assert(whole as int <= a as int / 2) by (nonlinear_arith)
                    requires
                        b >= 2,
                        whole == a as int / b as int,
                        a >= 0,
                ;
            }
        }
        let bump: i128 = if rest == 0 { 0 } else { 1 };
        (0i128 - whole as i128 - bump) as i64
    }
}

/// Floored remainder: it takes the sign of the divisor and pairs with
/// `sr_quot_int`. A zero divisor is a run-time error, left out here.
pub fn sr_rem_int(left: i64, right: i64) -> (made: i64)
    requires
        right != 0,
    ensures
        made == floor_rem(left as int, right as int),
        right > 0 ==> 0 <= made < right,
        right < 0 ==> right < made <= 0,
{
    let a = magnitude(left);
    let b = magnitude(right);
    let rest = a % b;
    proof {
        lemma_fundamental_div_mod(a as int, b as int);
        lemma_floor_div_facts(left as int, right as int);
        let q = a as int / b as int;
        if (left < 0) == (right < 0) {
            if right > 0 {
                assert(floor_div(left as int, right as int) == q);
            } else {
                assert(floor_div(left as int, right as int) == q);
                assert(floor_rem(left as int, right as int) == -(a as int) + (b as int) * q) by (nonlinear_arith)
                    requires
                        left == -(a as int),
                        right == -(b as int),
                        floor_rem(left as int, right as int) == left - right * floor_div(left as int, right as int),
                        floor_div(left as int, right as int) == q,
                ;
            }
        } else {
            lemma_negated_quotient(a as int, b as int);
            let bump: int = if rest == 0 { 0 } else { 1 };
            if right > 0 {
                assert(floor_rem(left as int, right as int) == -(rest as int) + (b as int) * bump) by (nonlinear_arith)
                    requires
                        left == -(a as int),
                        right == b as int,
                        a as int == (b as int) * q + rest as int,
                        floor_rem(left as int, right as int) == left - right * floor_div(left as int, right as int),
                        floor_div(left as int, right as int) == -q - bump,
                ;
            } else {
                assert(floor_rem(left as int, right as int) == rest as int - (b as int) * bump) by (nonlinear_arith)
                    requires
                        left == a as int,
                        right == -(b as int),
                        a as int == (b as int) * q + rest as int,
                        floor_rem(left as int, right as int) == left - right * floor_div(left as int, right as int),
                        floor_div(left as int, right as int) == -q - bump,
                ;
            }
        }
    }
    if (left < 0) == (right < 0) {
        if left < 0 {
            (0i128 - rest as i128) as i64
        } else {
            rest as i64
        }
    } else if rest == 0 {
        0
    } else if right > 0 {
        (b - rest) as i64
    } else {
        (rest as i128 - b as i128) as i64
    }
}

/// Quotient and remainder rebuild the dividend: `q * right + r == left`.
pub proof fn law_quot_rem_rebuild(left: i64, right: i64)
    requires
        right != 0,
    ensures
        floor_div(left as int, right as int) * right + floor_rem(left as int, right as int) == left,
{
    assert(floor_div(left as int, right as int) * right == right * floor_div(left as int, right as int)) by (nonlinear_arith);
}

} // verus!
