//! Saturating arithmetic on stored bounds.
use vstd::prelude::*;

verus! {

/// The "no bound" marker: a quarter of the largest `i128`.
pub const DBM_INF: i128 = 0x1FFF_FFFF_FFFF_FFFF_FFFF_FFFF_FFFF_FFFF;

/// The lowest value that closing writes into a cell.
pub const DBM_FLOOR: i128 = -0x7FFF_FFFF_FFFF_FFFF_FFFF_FFFF_FFFF_FFFC;

/// `x` brought into `[i128::MIN, DBM_INF]`.
pub open spec fn clip(x: int) -> int {
    if x >= DBM_INF {
        DBM_INF as int
    } else if x < i128::MIN {
        i128::MIN as int
    } else {
        x
    }
}

/// Sum with `DBM_INF` absorbing.
pub open spec fn spec_sat_add(a: int, b: int) -> int {
    if a == DBM_INF || b == DBM_INF {
        DBM_INF as int
    } else {
        clip(a + b)
    }
}

/// Sum brought into `[DBM_FLOOR, DBM_INF]`.
pub open spec fn oplus(a: int, b: int) -> int {
    if spec_sat_add(a, b) < DBM_FLOOR {
        DBM_FLOOR as int
    } else {
        spec_sat_add(a, b)
    }
}

/// Difference, with `DBM_INF` for plus infinity and `i128::MIN` for minus
/// infinity; infinity minus infinity is infinity.
pub open spec fn spec_sat_sub(a: int, b: int) -> int {
    if a == DBM_INF {
        DBM_INF as int
    } else if b == DBM_INF {
        i128::MIN as int
    } else if b == i128::MIN {
        DBM_INF as int
    } else {
        clip(a - b)
    }
}

/// Negation that swaps the two infinities.
pub open spec fn spec_sat_neg(a: int) -> int {
    if a == DBM_INF {
        i128::MIN as int
    } else {
        clip(-a)
    }
}

/// Twice `c`, clipped.
pub open spec fn spec_sat_mul2(c: int) -> int {
    clip(2 * c)
}

/// Twice `c` as a bound to insert: what does not fit strictly between the two
/// infinities is no bound.
pub open spec fn spec_sat_mul2_bound(c: int) -> int {
    if i128::MIN < 2 * c < DBM_INF {
        2 * c
    } else {
        DBM_INF as int
    }
}

/// Product, where a factor `DBM_INF` gives `DBM_INF` whatever the other one
/// is, and a factor `i128::MIN` is minus infinity.
pub open spec fn spec_sat_mul(a: int, b: int) -> int {
    if a == DBM_INF || b == DBM_INF {
        DBM_INF as int
    } else if a == i128::MIN || b == i128::MIN {
        if (a < 0 && b < 0) {
            DBM_INF as int
        } else {
            i128::MIN as int
        }
    } else {
        clip(a * b)
    }
}

/// A lower bound of a sum; `i128::MIN` stands for none.
pub open spec fn low_sum(a: int, b: int) -> int {
    if a == i128::MIN || b == i128::MIN {
        i128::MIN as int
    } else {
        clip(a + b)
    }
}

/// A lower bound of a difference, from a lower and an upper bound.
pub open spec fn low_difference(a: int, b: int) -> int {
    if a == i128::MIN || b == DBM_INF {
        i128::MIN as int
    } else {
        clip(a - b)
    }
}

/// An upper bound of a difference, from an upper and a lower bound; `DBM_INF`
/// stands for none.
pub open spec fn high_difference(a: int, b: int) -> int {
    if a == DBM_INF || b == i128::MIN {
        DBM_INF as int
    } else {
        clip(a - b)
    }
}

/// `a + b`, saturating.
pub fn sat_add(a: i128, b: i128) -> (r: i128)
    ensures
        r == spec_sat_add(a as int, b as int),
{
    if a == DBM_INF || b == DBM_INF {
        return DBM_INF;
    }
    match a.checked_add(b) {
        Some(s) => if s < DBM_INF {
            s
        } else {
            DBM_INF
        },
        None => if a < 0 && b < 0 {
            i128::MIN
        } else {
            DBM_INF
        },
    }
}

/// `a + b` for closing: never below `DBM_FLOOR`.
pub fn sat_add_closed(a: i128, b: i128) -> (r: i128)
    ensures
        r == oplus(a as int, b as int),
{
    let s: i128 = sat_add(a, b);
    if s < DBM_FLOOR {
        DBM_FLOOR
    } else {
        s
    }
}

/// `a - b`, saturating.
pub fn sat_sub(a: i128, b: i128) -> (r: i128)
    ensures
        r == spec_sat_sub(a as int, b as int),
{
    if a == DBM_INF {
        return DBM_INF;
    }
    if b == DBM_INF {
        return i128::MIN;
    }
    if b == i128::MIN {
        return DBM_INF;
    }
    match a.checked_sub(b) {
        Some(s) => if s < DBM_INF {
            s
        } else {
            DBM_INF
        },
        None => if a < 0 && b > 0 {
            i128::MIN
        } else {
            DBM_INF
        },
    }
}

/// `-a`, saturating.
pub fn sat_neg(a: i128) -> (r: i128)
    ensures
        r == spec_sat_neg(a as int),
{
    if a == DBM_INF {
        return i128::MIN;
    }
    if a == i128::MIN {
        return DBM_INF;
    }
    let s: i128 = -a;
    if s < DBM_INF {
        s
    } else {
        DBM_INF
    }
}

/// `2 * c`, saturating.
pub fn sat_mul2(c: i128) -> (r: i128)
    ensures
        r == spec_sat_mul2(c as int),
{
    if c == DBM_INF {
        return DBM_INF;
    }
    match c.checked_mul(2) {
        Some(v) => if v < DBM_INF {
            v
        } else {
            DBM_INF
        },
        None => if c > 0 {
            DBM_INF
        } else {
            i128::MIN
        },
    }
}

/// `2 * c` as a bound to insert.
pub fn sat_mul2_bound(c: i128) -> (r: i128)
    ensures
        r == spec_sat_mul2_bound(c as int),
{
    if c == DBM_INF {
        return DBM_INF;
    }
    match c.checked_mul(2) {
        Some(v) => if v < DBM_INF && v > i128::MIN {
            v
        } else {
            DBM_INF
        },
        None => DBM_INF,
    }
}

/// `a * b` for interval arithmetic.
pub fn sat_mul(a: i128, b: i128) -> (r: i128)
    ensures
        r == spec_sat_mul(a as int, b as int),
{
    if a == DBM_INF || b == DBM_INF {
        return DBM_INF;
    }
    if a == i128::MIN || b == i128::MIN {
        if a < 0 && b < 0 {
            return DBM_INF;
        }
        return i128::MIN;
    }
    let p = a.checked_mul(b);
    proof {
        assert((a > 0 && b > 0) || (a < 0 && b < 0) ==> a * b > 0) by (nonlinear_arith);
        assert(!((a > 0 && b > 0) || (a < 0 && b < 0)) ==> a * b <= 0) by (nonlinear_arith);
    }
    match p {
        Some(v) => if v < DBM_INF {
            v
        } else {
            DBM_INF
        },
        None => if (a > 0 && b > 0) || (a < 0 && b < 0) {
            DBM_INF
        } else {
            i128::MIN
        },
    }
}

/// `a + b`, clipped.
pub fn clipped_sum(a: i128, b: i128) -> (r: i128)
    ensures
        r == clip(a + b),
{
    match a.checked_add(b) {
        Some(s) => if s < DBM_INF {
            s
        } else {
            DBM_INF
        },
        None => if a < 0 {
            i128::MIN
        } else {
            DBM_INF
        },
    }
}

/// `a - b`, clipped.
pub fn clipped_difference(a: i128, b: i128) -> (r: i128)
    ensures
        r == clip(a - b),
{
    match a.checked_sub(b) {
        Some(s) => if s < DBM_INF {
            s
        } else {
            DBM_INF
        },
        None => if a < 0 {
            i128::MIN
        } else {
            DBM_INF
        },
    }
}

/// `a * b`, clipped.
pub fn clipped_product(a: i128, b: i128) -> (r: i128)
    ensures
        r == clip(a * b),
{
    let p = a.checked_mul(b);
    proof {
        assert((a > 0 && b > 0) || (a < 0 && b < 0) ==> a * b > 0) by (nonlinear_arith);
        assert(!((a > 0 && b > 0) || (a < 0 && b < 0)) ==> a * b <= 0) by (nonlinear_arith);
    }
    match p {
        Some(v) => if v < DBM_INF {
            v
        } else {
            DBM_INF
        },
        None => if (a > 0 && b > 0) || (a < 0 && b < 0) {
            DBM_INF
        } else {
            i128::MIN
        },
    }
}

/// Floor of half of `s`.
pub fn half_floor(s: i128) -> (r: i128)
    ensures
        r == s as int / 2,
{
    let r: i128 = s >> 1;
    assert(2 * (s >> 1) <= s && s <= 2 * (s >> 1) + 1) by (bit_vector);
    r
}

/// Ceiling of half of `s`.
pub fn half_ceil(s: i128) -> (r: i128)
    requires
        s < DBM_INF,
    ensures
        r == (s + 1) / 2,
{
    half_floor(s + 1)
}

/// `s` rounded down to a multiple of four, kept at `DBM_FLOOR` or above.
pub open spec fn spec_floor4(s: int) -> int {
    if s - s % 4 < DBM_FLOOR {
        DBM_FLOOR as int
    } else {
        s - s % 4
    }
}

/// Rounds `s` down to a multiple of four, but not below `DBM_FLOOR`.
pub fn floor4(s: i128) -> (r: i128)
    ensures
        r == spec_floor4(s as int),
{
    let q: i128 = s >> 2;
    assert(4 * (s >> 2) <= s && s <= 4 * (s >> 2) + 3) by (bit_vector);
    assert(((s >> 2) << 2) == 4 * (s >> 2)) by (bit_vector);
    let r: i128 = q << 2;
    if r < DBM_FLOOR {
        DBM_FLOOR
    } else {
        r
    }
}

/// The node of the same variable with the other sign.
pub open spec fn mirror(i: int) -> int {
    if i % 2 == 0 {
        i + 1
    } else {
        i - 1
    }
}

/// Mirrors a node index.
pub fn mirror_index(i: usize) -> (r: usize)
    ensures
        r == mirror(i as int),
{
    assert(i % 2 == 0 ==> i ^ 1 == i + 1) by (bit_vector);
    assert(i % 2 == 1 ==> i ^ 1 == i - 1) by (bit_vector);
    i ^ 1
}

} // verus!
