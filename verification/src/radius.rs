//! The bounding radius: how far the farthest vertex lies from the origin, and
//! never less than one.
//!
//! The distances themselves are floating-point work and come from the caller,
//! one for each vertex, as bit patterns. What is decided here is which of them
//! is the greatest. The order of single-precision numbers is read off their
//! bit patterns: the sign bit, then the magnitude.

use vstd::prelude::*;

verus! {

/// The bit pattern of the number one.
pub const ONE: u32 = 0x3F80_0000;

/// The bits of the magnitude: everything but the sign.
pub const MAGNITUDE: u32 = 0x7FFF_FFFF;

/// The bit of the sign.
pub const SIGN: u32 = 0x8000_0000;

/// The bit pattern of positive infinity, the greatest magnitude of a number.
pub const INFINITY: u32 = 0x7F80_0000;

/// Whether the pattern is not a number.
pub open spec fn is_nan(b: u32) -> bool {
    (b & MAGNITUDE) > INFINITY
}

/// The place of a number in the order of all numbers: its magnitude, negated
/// where the sign bit is set. The two zeros share the place 0.
pub open spec fn rank(b: u32) -> int {
    if b & SIGN == 0 {
        (b & MAGNITUDE) as int
    } else {
        -((b & MAGNITUDE) as int)
    }
}

/// Whether `a` is greater than `b` as numbers. Nothing is greater than, or
/// less than, what is not a number.
pub open spec fn greater(a: u32, b: u32) -> bool {
    !is_nan(a) && !is_nan(b) && rank(a) > rank(b)
}

/// Whether `r` is the bounding radius of the distances `d`: it is one or one
/// of the distances, it is a number and at least one, and no distance is
/// greater.
pub open spec fn is_radius(d: Seq<u32>, r: u32) -> bool {
    &&& r == ONE || d.contains(r)
    &&& !is_nan(r)
    &&& !greater(ONE, r)
    &&& forall|i: int| 0 <= i < d.len() ==> !greater(#[trigger] d[i], r)
}

/// Tells whether `a` is greater than `b` as numbers.
pub fn is_greater(a: u32, b: u32) -> (r: bool)
    ensures
        r == greater(a, b),
{
    let ma = a & MAGNITUDE;
    let mb = b & MAGNITUDE;
    if ma > INFINITY || mb > INFINITY {
        return false;
    }
    let a_negative = a & SIGN != 0;
    let b_negative = b & SIGN != 0;
    if a_negative {
        if b_negative {
            ma < mb
        } else {
            false
        }
    } else {
        if b_negative {
            ma > 0 || mb > 0
        } else {
            ma > mb
        }
    }
}

/// The bounding radius of a mesh whose vertices lie at the distances `d` from
/// the origin: the greatest of them, and one where none is greater than one.
/// Distances that are not numbers are passed over.
pub fn bounding_radius(distances: &[u32]) -> (r: u32)
    ensures
        is_radius(distances@, r),
{
    let mut r: u32 = ONE;
    let mut i: usize = 0;
    proof {
        lemma_one();
    }
    while i < distances.len()
        invariant
            0 <= i <= distances@.len(),
            r == ONE || distances@.contains(r),
            !is_nan(r),
            !greater(ONE, r),
            forall|j: int| 0 <= j < i ==> !greater(#[trigger] distances@[j], r),
        decreases distances@.len() - i,
    {
        let d = distances[i];
        if is_greater(d, r) {
            assert(distances@.contains(d));
            r = d;
        }
        i = i + 1;
    }
    r
}

/// One is a number, and its rank is its bit pattern.
pub proof fn lemma_one()
    ensures
        !is_nan(ONE),
        rank(ONE) == ONE,
{
    assert(ONE & MAGNITUDE == ONE) by (bit_vector);
    assert(ONE & SIGN == 0) by (bit_vector);
}

/// Two patterns of numbers with the same rank, neither of them a zero, are
/// the same pattern.
proof fn lemma_rank_injective(a: u32, b: u32)
    requires
        rank(a) == rank(b),
        rank(a) != 0,
    ensures
        a == b,
{
    assert((a & MAGNITUDE) == (b & MAGNITUDE) && ((a & SIGN == 0) == (b & SIGN == 0)) ==> a == b)
        by (bit_vector);
}

/// The bounding radius is unique: the distances leave no choice.
pub proof fn lemma_radius_unique(d: Seq<u32>, r1: u32, r2: u32)
    requires
        is_radius(d, r1),
        is_radius(d, r2),
    ensures
        r1 == r2,
{
    lemma_one();
    assert(rank(r1) <= rank(r2)) by {
        if r1 != ONE {
            let i = choose|i: int| 0 <= i < d.len() && d[i] == r1;
            assert(!greater(d[i], r2));
        }
    }
    assert(rank(r2) <= rank(r1)) by {
        if r2 != ONE {
            let i = choose|i: int| 0 <= i < d.len() && d[i] == r2;
            assert(!greater(d[i], r1));
        }
    }
    lemma_rank_injective(r1, r2);
}

/// The radius never falls below one: where no vertex lies farther than one
/// from the origin, and so for a mesh without vertices, it is exactly one.
pub proof fn lemma_radius_floor(d: Seq<u32>, r: u32)
    requires
        is_radius(d, r),
        forall|i: int| 0 <= i < d.len() ==> !greater(#[trigger] d[i], ONE),
    ensures
        r == ONE,
{
    lemma_one();
    if r != ONE {
        let i = choose|i: int| 0 <= i < d.len() && d[i] == r;
        assert(!greater(d[i], ONE));
        lemma_rank_injective(r, ONE);
    }
}

/// Where some vertex lies farther than one from the origin, the radius is the
/// distance of a vertex, and no vertex lies farther.
pub proof fn lemma_radius_reached(d: Seq<u32>, r: u32, i: int)
    requires
        is_radius(d, r),
        0 <= i < d.len(),
        greater(d[i], ONE),
    ensures
        d.contains(r),
        !greater(d[i], r),
{
    lemma_one();
}

} // verus!
