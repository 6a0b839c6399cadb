//! Bit-level facts about node ids: neighbours differ in one bit, and the
//! lowest set bit of an id decides where it stands in a spanning tree.

use vstd::prelude::*;
use vstd::std_specs::bits::{u32_trailing_zeros, axiom_u32_trailing_zeros};
use vstd::arithmetic::power2::pow2;
use vstd::bits::{lemma_u32_shl_is_mul, lemma_u32_pow2_no_overflow};

verus! {

/// Bit `i` of `x` is set.
pub open spec fn has_bit(x: u32, i: u32) -> bool {
    (x >> i) & 1u32 == 1u32
}

/// The neighbour of `x` across dimension `i`: `x` with bit `i` flipped.
pub open spec fn flip(x: u32, i: u32) -> u32 {
    x ^ (1u32 << i)
}

/// The index of the lowest set bit of `x`; 32 when `x` is zero.
pub open spec fn lowest_bit(x: u32) -> u32 {
    u32_trailing_zeros(x)
}

/// The mask of the bits below `i` (all 32 bits once `i` reaches 32).
pub open spec fn low_mask(i: u32) -> u32 {
    if i >= 32 {
        0xffff_ffffu32
    } else {
        ((1u32 << i) - 1u32) as u32
    }
}

/// What the lowest set bit is: set itself, with every bit below it clear.
pub proof fn lemma_lowest_bit(x: u32)
    ensures
        lowest_bit(x) <= 32,
        x == 0 <==> lowest_bit(x) == 32,
        lowest_bit(x) < 32 ==> has_bit(x, lowest_bit(x)),
        forall|j: u32| j < lowest_bit(x) ==> !#[trigger] has_bit(x, j),
{
    axiom_u32_trailing_zeros(x);
    assert forall|j: u32| j < lowest_bit(x) implies !#[trigger] has_bit(x, j) by {
        assert((x >> j) & 1u32 == 0u32);
    }
}

/// A set bit with only clear bits below it is the lowest set bit.
pub proof fn lemma_lowest_bit_is(x: u32, i: u32)
    requires
        i < 32,
        has_bit(x, i),
        forall|j: u32| j < i ==> !#[trigger] has_bit(x, j),
    ensures
        lowest_bit(x) == i,
{
    lemma_lowest_bit(x);
    if lowest_bit(x) < i {
        assert(has_bit(x, lowest_bit(x)));
    }
}

/// Below or at the lowest set bit, bit `i` is set exactly at the lowest set bit.
pub proof fn lemma_bit_at_or_below_lowest(x: u32, i: u32)
    requires
        i < 32,
        i <= lowest_bit(x),
    ensures
        has_bit(x, i) <==> lowest_bit(x) == i,
{
    lemma_lowest_bit(x);
}

/// Adding bit `i` to the mask of the bits below `i`.
pub proof fn lemma_low_mask_step(x: u32, i: u32)
    requires
        i < 32,
    ensures
        low_mask((i + 1) as u32) ^ (1u32 << i) == low_mask(i),
{
    lemma_low_mask_grow(x, i);
    let m = low_mask(i);
    assert((m ^ (1u32 << i)) ^ (1u32 << i) == m) by (bit_vector);
}

/// The mask of the bits below `i + 1` is that of the bits below `i` with bit `i` added, and
/// `x` is clear under it exactly when it is clear under the smaller mask and at bit `i`.
pub proof fn lemma_low_mask_grow(x: u32, i: u32)
    requires
        i < 32,
    ensures
        low_mask((i + 1) as u32) == low_mask(i) ^ (1u32 << i),
        (x & (low_mask(i) ^ (1u32 << i)) == 0u32) == (x & low_mask(i) == 0u32 && !has_bit(x, i)),
{
    assert(i + 1 < 32 ==> ((1u32 << ((i + 1) as u32)) - 1u32) as u32 == ((((1u32 << i) - 1u32) as u32)
        ^ (1u32 << i))) by (bit_vector);
    assert(i + 1 == 32 ==> 0xffff_ffffu32 == ((((1u32 << i) - 1u32) as u32) ^ (1u32 << i)))
        by (bit_vector);
    assert(i < 32 ==> ((x & ((((1u32 << i) - 1u32) as u32) ^ (1u32 << i)) == 0u32) == (x & (((1u32
        << i) - 1u32) as u32) == 0u32 && (x >> i) & 1u32 != 1u32))) by (bit_vector);
}


/// The bits below `i` are all clear exactly when `x` has no set bit in `low_mask(i)`.
pub proof fn lemma_low_mask_clear(x: u32, i: u32)
    requires
        i <= 32,
    ensures
        (x & low_mask(i) == 0u32) <==> (forall|j: u32| j < i ==> !#[trigger] has_bit(x, j)),
        (x & low_mask(i) == 0u32) <==> i <= lowest_bit(x),
    decreases i,
{
    lemma_lowest_bit(x);
    if i == 0 {
        assert(x & 0u32 == 0u32) by (bit_vector);
        assert(((1u32 << 0u32) - 1u32) as u32 == 0u32) by (bit_vector);
    } else {
        let h = (i - 1) as u32;
        lemma_low_mask_clear(x, h);
        lemma_low_mask_grow(x, h);
        if x & low_mask(i) == 0u32 {
            assert forall|j: u32| j < i implies !#[trigger] has_bit(x, j) by {
                if j < h {
                    assert(!has_bit(x, j));
                }
            }
        } else if forall|j: u32| j < i ==> !#[trigger] has_bit(x, j) {
            assert(!has_bit(x, h));
        }
        if i <= lowest_bit(x) {
            assert(!has_bit(x, h));
        } else if x & low_mask(i) == 0u32 {
            assert(!has_bit(x, lowest_bit(x)));
        }
    }
}

/// Flipping bit `i` lowers `x` exactly when the bit was set, and flipping twice is no change.
pub proof fn lemma_flip(x: u32, i: u32)
    requires
        i < 32,
    ensures
        (flip(x, i) < x) == has_bit(x, i),
        (flip(x, i) > x) == !has_bit(x, i),
        flip(flip(x, i), i) == x,
        has_bit(flip(x, i), i) == !has_bit(x, i),
        has_bit(x, i) ==> flip(x, i) == x - pow2(i as nat),
        !has_bit(x, i) ==> flip(x, i) == x + pow2(i as nat),
{
    assert(i < 32 ==> (x ^ (1u32 << i) < x) == ((x >> i) & 1u32 == 1u32)) by (bit_vector);
    assert(i < 32 ==> (x ^ (1u32 << i) > x) == ((x >> i) & 1u32 != 1u32)) by (bit_vector);
    assert((x ^ (1u32 << i)) ^ (1u32 << i) == x) by (bit_vector);
    assert(i < 32 ==> ((((x ^ (1u32 << i)) >> i) & 1u32 == 1u32) == ((x >> i) & 1u32 != 1u32)))
        by (bit_vector);
    assert(i < 32 ==> ((x >> i) & 1u32 == 1u32 ==> (x ^ (1u32 << i)) == x - (1u32 << i)))
        by (bit_vector);
    assert(i < 32 ==> ((x >> i) & 1u32 != 1u32 ==> (x ^ (1u32 << i)) == x + (1u32 << i)))
        by (bit_vector);
    lemma_bit_value(i);
}

/// `1 << i` is `2^i`.
pub proof fn lemma_bit_value(i: u32)
    requires
        i < 32,
    ensures
        (1u32 << i) == pow2(i as nat),
{
    lemma_u32_pow2_no_overflow(i as nat);
    lemma_u32_shl_is_mul(1u32, i);
}

/// Flipping bit `i` leaves every other bit alone.
pub proof fn lemma_flip_other_bit(x: u32, i: u32, j: u32)
    requires
        i < 32,
        j < 32,
        i != j,
    ensures
        has_bit(flip(x, i), j) == has_bit(x, j),
{
    assert(i < 32 && j < 32 && i != j ==> ((((x ^ (1u32 << i)) >> j) & 1u32 == 1u32) == ((x >> j)
        & 1u32 == 1u32))) by (bit_vector);
}

/// Flipping a bit commutes with taking ids relative to another node.
pub proof fn lemma_flip_relative(x: u32, s: u32, i: u32)
    ensures
        flip(x, i) ^ s == flip(x ^ s, i),
        flip(x ^ s, i) ^ s == flip(x, i),
        (x ^ s) ^ s == x,
        x ^ x == 0u32,
        (x ^ s == 0u32) == (x == s),
{
    assert((x ^ (1u32 << i)) ^ s == (x ^ s) ^ (1u32 << i)) by (bit_vector);
    assert(((x ^ s) ^ (1u32 << i)) ^ s == x ^ (1u32 << i)) by (bit_vector);
    assert((x ^ s) ^ s == x) by (bit_vector);
    assert(x ^ x == 0u32) by (bit_vector);
    assert((x ^ s == 0u32) == (x == s)) by (bit_vector);
}

/// Clearing the lowest set bit of a non-zero `x` gives a smaller number
/// whose lowest set bit is higher (or which is zero).
pub proof fn lemma_clear_lowest(x: u32)
    requires
        x != 0,
    ensures
        flip(x, lowest_bit(x)) < x,
        lowest_bit(x) < lowest_bit(flip(x, lowest_bit(x))),
{
    let k = lowest_bit(x);
    lemma_lowest_bit(x);
    lemma_flip(x, k);
    let y = flip(x, k);
    lemma_lowest_bit(y);
    assert forall|j: u32| j <= k implies !#[trigger] has_bit(y, j) by {
        if j < k {
            lemma_flip_other_bit(x, k, j);
        }
    }
    if lowest_bit(y) <= k {
        if lowest_bit(y) < 32 {
            assert(has_bit(y, lowest_bit(y)));
        }
    }
}

/// Setting bit `i` of a node whose bits up to `i` are clear gives a node
/// whose lowest set bit is `i`.
pub proof fn lemma_set_below_lowest(x: u32, i: u32)
    requires
        i < 32,
        i < lowest_bit(x),
    ensures
        lowest_bit(flip(x, i)) == i,
        !has_bit(x, i),
        flip(x, i) == x + pow2(i as nat),
{
    lemma_lowest_bit(x);
    lemma_flip(x, i);
    let y = flip(x, i);
    assert forall|j: u32| j < i implies !#[trigger] has_bit(y, j) by {
        lemma_flip_other_bit(x, i, j);
    }
    lemma_lowest_bit_is(y, i);
}

/// Node ids of the cube of `2^dims` nodes stay in it under xor, and a
/// non-zero one has its lowest set bit below `dims`.
pub proof fn lemma_in_cube(dims: u32, x: u32, y: u32)
    requires
        dims < 32,
        (x as nat) < pow2(dims as nat),
    ensures
        (y as nat) < pow2(dims as nat) ==> ((x ^ y) as nat) < pow2(dims as nat),
        x != 0 ==> lowest_bit(x) < dims,
        forall|i: u32| i < dims ==> ((#[trigger] flip(x, i)) as nat) < pow2(dims as nat),
{
    lemma_bit_value(dims);
    assert(dims < 32 && x < (1u32 << dims) && y < (1u32 << dims) ==> (x ^ y) < (1u32 << dims))
        by (bit_vector);
    assert forall|i: u32| i < dims implies ((#[trigger] flip(x, i)) as nat) < pow2(dims as nat) by {
        assert(i < dims && dims < 32 && x < (1u32 << dims) ==> (x ^ (1u32 << i)) < (1u32 << dims))
            by (bit_vector);
    }
    lemma_lowest_bit(x);
    if x != 0 {
        let k = lowest_bit(x);
        assert(k < 32 && (x >> k) & 1u32 == 1u32 ==> x >= (1u32 << k)) by (bit_vector);
        if k >= dims {
            assert(dims <= k && k < 32 ==> (1u32 << dims) <= (1u32 << k)) by (bit_vector);
        }
    }
}

/// Distinct dimensions lead to distinct neighbours.
pub proof fn lemma_flip_injective(x: u32, a: u32, b: u32)
    requires
        a < 32,
        b < 32,
        flip(x, a) == flip(x, b),
    ensures
        a == b,
{
    assert(a < 32 && b < 32 && x ^ (1u32 << a) == x ^ (1u32 << b) ==> a == b) by (bit_vector);
}

} // verus!
