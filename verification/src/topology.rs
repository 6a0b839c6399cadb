//! Who is connected to whom: the size of a hypercube and the neighbour
//! lists from which the channels between nodes are set up.

use vstd::prelude::*;
use vstd::arithmetic::power2::{pow2, lemma_pow2_unfold};
use vstd::bits::{lemma_usize_shl_is_mul, lemma_usize_pow2_no_overflow};
use crate::ring::{ring_left, ring_right};

verus! {

/// Bit `i` of `x` is set.
pub open spec fn has_bit_usize(x: usize, i: u32) -> bool {
    (x >> i) & 1usize == 1usize
}

/// The neighbour of `x` across dimension `i`.
pub open spec fn flip_usize(x: usize, i: u32) -> usize {
    x ^ (1usize << i)
}

/// `x` is a neighbour of `id` in a hypercube of `n` dimensions.
pub open spec fn is_neighbor(id: usize, n: u32, x: usize) -> bool {
    exists|i: u32| i < n && x == #[trigger] flip_usize(id, i)
}

/// The number of set bits of `x` below `i`.
pub open spec fn set_below(x: usize, i: u32) -> nat
    decreases i,
{
    if i == 0 {
        0
    } else {
        set_below(x, (i - 1) as u32) + if has_bit_usize(x, (i - 1) as u32) { 1nat } else { 0nat }
    }
}

/// The number of clear bits of `x` below `i`.
pub open spec fn clear_below(x: usize, i: u32) -> nat
    decreases i,
{
    if i == 0 {
        0
    } else {
        clear_below(x, (i - 1) as u32) + if has_bit_usize(x, (i - 1) as u32) { 0nat } else { 1nat }
    }
}

proof fn lemma_bits_below(x: usize, i: u32)
    ensures
        set_below(x, i) + clear_below(x, i) == i,
    decreases i,
{
    if i > 0 {
        lemma_bits_below(x, (i - 1) as u32);
    }
}

proof fn lemma_flip_usize_order(x: usize, a: u32, b: u32)
    requires
        a < usize::BITS,
        b < usize::BITS,
    ensures
        has_bit_usize(x, a) ==> flip_usize(x, a) < x,
        !has_bit_usize(x, a) ==> flip_usize(x, a) > x,
        has_bit_usize(x, a) && has_bit_usize(x, b) && b < a ==> flip_usize(x, a) < flip_usize(x, b),
        !has_bit_usize(x, a) && !has_bit_usize(x, b) && a < b ==> flip_usize(x, a) < flip_usize(
            x,
            b,
        ),
{
    assert(a < usize::BITS ==> ((x >> a) & 1usize == 1usize ==> x ^ (1usize << a) < x))
        by (bit_vector);
    assert(a < usize::BITS ==> ((x >> a) & 1usize != 1usize ==> x ^ (1usize << a) > x))
        by (bit_vector);
    assert(a < usize::BITS && b < usize::BITS ==> ((x >> a) & 1usize == 1usize && (x >> b)
        & 1usize == 1usize && b < a ==> x ^ (1usize << a) < x ^ (1usize << b))) by (bit_vector);
    assert(a < usize::BITS && b < usize::BITS ==> ((x >> a) & 1usize != 1usize && (x >> b)
        & 1usize != 1usize && a < b ==> x ^ (1usize << a) < x ^ (1usize << b))) by (bit_vector);
}

/// The number of nodes of a hypercube of `n` dimensions: `2 << (n - 1)`.
pub fn hypercube_size(n: u32) -> (size: usize)
    requires
        1 <= n < usize::BITS,
    ensures
        size == pow2(n as nat),
{
    let shift = (n - 1) as usize;
    proof {
        lemma_pow2_unfold(n as nat);
        lemma_usize_pow2_no_overflow(n as nat);
        lemma_usize_shl_is_mul(2, shift);
    }
    2usize << shift
}

/// The neighbours of `id` in a hypercube of `n` dimensions, in increasing
/// order: `id ^ (1 << i)` for each `i < n`.
pub fn hypercube_neighbors(id: usize, n: u32) -> (neighbors: Vec<usize>)
    requires
        n <= usize::BITS,
    ensures
        neighbors@.len() == n,
        forall|a: int, b: int| 0 <= a < b < n ==> neighbors@[a] < neighbors@[b],
        forall|a: int| 0 <= a < n ==> is_neighbor(id, n, #[trigger] neighbors@[a]),
        forall|i: u32| i < n ==> neighbors@.contains(#[trigger] flip_usize(id, i)),
{
    let mut neighbors: Vec<usize> = Vec::new();
    let ghost mut dims: Seq<u32> = Seq::empty();
    // Neighbours below `id`: bits that are set, highest first.
    let mut i: u32 = n;
    while i > 0
        invariant
            i <= n <= usize::BITS,
            neighbors@.len() == dims.len(),
            dims.len() + set_below(id, i) == set_below(id, n),
            forall|t: int| 0 <= t < dims.len() ==> i <= #[trigger] dims[t] < n,
            forall|t: int| 0 <= t < dims.len() ==> has_bit_usize(id, #[trigger] dims[t]),
            forall|t: int|
                0 <= t < dims.len() ==> #[trigger] neighbors@[t] == flip_usize(id, dims[t]),
            forall|a: int, b: int| 0 <= a < b < dims.len() ==> dims[a] > dims[b],
            forall|j: u32|
                i <= j < n && has_bit_usize(id, j) ==> neighbors@.contains(
                    #[trigger] flip_usize(id, j),
                ),
        decreases i,
    {
        i = i - 1;
        if (id >> i) & 1 == 1 {
            let ghost before = neighbors@;
            neighbors.push(id ^ (1usize << i));
            proof {
                dims = dims.push(i);
                assert(neighbors@[dims.len() - 1] == flip_usize(id, i));
                assert forall|j: u32|
                    i <= j < n && has_bit_usize(id, j) implies neighbors@.contains(
                    #[trigger] flip_usize(id, j),
                ) by {
                    if j == i {
                        assert(neighbors@[dims.len() - 1] == flip_usize(id, j));
                    } else {
                        let t = choose|t: int| 0 <= t < before.len() && before[t] == flip_usize(
                            id,
                            j,
                        );
                        assert(neighbors@[t] == flip_usize(id, j));
                    }
                }
            }
        }
    }
    let ghost below = dims.len();
    // Neighbours above `id`: bits that are clear, lowest first.
    let mut i: u32 = 0;
    while i < n
        invariant
            i <= n <= usize::BITS,
            below <= dims.len(),
            below == set_below(id, n),
            dims.len() == below + clear_below(id, i),
            neighbors@.len() == dims.len(),
            forall|t: int| 0 <= t < dims.len() ==> #[trigger] dims[t] < n,
            forall|t: int| 0 <= t < below ==> has_bit_usize(id, #[trigger] dims[t]),
            forall|t: int| below <= t < dims.len() ==> !has_bit_usize(id, #[trigger] dims[t]),
            forall|t: int| below <= t < dims.len() ==> #[trigger] dims[t] < i,
            forall|t: int|
                0 <= t < dims.len() ==> #[trigger] neighbors@[t] == flip_usize(id, dims[t]),
            forall|a: int, b: int| 0 <= a < b < below ==> dims[a] > dims[b],
            forall|a: int, b: int| below <= a < b < dims.len() ==> dims[a] < dims[b],
            forall|j: u32|
                0 <= j < n && has_bit_usize(id, j) ==> neighbors@.contains(
                    #[trigger] flip_usize(id, j),
                ),
            forall|j: u32|
                j < i && !has_bit_usize(id, j) ==> neighbors@.contains(
                    #[trigger] flip_usize(id, j),
                ),
        decreases n - i,
    {
        proof {
            assert(((id >> i) & 1usize == 0usize) == !((id >> i) & 1usize == 1usize))
                by (bit_vector);
        }
        if (id >> i) & 1 == 0 {
            let ghost before = neighbors@;
            neighbors.push(id ^ (1usize << i));
            proof {
                dims = dims.push(i);
                assert(neighbors@[dims.len() - 1] == flip_usize(id, i));
                assert(!has_bit_usize(id, i));
                assert forall|j: u32|
                    (0 <= j < n && has_bit_usize(id, j)) || (j <= i && !has_bit_usize(id, j))
                    implies neighbors@.contains(#[trigger] flip_usize(id, j)) by {
                    if j == i && !has_bit_usize(id, j) {
                        assert(neighbors@[dims.len() - 1] == flip_usize(id, j));
                    } else {
                        let t = choose|t: int| 0 <= t < before.len() && before[t] == flip_usize(
                            id,
                            j,
                        );
                        assert(neighbors@[t] == flip_usize(id, j));
                    }
                }
            }
        }
        i = i + 1;
    }
    proof {
        lemma_bits_below(id, n);
        assert forall|a: int, b: int| 0 <= a < b < n implies neighbors@[a] < neighbors@[b] by {
            lemma_flip_usize_order(id, dims[a], dims[b]);
            lemma_flip_usize_order(id, dims[b], dims[a]);
        }
        assert forall|a: int| 0 <= a < n implies is_neighbor(id, n, #[trigger] neighbors@[a]) by {
            assert(neighbors@[a] == flip_usize(id, dims[a]));
            assert(dims[a] < n);
        }
    }
    neighbors
}

/// The neighbours of node `id` in a ring of `p` nodes: the right one, then
/// the left one. The ids are computed in `i32`, so `id + p` must fit.
pub fn ring_neighbors(id: usize, p: u32) -> (neighbors: Vec<usize>)
    requires
        id < p,
        id + p <= i32::MAX,
    ensures
        neighbors@ == seq![ring_right(p as nat, id as nat) as usize, ring_left(p as nat, id as nat) as usize],
{
    let p_usize = p as usize;
    let mut neighbors: Vec<usize> = Vec::new();
    neighbors.push((id + 1) % p_usize);
    neighbors.push((id + p_usize - 1) % p_usize);
    assert(neighbors@ =~= seq![ring_right(p as nat, id as nat) as usize, ring_left(p as nat, id as nat) as usize]);
    neighbors
}

} // verus!
