//! All-to-one gather (the "reduction" of the original) on a hypercube of
//! `2^dims` nodes, towards node 0.
//!
//! At step `i`, every node whose bits below `i` are clear takes part: if
//! bit `i` of its id is set it sends everything it holds to the neighbour
//! across dimension `i` (last held first) and drops out; otherwise it
//! receives `2^i` messages from that neighbour. A node therefore receives
//! at the steps below the lowest set bit of its id, then sends once.

use vstd::prelude::*;
use vstd::bits::lemma_u32_pow2_no_overflow;
use vstd::arithmetic::power2::{pow2, lemma_pow2_unfold, lemma_pow2_strictly_increases,
    lemma_pow2_pos};
use crate::bits::{has_bit, flip, lowest_bit, low_mask, lemma_lowest_bit, lemma_bit_at_or_below_lowest,
    lemma_low_mask_clear, lemma_low_mask_grow, lemma_flip, lemma_bit_value, lemma_set_below_lowest,
    lemma_in_cube, lemma_clear_lowest};
use crate::text::texts;
use crate::broadcast::in_cube;

verus! {

/// A receive step of the gather: how many messages come from which neighbour.
#[derive(Debug, Clone, Copy, PartialEq, Eq, Structural)]
pub struct Receipt {
    pub from: usize,
    pub count: u32,
}

/// What a node of the gather sends, to whom, and what it keeps.
pub struct ReductionOutcome {
    /// The neighbour it sends to; none for a node that only receives.
    pub send_to: Option<usize>,
    /// The messages it sends, in the order of sending.
    pub sends: Vec<String>,
    /// What it returns: everything gathered at node 0, nothing elsewhere.
    pub result: Vec<String>,
}

/// The number of steps at which `node` receives: the lowest set bit of its
/// id, at most `dims`.
pub open spec fn reduction_steps(dims: u32, node: u32) -> u32 {
    let k = lowest_bit(node);
    if k < dims { k } else { dims }
}

/// The neighbour to which `node` sends what it gathered, if any.
pub open spec fn reduction_parent(dims: u32, node: u32) -> Option<u32> {
    let k = lowest_bit(node);
    if k < dims { Some(flip(node, k)) } else { None }
}

/// The receive steps of `node`, in order: `2^i` messages from the
/// neighbour across dimension `i`, for each step `i`.
pub open spec fn reduction_receipts(dims: u32, node: u32) -> Seq<Receipt> {
    Seq::new(
        reduction_steps(dims, node) as nat,
        |i: int| Receipt { from: flip(node, i as u32) as usize, count: pow2(i as nat) as u32 },
    )
}

/// What a node holds after its receive steps: its own message, then what
/// it received, in order.
pub open spec fn reduction_collected(msg: Seq<char>, received: Seq<Seq<char>>) -> Seq<Seq<char>> {
    seq![msg] + received
}

/// What a node sends when it sends: all it holds, last held first.
pub open spec fn reduction_sent(msg: Seq<char>, received: Seq<Seq<char>>) -> Seq<Seq<char>> {
    reduction_collected(msg, received).reverse()
}

/// The receive steps of `my_id` in the gather over `dims` dimensions.
pub fn reduction_schedule(dims: u32, my_id: usize) -> (receipts: Vec<Receipt>)
    requires
        dims <= 32,
        my_id <= u32::MAX,
    ensures
        receipts@ == reduction_receipts(dims, my_id as u32),
{
    let my_id_u = my_id as u32;
    let ghost k = lowest_bit(my_id_u);
    let ghost full = reduction_receipts(dims, my_id_u);
    proof {
        lemma_lowest_bit(my_id_u);
    }
    let mut mask: u32 = 0;
    let mut receipts: Vec<Receipt> = Vec::new();
    let mut i: u32 = 0;
    assert(((1u32 << 0u32) - 1u32) as u32 == 0u32) by (bit_vector);
    while i < dims
        invariant
            i <= dims <= 32,
            my_id_u == my_id,
            k == lowest_bit(my_id_u),
            k <= 32,
            full == reduction_receipts(dims, my_id_u),
            mask == low_mask(i),
            receipts@.len() == (if i <= k { i as int } else { k as int }),
            forall|t: int| 0 <= t < receipts@.len() ==> receipts@[t] == full[t],
        decreases dims - i,
    {
        let bit = 1u32 << i;
        proof {
            lemma_low_mask_clear(my_id_u, i);
            lemma_bit_value(i);
            assert((my_id_u & (1u32 << i) == 0u32) == !has_bit(my_id_u, i)) by (bit_vector);
        }
        if my_id_u & mask == 0 {
            proof {
                lemma_bit_at_or_below_lowest(my_id_u, i);
            }
            if my_id_u & bit == 0 {
                receipts.push(Receipt { from: (my_id_u ^ bit) as usize, count: bit });
            }
        }
        proof {
            lemma_low_mask_grow(my_id_u, i);
        }
        mask = mask ^ bit;
        i = i + 1;
    }
    assert(receipts@ =~= full);
    receipts
}

/// The gather at `my_id`: `received` is everything that came in at the
/// receive steps of `reduction_schedule`, in order. The node holds its own
/// `msg` followed by `received`; if its lowest set bit is below `dims` it
/// sends all of that to the neighbour across that bit, last held first.
/// Node 0 returns what it holds; every other node returns nothing.
pub fn reduction_sim(dims: u32, my_id: usize, msg: String, received: Vec<String>) -> (out:
    ReductionOutcome)
    requires
        dims <= 32,
        my_id <= u32::MAX,
        received@.len() == pow2(reduction_steps(dims, my_id as u32) as nat) - 1,
    ensures
        out.send_to == (match reduction_parent(dims, my_id as u32) {
            Some(p) => Some(p as usize),
            None => None::<usize>,
        }),
        texts(out.sends@) == (if reduction_parent(dims, my_id as u32) is Some {
            reduction_sent(msg@, texts(received@))
        } else {
            Seq::empty()
        }),
        texts(out.result@) == (if my_id == 0 {
            reduction_collected(msg@, texts(received@))
        } else {
            Seq::empty()
        }),
{
    let my_id_u = my_id as u32;
    let ghost k = lowest_bit(my_id_u);
    let ghost m = reduction_steps(dims, my_id_u);
    let ghost collected = reduction_collected(msg@, texts(received@));
    proof {
        lemma_lowest_bit(my_id_u);
        lemma_pow2_pos(m as nat);
    }
    let mut mask: u32 = 0;
    let mut msg_vec: Vec<String> = Vec::new();
    msg_vec.push(msg);
    assert(texts(msg_vec@) =~= collected.take(1));
    let mut sends: Vec<String> = Vec::new();
    let mut send_to: Option<usize> = None;
    let mut next: usize = 0;
    let mut i: u32 = 0;
    assert(((1u32 << 0u32) - 1u32) as u32 == 0u32) by (bit_vector);
    proof {
        lemma_bit_value(0);
        assert((1u32 << 0u32) == 1u32) by (bit_vector);
    }
    while i < dims
        invariant
            i <= dims <= 32,
            my_id_u == my_id,
            k == lowest_bit(my_id_u),
            k <= 32,
            m == reduction_steps(dims, my_id_u),
            collected == reduction_collected(msg@, texts(received@)),
            collected.len() == pow2(m as nat),
            mask == low_mask(i),
            i <= k ==> {
                &&& next + 1 == pow2(i as nat)
                &&& texts(msg_vec@) == collected.take(next + 1)
                &&& sends@.len() == 0
                &&& send_to is None
            },
            i > k ==> {
                &&& msg_vec@.len() == 0
                &&& texts(sends@) == collected.reverse()
                &&& send_to == Some(flip(my_id_u, k) as usize)
            },
        decreases dims - i,
    {
        let bit = 1u32 << i;
        proof {
            lemma_low_mask_clear(my_id_u, i);
            lemma_bit_value(i);
            assert((my_id_u & (1u32 << i) == 0u32) == !has_bit(my_id_u, i)) by (bit_vector);
        }
        if my_id_u & mask == 0 {
            proof {
                lemma_bit_at_or_below_lowest(my_id_u, i);
            }
            if my_id_u & bit != 0 {
                let dest = my_id_u ^ bit;
                let num_to_send = msg_vec.len();
                assert(texts(msg_vec@) == collected);
                let mut j: usize = 0;
                while j < num_to_send
                    invariant
                        j <= num_to_send == collected.len(),
                        msg_vec@.len() == num_to_send - j,
                        texts(msg_vec@) == collected.take(num_to_send - j),
                        texts(sends@) == collected.reverse().take(j as int),
                    decreases num_to_send - j,
                {
                    let ghost before = msg_vec@;
                    let ghost last = num_to_send - j - 1;
                    assert(texts(before)[last] == before[last]@);
                    let to_send = msg_vec.pop().unwrap();
                    assert(texts(msg_vec@) =~= collected.take(num_to_send - j - 1));
                    assert(to_send@ == collected[last]);
                    assert(collected.reverse()[j as int] == collected[last]);
                    let ghost sends_before = sends@;
                    assert(texts(sends_before).len() == sends_before.len());
                    assert(sends_before.len() == j);
                    sends.push(to_send);
                    assert forall|t: int| 0 <= t < j implies texts(sends@)[t] == texts(
                        sends_before,
                    )[t] by {
                        assert(sends@[t] == sends_before[t]);
                    }
                    assert(texts(sends@) =~= collected.reverse().take(j + 1));
                    j = j + 1;
                }
                assert(texts(sends@) =~= collected.reverse());
                send_to = Some(dest as usize);
            } else {
                let src = my_id_u ^ bit;
                proof {
                    lemma_pow2_unfold((i + 1) as nat);
                    lemma_pow2_strictly_increases(i as nat, (i + 1) as nat);
                    if i + 1 < m {
                        lemma_pow2_strictly_increases((i + 1) as nat, m as nat);
                    }
                }
                let mut j: u32 = 0;
                while j < bit
                    invariant
                        j <= bit,
                        bit == pow2(i as nat),
                        pow2((i + 1) as nat) <= pow2(m as nat),
                        pow2((i + 1) as nat) == 2 * pow2(i as nat),
                        collected == reduction_collected(msg@, texts(received@)),
                        collected.len() == pow2(m as nat),
                        next + 1 == pow2(i as nat) + j,
                        texts(msg_vec@) == collected.take(next + 1),
                    decreases bit - j,
                {
                    assert(texts(received@)[next as int] == received@[next as int]@);
                    let ans = received[next].clone();
                    let ghost held_before = msg_vec@;
                    assert(texts(held_before).len() == held_before.len());
                    assert(held_before.len() == next + 1);
                    msg_vec.push(ans);
                    assert forall|t: int| 0 <= t <= next implies texts(msg_vec@)[t] == texts(
                        held_before,
                    )[t] by {
                        assert(msg_vec@[t] == held_before[t]);
                    }
                    assert(texts(msg_vec@) =~= collected.take(next + 2));
                    assert(next < received.len());
                    next = next + 1;
                    j = j + 1;
                }
            }
        }
        proof {
            lemma_low_mask_grow(my_id_u, i);
        }
        mask = mask ^ bit;
        i = i + 1;
    }
    proof {
        if k < dims {
            assert(i > k);
        } else {
            assert(next + 1 == pow2(m as nat));
            assert(collected.take(next + 1) =~= collected);
        }
    }
    let result = if my_id == 0 {
        msg_vec
    } else {
        Vec::new()
    };
    assert(my_id != 0 ==> texts(result@) =~= Seq::<Seq<char>>::empty());
    ReductionOutcome { send_to, sends, result }
}

/// What `node` receives over its first `steps` receive steps when, at each
/// step `i`, the node across dimension `i` (that is `node + 2^i`) sends what
/// it gathered over its own `i` steps. `msgs[n]` is node `n`'s own message.
pub open spec fn reduction_inbox(msgs: Seq<Seq<char>>, node: nat, steps: nat) -> Seq<Seq<char>>
    decreases steps,
{
    if steps == 0 {
        Seq::empty()
    } else {
        let i = (steps - 1) as nat;
        let child = node + pow2(i);
        reduction_inbox(msgs, node, i) + reduction_sent(
            msgs[child as int],
            reduction_inbox(msgs, child, i),
        )
    }
}

/// Sends and receives of the gather match up. At its receive step `i`, a
/// node receives from `node + 2^i`, which has exactly `i` receive steps of
/// its own and then sends to that node. Conversely, a node that sends, sends
/// to a node that receives from it at the step of the sender's lowest set
/// bit. Every node of the cube other than 0 sends.
pub proof fn law_reduction_matched(dims: u32, node: u32, i: int)
    requires
        dims <= 32,
    ensures
        0 <= i < reduction_steps(dims, node) ==> ({
            let c = flip(node, i as u32);
            &&& c == node + pow2(i as nat)
            &&& reduction_steps(dims, c) == i
            &&& reduction_parent(dims, c) == Some(node)
            &&& reduction_receipts(dims, node)[i] == Receipt {
                from: c as usize,
                count: pow2(i as nat) as u32,
            }
        }),
        reduction_parent(dims, node) matches Some(p) ==> ({
            let k = lowest_bit(node);
            &&& k < reduction_steps(dims, p)
            &&& flip(p, k) == node
        }),
        dims < 32 && in_cube(dims, node) && node != 0 ==> reduction_parent(dims, node) is Some,
{
    lemma_lowest_bit(node);
    if 0 <= i < reduction_steps(dims, node) {
        let c = flip(node, i as u32);
        lemma_set_below_lowest(node, i as u32);
        lemma_flip(node, i as u32);
    }
    if reduction_parent(dims, node) is Some {
        let k = lowest_bit(node);
        let p = flip(node, k);
        lemma_clear_lowest(node);
        lemma_lowest_bit(p);
        lemma_flip(node, k);
    }
    if dims < 32 && in_cube(dims, node) && node != 0 {
        lemma_in_cube(dims, node, 0);
    }
}

/// Over `steps` receive steps a node gathers `2^steps` messages: its own and
/// those of the `2^steps - 1` nodes that follow it, each exactly once.
pub proof fn law_reduction_gathers(msgs: Seq<Seq<char>>, node: nat, steps: nat)
    requires
        node + pow2(steps) <= msgs.len(),
    ensures
        reduction_inbox(msgs, node, steps).len() == pow2(steps) - 1,
        reduction_collected(msgs[node as int], reduction_inbox(msgs, node, steps)).to_multiset()
            == msgs.subrange(node as int, (node + pow2(steps)) as int).to_multiset(),
    decreases steps,
{
    if steps == 0 {
        assert(pow2(0) == 1) by {
            lemma_bit_value(0);
            assert((1u32 << 0u32) == 1u32) by (bit_vector);
        }
        assert(reduction_collected(msgs[node as int], Seq::empty()) =~= msgs.subrange(
            node as int,
            (node + 1) as int,
        ));
    } else {
        let i = (steps - 1) as nat;
        let child = node + pow2(i);
        lemma_pow2_unfold(steps);
        lemma_pow2_pos(i);
        law_reduction_gathers(msgs, node, i);
        law_reduction_gathers(msgs, child, i);
        let own = reduction_collected(msgs[node as int], reduction_inbox(msgs, node, i));
        let theirs = reduction_collected(msgs[child as int], reduction_inbox(msgs, child, i));
        let all = reduction_collected(msgs[node as int], reduction_inbox(msgs, node, steps));
        assert(all =~= own + theirs.reverse());
        theirs.lemma_reverse_to_multiset();
        vstd::seq_lib::lemma_multiset_commutative(own, theirs.reverse());
        let lo = msgs.subrange(node as int, child as int);
        let hi = msgs.subrange(child as int, (child + pow2(i)) as int);
        assert(lo + hi =~= msgs.subrange(node as int, (node + pow2(steps)) as int));
        vstd::seq_lib::lemma_multiset_commutative(lo, hi);
    }
}

/// Node 0 of a cube of `2^dims` nodes ends the gather holding the message of
/// every node, each exactly once, when every node sends what it gathered.
pub proof fn law_reduction_complete(msgs: Seq<Seq<char>>, dims: u32)
    requires
        dims <= 32,
        msgs.len() == pow2(dims as nat),
    ensures
        reduction_steps(dims, 0) == dims,
        reduction_parent(dims, 0) is None,
        reduction_inbox(msgs, 0, dims as nat).len() == pow2(dims as nat) - 1,
        reduction_collected(msgs[0], reduction_inbox(msgs, 0, dims as nat)).len() == msgs.len(),
        reduction_collected(msgs[0], reduction_inbox(msgs, 0, dims as nat)).to_multiset()
            == msgs.to_multiset(),
{
    lemma_lowest_bit(0);
    law_reduction_gathers(msgs, 0, dims as nat);
    assert(msgs.subrange(0, pow2(dims as nat) as int) =~= msgs);
}

/// The number of messages a receive plan asks for.
pub open spec fn receipt_total(receipts: Seq<Receipt>) -> nat
    decreases receipts.len(),
{
    if receipts.len() == 0 {
        0
    } else {
        receipt_total(receipts.drop_last()) + receipts.last().count as nat
    }
}

proof fn lemma_receipt_total(node: u32, m: nat)
    requires
        m <= 32,
    ensures
        receipt_total(
            Seq::new(
                m,
                |i: int| Receipt { from: flip(node, i as u32) as usize, count: pow2(i as nat) as u32 },
            ),
        ) == pow2(m) - 1,
    decreases m,
{
    let r = Seq::new(
        m,
        |i: int| Receipt { from: flip(node, i as u32) as usize, count: pow2(i as nat) as u32 },
    );
    if m == 0 {
        lemma_bit_value(0);
        assert((1u32 << 0u32) == 1u32) by (bit_vector);
    } else {
        let h = (m - 1) as nat;
        lemma_receipt_total(node, h);
        assert(r.drop_last() =~= Seq::new(
            h,
            |i: int| Receipt { from: flip(node, i as u32) as usize, count: pow2(i as nat) as u32 },
        ));
        lemma_u32_pow2_no_overflow(h);
        lemma_pow2_unfold(m);
        lemma_pow2_pos(h);
    }
}

/// A node's receive plan asks each of its children in the gather exactly
/// once, and nothing else: every sender is a node that sends to this one,
/// asked for `2^b` messages where `b` is the sender's lowest set bit (all a
/// sender holds when it sends); the counts strictly increase, so no sender
/// repeats; every node that sends to this one is asked; and the plan asks
/// for `2^steps - 1` messages in all, what `reduction_sim` takes in.
pub proof fn law_reduction_receipts(dims: u32, node: u32)
    requires
        dims <= 32,
    ensures
        forall|t: int|
            0 <= t < reduction_receipts(dims, node).len() ==> {
                let r = #[trigger] reduction_receipts(dims, node)[t];
                &&& r.from <= u32::MAX
                &&& reduction_parent(dims, r.from as u32) == Some(node)
                &&& r.count as nat == pow2(lowest_bit(r.from as u32) as nat)
            },
        forall|a: int, b: int|
            0 <= a < b < reduction_receipts(dims, node).len() ==> reduction_receipts(
                dims,
                node,
            )[a].count < reduction_receipts(dims, node)[b].count,
        forall|c: u32|
            reduction_parent(dims, c) == Some(node) ==> exists|t: int|
                0 <= t < reduction_receipts(dims, node).len() && #[trigger] reduction_receipts(
                    dims,
                    node,
                )[t].from == c as usize,
        receipt_total(reduction_receipts(dims, node)) == pow2(reduction_steps(dims, node) as nat)
            - 1,
{
    let receipts = reduction_receipts(dims, node);
    let m = reduction_steps(dims, node);
    lemma_lowest_bit(node);
    assert forall|t: int| 0 <= t < receipts.len() implies {
        let r = #[trigger] receipts[t];
        &&& r.from <= u32::MAX
        &&& reduction_parent(dims, r.from as u32) == Some(node)
        &&& r.count as nat == pow2(lowest_bit(r.from as u32) as nat)
    } by {
        law_reduction_matched(dims, node, t);
        lemma_set_below_lowest(node, t as u32);
        lemma_u32_pow2_no_overflow(t as nat);
    }
    assert forall|a: int, b: int| 0 <= a < b < receipts.len() implies receipts[a].count
        < receipts[b].count by {
        lemma_u32_pow2_no_overflow(a as nat);
        lemma_u32_pow2_no_overflow(b as nat);
        lemma_pow2_strictly_increases(a as nat, b as nat);
    }
    assert forall|c: u32| reduction_parent(dims, c) == Some(node) implies exists|t: int|
        0 <= t < receipts.len() && #[trigger] receipts[t].from == c as usize by {
        law_reduction_matched(dims, c, 0);
        let k = lowest_bit(c);
        lemma_flip(c, k);
        assert(receipts[k as int].from == c as usize);
    }
    lemma_receipt_total(node, m as nat);
}

/// A node of the gather sends across its lowest set bit, when that bit is
/// below `dims`; a node with no set bit below `dims` sends to no one.
pub proof fn law_reduction_parent_is_lowest_bit(dims: u32, node: u32, k: u32)
    requires
        dims <= 32,
    ensures
        k < dims && has_bit(node, k) && (forall|j: u32| j < k ==> !#[trigger] has_bit(node, j))
            ==> reduction_parent(dims, node) == Some(flip(node, k)),
        (forall|j: u32| j < dims ==> !#[trigger] has_bit(node, j)) ==> reduction_parent(
            dims,
            node,
        ) is None,
{
    lemma_lowest_bit(node);
    if k < dims && has_bit(node, k) && (forall|j: u32| j < k ==> !#[trigger] has_bit(node, j)) {
        crate::bits::lemma_lowest_bit_is(node, k);
    }
    if forall|j: u32| j < dims ==> !#[trigger] has_bit(node, j) {
        if lowest_bit(node) < dims {
            assert(has_bit(node, lowest_bit(node)));
        }
    }
}

/// A node holds its own message first and then what it received, in order,
/// and sends all of it last held first: the last received goes out first
/// and its own message goes out last.
pub proof fn law_reduction_sent_order(msg: Seq<char>, received: Seq<Seq<char>>)
    ensures
        reduction_collected(msg, received).len() == received.len() + 1,
        reduction_collected(msg, received)[0] == msg,
        forall|j: int|
            0 <= j < received.len() ==> #[trigger] reduction_collected(msg, received)[j + 1]
                == received[j],
        reduction_sent(msg, received).len() == received.len() + 1,
        reduction_sent(msg, received)[received.len() as int] == msg,
        forall|j: int|
            0 <= j < received.len() ==> #[trigger] reduction_sent(msg, received)[j]
                == received[received.len() - 1 - j],
{
}

} // verus!
