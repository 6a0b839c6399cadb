//! All-to-all broadcast on a ring of `p` nodes.
//!
//! Node `i` has a left neighbour `(i + p - 1) % p` and a right neighbour
//! `(i + 1) % p`. It starts holding its own message; `p - 1` times it sends
//! the last message it holds to the right and receives one from the left.

use vstd::prelude::*;
use vstd::arithmetic::div_mod::{lemma_add_mod_noop_right, lemma_small_mod, lemma_mod_add_multiples_vanish};
use crate::text::texts;

verus! {

/// One round of a ring node: send `message` to `to`, then receive from `from`.
pub struct RingStep {
    pub to: usize,
    pub message: String,
    pub from: usize,
}

/// The state of one node of the ring all-to-all broadcast.
pub struct RingGather {
    my_id: usize,
    p: usize,
    left: usize,
    right: usize,
    result: Vec<String>,
}

/// The left neighbour of node `i` in a ring of `p` nodes.
pub open spec fn ring_left(p: nat, i: nat) -> nat {
    ((i + p - 1) % (p as int)) as nat
}

/// The right neighbour of node `i` in a ring of `p` nodes.
pub open spec fn ring_right(p: nat, i: nat) -> nat {
    (((i + 1) as int) % (p as int)) as nat
}

impl RingGather {
    /// The id of this node.
    pub closed spec fn node(&self) -> nat {
        self.my_id as nat
    }

    /// The number of nodes in the ring.
    pub closed spec fn ring_size(&self) -> nat {
        self.p as nat
    }

    /// The neighbour this node receives from.
    pub closed spec fn left_neighbor(&self) -> nat {
        self.left as nat
    }

    /// The neighbour this node sends to.
    pub closed spec fn right_neighbor(&self) -> nat {
        self.right as nat
    }

    /// The messages this node holds, its own first.
    pub closed spec fn held(&self) -> Seq<Seq<char>> {
        texts(self.result@)
    }

    /// The neighbours are those of the ring, and the node holds its own
    /// message and at most one from each other node.
    pub closed spec fn wf(&self) -> bool {
        &&& self.p >= 1
        &&& self.left as nat == ring_left(self.p as nat, self.my_id as nat)
        &&& self.right as nat == ring_right(self.p as nat, self.my_id as nat)
        &&& 1 <= self.result@.len() <= self.p
    }

    /// Node `my_id` of a ring of `p` nodes, holding `my_msg`.
    pub fn new(my_id: usize, p: u32, my_msg: String) -> (node: RingGather)
        requires
            p >= 1,
            my_id + p <= usize::MAX,
        ensures
            node.wf(),
            node.node() == my_id,
            node.ring_size() == p,
            node.left_neighbor() == ring_left(p as nat, my_id as nat),
            node.right_neighbor() == ring_right(p as nat, my_id as nat),
            node.held() == seq![my_msg@],
    {
        let p_usize = p as usize;
        let left = (my_id + p_usize - 1) % p_usize;
        let right = (my_id + 1) % p_usize;
        let mut result: Vec<String> = Vec::new();
        result.push(my_msg);
        let node = RingGather { my_id, p: p_usize, left, right, result };
        assert(node.held() =~= seq![my_msg@]);
        node
    }

    /// The next round, while the node holds fewer than `p` messages: send
    /// the last message held to the right, receive from the left.
    pub fn next_transfer(&self) -> (step: Option<RingStep>)
        requires
            self.wf(),
        ensures
            step is Some <==> self.held().len() < self.ring_size(),
            step matches Some(s) ==> {
                &&& s.to == self.right_neighbor()
                &&& s.from == self.left_neighbor()
                &&& s.message@ == self.held().last()
            },
    {
        if self.result.len() < self.p {
            let last = self.result.len() - 1;
            let message = self.result[last].clone();
            assert(self.held()[last as int] == self.result@[last as int]@);
            Some(RingStep { to: self.right, message, from: self.left })
        } else {
            None
        }
    }

    /// Takes in the message received in a round.
    pub fn deliver(&mut self, msg: String)
        requires
            old(self).wf(),
            old(self).held().len() < old(self).ring_size(),
        ensures
            final(self).wf(),
            final(self).held() == old(self).held().push(msg@),
            final(self).node() == old(self).node(),
            final(self).ring_size() == old(self).ring_size(),
            final(self).left_neighbor() == old(self).left_neighbor(),
            final(self).right_neighbor() == old(self).right_neighbor(),
    {
        let ghost before = self.result@;
        self.result.push(msg);
        assert forall|t: int| 0 <= t < before.len() implies texts(self.result@)[t] == texts(
            before,
        )[t] by {
            assert(self.result@[t] == before[t]);
        }
        assert(self.held() =~= old(self).held().push(msg@));
    }

    /// The messages held, its own first, then in the order received.
    pub fn result(&self) -> (messages: Vec<String>)
        ensures
            texts(messages@) == self.held(),
    {
        let messages = self.result.clone();
        assert(texts(messages@) =~= self.held()) by {
            assert forall|t: int| 0 <= t < messages@.len() implies texts(messages@)[t]
                == self.held()[t] by {
                assert(messages@[t] == self.result@[t]);
            }
        }
        messages
    }
}

/// What node `i` holds after `j` rounds when every node `n` of the ring of
/// `msgs.len()` nodes starts with `msgs[n]` and runs `RingGather`: in each
/// round it gets the last message its left neighbour held.
pub open spec fn ring_held(msgs: Seq<Seq<char>>, i: nat, j: nat) -> Seq<Seq<char>>
    decreases j,
{
    if j == 0 {
        seq![msgs[i as int]]
    } else {
        let earlier = (j - 1) as nat;
        ring_held(msgs, i, earlier).push(
            ring_held(msgs, ring_left(msgs.len(), i), earlier).last(),
        )
    }
}

/// After `j` rounds, node `i` holds the messages of itself and of the `j`
/// nodes before it on the ring, nearest first.
pub proof fn law_ring_rounds(msgs: Seq<Seq<char>>, i: nat, j: nat)
    requires
        i < msgs.len(),
        j < msgs.len(),
    ensures
        ring_held(msgs, i, j) == Seq::new(
            j + 1,
            |t: int| msgs[(i + msgs.len() - t) % (msgs.len() as int)],
        ),
    decreases j,
{
    let p = msgs.len();
    if j == 0 {
        lemma_small_mod(i, p);
        lemma_mod_add_multiples_vanish(i as int, p as int);
        assert(ring_held(msgs, i, 0) =~= Seq::new(1, |t: int| msgs[(i + p - t) % (p as int)]));
    } else {
        let left = ring_left(p, i);
        let earlier = (j - 1) as nat;
        law_ring_rounds(msgs, i, earlier);
        law_ring_rounds(msgs, left, earlier);
        let from_left = ring_held(msgs, left, earlier).last();
        assert(from_left == msgs[(left + p - earlier) % (p as int)]);
        assert((left + p - earlier) % (p as int) == (i + p - j) % (p as int)) by {
            lemma_add_mod_noop_right((p - earlier) as int, (i + p - 1) as int, p as int);
            lemma_mod_add_multiples_vanish((i + p - j) as int, p as int);
        }
        assert(ring_held(msgs, i, j) =~= Seq::new(
            j + 1,
            |t: int| msgs[(i + p - t) % (p as int)],
        ));
    }
}

/// After `p - 1` rounds every node holds all `p` messages: node `i` holds
/// the message of node `n` at position `(i + p - n) % p`.
pub proof fn law_ring_complete(msgs: Seq<Seq<char>>, i: nat)
    requires
        i < msgs.len(),
    ensures
        ring_held(msgs, i, (msgs.len() - 1) as nat).len() == msgs.len(),
        forall|n: int|
            0 <= n < msgs.len() ==> ring_held(msgs, i, (msgs.len() - 1) as nat)[(i + msgs.len()
                - n) % (msgs.len() as int)] == msgs[n],
{
    let p = msgs.len();
    law_ring_rounds(msgs, i, (p - 1) as nat);
    assert forall|n: int| 0 <= n < p implies ring_held(msgs, i, (p - 1) as nat)[(i + p - n) % (
    p as int)] == msgs[n] by {
        let t = (i + p - n) % (p as int);
        assert(0 <= t < p) by {
            vstd::arithmetic::div_mod::lemma_mod_bound((i + p - n) as int, p as int);
        }
        assert((i + p - t) % (p as int) == n) by {
            vstd::arithmetic::div_mod::lemma_fundamental_div_mod((i + p - n) as int, p as int);
            let q = (i + p - n) / (p as int);
            assert(i + p - t == n + q * p);
            vstd::arithmetic::div_mod::lemma_mod_multiples_vanish(q, n, p as int);
            lemma_small_mod(n as nat, p);
        }
    }
}

/// On a ring of `p` nodes the right neighbour of `i` is the next node,
/// wrapping from `p - 1` to 0, and the left neighbour is the previous one,
/// wrapping from 0 to `p - 1`. Each undoes the other, so the node a node
/// sends to is the node that receives from it.
pub proof fn law_ring_neighbors(p: nat, i: nat)
    requires
        p >= 1,
        i < p,
    ensures
        ring_right(p, i) == (if i + 1 == p { 0 } else { i + 1 }),
        ring_left(p, i) == (if i == 0 { (p - 1) as nat } else { (i - 1) as nat }),
        ring_left(p, ring_right(p, i)) == i,
        ring_right(p, ring_left(p, i)) == i,
{
    if i + 1 == p {
        vstd::arithmetic::div_mod::lemma_mod_self_0(p as int);
    } else {
        lemma_small_mod(i + 1, p);
    }
    if i == 0 {
        lemma_small_mod((p - 1) as nat, p);
    } else {
        lemma_mod_add_multiples_vanish((i - 1) as int, p as int);
        lemma_small_mod((i - 1) as nat, p);
    }
    let r = ring_right(p, i);
    let l = ring_left(p, i);
    if r == 0 {
        lemma_small_mod((p - 1) as nat, p);
    } else {
        lemma_mod_add_multiples_vanish((r - 1) as int, p as int);
        lemma_small_mod((r - 1) as nat, p);
    }
    if l + 1 == p {
        vstd::arithmetic::div_mod::lemma_mod_self_0(p as int);
    } else {
        lemma_small_mod(l + 1, p);
    }
}

} // verus!
