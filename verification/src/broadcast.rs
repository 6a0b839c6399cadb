//! One-to-all broadcast on a hypercube of `2^dims` nodes.
//!
//! Node ids are taken relative to the source (`node ^ source`), so the
//! source is node 0 of a virtual cube. The source sends to every neighbour,
//! highest dimension first. Every other node receives once, from the
//! neighbour across the lowest set bit of its relative id, and forwards to
//! the neighbours across the dimensions below that bit, lowest first. Each
//! hop appends a trace to the message: `" Seq: <source>"` at the source and
//! `"-><node>"` at each relay.

use vstd::prelude::*;
use vstd::arithmetic::power2::pow2;
use crate::bits::{has_bit, flip, lowest_bit, low_mask, lemma_lowest_bit, lemma_lowest_bit_is,
    lemma_bit_at_or_below_lowest, lemma_low_mask_clear, lemma_flip, lemma_flip_relative,
    lemma_clear_lowest, lemma_set_below_lowest, lemma_in_cube, lemma_flip_injective};
use crate::text::{decimal, push_decimal};

verus! {

/// A message and the nodes it goes to, in the order of sending.
pub struct Outgoing {
    pub message: String,
    pub destinations: Vec<usize>,
}

/// One communication step of a node: send to, or receive from, a neighbour.
#[derive(Debug, Clone, Copy, PartialEq, Eq, Structural)]
pub enum Transfer {
    Send(usize),
    Receive(usize),
}

/// Node ids as `usize`, in the same order.
pub open spec fn as_ids(nodes: Seq<u32>) -> Seq<usize> {
    nodes.map_values(|x: u32| x as usize)
}

/// The smaller of the lowest set bit of `node ^ source` and `dims`: the number
/// of dimensions below the one across which `node` receives.
pub open spec fn subtree_dims(source: u32, dims: u32, node: u32) -> u32 {
    let k = lowest_bit(node ^ source);
    if k < dims { k } else { dims }
}

/// The neighbour from which `node` receives the broadcast of `source`, if any.
pub open spec fn broadcast_parent(source: u32, dims: u32, node: u32) -> Option<u32> {
    let k = lowest_bit(node ^ source);
    if k < dims { Some(flip(node, k)) } else { None }
}

/// The neighbours to which a relaying `node` forwards, in the order of sending.
pub open spec fn broadcast_children(source: u32, dims: u32, node: u32) -> Seq<u32> {
    Seq::new(subtree_dims(source, dims, node) as nat, |i: int| flip(node, i as u32))
}

/// The neighbours to which the source sends, highest dimension first.
pub open spec fn source_targets(dims: u32, node: u32) -> Seq<u32> {
    Seq::new(dims as nat, |j: int| flip(node, (dims - 1 - j) as u32))
}

/// The message as the source sends it: its text and the source's trace.
pub open spec fn origin_text(msg: Seq<char>, source: nat) -> Seq<char> {
    msg + " Seq: "@ + decimal(source)
}

/// A received message as a relay passes it on: with the relay's id appended.
pub open spec fn relay_text(received: Seq<char>, node: nat) -> Seq<char> {
    received + "->"@ + decimal(node)
}

/// The steps of the variant in which every node already holds the message:
/// receive across the lowest set bit of the relative id (if it is below
/// `dims`), then send across each lower dimension, highest first.
pub open spec fn broadcast_sim_steps(source: u32, dims: u32, node: u32) -> Seq<Transfer> {
    let k = lowest_bit(node ^ source);
    let m = subtree_dims(source, dims, node);
    let first = if k < dims { seq![Transfer::Receive(flip(node, k) as usize)] } else { seq![] };
    first + Seq::new(m as nat, |j: int| Transfer::Send(flip(node, (m - 1 - j) as u32) as usize))
}

/// The source's part of the broadcast: adds the trace `" Seq: <my_id>"` to
/// `msg`, and lists the neighbours to send it to, highest dimension first.
pub fn broadcast_send(msg: String, dims: u32, my_id: usize) -> (out: Outgoing)
    requires
        dims < 32,
        my_id <= u32::MAX,
    ensures
        out.message@ == origin_text(msg@, my_id as nat),
        out.destinations@ == as_ids(source_targets(dims, my_id as u32)),
{
    let my_id_u = my_id as u32;
    let mut msg = msg;
    msg.append(" Seq: ");
    push_decimal(&mut msg, my_id as u64);
    let ghost targets = source_targets(dims, my_id_u);
    let mut destinations: Vec<usize> = Vec::new();
    let mut i: u32 = dims;
    while i > 0
        invariant
            i <= dims < 32,
            my_id_u == my_id,
            targets == source_targets(dims, my_id_u),
            destinations@.len() == dims - i,
            forall|j: int| 0 <= j < dims - i ==> destinations@[j] == targets[j] as usize,
        decreases i,
    {
        i = i - 1;
        let dest = my_id_u ^ (1u32 << i);
        destinations.push(dest as usize);
    }
    assert(destinations@ =~= as_ids(targets));
    Outgoing { message: msg, destinations }
}

/// The neighbour from which `my_id` receives the broadcast of `src_node`:
/// the one across the lowest set bit of `my_id ^ src_node`, or none when
/// that bit is not below `dims` (the source itself).
pub fn broadcast_recv_source(src_node: usize, dims: u32, my_id: usize) -> (source: Option<usize>)
    requires
        dims < 32,
        my_id <= u32::MAX,
        src_node <= u32::MAX,
    ensures
        source == (match broadcast_parent(src_node as u32, dims, my_id as u32) {
            Some(p) => Some(p as usize),
            None => None::<usize>,
        }),
{
    let my_id_u = my_id as u32;
    let src_node_u = src_node as u32;
    let my_virtual_id = my_id_u ^ src_node_u;
    let mut i: u32 = 0;
    while i < dims
        invariant
            i <= dims < 32,
            my_id_u == my_id,
            src_node_u == src_node,
            my_virtual_id == my_id_u ^ src_node_u,
            forall|j: u32| j < i ==> !#[trigger] has_bit(my_virtual_id, j),
        decreases dims - i,
    {
        let src = my_virtual_id ^ (1u32 << i);
        let virtual_src = src ^ src_node_u;
        proof {
            lemma_flip(my_virtual_id, i);
        }
        if src < my_virtual_id {
            proof {
                lemma_lowest_bit_is(my_virtual_id, i);
                lemma_flip_relative(my_id_u, src_node_u, i);
                assert(virtual_src == flip(my_id_u, i));
                assert(broadcast_parent(src_node_u, dims, my_id_u) == Some(flip(my_id_u, i)));
            }
            return Some(virtual_src as usize);
        }
        i = i + 1;
    }
    proof {
        lemma_lowest_bit(my_virtual_id);
        if lowest_bit(my_virtual_id) < dims {
            assert(has_bit(my_virtual_id, lowest_bit(my_virtual_id)));
        }
    }
    None
}

/// A relay's part of the broadcast: `received` is what came from
/// `broadcast_recv_source` (none at the source). The message gets the trace
/// `"-><my_id>"`, and goes to the neighbours across the dimensions below the
/// lowest set bit of `my_id ^ src_node`, lowest first.
pub fn broadcast_recv(src_node: usize, dims: u32, my_id: usize, received: Option<String>) -> (out:
    Outgoing)
    requires
        dims < 32,
        my_id <= u32::MAX,
        src_node <= u32::MAX,
    ensures
        out.message@ == (match received {
            Some(r) => relay_text(r@, my_id as nat),
            None => Seq::<char>::empty(),
        }),
        out.destinations@ == as_ids(broadcast_children(src_node as u32, dims, my_id as u32)),
{
    let my_id_u = my_id as u32;
    let src_node_u = src_node as u32;
    let my_virtual_id = my_id_u ^ src_node_u;
    let mut msg = String::new();
    match received {
        Some(r) => {
            msg = r;
            msg.append("->");
            push_decimal(&mut msg, my_id as u64);
        },
        None => {},
    }
    let ghost children = broadcast_children(src_node_u, dims, my_id_u);
    let mut destinations: Vec<usize> = Vec::new();
    let mut i: u32 = 0;
    while i < dims
        invariant
            i <= dims < 32,
            my_virtual_id == my_id_u ^ src_node_u,
            forall|j: u32| j < i ==> !#[trigger] has_bit(my_virtual_id, j),
            destinations@.len() == i,
            forall|j: int| 0 <= j < i ==> destinations@[j] == flip(my_id_u, j as u32) as usize,
        ensures
            i <= dims,
            forall|j: u32| j < i ==> !#[trigger] has_bit(my_virtual_id, j),
            i < dims ==> has_bit(my_virtual_id, i),
            destinations@.len() == i,
            forall|j: int| 0 <= j < i ==> destinations@[j] == flip(my_id_u, j as u32) as usize,
        decreases dims - i,
    {
        let dest = my_id_u ^ (1u32 << i);
        let virtual_dest = dest ^ src_node_u;
        proof {
            lemma_flip(my_virtual_id, i);
            lemma_flip_relative(my_id_u, src_node_u, i);
        }
        if virtual_dest > my_virtual_id {
            destinations.push(dest as usize);
        } else {
            break;
        }
        i = i + 1;
    }
    proof {
        lemma_lowest_bit(my_virtual_id);
        if i < dims {
            lemma_lowest_bit_is(my_virtual_id, i);
        } else if lowest_bit(my_virtual_id) < dims {
            assert(has_bit(my_virtual_id, lowest_bit(my_virtual_id)));
        }
        assert(destinations@ =~= as_ids(children));
    }
    Outgoing { message: msg, destinations }
}

/// The order of transfers of one node in the broadcast variant in which
/// every node already holds the message: see `broadcast_sim_steps`.
pub fn broadcast_sim_schedule(src_node: usize, dims: u32, my_id: usize) -> (steps: Vec<Transfer>)
    requires
        dims < 32,
        my_id <= u32::MAX,
        src_node <= u32::MAX,
    ensures
        steps@ == broadcast_sim_steps(src_node as u32, dims, my_id as u32),
{
    let my_id_u = my_id as u32;
    let src_node_u = src_node as u32;
    let my_virtual_id = my_id_u ^ src_node_u;
    let ghost k = lowest_bit(my_virtual_id);
    let ghost m = subtree_dims(src_node_u, dims, my_id_u);
    let ghost first_len: int = if k < dims { 1 } else { 0 };
    let ghost full = broadcast_sim_steps(src_node_u, dims, my_id_u);
    proof {
        lemma_lowest_bit(my_virtual_id);
    }
    assert(dims < 32 ==> (1u32 << dims) >= 1u32) by (bit_vector);
    let mut mask: u32 = (1u32 << dims) - 1;
    let mut steps: Vec<Transfer> = Vec::new();
    let mut i: u32 = dims;
    while i > 0
        invariant
            i <= dims < 32,
            my_virtual_id == my_id_u ^ src_node_u,
            k == lowest_bit(my_virtual_id),
            k <= 32,
            m == subtree_dims(src_node_u, dims, my_id_u),
            first_len == (if k < dims { 1int } else { 0int }),
            full == broadcast_sim_steps(src_node_u, dims, my_id_u),
            mask == low_mask(i),
            steps@.len() == (if i <= m { first_len + (m - i) } else { 0 }),
            forall|t: int| 0 <= t < steps@.len() ==> steps@[t] == full[t],
        decreases i,
    {
        i = i - 1;
        let bit = 1u32 << i;
        mask = mask ^ bit;
        proof {
            crate::bits::lemma_low_mask_step(my_virtual_id, i);
            lemma_low_mask_clear(my_virtual_id, i);
            lemma_flip_relative(my_id_u, src_node_u, i);
            assert((my_virtual_id & (1u32 << i) == 0u32) == !has_bit(my_virtual_id, i))
                by (bit_vector);
        }
        if (my_virtual_id & mask) == 0 {
            proof {
                lemma_bit_at_or_below_lowest(my_virtual_id, i);
            }
            let virtual_partner = my_virtual_id ^ bit;
            let partner = virtual_partner ^ src_node_u;
            if (my_virtual_id & bit) == 0 {
                steps.push(Transfer::Send(partner as usize));
            } else {
                steps.push(Transfer::Receive(partner as usize));
            }
        }
    }
    assert(steps@ =~= full);
    steps
}

/// A node id of the cube of `2^dims` nodes.
pub open spec fn in_cube(dims: u32, node: u32) -> bool {
    (node as nat) < pow2(dims as nat)
}

/// Every node of the cube other than the source receives the broadcast from
/// a neighbour that is closer to the source (its id relative to the source
/// is smaller) and that sends to it: the source lists it among its targets,
/// a relay among its children.
pub proof fn law_broadcast_parent_sends(source: u32, dims: u32, node: u32)
    requires
        dims < 32,
        in_cube(dims, source),
        in_cube(dims, node),
        node != source,
    ensures
        broadcast_parent(source, dims, node) is Some,
        ({
            let p = broadcast_parent(source, dims, node)->0;
            &&& in_cube(dims, p)
            &&& p ^ source < node ^ source
            &&& p == source ==> source_targets(dims, source).contains(node)
            &&& p != source ==> broadcast_children(source, dims, p).contains(node)
        }),
{
    let v = node ^ source;
    lemma_flip_relative(node, source, 0);
    lemma_in_cube(dims, node, source);
    lemma_in_cube(dims, v, 0);
    let k = lowest_bit(v);
    lemma_lowest_bit(v);
    let p = flip(node, k);
    lemma_in_cube(dims, node, p);
    lemma_flip_relative(node, source, k);
    lemma_clear_lowest(v);
    lemma_flip(node, k);
    if p == source {
        let targets = source_targets(dims, source);
        assert(flip(source, k) == node) by {
            lemma_flip(p, k);
        }
        assert(targets[dims - 1 - k] == node);
    } else {
        lemma_flip_relative(p, source, 0);
        let children = broadcast_children(source, dims, p);
        assert(children[k as int] == node);
    }
}

/// Every node to which the source or a relay sends receives the broadcast
/// from exactly that sender.
pub proof fn law_broadcast_children_receive(source: u32, dims: u32, node: u32, i: int)
    requires
        dims < 32,
        0 <= i < subtree_dims(source, dims, node),
    ensures
        broadcast_parent(source, dims, broadcast_children(source, dims, node)[i]) == Some(node),
        node == source ==> broadcast_parent(source, dims, source_targets(dims, node)[i]) == Some(
            node),
{
    let v = node ^ source;
    lemma_lowest_bit(v);
    let c = flip(node, i as u32);
    lemma_set_below_lowest(v, i as u32);
    lemma_flip_relative(node, source, i as u32);
    lemma_flip(node, i as u32);
    if node == source {
        lemma_flip_relative(node, source, 0);
        let j = dims - 1 - i;
        assert(0 <= j < subtree_dims(source, dims, node));
        lemma_set_below_lowest(v, j as u32);
        lemma_flip_relative(node, source, j as u32);
        lemma_flip(node, j as u32);
    }
}

/// The parent of a node other than the source is closer to the source.
pub proof fn lemma_parent_closer(source: u32, dims: u32, node: u32)
    requires
        node != source,
        broadcast_parent(source, dims, node) is Some,
    ensures
        broadcast_parent(source, dims, node)->0 ^ source < node ^ source,
{
    let v = node ^ source;
    let k = lowest_bit(v);
    lemma_flip_relative(node, source, k);
    lemma_clear_lowest(v);
}

/// The message that `node` ends up with when the source runs
/// `broadcast_send` on `msg`, and every other node runs `broadcast_recv` on
/// what its parent sent (nothing for a node that has no parent).
pub open spec fn delivered(msg: Seq<char>, source: u32, dims: u32, node: u32) -> Seq<char>
    decreases node ^ source,
{
    if node == source {
        origin_text(msg, source as nat)
    } else {
        match broadcast_parent(source, dims, node) {
            Some(p) => {
                proof {
                    lemma_parent_closer(source, dims, node);
                }
                relay_text(delivered(msg, source, dims, p), node as nat)
            },
            None => Seq::empty(),
        }
    }
}

/// The chain of nodes through which the broadcast of `source` reaches `node`.
pub open spec fn broadcast_path(source: u32, dims: u32, node: u32) -> Seq<u32>
    decreases node ^ source,
{
    if node == source {
        seq![source]
    } else {
        match broadcast_parent(source, dims, node) {
            Some(p) => {
                proof {
                    lemma_parent_closer(source, dims, node);
                }
                broadcast_path(source, dims, p).push(node)
            },
            None => seq![node],
        }
    }
}

/// The ids of a chain in decimal, joined by `"->"`.
pub open spec fn trace_text(path: Seq<u32>) -> Seq<char>
    decreases path.len(),
{
    if path.len() == 0 {
        Seq::empty()
    } else if path.len() == 1 {
        decimal(path[0] as nat)
    } else {
        trace_text(path.drop_last()) + "->"@ + decimal(path.last() as nat)
    }
}

/// Every node of the cube gets the source's text followed by
/// `" Seq: "` and the ids of the chain that carried it, joined by `"->"`:
/// the chain starts at the source, ends at the node, and each link is the
/// parent of the next.
pub proof fn law_broadcast_delivers(msg: Seq<char>, source: u32, dims: u32, node: u32)
    requires
        dims < 32,
        in_cube(dims, source),
        in_cube(dims, node),
    ensures
        delivered(msg, source, dims, node) == msg + " Seq: "@ + trace_text(
            broadcast_path(source, dims, node),
        ),
        broadcast_path(source, dims, node).len() >= 1,
        broadcast_path(source, dims, node)[0] == source,
        broadcast_path(source, dims, node).last() == node,
        forall|t: int|
            1 <= t < broadcast_path(source, dims, node).len() ==> broadcast_parent(
                source,
                dims,
                #[trigger] broadcast_path(source, dims, node)[t],
            ) == Some(broadcast_path(source, dims, node)[t - 1]),
    decreases node ^ source,
{
    let path = broadcast_path(source, dims, node);
    if node == source {
        assert(trace_text(path) == decimal(source as nat));
        assert(msg + " Seq: "@ + decimal(source as nat) =~= origin_text(msg, source as nat));
    } else {
        law_broadcast_parent_sends(source, dims, node);
        lemma_parent_closer(source, dims, node);
        let p = broadcast_parent(source, dims, node)->0;
        law_broadcast_delivers(msg, source, dims, p);
        let pp = broadcast_path(source, dims, p);
        assert(path == pp.push(node));
        assert(path.drop_last() =~= pp);
        assert(trace_text(path) == relay_text(trace_text(pp), node as nat));
        assert(delivered(msg, source, dims, node) == relay_text(
            delivered(msg, source, dims, p),
            node as nat,
        ));
        assert((msg + " Seq: "@ + trace_text(pp)) + "->"@ + decimal(node as nat) =~= msg
            + " Seq: "@ + (trace_text(pp) + "->"@ + decimal(node as nat)));
        assert forall|t: int| 1 <= t < path.len() implies broadcast_parent(
            source,
            dims,
            #[trigger] path[t],
        ) == Some(path[t - 1]) by {
            if t < path.len() - 1 {
                assert(path[t] == pp[t]);
                assert(path[t - 1] == pp[t - 1]);
            }
        }
    }
}

/// In the variant in which every node already holds the message, transfers
/// match up: a node that sends to `d` is the one that `d` receives from, as
/// its first step; a node receives only as its first step, from a node that
/// sends to it; and every node of the cube other than the source receives.
pub proof fn law_broadcast_sim_matched(source: u32, dims: u32, node: u32, t: int)
    requires
        dims < 32,
        0 <= t < broadcast_sim_steps(source, dims, node).len(),
    ensures
        broadcast_sim_steps(source, dims, node)[t] matches Transfer::Send(d) ==> ({
            let steps_d = broadcast_sim_steps(source, dims, d as u32);
            &&& d <= u32::MAX
            &&& steps_d.len() > 0
            &&& steps_d[0] == Transfer::Receive(node as usize)
        }),
        broadcast_sim_steps(source, dims, node)[t] matches Transfer::Receive(p) ==> ({
            &&& t == 0
            &&& p <= u32::MAX
            &&& broadcast_sim_steps(source, dims, p as u32).contains(Transfer::Send(node as usize))
        }),
        in_cube(dims, source) && in_cube(dims, node) && node != source
            ==> broadcast_sim_steps(source, dims, node)[0] is Receive,
{
    let v = node ^ source;
    let k = lowest_bit(v);
    let m = subtree_dims(source, dims, node);
    let steps = broadcast_sim_steps(source, dims, node);
    let first_len: int = if k < dims { 1 } else { 0 };
    lemma_lowest_bit(v);
    if t >= first_len {
        let i = (m - 1 - (t - first_len)) as u32;
        let d = flip(node, i);
        assert(steps[t] == Transfer::Send(d as usize));
        lemma_set_below_lowest(v, i);
        lemma_flip_relative(node, source, i);
        lemma_flip(node, i);
        let steps_d = broadcast_sim_steps(source, dims, d);
        assert(steps_d[0] == Transfer::Receive(flip(d, i) as usize));
    } else {
        let p = flip(node, k);
        assert(steps[t] == Transfer::Receive(p as usize));
        lemma_flip_relative(node, source, k);
        lemma_flip(node, k);
        lemma_flip_relative(node, source, 0);
        lemma_clear_lowest(v);
        let vp = p ^ source;
        lemma_lowest_bit(vp);
        let kp = lowest_bit(vp);
        let mp = subtree_dims(source, dims, p);
        let first_p: int = if kp < dims { 1 } else { 0 };
        let steps_p = broadcast_sim_steps(source, dims, p);
        let pos = first_p + (mp - 1 - k);
        assert(steps_p[pos] == Transfer::Send(flip(p, k) as usize));
    }
    if in_cube(dims, source) && in_cube(dims, node) && node != source {
        lemma_flip_relative(node, source, 0);
        lemma_in_cube(dims, node, source);
        lemma_in_cube(dims, v, 0);
    }
}

/// The source of a broadcast in the cube sends to each of its `dims`
/// neighbours exactly once and to nothing else: every target is a node of
/// the cube one bit away from the source whose parent is the source, no
/// target repeats, and every node whose parent is the source is a target.
pub proof fn law_source_targets(source: u32, dims: u32)
    requires
        dims < 32,
        in_cube(dims, source),
    ensures
        source_targets(dims, source).len() == dims,
        forall|j: int|
            0 <= j < source_targets(dims, source).len() ==> {
                let t = #[trigger] source_targets(dims, source)[j];
                &&& in_cube(dims, t)
                &&& broadcast_parent(source, dims, t) == Some(source)
                &&& exists|i: u32| i < dims && t == #[trigger] flip(source, i)
            },
        forall|a: int, b: int|
            0 <= a < b < source_targets(dims, source).len() ==> source_targets(dims, source)[a]
                != source_targets(dims, source)[b],
        forall|c: u32|
            broadcast_parent(source, dims, c) == Some(source) ==> source_targets(
                dims,
                source,
            ).contains(c),
{
    let targets = source_targets(dims, source);
    lemma_in_cube(dims, source, 0);
    lemma_flip_relative(source, source, 0);
    assert forall|j: int| 0 <= j < targets.len() implies {
        let t = #[trigger] targets[j];
        &&& in_cube(dims, t)
        &&& broadcast_parent(source, dims, t) == Some(source)
        &&& exists|i: u32| i < dims && t == #[trigger] flip(source, i)
    } by {
        let i = (dims - 1 - j) as u32;
        assert(targets[j] == flip(source, i));
        lemma_lowest_bit(source ^ source);
        law_broadcast_children_receive(source, dims, source, j);
    }
    assert forall|a: int, b: int| 0 <= a < b < targets.len() implies targets[a] != targets[b] by {
        if targets[a] == targets[b] {
            lemma_flip_injective(source, (dims - 1 - a) as u32, (dims - 1 - b) as u32);
        }
    }
    assert forall|c: u32| broadcast_parent(source, dims, c) == Some(source) implies targets.contains(
        c,
    ) by {
        let k = lowest_bit(c ^ source);
        lemma_flip(c, k);
        assert(targets[dims - 1 - k] == c);
    }
}

/// A relay forwards exactly to its children in the broadcast tree: every
/// destination is a node of the cube whose parent is the relay, no
/// destination repeats, and every node whose parent is the relay is a
/// destination.
pub proof fn law_broadcast_children(source: u32, dims: u32, node: u32)
    requires
        dims < 32,
        in_cube(dims, source),
        in_cube(dims, node),
    ensures
        forall|j: int|
            0 <= j < broadcast_children(source, dims, node).len() ==> {
                let c = #[trigger] broadcast_children(source, dims, node)[j];
                &&& in_cube(dims, c)
                &&& broadcast_parent(source, dims, c) == Some(node)
            },
        forall|a: int, b: int|
            0 <= a < b < broadcast_children(source, dims, node).len() ==> broadcast_children(
                source,
                dims,
                node,
            )[a] != broadcast_children(source, dims, node)[b],
        forall|c: u32|
            broadcast_parent(source, dims, c) == Some(node) ==> broadcast_children(
                source,
                dims,
                node,
            ).contains(c),
{
    let children = broadcast_children(source, dims, node);
    lemma_in_cube(dims, node, 0);
    assert forall|j: int| 0 <= j < children.len() implies {
        let c = #[trigger] children[j];
        &&& in_cube(dims, c)
        &&& broadcast_parent(source, dims, c) == Some(node)
    } by {
        assert(children[j] == flip(node, j as u32));
        law_broadcast_children_receive(source, dims, node, j);
    }
    assert forall|a: int, b: int| 0 <= a < b < children.len() implies children[a]
        != children[b] by {
        if children[a] == children[b] {
            lemma_flip_injective(node, a as u32, b as u32);
        }
    }
    assert forall|c: u32| broadcast_parent(source, dims, c) == Some(node) implies children.contains(
        c,
    ) by {
        let vc = c ^ source;
        let k = lowest_bit(vc);
        lemma_lowest_bit(vc);
        lemma_flip(c, k);
        lemma_flip_relative(c, source, k);
        lemma_flip_relative(c, source, 0);
        // `c` is not the source: the source has no parent.
        lemma_clear_lowest(vc);
        lemma_lowest_bit(flip(vc, k));
        assert(children[k as int] == c);
    }
}

/// A node of the cube other than the source receives across the lowest bit
/// in which it differs from the source; a node that does not differ from
/// the source in any bit below `dims` receives from no one.
pub proof fn law_broadcast_parent_is_lowest_bit(source: u32, dims: u32, node: u32, k: u32)
    requires
        dims <= 32,
    ensures
        k < dims && has_bit(node ^ source, k) && (forall|j: u32|
            j < k ==> !#[trigger] has_bit(node ^ source, j)) ==> broadcast_parent(
            source,
            dims,
            node,
        ) == Some(flip(node, k)),
        (forall|j: u32| j < dims ==> !#[trigger] has_bit(node ^ source, j)) ==> broadcast_parent(
            source,
            dims,
            node,
        ) is None,
{
    let v = node ^ source;
    lemma_lowest_bit(v);
    if k < dims && has_bit(v, k) && (forall|j: u32| j < k ==> !#[trigger] has_bit(v, j)) {
        lemma_lowest_bit_is(v, k);
    }
    if forall|j: u32| j < dims ==> !#[trigger] has_bit(v, j) {
        if lowest_bit(v) < dims {
            assert(has_bit(v, lowest_bit(v)));
        }
    }
}

/// The source sends highest dimension first and a relay lowest dimension
/// first: ids relative to the source fall along the source's targets and
/// rise along a relay's children.
pub proof fn law_broadcast_send_order(source: u32, dims: u32, node: u32, a: int, b: int)
    requires
        dims < 32,
    ensures
        0 <= a < b < source_targets(dims, source).len() ==> source_targets(dims, source)[a]
            ^ source > source_targets(dims, source)[b] ^ source,
        0 <= a < b < broadcast_children(source, dims, node).len() ==> broadcast_children(
            source,
            dims,
            node,
        )[a] ^ source < broadcast_children(source, dims, node)[b] ^ source,
{
    if 0 <= a < b < source_targets(dims, source).len() {
        let ia = (dims - 1 - a) as u32;
        let ib = (dims - 1 - b) as u32;
        lemma_flip_relative(source, source, 0);
        lemma_lowest_bit(0);
        lemma_set_below_lowest(source ^ source, ia);
        lemma_set_below_lowest(source ^ source, ib);
        lemma_flip_relative(source, source, ia);
        lemma_flip_relative(source, source, ib);
        vstd::arithmetic::power2::lemma_pow2_strictly_increases(ib as nat, ia as nat);
    }
    if 0 <= a < b < broadcast_children(source, dims, node).len() {
        let v = node ^ source;
        lemma_lowest_bit(v);
        lemma_set_below_lowest(v, a as u32);
        lemma_set_below_lowest(v, b as u32);
        lemma_flip_relative(node, source, a as u32);
        lemma_flip_relative(node, source, b as u32);
        vstd::arithmetic::power2::lemma_pow2_strictly_increases(a as nat, b as nat);
    }
}

/// In the variant in which every node already holds the message, a node
/// sends highest dimension first: relative ids fall along its sends.
pub proof fn law_broadcast_sim_order(source: u32, dims: u32, node: u32, a: int, b: int)
    requires
        dims < 32,
        0 <= a < b < broadcast_sim_steps(source, dims, node).len(),
    ensures
        broadcast_sim_steps(source, dims, node)[a] matches Transfer::Send(da) ==> (
        broadcast_sim_steps(source, dims, node)[b] matches Transfer::Send(db) ==> (da as u32)
            ^ source > (db as u32) ^ source),
{
    let v = node ^ source;
    let k = lowest_bit(v);
    let m = subtree_dims(source, dims, node);
    let first_len: int = if k < dims { 1 } else { 0 };
    lemma_lowest_bit(v);
    if a >= first_len {
        let ia = (m - 1 - (a - first_len)) as u32;
        let ib = (m - 1 - (b - first_len)) as u32;
        lemma_set_below_lowest(v, ia);
        lemma_set_below_lowest(v, ib);
        lemma_flip_relative(node, source, ia);
        lemma_flip_relative(node, source, ib);
        vstd::arithmetic::power2::lemma_pow2_strictly_increases(ib as nat, ia as nat);
    }
}

/// `as_ids` keeps each id and the order.
pub proof fn law_as_ids(nodes: Seq<u32>)
    ensures
        as_ids(nodes).len() == nodes.len(),
        forall|j: int| 0 <= j < nodes.len() ==> #[trigger] as_ids(nodes)[j] as nat == nodes[j] as nat,
{
}

} // verus!
