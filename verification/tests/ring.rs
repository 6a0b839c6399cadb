use lib::ring::RingGather;
use lib::text::{greeting, id_to_bits};
use lib::topology::ring_neighbors;

/// Runs the ring all-to-all broadcast one round at a time on every node.
fn run_ring(p: u32) -> Vec<Vec<String>> {
    let mut nodes: Vec<RingGather> = (0..p as usize).map(|id| RingGather::new(id, p, greeting(id))).collect();
    loop {
        let steps: Vec<_> = nodes.iter().map(|n| n.next_transfer()).collect();
        if steps.iter().all(|s| s.is_none()) {
            break;
        }
        // Every node sends its message to the right; each receives from the left.
        let mut inbox: Vec<Option<String>> = vec![None; p as usize];
        for (id, step) in steps.iter().enumerate() {
            let step = step.as_ref().expect("all nodes take the same number of rounds");
            assert_eq!(step.from, (id + p as usize - 1) % p as usize);
            inbox[step.to] = Some(step.message.clone());
        }
        for (id, node) in nodes.iter_mut().enumerate() {
            node.deliver(inbox[id].take().expect("the left neighbour sent"));
        }
    }
    nodes.iter().map(|n| n.result()).collect()
}

#[test]
fn ring_all_broadcast_nine_nodes() {
    let p = 9u32;
    let results = run_ring(p);
    for (i, result) in results.iter().enumerate() {
        let expected: Vec<String> = (0..p as usize).map(|t| greeting((i + p as usize - t) % p as usize)).collect();
        assert_eq!(result, &expected);
    }
}

#[test]
fn ring_single_node() {
    let results = run_ring(1);
    assert_eq!(results, vec![vec![String::from("Hello World0")]]);
}

#[test]
fn ring_gather_rounds() {
    let mut node = RingGather::new(2, 3, String::from("c"));
    let step = node.next_transfer().unwrap();
    assert_eq!((step.to, step.from, step.message.as_str()), (0, 1, "c"));
    node.deliver(String::from("b"));
    let step = node.next_transfer().unwrap();
    assert_eq!(step.message, "b");
    node.deliver(String::from("a"));
    assert!(node.next_transfer().is_none());
    assert_eq!(node.result(), vec!["c", "b", "a"]);
}

#[test]
fn ring_neighbor_lists() {
    assert_eq!(ring_neighbors(0, 9), vec![1, 8]);
    assert_eq!(ring_neighbors(8, 9), vec![0, 7]);
    assert_eq!(ring_neighbors(0, 1), vec![0, 0]);
    assert_eq!(ring_neighbors(1, 2), vec![0, 0]);
}

#[test]
fn id_bits() {
    assert_eq!(id_to_bits(0), "000");
    assert_eq!(id_to_bits(1), "001");
    assert_eq!(id_to_bits(5), "101");
    assert_eq!(id_to_bits(8), "1000");
    assert_eq!(id_to_bits(255), "11111111");
}

#[test]
fn greeting_text() {
    assert_eq!(greeting(0), "Hello World0");
    assert_eq!(greeting(1234567890), "Hello World1234567890");
}
