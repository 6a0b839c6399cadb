use std::collections::{HashMap, VecDeque};

use lib::broadcast::{broadcast_recv, broadcast_recv_source, broadcast_send, broadcast_sim_schedule, Transfer};
use lib::reduction::{reduction_schedule, reduction_sim};
use lib::topology::{hypercube_neighbors, hypercube_size};

type Queues = HashMap<(usize, usize), VecDeque<String>>;

fn post(queues: &mut Queues, from: usize, to: usize, msg: String) {
    queues.entry((from, to)).or_default().push_back(msg);
}

fn take(queues: &mut Queues, from: usize, to: usize) -> Option<String> {
    queues.get_mut(&(from, to)).and_then(|q| q.pop_front())
}

/// Runs the one-to-all broadcast of "Hello" from `source` on every node of
/// the cube, one node at a time, and returns what each node ended up with.
fn run_broadcast(dims: u32, source: usize) -> Vec<String> {
    let size = hypercube_size(dims);
    let mut queues: Queues = HashMap::new();
    let mut got: Vec<Option<String>> = vec![None; size];
    let out = broadcast_send(String::from("Hello"), dims, source);
    for d in &out.destinations {
        assert!(hypercube_neighbors(source, dims).contains(d));
        post(&mut queues, source, *d, out.message.clone());
    }
    got[source] = Some(out.message);
    loop {
        let mut progress = false;
        for id in 0..size {
            if got[id].is_some() {
                continue;
            }
            let from = broadcast_recv_source(source, dims, id).expect("a non-source node receives");
            if let Some(received) = take(&mut queues, from, id) {
                let out = broadcast_recv(source, dims, id, Some(received));
                for d in &out.destinations {
                    post(&mut queues, id, *d, out.message.clone());
                }
                got[id] = Some(out.message);
                progress = true;
            }
        }
        if !progress {
            break;
        }
    }
    assert!(queues.values().all(|q| q.is_empty()), "every message sent was received");
    got.into_iter().map(|m| m.expect("every node got the broadcast")).collect()
}

/// The check of the original broadcast test: the text arrives, and the
/// trace lists the chain of nodes obtained by clearing the set bits of the
/// relative id, lowest first.
fn check_broadcast(dims: u32, source: usize) {
    let got = run_broadcast(dims, source);
    let n = dims;
    let source_u = source as u32;
    for (id, msg) in got.iter().enumerate() {
        if id == source {
            assert_eq!(msg, &format!("Hello Seq: {}", source));
            continue;
        }
        let id_u: u32 = id as u32;
        assert_eq!(String::from("Hello"), msg[0..5]);
        let mut actual_seq: Vec<u32> = Vec::new();
        let mut actual_seq_str = msg.split("->").collect::<Vec<&str>>();
        actual_seq_str[0] = actual_seq_str[0].split(' ').collect::<Vec<&str>>().last().unwrap();
        for part in &actual_seq_str {
            actual_seq.push(part.parse::<u32>().unwrap());
        }
        let mut expected_seq: Vec<u32> = Vec::new();
        let virtual_id_u = id_u ^ source_u;
        let mut virtual_prev_src = virtual_id_u;
        for i in 0..n {
            let mask = 2u32.pow(i);
            if virtual_prev_src ^ mask <= virtual_prev_src {
                let temp = virtual_prev_src ^ mask;
                expected_seq.push(temp ^ source_u);
                virtual_prev_src = temp;
            }
        }
        expected_seq.reverse();
        expected_seq.push(id_u);
        assert_eq!(actual_seq, expected_seq);
    }
}

/// Runs the gather of "Hello from <id>" towards node 0 and returns what
/// node 0 returns.
fn run_reduction(dims: u32) -> Vec<String> {
    let size = hypercube_size(dims);
    let mut queues: Queues = HashMap::new();
    let mut answer = Vec::new();
    // A node receives only from nodes with higher ids, so those go first.
    for id in (0..size).rev() {
        let mut received = Vec::new();
        for receipt in reduction_schedule(dims, id) {
            for _ in 0..receipt.count {
                received.push(take(&mut queues, receipt.from, id).expect("the partner sent enough"));
            }
        }
        let msg = format!("Hello from {}", id);
        let out = reduction_sim(dims, id, msg, received);
        if let Some(to) = out.send_to {
            for m in out.sends {
                post(&mut queues, id, to, m);
            }
        } else {
            assert_eq!(id, 0);
        }
        if id == 0 {
            answer = out.result;
        } else {
            assert!(out.result.is_empty());
        }
    }
    assert!(queues.values().all(|q| q.is_empty()), "every message sent was received");
    answer
}

fn check_reduction(dims: u32) {
    let mut ans_vec = run_reduction(dims);
    let mut golden_data: Vec<String> = vec![];
    for i in 0..2u32.pow(dims) {
        golden_data.push(format!("Hello from {}", i));
    }
    ans_vec.sort();
    golden_data.sort();
    assert_eq!(ans_vec, golden_data);
}

#[test]
fn hypercube_broadcast_1_0() {
    check_broadcast(1, 0);
}

#[test]
fn hypercube_broadcast_2_0() {
    check_broadcast(2, 0);
}

#[test]
fn hypercube_broadcast_2_3() {
    check_broadcast(2, 3);
}

#[test]
fn hypercube_broadcast_3_0() {
    check_broadcast(3, 0);
}

#[test]
fn hypercube_broadcast_3_2() {
    check_broadcast(3, 2);
}

#[test]
fn hypercube_broadcast_4_0() {
    check_broadcast(4, 0);
}

#[test]
fn hypercube_broadcast_5_0() {
    check_broadcast(5, 0);
}

#[test]
fn hypercube_reduction_1_0() {
    check_reduction(1);
}

#[test]
fn hypercube_reduction_2_0() {
    check_reduction(2);
}

#[test]
fn hypercube_reduction_3_0() {
    check_reduction(3);
}

#[test]
fn hypercube_reduction_4_0() {
    check_reduction(4);
}

#[test]
fn hypercube_reduction_5_0() {
    check_reduction(5);
}

#[test]
fn broadcast_send_targets_highest_dimension_first() {
    let out = broadcast_send(String::from("Hi"), 3, 5);
    assert_eq!(out.message, "Hi Seq: 5");
    assert_eq!(out.destinations, vec![1, 7, 4]);
}

#[test]
fn broadcast_send_without_dimensions() {
    let out = broadcast_send(String::from("x"), 0, 0);
    assert_eq!(out.message, "x Seq: 0");
    assert!(out.destinations.is_empty());
}

#[test]
fn broadcast_recv_source_is_lowest_set_bit() {
    // Relative id 6 = 0b110: receives across dimension 1.
    assert_eq!(broadcast_recv_source(1, 3, 7), Some(5));
    assert_eq!(broadcast_recv_source(1, 3, 1), None);
    // A node outside the cube of the given dimensions has no parent.
    assert_eq!(broadcast_recv_source(0, 2, 4), None);
}

#[test]
fn broadcast_recv_forwards_below_lowest_bit() {
    let out = broadcast_recv(0, 4, 4, Some(String::from("Hello Seq: 0")));
    assert_eq!(out.message, "Hello Seq: 0->4");
    assert_eq!(out.destinations, vec![5, 6]);
    let out = broadcast_recv(0, 3, 0, None);
    assert_eq!(out.message, "");
    assert_eq!(out.destinations, vec![1, 2, 4]);
    let out = broadcast_recv(2, 3, 123, Some(String::from("a")));
    assert_eq!(out.message, "a->123");
}

#[test]
fn broadcast_sim_schedule_orders() {
    assert_eq!(
        broadcast_sim_schedule(0, 3, 0),
        vec![Transfer::Send(4), Transfer::Send(2), Transfer::Send(1)]
    );
    assert_eq!(
        broadcast_sim_schedule(0, 3, 4),
        vec![Transfer::Receive(0), Transfer::Send(6), Transfer::Send(5)]
    );
    assert_eq!(broadcast_sim_schedule(1, 3, 0), vec![Transfer::Receive(1)]);
}

#[test]
fn broadcast_sim_transfers_match() {
    for dims in 1..5u32 {
        for source in 0..(1usize << dims) {
            for node in 0..(1usize << dims) {
                let steps = broadcast_sim_schedule(source, dims, node);
                for (t, step) in steps.iter().enumerate() {
                    match step {
                        Transfer::Send(d) => {
                            assert_eq!(broadcast_sim_schedule(source, dims, *d)[0], Transfer::Receive(node));
                        }
                        Transfer::Receive(p) => {
                            assert_eq!(t, 0);
                            assert!(broadcast_sim_schedule(source, dims, *p).contains(&Transfer::Send(node)));
                        }
                    }
                }
                assert_eq!(node != source, matches!(steps.first(), Some(Transfer::Receive(_))));
            }
        }
    }
}

#[test]
fn broadcast_parents_send_to_children() {
    for dims in 1..6u32 {
        for source in 0..(1usize << dims) {
            let targets = broadcast_send(String::new(), dims, source).destinations;
            for node in 0..(1usize << dims) {
                match broadcast_recv_source(source, dims, node) {
                    None => assert_eq!(node, source),
                    Some(p) => {
                        assert!((p ^ source) < (node ^ source));
                        if p == source {
                            assert!(targets.contains(&node));
                        } else {
                            assert!(broadcast_recv(source, dims, p, None).destinations.contains(&node));
                        }
                    }
                }
            }
        }
    }
}

#[test]
fn reduction_schedule_counts() {
    let plan = reduction_schedule(3, 4);
    assert_eq!(plan.len(), 2);
    assert_eq!((plan[0].from, plan[0].count), (5, 1));
    assert_eq!((plan[1].from, plan[1].count), (6, 2));
    assert!(reduction_schedule(3, 3).is_empty());
    let all = reduction_schedule(3, 0);
    assert_eq!(all.iter().map(|r| (r.from, r.count)).collect::<Vec<_>>(), vec![(1, 1), (2, 2), (4, 4)]);
}

#[test]
fn reduction_sim_sends_last_held_first() {
    let out = reduction_sim(3, 2, String::from("two"), vec![String::from("three")]);
    assert_eq!(out.send_to, Some(0));
    assert_eq!(out.sends, vec![String::from("three"), String::from("two")]);
    assert!(out.result.is_empty());
    let out = reduction_sim(1, 0, String::from("zero"), vec![String::from("one")]);
    assert_eq!(out.send_to, None);
    assert!(out.sends.is_empty());
    assert_eq!(out.result, vec![String::from("zero"), String::from("one")]);
}

#[test]
fn reduction_outside_cube_keeps_nothing() {
    // Node 4 in a cube of 2 dimensions receives at both steps and never sends.
    let plan = reduction_schedule(2, 4);
    assert_eq!(plan.len(), 2);
    let received = vec![String::from("a"), String::from("b"), String::from("c")];
    let out = reduction_sim(2, 4, String::from("d"), received);
    assert_eq!(out.send_to, None);
    assert!(out.sends.is_empty());
    assert!(out.result.is_empty());
}

#[test]
fn hypercube_size_and_neighbors() {
    assert_eq!(hypercube_size(1), 2);
    assert_eq!(hypercube_size(3), 8);
    assert_eq!(hypercube_size(10), 1024);
    assert_eq!(hypercube_neighbors(5, 3), vec![1, 4, 7]);
    assert_eq!(hypercube_neighbors(0, 3), vec![1, 2, 4]);
    assert_eq!(hypercube_neighbors(7, 3), vec![3, 5, 6]);
    assert!(hypercube_neighbors(9, 0).is_empty());
}
