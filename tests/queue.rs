use results_queue::order::{position_eq, position_lt};
use results_queue::queue::{new_results_queue, new_sorted_results_queue, SortedPoll, SortedResultsQueueIterator};
use results_queue::release::{Entry, SortedReleaser};
use results_queue::tracker::SortedResultsQueueNextMatcher;

fn entry(position: Vec<usize>, branch_count: usize, payload: &str) -> Entry<String> {
    Entry { position, branch_count, payload: payload.to_string() }
}

fn drain_sorted(it: &mut SortedResultsQueueIterator<String>) -> Vec<Entry<String>> {
    let mut out = Vec::new();
    loop {
        match it.poll_next() {
            SortedPoll::Released(e) => out.push(e),
            SortedPoll::Waiting => {}
            SortedPoll::Finished => return out,
        }
    }
}

fn positions(es: &[Entry<String>]) -> Vec<Vec<usize>> {
    es.iter().map(|e| e.position.clone()).collect()
}

#[test]
fn empty_stream_ends_both_iterators() {
    let (q, mut it) = new_results_queue::<String>();
    drop(q);
    assert!(it.next().is_none());

    let (q, mut it) = new_sorted_results_queue::<String>();
    drop(q);
    assert!(drain_sorted(&mut it).is_empty());
}

#[test]
fn single_node_then_end() {
    let (q, mut it) = new_sorted_results_queue();
    q.push(entry(vec![0], 0, "root")).unwrap();
    drop(q);
    let out = drain_sorted(&mut it);
    assert_eq!(positions(&out), vec![vec![0]]);
    assert_eq!(out[0].payload, "root");
    assert!(matches!(it.poll_next(), SortedPoll::Finished));
}

#[test]
fn ends_once_producers_are_gone_and_nothing_is_buffered() {
    let (q, mut it) = new_sorted_results_queue();
    q.push(entry(vec![0], 0, "root")).unwrap();
    assert!(matches!(it.poll_next(), SortedPoll::Waiting));
    match it.poll_next() {
        SortedPoll::Released(e) => assert_eq!(e.position, vec![0]),
        _ => panic!("root not released"),
    }
    drop(q);
    assert!(matches!(it.poll_next(), SortedPoll::Finished));
    assert!(matches!(it.poll_next(), SortedPoll::Finished));
}

#[test]
fn two_top_level_leaves_sent_backwards() {
    let (q, mut it) = new_sorted_results_queue();
    q.push(entry(vec![1], 0, "b")).unwrap();
    q.push(entry(vec![0], 0, "a")).unwrap();
    drop(q);
    let out = drain_sorted(&mut it);
    assert_eq!(positions(&out), vec![vec![0], vec![1]]);
}

#[test]
fn root_with_two_leaves_sent_backwards() {
    let (q, mut it) = new_sorted_results_queue();
    q.push(entry(vec![0, 1], 0, "b")).unwrap();
    q.push(entry(vec![0, 0], 0, "a")).unwrap();
    q.push(entry(vec![0], 2, "root")).unwrap();
    drop(q);
    let out = drain_sorted(&mut it);
    assert_eq!(positions(&out), vec![vec![0], vec![0, 0], vec![0, 1]]);
}

#[test]
fn top_level_subtree_then_sibling() {
    let (q, mut it) = new_sorted_results_queue();
    q.push(entry(vec![0, 0], 0, "a0")).unwrap();
    q.push(entry(vec![1], 0, "b")).unwrap();
    q.push(entry(vec![0], 1, "a")).unwrap();
    drop(q);
    let out = drain_sorted(&mut it);
    assert_eq!(positions(&out), vec![vec![0], vec![0, 0], vec![1]]);
    let payloads: Vec<&str> = out.iter().map(|e| e.payload.as_str()).collect();
    assert_eq!(payloads, vec!["a", "a0", "b"]);
}

#[test]
fn forest_any_arrival_order_gives_preorder() {
    let nodes = vec![
        (vec![0], 1),
        (vec![0, 0], 0),
        (vec![1], 0),
        (vec![2], 2),
        (vec![2, 0], 0),
        (vec![2, 1], 1),
        (vec![2, 1, 0], 0),
    ];
    let orders: Vec<Vec<usize>> = vec![
        vec![6, 5, 4, 3, 2, 1, 0],
        vec![3, 6, 1, 2, 0, 5, 4],
        vec![0, 1, 2, 3, 4, 5, 6],
    ];
    for order in orders {
        let (q, mut it) = new_sorted_results_queue();
        let q2 = q.clone();
        for (k, &i) in order.iter().enumerate() {
            let h = if k % 2 == 0 { &q } else { &q2 };
            h.push(entry(nodes[i].0.clone(), nodes[i].1, "")).unwrap();
        }
        drop(q);
        drop(q2);
        let out = drain_sorted(&mut it);
        let expected: Vec<Vec<usize>> = nodes.iter().map(|n| n.0.clone()).collect();
        assert_eq!(positions(&out), expected);
    }
}

#[test]
fn nested_tree_out_of_order() {
    let (q, mut it) = new_sorted_results_queue();
    let q2 = q.clone();
    q2.push(entry(vec![0, 0, 0], 0, "a0")).unwrap();
    q.push(entry(vec![0, 1], 0, "b")).unwrap();
    q2.push(entry(vec![0, 0], 1, "a")).unwrap();
    q.push(entry(vec![0], 2, "root")).unwrap();
    drop(q);
    drop(q2);
    let out = drain_sorted(&mut it);
    assert_eq!(positions(&out), vec![vec![0], vec![0, 0], vec![0, 0, 0], vec![0, 1]]);
    let payloads: Vec<&str> = out.iter().map(|e| e.payload.as_str()).collect();
    assert_eq!(payloads, vec!["root", "a", "a0", "b"]);
}

#[test]
fn deep_tree_any_arrival_order_gives_preorder() {
    // [0] has children [0,0] (with child [0,0,0]) and [0,1] (with child [0,1,0]).
    let nodes = vec![
        (vec![0], 2),
        (vec![0, 0], 1),
        (vec![0, 0, 0], 0),
        (vec![0, 1], 1),
        (vec![0, 1, 0], 0),
    ];
    let orders: Vec<Vec<usize>> = vec![
        vec![0, 1, 2, 3, 4],
        vec![4, 3, 2, 1, 0],
        vec![2, 4, 0, 3, 1],
        vec![3, 0, 4, 1, 2],
    ];
    for order in orders {
        let (q, mut it) = new_sorted_results_queue();
        for &i in &order {
            q.push(entry(nodes[i].0.clone(), nodes[i].1, "")).unwrap();
        }
        drop(q);
        let out = drain_sorted(&mut it);
        let expected: Vec<Vec<usize>> = nodes.iter().map(|n| n.0.clone()).collect();
        assert_eq!(positions(&out), expected);
        assert!(matches!(it.poll_next(), SortedPoll::Finished));
    }
}

#[test]
fn plain_iterator_keeps_arrival_order() {
    let (q, mut it) = new_results_queue();
    let q2 = q.clone();
    q.push(entry(vec![1], 0, "x")).unwrap();
    q2.push(entry(vec![0, 3], 2, "y")).unwrap();
    q.push(entry(vec![0], 0, "z")).unwrap();
    drop(q);
    drop(q2);
    let mut got = Vec::new();
    while let Some(e) = it.next() {
        got.push((e.position, e.branch_count, e.payload));
    }
    assert!(it.next().is_none());
    assert_eq!(
        got,
        vec![
            (vec![1], 0, "x".to_string()),
            (vec![0, 3], 2, "y".to_string()),
            (vec![0], 0, "z".to_string())
        ]
    );
}

#[test]
fn push_fails_once_consumer_is_gone() {
    let (q, it) = new_sorted_results_queue::<String>();
    drop(it);
    let err = q.push(entry(vec![0], 0, "late")).unwrap_err();
    assert_eq!(err.0.payload, "late");
}

#[test]
fn closed_early_drains_least_first() {
    let (q, mut it) = new_sorted_results_queue();
    // The root announces two children, but only the second one is sent.
    q.push(entry(vec![1], 0, "")).unwrap();
    q.push(entry(vec![0], 2, "")).unwrap();
    q.push(entry(vec![0, 1], 0, "")).unwrap();
    drop(q);
    let out = drain_sorted(&mut it);
    assert_eq!(positions(&out), vec![vec![0], vec![0, 1], vec![1]]);
}

#[test]
fn tracker_follows_preorder() {
    let mut t = SortedResultsQueueNextMatcher::new();
    assert_eq!(t.current_position(), &vec![0]);
    t.increment_past(2);
    assert_eq!(t.current_position(), &vec![0, 0]);
    t.increment_past(0);
    assert_eq!(t.current_position(), &vec![0, 1]);
    t.increment_past(1);
    assert_eq!(t.current_position(), &vec![0, 1, 0]);
    t.increment_past(0);
    // The outermost level stays open: the next top-level node is due.
    assert_eq!(t.current_position(), &vec![1]);
    assert!(!t.is_none());
    t.increment_past(0);
    assert_eq!(t.current_position(), &vec![2]);
}

#[test]
fn position_order_is_preorder() {
    assert!(position_lt(&vec![0], &vec![0, 0]));
    assert!(!position_lt(&vec![0, 0], &vec![0]));
    assert!(position_lt(&vec![0, 5, 9], &vec![1]));
    assert!(position_lt(&vec![0, 2], &vec![0, 3, 0]));
    assert!(!position_lt(&vec![2, 1], &vec![2, 1]));
    assert!(position_eq(&vec![2, 1], &vec![2, 1]));
    assert!(!position_eq(&vec![2, 1], &vec![2]));
}

#[test]
fn tracker_default_expects_the_root() {
    let t = SortedResultsQueueNextMatcher::default();
    assert_eq!(t.current_position(), &vec![0]);
    assert!(!t.is_none());
}

#[test]
fn tracker_unwinds_several_levels_at_once() {
    let mut t = SortedResultsQueueNextMatcher::new();
    t.increment_past(2); // [0] with two children
    t.increment_past(1); // [0,0] with one child
    t.increment_past(1); // [0,0,0] with one child
    assert_eq!(t.current_position(), &vec![0, 0, 0, 0]);
    t.increment_past(0); // [0,0,0,0], a leaf: three levels close
    assert_eq!(t.current_position(), &vec![0, 1]);
}

#[test]
fn releaser_holds_back_entries_until_due() {
    let mut r = SortedReleaser::new();
    r.insert(entry(vec![0, 1], 0, "b"));
    assert!(r.release_ready().is_none());
    r.insert(entry(vec![0, 0], 0, "a"));
    assert!(r.release_ready().is_none());
    r.insert(entry(vec![0], 2, "root"));
    assert_eq!(r.release_ready().unwrap().payload, "root");
    assert_eq!(r.release_ready().unwrap().payload, "a");
    assert_eq!(r.release_ready().unwrap().payload, "b");
    assert!(!r.is_finished());
    assert!(r.release_ready().is_none());
    r.insert(entry(vec![1], 0, "next root"));
    assert_eq!(r.release_ready().unwrap().payload, "next root");
}

#[test]
fn releaser_drains_least_first_when_nothing_is_due() {
    let mut r = SortedReleaser::new();
    assert!(r.release_least().is_none());
    r.insert(entry(vec![3], 0, "late"));
    r.insert(entry(vec![0, 4], 0, "early"));
    assert!(r.release_ready().is_none());
    assert_eq!(r.release_least().unwrap().payload, "early");
    assert_eq!(r.release_least().unwrap().payload, "late");
    assert!(r.release_least().is_none());
}
