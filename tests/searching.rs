use stepwise_algos::{BinarySearch, GraphSearcher, LinearSearch, BFS, DFS};

#[test]
fn binary_search_probe_sequence_for_absent_target() {
    let mut b = BinarySearch::new();
    b.set_array(vec![1, 2, 4, 5, 8]);
    b.start_search(3);
    assert_eq!(b.step(), Some((vec![1, 2, 4, 5, 8], 0, 1, 2)));
    assert_eq!(b.step(), Some((vec![1, 2, 4, 5, 8], 1, 1, 0)));
    assert_eq!(b.step(), Some((vec![1, 2, 4, 5, 8], 2, 1, 1)));
    assert!(!b.is_complete());
    assert_eq!(b.step(), None);
    assert!(b.is_complete());
    assert!(!b.found());
}

#[test]
fn binary_search_finds_each_present_value() {
    let data = vec![-4, 0, 3, 9, 12, 20, 31];
    for (i, &t) in data.iter().enumerate() {
        let mut b = BinarySearch::new();
        b.set_array(data.clone());
        b.start_search(t);
        let mut last = None;
        while !b.is_complete() {
            if let Some(snap) = b.step() {
                last = Some(snap.3);
            }
        }
        assert!(b.found());
        assert_eq!(last, Some(i));
    }
}

#[test]
fn binary_search_target_below_all_values_ends_without_match() {
    let mut b = BinarySearch::new();
    b.set_array(vec![5, 6, 7]);
    b.start_search(1);
    let mut guard = 0;
    while !b.is_complete() {
        b.step();
        guard += 1;
        assert!(guard < 10);
    }
    assert!(!b.found());
}

#[test]
fn binary_search_empty_array() {
    let mut b = BinarySearch::new();
    b.set_array(vec![]);
    b.start_search(1);
    assert_eq!(b.step(), None);
    assert!(b.is_complete());
    assert!(!b.found());
}

#[test]
fn binary_search_step_before_start_is_inert() {
    let mut b = BinarySearch::new();
    b.set_array(vec![1, 2]);
    assert_eq!(b.step(), None);
    b.start_search(2);
    b.reset();
    assert_eq!(b.get_array(), vec![1, 2]);
    assert_eq!(b.step(), None);
}

#[test]
fn linear_search_finds_first_match() {
    let mut l = LinearSearch::new();
    l.set_array(vec![4, 7, 7, 1]);
    l.start_search(7);
    assert_eq!(l.step(), Some((vec![4, 7, 7, 1], 1)));
    assert!(!l.is_complete());
    assert_eq!(l.step(), Some((vec![4, 7, 7, 1], 1)));
    assert!(l.is_complete());
    assert!(l.found());
    assert_eq!(l.step(), None);
}

#[test]
fn linear_search_absent_target() {
    let mut l = LinearSearch::new();
    l.set_array(vec![4, 7]);
    l.start_search(9);
    assert_eq!(l.step(), Some((vec![4, 7], 1)));
    assert_eq!(l.step(), Some((vec![4, 7], 2)));
    assert_eq!(l.step(), None);
    assert!(l.is_complete());
    assert!(!l.found());
    l.reset();
    assert_eq!(l.get_array(), vec![4, 7]);
}

fn sample_edges() -> Vec<(&'static str, &'static str)> {
    vec![("A", "B"), ("A", "C"), ("B", "D")]
}

#[test]
fn bfs_visits_in_queue_order() {
    let mut g = BFS::new();
    for (f, t) in sample_edges() {
        g.add_edge(f.to_string(), t.to_string());
    }
    g.start_search("A".to_string());
    let mut order = Vec::new();
    let mut hit = false;
    while !g.is_complete() {
        if let Some((n, f)) = g.step("D".to_string()) {
            order.push(n);
            hit = f;
        }
    }
    assert_eq!(order, vec!["A", "B", "C", "D"]);
    assert!(hit);
    assert_eq!(g.get_current_node(), Some("D".to_string()));
}

#[test]
fn dfs_visits_in_preorder() {
    let mut g = DFS::new();
    for (f, t) in sample_edges() {
        g.add_edge(f.to_string(), t.to_string());
    }
    g.start_search("A".to_string());
    let mut order = Vec::new();
    let mut hit = false;
    while !g.is_complete() {
        if let Some((n, f)) = g.step("D".to_string()) {
            order.push(n);
            hit = f;
        }
    }
    assert_eq!(order, vec!["A", "B", "D"]);
    assert!(hit);
    assert_eq!(g.get_current_node(), Some("D".to_string()));
}

#[test]
fn traversals_exhaust_when_target_unreachable() {
    let mut b = BFS::new();
    let mut d = DFS::new();
    for (f, t) in [("A", "B"), ("B", "A"), ("B", "B"), ("C", "A")] {
        b.add_edge(f.to_string(), t.to_string());
        d.add_edge(f.to_string(), t.to_string());
    }
    b.start_search("A".to_string());
    d.start_search("A".to_string());
    let mut bo = Vec::new();
    while let Some((n, f)) = b.step("C".to_string()) {
        assert!(!f);
        bo.push(n);
    }
    let mut dor = Vec::new();
    while let Some((n, f)) = d.step("C".to_string()) {
        assert!(!f);
        dor.push(n);
    }
    assert_eq!(bo, vec!["A", "B"]);
    assert_eq!(dor, vec!["A", "B"]);
    assert!(b.is_complete() && d.is_complete());
}

#[test]
fn traversal_step_before_start_returns_none() {
    let mut b = BFS::new();
    let mut d = DFS::new();
    assert_eq!(b.step("A".to_string()), None);
    assert_eq!(d.step("A".to_string()), None);
    assert_eq!(b.get_current_node(), None);
    b.start_search("A".to_string());
    b.reset();
    assert_eq!(b.step("A".to_string()), None);
}

#[test]
fn dfs_skips_already_visited_nodes_in_one_step() {
    let mut d = DFS::new();
    for (f, t) in [("A", "B"), ("A", "C"), ("B", "C"), ("C", "E")] {
        d.add_edge(f.to_string(), t.to_string());
    }
    d.start_search("A".to_string());
    let mut order = Vec::new();
    while let Some((n, _)) = d.step("Z".to_string()) {
        order.push(n);
    }
    assert_eq!(order, vec!["A", "B", "C", "E"]);
}

#[test]
fn graph_searcher_drives_both_engines() {
    let mut g = GraphSearcher::new();
    for (f, t) in sample_edges() {
        g.add_edge(f.to_string(), t.to_string());
    }
    g.bfs_start("A".to_string());
    g.dfs_start("A".to_string());
    assert_eq!(g.bfs_step("D".to_string()), Some(("A".to_string(), false)));
    assert_eq!(g.bfs_step("D".to_string()), Some(("B".to_string(), false)));
    assert_eq!(g.dfs_step("D".to_string()), Some(("A".to_string(), false)));
    assert_eq!(g.dfs_step("D".to_string()), Some(("B".to_string(), false)));
    assert_eq!(g.dfs_step("D".to_string()), Some(("D".to_string(), true)));
    g.reset();
    assert_eq!(g.bfs_step("D".to_string()), None);
    assert_eq!(g.dfs_step("D".to_string()), None);
}
