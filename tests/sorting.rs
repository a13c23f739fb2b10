use stepwise_algos::{add, values_from_seed, AlgorithmRunner, BubbleSort, MergeSort, QuickSort};

fn is_sorted(a: &[i32]) -> bool {
    a.windows(2).all(|w| w[0] <= w[1])
}

fn same_values(a: &[i32], b: &[i32]) -> bool {
    let mut x = a.to_vec();
    let mut y = b.to_vec();
    x.sort();
    y.sort();
    x == y
}

#[test]
fn bubble_sort_passes_through_expected_states() {
    let mut s = BubbleSort::new();
    s.set_array(vec![5, 1, 4, 2, 8]);
    let mut seen = Vec::new();
    let mut steps = 0;
    while !s.is_complete() {
        let snap = s.step().expect("a snapshot before completion");
        seen.push(snap);
        steps += 1;
    }
    assert!(seen.contains(&vec![1, 4, 2, 5, 8]));
    assert_eq!(seen[0], vec![1, 5, 4, 2, 8]);
    assert_eq!(s.get_array(), vec![1, 2, 4, 5, 8]);
    assert_eq!(steps, 15);
    assert!(steps <= 5 * 4 / 2 + 5);
    assert_eq!(s.step(), None);
    assert!(!s.is_complete());
}

#[test]
fn bubble_sort_step_bound_holds_for_many_lengths() {
    for n in 1..12usize {
        let data: Vec<i32> = (0..n as i32).rev().collect();
        let mut s = BubbleSort::new();
        s.set_array(data.clone());
        let mut steps = 0;
        while !s.is_complete() {
            assert!(s.step().is_some());
            steps += 1;
        }
        assert!(steps <= n * (n - 1) / 2 + n);
        assert!(is_sorted(&s.get_array()));
        assert!(same_values(&s.get_array(), &data));
    }
}

#[test]
fn bubble_sort_small_arrays_complete_at_once() {
    let mut s = BubbleSort::new();
    s.set_array(vec![]);
    assert_eq!(s.step(), Some(vec![]));
    assert!(s.is_complete());
    s.set_array(vec![7]);
    assert_eq!(s.step(), Some(vec![7]));
    assert!(s.is_complete());
    assert_eq!(s.step(), None);
}

#[test]
fn bubble_sort_reset_keeps_current_array() {
    let mut s = BubbleSort::new();
    s.set_array(vec![3, 2, 1]);
    s.step();
    assert_eq!(s.get_array(), vec![2, 3, 1]);
    s.reset();
    assert_eq!(s.get_array(), vec![2, 3, 1]);
    assert!(!s.is_complete());
    s.set_array(vec![3, 2, 1]);
    assert_eq!(s.get_array(), vec![3, 2, 1]);
}

#[test]
fn quick_sort_partitions_and_finishes() {
    let mut q = QuickSort::new();
    q.set_array(vec![3, 1, 2]);
    q.start_sort();
    assert!(!q.is_complete());
    assert_eq!(q.step(), Some((vec![1, 2, 3], 0, 2, 1)));
    assert!(!q.is_complete());
    assert_eq!(q.step(), Some((vec![1, 2, 3], 0, 2, 1)));
    assert!(q.is_complete());
    assert_eq!(q.step(), None);
    assert_eq!(q.get_array(), vec![1, 2, 3]);
}

#[test]
fn quick_sort_step_sequence_on_sample() {
    let mut q = QuickSort::new();
    q.set_array(vec![5, 1, 4, 2, 8]);
    q.start_sort();
    assert_eq!(q.step(), Some((vec![5, 1, 4, 2, 8], 0, 4, 4)));
    assert_eq!(q.step(), Some((vec![5, 1, 4, 2, 8], 0, 4, 4)));
    assert_eq!(q.step(), Some((vec![1, 2, 4, 5, 8], 0, 3, 1)));
    assert_eq!(q.step(), Some((vec![1, 2, 4, 5, 8], 0, 3, 1)));
    assert_eq!(q.step(), Some((vec![1, 2, 4, 5, 8], 2, 3, 3)));
    assert_eq!(q.step(), Some((vec![1, 2, 4, 5, 8], 2, 3, 3)));
    assert!(q.is_complete());
    assert_eq!(q.step(), None);
    assert_eq!(q.get_array(), vec![1, 2, 4, 5, 8]);
}

#[test]
fn quick_sort_sorted_input_is_fully_unbalanced() {
    let n = 8usize;
    let mut q = QuickSort::new();
    q.set_array((0..n as i32).collect());
    q.start_sort();
    let mut steps = 0;
    let mut partitions = Vec::new();
    while !q.is_complete() {
        let (_, lo, hi, p) = q.step().expect("a snapshot before completion");
        if steps % 2 == 0 {
            partitions.push((lo, hi, p));
        }
        steps += 1;
    }
    assert_eq!(steps, 2 * (n - 1));
    let expected: Vec<(i32, i32, i32)> = (1..n as i32).map(|k| (0, n as i32 - k, n as i32 - k)).collect();
    assert_eq!(partitions, expected);
}

#[test]
fn quick_sort_sorts_various_inputs() {
    let inputs: Vec<Vec<i32>> = vec![
        vec![5, 1, 4, 2, 8],
        vec![9, 8, 7, 6, 5, 4, 3, 2, 1],
        vec![1, 2, 3, 4, 5, 6],
        vec![4, 4, 1, 4, -3, 0, 4],
        vec![i32::MAX, i32::MIN, 0, -1, 1],
    ];
    for data in inputs {
        let mut q = QuickSort::new();
        q.set_array(data.clone());
        q.start_sort();
        let mut guard = 0;
        while !q.is_complete() {
            q.step();
            guard += 1;
            assert!(guard < 1000);
        }
        assert!(is_sorted(&q.get_array()));
        assert!(same_values(&q.get_array(), &data));
    }
}

#[test]
fn quick_sort_empty_array_is_complete() {
    let mut q = QuickSort::new();
    q.set_array(vec![]);
    q.start_sort();
    assert!(q.is_complete());
    assert_eq!(q.step(), None);
}

#[test]
fn quick_sort_reset_keeps_current_array() {
    let mut q = QuickSort::new();
    q.set_array(vec![2, 3, 1]);
    q.start_sort();
    q.step();
    let now = q.get_array();
    q.reset();
    assert!(q.is_complete());
    assert_eq!(q.get_array(), now);
}

#[test]
fn merge_sort_runs_every_scheduled_merge() {
    let mut m = MergeSort::new();
    m.set_array(vec![3, 1, 2]);
    m.start_sort();
    assert_eq!(m.step(), Some((vec![3, 1, 2], 0, 1, 2)));
    assert_eq!(m.step(), Some((vec![3, 1, 2], 0, 0, 1)));
    assert_eq!(m.step(), Some((vec![3, 1, 2], 0, 0, 0)));
    assert_eq!(m.step(), Some((vec![3, 1, 2], 1, 1, 1)));
    assert_eq!(m.step(), Some((vec![1, 3, 2], 0, 0, 1)));
    assert_eq!(m.step(), Some((vec![1, 3, 2], 2, 2, 2)));
    assert_eq!(m.step(), Some((vec![1, 2, 3], 0, 1, 2)));
    assert!(m.is_complete());
    assert_eq!(m.step(), None);
}

#[test]
fn merge_sort_sorts_various_inputs() {
    let inputs: Vec<Vec<i32>> = vec![
        vec![5, 1, 4, 2, 8],
        vec![9, 8, 7, 6, 5, 4, 3, 2, 1],
        vec![1, 2, 3, 4, 5, 6],
        vec![4, 4, 1, 4, -3, 0, 4],
        vec![42],
    ];
    for data in inputs {
        let mut m = MergeSort::new();
        m.set_array(data.clone());
        m.start_sort();
        let mut guard = 0;
        while !m.is_complete() {
            assert!(m.step().is_some());
            guard += 1;
            assert!(guard < 1000);
        }
        assert!(is_sorted(&m.get_array()));
        assert!(same_values(&m.get_array(), &data));
    }
}

#[test]
fn merge_sort_empty_array_is_complete() {
    let mut m = MergeSort::new();
    m.set_array(vec![]);
    m.start_sort();
    assert!(m.is_complete());
    assert_eq!(m.step(), None);
}

#[test]
fn runner_shares_array_between_engines() {
    let mut r = AlgorithmRunner::new();
    assert!(!r.is_running());
    r.set_running(true);
    assert!(r.is_running());
    r.set_array(vec![2, 1]);
    assert_eq!(r.get_array(), vec![2, 1]);
    assert_eq!(r.bubble_sort_step(), Some(vec![1, 2]));
    r.quick_sort_start();
    assert_eq!(r.quick_sort_step(), Some((vec![1, 2], 0, 1, 0)));
    r.merge_sort_start();
    assert_eq!(r.merge_sort_step(), Some((vec![2, 1], 0, 0, 1)));
    r.binary_search_start(1);
    assert_eq!(r.binary_search_step(), Some((vec![2, 1], 0, 0, 0)));
    r.linear_search_start(1);
    assert_eq!(r.linear_search_step(), Some((vec![2, 1], 1)));
    assert_eq!(r.linear_search_step(), Some((vec![2, 1], 1)));
    r.bubble_sort_reset();
    r.quick_sort_reset();
    r.merge_sort_reset();
    r.binary_search_reset();
    r.linear_search_reset();
    assert_eq!(r.get_array(), vec![2, 1]);
}

#[test]
fn generated_values_are_in_range_and_repeatable() {
    let a = values_from_seed(12345, 50);
    let b = values_from_seed(12345, 50);
    assert_eq!(a.len(), 50);
    assert_eq!(a, b);
    assert!(a.iter().all(|v| (20..420).contains(v)));
    let plain: Vec<i32> = (0..50).map(|i| ((12345 + i) % 400) as i32 + 20).collect();
    assert_ne!(a, plain);
    assert!(values_from_seed(7, 0).is_empty());
    assert_eq!(values_from_seed(u64::MAX, 3).len(), 3);
}

#[test]
fn add_sums() {
    assert_eq!(add(2, 3), 5);
    assert_eq!(add(-7, 7), 0);
}

#[test]
fn merge_sort_takes_three_n_minus_two_steps() {
    for n in 1..20usize {
        let data: Vec<i32> = (0..n as i32).map(|v| (v * 7919) % 13 - 6).collect();
        let mut m = MergeSort::new();
        m.set_array(data);
        m.start_sort();
        let mut steps = 0;
        while !m.is_complete() {
            m.step();
            steps += 1;
        }
        assert_eq!(steps, 3 * n - 2);
    }
}

#[test]
fn quick_sort_finishes_within_two_n_steps() {
    let shapes: Vec<Vec<i32>> = vec![
        (0..30).collect(),
        (0..30).rev().collect(),
        vec![5; 17],
        (0..25).map(|v| (v * 31) % 11).collect(),
        vec![1],
    ];
    for data in shapes {
        let n = data.len();
        let mut q = QuickSort::new();
        q.set_array(data);
        q.start_sort();
        let mut steps = 0;
        while !q.is_complete() {
            q.step();
            steps += 1;
        }
        assert!(steps <= 2 * n);
        assert!(is_sorted(&q.get_array()));
    }
}
