use quickselect::{find_kth, sort_by_delta, Cluster, Delta, SelectError};

fn sample() -> Vec<Cluster> {
    vec![
        Cluster { delta0: 523, delta1: 990, delta2: 431 },
        Cluster { delta0: 371, delta1: 499, delta2: 212 },
        Cluster { delta0: 490, delta1: 1097, delta2: 117 },
        Cluster { delta0: 242, delta1: 947, delta2: 198 },
        Cluster { delta0: 761, delta1: 866, delta2: 514 },
        Cluster { delta0: 241, delta1: 281, delta2: 131 },
        Cluster { delta0: 520, delta1: 824, delta2: 378 },
    ]
}

fn bag(v: &[Cluster]) -> Vec<(u32, u32, u32)> {
    let mut t: Vec<(u32, u32, u32)> = v.iter().map(|c| (c.delta0, c.delta1, c.delta2)).collect();
    t.sort();
    t
}

#[test]
fn find_2nd_delta0() {
    let mut v: Vec<Cluster> = vec![
        Cluster { delta0: 523, delta1: 990, delta2: 431 },
        Cluster { delta0: 371, delta1: 499, delta2: 212 },
        Cluster { delta0: 490, delta1: 1097, delta2: 117 },
        Cluster { delta0: 242, delta1: 947, delta2: 198 },
        Cluster { delta0: 761, delta1: 866, delta2: 514 },
        Cluster { delta0: 241, delta1: 281, delta2: 131 },
        Cluster { delta0: 520, delta1: 824, delta2: 378 },
    ];

    let r = v.len() - 1;

    assert_eq!(find_kth(&mut v, 0, r, 2, &Delta::Delta0), Ok(371));
}

#[test]
fn find_3rd_delta1() {
    let mut v: Vec<Cluster> = vec![
        Cluster { delta0: 523, delta1: 990, delta2: 431 },
        Cluster { delta0: 371, delta1: 499, delta2: 212 },
        Cluster { delta0: 490, delta1: 1097, delta2: 117 },
        Cluster { delta0: 242, delta1: 947, delta2: 198 },
        Cluster { delta0: 761, delta1: 866, delta2: 514 },
        Cluster { delta0: 241, delta1: 281, delta2: 131 },
        Cluster { delta0: 520, delta1: 824, delta2: 378 },
    ];

    let r = v.len() - 1;

    assert_eq!(find_kth(&mut v, 0, r, 3, &Delta::Delta1), Ok(866));
}

#[test]
fn find_4th_delta2() {
    let mut v: Vec<Cluster> = vec![
        Cluster { delta0: 523, delta1: 990, delta2: 431 },
        Cluster { delta0: 371, delta1: 499, delta2: 212 },
        Cluster { delta0: 490, delta1: 1097, delta2: 117 },
        Cluster { delta0: 242, delta1: 947, delta2: 198 },
        Cluster { delta0: 761, delta1: 866, delta2: 514 },
        Cluster { delta0: 241, delta1: 281, delta2: 131 },
        Cluster { delta0: 520, delta1: 824, delta2: 378 },
    ];

    let r = v.len() - 1;

    assert_eq!(find_kth(&mut v, 0, r, 4, &Delta::Delta2), Ok(378));
}

#[test]
fn find_kth_matches_sorted_copy_for_every_rank_and_key() {
    for delta in [Delta::Delta0, Delta::Delta1, Delta::Delta2] {
        let mut sorted = sample();
        sort_by_delta(&mut sorted, &delta);
        for k in 0..sorted.len() {
            let mut v = sample();
            let r = v.len() - 1;
            let found = find_kth(&mut v, 0, r, k, &delta);
            assert_eq!(found, Ok(sorted[k].get_cluster_delta(&delta)));
            assert_eq!(bag(&v), bag(&sample()));
        }
    }
}

#[test]
fn find_kth_leaves_the_range_partitioned_at_k() {
    let mut v = sample();
    let x = find_kth(&mut v, 0, 6, 3, &Delta::Delta0).unwrap();
    assert_eq!(x, 490);
    assert_eq!(v[3].delta0, 490);
    for i in 0..3 {
        assert!(v[i].delta0 <= 490);
    }
    for i in 4..7 {
        assert!(v[i].delta0 >= 490);
    }
}

#[test]
fn find_kth_in_a_sub_range_counts_ranks_from_its_left_end() {
    // delta0 of the records at 2..=5: 490, 242, 761, 241
    let mut v = sample();
    assert_eq!(find_kth(&mut v, 2, 5, 2, &Delta::Delta0), Ok(241));
    let mut v = sample();
    assert_eq!(find_kth(&mut v, 2, 5, 3, &Delta::Delta0), Ok(242));
    let mut v = sample();
    assert_eq!(find_kth(&mut v, 2, 5, 4, &Delta::Delta0), Ok(490));
    let mut v = sample();
    assert_eq!(find_kth(&mut v, 2, 5, 5, &Delta::Delta0), Ok(761));
    let before = sample();
    assert_eq!(v[0], before[0]);
    assert_eq!(v[1], before[1]);
    assert_eq!(v[6], before[6]);
    assert_eq!(bag(&v[2..6]), bag(&before[2..6]));
}

#[test]
fn find_kth_single_record() {
    let mut v = vec![Cluster { delta0: 7, delta1: 8, delta2: 9 }];
    assert_eq!(find_kth(&mut v, 0, 0, 0, &Delta::Delta1), Ok(8));
}

#[test]
fn find_kth_with_equal_values() {
    let c = |a: u32| Cluster { delta0: a, delta1: 0, delta2: u32::MAX };
    let mut v = vec![c(5), c(1), c(5), c(5), c(0), c(1)];
    let expected = [0u32, 1, 1, 5, 5, 5];
    for k in 0..6 {
        assert_eq!(find_kth(&mut v, 0, 5, k, &Delta::Delta0), Ok(expected[k]));
        assert_eq!(find_kth(&mut v, 0, 5, k, &Delta::Delta1), Ok(0));
        assert_eq!(find_kth(&mut v, 0, 5, k, &Delta::Delta2), Ok(u32::MAX));
    }
}

#[test]
fn find_kth_on_ascending_and_descending_input() {
    let n: usize = 200;
    let mut up: Vec<Cluster> = Vec::new();
    let mut down: Vec<Cluster> = Vec::new();
    for i in 0..n {
        up.push(Cluster { delta0: i as u32, delta1: 0, delta2: 0 });
        down.push(Cluster { delta0: (n - 1 - i) as u32, delta1: 0, delta2: 0 });
    }
    assert_eq!(find_kth(&mut up, 0, n - 1, 0, &Delta::Delta0), Ok(0));
    assert_eq!(find_kth(&mut up, 0, n - 1, n - 1, &Delta::Delta0), Ok(199));
    assert_eq!(find_kth(&mut down, 0, n - 1, 0, &Delta::Delta0), Ok(0));
    assert_eq!(find_kth(&mut down, 0, n - 1, 57, &Delta::Delta0), Ok(57));
}

#[test]
fn find_kth_refuses_an_empty_collection() {
    let mut v: Vec<Cluster> = Vec::new();
    assert_eq!(find_kth(&mut v, 0, 0, 0, &Delta::Delta0), Err(SelectError::InvalidArgument));
    assert!(v.is_empty());
}

#[test]
fn find_kth_refuses_a_range_outside_the_collection() {
    let mut v = sample();
    assert_eq!(find_kth(&mut v, 0, 7, 2, &Delta::Delta0), Err(SelectError::InvalidArgument));
    assert_eq!(find_kth(&mut v, 7, 9, 8, &Delta::Delta0), Err(SelectError::InvalidArgument));
    assert_eq!(
        find_kth(&mut v, 0, usize::MAX, 2, &Delta::Delta0),
        Err(SelectError::InvalidArgument)
    );
    assert_eq!(v, sample());
}

#[test]
fn find_kth_refuses_a_reversed_range() {
    let mut v = sample();
    assert_eq!(find_kth(&mut v, 4, 2, 3, &Delta::Delta0), Err(SelectError::InvalidArgument));
    assert_eq!(v, sample());
}

#[test]
fn find_kth_refuses_a_rank_outside_the_range() {
    let mut v = sample();
    assert_eq!(find_kth(&mut v, 0, 6, 7, &Delta::Delta0), Err(SelectError::InvalidArgument));
    assert_eq!(find_kth(&mut v, 2, 5, 1, &Delta::Delta1), Err(SelectError::InvalidArgument));
    assert_eq!(find_kth(&mut v, 2, 5, 6, &Delta::Delta2), Err(SelectError::InvalidArgument));
    assert_eq!(v, sample());
}

fn selection_agrees_with_sorting(records: Vec<(u32, u32, u32)>, rank: usize) -> bool {
    if records.is_empty() {
        return true;
    }
    let k = rank % records.len();
    let r = records.len() - 1;
    [Delta::Delta0, Delta::Delta1, Delta::Delta2].iter().all(|delta| {
        let mut v: Vec<Cluster> =
            records.iter().map(|t| Cluster { delta0: t.0, delta1: t.1, delta2: t.2 }).collect();
        let mut sorted = v.clone();
        sort_by_delta(&mut sorted, delta);
        find_kth(&mut v, 0, r, k, delta) == Ok(sorted[k].get_cluster_delta(delta))
            && bag(&v) == bag(&sorted)
    })
}

#[test]
fn find_kth_agrees_with_sorting_on_generated_collections() {
    quickcheck::QuickCheck::new()
        .tests(200)
        .quickcheck(selection_agrees_with_sorting as fn(Vec<(u32, u32, u32)>, usize) -> bool);
}
