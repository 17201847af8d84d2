use s3_bucket_downloader::partition::{assigned_count, assignment, expected_load, partition, worker_keys};

fn keys(n: usize) -> Vec<String> {
    (0..n).map(|i| format!("dir/key-{}", i)).collect()
}

#[test]
fn ten_keys_three_workers_round_robin() {
    let ks = keys(10);
    let parts = partition(&ks, 3);
    assert_eq!(parts.len(), 3);
    let idx = |w: usize| -> Vec<usize> {
        parts[w].iter().map(|k| ks.iter().position(|x| x == k).unwrap()).collect()
    };
    assert_eq!(idx(0), vec![0, 3, 6, 9]);
    assert_eq!(idx(1), vec![1, 4, 7]);
    assert_eq!(idx(2), vec![2, 5, 8]);
}

#[test]
fn assignment_is_index_mod_workers() {
    for n in 1..7usize {
        for i in 0..40usize {
            assert_eq!(assignment(i, n), i % n);
        }
    }
}

#[test]
fn every_key_goes_to_exactly_one_worker() {
    for m in 0..25usize {
        for n in 1..9usize {
            let ks = keys(m);
            let parts = partition(&ks, n);
            let mut all: Vec<String> = parts.iter().flatten().cloned().collect();
            assert_eq!(all.len(), m);
            all.sort();
            let mut expected = ks.clone();
            expected.sort();
            assert_eq!(all, expected);
            for (i, k) in ks.iter().enumerate() {
                let holders: Vec<usize> = (0..n).filter(|w| parts[*w].contains(k)).collect();
                assert_eq!(holders, vec![i % n]);
            }
        }
    }
}

#[test]
fn empty_key_set_gives_empty_shares() {
    let parts = partition(&Vec::new(), 4);
    assert_eq!(parts.len(), 4);
    assert!(parts.iter().all(|p| p.is_empty()));
    assert_eq!(expected_load(0, 4), 0);
}

#[test]
fn more_workers_than_keys() {
    let ks = keys(2);
    let parts = partition(&ks, 5);
    assert_eq!(parts[0], vec![ks[0].clone()]);
    assert_eq!(parts[1], vec![ks[1].clone()]);
    for w in 2..5 {
        assert!(parts[w].is_empty());
        assert_eq!(assigned_count(2, 5, w), 0);
    }
}

#[test]
fn display_denominator_versus_exact_count() {
    assert_eq!(expected_load(10, 3), 4);
    assert_eq!(assigned_count(10, 3, 0), 4);
    assert_eq!(assigned_count(10, 3, 1), 3);
    assert_eq!(assigned_count(10, 3, 2), 3);
    assert_eq!(expected_load(9, 3), 3);
    assert_eq!(expected_load(usize::MAX, 1), usize::MAX);
    assert_eq!(expected_load(usize::MAX, 2), usize::MAX / 2 + 1);
}

#[test]
fn worker_keys_keep_listing_order() {
    let ks = keys(7);
    assert_eq!(worker_keys(&ks, 2, 1), vec![ks[1].clone(), ks[3].clone(), ks[5].clone()]);
    assert_eq!(worker_keys(&ks, 1, 0), ks);
    assert!(worker_keys(&ks, 3, 9).is_empty());
}
