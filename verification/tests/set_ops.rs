use diet::Diet;

fn create_set() -> Diet {
    let mut set = Diet::new();
    for i in 7..=10 {
        assert!(set.insert(i));
    }
    for i in 7..=10 {
        assert!(set.contains(i));
    }

    for i in 13..=14 {
        assert!(set.insert(i));
        assert!(set.contains(i));
    }

    assert!(set.insert(-1));
    assert!(set.contains(-1));

    assert!(set.insert(1));
    assert!(set.contains(1));

    assert!(set.insert(5));
    assert!(set.contains(5));

    assert!(set.insert(3));
    assert!(set.contains(3));

    assert!(set.insert(6));
    assert!(!set.insert(6));
    assert!(!set.insert(3));

    assert_eq!(set.len(), 11);
    set
}

/// The members of `set` among `lo..=hi`, in ascending order.
fn members(set: &Diet, lo: isize, hi: isize) -> Vec<isize> {
    let mut found = Vec::new();
    for v in lo..=hi {
        if set.contains(v) {
            found.push(v);
        }
    }
    found
}

fn from_values(values: &[isize]) -> Diet {
    let mut set = Diet::new();
    for &v in values {
        set.insert(v);
    }
    set
}

#[test]
fn insert_and_delete() {
    let mut set = create_set();

    assert!(set.remove(13));
    assert!(!set.contains(13));

    assert!(set.remove(14));
    assert!(!set.contains(14));

    assert_eq!(set.len(), 9);

    assert!(set.remove(-1));
    assert!(!set.contains(-1));

    assert!(!set.remove(-2));
    assert_eq!(set.len(), 8);
}

#[test]
fn new_set_is_empty() {
    let mut set = Diet::new();
    assert_eq!(set.len(), 0);
    assert!(!set.contains(0));
    assert!(!set.contains(isize::MIN));
    assert!(!set.contains(isize::MAX));
    assert!(!set.remove(0));
    assert_eq!(set.len(), 0);
}

#[test]
fn first_insert_makes_one_member() {
    let mut set = Diet::new();
    assert!(set.insert(42));
    assert_eq!(set.len(), 1);
    assert_eq!(members(&set, 30, 50), vec![42]);
}

#[test]
fn duplicate_insert_changes_nothing() {
    let mut set = from_values(&[7, 8, 9, 10, 13, 14, -1, 1, 5, 3, 6]);
    let before = members(&set, -20, 20);
    assert_eq!(set.len(), 11);
    for &v in &[6, 3, 7, 10, 14, -1, 8] {
        assert!(!set.insert(v));
        assert_eq!(set.len(), 11);
        assert_eq!(members(&set, -20, 20), before);
    }
}

#[test]
fn contains_follows_inserts_and_removes() {
    let mut set = Diet::new();
    let mut present = [false; 64];
    let mut state: u64 = 0x2545_f491_4f6c_dd1d;
    for _ in 0..4000 {
        state = state
            .wrapping_mul(6364136223846793005)
            .wrapping_add(1442695040888963407);
        let v = ((state >> 33) % 64) as usize;
        let insert = (state >> 20) & 1 == 0;
        if insert {
            assert_eq!(set.insert(v as isize - 32), !present[v]);
            present[v] = true;
        } else {
            assert_eq!(set.remove(v as isize - 32), present[v]);
            present[v] = false;
        }
        for (i, &p) in present.iter().enumerate() {
            assert_eq!(set.contains(i as isize - 32), p);
        }
        assert_eq!(set.len(), present.iter().filter(|&&p| p).count());
    }
}

#[test]
fn len_counts_members() {
    let mut set = Diet::new();
    for &v in &[4, 2, 9, 3, 100, -7, 8, 2, 9, 5] {
        set.insert(v);
        assert_eq!(set.len(), members(&set, -200, 200).len());
    }
    assert_eq!(set.len(), 8);
    for &v in &[3, 50, 9, -7, 3, 100] {
        set.remove(v);
        assert_eq!(set.len(), members(&set, -200, 200).len());
    }
    assert_eq!(set.len(), 4);
    assert_eq!(members(&set, -200, 200), vec![2, 4, 5, 8]);
}

#[test]
fn insert_between_two_intervals_fuses_them() {
    let mut set = from_values(&[7, 8, 9, 10, 13, 14]);
    assert!(set.insert(6));
    assert_eq!(members(&set, 0, 20), vec![6, 7, 8, 9, 10, 13, 14]);
    assert!(set.insert(11));
    assert_eq!(set.len(), 8);
    assert!(set.insert(12));
    assert_eq!(set.len(), 9);
    assert_eq!(members(&set, 0, 20), vec![6, 7, 8, 9, 10, 11, 12, 13, 14]);
    // One interval now: taking its inside out leaves both ends in place.
    assert!(set.remove(12));
    assert_eq!(members(&set, 0, 20), vec![6, 7, 8, 9, 10, 11, 13, 14]);
}

#[test]
fn insert_below_keeps_a_distant_left_subtree() {
    let mut set = from_values(&[10, 5]);
    assert!(set.insert(9));
    assert_eq!(set.len(), 3);
    assert_eq!(members(&set, 0, 20), vec![5, 9, 10]);
    assert!(set.insert(7));
    assert!(set.insert(8));
    assert_eq!(members(&set, 0, 20), vec![5, 7, 8, 9, 10]);
    assert!(set.insert(6));
    assert_eq!(set.len(), 6);
    assert_eq!(members(&set, 0, 20), vec![5, 6, 7, 8, 9, 10]);
}

#[test]
fn insert_above_keeps_a_distant_right_subtree() {
    let mut set = from_values(&[10, 15]);
    assert!(set.insert(11));
    assert_eq!(set.len(), 3);
    assert_eq!(members(&set, 0, 20), vec![10, 11, 15]);
    assert!(set.insert(13));
    assert!(set.insert(12));
    assert_eq!(members(&set, 0, 20), vec![10, 11, 12, 13, 15]);
    assert!(set.insert(14));
    assert_eq!(set.len(), 6);
    assert_eq!(members(&set, 0, 20), vec![10, 11, 12, 13, 14, 15]);
}

#[test]
fn fusing_reaches_deep_into_a_subtree() {
    // 20 at the root; below it 1, then 10, then 15 with 12 under it.
    let mut set = from_values(&[20, 1, 10, 15, 12]);
    for v in 16..=19 {
        assert!(set.insert(v));
    }
    assert_eq!(set.len(), 9);
    assert_eq!(members(&set, 0, 25), vec![1, 10, 12, 15, 16, 17, 18, 19, 20]);
    assert!(set.remove(15));
    assert!(set.remove(20));
    assert_eq!(members(&set, 0, 25), vec![1, 10, 12, 16, 17, 18, 19]);
}

#[test]
fn remove_inside_splits_interval() {
    let mut set = from_values(&[7, 8, 9, 10]);
    assert!(set.remove(8));
    assert!(!set.contains(8));
    assert_eq!(set.len(), 3);
    assert_eq!(members(&set, 0, 20), vec![7, 9, 10]);
    // Both parts live on by themselves.
    assert!(set.remove(7));
    assert_eq!(members(&set, 0, 20), vec![9, 10]);
    assert!(set.insert(8));
    assert_eq!(members(&set, 0, 20), vec![8, 9, 10]);
}

#[test]
fn remove_inside_keeps_both_subtrees() {
    let mut set = from_values(&[10, 11, 12, 13, 14, 1, 30]);
    assert!(set.remove(12));
    assert_eq!(set.len(), 6);
    assert_eq!(members(&set, 0, 40), vec![1, 10, 11, 13, 14, 30]);
}

#[test]
fn remove_end_shrinks_interval() {
    let mut set = from_values(&[7, 8, 9, 10]);
    assert!(set.remove(7));
    assert_eq!(members(&set, 0, 20), vec![8, 9, 10]);
    assert!(set.remove(10));
    assert_eq!(members(&set, 0, 20), vec![8, 9]);
    assert_eq!(set.len(), 2);
    assert!(set.remove(9));
    assert!(set.remove(8));
    assert_eq!(set.len(), 0);
    assert_eq!(members(&set, 0, 20), Vec::<isize>::new());
}

#[test]
fn remove_lone_member_joins_its_subtrees() {
    let mut set = from_values(&[10, 5, 15, 3, 7, 12, 20]);
    assert!(set.remove(10));
    assert_eq!(set.len(), 6);
    assert_eq!(members(&set, 0, 25), vec![3, 5, 7, 12, 15, 20]);
    assert!(set.remove(7));
    assert!(set.remove(5));
    assert!(set.remove(3));
    assert_eq!(members(&set, 0, 25), vec![12, 15, 20]);
    assert!(set.remove(12));
    assert!(set.remove(15));
    assert!(set.remove(20));
    assert_eq!(set.len(), 0);
    assert!(set.insert(4));
    assert_eq!(members(&set, 0, 25), vec![4]);
}

#[test]
fn remove_absent_changes_nothing() {
    let mut set = from_values(&[7, 8, 9, 10, 13, 14]);
    let before = members(&set, 0, 20);
    for &v in &[6, 11, 12, 15, -2, 100] {
        assert!(!set.remove(v));
        assert_eq!(set.len(), 6);
        assert_eq!(members(&set, 0, 20), before);
    }
}

#[test]
fn end_to_end_scenario() {
    let mut set = Diet::new();
    for &v in &[7, 8, 9, 10, 13, 14, -1, 1, 5, 3, 6] {
        assert!(set.insert(v));
    }
    assert_eq!(set.len(), 11);
    assert!(!set.insert(6));
    assert!(!set.insert(3));
    assert_eq!(set.len(), 11);
    assert!(set.remove(13));
    assert!(set.remove(14));
    assert_eq!(set.len(), 9);
    assert!(!set.contains(13));
    assert!(!set.contains(14));
    assert!(set.remove(-1));
    assert_eq!(set.len(), 8);
    assert!(!set.remove(-2));
    assert_eq!(set.len(), 8);
    assert_eq!(members(&set, -5, 20), vec![1, 3, 5, 6, 7, 8, 9, 10]);
}

#[test]
fn works_at_the_ends_of_the_integers() {
    let mut set = Diet::new();
    assert!(set.insert(isize::MAX));
    assert!(set.insert(isize::MIN));
    assert!(set.insert(isize::MAX - 1));
    assert!(set.insert(isize::MIN + 1));
    assert!(!set.insert(isize::MAX));
    assert!(!set.insert(isize::MIN));
    assert_eq!(set.len(), 4);
    assert!(set.contains(isize::MAX - 1));
    assert!(!set.contains(isize::MAX - 2));
    assert!(!set.contains(0));
    assert!(set.remove(isize::MAX));
    assert!(set.remove(isize::MIN));
    assert!(!set.contains(isize::MAX));
    assert!(!set.contains(isize::MIN));
    assert!(set.contains(isize::MIN + 1));
    assert_eq!(set.len(), 2);
}

#[test]
fn ascending_and_descending_runs_collapse() {
    let mut set = Diet::new();
    for v in 0..500 {
        assert!(set.insert(v));
    }
    for v in (500..1000).rev() {
        assert!(set.insert(v));
    }
    assert_eq!(set.len(), 1000);
    assert!(!set.contains(-1));
    assert!(!set.contains(1000));
    for v in (0..1000).step_by(2) {
        assert!(set.remove(v));
    }
    assert_eq!(set.len(), 500);
    assert_eq!(members(&set, 0, 9), vec![1, 3, 5, 7, 9]);
}
