use acoustic_drone::rng::{Xorshift, Xorshift64, BATCH_SHUFFLE_MULTIPLIER};
use acoustic_drone::shuffle::{shuffle32, shuffle64};
use acoustic_drone::split::{
    any_labelled, class_indices, count_label, fold_split, holdout_split, kfold_assignment,
    selection_split,
    stacking_split, stratified_split,
};

fn sorted(mut v: Vec<usize>) -> Vec<usize> {
    v.sort();
    v
}

#[test]
fn shuffle32_known_permutation() {
    let mut v: Vec<usize> = (0..10).collect();
    let mut rng = Xorshift::new(42);
    shuffle32(&mut v, &mut rng);
    assert_eq!(v, vec![8, 9, 1, 5, 4, 0, 6, 3, 7, 2]);
    assert_eq!(rng.next_u32(), {
        let mut r = Xorshift::new(3120216979);
        r.next_u32()
    });
}

#[test]
fn shuffle64_known_permutation() {
    let mut v: Vec<usize> = (0..10).collect();
    let mut rng = Xorshift64::new(3, BATCH_SHUFFLE_MULTIPLIER);
    shuffle64(&mut v, &mut rng);
    assert_eq!(v, vec![8, 0, 9, 5, 7, 2, 6, 1, 4, 3]);
}

#[test]
fn shuffle_of_short_lists_is_identity() {
    let mut rng = Xorshift::new(5);
    let mut empty: Vec<usize> = vec![];
    shuffle32(&mut empty, &mut rng);
    assert!(empty.is_empty());
    let mut one = vec![7usize];
    shuffle32(&mut one, &mut rng);
    assert_eq!(one, vec![7]);
}

#[test]
fn shuffle_is_a_permutation() {
    let mut v: Vec<usize> = (0..100).collect();
    let mut rng = Xorshift::new(99);
    shuffle32(&mut v, &mut rng);
    assert_eq!(sorted(v), (0..100).collect::<Vec<usize>>());
}

#[test]
fn class_positions_and_counts() {
    let labels = vec![0u8, 1, 0, 1, 1, 2];
    assert_eq!(class_indices(&labels, 1), vec![1, 3, 4]);
    assert_eq!(class_indices(&labels, 0), vec![0, 2]);
    assert_eq!(count_label(&labels, 1), 3);
    assert_eq!(count_label(&labels, 2), 1);
    assert_eq!(count_label(&labels, 7), 0);
}

#[test]
fn stratified_split_known_result() {
    let labels = vec![0u8, 1, 0, 1, 1, 0, 0, 1, 0, 1];
    let (train, test) = stratified_split(&labels, 3, 3, 7);
    assert_eq!(train, vec![0, 5, 2, 7, 9, 3]);
    assert_eq!(test, vec![8, 6, 1, 4]);
}

#[test]
fn stratified_split_partitions_labelled_samples() {
    let labels = vec![0u8, 1, 0, 1, 1, 0, 0, 1, 0, 1, 2];
    let (train, test) = stratified_split(&labels, 2, 4, 11);
    let mut all = train.clone();
    all.extend(test.iter().copied());
    assert_eq!(sorted(all), (0..10).collect::<Vec<usize>>());
    assert_eq!(train.iter().filter(|&&i| labels[i] == 0).count(), 2);
    assert_eq!(train.iter().filter(|&&i| labels[i] == 1).count(), 4);
}

#[test]
fn stratified_split_cut_beyond_class_takes_all() {
    let labels = vec![0u8, 0, 1];
    let (train, test) = stratified_split(&labels, 10, 10, 1);
    assert_eq!(sorted(train), vec![0, 1, 2]);
    assert!(test.is_empty());
}

#[test]
fn kfold_known_assignment() {
    let labels = vec![0u8, 1, 0, 1, 1, 0, 0, 1, 0, 1];
    assert_eq!(kfold_assignment(&labels, 3, 7), vec![0, 0, 2, 2, 1, 1, 1, 0, 0, 1]);
}

#[test]
fn kfold_balances_each_class() {
    let labels: Vec<u8> = (0..40).map(|i| if i % 3 == 0 { 1 } else { 0 }).collect();
    let folds = kfold_assignment(&labels, 5, 2024);
    for class in 0..2u8 {
        let mut per_fold = [0usize; 5];
        for (i, &f) in folds.iter().enumerate() {
            assert!(f < 5);
            if labels[i] == class {
                per_fold[f] += 1;
            }
        }
        let max = *per_fold.iter().max().unwrap();
        let min = *per_fold.iter().min().unwrap();
        assert!(max - min <= 1);
    }
}

#[test]
fn holdout_split_every_tenth_block() {
    let mut labels = vec![0u8; 12];
    labels.extend(vec![1u8; 11]);
    let (a, b) = holdout_split(&labels);
    assert_eq!(a, vec![0, 1, 2, 3, 4, 5, 6, 10, 11, 12, 13, 14, 15, 16, 17, 18, 22]);
    assert_eq!(b, vec![7, 8, 9, 19, 20, 21]);
}

#[test]
fn stacking_split_falls_back_when_small() {
    let labels = vec![0u8, 1, 0];
    let (a, b) = stacking_split(&labels);
    assert_eq!(a, vec![0, 1, 2]);
    assert_eq!(b, vec![0, 1, 2]);
    let mut big = vec![0u8; 12];
    big.extend(vec![1u8; 11]);
    let (a, b) = stacking_split(&big);
    assert_eq!(b, vec![7, 8, 9, 19, 20, 21]);
    assert_eq!(a.len(), 17);
}

#[test]
fn selection_split_needs_both_classes_in_second_part() {
    let only_neg = vec![0u8; 20];
    assert!(selection_split(&only_neg).is_none());
    let mut both = vec![0u8; 12];
    both.extend(vec![1u8; 11]);
    let (a, b) = selection_split(&both).unwrap();
    assert_eq!(a.len(), 17);
    assert_eq!(b, vec![7, 8, 9, 19, 20, 21]);
    assert!(any_labelled(&both, &b, 1));
    assert!(!any_labelled(&both, &vec![0, 1], 1));
}

#[test]
fn fold_split_parts() {
    let folds = vec![0usize, 0, 2, 2, 1, 1, 1, 0, 0, 1];
    let (train, test) = fold_split(&folds, 1);
    assert_eq!(test, vec![4, 5, 6, 9]);
    assert_eq!(train, vec![0, 1, 2, 3, 7, 8]);
    let (train, test) = fold_split(&folds, 3);
    assert!(test.is_empty());
    assert_eq!(train.len(), 10);
}

#[test]
fn kfold_with_no_labelled_samples_allows_zero_folds() {
    let labels = vec![2u8, 3];
    assert_eq!(kfold_assignment(&labels, 0, 9), vec![0, 0]);
}

#[test]
fn kfold_tests_each_sample_exactly_once() {
    let labels: Vec<u8> = (0..23).map(|i| if i % 4 == 0 { 1 } else if i == 5 { 7 } else { 0 }).collect();
    let k = 4;
    let folds = kfold_assignment(&labels, k, 77);
    let mut times_tested = vec![0usize; labels.len()];
    for f in 0..k {
        let (train, test) = fold_split(&folds, f);
        assert_eq!(train.len() + test.len(), labels.len());
        for i in test {
            times_tested[i] += 1;
        }
    }
    assert!(times_tested.iter().all(|&t| t == 1));
}
