use rand_split::split_parts;
use rand_split::train_test_split;
use rand_split::ttv_split;
use rand_split::SplitError;

#[test]
fn correct_split_sizes_even_number() {
    let splits = vec![2i64, 7, 1];
    let cont = vec![1, 2, 3, 4, 5, 6, 7, 8, 9, 10];
    let total_len = cont.len();
    let result = split_parts(cont, &splits).unwrap();
    assert_eq!(
        result.iter().map(|inner| inner.len()).sum::<usize>(),
        total_len
    );
    assert_eq!(result.len(), splits.len());
}

#[test]
fn correct_split_sizes_odd_number() {
    let splits = vec![2i64, 2, 3, 3];
    let cont = vec![1, 2, 3, 4, 5, 6, 7, 8, 9, 10, 11, 12, 13];
    let total_len = cont.len();
    let result = split_parts(cont, &splits).unwrap();
    assert_eq!(
        result.iter().map(|inner| inner.len()).sum::<usize>(),
        total_len
    );
    assert_eq!(result.len(), splits.len());
}

#[test]
fn unnormalized_weights_is_approx_correct() {
    let splits = vec![2i64, 2, 3, 10];
    let cont = (0..1999).collect::<Vec<usize>>();
    let result = split_parts(cont, &splits).unwrap();
    assert!(result[3].len() > result[0..2].iter().map(|sp| sp.len()).sum());
    assert!(result[1].len() < result[2].len());
}

#[test]
fn unnormalized_weights_preserve_data() {
    let splits = vec![2i64, 2, 3, 6];
    let cont = vec![1, 2, 3, 4, 5, 6, 7, 8, 9, 10, 11, 12, 13];
    let total_len = cont.len();
    let result = split_parts(cont, &splits).unwrap();
    assert_eq!(
        result.iter().map(|inner| inner.len()).sum::<usize>(),
        total_len
    );
    assert_eq!(result.len(), splits.len());
}

#[test]
fn batch_preserves_multiset() {
    let splits = vec![3i64, 1, 2];
    let cont = vec![5, 3, 5, 9, 1, 1, 2, 8, 7, 6, 4];
    let mut expected = cont.clone();
    expected.sort();
    let result = split_parts(cont, &splits).unwrap();
    let mut all: Vec<i32> = result.into_iter().flatten().collect();
    all.sort();
    assert_eq!(all, expected);
}

#[test]
fn batch_sizes_sum_with_fewer_elements_than_weights() {
    let splits = vec![1i64, 1, 1, 1, 1];
    let cont = vec![10, 20, 30];
    let result = split_parts(cont, &splits).unwrap();
    assert_eq!(result.len(), 5);
    assert_eq!(result.iter().map(|inner| inner.len()).sum::<usize>(), 3);
}

#[test]
fn batch_zero_weight_part_is_empty() {
    let splits = vec![0i64, 5];
    let cont = vec![1, 2, 3, 4, 5, 6];
    let result = split_parts(cont, &splits).unwrap();
    assert_eq!(result[0].len(), 0);
    assert_eq!(result[1].len(), 6);
}

#[test]
fn batch_empty_collection() {
    let splits = vec![1i64, 2];
    let cont: Vec<u8> = Vec::new();
    let result = split_parts(cont, &splits).unwrap();
    assert_eq!(result.len(), 2);
    assert_eq!(result[0].len(), 0);
    assert_eq!(result[1].len(), 0);
}

#[test]
fn invalid_weights_empty_vector() {
    let splits: Vec<i64> = Vec::new();
    let cont = vec![1, 2, 3];
    assert_eq!(split_parts(cont, &splits), Err(SplitError::InvalidWeights));
}

#[test]
fn invalid_weights_negative_entry() {
    let splits = vec![2i64, -1, 3];
    let cont = vec![1, 2, 3];
    assert_eq!(split_parts(cont, &splits), Err(SplitError::InvalidWeights));
}

#[test]
fn invalid_weights_all_zero() {
    let splits = vec![0i64, 0, 0];
    let cont = vec![1, 2, 3];
    assert_eq!(split_parts(cont, &splits), Err(SplitError::InvalidWeights));
}

#[test]
fn valid_weights_are_accepted() {
    let splits = vec![0i64, 1];
    let cont = vec![1, 2, 3];
    assert!(split_parts(cont, &splits).is_ok());
}

#[test]
fn scenario_even_ratios_give_exact_sizes() {
    let splits = vec![2i64, 7, 1];
    let cont = (1..=10).collect::<Vec<i32>>();
    let result = split_parts(cont, &splits).unwrap();
    let sizes: Vec<usize> = result.iter().map(|inner| inner.len()).collect();
    assert_eq!(sizes, vec![2, 7, 1]);
    let mut all: Vec<i32> = result.into_iter().flatten().collect();
    all.sort();
    assert_eq!(all, (1..=10).collect::<Vec<i32>>());
}

#[test]
fn scenario_remainder_absorbed_by_last_part() {
    let splits = vec![6i64, 2, 2];
    let cont = (1..=13).collect::<Vec<i32>>();
    let result = split_parts(cont, &splits).unwrap();
    let sizes: Vec<usize> = result.iter().map(|inner| inner.len()).collect();
    assert_eq!(sizes.iter().sum::<usize>(), 13);
    // floor shares are 7 and 2; the last part absorbs the remainder
    assert_eq!(sizes, vec![7, 2, 4]);
}

#[test]
fn train_test_split_sizes() {
    let cont = (1..=13).collect::<Vec<i32>>();
    let total_len = cont.len();
    let result = train_test_split(cont, 8, 2).unwrap();
    assert_eq!(result.len(), 2);
    assert_eq!(
        result.iter().map(|inner| inner.len()).sum::<usize>(),
        total_len
    );
}

#[test]
fn ttv_split_sizes() {
    let cont = (1..=13).collect::<Vec<i32>>();
    let total_len = cont.len();
    let result = ttv_split(cont, 6, 2, 2).unwrap();
    assert_eq!(result.len(), 3);
    assert_eq!(
        result.iter().map(|inner| inner.len()).sum::<usize>(),
        total_len
    );
}
