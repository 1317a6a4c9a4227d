use bsort::histogram::{count_keys, cumsum};
use bsort::sort::{bucket_sort, bucket_sort_inplace, count_sort};

#[test]
fn count_keys_works() {
    let result = count_keys(&vec![1, 2, 2, 1, 4], 5);
    assert_eq!(result, vec![0, 2, 2, 0, 1]);
}

#[test]
fn count_sort_works() {
    let result = count_sort(&vec![1, 2, 1, 2, 4]);
    assert_eq!(result, vec![1, 1, 2, 2, 4]);
}

#[test]
fn cumsum_works_with_unique_values() {
    let result = cumsum(&vec![1, 2, 3]);
    assert_eq!(result, vec![0, 1, 3]);
}

#[test]
fn cumsum_works_with_non_unique_values() {
    let result = cumsum(&vec![0, 2, 2, 0, 1]);
    assert_eq!(result, vec![0, 0, 2, 4, 4]);
}

#[test]
fn bucket_sort_works() {
    let keys = vec![1, 2, 1, 2, 4];
    let values = vec!['a', 'b', 'c', 'd', 'e'];
    let (result, _) = bucket_sort(&keys, &values);
    assert_eq!(result, vec![1, 1, 2, 2, 4]);
}

#[test]
fn bucket_sort_keeps_equal_keys_in_order() {
    let keys = vec![1, 2, 1, 2, 4];
    let values = vec!['a', 'b', 'c', 'd', 'e'];
    let (out_keys, out_values) = bucket_sort(&keys, &values);
    assert_eq!(out_keys, vec![1, 1, 2, 2, 4]);
    assert_eq!(out_values, vec!['a', 'c', 'b', 'd', 'e']);
}

#[test]
fn bucket_sort_inplace_sorts_keys() {
    let keys = vec![1, 2, 1, 2, 4];
    let values = vec!['a', 'b', 'c', 'd', 'e'];
    let (out_keys, _) = bucket_sort_inplace(keys, values);
    assert_eq!(out_keys, vec![1, 1, 2, 2, 4]);
}

#[test]
fn bucket_sort_inplace_keeps_pairs_together() {
    let keys = vec![1, 2, 1, 2, 4];
    let values = vec!['a', 'b', 'c', 'd', 'e'];
    let (out_keys, out_values) = bucket_sort_inplace(keys.clone(), values.clone());
    // Every original pair appears exactly once in the output.
    let mut original: Vec<(usize, char)> = Vec::new();
    for i in 0..keys.len() {
        original.push((keys[i], values[i]));
    }
    for j in 0..out_keys.len() {
        let pair = (out_keys[j], out_values[j]);
        let position = original.iter().position(|p| *p == pair);
        assert!(position.is_some());
        original.remove(position.unwrap());
    }
    assert!(original.is_empty());
}

#[test]
fn count_keys_empty_input_zero_bound() {
    let result = count_keys(&vec![], 0);
    assert_eq!(result, Vec::<usize>::new());
}

#[test]
fn count_keys_empty_input_with_declared_bound() {
    let result = count_keys(&vec![], 3);
    assert_eq!(result, vec![0, 0, 0]);
}

#[test]
fn cumsum_empty_and_single() {
    assert_eq!(cumsum(&vec![]), Vec::<usize>::new());
    assert_eq!(cumsum(&vec![5]), vec![0]);
}

#[test]
fn count_sort_empty() {
    assert_eq!(count_sort(&vec![]), Vec::<usize>::new());
}

#[test]
fn bucket_sort_empty() {
    let (out_keys, out_values) = bucket_sort::<char>(&vec![], &vec![]);
    assert_eq!(out_keys, Vec::<usize>::new());
    assert_eq!(out_values, Vec::<char>::new());
}

#[test]
fn bucket_sort_inplace_empty() {
    let (out_keys, out_values) = bucket_sort_inplace::<char>(vec![], vec![]);
    assert_eq!(out_keys, Vec::<usize>::new());
    assert_eq!(out_values, Vec::<char>::new());
}

#[test]
fn histogram_counts_sum_to_input_length() {
    let keys = vec![3, 0, 3, 3, 1, 0];
    let counts = count_keys(&keys, 4);
    assert_eq!(counts, vec![2, 1, 0, 3]);
    let mut total: usize = 0;
    for c in &counts {
        total += *c;
    }
    assert_eq!(total, keys.len());
}

#[test]
fn count_sort_output_sorted_and_same_multiset() {
    let keys = vec![4, 0, 2, 2, 9, 0, 4, 4];
    let out = count_sort(&keys);
    assert_eq!(out.len(), keys.len());
    for j in 1..out.len() {
        assert!(out[j - 1] <= out[j]);
    }
    for k in 0..10 {
        let before = keys.iter().filter(|x| **x == k).count();
        let after = out.iter().filter(|x| **x == k).count();
        assert_eq!(before, after);
    }
}

#[test]
fn count_sort_of_sorted_is_unchanged() {
    let keys = vec![0, 1, 1, 3, 7];
    assert_eq!(count_sort(&keys), keys);
}

#[test]
fn bucket_sort_of_sorted_is_unchanged() {
    let keys = vec![1, 1, 2, 2, 4];
    let values = vec!['a', 'b', 'c', 'd', 'e'];
    let (out_keys, out_values) = bucket_sort(&keys, &values);
    assert_eq!(out_keys, keys);
    assert_eq!(out_values, values);
}

#[test]
fn bucket_sort_inplace_of_sorted_keeps_keys() {
    let keys = vec![1, 1, 2, 2, 4];
    let values = vec!['a', 'b', 'c', 'd', 'e'];
    let (out_keys, _) = bucket_sort_inplace(keys.clone(), values);
    assert_eq!(out_keys, keys);
}

#[test]
fn bucket_sort_with_unsigned_payload() {
    let keys = vec![2, 0, 1];
    let values = vec![20u64, 0u64, 10u64];
    let (out_keys, out_values) = bucket_sort(&keys, &values);
    assert_eq!(out_keys, vec![0, 1, 2]);
    assert_eq!(out_values, vec![0u64, 10u64, 20u64]);
}
