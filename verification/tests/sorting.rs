use merge_sort::merge::sorted_merge;
use merge_sort::order::Tagged;
use merge_sort::sort::merge_sort_parallel;
use merge_sort::sort::merge_sort_sequential;

#[test]
fn test_merge_sort_sequential() {
    let collection: Vec<i64> = vec![5, 3, 2, 4, 1];
    let sorted_collection = merge_sort_sequential(&collection);
    assert_eq!(sorted_collection, vec![1, 2, 3, 4, 5]);
}

#[test]
fn test_merge_sort_parallel_scenario() {
    let collection: Vec<i64> = vec![5, 3, 2, 4, 1];
    let sorted_collection = merge_sort_parallel(&collection);
    assert_eq!(sorted_collection, vec![1, 2, 3, 4, 5]);
}

#[test]
fn test_two_elements() {
    let collection: Vec<i64> = vec![2, 1];
    assert_eq!(merge_sort_sequential(&collection), vec![1, 2]);
    assert_eq!(merge_sort_parallel(&collection), vec![1, 2]);
}

#[test]
fn test_all_equal() {
    let collection: Vec<i64> = vec![1, 1, 1];
    assert_eq!(merge_sort_sequential(&collection), vec![1, 1, 1]);
    assert_eq!(merge_sort_parallel(&collection), vec![1, 1, 1]);
}

#[test]
fn test_duplicates_and_negatives() {
    let collection: Vec<i64> = vec![9, -3, 0, 9, -3];
    assert_eq!(merge_sort_sequential(&collection), vec![-3, -3, 0, 9, 9]);
    assert_eq!(merge_sort_parallel(&collection), vec![-3, -3, 0, 9, 9]);
}

#[test]
fn test_empty() {
    let collection: Vec<i64> = vec![];
    assert_eq!(merge_sort_sequential(&collection), vec![]);
    assert_eq!(merge_sort_parallel(&collection), vec![]);
}

#[test]
fn test_singleton() {
    let collection: Vec<i64> = vec![7];
    assert_eq!(merge_sort_sequential(&collection), vec![7]);
    assert_eq!(merge_sort_parallel(&collection), vec![7]);
}

#[test]
fn test_idempotence() {
    let collection: Vec<i64> = vec![5, -1, 5, 0, 3, -7];
    let once = merge_sort_sequential(&collection);
    let twice = merge_sort_sequential(&once);
    assert_eq!(twice, once);
    let once_parallel = merge_sort_parallel(&collection);
    let twice_parallel = merge_sort_parallel(&once_parallel);
    assert_eq!(twice_parallel, once_parallel);
}

#[test]
fn test_variants_agree() {
    let collection: Vec<i64> = vec![12, -4, 0, 12, 7, -4, 100, 3, 3, -50];
    assert_eq!(
        merge_sort_sequential(&collection),
        merge_sort_parallel(&collection)
    );
}

#[test]
fn test_permutation_of_input() {
    let collection: Vec<i64> = vec![4, -2, 4, 0, -2, 4];
    let sorted_collection = merge_sort_sequential(&collection);
    assert_eq!(sorted_collection.len(), collection.len());
    let values: Vec<i64> = vec![-2, 0, 4];
    let mut v: usize = 0;
    while v < values.len() {
        let mut count_in: usize = 0;
        let mut count_out: usize = 0;
        let mut k: usize = 0;
        while k < collection.len() {
            if collection[k] == values[v] {
                count_in += 1;
            }
            if sorted_collection[k] == values[v] {
                count_out += 1;
            }
            k += 1;
        }
        assert_eq!(count_in, count_out);
        v += 1;
    }
}

#[test]
fn test_adjacent_pairs_ordered() {
    let collection: Vec<i64> = vec![8, 1, -9, 14, 3, 3, 0, -9, 21];
    let sorted_collection = merge_sort_sequential(&collection);
    let mut k: usize = 1;
    while k < sorted_collection.len() {
        assert!(sorted_collection[k - 1] <= sorted_collection[k]);
        k += 1;
    }
}

#[test]
fn test_stability_under_ties() {
    let collection: Vec<Tagged> = vec![
        Tagged { key: 2, tag: 10 },
        Tagged { key: 1, tag: 20 },
        Tagged { key: 2, tag: 30 },
        Tagged { key: 1, tag: 40 },
    ];
    let expected: Vec<Tagged> = vec![
        Tagged { key: 1, tag: 20 },
        Tagged { key: 1, tag: 40 },
        Tagged { key: 2, tag: 10 },
        Tagged { key: 2, tag: 30 },
    ];
    assert_eq!(merge_sort_sequential(&collection), expected);
    assert_eq!(merge_sort_parallel(&collection), expected);
}

#[test]
fn test_sorted_merge_basic() {
    let left: Vec<i64> = vec![1, 3, 5];
    let right: Vec<i64> = vec![2, 4];
    assert_eq!(sorted_merge(left, right), vec![1, 2, 3, 4, 5]);
}

#[test]
fn test_sorted_merge_ties_favor_left() {
    let left: Vec<Tagged> = vec![Tagged { key: 1, tag: 1 }];
    let right: Vec<Tagged> = vec![Tagged { key: 1, tag: 2 }];
    let merged = sorted_merge(left, right);
    assert_eq!(
        merged,
        vec![Tagged { key: 1, tag: 1 }, Tagged { key: 1, tag: 2 }]
    );
    let left_swapped: Vec<Tagged> = vec![Tagged { key: 1, tag: 2 }];
    let right_swapped: Vec<Tagged> = vec![Tagged { key: 1, tag: 1 }];
    let merged_swapped = sorted_merge(left_swapped, right_swapped);
    assert_eq!(
        merged_swapped,
        vec![Tagged { key: 1, tag: 2 }, Tagged { key: 1, tag: 1 }]
    );
}

#[test]
fn test_sorted_merge_unsorted_inputs_still_permutation() {
    let left: Vec<i64> = vec![3, 1];
    let right: Vec<i64> = vec![2];
    assert_eq!(sorted_merge(left, right), vec![2, 3, 1]);
}
