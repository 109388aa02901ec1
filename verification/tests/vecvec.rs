use bytehound::vecvec::{DenseVecVec, VecVec};

fn entries(vec: &VecVec<usize, usize>) -> Vec<(usize, Vec<usize>)> {
    (0..vec.len()).map(|i| {
        let (key, items) = vec.get(i);
        (*key, items.to_vec())
    }).collect()
}

fn keys_by(vec: &VecVec<usize, usize>, key: impl Fn(usize) -> u64) -> Vec<u64> {
    (0..vec.len()).map(|i| key(*vec.get(i).0)).collect()
}

#[test]
fn test_vecvec() {
    let mut vec: VecVec<usize, usize> = VecVec::new();
    vec.insert(0, vec![1, 2, 3]);
    vec.insert(1, vec![10]);

    assert_eq!(vec.len(), 2);
    assert_eq!(entries(&vec), vec![(0, vec![1, 2, 3]), (1, vec![10])]);

    vec.insert(3, vec![100]);
    assert_eq!(vec.len(), 3);
    assert_eq!(entries(&vec), vec![(0, vec![1, 2, 3]), (1, vec![10]), (3, vec![100])]);

    let keys = keys_by(&vec, |key| key as u64);
    vec.par_sort_by_key(&keys);
    assert_eq!(entries(&vec), vec![(0, vec![1, 2, 3]), (1, vec![10]), (3, vec![100])]);

    let keys = keys_by(&vec, |key| 100 - key as u64);
    vec.par_sort_by_key(&keys);
    assert_eq!(entries(&vec), vec![(3, vec![100]), (1, vec![10]), (0, vec![1, 2, 3])]);
}

#[test]
fn vecvec_sort_is_stable_and_reverse_turns_around() {
    let mut vec: VecVec<usize, usize> = VecVec::new();
    vec.insert(5, vec![]);
    vec.insert(6, vec![1]);
    vec.insert(7, vec![2, 2]);
    vec.par_sort_by_key(&vec![1, 0, 1]);
    assert_eq!(entries(&vec), vec![(6, vec![1]), (5, vec![]), (7, vec![2, 2])]);
    vec.reverse();
    assert_eq!(entries(&vec), vec![(7, vec![2, 2]), (5, vec![]), (6, vec![1])]);
}

#[test]
fn dense_vecvec_numbers_its_lists() {
    let mut vec: DenseVecVec<u64> = DenseVecVec::new();
    assert_eq!(vec.push(vec![4, 5]), 0);
    assert_eq!(vec.push(vec![]), 1);
    assert_eq!(vec.push(vec![6]), 2);
    assert_eq!(vec.get(0), &[4, 5]);
    assert!(vec.get(1).is_empty());
    assert_eq!(vec.get(2), &[6]);
}
