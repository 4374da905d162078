use binomial::binomial::Index;
use binomial::binomial::IndexError;
use binomial::binomial::Lookup;
use binomial::binomial::Store;

#[test]
fn from_keys() {
    let store = Lookup::from_keys(vec![1, 2, 3], 42);
    assert_eq!(&42, store.get(&1, &2).unwrap());

    let result = store.get(&5, &1);
    assert!(matches!(result, Err(IndexError::MissingKey(5))));

    let result = store.get(&1, &1);
    assert!(matches!(result, Err(IndexError::SimilarKeys)));
}

#[test]
fn from_keys_and_strategy() {
    let store = Lookup::from_keys_and_strategy(vec![1, 2, 3, 4, 5], |a, b| a + b);

    assert_eq!(&6, store.get(&1, &5).unwrap());
    assert_eq!(&9, store.get(&4, &5).unwrap());
}

#[test]
fn get_mut() {
    let mut store = Lookup::from_keys(vec![1, 2, 3], 0);
    assert_eq!(&0, store.get(&1, &2).unwrap());
    *store.get_mut(&2, &1).unwrap() = 1;
    assert_eq!(&1, store.get(&1, &2).unwrap());
}

#[test]
fn total_values() {
    let index = Index::from_keys(Vec::new());
    assert_eq!(0, index.total_values());

    let index = Index::from_keys(vec![1, 2, 3]);
    assert_eq!(3, index.total_values());

    let index = Index::from_keys(vec![1, 2, 3, 4]);
    assert_eq!(6, index.total_values());

    let index = Index::from_keys(vec![1, 2, 3, 4, 4]);
    assert_eq!(6, index.total_values());

    let index = Index::from_keys(vec![1, 2, 3, 4, 5]);
    assert_eq!(10, index.total_values());
}

#[test]
fn position() {
    let index = Index::from_keys(vec![1, 2, 3]);
    assert_eq!(0, index.position(&1, &2).unwrap());
    assert_eq!(0, index.position(&2, &1).unwrap());
    assert_eq!(1, index.position(&1, &3).unwrap());
    assert_eq!(1, index.position(&3, &1).unwrap());
    assert_eq!(2, index.position(&2, &3).unwrap());
    assert_eq!(2, index.position(&3, &2).unwrap());

    let result = index.position(&3, &5);
    assert!(matches!(result, Err(IndexError::MissingKey(5))));
    let result = index.position(&5, &1);
    assert!(matches!(result, Err(IndexError::MissingKey(5))));

    let result = index.position(&1, &1);
    assert!(matches!(result, Err(IndexError::SimilarKeys)));
}

#[test]
fn iter_key_pairs() {
    let index = Index::from_keys(vec![1, 2, 3, 4]);
    let mut iter = index.iter_key_pairs();
    assert_eq!((1, 2), iter.next().unwrap());
    assert_eq!((1, 3), iter.next().unwrap());
    assert_eq!((1, 4), iter.next().unwrap());
    assert_eq!((2, 3), iter.next().unwrap());
    assert_eq!((2, 4), iter.next().unwrap());
    assert_eq!((3, 4), iter.next().unwrap());
    assert_eq!(None, iter.next());
    assert_eq!(None, iter.next());
}

#[test]
fn total_matches_closed_form() {
    for n in 0..20u64 {
        let keys: Vec<u64> = (0..n).collect();
        let index = Index::from_keys(keys);
        assert_eq!((n * n.saturating_sub(1) / 2) as usize, index.total_values());
    }
}

#[test]
fn positions_cover_dense_range() {
    let keys = vec![10, 20, 30, 40, 50];
    let index = Index::from_keys(keys.clone());
    let total = index.total_values();
    let mut seen = vec![false; total];
    for (i, a) in keys.iter().enumerate() {
        for b in keys.iter().skip(i + 1) {
            let p = index.position(a, b).unwrap();
            assert!(p < total);
            assert!(!seen[p], "offset {} assigned twice", p);
            seen[p] = true;
            assert_eq!(p, index.position(b, a).unwrap());
        }
    }
    assert!(seen.iter().all(|v| *v));
}

#[test]
fn enumeration_agrees_with_position() {
    let index = Index::from_keys(vec![3, 1, 4, 1, 5, 9, 2, 6]);
    let mut iter = index.iter_key_pairs();
    let mut rank = 0usize;
    while let Some((left, right)) = iter.next() {
        assert!(left < right);
        assert_eq!(rank, index.position(&left, &right).unwrap());
        rank += 1;
    }
    assert_eq!(rank, index.total_values());
}

#[test]
fn similar_keys_even_outside_the_set() {
    let index = Index::from_keys(vec![1, 2, 3]);
    assert!(matches!(index.position(&7, &7), Err(IndexError::SimilarKeys)));
    assert!(matches!(index.position(&2, &2), Err(IndexError::SimilarKeys)));
}

#[test]
fn missing_key_carries_the_missing_key() {
    let index = Index::from_keys(vec![2, 4, 6]);
    assert!(matches!(index.position(&3, &4), Err(IndexError::MissingKey(3))));
    assert!(matches!(index.position(&4, &3), Err(IndexError::MissingKey(3))));
    assert!(matches!(index.position(&6, &9), Err(IndexError::MissingKey(9))));
}

#[test]
fn round_trip_default_then_write() {
    let keys = vec![1, 2, 3, 4];
    let mut store = Lookup::from_keys(keys.clone(), 7);
    for (i, a) in keys.iter().enumerate() {
        for b in keys.iter().skip(i + 1) {
            assert_eq!(&7, store.get(a, b).unwrap());
        }
    }
    *store.get_mut(&2, &4).unwrap() = 99;
    assert_eq!(&99, store.get(&2, &4).unwrap());
    assert_eq!(&99, store.get(&4, &2).unwrap());
    for (i, a) in keys.iter().enumerate() {
        for b in keys.iter().skip(i + 1) {
            if !((*a, *b) == (2, 4) || (*a, *b) == (4, 2)) {
                assert_eq!(&7, store.get(a, b).unwrap());
            }
        }
    }
}

#[test]
fn raw_parts_round_trip() {
    let store = Lookup::from_keys(vec![1, 2, 3], 5);
    let (index, values) = store.into_raw_parts();
    assert_eq!(3, values.len());
    let rebuilt = Lookup::from_raw_parts(index, values);
    assert_eq!(&5, rebuilt.get(&1, &3).unwrap());
}

#[test]
fn empty_and_single_key_sets() {
    let index = Index::from_keys(Vec::new());
    assert_eq!(0, index.total_values());
    assert_eq!(None, index.iter_key_pairs().next());
    assert!(matches!(index.position(&1, &2), Err(IndexError::MissingKey(1))));

    let index = Index::from_keys(vec![8]);
    assert_eq!(0, index.total_values());
    assert_eq!(None, index.iter_key_pairs().next());
    assert!(matches!(index.position(&8, &9), Err(IndexError::MissingKey(9))));
}

#[test]
fn vector_backend_operations() {
    let mut v: Vec<u32> = Store::new(3, 11);
    assert_eq!(&11, v.ref_at(0));
    assert_eq!(&11, v.ref_at(2));
    *v.mut_ref_at(1) = 4;
    assert_eq!(&4, v.ref_at(1));
    assert_eq!(&11, v.ref_at(0));

    let mut w: Vec<u32> = Store::with_capacity(2);
    Store::push(&mut w, 1);
    Store::push(&mut w, 2);
    assert_eq!(&1, w.ref_at(0));
    assert_eq!(&2, w.ref_at(1));
}
