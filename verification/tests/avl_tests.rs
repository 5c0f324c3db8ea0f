use bstrees::avl::AVL;

use rand::prelude::SliceRandom;
use rand::thread_rng;

fn gen_data(group: u64, num: usize) -> Vec<(u64, u64)> {
    let mut keys = std::collections::HashSet::new();
    let mut elems = vec![];

    for _ in 0..num {
        let mut k: u64 = rand::random::<u64>();
        let mut j = 0;

        while j < group {
            k = k.wrapping_add(1);
            if keys.contains(&k) {
                continue;
            }

            keys.insert(k);
            elems.push((k, k.wrapping_add(1000)));

            j += 1;
        }
    }

    elems
}

#[test]
fn test_avl_randomdata() {
    for _ in 0..20 {
        let mut dict = AVL::new();
        let mut elems = gen_data(10, 100);

        for (i, (k, v)) in elems.iter().cloned().enumerate() {
            assert!(dict.insert(k, v), "[dict insert] insert res invalid");
            assert_eq!(dict.get(&k), Some(&v), "[dict insert] insert but query failed");

            if i % 20 == 0 {
                dict.self_validate().unwrap();
            }
        }

        dict.self_validate().unwrap();

        for (i, (k, v)) in elems.clone().into_iter().enumerate() {
            assert_eq!(dict.get(&k), Some(&v));

            let newv = k.wrapping_add(500);

            assert!(dict.modify(&k, newv));

            elems[i] = (k, newv);

            assert_eq!(dict.get(&k), Some(&newv));
        }

        elems.shuffle(&mut thread_rng());

        for (i, (k, v)) in elems.into_iter().enumerate() {
            assert_eq!(dict.get(&k), Some(&v), "[dict remove] Assure get Some");
            assert_eq!(dict.remove(&k), Some(v), "[dict remove] Assert remove failed");
            assert_eq!(dict.get(&k), None, "[dict remove] Assure get None");

            if i % 10 == 0 {
                dict.self_validate().unwrap();
            }
        }
    }
}

#[test]
fn test_avl_fixeddata_case_0() {
    let mut dict = AVL::<()>::new();

    dict.insert(10, ());
    assert!(dict.self_validate().is_ok());

    dict.insert(5, ());
    dict.self_validate().unwrap();

    dict.insert(12, ());
    dict.self_validate().unwrap();

    dict.insert(13, ());
    dict.self_validate().unwrap();

    dict.insert(14, ());
    dict.self_validate().unwrap();

    dict.insert(18, ());
    dict.self_validate().unwrap();

    dict.insert(7, ());
    dict.self_validate().unwrap();

    dict.insert(9, ());
    dict.self_validate().unwrap();

    dict.insert(11, ());
    dict.self_validate().unwrap();

    dict.insert(22, ());
    dict.self_validate().unwrap();

    assert!(dict.get(&10).is_some());
    assert!(dict.get(&5).is_some());
    assert!(dict.get(&12).is_some());
    assert!(dict.get(&13).is_some());
    assert!(dict.get(&14).is_some());
    assert!(dict.get(&18).is_some());
    assert!(dict.get(&7).is_some());
    assert!(dict.get(&9).is_some());
    assert!(dict.get(&11).is_some());
    assert!(dict.get(&22).is_some());

    assert!(dict.remove(&10).is_some());
    assert!(dict.get(&10).is_none());
    dict.self_validate().unwrap();

    assert!(dict.remove(&5).is_some());
    assert!(dict.get(&5).is_none());
    dict.self_validate().unwrap();

    assert!(dict.remove(&12).is_some());
    dict.self_validate().unwrap();

    assert!(dict.remove(&13).is_some());
    dict.self_validate().unwrap();

    assert!(dict.remove(&14).is_some());
    dict.self_validate().unwrap();

    assert!(dict.remove(&18).is_some());
    dict.self_validate().unwrap();

    assert!(dict.remove(&7).is_some());
    dict.self_validate().unwrap();

    assert!(dict.remove(&9).is_some());
    dict.self_validate().unwrap();

    assert!(dict.remove(&11).is_some());
    dict.self_validate().unwrap();

    assert!(dict.remove(&22).is_some());

    dict.self_validate().unwrap();
    assert!(dict.height().is_none());
}

#[test]
fn test_avl_fixeddata_case_1() {
    let mut dict = AVL::<()>::new();

    dict.insert(52, ());
    assert!(dict.get(&52).is_some());

    dict.insert(47, ());
    assert!(dict.get(&47).is_some());

    dict.insert(3, ());
    assert!(dict.get(&3).is_some());

    dict.insert(35, ());
    assert!(dict.get(&35).is_some());

    dict.insert(24, ());
    assert!(dict.get(&24).is_some());
}

#[test]
fn test_avl_fixeddata_case_2() {
    let mut dict = AVL::<()>::new();

    dict.insert(6, ());
    dict.insert(29, ());
    dict.insert(26, ());
    dict.insert(10, ());
    dict.insert(17, ());
    dict.insert(18, ());
    dict.insert(12, ());

    dict.self_validate().unwrap();
}

// Mixed insertion keeps every key reachable and the tree shallow: after the
// ten insertions the height stays at most four.
#[test]
fn test_avl_mixed_insert_height() {
    let mut dict = AVL::<()>::new();
    let keys: [u64; 10] = [10, 5, 12, 13, 14, 18, 7, 9, 11, 22];

    for k in keys {
        assert!(dict.insert(k, ()));
        dict.self_validate().unwrap();
    }

    for k in keys {
        assert!(dict.get(&k).is_some());
    }

    assert!(dict.height().unwrap() <= 4);
    assert_eq!(dict.keys_in_order(), vec![5, 7, 9, 10, 11, 12, 13, 14, 18, 22]);
}

// Ascending insertions stay balanced: 256 keys never push the height past
// twelve, where an unbalanced tree would reach depth 255.
#[test]
fn test_avl_ascending_height() {
    let mut dict = AVL::new();

    for k in 0u64..256 {
        assert!(dict.insert(k, k));
    }

    dict.self_validate().unwrap();
    assert!(dict.height().unwrap() <= 12);
}
