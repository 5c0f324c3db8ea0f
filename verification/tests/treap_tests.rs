use bstrees::heaps::MaxDictHeap;
use bstrees::treap::Treap;

use rand::prelude::SliceRandom;
use rand::thread_rng;

fn gen_data(group: u64, num: usize) -> Vec<(u64, u64)> {
    let mut keys = std::collections::HashSet::new();
    let mut elems = vec![];

    for _ in 0..num {
        let mut k: u64 = rand::random::<u64>();
        let mut j = 0;

        while j < group {
            k = k.wrapping_add(1);
            if keys.contains(&k) {
                continue;
            }

            keys.insert(k);
            elems.push((k, k.wrapping_add(1000)));

            j += 1;
        }
    }

    elems
}

fn gen_unique() -> impl FnMut() -> u64 {
    let mut set = std::collections::HashSet::new();

    move || {
        let mut v: u64 = rand::random::<u64>();

        while set.contains(&v) {
            v = rand::random::<u64>();
        }

        set.insert(v);

        v
    }
}

#[test]
fn test_treap_randomdata() {
    for _ in 0..20 {
        let mut dict = Treap::new();
        let mut elems = gen_data(10, 100);

        for (i, (k, v)) in elems.iter().cloned().enumerate() {
            assert!(dict.insert(k, v), "[dict insert] insert res invalid");
            assert_eq!(dict.get(&k), Some(&v), "[dict insert] insert but query failed");

            if i % 20 == 0 {
                dict.self_validate().unwrap();
            }
        }

        dict.self_validate().unwrap();

        for (i, (k, v)) in elems.clone().into_iter().enumerate() {
            assert_eq!(dict.get(&k), Some(&v));

            let newv = k.wrapping_add(500);

            assert!(dict.modify(&k, newv));

            elems[i] = (k, newv);

            assert_eq!(dict.get(&k), Some(&newv));
        }

        elems.shuffle(&mut thread_rng());

        for (i, (k, v)) in elems.into_iter().enumerate() {
            assert_eq!(dict.get(&k), Some(&v), "[dict remove] Assure get Some");
            assert_eq!(dict.remove(&k), Some(v), "[dict remove] Assert remove failed");
            assert_eq!(dict.get(&k), None, "[dict remove] Assure get None");

            if i % 10 == 0 {
                dict.self_validate().unwrap();
            }
        }
    }
}

#[test]
fn test_treap_fixeddata_case_0() {
    let mut dict = Treap::<()>::new();

    dict.insert(87, ());
    assert!(dict.self_validate().is_ok());

    dict.insert(40, ());
    dict.self_validate().unwrap();

    dict.insert(89, ());
    dict.self_validate().unwrap();

    dict.insert(39, ());
    dict.self_validate().unwrap();

    dict.insert(24, ());
    dict.self_validate().unwrap();

    dict.insert(70, ());
    dict.self_validate().unwrap();

    dict.insert(9, ());
    dict.self_validate().unwrap();

    dict.insert(2, ());
    dict.self_validate().unwrap();

    dict.insert(67, ());
    dict.self_validate().unwrap();

    assert!(!dict.insert(67, ()));
    dict.self_validate().unwrap();

    assert!(!dict.insert(24, ()));
    dict.self_validate().unwrap();

    assert!(!dict.insert(9, ()));
    dict.self_validate().unwrap();
}

#[test]
fn test_treap_fixeddata_case_1() {
    let mut dict = Treap::<()>::new();

    dict.insert(6, ());
    dict.insert(52, ());
    dict.insert(40, ());
    dict.insert(18, ());

    assert!(dict.remove(&40).is_some());
    assert!(dict.get(&40).is_none());
    dict.self_validate().unwrap();

    assert!(dict.remove(&6).is_some());
    assert!(dict.get(&6).is_none());
    dict.self_validate().unwrap();

    assert!(dict.remove(&18).is_some());
    assert!(dict.get(&18).is_none());
    dict.self_validate().unwrap();
}

#[test]
fn test_treap_fixeddata_case_2() {
    let mut dict = Treap::<()>::new();

    dict.insert_weighted(6, (), 14);
    dict.insert_weighted(52, (), 21);
    dict.insert_weighted(40, (), 82);
    dict.insert_weighted(18, (), 22);

    assert!(dict.remove(&40).is_some());
    assert!(dict.remove(&6).is_some());
    assert!(dict.remove(&18).is_some());
    assert!(dict.get(&18).is_none());

    dict.self_validate().unwrap();
}

#[test]
fn test_treap_heap() {
    let mut unique = gen_unique();

    for _ in 0..20 {
        /* Basic Test */

        let mut heap = Treap::<()>::new();

        let batch_num = 1000;

        for _ in 0..batch_num {
            let e: u64 = rand::random::<u64>();
            heap.push(unique(), e);
        }

        let mut res = vec![];

        for _ in 0..batch_num {
            res.push(heap.pop().unwrap());
        }

        res.reverse();

        for i in 1..res.len() {
            assert!(res[i - 1] <= res[i]);
        }

        /* Accompany Test */

        let mut seq = vec![];
        let mut rems: i64 = 0;

        for _ in 0..batch_num / 4 {
            seq.push(true);
            rems += 1;
        }

        for _ in 0..(3 * batch_num) / 4 {
            if rand::random::<u64>() % 2 == 0 {
                seq.push(true);
                rems += 1;
            } else {
                seq.push(false);
                rems -= 1;
            }

            if rems == 0 {
                break;
            }
        }

        let mut refheap = MaxDictHeap::new();
        let mut testheap = Treap::<()>::new();

        for flag in seq {
            if flag {
                let e: u64 = rand::random::<u64>();
                let i = unique();

                refheap.push(i, e);
                testheap.push(i, e);
            } else {
                let target = refheap.pop();
                assert_eq!(testheap.pop(), target);
            }
        }
    }
}

#[test]
fn test_treap_bulk_load() {
    let mut seq: Vec<(u64, (), u64)> = Vec::new();
    for i in 0..1000u64 {
        seq.push((i, (), rand::random::<u64>()));
    }

    let dict = Treap::bulk_load(seq);
    dict.self_validate().unwrap();

    let walk = dict.keys_in_order();
    assert_eq!(walk, (0u64..1000).collect::<Vec<u64>>());
}

// The heap surface on exact values: the root always carries the greatest
// weight, and popping returns the weights in descending order.
#[test]
fn test_treap_heap_fixed_values() {
    let mut heap = Treap::<()>::new();
    assert!(heap.is_empty());
    assert_eq!(heap.top(), None);
    assert_eq!(heap.pop(), None);

    heap.push(1, 30);
    heap.push(2, 70);
    heap.push(3, 20);
    heap.push(4, 50);

    assert_eq!(heap.len(), 4);
    assert!(!heap.is_empty());
    assert_eq!(heap.top(), Some(70));
    assert_eq!(heap.pop(), Some(70));
    assert_eq!(heap.pop(), Some(50));
    assert_eq!(heap.pop(), Some(30));
    assert_eq!(heap.pop(), Some(20));
    assert_eq!(heap.pop(), None);
    assert!(heap.is_empty());
}
