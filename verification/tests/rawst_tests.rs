use bstrees::rawst::RawST;

use rand::prelude::SliceRandom;
use rand::thread_rng;

fn gen_data(group: u64, num: usize) -> Vec<(u64, u64)> {
    let mut keys = std::collections::HashSet::new();
    let mut elems = vec![];

    for _ in 0..num {
        let mut k: u64 = rand::random::<u64>();
        let mut j = 0;

        while j < group {
            k = k.wrapping_add(1);
            if keys.contains(&k) {
                continue;
            }

            keys.insert(k);
            elems.push((k, k.wrapping_add(1000)));

            j += 1;
        }
    }

    elems
}

#[test]
fn test_rawst_randomdata() {
    for _ in 0..20 {
        let mut dict = RawST::new();
        let mut elems = gen_data(10, 100);

        for (i, (k, v)) in elems.iter().cloned().enumerate() {
            assert!(dict.insert(k, v), "[dict insert] insert res invalid");
            assert_eq!(dict.get(&k), Some(&v), "[dict insert] insert but query failed");

            if i % 20 == 0 {
                dict.self_validate().unwrap();
            }
        }

        dict.self_validate().unwrap();

        for (i, (k, v)) in elems.clone().into_iter().enumerate() {
            assert_eq!(dict.get(&k), Some(&v));

            let newv = k.wrapping_add(500);

            assert!(dict.modify(&k, newv));

            elems[i] = (k, newv);

            assert_eq!(dict.get(&k), Some(&newv));
        }

        elems.shuffle(&mut thread_rng());

        for (i, (k, v)) in elems.into_iter().enumerate() {
            assert_eq!(dict.get(&k), Some(&v), "[dict remove] Assure get Some");
            assert_eq!(dict.remove(&k), Some(v), "[dict remove] Assert remove failed");
            assert_eq!(dict.get(&k), None, "[dict remove] Assure get None");

            if i % 10 == 0 {
                dict.self_validate().unwrap();
            }
        }
    }
}

// The in-order walk lists the keys sorted, whatever the insertion order.
#[test]
fn test_rawst_in_order_walk() {
    let mut dict = RawST::new();
    for k in [31u64, 7, 90, 2, 55, 42, 77] {
        assert!(dict.insert(k, k.wrapping_mul(3)));
    }

    assert_eq!(dict.keys_in_order(), vec![2, 7, 31, 42, 55, 77, 90]);
    dict.self_validate().unwrap();
}
