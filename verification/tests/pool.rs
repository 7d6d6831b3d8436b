use hedron::data::pool::Pool;

#[test]
fn test_mutations() {
    println!("testtest");

    let mut pool = Pool::new();

    let henk_ptr = pool.push("henk");
    let blob_ptr = pool.push("blob");
    let kaas_ptr = pool.push("kaas");
    let _piet_ptr = pool.push("piet");

    for item in pool.iter() {
        println!("{:?}", item);
    }

    assert_eq!(pool.all(), vec![&"henk", &"blob", &"kaas", &"piet"]);

    pool.delete(blob_ptr);
    pool.delete(kaas_ptr);

    assert_eq!(pool.all(), vec![&"henk", &"piet"]);

    pool.set(henk_ptr, "penk");

    assert_eq!(pool.all(), vec![&"penk", &"piet"]);

    println!("{:?}", pool);

    let _muis_ptr = pool.push("muis");
    let _puis_ptr = pool.push("puis");
    let _duis_ptr = pool.push("duis");

    assert_eq!(pool.all(), vec![&"penk", &"puis", &"muis", &"piet", &"duis"]);

    pool.delete(1);
    pool.delete(3);

    println!("{:?}", pool);
    pool.refactor();
    println!("{:?}", pool);

    assert_eq!(pool.all(), vec![&"penk", &"muis", &"duis"]);
}

#[test]
fn test_iterations() {
    let mut pool = Pool::new();
    let _henk_ptr = pool.push("henk".to_owned());
    let _blob_ptr = pool.push("blob".to_owned());
    let _kaas_ptr = pool.push("kaas".to_owned());
    let _piet_ptr = pool.push("piet".to_owned());

    for item in pool.iter_mut() {
        item.make_ascii_uppercase();
    }

    assert_eq!(
        pool.iter().into_iter().map(|s| s.as_str()).collect::<Vec<_>>(),
        vec!["HENK", "BLOB", "KAAS", "PIET"]
    );
}

#[test]
fn pool_push_reuses_last_deleted_slot() {
    let mut pool = Pool::new();
    let a = pool.push(10u32);
    let b = pool.push(20u32);
    let c = pool.push(30u32);
    assert_eq!((a, b, c), (0, 1, 2));
    pool.delete(a);
    pool.delete(c);
    assert_eq!(pool.len(), 1);
    assert_eq!(pool.push(40), 2);
    assert_eq!(pool.push(50), 0);
    assert_eq!(pool.push(60), 3);
    assert_eq!(pool.all(), vec![&50, &20, &40, &60]);
    assert_eq!(pool.all_ids(), vec![0, 1, 2, 3]);
}

#[test]
fn pool_get_after_push_and_delete() {
    let mut pool = Pool::with_capacity(4);
    assert!(pool.is_empty());
    let p = pool.push('x');
    assert_eq!(pool.get(p), Some(&'x'));
    pool.delete(p);
    assert_eq!(pool.get(p), None);
    assert_eq!(pool.get(7), None);
    assert_eq!(pool.len(), 0);
    // a pool whose items were all deleted still holds its freed slot
    assert!(!pool.is_empty());
    pool.refactor();
    assert!(pool.is_empty());
}

#[test]
fn pool_get_mut_writes_through() {
    let mut pool = Pool::new();
    let p = pool.push(1i64);
    let q = pool.push(2i64);
    if let Some(v) = pool.get_mut(q) {
        *v = 20;
    }
    pool.delete(p);
    assert!(pool.get_mut(p).is_none());
    assert_eq!(pool.all(), vec![&20]);
}

#[test]
fn pool_refactor_mapping_agrees_with_refactor() {
    let mut pool = Pool::new();
    for i in 0..6u32 {
        pool.push(i * 10);
    }
    pool.delete(1);
    pool.delete(4);
    let mapping = pool.get_refactor_mapping();
    assert_eq!(mapping.len(), 4);
    assert_eq!(mapping.get(&0), Some(&0));
    assert_eq!(mapping.get(&2), Some(&1));
    assert_eq!(mapping.get(&3), Some(&2));
    assert_eq!(mapping.get(&5), Some(&3));
    assert_eq!(mapping.get(&1), None);
    let before: Vec<(usize, u32)> = pool.iter_enum().into_iter().map(|(i, v)| (i, *v)).collect();
    pool.refactor();
    for (old, value) in before {
        assert_eq!(pool.get(mapping[&old]), Some(&value));
    }
    assert_eq!(pool.len(), 4);
    assert_eq!(pool.all_ids(), vec![0, 1, 2, 3]);
}

#[test]
fn pool_iter_enum_lists_pointers() {
    let mut pool = Pool::new();
    pool.push("a");
    pool.push("b");
    pool.push("c");
    pool.delete(1);
    let entries = pool.iter_enum_mut();
    assert_eq!(entries, vec![(0, &"a"), (2, &"c")]);
}
