use boost_rs::compare::{NaturalOrd, ReverseOrd};
use boost_rs::error::CollectionError;
use boost_rs::level_generator::DefaultLevelGenerator;
use boost_rs::ordskiplist::{Options, OrdSkipList};

type IntList = OrdSkipList<i32, NaturalOrd, DefaultLevelGenerator>;

#[test]
fn ordskiplist_new() {
    let sl: IntList = OrdSkipList::new();
    assert_eq!(sl.length(), 0);
}

#[test]
fn ordskiplist_ord_with_options_cmp() {
    let sl: OrdSkipList<i32, ReverseOrd<NaturalOrd>, DefaultLevelGenerator> =
        OrdSkipList::with_options(Options {
            cmp: Some(ReverseOrd { inner: NaturalOrd }),
            level_bound: None,
            level_generator: None,
        })
        .unwrap();
    assert_eq!(sl.length(), 0);
}

#[test]
fn ordskiplist_ord_with_options_level_bound() {
    let sl: IntList = OrdSkipList::ord_with_options(Options {
        cmp: None,
        level_bound: Some(1024),
        level_generator: None,
    })
    .unwrap();
    assert_eq!(sl.length(), 0);
}

#[test]
fn ordskiplist_ord_with_options_level_generator() {
    let g = DefaultLevelGenerator::new(4, 500).unwrap();
    let sl: IntList = OrdSkipList::ord_with_options(Options {
        cmp: None,
        level_bound: None,
        level_generator: Some(g),
    })
    .unwrap();
    assert_eq!(sl.length(), 0);
}

#[test]
fn ordskiplist_with_options() {
    // ids ordered by a reversed comparator: the larger id comes out first
    let mut sl: OrdSkipList<usize, ReverseOrd<NaturalOrd>, DefaultLevelGenerator> =
        OrdSkipList::with_options(Options {
            cmp: Some(ReverseOrd { inner: NaturalOrd }),
            level_bound: None,
            level_generator: None,
        })
        .unwrap();
    assert_eq!(sl.length(), 0);

    sl.insert(2).unwrap();
    sl.insert(1).unwrap();

    let mut it = sl.iter();
    let first = it.next().unwrap();
    assert_eq!(*first, 2);
}

#[test]
fn ordskiplist_contains() {
    let mut l: IntList = OrdSkipList::ord_with_options(Options {
        cmp: None,
        level_bound: Some(16),
        level_generator: None,
    })
    .unwrap();

    let test_len = 10000;
    for i in 0..test_len {
        l.insert(i).unwrap();
    }
    assert_eq!(l.length(), test_len as usize);

    for i in 0..test_len {
        assert!(l.contains(&i));
    }
}

#[test]
fn ordskiplist_remove() {
    let mut l: IntList = OrdSkipList::new();
    l.insert(12).unwrap();
    assert_eq!(l.length(), 1);
    assert!(l.contains(&12));

    l.remove(&12).unwrap();
    assert_eq!(l.length(), 0);
    assert!(!l.contains(&12));

    l.insert(13).unwrap();
    assert_eq!(l.length(), 1);
    assert!(l.contains(&13));
}

#[test]
fn ordskiplist_iter() {
    let mut l: IntList = OrdSkipList::new();
    for i in 0..100 {
        l.insert(i).unwrap();
    }

    let mut x = 0;
    let mut it = l.iter();
    while let Some(i) = it.next() {
        assert_eq!(i, &x);
        x += 1;
    }
    assert_eq!(x, 100);
}

#[test]
fn iter_mut() {
    let mut l: IntList = OrdSkipList::new();
    for i in 0..100 {
        l.insert(i).unwrap();
    }
    let mut it = l.iter_mut();
    while let Some(node_val) = it.next(&mut l) {
        *node_val += 1;
    }
    for x in 1..101 {
        assert_eq!(x, l.pop_front().unwrap());
    }
}

#[test]
fn clear() {
    let mut l: IntList = OrdSkipList::new();
    for i in 0..100 {
        l.insert(i).unwrap();
    }
    assert_eq!(l.length(), 100);

    l.clear();
    assert_eq!(l.length(), 0);
    for i in 0..100 {
        assert!(!l.contains(&i));
    }
}

#[test]
fn into_iter() {
    let mut l: IntList = OrdSkipList::new();
    for i in 0..10 {
        l.insert(i).unwrap();
    }
    assert_eq!(l.length(), 10);

    let mut l_to_string: Vec<String> = Vec::new();
    let mut it = l.into_iter();
    while let Some(x) = it.next() {
        l_to_string.push(x.to_string());
    }
    println!(
        "transform l into String vec, l_to_string: {:?}",
        l_to_string
    );

    for i in (0..10).rev() {
        assert_eq!(i.to_string(), l_to_string.pop().unwrap());
    }
}

#[test]
fn unordered_inserts_iterate_ascending() {
    let mut l: IntList = OrdSkipList::new();
    for v in [5, 1, 4, 2, 3] {
        l.insert(v).unwrap();
    }
    let mut seen: Vec<i32> = Vec::new();
    let mut it = l.iter();
    while let Some(v) = it.next() {
        seen.push(*v);
    }
    assert_eq!(seen, vec![1, 2, 3, 4, 5]);
}

#[test]
fn duplicate_insert_changes_nothing() {
    let mut l: IntList = OrdSkipList::new();
    for v in [1, 2, 3] {
        l.insert(v).unwrap();
    }
    let e = l.insert(2).unwrap_err();
    assert!(e.is_duplicate_key());
    assert!(matches!(e, CollectionError::DuplicateKey));
    assert_eq!(l.length(), 3);
    let mut seen: Vec<i32> = Vec::new();
    let mut it = l.iter();
    while let Some(v) = it.next() {
        seen.push(*v);
    }
    assert_eq!(seen, vec![1, 2, 3]);
    for v in [1, 2, 3] {
        assert!(l.contains(&v));
    }
}

#[test]
fn remove_then_reinsert_appears_once() {
    let mut l: IntList = OrdSkipList::new();
    for v in [1, 5, 9] {
        l.insert(v).unwrap();
    }
    assert_eq!(l.remove(&5), Some(5));
    l.insert(5).unwrap();
    let mut count = 0;
    let mut it = l.iter();
    while let Some(v) = it.next() {
        if *v == 5 {
            count += 1;
        }
    }
    assert_eq!(count, 1);
}

#[test]
fn length_tracks_inserts_and_removes() {
    let mut l: IntList = OrdSkipList::new();
    let mut expected: usize = 0;
    for v in 0..50 {
        l.insert(v).unwrap();
        expected += 1;
        assert_eq!(l.length(), expected);
    }
    let _ = l.insert(7); // duplicate: no change
    assert_eq!(l.length(), expected);
    for v in 0..25 {
        assert_eq!(l.remove(&v), Some(v));
        expected -= 1;
        assert_eq!(l.length(), expected);
    }
    assert_eq!(l.remove(&7), None); // already gone: no change
    assert_eq!(l.length(), expected);
}

#[test]
fn reversed_comparator_iterates_descending() {
    let mut l: OrdSkipList<i32, ReverseOrd<NaturalOrd>, DefaultLevelGenerator> =
        OrdSkipList::with_options(Options {
            cmp: Some(ReverseOrd { inner: NaturalOrd }),
            level_bound: None,
            level_generator: None,
        })
        .unwrap();
    for v in [1, 3, 2, 5, 4] {
        l.insert(v).unwrap();
    }
    let mut seen: Vec<i32> = Vec::new();
    let mut it = l.iter();
    while let Some(v) = it.next() {
        seen.push(*v);
    }
    assert_eq!(seen, vec![5, 4, 3, 2, 1]);
}

#[test]
fn peek_and_pop_front() {
    let mut l: IntList = OrdSkipList::new();
    assert!(l.peek_front().is_none());
    assert!(l.pop_front().is_none());
    for v in [3, 1, 2] {
        l.insert(v).unwrap();
    }
    assert_eq!(l.peek_front(), Some(&1));
    assert_eq!(l.pop_front(), Some(1));
    assert_eq!(l.pop_front(), Some(2));
    assert_eq!(l.pop_front(), Some(3));
    assert!(l.pop_front().is_none());
}

#[test]
fn missing_comparator_is_invalid_parameter() {
    let r: Result<OrdSkipList<i32, NaturalOrd, DefaultLevelGenerator>, CollectionError> =
        OrdSkipList::with_options(Options {
            cmp: None,
            level_bound: None,
            level_generator: None,
        });
    match r {
        Err(e) => assert!(matches!(e, CollectionError::InvalidParameter(_))),
        Ok(_) => panic!("expected an error"),
    }
}
