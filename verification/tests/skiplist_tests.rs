use boost_rs::compare::{NaturalOrd, ReverseOrd};
use boost_rs::level_generator::DefaultLevelGenerator;
use boost_rs::skiplist::{Options, SkipList};

type IntList = SkipList<i32, NaturalOrd, DefaultLevelGenerator>;

#[test]
fn compile() {
    println!("ok")
}

#[test]
fn skiplist_new() {
    let sl: IntList = SkipList::new();
    assert_eq!(sl.length(), 0);
}

#[test]
fn skiplist_ord_with_options_cmp() {
    let sl: SkipList<i32, ReverseOrd<NaturalOrd>, DefaultLevelGenerator> =
        SkipList::with_options(Options {
            cmp: Some(ReverseOrd { inner: NaturalOrd }),
            level_bound: None,
            level_generator: None,
        })
        .unwrap();
    assert_eq!(sl.length(), 0);
}

#[test]
fn skiplist_ord_with_options_level_bound() {
    let sl: IntList = SkipList::ord_with_options(Options {
        cmp: None,
        level_bound: Some(1024),
        level_generator: None,
    })
    .unwrap();
    assert_eq!(sl.length(), 0);
}

#[test]
fn skiplist_ord_with_options_level_generator() {
    let g = DefaultLevelGenerator::new(4, 500).unwrap();
    let sl: IntList = SkipList::ord_with_options(Options {
        cmp: None,
        level_bound: None,
        level_generator: Some(g),
    })
    .unwrap();
    assert_eq!(sl.length(), 0);
}

#[test]
fn skiplist_with_options() {
    let sl: SkipList<usize, ReverseOrd<NaturalOrd>, DefaultLevelGenerator> =
        SkipList::with_options(Options {
            cmp: Some(ReverseOrd { inner: NaturalOrd }),
            level_bound: None,
            level_generator: None,
        })
        .unwrap();
    assert_eq!(sl.length(), 0);
}

#[test]
fn skiplist_contains() {
    let mut l: IntList = SkipList::ord_with_options(Options {
        cmp: None,
        level_bound: Some(16),
        level_generator: None,
    })
    .unwrap();

    let test_len = 10000;
    for i in 0..test_len {
        l.add(i).unwrap();
    }
    assert_eq!(l.length(), test_len as usize);

    for i in 0..test_len {
        assert!(l.contains(&i));
    }
}

#[test]
fn skiplist_remove() {
    let mut l: IntList = SkipList::new();
    l.add(12).unwrap();
    assert_eq!(l.length(), 1);
    assert!(l.contains(&12));

    l.remove(&12).unwrap();
    assert_eq!(l.length(), 0);
    assert!(!l.contains(&12));

    l.add(13).unwrap();
    assert_eq!(l.length(), 1);
    assert!(l.contains(&13));
}

#[test]
fn skiplist_iter() {
    let mut l: IntList = SkipList::new();
    for i in 0..100 {
        l.add(i).unwrap();
    }

    let mut x = 0;
    let mut it = l.iter();
    while let Some(i) = it.next() {
        assert_eq!(i, &x);
        println!("i: {:?}", i);
        x += 1;
    }
    assert_eq!(x, 100);
}

#[test]
fn skiplist_iter_mut_doubles() {
    let mut l: IntList = SkipList::new();
    for i in 0..10 {
        l.add(i).unwrap();
    }
    let mut it = l.iter_mut();
    while let Some(v) = it.next(&mut l) {
        *v *= 2;
    }
    let mut seen: Vec<i32> = Vec::new();
    let mut rd = l.iter();
    while let Some(v) = rd.next() {
        seen.push(*v);
    }
    assert_eq!(seen, vec![0, 2, 4, 6, 8, 10, 12, 14, 16, 18]);
}

#[test]
fn clear_and_into_iter() {
    let mut l: IntList = SkipList::new();
    for i in 0..10 {
        l.add(i).unwrap();
    }
    l.clear();
    assert!(l.is_empty());
    for i in 0..5 {
        l.add(i).unwrap();
    }
    let mut it = l.into_iter();
    let mut seen: Vec<i32> = Vec::new();
    while let Some(v) = it.next() {
        seen.push(v);
    }
    assert_eq!(seen, vec![0, 1, 2, 3, 4]);
}
