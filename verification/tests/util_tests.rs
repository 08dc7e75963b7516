use boost_rs::env::debug_mode;
use boost_rs::random::{get_random_alphanumeric_string, get_random_charset_string};
use boost_rs::sort::{is_sorted, is_sorted_with_comparator};
use boost_rs::compare::{NaturalOrd, ReverseOrd};
use boost_rs::types::With;

#[test]
fn test_debug_mode() {
    if debug_mode() {
        println!("run with debug mode, print this line");
    } else {
        println!("not run with debug mode, print this line");
    }
}

#[test]
fn test_integer() {}

#[test]
fn test_with() {
    #[derive(Debug, Default)]
    pub struct Foo {
        bar: String,
        baz: i32,
        abc: bool,
    }

    impl With<String> for Foo {
        fn with(x: String) -> Self {
            Foo {
                bar: x,
                ..Default::default()
            }
        }
    }

    impl With<i32> for Foo {
        fn with(x: i32) -> Self {
            Foo {
                baz: x,
                ..Default::default()
            }
        }
    }

    impl With<bool> for Foo {
        fn with(x: bool) -> Self {
            Foo {
                abc: x,
                ..Default::default()
            }
        }
    }

    impl With<(String, bool)> for Foo {
        fn with(x: (String, bool)) -> Self {
            Foo {
                bar: x.0,
                abc: x.1,
                ..Default::default()
            }
        }
    }

    let a = Foo::with("test".to_string());
    let b = Foo::with(1);
    let c = Foo::with(true);
    let d = Foo::with(("multi".to_string(), true));

    println!("a: {:?}", a);
    println!("b: {:?}", b);
    println!("c: {:?}", c);
    println!("d: {:?}", d);
    assert_eq!(a.bar, "test".to_string());
    assert_eq!(b.baz, 1);
    assert!(c.abc);
    assert!(d.abc);
    assert_eq!(d.bar, "multi".to_string());
}

#[test]
fn get_random_charset_string_test() {
    const CHARSET: &[u8] = b"ABCDEFGHIJKLMNOPQRSTUVWXYZ\
                        abcdefghijklmnopqrstuvwxyz\
                        0123456789)(*&^%$#@!~";
    const PASSWORD_LEN: usize = 30;

    let password = get_random_charset_string(PASSWORD_LEN, CHARSET);

    assert_eq!(password.len(), PASSWORD_LEN);
    for x in password.bytes() {
        assert!(CHARSET.contains(&x));
    }
}

#[test]
fn get_random_alphanumeric_string_test() {
    const GEN_ASCII_STR_CHARSET: &[u8] = b"ABCDEFGHIJKLMNOPQRSTUVWXYZ\
            abcdefghijklmnopqrstuvwxyz\
            0123456789";
    const PASSWORD_LEN: usize = 30;

    let password = get_random_alphanumeric_string(PASSWORD_LEN);
    assert_eq!(password.len(), PASSWORD_LEN);
    for x in password.bytes() {
        assert!(GEN_ASCII_STR_CHARSET.contains(&x));
    }
}

#[test]
fn sorted_checks() {
    assert!(is_sorted(&[1, 2, 3]));
    assert!(!is_sorted(&[1, 3, 2]));
    assert!(is_sorted_with_comparator(&[1, 2, 3], &NaturalOrd));
    assert!(is_sorted_with_comparator(
        &[3, 2, 1],
        &ReverseOrd { inner: NaturalOrd }
    ));
    assert!(!is_sorted_with_comparator(&[1, 3, 2], &NaturalOrd));
    assert!(is_sorted_with_comparator(&[2, 2, 3], &NaturalOrd));
}
