use boost_rs::bit::{add_one, neg, sub_one, swap};

#[test]
fn test_swap() {
    let x = 5;
    let y = 3;

    assert_eq!(swap(x, y), (y, x));
}

#[test]
fn test_add_one() {
    let mut x = rand::random::<i32>();
    if x == i32::MAX {
        x = 0;
    }
    assert_eq!(add_one(x), x + 1);
}

#[test]
fn test_sub_one() {
    let mut x = rand::random::<i32>();
    if x == i32::MIN {
        x = 0;
    }
    assert_eq!(sub_one(x), x - 1);
}

#[test]
fn test_neg() {
    let mut x = rand::random::<i32>();
    if x == i32::MIN {
        x = 0;
    }
    assert_eq!(neg(x), -x);
}
