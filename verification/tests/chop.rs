use katas::chop::{
    chop_functional, chop_functional_clean, chop_functional_element, chop_functional_pure,
    chop_functional_tail, chop_iterative, chop_recursive,
};

fn test_chop(chop: &dyn Fn(i32, &[i32]) -> isize, name: &str) {
    println!("{}", name);

    assert_eq!(-1, chop(3, &[]));
    assert_eq!(-1, chop(3, &[1]));
    assert_eq!(0, chop(1, &[1]));

    assert_eq!(0, chop(1, &[1, 3, 5]));
    assert_eq!(1, chop(3, &[1, 3, 5]));
    assert_eq!(2, chop(5, &[1, 3, 5]));
    assert_eq!(-1, chop(0, &[1, 3, 5]));
    assert_eq!(-1, chop(2, &[1, 3, 5]));
    assert_eq!(-1, chop(4, &[1, 3, 5]));
    assert_eq!(-1, chop(6, &[1, 3, 5]));

    assert_eq!(0, chop(1, &[1, 3, 5, 7]));
    assert_eq!(1, chop(3, &[1, 3, 5, 7]));
    assert_eq!(2, chop(5, &[1, 3, 5, 7]));
    assert_eq!(3, chop(7, &[1, 3, 5, 7]));
    assert_eq!(-1, chop(0, &[1, 3, 5, 7]));
    assert_eq!(-1, chop(2, &[1, 3, 5, 7]));
    assert_eq!(-1, chop(4, &[1, 3, 5, 7]));
    assert_eq!(-1, chop(6, &[1, 3, 5, 7]));
    assert_eq!(-1, chop(8, &[1, 3, 5, 7]));
}

#[test]
fn test_chops() {
    test_chop(&chop_iterative, "Iter");
    test_chop(&chop_recursive, "Recr");
    test_chop(&chop_functional, "Func");
    test_chop(&chop_functional_pure, "Pure");
    test_chop(&chop_functional_clean, "Clean");
    test_chop(&chop_functional_tail, "Tail");
}

#[test]
fn test_chop_element() {
    assert_eq!(None, chop_functional_element(3, &[]));
    assert_eq!(None, chop_functional_element(2, &[1, 3, 5]));
    assert_eq!(Some(3), chop_functional_element(3, &[1, 3, 5]));
    assert_eq!(Some(1), chop_functional_element(1, &[1, 3, 5]));
    assert_eq!(Some(5), chop_functional_element(5, &[1, 3, 5]));
}
