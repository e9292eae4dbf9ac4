use regex::helpers::{SafeAdd, safe_add};

#[test]
fn test_safe_add() {
    let u = 10;
    assert_eq!(Some(30), u.safe_add(&20));

    let u = !0; // usize::MAX
    assert_eq!(None, u.safe_add(&1));

    let u = 18446744073709551614; // just below the limit
    assert_eq!(Some(18446744073709551615), u.safe_add(&1));

    let mut n = 10;
    assert!(safe_add(&mut n, &20, || ()).is_ok());

    let mut n = !0;
    assert!(safe_add(&mut n, &1, || ()).is_err());
}
