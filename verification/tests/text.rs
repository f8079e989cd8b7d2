use vgc::text::{dbg_str, push_decimal};

#[test]
fn test_dbg_str() {
    let b = dbg_str("common\\src\\lib.rs", 22, "test");
    assert_eq!(b, "common\\src\\lib.rs:22: test");
}

#[test]
fn dbg_str_with_zero_line_and_empty_message() {
    assert_eq!(dbg_str("a.rs", 0, ""), "a.rs:0: ");
}

#[test]
fn push_decimal_writes_digits_without_leading_zeros() {
    let mut s = String::from("n=");
    push_decimal(&mut s, 1050);
    assert_eq!(s, "n=1050");
    let mut z = String::new();
    push_decimal(&mut z, 0);
    assert_eq!(z, "0");
    let mut m = String::new();
    push_decimal(&mut m, usize::MAX);
    assert_eq!(m, usize::MAX.to_string());
}
