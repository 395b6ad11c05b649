use nixie::text::{count_digits, push_decimal, push_digits, push_padded};

#[test]
fn numbers_are_written_out() {
    let mut s = String::new();
    push_decimal(&mut s, -120);
    push_padded(&mut s, 7, 10, 3);
    push_padded(&mut s, 1234, 10, 2);
    push_digits(&mut s, 0xbeef, 16);
    push_decimal(&mut s, i64::MIN);
    assert_eq!(s, "-1200071234beef-9223372036854775808");
    assert_eq!(count_digits(u64::MAX, 2), 64);
    assert_eq!(count_digits(0, 10), 1);
}
