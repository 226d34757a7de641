use illumiphysics::text::{digits_of, sum_digits};

#[test]
fn digits_of_small_and_large_numbers() {
    assert_eq!(digits_of(0), b"0".to_vec());
    assert_eq!(digits_of(7), b"7".to_vec());
    assert_eq!(digits_of(10), b"10".to_vec());
    assert_eq!(digits_of(1_000_000), b"1000000".to_vec());
    assert_eq!(digits_of(9_081_726_354), b"9081726354".to_vec());
    assert_eq!(String::from_utf8(digits_of(usize::MAX)).unwrap(), usize::MAX.to_string());
}

#[test]
fn sum_in_writing() {
    assert_eq!(sum_digits(2, 3), b"5".to_vec());
    assert_eq!(sum_digits(0, 0), b"0".to_vec());
    assert_eq!(sum_digits(999, 1), b"1000".to_vec());
    assert_eq!(sum_digits(123_456, 654_321), b"777777".to_vec());
    assert_eq!(
        String::from_utf8(sum_digits(usize::MAX - 1, 1)).unwrap(),
        usize::MAX.to_string()
    );
}
