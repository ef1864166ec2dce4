use script_frontend::classify::{digit_of, is_digit};

#[test]
fn ascii_digits_and_their_values() {
    let digits = ['0', '1', '2', '3', '4', '5', '6', '7', '8', '9'];
    for (value, c) in digits.iter().enumerate() {
        assert!(is_digit(*c));
        assert_eq!(digit_of(*c) as usize, value);
    }
}

#[test]
fn other_characters_are_no_digits() {
    for c in ['/', ':', 'a', ' ', '.', '\u{663}', '\u{ff11}'] {
        assert!(!is_digit(c), "{:?}", c);
    }
}
