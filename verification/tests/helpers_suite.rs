use vm16::config::Config;
use vm16::helpers::{
    delete_last_letter, has_b_with_num, has_single_letter, integer_to_letter, letter_to_integer,
};

#[test]
fn letter_to_integer_maps_both_cases() {
    assert_eq!(letter_to_integer('a'), Some(0));
    assert_eq!(letter_to_integer('z'), Some(25));
    assert_eq!(letter_to_integer('A'), Some(0));
    assert_eq!(letter_to_integer('Z'), Some(25));
    assert_eq!(letter_to_integer('3'), None);
    assert_eq!(letter_to_integer(' '), None);
}

#[test]
fn integer_to_letter_maps_back() {
    assert_eq!(integer_to_letter(0), 'a');
    assert_eq!(integer_to_letter(1), 'b');
    assert_eq!(integer_to_letter(25), 'z');
    for n in 0..26 {
        assert_eq!(letter_to_integer(integer_to_letter(n)), Some(n as u8));
    }
}

#[test]
fn has_single_letter_checks_length_and_class() {
    assert!(has_single_letter("a"));
    assert!(has_single_letter("Q"));
    assert!(!has_single_letter("ab"));
    assert!(!has_single_letter("1"));
    assert!(!has_single_letter(""));
}

#[test]
fn has_b_with_num_wants_a_digit_right_after_a_b() {
    assert!(has_b_with_num("b1"));
    assert!(has_b_with_num("B7x"));
    assert!(has_b_with_num("xxB2"));
    assert!(has_b_with_num("bxb5"));
    assert!(!has_b_with_num("b"));
    assert!(!has_b_with_num("bx1"));
    assert!(!has_b_with_num("123"));
    assert!(!has_b_with_num(""));
}

#[test]
fn delete_last_letter_strips_one_trailing_letter() {
    assert_eq!(delete_last_letter("5x"), "5");
    assert_eq!(delete_last_letter("abc"), "ab");
    assert_eq!(delete_last_letter("b101"), "b101");
    assert_eq!(delete_last_letter(""), "");
    assert_eq!(delete_last_letter("7"), "7");
}

#[test]
fn config_default_enables_plain_debug_only() {
    let c = Config::default();
    assert!(c.debug);
    assert!(!c.verbose_debug);
}
