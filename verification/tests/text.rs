use multisync::text::{chars_of, join, read_number, tagged_number};

#[test]
fn numbers_are_written_in_decimal() {
    assert_eq!(tagged_number("bpm:", 0), "bpm:0");
    assert_eq!(tagged_number("buf:", 240000), "buf:240000");
    assert_eq!(tagged_number("", u64::MAX), "18446744073709551615");
}

#[test]
fn numbers_are_read_back() {
    for n in [0u64, 9, 10, 123, 4294967295, u64::MAX] {
        let text = tagged_number("", n);
        assert_eq!(read_number(&chars_of(&text), u64::MAX), Some(n));
    }
}

#[test]
fn only_numbers_are_read() {
    assert_eq!(read_number(&chars_of("+17"), 100), Some(17));
    assert_eq!(read_number(&chars_of("0017"), 100), Some(17));
    assert_eq!(read_number(&chars_of(""), 100), None);
    assert_eq!(read_number(&chars_of("+"), 100), None);
    assert_eq!(read_number(&chars_of("-1"), 100), None);
    assert_eq!(read_number(&chars_of("1 "), 100), None);
    assert_eq!(read_number(&chars_of("++1"), 100), None);
    assert_eq!(read_number(&chars_of("100"), 100), Some(100));
    assert_eq!(read_number(&chars_of("101"), 100), None);
    assert_eq!(read_number(&chars_of("18446744073709551616"), u64::MAX), None);
}

#[test]
fn lists_are_joined() {
    let texts = vec!["ann".to_string(), "bob".to_string(), "cy".to_string()];
    assert_eq!(join(&texts, ", "), "ann, bob, cy");
    assert_eq!(join(&Vec::new(), ", "), "");
}

#[test]
fn nothing_is_put_before_the_first_text_that_is_not_empty() {
    let texts = vec!["".to_string(), "bob".to_string(), "".to_string()];
    assert_eq!(join(&texts, ";"), "bob;");
}
