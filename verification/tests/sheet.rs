use omninote::sheet::{char_to_byte, file_url};

#[test]
fn char_to_byte_ascii() {
    assert_eq!(char_to_byte("hello", 3), 3);
}

#[test]
fn char_to_byte_multibyte() {
    assert_eq!(char_to_byte("áé", 1), 2);
}

#[test]
fn char_to_byte_past_end() {
    assert_eq!(char_to_byte("hi", 99), 2);
}

#[test]
fn file_url_prefixes_the_scheme() {
    assert_eq!(file_url("/vault/_attachments/a b.png"), "file:///vault/_attachments/a b.png");
}
