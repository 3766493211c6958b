use sequence_map::string_slice::{Intern, String};

#[test]
fn string_slice_basic() {
    let mut intern = Intern::new();
    let sample_str = "Hello!";
    assert_eq!(sample_str.len() + 1, String::required_len(sample_str));

    let index = intern.add(sample_str);
    assert_eq!(index, 0);

    let c_string = intern.get(index).to_string();
    assert_eq!(c_string, sample_str);

    let index2 = intern.add("World!");
    let c_string_2 = intern.get(index2).to_string();
    assert_eq!(c_string_2, "World!");

    let expected: Vec<u8> = vec![72, 101, 108, 108, 111, 33, 0, 87, 111, 114, 108, 100, 33, 0];
    let actual: Vec<u8> = intern.into();
    assert_eq!(expected, actual);
}

#[test]
fn deduplicate_seen_strings() {
    let mut intern = Intern::new();
    let index = intern.add("Hello!");
    let index2 = intern.add("World!");
    let index3 = intern.add("Hello!");
    assert_eq!(index, index3);
    assert_ne!(index, index2);

    assert_eq!(intern.get(index).content(), intern.get(index3).content());
    assert_ne!(intern.get(index).content(), intern.get(index2).content());
    assert_eq!(intern.len(), 14);
}

#[test]
fn string_views() {
    let buffer = b"abc\0def\0";
    let s = String::over(buffer);
    assert_eq!(s.content(), b"abc\0");
    assert_eq!(s.to_str(), "abc");
    assert_eq!(s.try_to_str(), Some("abc"));
    let bad = [0xffu8, 0];
    assert_eq!(String::over(&bad).try_to_str(), None);
}

#[test]
fn string_init_writes_text_and_zero() {
    let mut buffer: Vec<u8> = vec![9; 8];
    String::init("héé", &mut buffer, 1);
    assert_eq!(buffer, vec![9, b'h', 0xc3, 0xa9, 0xc3, 0xa9, 0, 9]);
    assert_eq!(String::required_len("héé"), 6);
}
