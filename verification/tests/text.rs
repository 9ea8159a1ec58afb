use dep_resolution::text::{
    begins_with, chars_of, find_char, is_text, place_of, push_number, read_number, split_chars,
    text_of, trim_chars,
};

fn chars(s: &str) -> Vec<char> {
    s.chars().collect()
}

#[test]
fn texts_are_taken_apart() {
    assert_eq!(chars_of("a\u{e9}b"), vec!['a', '\u{e9}', 'b']);
    assert_eq!(text_of(&chars("a\u{e9}b")), "a\u{e9}b");
    assert_eq!(find_char(&chars("a;b;c"), ';'), 1);
    assert_eq!(find_char(&chars("abc"), ';'), 3);
    let s = chars("a,,b,");
    let parts: Vec<String> = split_chars(&s, ',').into_iter().map(text_of).collect();
    assert_eq!(parts, vec!["a", "", "b", ""]);
    assert_eq!(split_chars(&[], ',').len(), 1);
    assert_eq!(text_of(trim_chars(&chars(" \t a b\t "))), "a b");
    assert_eq!(text_of(trim_chars(&chars("  "))), "");
}

#[test]
fn texts_are_compared() {
    assert!(begins_with(&chars("extra == 1"), "extra"));
    assert!(!begins_with(&chars("ext"), "extra"));
    assert!(is_text(&chars("linux"), "linux"));
    assert!(!is_text(&chars("linux2"), "linux"));
    let names = vec!["a".to_string(), "b".to_string(), "b".to_string()];
    assert_eq!(place_of(&names, &"b".to_string()), Some(1));
    assert_eq!(place_of(&names, &"B".to_string()), None);
}

#[test]
fn numbers_are_written_and_read() {
    let mut s = "n=".to_string();
    push_number(&mut s, 0);
    push_number(&mut s, 4294967295);
    assert_eq!(s, "n=04294967295");
    assert_eq!(read_number(&chars("4294967295")), Some(4294967295));
    assert_eq!(read_number(&chars("4294967296")), None);
    assert_eq!(read_number(&chars("99999999999999999999")), None);
    assert_eq!(read_number(&chars("0042")), Some(42));
    assert_eq!(read_number(&chars("")), None);
    assert_eq!(read_number(&chars("4a")), None);
}
