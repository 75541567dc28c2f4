use dpll::text::{chars_of, same_text, string_of};

#[test]
fn chars_of_lists_the_characters_in_order() {
    assert_eq!(chars_of(""), Vec::<char>::new());
    assert_eq!(chars_of("abc"), vec!['a', 'b', 'c']);
    assert_eq!(chars_of("a ñ-日"), vec!['a', ' ', 'ñ', '-', '日']);
}

#[test]
fn string_of_joins_the_characters_in_order() {
    assert_eq!(string_of(&Vec::new()), "");
    assert_eq!(string_of(&vec!['a', 'b', 'c']), "abc");
    assert_eq!(string_of(&vec!['ñ', '-', '日']), "ñ-日");
}

#[test]
fn string_of_undoes_chars_of() {
    for text in ["", "x", "{a,b},{-a,c}", "日本語 text"] {
        assert_eq!(string_of(&chars_of(text)), text);
    }
}

#[test]
fn same_text_compares_contents() {
    assert!(same_text("", ""));
    assert!(same_text("abc", "abc"));
    assert!(!same_text("abc", "abd"));
    assert!(!same_text("abc", "ab"));
    assert!(!same_text("", "a"));
    assert!(same_text("añb", "añb"));
    assert!(!same_text("añb", "anb"));
}
