use ppick::string::{chars_of, delete_word};

#[test]
fn test_delete_word() {
    assert_eq!(delete_word("aaa  bb ccc"), "aaa  bb ".to_string());
    assert_eq!(delete_word("aaa  bb ccc   "), "aaa  bb ".to_string());
    assert_eq!(delete_word("   "), String::new());
    assert_eq!(delete_word("#.- {}()   "), "#.- ".to_string());
}

#[test]
fn delete_word_edge_cases() {
    assert_eq!(delete_word(""), "");
    assert_eq!(delete_word("word"), "");
    assert_eq!(delete_word(" word"), " ");
    assert_eq!(delete_word("a\tb"), "");
    assert_eq!(delete_word("a b\t\n"), "a ");
    assert_eq!(delete_word("é ü"), "é ");
}

#[test]
fn chars_of_splits_characters() {
    assert_eq!(chars_of("aé b"), vec!['a', 'é', ' ', 'b']);
    assert_eq!(chars_of(""), Vec::<char>::new());
}
