use ppick::app::{App, Options};
use ppick::menu::SearchDirection;

fn lines(items: &[&str]) -> Vec<String> {
    items.iter().map(|s| s.to_string()).collect()
}

fn options() -> Options {
    Options {
        no_wrap: false,
        no_auto_accept: false,
        unrestricted_input: false,
    }
}

#[test]
fn typing_full_duplicate_never_auto_accepts() {
    let mut app = App::new(options(), &lines(&["aaa", "aaa", "bbb"]));
    assert!(app.input_type('a'));
    assert_eq!(app.exit_value, None);
    assert!(app.input_type('a'));
    assert_eq!(app.exit_value, None);
    assert!(app.input_type('a'));
    assert_eq!(app.exit_value, None);
    assert_eq!(app.input, "aaa");
}

#[test]
fn typing_unique_prefix_auto_accepts() {
    let mut app = App::new(options(), &lines(&["abc", "abd"]));
    assert!(app.input_type('a'));
    assert!(app.input_type('b'));
    assert_eq!(app.exit_value, None);
    assert!(app.input_type('c'));
    assert_eq!(app.exit_value, Some(Some("abc".to_string())));
    assert!(!app.input_type('x'));
    assert_eq!(app.input, "abc");
}

#[test]
fn auto_accept_disabled() {
    let mut opts = options();
    opts.no_auto_accept = true;
    let mut app = App::new(opts, &lines(&["abc", "abd"]));
    for ch in "abd".chars() {
        assert!(app.input_type(ch));
    }
    assert_eq!(app.exit_value, None);
    assert_eq!(app.menu.selection(), Some(&1));
    assert!(app.try_manual_accept());
    assert_eq!(app.exit_value, Some(Some("abd".to_string())));
}

#[test]
fn single_line_accepts_on_first_character() {
    let mut app = App::new(options(), &lines(&["only"]));
    assert!(app.input_type('o'));
    assert_eq!(app.exit_value, Some(Some("only".to_string())));
}

#[test]
fn restricted_input_rejects_unmatched_character() {
    let mut app = App::new(options(), &lines(&["abc", "abd"]));
    assert!(!app.input_type('z'));
    assert_eq!(app.input, "");
    assert_eq!(app.menu.selection(), Some(&0));
}

#[test]
fn unrestricted_input_clears_and_restores_selection() {
    let mut opts = options();
    opts.unrestricted_input = true;
    let mut app = App::new(opts, &lines(&["abc", "abd"]));
    assert!(app.input_type('z'));
    assert_eq!(app.input, "z");
    assert_eq!(app.menu.selection(), None);
    assert!(!app.try_manual_accept());
    assert!(!app.move_selection(SearchDirection::Forwards));
    assert!(app.input_delete_char());
    assert_eq!(app.input, "");
    assert_eq!(app.menu.selection(), Some(&0));
}

#[test]
fn delete_char_on_empty_input_is_refused() {
    let mut app = App::new(options(), &lines(&["abc", "abd"]));
    assert!(!app.input_delete_char());
    assert!(!app.input_delete_word());
    assert_eq!(app.input, "");
}

#[test]
fn delete_word_in_session() {
    let mut opts = options();
    opts.no_auto_accept = true;
    let mut app = App::new(opts, &lines(&["ab cd", "ab ce"]));
    for ch in "ab c".chars() {
        assert!(app.input_type(ch));
    }
    assert!(app.input_delete_word());
    assert_eq!(app.input, "ab ");
    assert!(app.input_delete_word());
    assert_eq!(app.input, "");
}

#[test]
fn move_in_session_honours_no_wrap() {
    let mut opts = options();
    opts.no_wrap = true;
    let mut app = App::new(opts, &lines(&["a", "b", "c"]));
    assert!(!app.move_selection(SearchDirection::Backwards));
    assert_eq!(app.menu.selection(), Some(&0));
    assert!(app.move_selection(SearchDirection::Forwards));
    assert_eq!(app.menu.selection(), Some(&1));
}

#[test]
fn cancel_ends_session() {
    let mut app = App::new(options(), &lines(&["a", "b"]));
    app.cancel();
    assert_eq!(app.exit_value, Some(None));
    assert!(!app.input_type('a'));
    assert!(!app.try_manual_accept());
    assert_eq!(app.exit_value, Some(None));
}

#[test]
fn manual_accept_returns_selected_body() {
    let mut app = App::new(options(), &lines(&["", "x"]));
    assert!(app.try_manual_accept());
    assert_eq!(app.exit_value, Some(Some(String::new())));
}

#[test]
fn try_auto_accept_directly() {
    let mut app = App::new(options(), &lines(&["ab", "cd"]));
    assert!(!app.try_auto_accept());
    app.input = "c".to_string();
    assert!(app.try_auto_accept());
    assert_eq!(app.exit_value, Some(Some("cd".to_string())));
}
