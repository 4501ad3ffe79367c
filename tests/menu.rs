use ppick::menu::{generate_entries, Entry, Menu, SearchDirection};

fn entry(body: &str, prefix_len: usize, auto_accept: bool) -> Entry {
    Entry {
        body: body.to_string(),
        prefix_len,
        auto_accept,
    }
}

fn lines(items: &[&str]) -> Vec<String> {
    items.iter().map(|s| s.to_string()).collect()
}

#[test]
fn test_generate_entries_empty() {
    assert_eq!(generate_entries(&[]), vec![]);
}

#[test]
fn test_generate_entries_simple() {
    let lines = ["aaa", "bbb", "ccc"].map(str::to_string);
    assert_eq!(
        generate_entries(&lines),
        vec![entry("aaa", 1, true), entry("bbb", 1, true), entry("ccc", 1, true)]
    );
}

#[test]
fn test_generate_entries_complex() {
    let lines = ["abcddd", "abce", "abb", "cc", "ccd"].map(str::to_string);
    assert_eq!(
        generate_entries(&lines),
        vec![
            entry("abcddd", 4, true),
            entry("abce", 4, true),
            entry("abb", 3, true),
            entry("cc", 2, false),
            entry("ccd", 3, true),
        ]
    );
}

#[test]
fn test_generate_entries_repeated() {
    let lines = ["aaa", "aaa", "bbb", "cc", "cc"].map(str::to_string);
    assert_eq!(
        generate_entries(&lines),
        vec![
            entry("aaa", 3, false),
            entry("aaa", 3, false),
            entry("bbb", 1, true),
            entry("cc", 2, false),
            entry("cc", 2, false),
        ]
    );
}

#[test]
fn generate_entries_single_line() {
    assert_eq!(generate_entries(&lines(&["abc"])), vec![entry("abc", 0, true)]);
}

#[test]
fn generate_entries_empty_line_among_others() {
    assert_eq!(
        generate_entries(&lines(&["", "a"])),
        vec![entry("", 0, false), entry("a", 1, true)]
    );
}

#[test]
fn generate_entries_keeps_order_and_count() {
    let input = lines(&["zeta", "alpha", "zebra", "al"]);
    let entries = generate_entries(&input);
    assert_eq!(entries.len(), input.len());
    for (e, l) in entries.iter().zip(input.iter()) {
        assert_eq!(&e.body, l);
    }
    assert_eq!(entries[0], entry("zeta", 3, true));
    assert_eq!(entries[3], entry("al", 2, false));
}

#[test]
fn generate_entries_multibyte_characters() {
    assert_eq!(
        generate_entries(&lines(&["éa", "éb"])),
        vec![entry("éa", 2, true), entry("éb", 2, true)]
    );
}

#[test]
fn entry_prefix_counts_characters() {
    let e = entry("éab", 2, true);
    assert_eq!(e.prefix(), "éa");
    assert_eq!(entry("abc", 0, true).prefix(), "");
}

#[test]
fn entry_selectable_and_acceptable() {
    let e = entry("abce", 4, true);
    assert!(e.is_selectable(""));
    assert!(e.is_selectable("abc"));
    assert!(!e.is_selectable("abd"));
    assert!(!e.is_acceptable("abc"));
    assert!(e.is_acceptable("abce"));
    assert!(!entry("cc", 2, false).is_acceptable("cc"));
}

#[test]
fn menu_accessors() {
    let menu = Menu::from_lines(&lines(&["aaa", "bbb"]));
    assert_eq!(menu.len(), 2);
    assert_eq!(menu.entries().len(), 2);
    assert_eq!(menu.selection(), Some(&0));
    assert!(menu.has_selectable("b"));
    assert!(!menu.has_selectable("c"));
    assert_eq!(menu.manual_accept().map(|e| e.body.clone()), Some("aaa".to_string()));
}

#[test]
fn menu_find_acceptable() {
    let menu = Menu::from_lines(&lines(&["abc", "abd", "x"]));
    assert_eq!(menu.find_acceptable("ab"), None);
    assert_eq!(menu.find_acceptable("abd").map(|e| e.body.as_str()), Some("abd"));
    assert_eq!(menu.find_acceptable("x").map(|e| e.body.as_str()), Some("x"));
    assert_eq!(menu.find_acceptable("q"), None);
}

#[test]
fn update_selection_prefers_forward_match() {
    let mut menu = Menu::from_lines(&lines(&["ab", "b", "ac", "ad"]));
    assert!(menu.move_selection("", SearchDirection::Forwards, true));
    assert_eq!(menu.selection(), Some(&1));
    assert!(menu.update_selection("a"));
    assert_eq!(menu.selection(), Some(&2));
}

#[test]
fn update_selection_wraps_to_nearest_before() {
    let mut menu = Menu::from_lines(&lines(&["ab", "ac", "b", "c"]));
    assert!(menu.move_selection("", SearchDirection::Backwards, true));
    assert_eq!(menu.selection(), Some(&3));
    assert!(menu.update_selection("a"));
    assert_eq!(menu.selection(), Some(&1));
}

#[test]
fn update_selection_to_none_and_unchanged() {
    let mut menu = Menu::from_lines(&lines(&["ab", "ac"]));
    assert!(!menu.update_selection("a"));
    assert_eq!(menu.selection(), Some(&0));
    assert!(menu.update_selection("z"));
    assert_eq!(menu.selection(), None);
    assert!(menu.update_selection("ac"));
    assert_eq!(menu.selection(), Some(&1));
}

#[test]
fn move_selection_full_cycle_returns() {
    let mut menu = Menu::from_lines(&lines(&["a", "b", "c", "d"]));
    assert!(menu.move_selection("", SearchDirection::Forwards, true));
    let start = *menu.selection().unwrap();
    for _ in 0..menu.len() {
        assert!(menu.move_selection("", SearchDirection::Forwards, true));
    }
    assert_eq!(menu.selection(), Some(&start));
    for _ in 0..menu.len() {
        assert!(menu.move_selection("", SearchDirection::Backwards, true));
    }
    assert_eq!(menu.selection(), Some(&start));
}

#[test]
fn move_selection_backward_from_first_without_wrap_aborts() {
    let mut menu = Menu::from_lines(&lines(&["a", "b", "c"]));
    assert!(!menu.move_selection("", SearchDirection::Backwards, false));
    assert_eq!(menu.selection(), Some(&0));
}

#[test]
fn move_selection_skips_unselectable() {
    let mut menu = Menu::from_lines(&lines(&["xa", "y", "xb", "z", "xc"]));
    assert!(menu.move_selection("x", SearchDirection::Forwards, false));
    assert_eq!(menu.selection(), Some(&2));
    assert!(menu.move_selection("x", SearchDirection::Forwards, false));
    assert_eq!(menu.selection(), Some(&4));
    assert!(!menu.move_selection("x", SearchDirection::Forwards, false));
    assert_eq!(menu.selection(), Some(&4));
    assert!(menu.move_selection("x", SearchDirection::Forwards, true));
    assert_eq!(menu.selection(), Some(&0));
}

#[test]
fn move_selection_with_nothing_selectable_aborts() {
    let mut menu = Menu::from_lines(&lines(&["a", "b"]));
    assert!(!menu.move_selection("q", SearchDirection::Forwards, true));
    assert_eq!(menu.selection(), Some(&0));
}

#[test]
fn segment_bounds_split_body() {
    let e = entry("abcdef", 4, true);
    assert_eq!(e.segment_bounds("ab"), Some((2, 4)));
    assert_eq!(e.segment_bounds("abcde"), Some((5, 5)));
    assert_eq!(e.segment_bounds(""), Some((0, 4)));
    assert_eq!(e.segment_bounds("x"), None);
}
