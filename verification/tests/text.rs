use tssh::order::{compare, Order};
use tssh::text::{chars_of, contains_text, is_space_char, same_text};

#[test]
fn is_space_char_agrees_with_is_whitespace() {
    for code in 0u32..=0x10FFFF {
        if let Some(c) = char::from_u32(code) {
            assert_eq!(is_space_char(c), c.is_whitespace(), "for U+{:04X}", code);
        }
    }
}

#[test]
fn some_spaces_and_some_others() {
    for c in [' ', '\t', '\n', '\r', '\u{b}', '\u{c}', '\u{85}', '\u{a0}', '\u{3000}', '\u{2028}'] {
        assert!(is_space_char(c));
    }
    for c in ['a', '#', '.', '\u{0}', '\u{8}', '\u{e}', '\u{200b}', '\u{feff}', '\u{180e}'] {
        assert!(!is_space_char(c));
    }
}

#[test]
fn chars_of_lists_the_characters() {
    assert_eq!(chars_of(""), Vec::<char>::new());
    assert_eq!(chars_of("a b"), vec!['a', ' ', 'b']);
    assert_eq!(chars_of("é日"), vec!['é', '日']);
}

#[test]
fn compare_orders_texts_lexically() {
    assert_eq!(compare("dev", "prod"), Order::Before);
    assert_eq!(compare("prod", "dev"), Order::After);
    assert_eq!(compare("prod", "prod"), Order::Same);
    assert_eq!(compare("", ""), Order::Same);
    assert_eq!(compare("", "a"), Order::Before);
    assert_eq!(compare("a", ""), Order::After);
    assert_eq!(compare("web", "web1"), Order::Before);
    assert_eq!(compare("web10", "web2"), Order::Before);
    assert_eq!(compare("Zeta", "alpha"), Order::Before);
}

#[test]
fn compare_agrees_with_the_order_of_str() {
    let samples = [
        "", "a", "A", "ab", "abc", "abd", "b", "é", "e", "z", "日本", "日", "\u{10000}", "\u{ffff}",
        "\u{7f}", "\u{80}", "\u{7ff}", "\u{800}", "a\u{10ffff}", "a\u{0}", "prod", "dev", "Exit",
    ];
    for a in samples {
        for b in samples {
            let expected = match a.cmp(b) {
                std::cmp::Ordering::Less => Order::Before,
                std::cmp::Ordering::Equal => Order::Same,
                std::cmp::Ordering::Greater => Order::After,
            };
            assert_eq!(compare(a, b), expected, "for {:?} and {:?}", a, b);
        }
    }
}

#[test]
fn same_text_is_equality() {
    assert!(same_text("", ""));
    assert!(same_text("web1", "web1"));
    assert!(!same_text("web1", "web"));
    assert!(!same_text("web1", "Web1"));
    assert!(!same_text("", " "));
}

#[test]
fn contains_text_looks_for_the_whole_name() {
    let names = vec!["web1".to_string(), "db".to_string()];
    assert!(contains_text(&names, "web1"));
    assert!(contains_text(&names, "db"));
    assert!(!contains_text(&names, "web"));
    assert!(!contains_text(&names, ""));
    assert!(!contains_text(&Vec::new(), "web1"));
}
