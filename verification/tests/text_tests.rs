use mac_app_remover::order::text_precedes;
use mac_app_remover::paths::{has_bundle_extension, join, stem_of};
use mac_app_remover::sort_dedup;
use mac_app_remover::text::{
    contains, ends_with, is_white_space_char, same_text, to_ascii_lower, to_ascii_lowered,
    to_chars, trim,
};

fn chars(s: &str) -> Vec<char> {
    s.chars().collect()
}

fn strings(items: &[&str]) -> Vec<String> {
    items.iter().map(|s| s.to_string()).collect()
}

#[test]
fn to_chars_gives_the_characters_in_order() {
    assert_eq!(to_chars("aé b"), vec!['a', 'é', ' ', 'b']);
    assert_eq!(to_chars(""), Vec::<char>::new());
}

#[test]
fn same_text_compares_every_character() {
    assert!(same_text(&chars("abc"), &chars("abc")));
    assert!(!same_text(&chars("abc"), &chars("abd")));
    assert!(!same_text(&chars("abc"), &chars("ab")));
    assert!(same_text(&chars(""), &chars("")));
}

#[test]
fn contains_finds_a_part_anywhere() {
    assert!(contains(&chars("Google Chrome"), &chars("Chrome")));
    assert!(contains(&chars("Google Chrome"), &chars("Google")));
    assert!(contains(&chars("Google Chrome"), &chars("le Ch")));
    assert!(!contains(&chars("Google Chrome"), &chars("chrome")));
    assert!(!contains(&chars("ab"), &chars("abc")));
}

#[test]
fn contains_the_empty_text_always() {
    assert!(contains(&chars("anything"), &chars("")));
    assert!(contains(&chars(""), &chars("")));
}

#[test]
fn ends_with_looks_at_the_end_only() {
    assert!(ends_with(&chars("Foo.app"), &chars(".app")));
    assert!(!ends_with(&chars("Foo.app.bak"), &chars(".app")));
    assert!(!ends_with(&chars("app"), &chars(".app")));
    assert!(ends_with(&chars("x"), &chars("")));
}

#[test]
fn ascii_lower_changes_capital_ascii_letters_only() {
    assert_eq!(to_ascii_lower('A'), 'a');
    assert_eq!(to_ascii_lower('Z'), 'z');
    assert_eq!(to_ascii_lower('a'), 'a');
    assert_eq!(to_ascii_lower('@'), '@');
    assert_eq!(to_ascii_lower('['), '[');
    assert_eq!(to_ascii_lower('É'), 'É');
    assert_eq!(to_ascii_lowered(&chars("Safari ÉTÉ 9")), chars("safari ÉtÉ 9"));
}

#[test]
fn text_order_goes_by_code_point_and_then_by_length() {
    assert!(text_precedes(&chars("a"), &chars("b")));
    assert!(!text_precedes(&chars("b"), &chars("a")));
    assert!(text_precedes(&chars("ab"), &chars("abc")));
    assert!(!text_precedes(&chars("abc"), &chars("ab")));
    assert!(!text_precedes(&chars("abc"), &chars("abc")));
    assert!(text_precedes(&chars("B"), &chars("a")));
    assert!(text_precedes(&chars(""), &chars("a")));
    assert!(text_precedes(&chars("a-b"), &chars("a/b")));
    assert!(text_precedes(&chars("z"), &chars("é")));
}

#[test]
fn white_space_is_what_unicode_says() {
    for c in [' ', '\t', '\n', '\r', '\u{b}', '\u{c}', '\u{85}', '\u{a0}', '\u{1680}', '\u{2000}',
        '\u{200a}', '\u{2028}', '\u{2029}', '\u{202f}', '\u{205f}', '\u{3000}']
    {
        assert!(is_white_space_char(c));
        assert!(c.is_whitespace());
    }
    for c in ['a', '0', '\u{200b}', '\u{180e}', '\u{feff}', '\u{8}', '\u{e}'] {
        assert!(!is_white_space_char(c));
        assert!(!c.is_whitespace());
    }
}

#[test]
fn white_space_agrees_with_the_standard_library_everywhere() {
    let mut code: u32 = 0;
    while code <= 0x10ffff {
        if let Some(c) = char::from_u32(code) {
            assert_eq!(is_white_space_char(c), c.is_whitespace());
        }
        code += 1;
    }
}

#[test]
fn trim_cuts_both_ends_and_nothing_inside() {
    assert_eq!(trim("  com.example.foo\n"), "com.example.foo");
    assert_eq!(trim("a b"), "a b");
    assert_eq!(trim("\t a  b \r\n"), "a  b");
    assert_eq!(trim("\u{a0}x\u{3000}"), "x");
}

#[test]
fn trim_of_white_space_alone_is_empty() {
    assert_eq!(trim(""), "");
    assert_eq!(trim(" \n\t "), "");
}

#[test]
fn join_puts_a_slash_between() {
    assert_eq!(join("/Applications", "Foo.app"), "/Applications/Foo.app");
    assert_eq!(join("", "x"), "/x");
}

#[test]
fn stem_is_the_file_name_up_to_the_last_dot() {
    assert_eq!(stem_of("/Applications/Foo.app"), "Foo");
    assert_eq!(stem_of("/Applications/Google Chrome.app"), "Google Chrome");
    assert_eq!(stem_of("/a/b.c/archive.tar.gz"), "archive.tar");
    assert_eq!(stem_of("plain"), "plain");
    assert_eq!(stem_of("/dir/.hidden"), ".hidden");
    assert_eq!(stem_of("/dir/.."), "");
    assert_eq!(stem_of("/dir/name."), "name");
}

#[test]
fn bundle_extension_is_exactly_app() {
    assert!(has_bundle_extension("/Applications/Foo.app"));
    assert!(has_bundle_extension("Foo.app"));
    assert!(has_bundle_extension("/Applications/a.b.app"));
    assert!(!has_bundle_extension("/Applications/Foo.App"));
    assert!(!has_bundle_extension("/Applications/Foo.APP"));
    assert!(!has_bundle_extension("/Applications/Foo.app2"));
    assert!(!has_bundle_extension("/Applications/Foo.xapp"));
    assert!(!has_bundle_extension("/Applications/.app"));
    assert!(!has_bundle_extension("/Applications/app"));
    assert!(!has_bundle_extension("/Applications/Foo.app/Contents"));
}

#[test]
fn sort_dedup_orders_and_removes_repetitions() {
    let sorted = sort_dedup(&strings(&["b", "a", "c", "a", "b", "ab", ""]));
    assert_eq!(sorted, strings(&["", "a", "ab", "b", "c"]));
}

#[test]
fn sort_dedup_twice_changes_nothing_more() {
    let once = sort_dedup(&strings(&["/x/2", "/x/10", "/x/1", "/x/2"]));
    assert_eq!(once, strings(&["/x/1", "/x/10", "/x/2"]));
    assert_eq!(sort_dedup(&once), once);
}

#[test]
fn sort_dedup_of_nothing_is_nothing() {
    assert_eq!(sort_dedup(&Vec::new()), Vec::<String>::new());
}
