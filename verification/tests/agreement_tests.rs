use std::path::Path;

use mac_app_remover::order::text_precedes;
use mac_app_remover::paths::{has_bundle_extension, join, stem_of};
use mac_app_remover::text::{to_ascii_lower, trim};
use mac_app_remover::{format_size, sort_by_stem, sort_dedup};

/// The size of `bytes` as floating-point division and formatting give it.
fn by_floating_point(bytes: u64) -> String {
    const KB: u64 = 1024;
    const MB: u64 = KB * 1024;
    const GB: u64 = MB * 1024;
    if bytes >= GB {
        format!("{:.1} GB", bytes as f64 / GB as f64)
    } else if bytes >= MB {
        format!("{:.1} MB", bytes as f64 / MB as f64)
    } else if bytes >= KB {
        format!("{:.1} KB", bytes as f64 / KB as f64)
    } else {
        format!("{} B", bytes)
    }
}

/// A fixed sequence of numbers that covers all 64 bits.
struct Numbers(u64);

impl Numbers {
    fn next(&mut self) -> u64 {
        self.0 ^= self.0 << 13;
        self.0 ^= self.0 >> 7;
        self.0 ^= self.0 << 17;
        self.0
    }
}

const NAMES: [&str; 24] = [
    "Foo.app", "foo.app", "FOO.app", "Foo", ".app", "..", "...", ".hidden", "a.b.app", "Foo.app.",
    "Foo.APP", "Foo.ap", "x.", ".x.app", "Ünï.app", "ünï.app", "a b.app", "A B.app", "Z.app",
    "a", "B", "b.txt", "app", "..app",
];

#[test]
fn format_size_agrees_with_floating_point_on_small_numbers() {
    for bytes in 0..300_000u64 {
        assert_eq!(format_size(bytes), by_floating_point(bytes));
    }
}

#[test]
fn format_size_agrees_with_floating_point_around_the_units() {
    for unit in [1u64 << 10, 1 << 20, 1 << 30, 1 << 40, 1 << 52, 1 << 53, 1 << 54, 1 << 60, 1 << 63] {
        for whole in [1u64, 2, 3, 7, 10, 99, 100, 999, 1000, 1023] {
            let base = unit.saturating_mul(whole);
            for delta in 0..2100u64 {
                let up = base.saturating_add(delta);
                let down = base.saturating_sub(delta);
                assert_eq!(format_size(up), by_floating_point(up));
                assert_eq!(format_size(down), by_floating_point(down));
            }
        }
    }
}

#[test]
fn format_size_agrees_with_floating_point_at_the_halves() {
    // Twentieths of a unit are where a tenth is rounded up or down.
    for unit in [1u64 << 10, 1 << 20, 1 << 30] {
        for twentieth in 20..4000u64 {
            let bytes = unit / 20 * twentieth;
            for delta in 0..60u64 {
                assert_eq!(format_size(bytes + delta), by_floating_point(bytes + delta));
                assert_eq!(format_size(bytes - delta), by_floating_point(bytes - delta));
            }
        }
    }
}

#[test]
fn format_size_agrees_with_floating_point_on_numbers_of_every_length() {
    let mut numbers = Numbers(0x2545_f491_4f6c_dd1d);
    for _ in 0..200_000 {
        let n = numbers.next();
        let bytes = n >> (numbers.next() % 64);
        assert_eq!(format_size(bytes), by_floating_point(bytes));
    }
}

#[test]
fn format_size_agrees_with_floating_point_at_the_top() {
    for delta in 0..5000u64 {
        let bytes = u64::MAX - delta;
        assert_eq!(format_size(bytes), by_floating_point(bytes));
    }
}

#[test]
fn stems_agree_with_the_standard_library() {
    for name in NAMES {
        let path = join("/Applications", name);
        let expected = Path::new(&path).file_stem().map(|s| s.to_str().unwrap()).unwrap_or("");
        assert_eq!(stem_of(&path), expected);
    }
}

#[test]
fn bundle_extensions_agree_with_the_standard_library() {
    for name in NAMES {
        let path = join("/Applications", name);
        let expected = Path::new(&path).extension().and_then(|e| e.to_str()) == Some("app");
        assert_eq!(has_bundle_extension(&path), expected);
    }
}

#[test]
fn joined_paths_agree_with_the_standard_library() {
    for name in NAMES {
        let expected = Path::new("/Users/ana/Applications").join(name);
        assert_eq!(join("/Users/ana/Applications", name), expected.to_str().unwrap());
    }
}

#[test]
fn trimming_agrees_with_the_standard_library() {
    for text in ["", " ", "a", " a", "a ", "\n a b \t", "\u{a0}x\u{2003}", "\u{200b}x\u{200b}",
        "x\u{85}", "\u{1680}\u{2028}\u{2029}\u{202f}\u{205f}\u{3000}y z\r\n"]
    {
        assert_eq!(trim(text), text.trim());
    }
}

#[test]
fn ascii_folding_agrees_with_the_standard_library() {
    let mut code: u32 = 0;
    while code <= 0x10ffff {
        if let Some(c) = char::from_u32(code) {
            assert_eq!(to_ascii_lower(c), c.to_ascii_lowercase());
        }
        code += 1;
    }
}

#[test]
fn the_order_of_texts_agrees_with_the_order_of_strings() {
    for a in NAMES {
        for b in NAMES {
            let x: Vec<char> = a.chars().collect();
            let y: Vec<char> = b.chars().collect();
            assert_eq!(text_precedes(&x, &y), a < b);
        }
    }
}

#[test]
fn sort_dedup_agrees_with_sorting_and_deduplicating() {
    let mut numbers = Numbers(0x9e37_79b9_7f4a_7c15);
    for _ in 0..200 {
        let len = numbers.next() % 40;
        let mut paths: Vec<String> = Vec::new();
        for _ in 0..len {
            let name = NAMES[(numbers.next() % 24) as usize];
            paths.push(join("/Users/ana/Library/Caches", name));
        }
        let mut expected = paths.clone();
        expected.sort();
        expected.dedup();
        assert_eq!(sort_dedup(&paths), expected);
    }
}

#[test]
fn sort_by_stem_agrees_with_a_stable_sort_by_folded_stem() {
    let mut numbers = Numbers(0xd1b5_4a32_d192_ed03);
    for _ in 0..200 {
        let len = numbers.next() % 40;
        let mut paths: Vec<String> = Vec::new();
        for _ in 0..len {
            let name = NAMES[(numbers.next() % 24) as usize];
            let dir = if numbers.next() % 2 == 0 { "/Applications" } else { "/Users/ana/Applications" };
            paths.push(join(dir, name));
        }
        let mut expected = paths.clone();
        expected.sort_by_key(|p| {
            let stem = Path::new(p).file_stem().map(|s| s.to_str().unwrap()).unwrap_or("");
            stem.to_ascii_lowercase()
        });
        assert_eq!(sort_by_stem(&paths), expected);
    }
}
