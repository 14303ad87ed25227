use arkcursor::text::{path_tail, str_contains, str_eq, str_less, trim};

#[test]
fn ordering_of_strings() {
    assert!(str_less("a", "b"));
    assert!(str_less("ab", "b"));
    assert!(str_less("a", "ab"));
    assert!(str_less("", "a"));
    assert!(!str_less("a", "a"));
    assert!(!str_less("b", "ab"));
    assert!(str_less("Z", "a"));
}

#[test]
fn substring_search() {
    assert!(str_contains("明日方舟 - main", "明日方舟"));
    assert!(str_contains("hello world", "o w"));
    assert!(str_contains("abc", ""));
    assert!(!str_contains("abc", "abcd"));
    assert!(!str_contains("abc", "ac"));
    assert!(str_contains("aab", "ab"));
}

#[test]
fn string_equality() {
    assert!(str_eq("abc", "abc"));
    assert!(!str_eq("abc", "abd"));
    assert!(!str_eq("abc", "ab"));
}

#[test]
fn last_path_component() {
    assert_eq!(path_tail("C:\\Games\\Ark\\Arknights.exe", true), "Arknights.exe");
    assert_eq!(path_tail("/usr/bin/game", true), "game");
    assert_eq!(path_tail("/usr/bin/game", false), "/usr/bin/game");
    assert_eq!(path_tail("C:\\cur\\a.cur", false), "a.cur");
    assert_eq!(path_tail("plain", true), "plain");
    assert_eq!(path_tail("dir\\", false), "");
}

#[test]
fn trimming_white_space() {
    assert_eq!(trim("  Arknights.EXE \t\n"), "Arknights.EXE");
    assert_eq!(trim("\u{3000}\u{660e}\u{65e5} \u{65b9}\u{821f}\u{2003}"), "\u{660e}\u{65e5} \u{65b9}\u{821f}");
    assert_eq!(trim(" \u{a0}\u{2028} "), "");
    assert_eq!(trim(""), "");
    assert_eq!(trim("x"), "x");
    assert_eq!(trim("\u{200b}x"), "\u{200b}x");
    for s in ["a b", " \u{85}a\u{1680}", "\u{205f}\u{202f}q\u{2029}", "\u{200a}z\u{0b}"] {
        assert_eq!(trim(s), s.trim());
    }
}
