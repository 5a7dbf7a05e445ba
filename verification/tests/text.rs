use torrent::text::{chars_of, same_text, text_less_eq, trim};

#[test]
fn trim_removes_unicode_white_space_at_both_ends() {
    assert_eq!(trim("  \t\n a b \u{3000}\u{a0}"), "a b");
    assert_eq!(trim("\u{2003}x"), "x");
    assert_eq!(trim(" \n "), "");
    assert_eq!(trim("제목"), "제목");
}

#[test]
fn text_order_is_the_string_order() {
    let pairs = [("a", "b"), ("ab", "a"), ("", "x"), ("가", "z"), ("same", "same"), ("B", "a")];
    for (x, y) in pairs.iter() {
        assert_eq!(text_less_eq(x, y), x <= y);
        assert_eq!(text_less_eq(y, x), y <= x);
    }
    assert!(same_text("동상", "동상"));
    assert!(!same_text("동상", "동상이"));
}

#[test]
fn chars_of_gives_the_characters_in_order() {
    assert_eq!(chars_of("가a\n"), vec!['가', 'a', '\n']);
    assert!(chars_of("").is_empty());
}
