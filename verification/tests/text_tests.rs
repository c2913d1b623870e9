use irzean::markdown::{preprocess, to_markdown};
use irzean::text::{chars_of, split_chars, string_of, word_count};

#[test]
fn counts_words_between_any_whitespace() {
    assert_eq!(word_count("  hello   world\tfoo\n"), 3);
    assert_eq!(word_count(""), 0);
    assert_eq!(word_count("   \n\t "), 0);
    assert_eq!(word_count("one"), 1);
    assert_eq!(word_count("a\u{3000}b\u{a0}c\u{2028}d"), 4);
    assert_eq!(word_count("non\u{200b}breaking"), 1);
}

#[test]
fn splits_on_every_separator() {
    let cs = chars_of("a--b-");
    let parts: Vec<String> = split_chars(&cs, '-').iter().map(|p| string_of(p)).collect();
    assert_eq!(parts, vec!["a", "", "b", ""]);
    let cs = chars_of("");
    assert_eq!(split_chars(&cs, '-').len(), 1);
}

#[test]
fn preprocess_repeats_quote_markers() {
    assert_eq!(preprocess("> quote\nplain"), "> quote\n>\nplain");
    assert_eq!(preprocess(">"), ">\n>");
    assert_eq!(preprocess("plain"), "plain");
    assert_eq!(preprocess(""), "");
}

#[test]
fn preprocess_follows_line_endings() {
    assert_eq!(preprocess("a\r\nb\r\n"), "a\nb");
    assert_eq!(preprocess("a\n\nb\n"), "a\n\nb");
    assert_eq!(preprocess("x\r"), "x\r");
    assert_eq!(preprocess("\n"), "");
    assert_eq!(preprocess("a\rb\n> c\r\n"), "a\rb\n> c\n>");
}

#[test]
fn renders_markdown() {
    assert_eq!(to_markdown("hello").unwrap(), "<p>hello</p>\n");
    assert_eq!(to_markdown("**bold**").unwrap(), "<p><strong>bold</strong></p>\n");
    assert_eq!(to_markdown("~~gone~~").unwrap(), "<p><del>gone</del></p>\n");
}

#[test]
fn renders_hard_breaks_and_quotes() {
    assert_eq!(to_markdown("a\nb").unwrap(), "<p>a<br />\nb</p>\n");
    assert_eq!(to_markdown("> hi").unwrap(), "<blockquote>\n<p>hi</p>\n</blockquote>\n");
}

#[test]
fn skips_front_matter_when_rendering() {
    assert_eq!(to_markdown("---\ntitle: x\n---\n\nbody").unwrap(), "<p>body</p>\n");
}
