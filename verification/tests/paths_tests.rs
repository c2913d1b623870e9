use irzean::paths::{file_name_of, is_markdown_file, slugify_path, tag_url_for, writing_url_for, writing_url_from};
use irzean::date::DateTriple;
use irzean::fossil::WritingMeta;

fn meta(path: &str) -> WritingMeta {
    WritingMeta {
        rel_path: path.to_string(),
        title: "T".to_string(),
        date_authored: DateTriple { year: 2024, month: 1, day: 1 },
        tags: vec![],
        description: None,
        is_nsfw: false,
        is_hidden: false,
        previous: None,
        next: None,
    }
}

#[test]
fn slugifies_each_named_component() {
    assert_eq!(slugify_path("posts/Hello World.md"), "posts/hello-world");
    assert_eq!(slugify_path("Hello World.md"), "hello-world");
    assert_eq!(slugify_path("a//b/"), "a/b");
    assert_eq!(slugify_path("Notes/Ünïcode Tést.md"), "notes/unicode-test");
}

#[test]
fn drops_only_lowercase_md_suffixes() {
    assert_eq!(slugify_path("a/b.MD"), "a/b-md");
    assert_eq!(slugify_path("x.md.md"), "x");
    assert_eq!(slugify_path("x.txt"), "x-txt");
    assert_eq!(slugify_path(".md"), "md");
}

#[test]
fn counts_root_and_current_dir_components() {
    assert_eq!(slugify_path("/abs/x.md"), "/abs/x");
    assert_eq!(slugify_path("./a.md"), "/a");
    assert_eq!(slugify_path("../a.md"), "/a");
    assert_eq!(slugify_path("a/./b.md"), "a/b");
    assert_eq!(slugify_path(""), "");
}

#[test]
fn finds_file_names() {
    assert_eq!(file_name_of("html/index.jinja").map(|v| v.into_iter().collect::<String>()), Some("index.jinja".to_string()));
    assert_eq!(file_name_of("html/dir/").map(|v| v.into_iter().collect::<String>()), Some("dir".to_string()));
    assert_eq!(file_name_of("a/.."), None);
    assert_eq!(file_name_of("/"), None);
    assert_eq!(file_name_of(""), None);
}

#[test]
fn recognises_markdown_files() {
    assert!(is_markdown_file("dir/Notes.Md"));
    assert!(is_markdown_file("x.md"));
    assert!(!is_markdown_file("dir/x.txt"));
    assert!(!is_markdown_file("dir/.md"));
    assert!(!is_markdown_file("md"));
    assert!(!is_markdown_file("a/.."));
}

#[test]
fn builds_addresses() {
    assert_eq!(tag_url_for("http://x", "rust"), "http://x/tag/rust");
    assert_eq!(writing_url_from("http://x", "a/b"), "http://x/writing/a/b");
    assert_eq!(writing_url_for("http://x", &meta("Posts/My Post.md")), "http://x/writing/posts/my-post");
}
