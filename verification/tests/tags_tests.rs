use irzean::cache::{tag_page_writings, writings_tagged, WritingCache};
use irzean::date::DateTriple;
use irzean::err::Error;
use irzean::fossil::{Writing, WritingMeta};
use irzean::tags::{tag_list, TagCount};

fn writing(path: &str, tags: &[&str], nsfw: bool, hidden: bool) -> Writing {
    Writing {
        meta: WritingMeta {
            rel_path: path.to_string(),
            title: path.to_string(),
            date_authored: DateTriple { year: 2024, month: 1, day: 1 },
            tags: tags.iter().map(|t| t.to_string()).collect(),
            description: None,
            is_nsfw: nsfw,
            is_hidden: hidden,
            previous: None,
            next: None,
        },
        content: String::new(),
    }
}

fn count(list: &[TagCount], name: &str) -> Option<u64> {
    let found: Vec<u64> = list.iter().filter(|t| t.name == name).map(|t| t.count).collect();
    assert!(found.len() <= 1);
    found.first().copied()
}

fn sample() -> Vec<Writing> {
    vec![
        writing("a.md", &["rust", "web"], false, false),
        writing("b.md", &["rust", "rust"], true, false),
        writing("c.md", &["hidden-tag", "rust"], false, true),
        writing("d.md", &["Web"], false, false),
    ]
}

#[test]
fn counts_tags_of_visible_writings() {
    let list = tag_list(&sample(), false);
    assert_eq!(count(&list, "rust"), Some(3));
    assert_eq!(count(&list, "web"), Some(1));
    assert_eq!(count(&list, "Web"), Some(1));
    assert_eq!(count(&list, "hidden-tag"), None);
    assert_eq!(count(&list, "nsfw"), Some(1));
    assert_eq!(count(&list, "sfw"), Some(2));
    assert_eq!(list.len(), 5);
}

#[test]
fn parental_mode_has_no_nsfw_count() {
    let list = tag_list(&sample(), true);
    assert_eq!(count(&list, "nsfw"), None);
    assert_eq!(count(&list, "sfw"), Some(2));
}

#[test]
fn sfw_and_nsfw_counts_cover_visible_writings() {
    let ws = sample();
    let list = tag_list(&ws, false);
    let visible = ws.iter().filter(|w| !w.meta.is_hidden).count() as u64;
    assert_eq!(count(&list, "nsfw").unwrap() + count(&list, "sfw").unwrap(), visible);
}

#[test]
fn a_tag_named_nsfw_is_overridden_by_the_flag() {
    let ws = vec![writing("a.md", &["nsfw"], false, false)];
    assert_eq!(count(&tag_list(&ws, false), "nsfw"), Some(0));
    assert_eq!(count(&tag_list(&ws, true), "nsfw"), Some(1));
}

#[test]
fn cache_keeps_lowercased_tags_once() {
    let cache = WritingCache::new(vec![
        writing("a.md", &["Rust", "web"], false, false),
        writing("b.md", &["rust", "GO"], false, true),
    ]);
    assert_eq!(cache.tags, vec!["rust".to_string(), "web".to_string(), "go".to_string()]);
    assert_eq!(cache.writings.len(), 2);
    let metas = cache.metas();
    assert_eq!(metas.len(), 2);
    assert_eq!(metas[1].rel_path, "b.md");
}

#[test]
fn cache_finds_writings_by_slug() {
    let cache = WritingCache::new(vec![
        writing("Posts/First Post.md", &[], false, false),
        writing("posts/first-post.md", &[], false, false),
        writing("other.md", &[], false, false),
    ]);
    assert_eq!(cache.get_writing("posts/first-post").unwrap().meta.rel_path, "Posts/First Post.md");
    assert_eq!(cache.get_writing("other").unwrap().meta.rel_path, "other.md");
    assert!(cache.get_writing("missing").is_none());
    for w in &cache.writings {
        let slug = irzean::paths::slugify_path(&w.meta.rel_path);
        assert!(cache.get_writing(&slug).is_some());
    }
}

#[test]
fn tag_pages_pick_writings() {
    let metas: Vec<WritingMeta> = sample().into_iter().map(|w| w.meta).collect();
    let names = |v: Vec<WritingMeta>| v.into_iter().map(|m| m.rel_path).collect::<Vec<_>>();
    assert_eq!(names(writings_tagged(metas.clone(), "nsfw")), vec!["b.md"]);
    assert_eq!(names(writings_tagged(metas.clone(), "sfw")), vec!["a.md", "c.md", "d.md"]);
    assert_eq!(names(writings_tagged(metas.clone(), "RUST")), vec!["a.md", "b.md", "c.md"]);
    assert_eq!(names(writings_tagged(metas.clone(), "web")), vec!["a.md"]);
}

#[test]
fn nsfw_and_sfw_pages_split_the_writings() {
    let metas: Vec<WritingMeta> = sample().into_iter().map(|w| w.meta).collect();
    let n = writings_tagged(metas.clone(), "nsfw").len();
    let s = writings_tagged(metas.clone(), "sfw").len();
    assert_eq!(n + s, metas.len());
}

#[test]
fn unknown_tag_page_is_an_error() {
    let ws = sample();
    let counts = tag_list(&ws, false);
    let metas: Vec<WritingMeta> = ws.into_iter().map(|w| w.meta).collect();
    match tag_page_writings(&counts, metas.clone(), "nope") {
        Err(Error::Internal(m)) => assert_eq!(m, "No tag with name `nope` found"),
        _ => panic!("expected an error"),
    }
    assert_eq!(tag_page_writings(&counts, metas, "web").ok().unwrap().len(), 1);
}
