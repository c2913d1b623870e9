use irzean::date::DateTriple;
use irzean::err::Error as SiteError;
use irzean::fossil::{Writing, WritingMeta};
use irzean::search::{empty_string_as_none, prepare_query, rewrite_query};
use irzean::tags::TagCount;
use irzean::templates::{Error, List, Reader, Search, SpecificTag, Tags};

fn meta(path: &str) -> WritingMeta {
    WritingMeta {
        rel_path: path.to_string(),
        title: "A Title".to_string(),
        date_authored: DateTriple { year: 2024, month: 2, day: 3 },
        tags: vec!["rust".to_string(), "web".to_string()],
        description: Some("About things".to_string()),
        is_nsfw: false,
        is_hidden: false,
        previous: None,
        next: Some("next.md".to_string()),
    }
}

#[test]
fn empty_parameters_count_as_absent() {
    assert_eq!(empty_string_as_none(None), None);
    assert_eq!(empty_string_as_none(Some(String::new())), None);
    assert_eq!(empty_string_as_none(Some("q".to_string())), Some("q".to_string()));
}

#[test]
fn rewrites_tag_words() {
    assert_eq!(rewrite_query("hello world"), "hello world");
    assert_eq!(rewrite_query("tag:rust  async"), "tag:/tag/rust async ");
    assert_eq!(rewrite_query("a tag:b"), "a tag:/tag/b ");
    assert_eq!(rewrite_query("xtag:y"), "xtag:y ");
    assert_eq!(rewrite_query("tag:"), "tag:/tag/ ");
}

#[test]
fn tag_queries_name_index_facets() {
    let ws = vec![Writing { meta: meta("a.md"), content: String::new() }];
    let docs = irzean::index::index_documents(&ws, false).ok().unwrap();
    assert_eq!(rewrite_query("tag:rust"), format!("tag:{} ", docs[0].facets[0]));
}

#[test]
fn decodes_queries() {
    let (shown, query) = prepare_query("tag%3Arust%20async").ok().unwrap();
    assert_eq!(shown, "tag:rust async");
    assert_eq!(query, "tag:/tag/rust async ");
    let (shown, query) = prepare_query("plain+text").ok().unwrap();
    assert_eq!(shown, "plain+text");
    assert_eq!(query, "plain+text");
    match prepare_query("%FF") {
        Err(SiteError::Internal(m)) => assert_eq!(m, "oops"),
        _ => panic!("expected a decoding error"),
    }
}

#[test]
fn keeps_malformed_escapes() {
    assert_eq!(prepare_query("%zz%4z%A").ok().unwrap().0, "%zz%4z%A");
    assert_eq!(prepare_query("caf%C3%A9%2").ok().unwrap().0, "café%2");
}

#[test]
fn error_pages() {
    let e = Error::not_found("http://x", "/nope");
    assert_eq!(e.title, "Not Found");
    assert_eq!(e.error, None);
    assert_eq!(e.code, 404);
    assert_eq!(e.reason, "The requested resource simply could not be found.");
    assert_eq!(e.path, "/nope");
    assert_eq!(e.url, "http://x/nope");
    let e = Error::method_not_allowed("http://x", "POST", "/list");
    assert_eq!(e.title, "Method Not Allowed");
    assert_eq!(e.error, Some("Method POST Not Allowed".to_string()));
    assert_eq!(e.code, 405);
    assert_eq!(e.reason, "The method POST is disallowed on this path.");
    assert_eq!(e.url, "http://x/list");
}

#[test]
fn search_pages() {
    let s = Search::new("http://x", None, vec![]);
    assert_eq!(s.title, "Search");
    assert_eq!(s.query, "");
    assert_eq!(s.description, "A search page.");
    assert_eq!(s.url, "http://x/search");
    assert!(s.error.is_none());
    let q = "a b&c".to_string();
    let s = Search::new("http://x", Some(&q), vec![meta("a.md")]);
    assert_eq!(s.query, "a b&c");
    assert_eq!(s.description, "A search page.\na b&c");
    assert_eq!(s.url, "http://x/search?q=a%20b%26c");
    assert_eq!(s.results.len(), 1);
    let s = Search::error("http://x", Some(&q), "bad query");
    assert_eq!(s.error, Some("bad query".to_string()));
    assert!(s.results.is_empty());
    assert_eq!(s.url, "http://x/search?q=a%20b%26c");
}

#[test]
fn listing_pages() {
    let l = List::new("http://x", vec![meta("a.md"), meta("b.md")]);
    assert_eq!(l.title, "List");
    assert_eq!(l.writings.len(), 2);
    assert_eq!(l.description, "A list of everything on the website");
    assert_eq!(l.url, "http://x/list");
    let t = Tags::new("http://x", vec![TagCount { name: "rust".to_string(), count: 2 }]);
    assert_eq!(t.title, "Tags");
    assert_eq!(t.tags[0].count, 2);
    assert_eq!(t.description, "A list of all the tags");
    assert_eq!(t.url, "http://x/tags");
    let s = SpecificTag::new("http://x", "rust", vec![meta("a.md")]);
    assert_eq!(s.title, "Writings Tagged rust");
    assert_eq!(s.tag_name, "rust");
    assert_eq!(s.description, "All the writings tagged with rust");
    assert_eq!(s.url, "http://x/tag/rust");
}

#[test]
fn reader_page() {
    let w = Writing { meta: meta("Posts/My Post.md"), content: "body".to_string() };
    let r = Reader::new("http://x", w);
    assert_eq!(r.title, "A Title");
    assert_eq!(r.kind, "article");
    assert_eq!(r.article.published_time, "2024-02-03");
    assert_eq!(r.article.author, "Lys");
    assert_eq!(r.article.tags, vec!["rust".to_string(), "web".to_string()]);
    assert_eq!(r.description, Some("About things".to_string()));
    assert_eq!(r.url, "http://x/writing/posts/my-post");
    assert_eq!(r.writing.content, "body");
    assert_eq!(DateTriple::from_str(&r.article.published_time), Ok(r.writing.meta.date_authored));
}
