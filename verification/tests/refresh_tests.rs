use irzean::cache::WritingCache;
use irzean::date::DateTriple;
use irzean::err::Error;
use irzean::fossil::{CommitRef, Writing, WritingMeta};
use irzean::refresh::{refresh_step, RefreshAction, RefreshEvent};

fn writing(path: &str, tags: &[&str]) -> Writing {
    Writing {
        meta: WritingMeta {
            rel_path: path.to_string(),
            title: path.to_string(),
            date_authored: DateTriple { year: 2024, month: 1, day: 1 },
            tags: tags.iter().map(|t| t.to_string()).collect(),
            description: None,
            is_nsfw: false,
            is_hidden: false,
            previous: None,
            next: None,
        },
        content: String::new(),
    }
}

fn commit(name: &str, time: u64) -> CommitRef {
    CommitRef { shorthand: name.to_string(), commit_time_utc: time }
}

fn paths(cache: &WritingCache) -> Vec<String> {
    cache.writings.iter().map(|w| w.meta.rel_path.clone()).collect()
}

#[test]
fn an_unchanged_commit_waits() {
    let mut cache = WritingCache::new(vec![writing("a.md", &["x"])]);
    let action = refresh_step(&mut cache, RefreshEvent::Updated { previous: commit("main", 1), current: commit("main", 1) });
    assert!(matches!(action, RefreshAction::Wait));
    assert_eq!(paths(&cache), vec!["a.md".to_string()]);
}

#[test]
fn a_new_commit_asks_for_a_listing() {
    let mut cache = WritingCache::new(vec![writing("a.md", &["x"])]);
    let action = refresh_step(&mut cache, RefreshEvent::Updated { previous: commit("main", 1), current: commit("main", 2) });
    assert!(matches!(action, RefreshAction::ListFiles));
    let action = refresh_step(&mut cache, RefreshEvent::Updated { previous: commit("main", 1), current: commit("dev", 1) });
    assert!(matches!(action, RefreshAction::ListFiles));
    assert_eq!(paths(&cache), vec!["a.md".to_string()]);
}

#[test]
fn a_listing_replaces_the_cache() {
    let mut cache = WritingCache::new(vec![writing("a.md", &["x"])]);
    let listing = vec![writing("b.md", &["Go", "web"]), writing("c.md", &["go", "Rust"])];
    let action = refresh_step(&mut cache, RefreshEvent::Listed(Ok(listing)));
    assert!(matches!(action, RefreshAction::Wait));
    assert_eq!(paths(&cache), vec!["b.md".to_string(), "c.md".to_string()]);
    assert_eq!(cache.tags, vec!["go".to_string(), "web".to_string(), "rust".to_string()]);
}

#[test]
fn a_failed_listing_keeps_the_cache() {
    let mut cache = WritingCache::new(vec![writing("a.md", &["x"])]);
    let action = refresh_step(&mut cache, RefreshEvent::Listed(Err(Error::Io("gone".to_string()))));
    match action {
        RefreshAction::Warn(Error::Io(m)) => assert_eq!(m, "gone"),
        _ => panic!("expected a warning"),
    }
    assert_eq!(paths(&cache), vec!["a.md".to_string()]);
    assert_eq!(cache.tags, vec!["x".to_string()]);
}
