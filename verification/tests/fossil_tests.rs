use irzean::date::{DateParseError, DateTriple};
use irzean::fossil::{front_matter_of, sort_newest_first, writing_from_front_matter, CommitRef, FrontMatter, RepoHandler, Writing, WritingMeta};
use irzean::index::index_documents;
use irzean::text::NumberError;

fn fm(date: &str, nsfw: Option<bool>) -> FrontMatter {
    FrontMatter {
        title: "T".to_string(),
        date: date.to_string(),
        tags: None,
        nsfw,
        hidden: None,
        description: None,
        previous: None,
        next: None,
    }
}

fn writing(path: &str, date: (u16, u8, u8)) -> Writing {
    Writing {
        meta: WritingMeta {
            rel_path: path.to_string(),
            title: path.to_string(),
            date_authored: DateTriple { year: date.0, month: date.1, day: date.2 },
            tags: vec!["a".to_string(), "b".to_string()],
            description: None,
            is_nsfw: false,
            is_hidden: false,
            previous: None,
            next: None,
        },
        content: "one two  three".to_string(),
    }
}

fn text(v: Option<Vec<char>>) -> Option<String> {
    v.map(|c| c.into_iter().collect())
}

#[test]
fn cuts_out_front_matter() {
    assert_eq!(text(front_matter_of("---\ntitle: x\n---\nbody")), Some("\ntitle: x\n".to_string()));
    assert_eq!(text(front_matter_of("------")), Some(String::new()));
    assert_eq!(text(front_matter_of("---\na: ---\nb")), Some("\na: ".to_string()));
    assert_eq!(text(front_matter_of("no front matter")), None);
    assert_eq!(text(front_matter_of("---\nnever closed")), None);
    assert_eq!(text(front_matter_of("--")), None);
    assert_eq!(text(front_matter_of(" ---\n---")), None);
}

#[test]
fn builds_writings_from_front_matter() {
    let w = writing_from_front_matter(fm("2024-01-02", None), "a.md".to_string(), "body".to_string(), false)
        .ok()
        .unwrap()
        .unwrap();
    assert_eq!(w.meta.date_authored, DateTriple { year: 2024, month: 1, day: 2 });
    assert!(!w.meta.is_nsfw && !w.meta.is_hidden);
    assert!(w.meta.tags.is_empty());
    assert_eq!(w.meta.rel_path, "a.md");
    assert_eq!(w.content, "body");
    let mut doc = fm("2024-01-02", Some(true));
    doc.hidden = Some(true);
    doc.tags = Some(vec!["x".to_string()]);
    let w = writing_from_front_matter(doc, "b.md".to_string(), String::new(), false).ok().unwrap().unwrap();
    assert!(w.meta.is_nsfw && w.meta.is_hidden);
    assert_eq!(w.meta.tags, vec!["x".to_string()]);
}

#[test]
fn parental_mode_skips_nsfw_before_reading_the_date() {
    assert!(matches!(writing_from_front_matter(fm("bad", Some(true)), "a.md".to_string(), String::new(), true), Ok(None)));
    assert!(matches!(
        writing_from_front_matter(fm("bad", Some(true)), "a.md".to_string(), String::new(), false),
        Err(DateParseError::NotATriple)
    ));
    assert!(matches!(
        writing_from_front_matter(fm("2024-x-1", Some(false)), "a.md".to_string(), String::new(), true),
        Err(DateParseError::Month(NumberError::InvalidDigit))
    ));
}

#[test]
fn sorts_newest_first() {
    let ws = vec![
        writing("old.md", (2020, 1, 1)),
        writing("new.md", (2024, 5, 1)),
        writing("tie-1.md", (2022, 3, 3)),
        writing("mid.md", (2023, 1, 1)),
        writing("tie-2.md", (2022, 3, 3)),
    ];
    let sorted = sort_newest_first(ws);
    let names: Vec<&str> = sorted.iter().map(|w| w.meta.rel_path.as_str()).collect();
    assert_eq!(names, vec!["new.md", "mid.md", "tie-2.md", "tie-1.md", "old.md"]);
    assert!(sort_newest_first(vec![]).is_empty());
}

#[test]
fn repo_handler_keeps_its_commit() {
    let c = CommitRef { shorthand: "main".to_string(), commit_time_utc: 10 };
    let mut h = RepoHandler::new("token".to_string(), "/tmp/x".to_string(), c);
    assert_eq!(h.get_access_token(), "token");
    assert_eq!(h.get_clone_path(), "/tmp/x");
    assert_eq!(h.latest_commit().commit_time_utc, 10);
    h.set_latest_commit(CommitRef { shorthand: "main".to_string(), commit_time_utc: 11 });
    assert_eq!(h.latest_commit().commit_time_utc, 11);
    assert_eq!(h.get_access_token(), "token");
}

#[test]
fn index_documents_for_visible_writings() {
    let mut hidden = writing("h.md", (2024, 1, 1));
    hidden.meta.is_hidden = true;
    let mut nsfw = writing("n.md", (2024, 1, 1));
    nsfw.meta.is_nsfw = true;
    let ws = vec![writing("Posts/A.md", (2024, 1, 2)), hidden, nsfw];
    let docs = index_documents(&ws, false).ok().unwrap();
    assert_eq!(docs.len(), 2);
    assert_eq!(docs[0].slug, "posts/a");
    assert_eq!(docs[0].tags, "a b");
    assert_eq!(docs[0].facets, vec!["/tag/a".to_string(), "/tag/b".to_string()]);
    assert_eq!(docs[0].word_count, 3);
    assert_eq!(docs[0].date.date(), DateTriple { year: 2024, month: 1, day: 2 });
    assert!(docs[1].nsfw);
    assert_eq!(index_documents(&ws, true).ok().unwrap().len(), 1);
    let bad = vec![writing("x.md", (2023, 2, 29))];
    assert!(matches!(index_documents(&bad, false), Err(irzean::err::Error::ComponentRange(_))));
}
