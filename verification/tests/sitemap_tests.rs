use irzean::date::{DateTriple, RealDateTime};
use irzean::err::Error;
use irzean::fossil::{Writing, WritingMeta};
use irzean::sitemap::{render_sitemap, sitemap_entries, xml_escape, UrlEntry};

const HEAD: &str = "<?xml version=\"1.0\" encoding=\"UTF-8\"?><urlset xmlns=\"http://www.sitemaps.org/schemas/sitemap/0.9\">";

fn writing(path: &str, date: (u16, u8, u8), tags: &[&str], nsfw: bool, hidden: bool) -> Writing {
    Writing {
        meta: WritingMeta {
            rel_path: path.to_string(),
            title: path.to_string(),
            date_authored: DateTriple { year: date.0, month: date.1, day: date.2 },
            tags: tags.iter().map(|t| t.to_string()).collect(),
            description: None,
            is_nsfw: nsfw,
            is_hidden: hidden,
            previous: None,
            next: None,
        },
        content: String::new(),
    }
}

fn url(loc: &str, lastmod: Option<&str>) -> String {
    match lastmod {
        Some(l) => format!("<url><loc>{loc}</loc><lastmod>{l}</lastmod></url>"),
        None => format!("<url><loc>{loc}</loc></url>"),
    }
}

#[test]
fn escapes_markup_and_spaces() {
    assert_eq!(xml_escape("a&b <c>\"'"), "a&amp;b%20&lt;c&gt;&quot;&apos;");
    assert_eq!(xml_escape("plain"), "plain");
    assert_eq!(xml_escape(""), "");
    assert_eq!(xml_escape("&amp;"), "&amp;amp;");
}

#[test]
fn escaping_matches_replacing_in_turn() {
    let s = "x & y < z > \"q\" 'r'";
    let chained = s
        .replace('&', "&amp;")
        .replace('<', "&lt;")
        .replace('>', "&gt;")
        .replace('"', "&quot;")
        .replace('\'', "&apos;")
        .replace(' ', "%20");
    assert_eq!(xml_escape(s), chained);
}

#[test]
fn renders_an_empty_sitemap() {
    assert_eq!(render_sitemap(vec![]), format!("{HEAD}</urlset>"));
}

#[test]
fn renders_entries_in_order() {
    let r = DateTriple { year: 2024, month: 1, day: 5 }.into_real_datetime().ok();
    let entries = vec![
        UrlEntry::new("http://x/a b".to_string(), r),
        UrlEntry::new("http://x/c".to_string(), None),
    ];
    assert_eq!(
        render_sitemap(entries),
        format!(
            "{HEAD}{}{}</urlset>",
            url("http://x/a%20b", Some("2024-01-05T00:00:00Z")),
            url("http://x/c", None)
        )
    );
}

#[test]
fn lastmod_keeps_the_time_of_day() {
    let dt = RealDateTime::new(DateTriple { year: 2024, month: 3, day: 5 }, 12, 30, 0, 0).ok();
    let out = render_sitemap(vec![UrlEntry::new("x".to_string(), dt)]);
    assert!(out.contains("<lastmod>2024-03-05T12:30:00Z</lastmod>"));
    let out = render_sitemap(vec![UrlEntry::new("x".to_string(), None)]);
    assert!(!out.contains("<lastmod>"));
}

#[test]
fn lists_pages_tags_and_writings() {
    let ws = vec![
        writing("a.md", (2024, 1, 5), &["rust"], false, false),
        writing("b.md", (2024, 3, 1), &["go", "Rust"], false, true),
        writing("c.md", (2023, 7, 9), &["rust"], true, false),
    ];
    let tags = vec!["rust".to_string(), "go".to_string()];
    let entries = sitemap_entries("http://x", false, &ws, &tags).ok().unwrap();
    let xml = render_sitemap(entries);
    let site = Some("2024-03-01T00:00:00Z");
    let expected = format!(
        "{HEAD}{}{}{}{}{}{}{}{}{}</urlset>",
        url("http://x/", site),
        url("http://x/search", site),
        url("http://x/list", site),
        url("http://x/tags", site),
        url("http://x/tag/rust", Some("2024-01-05T00:00:00Z")),
        url("http://x/tag/go", None),
        url("http://x/writing/a", Some("2024-01-05T00:00:00Z")),
        url("http://x/writing/b", Some("2024-03-01T00:00:00Z")),
        url("http://x/writing/c", Some("2023-07-09T00:00:00Z")),
    );
    assert_eq!(xml, expected);
}

#[test]
fn parental_mode_leaves_nsfw_writings_out() {
    let ws = vec![
        writing("a.md", (2024, 1, 5), &["rust"], false, false),
        writing("c.md", (2025, 7, 9), &["rust"], true, false),
    ];
    let tags = vec!["rust".to_string()];
    let parental = render_sitemap(sitemap_entries("http://x", true, &ws, &tags).ok().unwrap());
    let sfw_only = vec![writing("a.md", (2024, 1, 5), &["rust"], false, false)];
    let plain = render_sitemap(sitemap_entries("http://x", false, &sfw_only, &tags).ok().unwrap());
    assert_eq!(parental, plain);
    assert!(!parental.contains("writing/c"));
    assert!(!parental.contains("2025"));
}

#[test]
fn fails_on_a_date_off_the_calendar() {
    let ws = vec![
        writing("a.md", (2024, 1, 5), &[], false, false),
        writing("b.md", (2023, 2, 30), &[], false, false),
        writing("c.md", (2023, 13, 1), &[], false, false),
    ];
    match sitemap_entries("http://x", false, &ws, &vec![]) {
        Err(Error::ComponentRange(d)) => assert_eq!(d, "day"),
        _ => panic!("expected a component range error"),
    }
    // the bad writing is nsfw, so parental mode does not list it
    let ws = vec![writing("b.md", (2023, 2, 30), &[], true, false)];
    assert!(sitemap_entries("http://x", true, &ws, &vec![]).is_ok());
}
