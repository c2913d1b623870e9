use irzean::assets::{compiled_css, hash_scss, stylesheet_source, Asset};
use irzean::err::Error;
use irzean::site::{commit_ref, is_page_template, nav_links, root_url, update_interval};

#[test]
fn root_url_defaults() {
    assert_eq!(root_url(None, None), "http://0.0.0.0:1337");
    assert_eq!(root_url(None, Some("8080".to_string())), "http://0.0.0.0:8080");
    assert_eq!(root_url(Some("https://a.b".to_string()), Some("1".to_string())), "https://a.b");
}

#[test]
fn update_interval_defaults_to_a_minute() {
    assert_eq!(update_interval(None), 60);
    assert_eq!(update_interval(Some("30".to_string())), 30);
    assert_eq!(update_interval(Some("+5".to_string())), 5);
    assert_eq!(update_interval(Some("x".to_string())), 60);
    assert_eq!(update_interval(Some(String::new())), 60);
    assert_eq!(update_interval(Some("18446744073709551615".to_string())), u64::MAX);
    assert_eq!(update_interval(Some("18446744073709551616".to_string())), 60);
}

#[test]
fn navigation_links() {
    let l = nav_links("http://x", false);
    let v: Vec<(String, String, String)> = l.into_iter().map(|l| (l.name, l.uri, l.target)).collect();
    assert_eq!(
        v,
        vec![
            ("Home".to_string(), "http://x/".to_string(), "_self".to_string()),
            ("Search".to_string(), "http://x/search".to_string(), "_self".to_string()),
            ("Tags".to_string(), "http://x/tags".to_string(), "_self".to_string()),
            ("List".to_string(), "http://x/list".to_string(), "_self".to_string()),
            ("Contact".to_string(), "https://cutie.zone/social".to_string(), "_blank".to_string()),
            ("Leave".to_string(), "https://cutie.zone".to_string(), "_self".to_string()),
        ]
    );
    assert_eq!(nav_links("http://x", true).len(), 4);
}

#[test]
fn picks_page_templates() {
    assert!(matches!(is_page_template("html/index.jinja"), Ok(true)));
    assert!(matches!(is_page_template("html/partials/nav.jinja"), Ok(true)));
    assert!(matches!(is_page_template("html/style.css"), Ok(false)));
    assert!(matches!(is_page_template("css/x.jinja"), Ok(false)));
    match is_page_template("html/..") {
        Err(Error::Internal(m)) => assert_eq!(m, "no file name even if there should be one"),
        _ => panic!("expected an error"),
    }
}

#[test]
fn commit_refs() {
    let c = commit_ref(Some("main".to_string()), 1700000000).ok().unwrap();
    assert_eq!(c.shorthand, "main");
    assert_eq!(c.commit_time_utc, 1700000000);
    match commit_ref(None, 5) {
        Err(Error::Internal(m)) => assert_eq!(m, "invalid utf8 for shorthand"),
        _ => panic!("expected an error"),
    }
    match commit_ref(Some("main".to_string()), -1) {
        Err(Error::Internal(m)) => assert_eq!(m, "out of range integral type conversion attempted"),
        _ => panic!("expected an error"),
    }
}

#[test]
fn hashes_the_stylesheets_in_order() {
    let assets = vec![
        Asset { path: "main.scss".to_string(), data: Some(b"a{}".to_vec()) },
        Asset { path: "x.css".to_string(), data: Some(b"ignored".to_vec()) },
        Asset { path: "b.scss".to_string(), data: None },
        Asset { path: "c.scss".to_string(), data: Some(b"b{}".to_vec()) },
    ];
    let expected = blake3::hash(b"a{}b{}").to_hex().to_string();
    assert_eq!(hash_scss(&assets), expected);
    assert_eq!(hash_scss(&vec![]), blake3::hash(b"").to_hex().to_string());
    assert_eq!(hash_scss(&assets).len(), 64);
}

#[test]
fn compiles_the_main_stylesheet() {
    fn compile(bytes: Option<Vec<u8>>) -> Result<String, Error> {
        let source = stylesheet_source(bytes)?;
        compiled_css(grass::from_string(source, &grass::Options::default()).map_err(|e| e.to_string()))
    }
    assert_eq!(compile(Some(b"a { b { color: red; } }".to_vec())).ok().unwrap(), "a b {\n  color: red;\n}\n");
    match compile(None) {
        Err(Error::Internal(m)) => assert_eq!(m, "this should never fail."),
        _ => panic!("expected an error"),
    }
    assert!(matches!(compile(Some(vec![0xff, 0xfe])), Err(Error::Internal(_))));
    assert!(matches!(compile(Some(b"a { color: ".to_vec())), Err(Error::Sass(_))));
}

#[test]
fn stylesheet_source_decodes_the_bytes() {
    assert_eq!(stylesheet_source(Some("p { content: \"é\"; }".as_bytes().to_vec())).ok().unwrap(), "p { content: \"é\"; }");
    match compiled_css(Err("bad".to_string())) {
        Err(Error::Sass(m)) => assert_eq!(m, "bad"),
        _ => panic!("expected a Sass error"),
    }
    assert_eq!(compiled_css(Ok("a{}".to_string())).ok().unwrap(), "a{}");
}

#[test]
fn error_messages() {
    assert_eq!(Error::Internal("boom".to_string()).message(true), "Internal Error: boom");
    assert_eq!(Error::Internal("boom".to_string()).message(false), "Internal Server Error");
    assert_eq!(Error::Jinja("t".to_string()).message(true), "Jinja error: t");
    let d = irzean::date::DateTriple { year: 2023, month: 2, day: 30 };
    let e = d.into_real_datetime().err().unwrap();
    assert_eq!(e.message(true), "Component Range Error: day was not in range");
    let e = irzean::date::DateTriple { year: 2023, month: 13, day: 1 }.into_real_datetime().err().unwrap();
    assert_eq!(e.message(true), "Component Range Error: month was not in range");
    let e = irzean::date::DateTriple { year: 10000, month: 1, day: 1 }.into_real_datetime().err().unwrap();
    assert_eq!(e.message(true), "Component Range Error: year was not in range");
}
