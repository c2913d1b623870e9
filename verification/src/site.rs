//! Site settings, navigation, templates and keeping up with the repository.

use vstd::prelude::*;
use vstd::string::StringExecFns;

use crate::err::Error;
use crate::fossil::CommitRef;
use crate::paths::{file_name, file_name_of};
use crate::text::{chars_of, parse_unsigned, parse_unsigned_in};

verus! {

// ---------------------------------------------------------------------------
// Settings
// ---------------------------------------------------------------------------

pub open spec fn default_port() -> Seq<char> {
    "1337"@
}

/// The site root: `IRZEAN_ROOT_URL` when set, otherwise the local address
/// on `IRZEAN_PORT` (1337 by default).
pub open spec fn root_url_of(root: Option<Seq<char>>, port: Option<Seq<char>>) -> Seq<char> {
    match root {
        Some(r) => r,
        None => "http://0.0.0.0:"@ + match port {
            Some(p) => p,
            None => default_port(),
        },
    }
}

/// The site root from the two settings, each present or not.
pub fn root_url(root: Option<String>, port: Option<String>) -> (res: String)
    ensures
        res@ == root_url_of(root.deep_view(), port.deep_view()),
{
    match root {
        Some(r) => r,
        None => {
            let mut s = String::from_str("http://0.0.0.0:");
            match port {
                Some(p) => s.append(p.as_str()),
                None => s.append("1337"),
            }
            s
        },
    }
}

/// Seconds between two looks at the repository: the setting when it is a
/// `u64`, 60 otherwise.
pub open spec fn update_interval_of(raw: Option<Seq<char>>) -> u64 {
    match raw {
        Some(s) => match parse_unsigned(s, u64::MAX as nat) {
            Ok(v) => v as u64,
            Err(_) => 60,
        },
        None => 60,
    }
}

pub fn update_interval(raw: Option<String>) -> (res: u64)
    ensures
        res == update_interval_of(raw.deep_view()),
{
    match raw {
        Some(s) => {
            let cs = chars_of(s.as_str());
            assert(cs@.subrange(0, cs@.len() as int) =~= cs@);
            match parse_unsigned_in(&cs, 0, cs.len(), u64::MAX) {
                Ok(v) => v,
                Err(_) => 60,
            }
        },
        None => 60,
    }
}

// ---------------------------------------------------------------------------
// Navigation
// ---------------------------------------------------------------------------

/// A link of the navigation bar.
pub struct NavLink {
    pub name: String,
    pub uri: String,
    pub target: String,
}

pub open spec fn nav_link_view(l: NavLink) -> (Seq<char>, Seq<char>, Seq<char>) {
    (l.name@, l.uri@, l.target@)
}

/// Home, Search, Tags and List under the root, opened in place; outside
/// parental mode also Contact (in a new tab) and Leave.
pub open spec fn nav_links_spec(root: Seq<char>, parental: bool) -> Seq<
    (Seq<char>, Seq<char>, Seq<char>),
> {
    let pages = seq![
        ("Home"@, root + "/"@, "_self"@),
        ("Search"@, root + "/search"@, "_self"@),
        ("Tags"@, root + "/tags"@, "_self"@),
        ("List"@, root + "/list"@, "_self"@),
    ];
    if parental {
        pages
    } else {
        pages + seq![
            ("Contact"@, "https://cutie.zone/social"@, "_blank"@),
            ("Leave"@, "https://cutie.zone"@, "_self"@),
        ]
    }
}

fn link(name: &str, root: &str, path: &str, target: &str) -> (res: NavLink)
    ensures
        nav_link_view(res) == (name@, root@ + path@, target@),
{
    let mut uri = String::from_str(root);
    uri.append(path);
    NavLink { name: String::from_str(name), uri, target: String::from_str(target) }
}

/// The links of the navigation bar.
pub fn nav_links(root: &str, parental: bool) -> (res: Vec<NavLink>)
    ensures
        res@.map_values(|l: NavLink| nav_link_view(l)) == nav_links_spec(root@, parental),
{
    let mut links: Vec<NavLink> = Vec::new();
    links.push(link("Home", root, "/", "_self"));
    links.push(link("Search", root, "/search", "_self"));
    links.push(link("Tags", root, "/tags", "_self"));
    links.push(link("List", root, "/list", "_self"));
    if !parental {
        links.push(link("Contact", "", "https://cutie.zone/social", "_blank"));
        links.push(link("Leave", "", "https://cutie.zone", "_self"));
        proof {
            reveal_strlit("");
            assert(""@ + "https://cutie.zone/social"@ =~= "https://cutie.zone/social"@);
            assert(""@ + "https://cutie.zone"@ =~= "https://cutie.zone"@);
        }
    }
    assert(links@.map_values(|l: NavLink| nav_link_view(l)) =~= nav_links_spec(root@, parental));
    links
}

// ---------------------------------------------------------------------------
// Templates
// ---------------------------------------------------------------------------

pub open spec fn no_file_name() -> Seq<char> {
    "no file name even if there should be one"@
}

pub open spec fn html_prefix() -> Seq<char> {
    seq!['h', 't', 'm', 'l', '/']
}

pub open spec fn ends_with_jinja(s: Seq<char>) -> bool {
    s.len() >= 5 && s.subrange(s.len() - 5, s.len() as int) == seq!['j', 'i', 'n', 'j', 'a']
}

/// Whether an embedded file is a page template: it lies under `html/` and
/// its file name ends in `jinja`. A file under `html/` without a file name
/// is an error.
pub fn is_page_template(path: &str) -> (res: Result<bool, Error>)
    ensures
        !(path@.len() >= 5 && path@.take(5) == html_prefix()) ==> res matches Ok(false),
        path@.len() >= 5 && path@.take(5) == html_prefix() ==> match file_name(path@) {
            None => res matches Err(Error::Internal(m)) && m@ == no_file_name(),
            Some(f) => res == Ok::<bool, Error>(ends_with_jinja(f)),
        },
{
    let cs = chars_of(path);
    let under_html = cs.len() >= 5 && cs[0] == 'h' && cs[1] == 't' && cs[2] == 'm' && cs[3] == 'l'
        && cs[4] == '/';
    proof {
        if cs@.len() >= 5 {
            let t = cs@.take(5);
            assert(t[0] == cs@[0] && t[1] == cs@[1] && t[2] == cs@[2] && t[3] == cs@[3] && t[4]
                == cs@[4]);
            if under_html {
                assert(t =~= html_prefix());
            }
        }
    }
    if !under_html {
        return Ok(false);
    }
    match file_name_of(path) {
        None => Err(Error::Internal(String::from_str("no file name even if there should be one"))),
        Some(f) => {
            let n = f.len();
            let r = n >= 5 && f[n - 5] == 'j' && f[n - 4] == 'i' && f[n - 3] == 'n' && f[n - 2]
                == 'j' && f[n - 1] == 'a';
            proof {
                if n >= 5 {
                    let t = f@.subrange(n - 5, n as int);
                    assert(t[0] == f@[n - 5] && t[1] == f@[n - 4] && t[2] == f@[n - 3] && t[3]
                        == f@[n - 2] && t[4] == f@[n - 1]);
                    if r {
                        assert(t =~= seq!['j', 'i', 'n', 'j', 'a']);
                    }
                }
            }
            Ok(r)
        },
    }
}

// ---------------------------------------------------------------------------
// Keeping up with the repository
// ---------------------------------------------------------------------------

pub open spec fn bad_shorthand() -> Seq<char> {
    "invalid utf8 for shorthand"@
}

pub open spec fn bad_commit_time() -> Seq<char> {
    "out of range integral type conversion attempted"@
}

/// The commit that the repository's head names: its branch shorthand
/// (absent when not UTF-8) and its time in seconds since the epoch, which
/// must not be negative.
pub fn commit_ref(shorthand: Option<String>, seconds: i64) -> (res: Result<CommitRef, Error>)
    ensures
        shorthand is None ==> (res matches Err(Error::Internal(m)) && m@ == bad_shorthand()),
        shorthand is Some && seconds < 0 ==> (res matches Err(Error::Internal(m)) && m@
            == bad_commit_time()),
        shorthand is Some && seconds >= 0 ==> (res matches Ok(c) && c.shorthand@
            == shorthand.unwrap()@ && c.commit_time_utc == seconds),
{
    let name = match shorthand {
        Some(s) => s,
        None => {
            return Err(Error::Internal(String::from_str("invalid utf8 for shorthand")));
        },
    };
    if seconds < 0 {
        return Err(
            Error::Internal(String::from_str("out of range integral type conversion attempted")),
        );
    }
    Ok(CommitRef { shorthand: name, commit_time_utc: seconds as u64 })
}

} // verus!
