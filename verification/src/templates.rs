//! What each page of the site shows.

use vstd::prelude::*;
use vstd::string::StringExecFns;
use vstd::utf8::encode_utf8;

use crate::fossil::{Writing, WritingMeta};
use crate::paths::{path_slug, tag_path, writing_path, writing_url_for};
use crate::tags::TagCount;

verus! {

broadcast use vstd::std_specs::vec::vec_clone_deep_view_proof;

/// An ASCII letter, digit, `-`, `.`, `_` or `~`, as a byte.
pub open spec fn is_unreserved_byte(b: u8) -> bool {
    (97 <= b <= 122) || (65 <= b <= 90) || (48 <= b <= 57) || b == 45 || b == 46 || b == 95 || b
        == 126
}

/// An uppercase hexadecimal digit of a value below 16.
pub open spec fn hex_upper(n: int) -> char {
    if n < 10 {
        (48 + n) as char
    } else {
        (55 + n) as char
    }
}

/// Percent-encoding of bytes: every byte kept when unreserved, otherwise
/// written as `%` and two uppercase hexadecimal digits.
pub open spec fn percent_encode(bytes: Seq<u8>) -> Seq<char>
    decreases bytes.len(),
{
    if bytes.len() == 0 {
        Seq::empty()
    } else {
        let b = bytes[0];
        let head = if is_unreserved_byte(b) {
            seq![b as char]
        } else {
            seq!['%', hex_upper(b as int / 16), hex_upper(b as int % 16)]
        };
        head + percent_encode(bytes.skip(1))
    }
}

/// What `urlencoding::encode` gives for a text: its UTF-8 bytes
/// percent-encoded.
pub open spec fn url_encoded(s: Seq<char>) -> Seq<char> {
    percent_encode(encode_utf8(s))
}

pub open spec fn is_unreserved(c: char) -> bool {
    ('a' <= c && c <= 'z') || ('A' <= c && c <= 'Z') || ('0' <= c && c <= '9') || c == '-' || c
        == '.' || c == '_' || c == '~'
}

/// Calls `urlencoding::encode`. Claimed, as the crate's `encode_into` and
/// `to_hex_digit` show: the result is `url_encoded` of the text, and a text
/// of unreserved characters only comes back unchanged.
#[verifier::external_body]
fn url_encode(s: &str) -> (res: String)
    ensures
        res@ == url_encoded(s@),
        (forall|i: int| 0 <= i < s@.len() ==> is_unreserved(#[trigger] s@[i])) ==> res@ == s@,
{
    urlencoding::encode(s).into_owned()
}

fn concat(a: &str, b: &str) -> (res: String)
    ensures
        res@ == a@ + b@,
{
    let mut s = String::from_str(a);
    s.append(b);
    s
}

fn concat3(a: &str, b: &str, c: &str) -> (res: String)
    ensures
        res@ == a@ + b@ + c@,
{
    let mut s = String::from_str(a);
    s.append(b);
    s.append(c);
    s
}

// ---------------------------------------------------------------------------
// Error pages
// ---------------------------------------------------------------------------

/// What an error page shows.
#[derive(Debug)]
pub struct Error {
    pub title: String,
    pub error: Option<String>,
    pub code: u16,
    pub reason: String,
    pub path: String,
    pub url: String,
}

impl Error {
    /// The page for a path that names nothing.
    pub fn not_found(root: &str, path: &str) -> (res: Self)
        ensures
            res.title@ == "Not Found"@,
            res.error is None,
            res.code == 404,
            res.reason@ == "The requested resource simply could not be found."@,
            res.path@ == path@,
            res.url@ == root@ + path@,
    {
        Error {
            title: String::from_str("Not Found"),
            error: None,
            code: 404,
            reason: String::from_str("The requested resource simply could not be found."),
            path: String::from_str(path),
            url: concat(root, path),
        }
    }

    /// The page for a request whose method the path does not serve.
    pub fn method_not_allowed(root: &str, method: &str, path: &str) -> (res: Self)
        ensures
            res.title@ == "Method Not Allowed"@,
            res.error matches Some(e) && e@ == "Method "@ + method@ + " Not Allowed"@,
            res.code == 405,
            res.reason@ == "The method "@ + method@ + " is disallowed on this path."@,
            res.path@ == path@,
            res.url@ == root@ + path@,
    {
        Error {
            title: String::from_str("Method Not Allowed"),
            error: Some(concat3("Method ", method, " Not Allowed")),
            code: 405,
            reason: concat3("The method ", method, " is disallowed on this path."),
            path: String::from_str(path),
            url: concat(root, path),
        }
    }
}

// ---------------------------------------------------------------------------
// Search
// ---------------------------------------------------------------------------

/// What the search page shows.
pub struct Search {
    pub title: String,
    pub query: String,
    pub results: Vec<WritingMeta>,
    pub error: Option<String>,
    pub description: String,
    pub url: String,
}

pub open spec fn search_query_text(query: Option<Seq<char>>) -> Seq<char> {
    match query {
        Some(q) => q,
        None => Seq::empty(),
    }
}

pub open spec fn search_description(query: Option<Seq<char>>) -> Seq<char> {
    "A search page."@ + match query {
        Some(q) => seq!['\n'] + q,
        None => Seq::empty(),
    }
}

pub open spec fn search_url(root: Seq<char>, query: Option<Seq<char>>) -> Seq<char> {
    root + "/search"@ + match query {
        Some(q) => "?q="@ + url_encoded(q),
        None => Seq::empty(),
    }
}

pub open spec fn opt_view(query: Option<&String>) -> Option<Seq<char>> {
    match query {
        Some(q) => Some(q@),
        None => None,
    }
}

fn search_parts(root: &str, query: Option<&String>) -> (res: (String, String, String))
    ensures
        res.0@ == search_query_text(opt_view(query)),
        res.1@ == search_description(opt_view(query)),
        res.2@ == search_url(root@, opt_view(query)),
{
    match query {
        Some(q) => {
            let mut d = String::from_str("A search page.");
            proof {
                reveal_strlit("\n");
            }
            d.append("\n");
            d.append(q.as_str());
            let enc = url_encode(q.as_str());
            let mut u = concat3(root, "/search", "?q=");
            u.append(enc.as_str());
            assert(d@ =~= search_description(opt_view(query)));
            assert(u@ =~= search_url(root@, opt_view(query)));
            (q.clone(), d, u)
        },
        None => {
            let d = String::from_str("A search page.");
            let u = concat(root, "/search");
            assert(d@ =~= search_description(opt_view(query)));
            assert(u@ =~= search_url(root@, opt_view(query)));
            (String::new(), d, u)
        },
    }
}

impl Search {
    /// The search page for a query (none before one is made) and its results.
    pub fn new(root: &str, query: Option<&String>, results: Vec<WritingMeta>) -> (res: Self)
        ensures
            res.title@ == "Search"@,
            res.query@ == search_query_text(opt_view(query)),
            res.results@ == results@,
            res.error is None,
            res.description@ == search_description(opt_view(query)),
            res.url@ == search_url(root@, opt_view(query)),
    {
        let (q, description, url) = search_parts(root, query);
        Search {
            title: String::from_str("Search"),
            query: q,
            results,
            error: None,
            description,
            url,
        }
    }

    /// The search page for a query that could not be parsed, with the
    /// parser's message.
    pub fn error(root: &str, query: Option<&String>, error: &str) -> (res: Self)
        ensures
            res.title@ == "Search"@,
            res.query@ == search_query_text(opt_view(query)),
            res.results@.len() == 0,
            res.error matches Some(e) && e@ == error@,
            res.description@ == search_description(opt_view(query)),
            res.url@ == search_url(root@, opt_view(query)),
    {
        let (q, description, url) = search_parts(root, query);
        Search {
            title: String::from_str("Search"),
            query: q,
            results: Vec::new(),
            error: Some(String::from_str(error)),
            description,
            url,
        }
    }
}

// ---------------------------------------------------------------------------
// Listings
// ---------------------------------------------------------------------------

/// What the list of all writings shows.
pub struct List {
    pub title: String,
    pub writings: Vec<WritingMeta>,
    pub description: String,
    pub url: String,
}

impl List {
    pub fn new(root: &str, w: Vec<WritingMeta>) -> (res: Self)
        ensures
            res.title@ == "List"@,
            res.writings@ == w@,
            res.description@ == "A list of everything on the website"@,
            res.url@ == root@ + "/list"@,
    {
        List {
            title: String::from_str("List"),
            writings: w,
            description: String::from_str("A list of everything on the website"),
            url: concat(root, "/list"),
        }
    }
}

/// What the tag index shows.
pub struct Tags {
    pub title: String,
    pub tags: Vec<TagCount>,
    pub description: String,
    pub url: String,
}

impl Tags {
    pub fn new(root: &str, tags: Vec<TagCount>) -> (res: Self)
        ensures
            res.title@ == "Tags"@,
            res.tags@ == tags@,
            res.description@ == "A list of all the tags"@,
            res.url@ == root@ + "/tags"@,
    {
        Tags {
            title: String::from_str("Tags"),
            tags,
            description: String::from_str("A list of all the tags"),
            url: concat(root, "/tags"),
        }
    }
}

/// What the page of one tag shows.
pub struct SpecificTag {
    pub title: String,
    pub tag_name: String,
    pub writings: Vec<WritingMeta>,
    pub description: String,
    pub url: String,
}

impl SpecificTag {
    pub fn new(root: &str, tag_name: &str, writings: Vec<WritingMeta>) -> (res: Self)
        ensures
            res.title@ == "Writings Tagged "@ + tag_name@,
            res.tag_name@ == tag_name@,
            res.writings@ == writings@,
            res.description@ == "All the writings tagged with "@ + tag_name@,
            res.url@ == root@ + tag_path() + tag_name@,
    {
        proof {
            reveal_strlit("/tag/");
        }
        SpecificTag {
            title: concat("Writings Tagged ", tag_name),
            tag_name: String::from_str(tag_name),
            writings,
            description: concat("All the writings tagged with ", tag_name),
            url: concat3(root, "/tag/", tag_name),
        }
    }
}

// ---------------------------------------------------------------------------
// Reading a writing
// ---------------------------------------------------------------------------

/// The article facts of a writing page.
pub struct Article {
    pub published_time: String,
    pub author: String,
    pub tags: Vec<String>,
}

/// What the page of a writing shows.
pub struct Reader {
    pub writing: Writing,
    pub title: String,
    pub kind: String,
    pub article: Article,
    pub description: Option<String>,
    pub url: String,
}

fn clone_opt(s: &Option<String>) -> (res: Option<String>)
    ensures
        res.deep_view() == s.deep_view(),
{
    match s {
        Some(x) => Some(x.clone()),
        None => None,
    }
}

impl Reader {
    pub fn new(root: &str, writing: Writing) -> (res: Self)
        ensures
            res.writing@ == writing@,
            res.title@ == writing.meta.title@,
            res.kind@ == "article"@,
            res.article.published_time@ == writing.meta.date_authored.text(),
            res.article.author@ == "Lys"@,
            res.article.tags.deep_view() == writing.meta.tags.deep_view(),
            res.description.deep_view() == writing.meta.description.deep_view(),
            res.url@ == root@ + writing_path() + path_slug(writing.meta.rel_path@),
    {
        let tags = writing.meta.tags.clone();
        assert(tags.deep_view() =~= writing.meta.tags.deep_view());
        let article = Article {
            published_time: writing.meta.date_authored.to_string(),
            author: String::from_str("Lys"),
            tags,
        };
        Reader {
            title: writing.meta.title.clone(),
            kind: String::from_str("article"),
            article,
            description: clone_opt(&writing.meta.description),
            url: writing_url_for(root, &writing.meta),
            writing,
        }
    }
}

} // verus!
