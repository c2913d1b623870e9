//! Turning a writing's Markdown into HTML.

use vstd::prelude::*;
use vstd::string::StringExecFns;

use crate::err::Error;

use crate::text::{chars_of, join, lines, split_chars, split_on, string_of, strip_cr, lemma_split_on_nonempty};

verus! {

/// A line that starts with `>` gets an extra `>` line after it, so that a
/// quote keeps its line breaks.
pub open spec fn quote_line(l: Seq<char>) -> Seq<char> {
    if l.len() > 0 && l[0] == '>' {
        l + seq!['\n', '>']
    } else {
        l
    }
}

/// The text that is handed to the Markdown renderer: its lines, each quote
/// line followed by a `>` line, joined with `\n`.
pub open spec fn preprocessed(s: Seq<char>) -> Seq<char> {
    join(lines(s).map_values(|l: Seq<char>| quote_line(l)), seq!['\n'])
}

/// Prepares Markdown text for rendering.
pub fn preprocess(input: &str) -> (res: String)
    ensures
        res@ == preprocessed(input@),
{
    let cs = chars_of(input);
    let ps = split_chars(&cs, '\n');
    let ghost sp = split_on(cs@, '\n');
    proof {
        lemma_split_on_nonempty(cs@, '\n');
    }
    let np = ps.len();
    let n = if ps[np - 1].len() == 0 {
        np - 1
    } else {
        np
    };
    let ghost ls = lines(cs@).map_values(|l: Seq<char>| quote_line(l));
    assert(ls.len() == n);
    let mut out: Vec<char> = Vec::new();
    for i in 0..n
        invariant
            n <= np == ps.len() == sp.len(),
            forall|j: int| 0 <= j < np ==> (#[trigger] ps[j])@ == sp[j],
            ls == lines(cs@).map_values(|l: Seq<char>| quote_line(l)),
            ls.len() == n,
            lines(cs@).len() == n,
            sp == split_on(cs@, '\n'),
            out@ == join(ls.take(i as int), seq!['\n']),
    {
        let p = &ps[i];
        let mut line: Vec<char> = Vec::new();
        let m = if i + 1 < np && p.len() > 0 && p[p.len() - 1] == '\r' {
            p.len() - 1
        } else {
            p.len()
        };
        for k in 0..m
            invariant
                m <= p.len(),
                line@ == p@.take(k as int),
        {
            line.push(p[k]);
            assert(p@.take(k + 1) =~= p@.take(k as int).push(p@[k as int]));
        }
        assert(lines(cs@)[i as int] =~= line@) by {
            assert(lines(cs@)[i as int] == (if i < np - 1 {
                strip_cr(sp[i as int])
            } else {
                sp[i as int]
            }));
            if i + 1 < np {
                if p@.len() > 0 {
                    assert(p@.last() == p@[p@.len() - 1]);
                }
                if m < p.len() {
                    assert(p@.take(m as int) =~= p@.drop_last());
                } else {
                    assert(p@.take(m as int) =~= p@);
                }
            } else {
                assert(p@.take(m as int) =~= p@);
            }
        }
        if line.len() > 0 && line[0] == '>' {
            line.push('\n');
            line.push('>');
        }
        assert(line@ =~= ls[i as int]);
        if i > 0 {
            out.push('\n');
        }
        crate::text::push_chars(&mut out, &line);
        assert(ls.take(i + 1).drop_last() =~= ls.take(i as int));
        assert(ls.take(i + 1).last() == ls[i as int]);
        proof {
            if i == 0 {
                assert(out@ =~= join(ls.take(1), seq!['\n']));
            } else {
                assert(out@ =~= join(ls.take(i + 1), seq!['\n']));
            }
        }
    }
    assert(ls.take(n as int) =~= ls);
    string_of(&out)
}

/// The Markdown features that a writing is rendered with.
pub struct MarkdownOptions {
    pub strikethrough: bool,
    pub front_matter_delimiter: Option<String>,
    pub table: bool,
    pub superscript: bool,
    pub underline: bool,
    pub subscript: bool,
    pub smart: bool,
    pub hardbreaks: bool,
    pub prefer_fenced: bool,
    pub figure_with_caption: bool,
}

pub struct MarkdownOptionsView {
    pub strikethrough: bool,
    pub front_matter_delimiter: Option<Seq<char>>,
    pub table: bool,
    pub superscript: bool,
    pub underline: bool,
    pub subscript: bool,
    pub smart: bool,
    pub hardbreaks: bool,
    pub prefer_fenced: bool,
    pub figure_with_caption: bool,
}

impl View for MarkdownOptions {
    type V = MarkdownOptionsView;

    open spec fn view(&self) -> MarkdownOptionsView {
        MarkdownOptionsView {
            strikethrough: self.strikethrough,
            front_matter_delimiter: self.front_matter_delimiter.deep_view(),
            table: self.table,
            superscript: self.superscript,
            underline: self.underline,
            subscript: self.subscript,
            smart: self.smart,
            hardbreaks: self.hardbreaks,
            prefer_fenced: self.prefer_fenced,
            figure_with_caption: self.figure_with_caption,
        }
    }
}

/// The site's settings: strikethrough, tables, super- and subscript,
/// underline, smart punctuation, hard line breaks, fenced code and figure
/// captions on, and `---` front matter skipped.
pub open spec fn site_markdown_options() -> MarkdownOptionsView {
    MarkdownOptionsView {
        strikethrough: true,
        front_matter_delimiter: Some(seq!['-', '-', '-']),
        table: true,
        superscript: true,
        underline: true,
        subscript: true,
        smart: true,
        hardbreaks: true,
        prefer_fenced: true,
        figure_with_caption: true,
    }
}

/// The settings that writings are rendered with.
pub fn markdown_options() -> (res: MarkdownOptions)
    ensures
        res@ == site_markdown_options(),
{
    proof {
        reveal_strlit("---");
    }
    let delimiter = String::from_str("---");
    assert(delimiter@ =~= seq!['-', '-', '-']);
    MarkdownOptions {
        strikethrough: true,
        front_matter_delimiter: Some(delimiter),
        table: true,
        superscript: true,
        underline: true,
        subscript: true,
        smart: true,
        hardbreaks: true,
        prefer_fenced: true,
        figure_with_caption: true,
    }
}

/// The HTML that comrak renders for a Markdown text with the given
/// settings (`parse_document` then `format_html_with_plugins` with no
/// plugins).
pub uninterp spec fn rendered_html(input: Seq<char>, options: MarkdownOptionsView) -> Seq<char>;

/// Calls `comrak::parse_document` and `comrak::format_html_with_plugins`
/// (default plugins) with the settings copied field by field into
/// `comrak::Options`. Claimed: formatting into a `String` succeeds (the
/// writer never fails, comrak's formatter only passes on the writer's
/// errors, and comrak's own `markdown_to_html` unwraps this same call), and
/// the HTML is `rendered_html` of the text and settings.
#[verifier::external_body]
fn render_html(input: &str, options: &MarkdownOptions) -> (res: Option<String>)
    ensures
        res.is_some(),
        res.unwrap()@ == rendered_html(input@, options@),
{
    let mut o = comrak::Options::default();
    o.extension.strikethrough = options.strikethrough;
    o.extension.front_matter_delimiter = options.front_matter_delimiter.clone();
    o.extension.table = options.table;
    o.extension.superscript = options.superscript;
    o.extension.underline = options.underline;
    o.extension.subscript = options.subscript;
    o.parse.smart = options.smart;
    o.render.hardbreaks = options.hardbreaks;
    o.render.prefer_fenced = options.prefer_fenced;
    o.render.figure_with_caption = options.figure_with_caption;
    let (arena, mut out) = (comrak::Arena::new(), String::new());
    let root = comrak::parse_document(&arena, input, &o);
    comrak::format_html_with_plugins(root, &o, &mut out, &Default::default()).ok().map(|_| out)
}

/// Renders a writing's Markdown to HTML with the site's settings, after
/// `preprocess`.
pub fn to_markdown(input: &str) -> (res: Result<String, Error>)
    ensures
        res matches Ok(s) && s@ == rendered_html(preprocessed(input@), site_markdown_options()),
{
    let text = preprocess(input);
    let options = markdown_options();
    Ok(render_html(text.as_str(), &options).unwrap())
}

} // verus!
