//! The structural translator: one document's event stream to an HTML fragment,
//! as a state machine that reads one event at a time.

use vstd::prelude::*;
use vstd::string::*;
use pulldown_cmark_escape::escape_html;
use crate::address::{derived_id, derived_id_spec, rel_url, rel_url_spec};
use crate::events::{markdown_events, parse_markdown, MdEvent, MdTag, MdTagEnd};
use crate::meta::{
    filter_chain, filter_metas, filters_view, metas_view, DocMeta, DocMetaView, MetaFields,
    MetaFieldsView, TagFilter, parse_meta_spec,
};
use crate::text::{
    has_prefix, lines_spec, split_colon, split_colon_spec, split_lines, starts_with, str_eq, strs,
    substring, chars_of, trim, trim_spec,
};

verus! {

/// The character reference that stands for `c` in HTML, or `c` itself.
pub open spec fn escape_char(c: char) -> Seq<char> {
    if c == '&' {
        "&amp;"@
    } else if c == '<' {
        "&lt;"@
    } else if c == '>' {
        "&gt;"@
    } else if c == '"' {
        "&quot;"@
    } else if c == '\'' {
        "&#39;"@
    } else {
        seq![c]
    }
}

/// `s` with `&`, `<`, `>`, `"` and `'` written as character references.
pub open spec fn escape_spec(s: Seq<char>) -> Seq<char>
    decreases s.len(),
{
    if s.len() == 0 {
        Seq::empty()
    } else {
        escape_spec(s.drop_last()) + escape_char(s.last())
    }
}

/// Relies on `pulldown_cmark_escape::escape_html`: appends `s` with `&`, `<`,
/// `>`, `"` and `'` replaced by `&amp;`, `&lt;`, `&gt;`, `&quot;` and `&#39;`
/// (writing to a `String` does not fail).
#[verifier::external_body]
fn push_escaped(out: &mut String, s: &str)
    ensures
        final(out)@ == old(out)@ + escape_spec(s@),
{
    let _ = escape_html(out, s);
}

/// Decimal digits of `n`.
pub open spec fn dec_spec(n: nat) -> Seq<char>
    decreases n,
{
    if n < 10 {
        seq![(('0' as nat) + n) as char]
    } else {
        dec_spec(n / 10) + seq![(('0' as nat) + n % 10) as char]
    }
}

fn push_dec(out: &mut String, n: u64)
    ensures
        final(out)@ == old(out)@ + dec_spec(n as nat),
    decreases n,
{
    if n >= 10 {
        push_dec(out, n / 10);
    }
    let d: u8 = (n % 10) as u8;
    let c = (('0' as u8) + d) as char;
    let v: Vec<char> = vec![c];
    let s = crate::text::string_of(v.as_slice());
    out.append(s.as_str());
    assert(final(out)@ =~= old(out)@ + dec_spec(n as nat));
}

/// Where the translator stands inside a construct that spans several events.
#[derive(Debug, Clone, Copy, PartialEq, Eq)]
pub enum Mode {
    Body,
    /// Just after a level-1 heading opened: a text event here is the title.
    AfterTitleHeading,
    MetaBlock,
    ListBlock,
    CodeBlock,
    /// Inside an image's alternative text, which is skipped up to the
    /// image's end; the count is how many images nested in it are still open.
    ImageAlt(u64),
}

/// A fatal translation error.
#[derive(Debug, Clone, Copy, PartialEq, Eq)]
pub enum RenderError {
    /// A footnote, a task-list marker or a generic metadata block.
    Unsupported,
    /// An event that cannot stand where it stands (inside a code block).
    UnexpectedEvent,
}

/// Rendered HTML of another document, available for transclusion.
pub struct Inclusion {
    pub did: String,
    pub html: String,
}

/// Identifier and HTML of each inclusion.
pub open spec fn incl_view(m: Seq<Inclusion>) -> Seq<(Seq<char>, Seq<char>)> {
    m.map_values(|i: Inclusion| (i.did@, i.html@))
}

/// The substitution map, if there is one.
pub open spec fn map_view(map: Option<&Vec<Inclusion>>) -> Option<Seq<(Seq<char>, Seq<char>)>> {
    match map {
        Some(m) => Some(incl_view(m@)),
        None => None,
    }
}

/// The HTML that the map holds for `id` (the last entry for it).
pub open spec fn lookup_incl(m: Seq<(Seq<char>, Seq<char>)>, id: Seq<char>) -> Option<Seq<char>>
    decreases m.len(),
{
    if m.len() == 0 {
        None
    } else if m.last().0 == id {
        Some(m.last().1)
    } else {
        lookup_incl(m.drop_last(), id)
    }
}

/// The state of a translation.
pub struct Rendering {
    pub html: String,
    pub title: String,
    pub meta: MetaFields,
    pub links: Vec<String>,
    pub includes: Vec<String>,
    /// Whether a listing directive was met.
    pub listing: bool,
    pub url: String,
    pub mode: Mode,
    pub filters: Vec<TagFilter>,
}

/// The view of `Rendering`.
pub struct RenderingView {
    pub html: Seq<char>,
    pub title: Seq<char>,
    pub meta: MetaFieldsView,
    pub links: Seq<Seq<char>>,
    pub includes: Seq<Seq<char>>,
    pub listing: bool,
    pub url: Seq<char>,
    pub mode: Mode,
    pub filters: Seq<(Seq<char>, bool)>,
}

impl View for Rendering {
    type V = RenderingView;

    open spec fn view(&self) -> RenderingView {
        RenderingView {
            html: self.html@,
            title: self.title@,
            meta: self.meta@,
            links: strs(self.links@),
            includes: strs(self.includes@),
            listing: self.listing,
            url: self.url@,
            mode: self.mode,
            filters: filters_view(self.filters@),
        }
    }
}

/// The state before the first event.
pub open spec fn initial_view() -> RenderingView {
    RenderingView {
        html: Seq::empty(),
        title: Seq::empty(),
        meta: MetaFieldsView { status: Seq::empty(), did: Seq::empty(), tags: Seq::empty() },
        links: Seq::empty(),
        includes: Seq::empty(),
        listing: false,
        url: Seq::empty(),
        mode: Mode::Body,
        filters: Seq::empty(),
    }
}

/// Whether a link target is external or a fragment of the same page.
pub open spec fn is_external(dest: Seq<char>) -> bool {
    has_prefix(dest, "https://"@) || has_prefix(dest, "http://"@) || has_prefix(dest, "#"@)
}

/// ` name="v"`, or nothing when `v` is empty.
pub open spec fn attr(name: Seq<char>, v: Seq<char>) -> Seq<char> {
    if v.len() == 0 {
        Seq::empty()
    } else {
        " "@ + name + "=\""@ + v + "\""@
    }
}

/// The view of an optional string.
pub open spec fn opt_view(o: Option<String>) -> Option<Seq<char>> {
    match o {
        Some(s) => Some(s@),
        None => None,
    }
}

/// The opening markup of a heading.
pub open spec fn heading_open(level: u8, id: Option<Seq<char>>) -> Seq<char> {
    "<h"@ + dec_spec(level as nat) + match id {
        Some(i) => " id=\""@ + i + "\""@,
        None => Seq::empty(),
    } + ">"@
}

/// The opening markup of a code block of language `lang`.
pub open spec fn code_open(lang: Seq<char>) -> Seq<char> {
    "<pre class=\"language-"@ + (if lang.len() == 0 {
        "unknown"@
    } else {
        lang
    }) + "\"><code>"@
}

/// The opening markup of a metadata block.
pub open spec fn meta_open() -> Seq<char> {
    "<details class=\"metainfo\"><summary>doc meta info</summary><pre class=\"docdustry-docmeta\"><code>"@
}

/// The opening markup of a link.
pub open spec fn link_open(dest: Seq<char>, title: Seq<char>, id: Seq<char>) -> Seq<char> {
    "<a href=\""@ + dest + "\""@ + attr("id"@, id) + attr("title"@, title) + ">"@
}

/// The markup of an ordinary image.
pub open spec fn img_html(dest: Seq<char>, title: Seq<char>, id: Seq<char>) -> Seq<char> {
    "<img"@ + attr("src"@, dest) + attr("id"@, id) + attr("title"@, title) + ">"@
}

/// Another document's HTML spliced in, with a link back to it.
pub open spec fn inclusion_html(dest: Seq<char>, html: Seq<char>) -> Seq<char> {
    "<article class=\"inclusion\"><a class=\"inclusion\" href=\""@ + dest + "\">inclusion</a>\n"@
        + html + "</article>\n"@
}

/// The visible marker of a transclusion that cannot be satisfied.
pub open spec fn inclusion_fail(dest: Seq<char>) -> Seq<char> {
    "<p class=\"error\">Inclusion fail: "@ + dest + "</p>\n"@
}

/// The markup of the opening tags that need no more than their kind.
pub open spec fn simple_open(t: MdTag) -> Seq<char> {
    match t {
        MdTag::Paragraph => "<p>"@,
        MdTag::BlockQuote => "<blockquote>"@,
        MdTag::HtmlBlock => "<div html>"@,
        MdTag::List(Some(n)) => "<ol"@ + (if n == 1 {
            Seq::empty()
        } else {
            " start=\""@ + dec_spec(n as nat) + "\""@
        }) + ">"@,
        MdTag::List(None) => "<ul>"@,
        MdTag::Item => "<li>"@,
        MdTag::Table => "<table>"@,
        MdTag::TableHead => "<th>"@,
        MdTag::TableRow => "<tr>"@,
        MdTag::TableCell => "<td>"@,
        MdTag::Emphasis => "<em>"@,
        MdTag::Strong => "<strong>"@,
        MdTag::Strikethrough => "<del>"@,
        _ => Seq::empty(),
    }
}

/// The markup of a closing tag; `None` for the unsupported ones.
pub open spec fn end_html(t: MdTagEnd) -> Option<Seq<char>> {
    match t {
        MdTagEnd::Paragraph => Some("</p>"@),
        MdTagEnd::Heading(l) => Some("</h"@ + dec_spec(l as nat) + ">"@),
        MdTagEnd::BlockQuote => Some("</blockquote>"@),
        MdTagEnd::CodeBlock => Some("</code></pre>"@),
        MdTagEnd::HtmlBlock => Some("</div>"@),
        MdTagEnd::List(true) => Some("</ol>"@),
        MdTagEnd::List(false) => Some("</ul>"@),
        MdTagEnd::Item => Some("</li>"@),
        MdTagEnd::Table => Some("</table>"@),
        MdTagEnd::TableHead => Some("</th>"@),
        MdTagEnd::TableRow => Some("</tr>"@),
        MdTagEnd::TableCell => Some("</td>"@),
        MdTagEnd::Emphasis => Some("</em>"@),
        MdTagEnd::Strong => Some("</strong>"@),
        MdTagEnd::Strikethrough => Some("</del>"@),
        MdTagEnd::Link => Some("</a>"@),
        MdTagEnd::Image => Some(Seq::empty()),
        MdTagEnd::FootnoteDefinition => None,
        MdTagEnd::MetadataBlock => None,
    }
}

/// `s` with `p` appended to its HTML.
pub open spec fn with_html(s: RenderingView, p: Seq<char>) -> RenderingView {
    RenderingView { html: s.html + p, ..s }
}

/// An image: a transclusion request when its target has the `did:` scheme.
pub open spec fn image_step(
    s: RenderingView,
    dest: Seq<char>,
    title: Seq<char>,
    id: Seq<char>,
    map: Option<Seq<(Seq<char>, Seq<char>)>>,
) -> RenderingView {
    let s2 = RenderingView { mode: Mode::ImageAlt(0), ..s };
    if has_prefix(dest, "did:"@) {
        let target = dest.subrange(4, dest.len() as int);
        match map {
            Some(m) => match lookup_incl(m, target) {
                Some(h) => with_html(s2, inclusion_html(dest, h)),
                None => with_html(s2, inclusion_fail(dest)),
            },
            None => RenderingView { includes: s.includes.push(target), ..s2 },
        }
    } else {
        with_html(s2, img_html(dest, title, id))
    }
}

/// An opening tag read in the body.
pub open spec fn start_step(
    s: RenderingView,
    t: MdTag,
    map: Option<Seq<(Seq<char>, Seq<char>)>>,
) -> Result<RenderingView, RenderError> {
    match t {
        MdTag::Heading(l, id) => Ok(
            RenderingView {
                html: s.html + heading_open(l, opt_view(id)),
                mode: if l == 1 {
                    Mode::AfterTitleHeading
                } else {
                    Mode::Body
                },
                ..s
            },
        ),
        MdTag::CodeBlock(None) => Ok(
            RenderingView { html: s.html + code_open(Seq::empty()), mode: Mode::CodeBlock, ..s },
        ),
        MdTag::CodeBlock(Some(lang)) => if lang@ == "docdustry-docmeta"@ {
            Ok(RenderingView { html: s.html + meta_open(), mode: Mode::MetaBlock, ..s })
        } else if lang@ == "docdustry-doclist"@ {
            Ok(
                RenderingView {
                    html: s.html + "<ul class=\"doclist\">"@,
                    mode: Mode::ListBlock,
                    listing: true,
                    filters: Seq::empty(),
                    ..s
                },
            )
        } else {
            Ok(RenderingView { html: s.html + code_open(lang@), mode: Mode::CodeBlock, ..s })
        },
        MdTag::Link { dest, title, id } => Ok(
            RenderingView {
                html: s.html + link_open(dest@, title@, id@),
                links: if is_external(dest@) {
                    s.links
                } else {
                    s.links.push(dest@)
                },
                ..s
            },
        ),
        MdTag::Image { dest, title, id } => Ok(image_step(s, dest@, title@, id@, map)),
        MdTag::FootnoteDefinition(_) => Err(RenderError::Unsupported),
        MdTag::MetadataBlock => Err(RenderError::Unsupported),
        _ => Ok(with_html(s, simple_open(t))),
    }
}

/// An event read in the body.
pub open spec fn body_step(
    s: RenderingView,
    e: MdEvent,
    map: Option<Seq<(Seq<char>, Seq<char>)>>,
) -> Result<RenderingView, RenderError> {
    match e {
        MdEvent::Start(t) => start_step(s, t, map),
        MdEvent::End(t) => match end_html(t) {
            Some(h) => Ok(with_html(s, h)),
            None => Err(RenderError::Unsupported),
        },
        MdEvent::Text(t) => Ok(with_html(s, escape_spec(t@))),
        MdEvent::Code(c) => Ok(with_html(s, "<code>"@ + escape_spec(c@) + "</code>"@)),
        MdEvent::Html(h) => Ok(with_html(s, h@)),
        MdEvent::InlineHtml(h) => Ok(with_html(s, h@)),
        MdEvent::FootnoteReference(_) => Err(RenderError::Unsupported),
        MdEvent::SoftBreak => Ok(with_html(s, "\n"@)),
        MdEvent::HardBreak => Ok(with_html(s, "<br/>"@)),
        MdEvent::Rule => Ok(with_html(s, "<hr/>"@)),
        MdEvent::TaskListMarker(_) => Err(RenderError::Unsupported),
    }
}

/// One control line of a listing block: `only-if-tagged: t` keeps the
/// documents tagged `t`, `skip-if-tagged: t` drops them.
pub open spec fn control_line(fs: Seq<(Seq<char>, bool)>, line: Seq<char>) -> Seq<(Seq<char>, bool)> {
    match split_colon_spec(line) {
        Some((k, v)) => if trim_spec(k) == "only-if-tagged"@ {
            fs.push((trim_spec(v), true))
        } else if trim_spec(k) == "skip-if-tagged"@ {
            fs.push((trim_spec(v), false))
        } else {
            fs
        },
        None => fs,
    }
}

/// Control lines applied in order.
pub open spec fn control_lines(fs: Seq<(Seq<char>, bool)>, lines: Seq<Seq<char>>) -> Seq<(Seq<char>, bool)>
    decreases lines.len(),
{
    if lines.len() == 0 {
        fs
    } else {
        control_line(control_lines(fs, lines.drop_last()), lines.last())
    }
}

/// The list items of a listing: a `did:` link to each document, titled.
pub open spec fn listing_html(ms: Seq<DocMetaView>) -> Seq<char>
    decreases ms.len(),
{
    if ms.len() == 0 {
        Seq::empty()
    } else {
        listing_html(ms.drop_last()) + "<li><a href=\"did:"@ + ms.last().did + "\">"@ + ms.last().title
            + "</a></li>"@
    }
}

/// One event, in the state's mode.
pub open spec fn step_spec(
    s: RenderingView,
    e: MdEvent,
    map: Option<Seq<(Seq<char>, Seq<char>)>>,
    metas: Seq<DocMetaView>,
) -> Result<RenderingView, RenderError> {
    match s.mode {
        Mode::Body => body_step(s, e, map),
        Mode::AfterTitleHeading => match e {
            MdEvent::Text(t) => Ok(
                RenderingView {
                    html: s.html + escape_spec(t@),
                    title: if s.title.len() == 0 {
                        t@
                    } else {
                        s.title
                    },
                    mode: Mode::Body,
                    ..s
                },
            ),
            _ => body_step(RenderingView { mode: Mode::Body, ..s }, e, map),
        },
        Mode::MetaBlock => match e {
            MdEvent::Text(t) => Ok(
                RenderingView {
                    html: s.html + escape_spec(t@),
                    meta: parse_meta_spec(s.meta, t@),
                    ..s
                },
            ),
            MdEvent::End(MdTagEnd::CodeBlock) => Ok(
                RenderingView { html: s.html + "</code></pre></details>"@, mode: Mode::Body, ..s },
            ),
            _ => Err(RenderError::UnexpectedEvent),
        },
        Mode::ListBlock => match e {
            MdEvent::Text(t) => Ok(
                RenderingView { filters: control_lines(s.filters, lines_spec(t@)), ..s },
            ),
            MdEvent::End(MdTagEnd::CodeBlock) => Ok(
                RenderingView {
                    html: s.html + listing_html(filter_chain(metas, s.filters)) + "</ul>"@,
                    mode: Mode::Body,
                    ..s
                },
            ),
            _ => Err(RenderError::UnexpectedEvent),
        },
        Mode::CodeBlock => match e {
            MdEvent::Text(t) => Ok(with_html(s, escape_spec(t@))),
            MdEvent::End(MdTagEnd::CodeBlock) => Ok(
                RenderingView { html: s.html + "</code></pre>"@, mode: Mode::Body, ..s },
            ),
            _ => Err(RenderError::UnexpectedEvent),
        },
        Mode::ImageAlt(d) => match e {
            MdEvent::End(MdTagEnd::Image) => Ok(
                RenderingView {
                    mode: if d == 0 {
                        Mode::Body
                    } else {
                        Mode::ImageAlt((d - 1) as u64)
                    },
                    ..s
                },
            ),
            MdEvent::Start(MdTag::Image { .. }) => Ok(
                RenderingView {
                    mode: Mode::ImageAlt(
                        if d < u64::MAX {
                            (d + 1) as u64
                        } else {
                            d
                        },
                    ),
                    ..s
                },
            ),
            _ => Ok(s),
        },
    }
}

/// The events read in order from the initial state.
pub open spec fn run_spec(
    events: Seq<MdEvent>,
    map: Option<Seq<(Seq<char>, Seq<char>)>>,
    metas: Seq<DocMetaView>,
) -> Result<RenderingView, RenderError>
    decreases events.len(),
{
    if events.len() == 0 {
        Ok(initial_view())
    } else {
        match run_spec(events.drop_last(), map, metas) {
            Ok(s) => step_spec(s, events.last(), map, metas),
            Err(e) => Err(e),
        }
    }
}

/// Post-processing: the derived identifier when none was given, the title
/// placeholder when no level-1 heading gave one, and the document's URL.
pub open spec fn finish_spec(s: RenderingView, path: Seq<char>) -> RenderingView {
    RenderingView {
        meta: MetaFieldsView {
            did: if s.meta.did.len() == 0 {
                derived_id_spec(path, s.title)
            } else {
                s.meta.did
            },
            ..s.meta
        },
        title: if s.title.len() == 0 {
            "<unknown>"@
        } else {
            s.title
        },
        url: rel_url_spec(path),
        ..s
    }
}

/// The whole translation of a document at `path`.
pub open spec fn translate_spec(
    events: Seq<MdEvent>,
    path: Seq<char>,
    map: Option<Seq<(Seq<char>, Seq<char>)>>,
    metas: Seq<DocMetaView>,
) -> Result<RenderingView, RenderError> {
    match run_spec(events, map, metas) {
        Ok(s) => Ok(finish_spec(s, path)),
        Err(e) => Err(e),
    }
}

/// Whether a result matches the specified outcome (the state is left
/// unspecified on an error).
pub open spec fn outcome(r: Result<(), RenderError>, expected: Result<RenderingView, RenderError>, after: RenderingView) -> bool {
    match r {
        Ok(_) => expected == Ok::<RenderingView, RenderError>(after),
        Err(e) => expected == Err::<RenderingView, RenderError>(e),
    }
}

fn push_attr(out: &mut String, name: &str, v: &str)
    ensures
        final(out)@ == old(out)@ + attr(name@, v@),
{
    if !v.is_empty() {
        out.append(" ");
        out.append(name);
        out.append("=\"");
        out.append(v);
        out.append("\"");
        assert(final(out)@ =~= old(out)@ + attr(name@, v@));
    } else {
        assert(final(out)@ =~= old(out)@ + attr(name@, v@));
    }
}

fn heading_open_exec(level: u8, id: &Option<String>) -> (r: String)
    ensures
        r@ == heading_open(level, opt_view(*id)),
{
    let mut out = String::from_str("<h");
    push_dec(&mut out, level as u64);
    match id {
        Some(i) => {
            out.append(" id=\"");
            out.append(i.as_str());
            out.append("\"");
        },
        None => {},
    }
    out.append(">");
    assert(out@ =~= heading_open(level, opt_view(*id)));
    out
}

fn code_open_exec(lang: &str) -> (r: String)
    ensures
        r@ == code_open(lang@),
{
    let mut out = String::from_str("<pre class=\"language-");
    if lang.is_empty() {
        out.append("unknown");
    } else {
        out.append(lang);
    }
    out.append("\"><code>");
    assert(out@ =~= code_open(lang@));
    out
}

fn link_open_exec(dest: &str, title: &str, id: &str) -> (r: String)
    ensures
        r@ == link_open(dest@, title@, id@),
{
    let mut out = String::from_str("<a href=\"");
    out.append(dest);
    out.append("\"");
    push_attr(&mut out, "id", id);
    push_attr(&mut out, "title", title);
    out.append(">");
    assert(out@ =~= link_open(dest@, title@, id@));
    out
}

fn img_exec(dest: &str, title: &str, id: &str) -> (r: String)
    ensures
        r@ == img_html(dest@, title@, id@),
{
    let mut out = String::from_str("<img");
    push_attr(&mut out, "src", dest);
    push_attr(&mut out, "id", id);
    push_attr(&mut out, "title", title);
    out.append(">");
    assert(out@ =~= img_html(dest@, title@, id@));
    out
}

fn simple_open_exec(t: &MdTag) -> (r: String)
    ensures
        r@ == simple_open(*t),
{
    match t {
        MdTag::Paragraph => String::from_str("<p>"),
        MdTag::BlockQuote => String::from_str("<blockquote>"),
        MdTag::HtmlBlock => String::from_str("<div html>"),
        MdTag::List(Some(n)) => {
            let mut out = String::from_str("<ol");
            if *n != 1 {
                out.append(" start=\"");
                push_dec(&mut out, *n);
                out.append("\"");
            }
            out.append(">");
            assert(out@ =~= simple_open(*t));
            out
        },
        MdTag::List(None) => String::from_str("<ul>"),
        MdTag::Item => String::from_str("<li>"),
        MdTag::Table => String::from_str("<table>"),
        MdTag::TableHead => String::from_str("<th>"),
        MdTag::TableRow => String::from_str("<tr>"),
        MdTag::TableCell => String::from_str("<td>"),
        MdTag::Emphasis => String::from_str("<em>"),
        MdTag::Strong => String::from_str("<strong>"),
        MdTag::Strikethrough => String::from_str("<del>"),
        _ => String::new(),
    }
}

fn end_exec(t: &MdTagEnd) -> (r: Option<String>)
    ensures
        match r {
            Some(h) => end_html(*t) == Some(h@),
            None => end_html(*t) is None,
        },
{
    match t {
        MdTagEnd::Paragraph => Some(String::from_str("</p>")),
        MdTagEnd::Heading(l) => {
            let mut out = String::from_str("</h");
            push_dec(&mut out, *l as u64);
            out.append(">");
            assert(out@ =~= "</h"@ + dec_spec(*l as nat) + ">"@);
            Some(out)
        },
        MdTagEnd::BlockQuote => Some(String::from_str("</blockquote>")),
        MdTagEnd::CodeBlock => Some(String::from_str("</code></pre>")),
        MdTagEnd::HtmlBlock => Some(String::from_str("</div>")),
        MdTagEnd::List(true) => Some(String::from_str("</ol>")),
        MdTagEnd::List(false) => Some(String::from_str("</ul>")),
        MdTagEnd::Item => Some(String::from_str("</li>")),
        MdTagEnd::Table => Some(String::from_str("</table>")),
        MdTagEnd::TableHead => Some(String::from_str("</th>")),
        MdTagEnd::TableRow => Some(String::from_str("</tr>")),
        MdTagEnd::TableCell => Some(String::from_str("</td>")),
        MdTagEnd::Emphasis => Some(String::from_str("</em>")),
        MdTagEnd::Strong => Some(String::from_str("</strong>")),
        MdTagEnd::Strikethrough => Some(String::from_str("</del>")),
        MdTagEnd::Link => Some(String::from_str("</a>")),
        MdTagEnd::Image => Some(String::new()),
        MdTagEnd::FootnoteDefinition => None,
        MdTagEnd::MetadataBlock => None,
    }
}

/// The HTML that the substitution map holds for `id`.
pub fn lookup_inclusion<'a>(m: &'a Vec<Inclusion>, id: &String) -> (r: Option<&'a String>)
    ensures
        match r {
            Some(h) => lookup_incl(incl_view(m@), id@) == Some(h@),
            None => lookup_incl(incl_view(m@), id@) is None,
        },
{
    let ghost mv = incl_view(m@);
    let mut n: usize = m.len();
    assert(mv.subrange(0, m@.len() as int) =~= mv);
    while n > 0
        invariant
            n <= m@.len(),
            mv == incl_view(m@),
            lookup_incl(mv, id@) == lookup_incl(mv.subrange(0, n as int), id@),
        decreases n,
    {
        let ghost pre = mv.subrange(0, n as int);
        assert(pre.drop_last() =~= mv.subrange(0, n - 1));
        if m[n - 1].did == *id {
            return Some(&m[n - 1].html);
        }
        n = n - 1;
    }
    assert(mv.subrange(0, 0) =~= Seq::<(Seq<char>, Seq<char>)>::empty());
    None
}

/// Builds the control list of a listing block from its text.
fn add_controls(fs: &mut Vec<TagFilter>, text: &str)
    ensures
        filters_view(final(fs)@) == control_lines(filters_view(old(fs)@), lines_spec(text@)),
{
    let lines = split_lines(text);
    let ghost ls = strs(lines@);
    let ghost start = filters_view(fs@);
    let mut i: usize = 0;
    assert(ls.subrange(0, 0) =~= Seq::<Seq<char>>::empty());
    while i < lines.len()
        invariant
            i <= lines@.len(),
            ls == strs(lines@),
            ls == lines_spec(text@),
            start == filters_view(old(fs)@),
            filters_view(fs@) == control_lines(start, ls.subrange(0, i as int)),
        decreases lines@.len() - i,
    {
        assert(ls.subrange(0, i + 1).drop_last() =~= ls.subrange(0, i as int));
        assert(ls[i as int] == lines[i as int]@);
        let ghost before = fs@;
        match split_colon(lines[i].as_str()) {
            Some((k, v)) => {
                let key = trim(k.as_str());
                if str_eq(key.as_str(), "only-if-tagged") {
                    let f = TagFilter { tag: trim(v.as_str()), keep: true };
                    fs.push(f);
                    assert(filters_view(fs@) =~= filters_view(before).push((trim_spec(v@), true)));
                } else if str_eq(key.as_str(), "skip-if-tagged") {
                    let f = TagFilter { tag: trim(v.as_str()), keep: false };
                    fs.push(f);
                    assert(filters_view(fs@) =~= filters_view(before).push((trim_spec(v@), false)));
                }
            },
            None => {},
        }
        i = i + 1;
    }
    assert(ls.subrange(0, i as int) =~= ls);
}

/// The list items of a listing.
fn listing_exec(ms: &Vec<DocMeta>) -> (r: String)
    ensures
        r@ == listing_html(metas_view(ms@)),
{
    let mut out = String::new();
    let mut i: usize = 0;
    let ghost mv = metas_view(ms@);
    assert(mv.subrange(0, 0) =~= Seq::<DocMetaView>::empty());
    while i < ms.len()
        invariant
            i <= ms@.len(),
            mv == metas_view(ms@),
            out@ == listing_html(mv.subrange(0, i as int)),
        decreases ms@.len() - i,
    {
        assert(mv.subrange(0, i + 1).drop_last() =~= mv.subrange(0, i as int));
        assert(mv.subrange(0, i + 1).last() == ms@[i as int]@);
        out.append("<li><a href=\"did:");
        out.append(ms[i].did.as_str());
        out.append("\">");
        out.append(ms[i].title.as_str());
        out.append("</a></li>");
        i = i + 1;
    }
    assert(mv.subrange(0, i as int) =~= mv);
    out
}

impl Rendering {
    /// The state before the first event.
    pub fn new() -> (r: Rendering)
        ensures
            r@ == initial_view(),
    {
        let r = Rendering {
            html: String::new(),
            title: String::new(),
            meta: MetaFields { status: String::new(), did: String::new(), tags: Vec::new() },
            links: Vec::new(),
            includes: Vec::new(),
            listing: false,
            url: String::new(),
            mode: Mode::Body,
            filters: Vec::new(),
        };
        assert(r@.meta.tags =~= Seq::<Seq<char>>::empty());
        assert(r@.links =~= Seq::<Seq<char>>::empty());
        assert(r@.includes =~= Seq::<Seq<char>>::empty());
        assert(r@.filters =~= Seq::<(Seq<char>, bool)>::empty());
        r
    }

    fn image(&mut self, dest: &String, title: &String, id: &String, map: Option<&Vec<Inclusion>>)
        ensures
            final(self)@ == image_step(old(self)@, dest@, title@, id@, map_view(map)),
    {
        self.mode = Mode::ImageAlt(0);
        proof {
            reveal_strlit("did:");
        }
        if starts_with(dest.as_str(), "did:") {
            let dv = chars_of(dest.as_str());
            let target = substring(&dv, 4, dv.len());
            match map {
                Some(m) => match lookup_inclusion(m, &target) {
                    Some(h) => {
                        let mut p = String::from_str("<article class=\"inclusion\"><a class=\"inclusion\" href=\"");
                        p.append(dest.as_str());
                        p.append("\">inclusion</a>\n");
                        p.append(h.as_str());
                        p.append("</article>\n");
                        assert(p@ =~= inclusion_html(dest@, h@));
                        self.html.append(p.as_str());
                    },
                    None => {
                        let mut p = String::from_str("<p class=\"error\">Inclusion fail: ");
                        p.append(dest.as_str());
                        p.append("</p>\n");
                        assert(p@ =~= inclusion_fail(dest@));
                        self.html.append(p.as_str());
                    },
                },
                None => {
                    let ghost before = self.includes@;
                    self.includes.push(target);
                    assert(strs(self.includes@) =~= strs(before).push(target@));
                },
            }
        } else {
            let p = img_exec(dest.as_str(), title.as_str(), id.as_str());
            self.html.append(p.as_str());
        }
    }

    fn start(&mut self, t: &MdTag, map: Option<&Vec<Inclusion>>) -> (r: Result<(), RenderError>)
        ensures
            outcome(r, start_step(old(self)@, *t, map_view(map)), final(self)@),
    {
        match t {
            MdTag::Heading(l, id) => {
                let p = heading_open_exec(*l, id);
                self.html.append(p.as_str());
                if *l == 1 {
                    self.mode = Mode::AfterTitleHeading;
                } else {
                    self.mode = Mode::Body;
                }
                Ok(())
            },
            MdTag::CodeBlock(None) => {
                proof {
                    reveal_strlit("");
                }
                let p = code_open_exec("");
                self.html.append(p.as_str());
                self.mode = Mode::CodeBlock;
                Ok(())
            },
            MdTag::CodeBlock(Some(lang)) => {
                if str_eq(lang.as_str(), "docdustry-docmeta") {
                    self.html.append(
                        "<details class=\"metainfo\"><summary>doc meta info</summary><pre class=\"docdustry-docmeta\"><code>",
                    );
                    self.mode = Mode::MetaBlock;
                } else if str_eq(lang.as_str(), "docdustry-doclist") {
                    self.html.append("<ul class=\"doclist\">");
                    self.mode = Mode::ListBlock;
                    self.listing = true;
                    self.filters = Vec::new();
                    assert(filters_view(self.filters@) =~= Seq::<(Seq<char>, bool)>::empty());
                } else {
                    let p = code_open_exec(lang.as_str());
                    self.html.append(p.as_str());
                    self.mode = Mode::CodeBlock;
                }
                Ok(())
            },
            MdTag::Link { dest, title, id } => {
                let p = link_open_exec(dest.as_str(), title.as_str(), id.as_str());
                self.html.append(p.as_str());
                let external = starts_with(dest.as_str(), "https://") || starts_with(dest.as_str(), "http://")
                    || starts_with(dest.as_str(), "#");
                if !external {
                    let ghost before = self.links@;
                    self.links.push(dest.clone());
                    assert(strs(self.links@) =~= strs(before).push(dest@));
                }
                Ok(())
            },
            MdTag::Image { dest, title, id } => {
                self.image(dest, title, id, map);
                Ok(())
            },
            MdTag::FootnoteDefinition(_) => Err(RenderError::Unsupported),
            MdTag::MetadataBlock => Err(RenderError::Unsupported),
            _ => {
                let p = simple_open_exec(t);
                self.html.append(p.as_str());
                Ok(())
            },
        }
    }

    fn body(&mut self, e: &MdEvent, map: Option<&Vec<Inclusion>>) -> (r: Result<(), RenderError>)
        ensures
            outcome(r, body_step(old(self)@, *e, map_view(map)), final(self)@),
    {
        match e {
            MdEvent::Start(t) => self.start(t, map),
            MdEvent::End(t) => match end_exec(t) {
                Some(h) => {
                    self.html.append(h.as_str());
                    Ok(())
                },
                None => Err(RenderError::Unsupported),
            },
            MdEvent::Text(t) => {
                push_escaped(&mut self.html, t.as_str());
                Ok(())
            },
            MdEvent::Code(c) => {
                self.html.append("<code>");
                push_escaped(&mut self.html, c.as_str());
                self.html.append("</code>");
                assert(self.html@ =~= old(self).html@ + ("<code>"@ + escape_spec(c@) + "</code>"@));
                Ok(())
            },
            MdEvent::Html(h) => {
                self.html.append(h.as_str());
                Ok(())
            },
            MdEvent::InlineHtml(h) => {
                self.html.append(h.as_str());
                Ok(())
            },
            MdEvent::FootnoteReference(_) => Err(RenderError::Unsupported),
            MdEvent::SoftBreak => {
                self.html.append("\n");
                Ok(())
            },
            MdEvent::HardBreak => {
                self.html.append("<br/>");
                Ok(())
            },
            MdEvent::Rule => {
                self.html.append("<hr/>");
                Ok(())
            },
            MdEvent::TaskListMarker(_) => Err(RenderError::Unsupported),
        }
    }

    /// Reads one event.
    pub fn step(&mut self, e: &MdEvent, map: Option<&Vec<Inclusion>>, metas: &Vec<DocMeta>) -> (r: Result<(), RenderError>)
        ensures
            outcome(r, step_spec(old(self)@, *e, map_view(map), metas_view(metas@)), final(self)@),
    {
        match self.mode {
            Mode::Body => self.body(e, map),
            Mode::AfterTitleHeading => match e {
                MdEvent::Text(t) => {
                    push_escaped(&mut self.html, t.as_str());
                    if self.title.as_str().is_empty() {
                        self.title = t.clone();
                    }
                    self.mode = Mode::Body;
                    Ok(())
                },
                _ => {
                    self.mode = Mode::Body;
                    self.body(e, map)
                },
            },
            Mode::MetaBlock => match e {
                MdEvent::Text(t) => {
                    push_escaped(&mut self.html, t.as_str());
                    self.meta.parse_meta(t.as_str());
                    Ok(())
                },
                MdEvent::End(MdTagEnd::CodeBlock) => {
                    self.html.append("</code></pre></details>");
                    self.mode = Mode::Body;
                    Ok(())
                },
                _ => Err(RenderError::UnexpectedEvent),
            },
            Mode::ListBlock => match e {
                MdEvent::Text(t) => {
                    add_controls(&mut self.filters, t.as_str());
                    Ok(())
                },
                MdEvent::End(MdTagEnd::CodeBlock) => {
                    let kept = filter_metas(metas, &self.filters);
                    let p = listing_exec(&kept);
                    self.html.append(p.as_str());
                    self.html.append("</ul>");
                    self.mode = Mode::Body;
                    Ok(())
                },
                _ => Err(RenderError::UnexpectedEvent),
            },
            Mode::CodeBlock => match e {
                MdEvent::Text(t) => {
                    push_escaped(&mut self.html, t.as_str());
                    Ok(())
                },
                MdEvent::End(MdTagEnd::CodeBlock) => {
                    self.html.append("</code></pre>");
                    self.mode = Mode::Body;
                    Ok(())
                },
                _ => Err(RenderError::UnexpectedEvent),
            },
            Mode::ImageAlt(d) => match e {
                MdEvent::End(MdTagEnd::Image) => {
                    if d == 0 {
                        self.mode = Mode::Body;
                    } else {
                        self.mode = Mode::ImageAlt(d - 1);
                    }
                    Ok(())
                },
                MdEvent::Start(MdTag::Image { .. }) => {
                    if d < u64::MAX {
                        self.mode = Mode::ImageAlt(d + 1);
                    }
                    Ok(())
                },
                _ => Ok(()),
            },
        }
    }

    /// Post-processing after the last event.
    pub fn finish(&mut self, src_path_rel: &str)
        ensures
            final(self)@ == finish_spec(old(self)@, src_path_rel@),
    {
        if self.meta.did.as_str().is_empty() {
            self.meta.did = derived_id(src_path_rel, self.title.as_str());
        }
        if self.title.as_str().is_empty() {
            self.title = String::from_str("<unknown>");
        }
        self.url = rel_url(src_path_rel);
    }
}

/// Translates the event stream of the document at `src_path_rel`, with the
/// substitution map of its transclusions (if any) and the metadata of the
/// corpus (for listing blocks).
pub fn translate(
    events: &Vec<MdEvent>,
    src_path_rel: &str,
    map: Option<&Vec<Inclusion>>,
    metas: &Vec<DocMeta>,
) -> (r: Result<Rendering, RenderError>)
    ensures
        match r {
            Ok(x) => translate_spec(events@, src_path_rel@, map_view(map), metas_view(metas@)) == Ok::<RenderingView, RenderError>(x@),
            Err(e) => translate_spec(events@, src_path_rel@, map_view(map), metas_view(metas@)) == Err::<RenderingView, RenderError>(e),
        },
{
    let ghost mv = map_view(map);
    let ghost ms = metas_view(metas@);
    let mut st = Rendering::new();
    let mut i: usize = 0;
    assert(events@.subrange(0, 0) =~= Seq::<MdEvent>::empty());
    while i < events.len()
        invariant
            i <= events@.len(),
            mv == map_view(map),
            ms == metas_view(metas@),
            run_spec(events@.subrange(0, i as int), mv, ms) == Ok::<RenderingView, RenderError>(st@),
        decreases events@.len() - i,
    {
        assert(events@.subrange(0, i + 1).drop_last() =~= events@.subrange(0, i as int));
        match st.step(&events[i], map, metas) {
            Ok(()) => {},
            Err(e) => {
                proof {
                    lemma_run_err_stays(events@, i as int + 1, mv, ms);
                }
                return Err(e);
            },
        }
        i = i + 1;
    }
    assert(events@.subrange(0, i as int) =~= events@);
    st.finish(src_path_rel);
    Ok(st)
}

/// Whether one event fails, and the mode it leads to, depend on the mode
/// alone: not on the map, the metadata or the rest of the state.
proof fn lemma_step_mode(
    s1: RenderingView,
    s2: RenderingView,
    e: MdEvent,
    m1: Option<Seq<(Seq<char>, Seq<char>)>>,
    m2: Option<Seq<(Seq<char>, Seq<char>)>>,
    ms1: Seq<DocMetaView>,
    ms2: Seq<DocMetaView>,
)
    requires
        s1.mode == s2.mode,
    ensures
        step_spec(s1, e, m1, ms1) is Ok == step_spec(s2, e, m2, ms2) is Ok,
        step_spec(s1, e, m1, ms1) is Ok ==> step_spec(s1, e, m1, ms1)->Ok_0.mode == step_spec(s2, e, m2, ms2)->Ok_0.mode,
{
}

/// Whether a translation fails depends on the event stream alone.
pub proof fn lemma_run_mode(
    events: Seq<MdEvent>,
    m1: Option<Seq<(Seq<char>, Seq<char>)>>,
    m2: Option<Seq<(Seq<char>, Seq<char>)>>,
    ms1: Seq<DocMetaView>,
    ms2: Seq<DocMetaView>,
)
    ensures
        run_spec(events, m1, ms1) is Ok == run_spec(events, m2, ms2) is Ok,
        run_spec(events, m1, ms1) is Ok ==> run_spec(events, m1, ms1)->Ok_0.mode == run_spec(events, m2, ms2)->Ok_0.mode,
    decreases events.len(),
{
    if events.len() > 0 {
        lemma_run_mode(events.drop_last(), m1, m2, ms1, ms2);
        if run_spec(events.drop_last(), m1, ms1) is Ok {
            lemma_step_mode(
                run_spec(events.drop_last(), m1, ms1)->Ok_0,
                run_spec(events.drop_last(), m2, ms2)->Ok_0,
                events.last(),
                m1,
                m2,
                ms1,
                ms2,
            );
        }
    }
}

/// Translates the raw text of the document at `src_path_rel`: its markdown
/// event stream, read as `translate` does.
pub fn translate_text(
    text: &str,
    src_path_rel: &str,
    map: Option<&Vec<Inclusion>>,
    metas: &Vec<DocMeta>,
) -> (r: Result<Rendering, RenderError>)
    ensures
        match r {
            Ok(x) => translate_spec(markdown_events(text@), src_path_rel@, map_view(map), metas_view(metas@)) == Ok::<RenderingView, RenderError>(x@),
            Err(e) => translate_spec(markdown_events(text@), src_path_rel@, map_view(map), metas_view(metas@)) == Err::<RenderingView, RenderError>(e),
        },
{
    let events = parse_markdown(text);
    translate(&events, src_path_rel, map, metas)
}

/// Once a prefix of the stream fails, the whole stream fails with the same error.
proof fn lemma_run_err_stays(
    events: Seq<MdEvent>,
    n: int,
    map: Option<Seq<(Seq<char>, Seq<char>)>>,
    metas: Seq<DocMetaView>,
)
    requires
        0 <= n <= events.len(),
        run_spec(events.subrange(0, n), map, metas) is Err,
    ensures
        run_spec(events, map, metas) == run_spec(events.subrange(0, n), map, metas),
    decreases events.len() - n,
{
    if n < events.len() {
        assert(events.subrange(0, n + 1).drop_last() =~= events.subrange(0, n));
        lemma_run_err_stays(events, n + 1, map, metas);
    } else {
        assert(events.subrange(0, n) =~= events);
    }
}

} // verus!
