use docdustry::events::{MdEvent, MdTag, MdTagEnd};
use docdustry::meta::DocMeta;
use docdustry::translate::{translate, translate_text, Inclusion, RenderError, Rendering};

fn render(text: &str) -> Rendering {
    translate_text(text, "dir/doc.md", None, &Vec::new()).unwrap()
}

#[test]
fn heading_and_emphasis() {
    let r = render("# Title\n\nHello *world*\n");
    assert_eq!(r.html, "<h1>Title</h1><p>Hello <em>world</em></p>");
    assert_eq!(r.title, "Title");
}

#[test]
fn later_headings_keep_first_title() {
    let r = render("# One\n\n# Two\n\n## Sub\n");
    assert_eq!(r.title, "One");
    assert_eq!(r.html, "<h1>One</h1><h1>Two</h1><h2>Sub</h2>");
}

#[test]
fn text_is_escaped() {
    let r = render("a < b & c \"d\" 'e'\n");
    assert_eq!(r.html, "<p>a &lt; b &amp; c &quot;d&quot; &#39;e&#39;</p>");
}

#[test]
fn translation_is_repeatable() {
    let text = "# T\n\nSome *text* and `code`.\n\n- a\n- b\n\n> quote\n";
    let a = render(text);
    let b = render(text);
    assert_eq!(a.html, b.html);
    assert_eq!(a.meta.did, b.meta.did);
    assert!(a.html.contains("<code>code</code>"));
    assert!(a.html.contains("<ul><li>a</li><li>b</li></ul>"));
    assert!(a.html.contains("<blockquote>"));
}

#[test]
fn fenced_code_block_with_language() {
    let r = render("```rust\nfn x() {}\n```\n");
    assert_eq!(r.html, "<pre class=\"language-rust\"><code>fn x() {}\n</code></pre>");
}

#[test]
fn code_block_without_language_is_unknown() {
    let r = render("```\n<b>\n```\n");
    assert_eq!(r.html, "<pre class=\"language-unknown\"><code>&lt;b&gt;\n</code></pre>");
    let r2 = render("    indented\n");
    assert_eq!(r2.html, "<pre class=\"language-unknown\"><code>indented\n</code></pre>");
}

#[test]
fn ordered_list_start() {
    let r = render("3. a\n4. b\n");
    assert_eq!(r.html, "<ol start=\"3\"><li>a</li><li>b</li></ol>");
    let r1 = render("1. a\n");
    assert_eq!(r1.html, "<ol><li>a</li></ol>");
}

#[test]
fn breaks_and_rules() {
    let r = render("a\nb  \nc\n\n---\n");
    assert_eq!(r.html, "<p>a\nb<br/>c</p><hr/>");
}

#[test]
fn links_are_classified() {
    let r = render("[a](http://x) [b](https://y) [c](#z) [d](other.md)\n");
    assert_eq!(r.links, vec!["other.md".to_string()]);
    assert!(r.html.contains("<a href=\"http://x\">a</a>"));
    assert!(r.html.contains("<a href=\"other.md\">d</a>"));
}

#[test]
fn link_with_title() {
    let r = render("[a](x.md \"T\")\n");
    assert_eq!(r.html, "<p><a href=\"x.md\" title=\"T\">a</a></p>");
    assert_eq!(r.links, vec!["x.md".to_string()]);
}

#[test]
fn ordinary_image() {
    let r = render("![alt](pic.png \"T\")\n");
    assert_eq!(r.html, "<p><img src=\"pic.png\" title=\"T\"></p>");
    assert!(r.includes.is_empty());
}

#[test]
fn image_alternative_text_is_skipped() {
    let r = render("![a *b* `c` [d](e.md)](pic.png)\n");
    assert_eq!(r.html, "<p><img src=\"pic.png\"></p>");
    assert!(r.links.is_empty());
    let events = vec![
        MdEvent::Start(MdTag::Image { dest: "p.png".to_string(), title: String::new(), id: String::new() }),
        MdEvent::Start(MdTag::Image { dest: "q.png".to_string(), title: String::new(), id: String::new() }),
        MdEvent::End(MdTagEnd::Image),
        MdEvent::Text("alt".to_string()),
        MdEvent::End(MdTagEnd::Image),
        MdEvent::Text("after".to_string()),
    ];
    let r2 = translate(&events, "d.md", None, &Vec::new()).unwrap();
    assert_eq!(r2.html, "<img src=\"p.png\">after");
}

#[test]
fn metadata_block_sets_fields() {
    let r = render("```docdustry-docmeta\nstatus: draft \nid: my-doc\ntag: a\ntag:  b\nother: z\n```\n");
    assert_eq!(r.meta.status, "draft");
    assert_eq!(r.meta.did, "my-doc");
    assert_eq!(r.meta.tags, vec!["a".to_string(), "b".to_string()]);
    assert_eq!(
        r.html,
        "<details class=\"metainfo\"><summary>doc meta info</summary><pre class=\"docdustry-docmeta\"><code>status: draft \nid: my-doc\ntag: a\ntag:  b\nother: z\n</code></pre></details>"
    );
}

#[test]
fn transclusion_without_map_is_recorded() {
    let r = render("![x](did:other)\n");
    assert_eq!(r.includes, vec!["other".to_string()]);
    assert_eq!(r.html, "<p></p>");
}

#[test]
fn transclusion_with_map_is_spliced() {
    let text = "![](did:other)\n";
    let map = vec![Inclusion { did: "other".to_string(), html: "<p>X</p>".to_string() }];
    let r = translate_text(text, "d.md", Some(&map), &Vec::new()).unwrap();
    assert_eq!(
        r.html,
        "<p><article class=\"inclusion\"><a class=\"inclusion\" href=\"did:other\">inclusion</a>\n<p>X</p></article>\n</p>"
    );
    assert!(r.includes.is_empty());
}

#[test]
fn dangling_transclusion_gives_marker() {
    let text = "![](did:missing)\n";
    let map: Vec<Inclusion> = Vec::new();
    let r = translate_text(text, "d.md", Some(&map), &Vec::new()).unwrap();
    assert_eq!(r.html, "<p><p class=\"error\">Inclusion fail: did:missing</p>\n</p>");
}

#[test]
fn listing_filters_compose() {
    let metas = vec![
        DocMeta { did: "d1".to_string(), title: "Draft".to_string(), tags: vec!["draft".to_string()] },
        DocMeta { did: "d2".to_string(), title: "Final".to_string(), tags: vec!["final".to_string()] },
        DocMeta {
            did: "d3".to_string(),
            title: "Both".to_string(),
            tags: vec!["final".to_string(), "draft".to_string()],
        },
    ];
    let text = "```docdustry-doclist\nonly-if-tagged: final\nskip-if-tagged: draft\n```\n";
    let map: Vec<Inclusion> = Vec::new();
    let r = translate_text(text, "l.md", Some(&map), &metas).unwrap();
    assert_eq!(r.html, "<ul class=\"doclist\"><li><a href=\"did:d2\">Final</a></li></ul>");
    assert!(r.listing);
}

#[test]
fn footnote_is_unsupported() {
    let events = vec![MdEvent::Text("a".to_string()), MdEvent::FootnoteReference("1".to_string())];
    let r = translate(&events, "d.md", None, &Vec::new());
    assert!(matches!(r, Err(RenderError::Unsupported)));
    let events2 = vec![MdEvent::TaskListMarker(true)];
    assert!(matches!(translate(&events2, "d.md", None, &Vec::new()), Err(RenderError::Unsupported)));
    let events3 = vec![MdEvent::Start(MdTag::MetadataBlock)];
    assert!(matches!(translate(&events3, "d.md", None, &Vec::new()), Err(RenderError::Unsupported)));
}

#[test]
fn unexpected_event_in_code_block() {
    let events = vec![
        MdEvent::Start(MdTag::CodeBlock(Some("c".to_string()))),
        MdEvent::Start(MdTag::Emphasis),
        MdEvent::End(MdTagEnd::CodeBlock),
    ];
    let r = translate(&events, "d.md", None, &Vec::new());
    assert!(matches!(r, Err(RenderError::UnexpectedEvent)));
}

#[test]
fn untitled_document_gets_placeholder() {
    let r = render("just text\n");
    assert_eq!(r.title, "<unknown>");
    assert_eq!(r.meta.did, format!("{:x}", md5::compute("dir/doc.md")));
}

#[test]
fn map_and_snapshot_do_not_change_plain_documents() {
    let text = "# T\n\n[x](y.md) and ![i](p.png)\n";
    let plain = translate_text(text, "d.md", None, &Vec::new()).unwrap();
    let map = vec![Inclusion { did: "y".to_string(), html: "<p>Y</p>".to_string() }];
    let metas = vec![DocMeta { did: "y".to_string(), title: "Y".to_string(), tags: vec![] }];
    let again = translate_text(text, "d.md", Some(&map), &metas).unwrap();
    assert_eq!(plain.html, again.html);
    assert_eq!(plain.links, again.links);
    assert_eq!(plain.meta.did, again.meta.did);
}
