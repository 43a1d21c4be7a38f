use docdustry::resolve::{doc2docmeta, read_md_files, Doc, DocState, HtmlConverter, SourceFile};
use docdustry::translate::RenderError;

fn src(rel: &str, text: &str) -> SourceFile {
    SourceFile { base: "root".to_string(), rel: rel.to_string(), text: Some(text.to_string()) }
}

fn meta(id: &str, tags: &[&str]) -> String {
    let mut s = format!("```docdustry-docmeta\nid: {}\n", id);
    for t in tags {
        s.push_str(&format!("tag: {}\n", t));
    }
    s.push_str("```\n");
    s
}

fn build(sources: Vec<SourceFile>) -> Vec<Doc> {
    let mut docs = Vec::new();
    read_md_files(&mut docs, &sources).unwrap();
    docs
}

#[test]
fn chain_of_transclusions_resolves() {
    let a = format!("{}# A\n\n![](did:b)\n", meta("a", &[]));
    let b = format!("{}# B\n\n![](did:c)\n", meta("b", &[]));
    let c = format!("{}# C\n\nC body text\n", meta("c", &[]));
    let docs = build(vec![src("a.md", &a), src("b.md", &b), src("c.md", &c)]);
    assert_eq!(docs.len(), 3);
    assert_eq!(docs[0].state, DocState::Resolved);
    assert_eq!(docs[1].state, DocState::Resolved);
    assert_eq!(docs[2].state, DocState::FirstPassDone);
    for d in &docs {
        assert!(!d.html.is_empty());
    }
    assert!(docs[1].html.contains(&docs[2].html));
    assert!(docs[0].html.contains(&docs[1].html));
    assert!(docs[0].html.contains("C body text"));
    assert_eq!(docs[0].includes, vec!["b".to_string()]);
}

#[test]
fn mutual_transclusion_terminates() {
    let a = format!("{}# A\n\n![](did:b)\n", meta("a", &[]));
    let b = format!("{}# B\n\n![](did:a)\n", meta("b", &[]));
    let docs = build(vec![src("a.md", &a), src("b.md", &b)]);
    assert_eq!(docs.len(), 2);
    assert!(docs.iter().any(|d| d.state == DocState::Abandoned));
    assert!(!(docs[0].state == DocState::Resolved && docs[1].state == DocState::Resolved));
    assert!(docs[0].html.contains("Inclusion fail: did:b"));
}

#[test]
fn listing_sees_final_metadata() {
    let list = "# List\n\n```docdustry-doclist\nonly-if-tagged: final\nskip-if-tagged: draft\n```\n";
    let d1 = format!("{}# Draft\n", meta("d1", &["draft"]));
    let d2 = format!("{}# Final\n", meta("d2", &["final"]));
    let d3 = format!("{}# Both\n", meta("d3", &["final", "draft"]));
    let docs = build(vec![src("l.md", list), src("1.md", &d1), src("2.md", &d2), src("3.md", &d3)]);
    assert_eq!(docs[0].state, DocState::Resolved);
    assert_eq!(docs[0].html, "<h1>List</h1><ul class=\"doclist\"><li><a href=\"did:d2\">Final</a></li></ul>");
    let metas = doc2docmeta(&docs);
    assert_eq!(metas.len(), 4);
    assert_eq!(metas[2].did, "d2");
    assert_eq!(metas[3].tags, vec!["final".to_string(), "draft".to_string()]);
}

#[test]
fn unreadable_source_is_skipped() {
    let sources = vec![
        src("a.md", "# A\n"),
        SourceFile { base: "root".to_string(), rel: "gone.md".to_string(), text: None },
        src("b.md", "# B\n"),
    ];
    let docs = build(sources);
    assert_eq!(docs.len(), 2);
    assert_eq!(docs[0].src_path_rel, "a.md");
    assert_eq!(docs[1].src_path_rel, "b.md");
    assert_eq!(doc2docmeta(&docs).len(), 2);
}

#[test]
fn dangling_reference_is_marked() {
    let a = "# A\n\n![](did:nowhere)\n";
    let docs = build(vec![src("a.md", a)]);
    assert_eq!(docs[0].state, DocState::Resolved);
    assert!(docs[0].html.contains("<p class=\"error\">Inclusion fail: did:nowhere</p>"));
}

#[test]
fn appends_to_existing_documents() {
    let mut docs = vec![Doc::new("r".to_string(), "old.md".to_string())];
    let r: Result<(), RenderError> = read_md_files(&mut docs, &vec![src("n.md", "# N\n")]);
    assert!(r.is_ok());
    assert_eq!(docs.len(), 2);
    assert_eq!(docs[1].title, "N");
}

#[test]
fn identifiers_are_stable_across_runs() {
    let sources = vec![src("dir/x.md", "# T\n"), src("y.md", "no title\n")];
    let d1 = build(vec![src("dir/x.md", "# T\n"), src("y.md", "no title\n")]);
    let d2 = build(sources);
    assert_eq!(d1[0].did, d2[0].did);
    assert_eq!(d1[0].did, format!("{:x}", md5::compute("dir/x.mdT")));
    assert_eq!(d1[1].title, "<unknown>");
    assert_eq!(d1[1].did, format!("{:x}", md5::compute("y.md")));
}

#[test]
fn converter_starts_empty() {
    let c = HtmlConverter::new();
    assert!(c.docs().is_empty());
    let d = Doc::new("r".to_string(), "a/b.md".to_string());
    assert_eq!(d.state, DocState::Discovered);
    assert!(d.rel_url().starts_with("../"));
    assert!(d.html_path().ends_with("/b.html"));
    assert_eq!(d.shorthash().len(), 6);
}

#[test]
fn self_inclusion_is_abandoned() {
    let a = format!("{}# A\n\n![](did:a)\n", meta("a", &[]));
    let docs = build(vec![src("a.md", &a), src("b.md", "# B\n")]);
    assert_eq!(docs[0].state, DocState::Abandoned);
    assert!(docs[0].html.contains("Inclusion fail: did:a"));
    assert_eq!(docs[1].state, DocState::FirstPassDone);
    assert_eq!(docs[1].html, "<h1>B</h1>");
}

#[test]
fn long_chain_resolves_in_any_order() {
    let a = format!("{}# A\n\n![](did:b)\n", meta("a", &[]));
    let b = format!("{}# B\n\n![](did:c)\n", meta("b", &[]));
    let c = format!("{}# C\n\n![](did:d)\n", meta("c", &[]));
    let d = format!("{}# D\n\nleaf\n", meta("d", &[]));
    let docs = build(vec![src("a.md", &a), src("b.md", &b), src("c.md", &c), src("d.md", &d)]);
    for x in &docs[..3] {
        assert_eq!(x.state, DocState::Resolved);
    }
    assert!(docs[0].html.contains(&docs[1].html));
    assert!(docs[1].html.contains(&docs[2].html));
    assert!(docs[2].html.contains(&docs[3].html));
    assert!(docs[0].html.contains("leaf"));
}

#[test]
fn document_including_a_cycle_is_abandoned() {
    let a = format!("{}# A\n\n![](did:b)\n", meta("a", &[]));
    let b = format!("{}# B\n\n![](did:c)\n", meta("b", &[]));
    let c = format!("{}# C\n\n![](did:b)\n", meta("c", &[]));
    let e = format!("{}# E\n\nplain\n", meta("e", &[]));
    let docs = build(vec![src("a.md", &a), src("b.md", &b), src("c.md", &c), src("e.md", &e)]);
    assert_eq!(docs[0].state, DocState::Abandoned);
    assert_eq!(docs[1].state, DocState::Abandoned);
    assert_eq!(docs[2].state, DocState::Abandoned);
    assert_eq!(docs[3].state, DocState::FirstPassDone);
}
