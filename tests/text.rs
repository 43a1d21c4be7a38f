use docdustry::config::Config;
use docdustry::meta::{filter_metas, DocMeta, MetaFields, TagFilter};
use docdustry::text::{split_colon, split_lines, starts_with, trim};

#[test]
fn trims_whitespace() {
    assert_eq!(trim(" \t a b \n"), "a b");
    assert_eq!(trim("   "), "");
    assert_eq!(trim(""), "");
    assert_eq!(trim("\u{3000}x\u{a0}"), "x");
}

#[test]
fn splits_lines_and_pairs() {
    assert_eq!(split_lines("a\nb\n"), vec!["a".to_string(), "b".to_string(), "".to_string()]);
    assert_eq!(split_lines(""), vec!["".to_string()]);
    assert_eq!(split_colon("k: v: w"), Some(("k".to_string(), " v: w".to_string())));
    assert_eq!(split_colon("none"), None);
    assert!(starts_with("did:x", "did:"));
    assert!(!starts_with("di", "did:"));
}

#[test]
fn parse_meta_applies_lines() {
    let mut m = MetaFields { status: String::new(), did: String::new(), tags: vec![] };
    m.parse_meta("status: a\nid:  x \ntag: t1\ntag: t2\nstatus: b\n status: c\n");
    assert_eq!(m.status, "b");
    assert_eq!(m.did, "x");
    assert_eq!(m.tags, vec!["t1".to_string(), "t2".to_string()]);
}

#[test]
fn repeated_tag_is_kept_once() {
    let mut m = MetaFields { status: String::new(), did: String::new(), tags: vec![] };
    m.parse_meta("tag: a\ntag: b\ntag: a\ntag:  b \n");
    assert_eq!(m.tags, vec!["a".to_string(), "b".to_string()]);
}

#[test]
fn filter_metas_keeps_final_only() {
    let metas = vec![
        DocMeta { did: "1".to_string(), title: "a".to_string(), tags: vec!["draft".to_string()] },
        DocMeta { did: "2".to_string(), title: "b".to_string(), tags: vec!["final".to_string()] },
        DocMeta { did: "3".to_string(), title: "c".to_string(), tags: vec!["final".to_string(), "draft".to_string()] },
    ];
    let fs = vec![
        TagFilter { tag: "final".to_string(), keep: true },
        TagFilter { tag: "draft".to_string(), keep: false },
    ];
    let r = filter_metas(&metas, &fs);
    assert_eq!(r.len(), 1);
    assert_eq!(r[0].did, "2");
    assert_eq!(filter_metas(&metas, &Vec::new()).len(), 3);
}

#[test]
fn config_defaults_and_sources() {
    let mut c = Config::new();
    assert_eq!(c.output, "out/");
    assert_eq!(c.db_path, "db.sqlite3");
    assert!(c.frontpage.is_none());
    assert_eq!(c.get_sources(), vec![".".to_string()]);
    c.push_source_dir("docs".to_string());
    c.push_source_dir("more".to_string());
    assert_eq!(c.get_sources(), vec!["docs".to_string(), "more".to_string()]);
}
