//! Properties of the whole library, proved from the contracts of its parts.

use vstd::prelude::*;
use crate::address::{
    file_name_spec, hex_spec, html_path_spec, md5_of, parent_spec, shorthash_spec, stem_spec,
};
use crate::meta::{filter_chain, filter_once, passes, DocMetaView};
use crate::text::has_prefix;
use crate::resolve::{
    has_abandoned_include, includes_edge, corpus_of, deps_before, first_failure, first_with_id, readable, resolution_ok, settled_doc, snapshot, Doc,
    SourceFile,
};
use crate::translate::{is_external, run_spec, step_spec, translate_spec, RenderingView};
use crate::events::{MdEvent, MdTag};

verus! {

/// Two runs over the same sources assign every document the same identifier
/// (and the same title and tags): identifiers depend on the sources alone.
pub proof fn law_identifiers_stable(d1: Seq<Doc>, d2: Seq<Doc>, srcs: Seq<SourceFile>, k: int)
    requires
        corpus_of(d1, readable(srcs)),
        corpus_of(d2, readable(srcs)),
        0 <= k < d1.len(),
    ensures
        d1[k].did@ == d2[k].did@,
        d1[k].title@ == d2[k].title@,
        d1[k].src_path_rel@ == d2[k].src_path_rel@,
{
    assert(settled_doc(d1[k], readable(srcs)[k]));
    assert(settled_doc(d2[k], readable(srcs)[k]));
}

/// Output paths are a function of the source path, and two sources share one
/// only when their directories hash to the same six hex characters and their
/// file stems are equal: same-named files in directories with different
/// hashes never collide.
pub proof fn law_output_paths(pa: Seq<char>, pb: Seq<char>)
    requires
        md5_of(parent_spec(pa)).len() == 16,
        md5_of(parent_spec(pb)).len() == 16,
    ensures
        pa == pb ==> html_path_spec(pa) == html_path_spec(pb),
        html_path_spec(pa) == html_path_spec(pb) ==> shorthash_spec(pa) == shorthash_spec(pb)
            && stem_spec(file_name_spec(pa)) == stem_spec(file_name_spec(pb)),
{
    reveal_strlit(".html");
    crate::address::lemma_hex_spec(md5_of(parent_spec(pa)).subrange(0, 3));
    crate::address::lemma_hex_spec(md5_of(parent_spec(pb)).subrange(0, 3));
    if html_path_spec(pa) == html_path_spec(pb) {
        let h = html_path_spec(pa);
        let s1 = shorthash_spec(pa);
        let s2 = shorthash_spec(pb);
        assert(s1 =~= h.subrange(0, 6));
        assert(s2 =~= h.subrange(0, 6));
        let a = stem_spec(file_name_spec(pa));
        let b = stem_spec(file_name_spec(pb));
        assert(a =~= h.subrange(7, h.len() - 5));
        assert(b =~= h.subrange(7, h.len() - 5));
    }
}

/// After any prefix of a document's events, no recorded link is external
/// (`http://`, `https://` or `#`).
pub proof fn law_links_internal(
    events: Seq<MdEvent>,
    map: Option<Seq<(Seq<char>, Seq<char>)>>,
    metas: Seq<DocMetaView>,
)
    requires
        run_spec(events, map, metas) is Ok,
    ensures
        forall|x: int|
            0 <= x < run_spec(events, map, metas)->Ok_0.links.len() ==> !is_external(
                #[trigger] run_spec(events, map, metas)->Ok_0.links[x],
            ),
    decreases events.len(),
{
    if events.len() > 0 {
        let pre = events.drop_last();
        law_links_internal(pre, map, metas);
        let s = run_spec(pre, map, metas)->Ok_0;
        let t = run_spec(events, map, metas)->Ok_0;
        assert(step_spec(s, events.last(), map, metas) == Ok::<RenderingView, crate::translate::RenderError>(t));
        assert forall|x: int| 0 <= x < t.links.len() implies !is_external(#[trigger] t.links[x]) by {
            if x < s.links.len() {
                assert(t.links[x] == s.links[x]);
            }
        }
    }
}

/// A link read in the body is recorded exactly when its target is internal:
/// one beginning with `http://`, `https://` or `#` never is, any other always is.
pub proof fn law_link_classification(
    s: RenderingView,
    dest: String,
    title: String,
    id: String,
    m: Option<Seq<(Seq<char>, Seq<char>)>>,
    ms: Seq<DocMetaView>,
)
    requires
        s.mode is Body,
    ensures
        step_spec(s, MdEvent::Start(MdTag::Link { dest, title, id }), m, ms) is Ok,
        is_external(dest@) ==> step_spec(s, MdEvent::Start(MdTag::Link { dest, title, id }), m, ms)->Ok_0.links
            == s.links,
        !is_external(dest@) ==> step_spec(s, MdEvent::Start(MdTag::Link { dest, title, id }), m, ms)->Ok_0.links
            == s.links.push(dest@),
{
}

/// A document passes a chain of listing filters exactly when it passes each
/// of them: the result is the documents of the list, in order, that carry
/// every `keep` tag and none of the others.
pub proof fn law_filter_chain(list: Seq<DocMetaView>, fs: Seq<(Seq<char>, bool)>, m: DocMetaView)
    ensures
        filter_chain(list, fs).contains(m) <==> list.contains(m) && forall|y: int|
            0 <= y < fs.len() ==> passes(m, #[trigger] fs[y].0, fs[y].1),
    decreases fs.len(),
{
    if fs.len() > 0 {
        law_filter_chain(list, fs.drop_last(), m);
        lemma_filter_once(filter_chain(list, fs.drop_last()), fs.last().0, fs.last().1, m);
        if list.contains(m) && forall|y: int| 0 <= y < fs.len() ==> passes(m, #[trigger] fs[y].0, fs[y].1) {
            assert forall|y: int| 0 <= y < fs.drop_last().len() implies passes(m, #[trigger] fs.drop_last()[y].0, fs.drop_last()[y].1) by {
                assert(fs.drop_last()[y] == fs[y]);
            }
        }
        if filter_chain(list, fs).contains(m) {
            assert forall|y: int| 0 <= y < fs.len() implies passes(m, #[trigger] fs[y].0, fs[y].1) by {
                if y < fs.len() - 1 {
                    assert(fs.drop_last()[y] == fs[y]);
                }
            }
        }
    }
}

proof fn lemma_filter_once(list: Seq<DocMetaView>, tag: Seq<char>, keep: bool, m: DocMetaView)
    ensures
        filter_once(list, tag, keep).contains(m) <==> list.contains(m) && passes(m, tag, keep),
    decreases list.len(),
{
    if list.len() > 0 {
        let pre = list.drop_last();
        let l = list.last();
        let fp = filter_once(pre, tag, keep);
        let f = filter_once(list, tag, keep);
        lemma_filter_once(pre, tag, keep, m);
        if list.contains(m) && passes(m, tag, keep) {
            let i = choose|i: int| 0 <= i < list.len() && list[i] == m;
            if i == list.len() - 1 {
                assert(f == fp.push(l));
                assert(f[f.len() - 1] == m);
            } else {
                assert(pre[i] == m);
                assert(fp.contains(m));
                let j = choose|j: int| 0 <= j < fp.len() && fp[j] == m;
                if passes(l, tag, keep) {
                    assert(f[j] == m);
                } else {
                    assert(f[j] == m);
                }
            }
        }
        if f.contains(m) {
            let i = choose|i: int| 0 <= i < f.len() && f[i] == m;
            if passes(l, tag, keep) && i == f.len() - 1 {
                assert(f == fp.push(l));
                assert(list[list.len() - 1] == m);
            } else {
                if passes(l, tag, keep) {
                    assert(f == fp.push(l));
                }
                assert(fp[i] == m);
                assert(fp.contains(m));
                let j = choose|j: int| 0 <= j < pre.len() && pre[j] == m;
                assert(list[j] == m);
            }
        }
    }
}

/// When two documents include each other (each being the document that the
/// other's reference finds), the resolver does not mark both resolved: at
/// least one is reported as abandoned.
pub proof fn law_cycle_not_both_resolved(docs: Seq<Doc>, srcs: Seq<SourceFile>, a: int, b: int, xa: int, xb: int)
    requires
        corpus_of(docs, readable(srcs)),
        0 <= a < docs.len(),
        0 <= b < docs.len(),
        0 <= xa < docs[a].includes@.len(),
        0 <= xb < docs[b].includes@.len(),
        first_with_id(docs, docs[a].includes@[xa]@, b),
        first_with_id(docs, docs[b].includes@[xb]@, a),
    ensures
        !(docs[a].state is Resolved && docs[b].state is Resolved),
{
    let rank = choose|rank: Seq<nat>| resolution_ok(docs, rank, snapshot(docs));
    if docs[a].state is Resolved && docs[b].state is Resolved {
        assert(deps_before(docs, rank, a));
        assert(deps_before(docs, rank, b));
        assert(rank[b] < rank[a]);
        assert(rank[a] < rank[b]);
    }
}

proof fn lemma_readable_all_read(srcs: Seq<SourceFile>)
    ensures
        forall|k: int| 0 <= k < readable(srcs).len() ==> (#[trigger] readable(srcs)[k]).text is Some,
        readable(readable(srcs)) == readable(srcs),
        first_failure(readable(srcs)) == first_failure(srcs),
    decreases srcs.len(),
{
    if srcs.len() > 0 {
        let pre = srcs.drop_last();
        lemma_readable_all_read(pre);
        if srcs.last().text is Some {
            let r = readable(srcs);
            assert(r.drop_last() =~= readable(pre));
            assert forall|k: int| 0 <= k < r.len() implies (#[trigger] r[k]).text is Some by {
                if k < r.len() - 1 {
                    assert(r[k] == readable(pre)[k]);
                }
            }
        }
    }
}

/// Sources that could not be read neither become documents nor enter the
/// metadata snapshot, and never make the run fail: every document of the
/// corpus comes from a readable source, the snapshot holds exactly the
/// corpus's documents, and the run fails exactly as it would without them.
pub proof fn law_unreadable_excluded(docs: Seq<Doc>, srcs: Seq<SourceFile>)
    requires
        corpus_of(docs, readable(srcs)),
    ensures
        forall|k: int| 0 <= k < docs.len() ==> (#[trigger] readable(srcs)[k]).text is Some
            && docs[k].src_path_rel@ == readable(srcs)[k].rel@,
        snapshot(docs).len() == docs.len(),
        first_failure(srcs) == first_failure(readable(srcs)),
{
    lemma_readable_all_read(srcs);
    assert forall|k: int| 0 <= k < docs.len() implies (#[trigger] readable(srcs)[k]).text is Some
        && docs[k].src_path_rel@ == readable(srcs)[k].rel@ by {
        assert(settled_doc(docs[k], readable(srcs)[k]));
    }
}

proof fn lemma_step_monotone(
    s: RenderingView,
    e: MdEvent,
    m: Option<Seq<(Seq<char>, Seq<char>)>>,
    ms: Seq<DocMetaView>,
)
    requires
        step_spec(s, e, m, ms) is Ok,
        s.mode is ListBlock ==> s.listing,
    ensures
        step_spec(s, e, m, ms)->Ok_0.includes.len() >= s.includes.len(),
        s.listing ==> step_spec(s, e, m, ms)->Ok_0.listing,
        step_spec(s, e, m, ms)->Ok_0.mode is ListBlock ==> step_spec(s, e, m, ms)->Ok_0.listing,
{
}

proof fn lemma_run_monotone(events: Seq<MdEvent>, m: Option<Seq<(Seq<char>, Seq<char>)>>, ms: Seq<DocMetaView>)
    requires
        run_spec(events, m, ms) is Ok,
    ensures
        run_spec(events, m, ms)->Ok_0.mode is ListBlock ==> run_spec(events, m, ms)->Ok_0.listing,
        events.len() > 0 ==> run_spec(events.drop_last(), m, ms) is Ok,
        events.len() > 0 ==> run_spec(events, m, ms)->Ok_0.includes.len() >= run_spec(events.drop_last(), m, ms)->Ok_0.includes.len(),
        events.len() > 0 && run_spec(events.drop_last(), m, ms)->Ok_0.listing ==> run_spec(events, m, ms)->Ok_0.listing,
    decreases events.len(),
{
    if events.len() > 0 {
        let pre = events.drop_last();
        if run_spec(pre, m, ms) is Err {
            assert(run_spec(events, m, ms) is Err);
        }
        lemma_run_monotone(pre, m, ms);
        lemma_step_monotone(run_spec(pre, m, ms)->Ok_0, events.last(), m, ms);
    }
}

proof fn lemma_step_indep(
    s: RenderingView,
    e: MdEvent,
    m: Seq<(Seq<char>, Seq<char>)>,
    ms: Seq<DocMetaView>,
)
    requires
        !s.listing,
        !(s.mode is ListBlock),
        step_spec(s, e, None, Seq::empty()) is Ok,
        step_spec(s, e, None, Seq::empty())->Ok_0.includes.len() == s.includes.len(),
    ensures
        step_spec(s, e, Some(m), ms) == step_spec(s, e, None, Seq::empty()),
{
    let t = step_spec(s, e, None, Seq::empty())->Ok_0;
    match e {
        MdEvent::Start(crate::events::MdTag::Image { dest, title, id }) => {
            if has_prefix(dest@, "did:"@) && (s.mode is Body || s.mode is AfterTitleHeading) {
                assert(t.includes.len() == s.includes.len() + 1);
            }
        },
        _ => {},
    }
}

/// A document without transclusion directives (no `did:` image, no listing
/// block) translates to the same result whatever substitution map and
/// metadata snapshot are given: translating it again yields the same HTML.
pub proof fn law_translation_idempotent(
    events: Seq<MdEvent>,
    path: Seq<char>,
    m: Seq<(Seq<char>, Seq<char>)>,
    ms: Seq<DocMetaView>,
)
    requires
        translate_spec(events, path, None, Seq::empty()) is Ok,
        translate_spec(events, path, None, Seq::empty())->Ok_0.includes.len() == 0,
        !translate_spec(events, path, None, Seq::empty())->Ok_0.listing,
    ensures
        translate_spec(events, path, Some(m), ms) == translate_spec(events, path, None, Seq::empty()),
{
    lemma_run_indep(events, m, ms);
}

proof fn lemma_run_indep(events: Seq<MdEvent>, m: Seq<(Seq<char>, Seq<char>)>, ms: Seq<DocMetaView>)
    requires
        run_spec(events, None, Seq::empty()) is Ok,
        run_spec(events, None, Seq::empty())->Ok_0.includes.len() == 0,
        !run_spec(events, None, Seq::empty())->Ok_0.listing,
    ensures
        run_spec(events, Some(m), ms) == run_spec(events, None, Seq::empty()),
    decreases events.len(),
{
    if events.len() > 0 {
        let pre = events.drop_last();
        lemma_run_monotone(events, None, Seq::empty());
        lemma_run_monotone(pre, None, Seq::empty());
        let s = run_spec(pre, None, Seq::empty())->Ok_0;
        lemma_run_indep(pre, m, ms);
        lemma_step_indep(s, events.last(), m, ms);
    }
}

/// `w` is a walk through abandoned documents, each including the next.
pub open spec fn abandoned_walk(docs: Seq<Doc>, w: Seq<int>) -> bool {
    &&& forall|t: int| 0 <= t < w.len() ==> 0 <= #[trigger] w[t] < docs.len() && docs[w[t]].state is Abandoned
    &&& forall|t: int| 0 <= t < w.len() - 1 ==> includes_edge(docs, #[trigger] w[t], w[t + 1])
}

#[verifier::rlimit(50)]
proof fn lemma_walk(docs: Seq<Doc>, k: int, len: nat) -> (w: Seq<int>)
    requires
        0 <= k < docs.len(),
        docs[k].state is Abandoned,
        forall|a: int| 0 <= a < docs.len() && (#[trigger] docs[a].state) is Abandoned ==> has_abandoned_include(docs, a),
    ensures
        w.len() == len + 1,
        w[0] == k,
        abandoned_walk(docs, w),
    decreases len,
{
    if len == 0 {
        seq![k]
    } else {
        assert(has_abandoned_include(docs, k));
        let j = choose|j: int| #[trigger] includes_edge(docs, k, j) && docs[j].state is Abandoned;
        assert(includes_edge(docs, k, j));
        assert(0 <= j < docs.len()) by {
            let x = choose|x: int| 0 <= x < docs[k].includes@.len() && #[trigger] first_with_id(docs, docs[k].includes@[x]@, j);
        }
        let rest = lemma_walk(docs, j, (len - 1) as nat);
        let w = seq![k] + rest;
        assert forall|t: int| 0 <= t < w.len() implies 0 <= #[trigger] w[t] < docs.len() && docs[w[t]].state is Abandoned by {
            if t > 0 {
                assert(w[t] == rest[t - 1]);
            }
        }
        assert forall|t: int| 0 <= t < w.len() - 1 implies includes_edge(docs, #[trigger] w[t], w[t + 1]) by {
            if t > 0 {
                assert(w[t] == rest[t - 1]);
                assert(w[t + 1] == rest[t]);
                assert(includes_edge(docs, rest[t - 1], rest[t]));
            }
        }
        w
    }
}

/// An abandoned document leads into a cycle of inclusions: following what it
/// includes through abandoned documents comes back to a document already
/// visited. So a waiting document from which no cycle can be reached is
/// never abandoned: it ends resolved.
pub proof fn law_abandoned_reaches_cycle(docs: Seq<Doc>, srcs: Seq<SourceFile>, k: int)
    requires
        corpus_of(docs, readable(srcs)),
        0 <= k < docs.len(),
        docs[k].state is Abandoned,
    ensures
        exists|w: Seq<int>|
            w.len() > 0 && w[0] == k && abandoned_walk(docs, w) && exists|i: int, j: int|
                0 <= i < j < w.len() && w[i] == w[j],
{
    let n = docs.len();
    let w = lemma_walk(docs, k, n);
    if !(exists|i: int, j: int| 0 <= i < j < w.len() && w[i] == w[j]) {
        assert(w.no_duplicates()) by {
            assert forall|i: int, j: int| 0 <= i < w.len() && 0 <= j < w.len() && i != j implies w[i] != w[j] by {
                if i < j {
                } else {
                }
            }
        }
        w.unique_seq_to_set();
        vstd::set_lib::lemma_int_range(0, n as int);
        assert forall|v: int| w.to_set().contains(v) implies vstd::set_lib::set_int_range(0, n as int).contains(v) by {
            let t = choose|t: int| 0 <= t < w.len() && w[t] == v;
            assert(0 <= w[t] < n);
        }
        vstd::set_lib::lemma_len_subset(w.to_set(), vstd::set_lib::set_int_range(0, n as int));
        assert(false);
    }
}

} // verus!
