//! The corpus: documents, their first translation pass, and the resolution of
//! transclusions between them by repeated passes.

use vstd::prelude::*;
use crate::address::{html_path, html_path_spec, rel_url, rel_url_spec, shorthash, shorthash_spec};
use crate::events::{markdown_events, parse_markdown};
use crate::meta::{metas_view, DocMeta, DocMetaView};
use crate::text::{clone_strings, strs};
use crate::translate::{
    incl_view, lemma_run_mode, lookup_incl, translate, translate_spec, Inclusion, RenderError, RenderingView,
};

verus! {

/// Where a document stands in the resolution of its transclusions.
#[derive(Debug, Clone, Copy, PartialEq, Eq)]
pub enum DocState {
    Discovered,
    /// Translated once, with nothing left to include: final.
    FirstPassDone,
    /// Waiting for the documents it includes (or for the metadata snapshot).
    Pending,
    /// Translated again with the HTML of every document it includes.
    Resolved,
    /// Given up after the re-queue limit; holds the markup of its last pass.
    Abandoned,
}

/// Whether a document's HTML is final and can be included by others.
pub open spec fn is_ready(s: DocState) -> bool {
    s is FirstPassDone || s is Resolved
}

/// A source file handed to the corpus: its root, its `/`-separated path
/// relative to that root, and its text (`None` when it could not be read).
pub struct SourceFile {
    pub base: String,
    pub rel: String,
    pub text: Option<String>,
}

/// One source document and its derived state.
pub struct Doc {
    /// The identifier other documents use to include or list this one.
    pub did: String,
    pub title: String,
    pub status: String,
    pub links: Vec<String>,
    pub includes: Vec<String>,
    pub tags: Vec<String>,
    pub url: String,
    /// Whether the document holds a listing directive.
    pub listing: bool,
    pub html: String,
    pub raw: String,
    pub src_path_rel: String,
    pub src_path_base: String,
    pub state: DocState,
}

/// The first pass over a text: no substitution map, no metadata.
pub open spec fn first_pass_spec(raw: Seq<char>, rel: Seq<char>) -> Result<RenderingView, RenderError> {
    translate_spec(markdown_events(raw), rel, None, Seq::empty())
}

/// The fields of `d` are those that the first pass `v` derived.
pub open spec fn holds_first_pass(d: Doc, v: RenderingView) -> bool {
    &&& d.did@ == v.meta.did
    &&& d.title@ == v.title
    &&& d.status@ == v.meta.status
    &&& strs(d.tags@) == v.meta.tags
    &&& strs(d.links@) == v.links
    &&& strs(d.includes@) == v.includes
    &&& d.url@ == v.url
    &&& d.listing == v.listing
}

/// Whether the first pass left something to do: includes or a listing.
pub open spec fn needs_second_pass(v: RenderingView) -> bool {
    v.includes.len() > 0 || v.listing
}

/// `j` is the first document of the corpus with identifier `id`.
pub open spec fn first_with_id(docs: Seq<Doc>, id: Seq<char>, j: int) -> bool {
    &&& 0 <= j < docs.len()
    &&& docs[j].did@ == id
    &&& forall|k: int| 0 <= k < j ==> docs[k].did@ != id
}

/// Every document that `docs[k]` includes and that the corpus holds was final
/// before `docs[k]` was resolved (it has a smaller rank).
pub open spec fn deps_before(docs: Seq<Doc>, rank: Seq<nat>, k: int) -> bool {
    forall|x: int, j: int|
        0 <= x < docs[k].includes@.len() && #[trigger] first_with_id(docs, docs[k].includes@[x]@, j)
            ==> is_ready(docs[j].state) && rank[j] < rank[k]
}

/// `docs[a]` includes `docs[b]`: one of its references finds it.
pub open spec fn includes_edge(docs: Seq<Doc>, a: int, b: int) -> bool {
    &&& 0 <= a < docs.len()
    &&& exists|x: int| 0 <= x < docs[a].includes@.len() && #[trigger] first_with_id(docs, docs[a].includes@[x]@, b)
}

/// `docs[k]` includes a document that is still waiting.
pub open spec fn has_waiting_include(docs: Seq<Doc>, k: int) -> bool {
    exists|j: int| #[trigger] includes_edge(docs, k, j) && docs[j].state is Pending
}

/// `docs[k]` includes a document that is waiting or abandoned.
pub open spec fn has_stuck_include(docs: Seq<Doc>, k: int) -> bool {
    exists|j: int| #[trigger] includes_edge(docs, k, j) && (docs[j].state is Pending || docs[j].state is Abandoned)
}

/// `docs[k]` includes an abandoned document.
pub open spec fn has_abandoned_include(docs: Seq<Doc>, k: int) -> bool {
    exists|j: int| #[trigger] includes_edge(docs, k, j) && docs[j].state is Abandoned
}

/// A substitution map whose every entry is the HTML of a final document of the corpus.
pub open spec fn map_from_corpus(docs: Seq<Doc>, m: Seq<(Seq<char>, Seq<char>)>) -> bool {
    forall|x: int| 0 <= x < m.len() ==> #[trigger] entry_from_corpus(docs, m[x])
}

/// An entry of a substitution map that is the HTML of a final document of the corpus.
pub open spec fn entry_from_corpus(docs: Seq<Doc>, e: (Seq<char>, Seq<char>)) -> bool {
    exists|j: int|
        #[trigger] first_with_id(docs, e.0, j) && is_ready(docs[j].state) && docs[j].html@ == e.1
}

/// `d` holds the HTML of a pass over its text with map `m`.
pub open spec fn rendered_with(d: Doc, m: Seq<(Seq<char>, Seq<char>)>, metas: Seq<DocMetaView>) -> bool {
    match translate_spec(markdown_events(d.raw@), d.src_path_rel@, Some(m), metas) {
        Ok(v) => v.html == d.html@,
        Err(_) => false,
    }
}

/// The map holds, for every document that `docs[k]` includes and that is
/// final, that document's HTML.
pub open spec fn map_complete(docs: Seq<Doc>, k: int, m: Seq<(Seq<char>, Seq<char>)>) -> bool {
    forall|x: int, j: int|
        0 <= x < docs[k].includes@.len() && #[trigger] first_with_id(docs, docs[k].includes@[x]@, j)
            && is_ready(docs[j].state) ==> lookup_incl(m, docs[k].includes@[x]@) == Some(docs[j].html@)
}

/// `docs[k]` holds the HTML of a second pass over its text, with the HTML of
/// every final document it includes spliced in.
pub open spec fn rendered_complete(docs: Seq<Doc>, metas: Seq<DocMetaView>, k: int) -> bool {
    exists|m: Seq<(Seq<char>, Seq<char>)>|
        #[trigger] map_from_corpus(docs, m) && map_complete(docs, k, m) && rendered_with(docs[k], m, metas)
}

/// `docs[k]` holds the HTML of a second pass over its text, with the HTML of
/// final documents of the corpus as its substitution map.
pub open spec fn rendered_again(docs: Seq<Doc>, metas: Seq<DocMetaView>, k: int) -> bool {
    exists|m: Seq<(Seq<char>, Seq<char>)>|
        #[trigger] map_from_corpus(docs, m) && rendered_with(docs[k], m, metas)
}

/// The metadata snapshot of a corpus.
pub open spec fn snapshot(docs: Seq<Doc>) -> Seq<DocMetaView> {
    docs.map_values(|d: Doc| DocMetaView { did: d.did@, title: d.title@, tags: strs(d.tags@) })
}

impl Doc {
    /// A document discovered at `src_path_rel` under `src_path_base`, not yet translated.
    pub fn new(src_path_base: String, src_path_rel: String) -> (r: Doc)
        ensures
            r.src_path_base == src_path_base,
            r.src_path_rel == src_path_rel,
            r.state is Discovered,
            r.html@.len() == 0,
            r.did@.len() == 0,
            r.title@.len() == 0,
            r.status@.len() == 0,
            r.url@.len() == 0,
            r.raw@.len() == 0,
            r.links@.len() == 0,
            r.includes@.len() == 0,
            r.tags@.len() == 0,
            !r.listing,
    {
        Doc {
            src_path_rel,
            src_path_base,
            html: String::new(),
            title: String::new(),
            links: Vec::new(),
            tags: Vec::new(),
            did: String::new(),
            status: String::new(),
            url: String::new(),
            includes: Vec::new(),
            listing: false,
            raw: String::new(),
            state: DocState::Discovered,
        }
    }

    /// The output directory name of this document.
    pub fn shorthash(&self) -> (r: String)
        ensures
            r@ == shorthash_spec(self.src_path_rel@),
    {
        shorthash(self.src_path_rel.as_str())
    }

    /// The output-relative path of this document.
    pub fn html_path(&self) -> (r: String)
        ensures
            r@ == html_path_spec(self.src_path_rel@),
    {
        html_path(self.src_path_rel.as_str())
    }

    /// The site-relative URL of this document.
    pub fn rel_url(&self) -> (r: String)
        ensures
            r@ == rel_url_spec(self.src_path_rel@),
    {
        rel_url(self.src_path_rel.as_str())
    }

    /// The first translation pass over `raw`. The HTML is kept only when
    /// nothing is left to include; otherwise it is discarded and the
    /// document waits, with its text retained.
    pub fn gen_html(&mut self, raw: String) -> (r: Result<(), RenderError>)
        ensures
            final(self).src_path_rel == old(self).src_path_rel,
            final(self).src_path_base == old(self).src_path_base,
            match r {
                Ok(_) => first_pass_spec(raw@, old(self).src_path_rel@) matches Ok(v) && {
                    &&& holds_first_pass(*final(self), v)
                    &&& final(self).raw@ == raw@
                    &&& if needs_second_pass(v) {
                        final(self).state is Pending && final(self).html@.len() == 0
                    } else {
                        final(self).state is FirstPassDone && final(self).html@ == v.html
                    }
                },
                Err(e) => first_pass_spec(raw@, old(self).src_path_rel@) == Err::<RenderingView, RenderError>(e),
            },
    {
        let events = parse_markdown(raw.as_str());
        let none: Vec<DocMeta> = Vec::new();
        assert(metas_view(none@) =~= Seq::<DocMetaView>::empty());
        let r = translate(&events, self.src_path_rel.as_str(), None, &none);
        match r {
            Ok(x) => {
                self.did = x.meta.did;
                self.title = x.title;
                self.status = x.meta.status;
                self.tags = x.meta.tags;
                self.links = x.links;
                self.includes = x.includes;
                self.url = x.url;
                self.listing = x.listing;
                self.raw = raw;
                if self.includes.len() > 0 || self.listing {
                    self.html = String::new();
                    self.state = DocState::Pending;
                } else {
                    self.html = x.html;
                    self.state = DocState::FirstPassDone;
                }
                Ok(())
            },
            Err(e) => Err(e),
        }
    }

    /// Its entry of the metadata snapshot.
    pub fn meta(&self) -> (r: DocMeta)
        ensures
            r@ == (DocMetaView { did: self.did@, title: self.title@, tags: strs(self.tags@) }),
    {
        DocMeta { did: self.did.clone(), title: self.title.clone(), tags: clone_strings(&self.tags) }
    }
}

/// The metadata snapshot of `docs`: identifier, title and tags of each, in order.
pub fn doc2docmeta(docs: &Vec<Doc>) -> (r: Vec<DocMeta>)
    ensures
        metas_view(r@) == snapshot(docs@),
{
    let mut out: Vec<DocMeta> = Vec::new();
    let mut i: usize = 0;
    while i < docs.len()
        invariant
            i <= docs@.len(),
            metas_view(out@) == snapshot(docs@).subrange(0, i as int),
        decreases docs@.len() - i,
    {
        let ghost before = out@;
        let m = docs[i].meta();
        out.push(m);
        assert(metas_view(out@) =~= metas_view(before).push(m@));
        assert(metas_view(out@) =~= snapshot(docs@).subrange(0, i + 1));
        i = i + 1;
    }
    assert(snapshot(docs@).subrange(0, i as int) =~= snapshot(docs@));
    out
}

/// The first document of `docs` with identifier `id`.
pub fn index_of(docs: &Vec<Doc>, id: &String) -> (r: Option<usize>)
    ensures
        match r {
            Some(j) => first_with_id(docs@, id@, j as int),
            None => forall|k: int| 0 <= k < docs@.len() ==> docs@[k].did@ != id@,
        },
{
    let mut j: usize = 0;
    while j < docs.len()
        invariant
            j <= docs@.len(),
            forall|k: int| 0 <= k < j ==> docs@[k].did@ != id@,
        decreases docs@.len() - j,
    {
        if docs[j].did == *id {
            return Some(j);
        }
        j = j + 1;
    }
    None
}

/// `a` and `b` are the same document with the same first-pass fields; only
/// their HTML and state may differ.
pub open spec fn same_identity(a: Doc, b: Doc) -> bool {
    &&& a.did == b.did
    &&& a.title == b.title
    &&& a.status == b.status
    &&& a.tags == b.tags
    &&& a.links == b.links
    &&& a.includes == b.includes
    &&& a.url == b.url
    &&& a.listing == b.listing
    &&& a.raw == b.raw
    &&& a.src_path_rel == b.src_path_rel
    &&& a.src_path_base == b.src_path_base
}

/// What the resolver proves of a corpus: every resolved document was
/// translated again after the documents it includes became final, and every
/// resolved or abandoned one holds the HTML of a pass with a map of final
/// documents.
pub open spec fn resolution_ok(docs: Seq<Doc>, rank: Seq<nat>, metas: Seq<DocMetaView>) -> bool {
    &&& rank.len() == docs.len()
    &&& forall|k: int|
        0 <= k < docs.len() && (#[trigger] docs[k].state) is Resolved ==> deps_before(docs, rank, k)
            && rendered_complete(docs, metas, k)
    &&& forall|k: int|
        0 <= k < docs.len() && (#[trigger] docs[k].state) is Abandoned ==> rendered_again(docs, metas, k)
}

/// Replacing a waiting document by a final one keeps what holds of the others.
proof fn lemma_frame(docs: Seq<Doc>, i: int, d: Doc, rank: Seq<nat>, r: nat, metas: Seq<DocMetaView>)
    requires
        0 <= i < docs.len(),
        docs[i].state is Pending,
        same_identity(docs[i], d),
        resolution_ok(docs, rank, metas),
    ensures
        forall|id: Seq<char>, j: int|
            first_with_id(docs, id, j) == #[trigger] first_with_id(docs.update(i, d), id, j),
        forall|m: Seq<(Seq<char>, Seq<char>)>|
            #[trigger] map_from_corpus(docs, m) ==> map_from_corpus(docs.update(i, d), m),
        forall|k: int|
            0 <= k < docs.len() && k != i && (#[trigger] docs[k].state) is Resolved ==> deps_before(
                docs.update(i, d),
                rank.update(i, r),
                k,
            ) && rendered_complete(docs.update(i, d), metas, k),
        forall|k: int|
            0 <= k < docs.len() && k != i && (#[trigger] docs[k].state) is Abandoned ==> rendered_again(
                docs.update(i, d),
                metas,
                k,
            ),
{
    let d2 = docs.update(i, d);
    assert forall|k: int| 0 <= k < docs.len() implies #[trigger] d2[k].did@ == docs[k].did@ by {
        if k == i {
        }
    }
    assert forall|id: Seq<char>, j: int| first_with_id(docs, id, j) == #[trigger] first_with_id(d2, id, j) by {
        if 0 <= j < docs.len() {
            assert(d2[j].did@ == docs[j].did@);
            if first_with_id(docs, id, j) {
                assert forall|k: int| 0 <= k < j implies d2[k].did@ != id by {
                    assert(d2[k].did@ == docs[k].did@);
                }
            }
            if first_with_id(d2, id, j) {
                assert forall|k: int| 0 <= k < j implies docs[k].did@ != id by {
                    assert(d2[k].did@ == docs[k].did@);
                }
            }
        }
    }
    assert forall|m: Seq<(Seq<char>, Seq<char>)>| #[trigger] map_from_corpus(docs, m) implies map_from_corpus(d2, m) by {
        assert forall|x: int| 0 <= x < m.len() implies #[trigger] entry_from_corpus(d2, m[x]) by {
            assert(entry_from_corpus(docs, m[x]));
            let j = choose|j: int| #[trigger] first_with_id(docs, m[x].0, j) && is_ready(docs[j].state) && docs[j].html@ == m[x].1;
            assert(first_with_id(d2, m[x].0, j));
        }
    }
    assert forall|k: int| 0 <= k < docs.len() && k != i && (#[trigger] docs[k].state) is Resolved implies deps_before(d2, rank.update(i, r), k)
        && rendered_complete(d2, metas, k) by {
        assert(deps_before(docs, rank, k));
        assert forall|x: int, j: int| 0 <= x < d2[k].includes@.len() && #[trigger] first_with_id(d2, d2[k].includes@[x]@, j)
            implies is_ready(d2[j].state) && rank.update(i, r)[j] < rank.update(i, r)[k] by {
            assert(first_with_id(docs, docs[k].includes@[x]@, j));
        }
        assert(rendered_complete(docs, metas, k));
        let m = choose|m: Seq<(Seq<char>, Seq<char>)>| #[trigger] map_from_corpus(docs, m) && map_complete(docs, k, m) && rendered_with(docs[k], m, metas);
        assert(map_from_corpus(d2, m));
        assert forall|x: int, j: int| 0 <= x < d2[k].includes@.len() && #[trigger] first_with_id(d2, d2[k].includes@[x]@, j)
            && is_ready(d2[j].state) implies lookup_incl(m, d2[k].includes@[x]@) == Some(d2[j].html@) by {
            assert(first_with_id(docs, docs[k].includes@[x]@, j));
            assert(is_ready(docs[j].state));
            assert(j != i);
        }
        assert(map_complete(d2, k, m));
    }
    assert forall|k: int| 0 <= k < docs.len() && k != i && (#[trigger] docs[k].state) is Abandoned implies rendered_again(d2, metas, k) by {
        assert(rendered_again(docs, metas, k));
        let m = choose|m: Seq<(Seq<char>, Seq<char>)>| #[trigger] map_from_corpus(docs, m) && rendered_with(docs[k], m, metas);
        assert(map_from_corpus(d2, m));
    }
}

/// The second pass over a document's retained text; it cannot fail where the
/// first pass did not.
fn rerender(d: &Doc, map: &Vec<Inclusion>, metas: &Vec<DocMeta>) -> (h: String)
    requires
        first_pass_spec(d.raw@, d.src_path_rel@) is Ok,
    ensures
        translate_spec(markdown_events(d.raw@), d.src_path_rel@, Some(incl_view(map@)), metas_view(metas@)) matches Ok(v) && v.html == h@,
{
    let events = parse_markdown(d.raw.as_str());
    proof {
        lemma_run_mode(events@, None, Some(incl_view(map@)), Seq::empty(), metas_view(metas@));
    }
    match translate(&events, d.src_path_rel.as_str(), Some(map), metas) {
        Ok(x) => x.html,
        Err(e) => {
            assert(false);
            String::new()
        },
    }
}

/// The sources whose text could be read, in order.
pub open spec fn readable(srcs: Seq<SourceFile>) -> Seq<SourceFile>
    decreases srcs.len(),
{
    if srcs.len() == 0 {
        srcs
    } else if srcs.last().text is Some {
        readable(srcs.drop_last()).push(srcs.last())
    } else {
        readable(srcs.drop_last())
    }
}

/// `d` is the document of source `s` after its first pass: same origin and
/// text, the fields that pass derived, and its HTML when nothing was left to do.
pub open spec fn first_pass_of(d: Doc, s: SourceFile) -> bool {
    match s.text {
        Some(t) => {
            &&& d.src_path_rel@ == s.rel@
            &&& d.src_path_base@ == s.base@
            &&& d.raw@ == t@
            &&& match first_pass_spec(t@, s.rel@) {
                Ok(v) => {
                    &&& holds_first_pass(d, v)
                    &&& !needs_second_pass(v) ==> d.state is FirstPassDone && d.html@ == v.html
                    &&& needs_second_pass(v) ==> !(d.state is FirstPassDone) && !(d.state is Discovered)
                },
                Err(_) => false,
            }
        },
        None => false,
    }
}

/// The first failing first pass among the readable sources.
pub open spec fn first_failure(srcs: Seq<SourceFile>) -> Option<RenderError>
    decreases srcs.len(),
{
    if srcs.len() == 0 {
        None
    } else {
        match first_failure(srcs.drop_last()) {
            Some(e) => Some(e),
            None => match srcs.last().text {
                Some(t) => match first_pass_spec(t@, srcs.last().rel@) {
                    Ok(_) => None,
                    Err(e) => Some(e),
                },
                None => None,
            },
        }
    }
}

/// Once a prefix of the sources has a failure, it is the first failure of all.
proof fn lemma_failure_stays(srcs: Seq<SourceFile>, n: int)
    requires
        0 <= n <= srcs.len(),
        first_failure(srcs.subrange(0, n)) is Some,
    ensures
        first_failure(srcs) == first_failure(srcs.subrange(0, n)),
    decreases srcs.len() - n,
{
    if n < srcs.len() {
        assert(srcs.subrange(0, n + 1).drop_last() =~= srcs.subrange(0, n));
        lemma_failure_stays(srcs, n + 1);
    } else {
        assert(srcs.subrange(0, n) =~= srcs);
    }
}

/// `d` is the finished document of source `s`: its first pass, and no longer waiting.
pub open spec fn settled_doc(d: Doc, s: SourceFile) -> bool {
    first_pass_of(d, s) && !(d.state is Pending)
}

/// `docs` is the finished corpus of the readable sources `srcs`: one document
/// each, in order, with the resolution guarantees over the metadata snapshot
/// of the corpus.
pub open spec fn corpus_of(docs: Seq<Doc>, srcs: Seq<SourceFile>) -> bool {
    &&& docs.len() == srcs.len()
    &&& forall|k: int| 0 <= k < docs.len() ==> settled_doc(#[trigger] docs[k], srcs[k])
    &&& forall|k: int| 0 <= k < docs.len() && (#[trigger] docs[k].state) is Abandoned ==> has_abandoned_include(docs, k)
    &&& exists|rank: Seq<nat>| resolution_ok(docs, rank, snapshot(docs))
}

/// Which document an identifier finds depends on the identifiers alone.
proof fn lemma_same_ids(a: Seq<Doc>, b: Seq<Doc>)
    requires
        a.len() == b.len(),
        forall|k: int| 0 <= k < a.len() ==> (#[trigger] a[k]).did == b[k].did,
    ensures
        forall|id: Seq<char>, j: int| #[trigger] first_with_id(a, id, j) == first_with_id(b, id, j),
{
    assert forall|id: Seq<char>, j: int| #[trigger] first_with_id(a, id, j) == first_with_id(b, id, j) by {
        if 0 <= j < a.len() {
            assert(a[j].did == b[j].did);
            if first_with_id(a, id, j) {
                assert forall|k: int| 0 <= k < j implies b[k].did@ != id by {
                    assert(a[k].did == b[k].did);
                }
            }
            if first_with_id(b, id, j) {
                assert forall|k: int| 0 <= k < j implies a[k].did@ != id by {
                    assert(a[k].did == b[k].did);
                }
            }
        }
    }
}

/// Which document includes which depends on identifiers and references alone.
proof fn lemma_edges_same(a: Seq<Doc>, b: Seq<Doc>)
    requires
        a.len() == b.len(),
        forall|k: int| 0 <= k < a.len() ==> (#[trigger] a[k]).did == b[k].did && a[k].includes == b[k].includes,
    ensures
        forall|x: int, y: int| #[trigger] includes_edge(a, x, y) == includes_edge(b, x, y),
{
    lemma_same_ids(a, b);
    assert forall|x: int, y: int| #[trigger] includes_edge(a, x, y) == includes_edge(b, x, y) by {
        if 0 <= x < a.len() {
            assert(a[x].includes == b[x].includes);
            if includes_edge(a, x, y) {
                let z = choose|z: int| 0 <= z < a[x].includes@.len() && #[trigger] first_with_id(a, a[x].includes@[z]@, y);
                assert(first_with_id(b, b[x].includes@[z]@, y));
            }
            if includes_edge(b, x, y) {
                let z = choose|z: int| 0 <= z < b[x].includes@.len() && #[trigger] first_with_id(b, b[x].includes@[z]@, y);
                assert(first_with_id(a, a[x].includes@[z]@, y));
            }
        }
    }
}

proof fn lemma_first_with_id_unique(docs: Seq<Doc>, id: Seq<char>, j: int, k: int)
    requires
        first_with_id(docs, id, j),
        first_with_id(docs, id, k),
    ensures
        j == k,
{
    if j < k {
        assert(docs[j].did@ == id);
    }
    if k < j {
        assert(docs[k].did@ == id);
    }
}

/// `d` includes the identifier `id`.
pub open spec fn includes_id(d: Doc, id: Seq<char>) -> bool {
    exists|x: int| 0 <= x < d.includes@.len() && d.includes@[x]@ == id
}

/// Whether a document's HTML is final.
fn ready(s: &DocState) -> (r: bool)
    ensures
        r == is_ready(*s),
{
    match s {
        DocState::FirstPassDone => true,
        DocState::Resolved => true,
        _ => false,
    }
}

/// The documents of a corpus, with the queue of those that wait for a second pass.
pub struct HtmlConverter {
    pub docs: Vec<Doc>,
    pub queue: Vec<usize>,
}

impl HtmlConverter {
    /// An empty corpus.
    pub fn new() -> (r: HtmlConverter)
        ensures
            r.docs@.len() == 0,
            r.queue@.len() == 0,
    {
        HtmlConverter { docs: Vec::new(), queue: Vec::new() }
    }

    /// The documents.
    pub fn docs(&self) -> (r: &Vec<Doc>)
        ensures
            r == self.docs,
    {
        &self.docs
    }

    /// The first pass over every readable source: one document each, in
    /// order; those left waiting are queued.
    pub fn first_pass_across_all(&mut self, sources: &Vec<SourceFile>) -> (r: Result<(), RenderError>)
        requires
            old(self).docs@.len() == 0,
            old(self).queue@.len() == 0,
        ensures
            match r {
                Ok(_) => {
                    &&& first_failure(sources@) is None
                    &&& final(self).docs@.len() == readable(sources@).len()
                    &&& forall|k: int| 0 <= k < final(self).docs@.len() ==> first_pass_of(#[trigger] final(self).docs@[k], readable(sources@)[k])
                    &&& forall|k: int| 0 <= k < final(self).docs@.len() ==> (#[trigger] final(self).docs@[k].state is FirstPassDone || final(self).docs@[k].state is Pending)
                    &&& forall|k: int| 0 <= k < final(self).docs@.len() && (#[trigger] final(self).docs@[k].state) is Pending ==> final(self).queue@.contains(k as usize)
                },
                Err(e) => first_failure(sources@) == Some(e),
            },
    {
        let mut i: usize = 0;
        assert(sources@.subrange(0, 0) =~= Seq::<SourceFile>::empty());
        while i < sources.len()
            invariant
                i <= sources@.len(),
                first_failure(sources@.subrange(0, i as int)) is None,
                self.docs@.len() == readable(sources@.subrange(0, i as int)).len(),
                forall|k: int| 0 <= k < self.docs@.len() ==> first_pass_of(#[trigger] self.docs@[k], readable(sources@.subrange(0, i as int))[k]),
                forall|k: int| 0 <= k < self.docs@.len() ==> (#[trigger] self.docs@[k].state is FirstPassDone || self.docs@[k].state is Pending),
                forall|k: int| 0 <= k < self.docs@.len() && (#[trigger] self.docs@[k].state) is Pending ==> self.queue@.contains(k as usize),
            decreases sources@.len() - i,
        {
            let ghost pre = sources@.subrange(0, i as int);
            let ghost cur = sources@.subrange(0, i + 1);
            assert(cur.drop_last() =~= pre);
            assert(cur.last() == sources@[i as int]);
            let src = &sources[i];
            match &src.text {
                Some(t) => {
                    let mut d = Doc::new(src.base.clone(), src.rel.clone());
                    match d.gen_html(t.clone()) {
                        Ok(()) => {},
                        Err(e) => {
                            proof {
                                lemma_failure_stays(sources@, i as int + 1);
                            }
                            return Err(e);
                        },
                    }
                    let ghost before = self.docs@;
                    let ghost q_before = self.queue@;
                    if !ready(&d.state) {
                        self.queue.push(self.docs.len());
                        assert(self.queue@[self.queue@.len() - 1] == before.len() as usize);
                    }
                    self.docs.push(d);
                    assert forall|k: int| 0 <= k < self.docs@.len() && (#[trigger] self.docs@[k].state) is Pending implies self.queue@.contains(k as usize) by {
                        if k < before.len() {
                            assert(self.docs@[k] == before[k]);
                            assert(q_before.contains(k as usize));
                            let p = choose|p: int| 0 <= p < q_before.len() && q_before[p] == k as usize;
                            assert(self.queue@[p] == k as usize);
                        } else {
                            assert(self.queue@[self.queue@.len() - 1] == k as usize);
                        }
                    }
                    assert(readable(cur) == readable(pre).push(sources@[i as int]));
                    assert forall|k: int| 0 <= k < self.docs@.len() implies first_pass_of(#[trigger] self.docs@[k], readable(cur)[k]) by {
                        if k < before.len() {
                            assert(self.docs@[k] == before[k]);
                        }
                    }
                    assert forall|k: int| 0 <= k < self.docs@.len() implies (#[trigger] self.docs@[k].state is FirstPassDone || self.docs@[k].state is Pending) by {
                        if k < before.len() {
                            assert(self.docs@[k] == before[k]);
                        }
                    }
                },
                None => {
                    assert(readable(cur) == readable(pre));
                },
            }
            i = i + 1;
        }
        assert(sources@.subrange(0, i as int) =~= sources@);
        Ok(())
    }

    /// Stores the second pass of waiting document `i` with map `m`, and marks
    /// it resolved (or abandoned).
    fn settle(
        &mut self,
        i: usize,
        m: &Vec<Inclusion>,
        metas: &Vec<DocMeta>,
        resolved: bool,
        Ghost(rank): Ghost<Seq<nat>>,
        Ghost(r): Ghost<nat>,
    )
        requires
            i < old(self).docs@.len(),
            old(self).docs@[i as int].state is Pending,
            first_pass_spec(old(self).docs@[i as int].raw@, old(self).docs@[i as int].src_path_rel@) is Ok,
            map_from_corpus(old(self).docs@, incl_view(m@)),
            resolved ==> map_complete(old(self).docs@, i as int, incl_view(m@)),
            resolution_ok(old(self).docs@, rank, metas_view(metas@)),
            resolved ==> forall|x: int, j: int|
                0 <= x < old(self).docs@[i as int].includes@.len() && #[trigger] first_with_id(
                    old(self).docs@,
                    old(self).docs@[i as int].includes@[x]@,
                    j,
                ) ==> is_ready(old(self).docs@[j].state) && rank[j] < r,
        ensures
            final(self).queue == old(self).queue,
            final(self).docs@.len() == old(self).docs@.len(),
            forall|k: int| 0 <= k < old(self).docs@.len() && k != i ==> #[trigger] final(self).docs@[k] == old(self).docs@[k],
            same_identity(old(self).docs@[i as int], final(self).docs@[i as int]),
            if resolved {
                final(self).docs@[i as int].state is Resolved
            } else {
                final(self).docs@[i as int].state is Abandoned
            },
            resolution_ok(final(self).docs@, if resolved { rank.update(i as int, r) } else { rank }, metas_view(metas@)),
    {
        let ghost old_docs = self.docs@;
        let ghost mv = metas_view(metas@);
        let h = rerender(&self.docs[i], m, metas);
        self.docs[i].html = h;
        if resolved {
            self.docs[i].state = DocState::Resolved;
        } else {
            self.docs[i].state = DocState::Abandoned;
        }
        let ghost nd = self.docs@;
        let ghost rank2 = if resolved { rank.update(i as int, r) } else { rank };
        assert(nd =~= old_docs.update(i as int, nd[i as int]));
        proof {
            lemma_frame(old_docs, i as int, nd[i as int], rank, r, mv);
            assert(map_from_corpus(nd, incl_view(m@)));
            assert(rendered_with(nd[i as int], incl_view(m@), mv));
            assert(rendered_again(nd, mv, i as int));
            if resolved {
                assert forall|x: int, j: int| 0 <= x < nd[i as int].includes@.len() && #[trigger] first_with_id(nd, nd[i as int].includes@[x]@, j)
                    implies is_ready(nd[j].state) && rank2[j] < rank2[i as int] by {
                    assert(first_with_id(old_docs, old_docs[i as int].includes@[x]@, j));
                }
                assert forall|x: int, j: int| 0 <= x < nd[i as int].includes@.len() && #[trigger] first_with_id(nd, nd[i as int].includes@[x]@, j)
                    && is_ready(nd[j].state) implies lookup_incl(incl_view(m@), nd[i as int].includes@[x]@) == Some(nd[j].html@) by {
                    assert(first_with_id(old_docs, old_docs[i as int].includes@[x]@, j));
                    assert(is_ready(old_docs[j].state));
                    assert(j != i);
                }
                assert(map_complete(nd, i as int, incl_view(m@)));
                assert(rendered_complete(nd, mv, i as int));
            }
            assert forall|k: int| 0 <= k < nd.len() && (#[trigger] nd[k].state) is Resolved implies deps_before(nd, rank2, k)
                && rendered_again(nd, mv, k) by {
                if k != i {
                    assert(old_docs[k] == nd[k]);
                    if !resolved {
                        lemma_frame(old_docs, i as int, nd[i as int], rank, rank[i as int], mv);
                        assert(rank.update(i as int, rank[i as int]) =~= rank);
                    }
                }
            }
            assert forall|k: int| 0 <= k < nd.len() && (#[trigger] nd[k].state) is Abandoned implies rendered_again(nd, mv, k) by {
                if k != i {
                    assert(old_docs[k] == nd[k]);
                }
            }
        }
    }

    /// Second passes over the queued documents, in rounds. In each round
    /// every waiting document of the queue is taken in turn: it is
    /// translated again when every document it includes that the corpus
    /// holds is final, and otherwise goes back to the queue for the next
    /// round. The rounds stop when one of them resolves nothing, or after as
    /// many rounds as the corpus has documents (so no document is re-queued
    /// more often). What is still waiting then is abandoned: translated with
    /// the final documents only, the others marked as failed inclusions.
    /// An abandoned document always includes another abandoned one, so it
    /// leads into a cycle of inclusions.
    pub fn resolve_queue(&mut self, metas: &Vec<DocMeta>)
        requires
            forall|k: int| 0 <= k < old(self).docs@.len() ==> (#[trigger] old(self).docs@[k].state is FirstPassDone || old(self).docs@[k].state is Pending),
            forall|k: int| 0 <= k < old(self).docs@.len() ==> (#[trigger] first_pass_spec(old(self).docs@[k].raw@, old(self).docs@[k].src_path_rel@)) is Ok,
            forall|k: int| 0 <= k < old(self).docs@.len() && (#[trigger] old(self).docs@[k].state) is Pending ==> old(self).queue@.contains(k as usize),
        ensures
            final(self).docs@.len() == old(self).docs@.len(),
            forall|k: int| 0 <= k < old(self).docs@.len() ==> same_identity(old(self).docs@[k], #[trigger] final(self).docs@[k]),
            forall|k: int| 0 <= k < old(self).docs@.len() && (#[trigger] old(self).docs@[k].state) is FirstPassDone ==>
                final(self).docs@[k].state is FirstPassDone && final(self).docs@[k].html == old(self).docs@[k].html,
            forall|k: int| 0 <= k < old(self).docs@.len() && (#[trigger] old(self).docs@[k].state) is Pending ==>
                final(self).docs@[k].state is Resolved || final(self).docs@[k].state is Abandoned,
            forall|k: int| 0 <= k < old(self).docs@.len() && (#[trigger] final(self).docs@[k].state) is Abandoned ==>
                has_abandoned_include(final(self).docs@, k),
            exists|rank: Seq<nat>| resolution_ok(final(self).docs@, rank, metas_view(metas@)),
    {
        let ghost first = self.docs@;
        let ghost mv = metas_view(metas@);
        let n = self.docs.len();
        let mut pending: Vec<usize> = Vec::new();
        let mut c: usize = 0;
        while c < self.queue.len()
            invariant
                c <= self.queue@.len(),
                self.docs@ == first,
                forall|k: int| 0 <= k < first.len() && (#[trigger] first[k].state) is Pending ==> self.queue@.contains(k as usize),
                forall|q: int| 0 <= q < c ==> pending@[q] == #[trigger] self.queue@[q],
                pending@.len() == c,
            decreases self.queue@.len() - c,
        {
            pending.push(self.queue[c]);
            c = c + 1;
        }
        proof {
            assert forall|k: int| 0 <= k < n && (#[trigger] self.docs@[k].state) is Pending implies pending@.contains(k as usize) by {
                assert(self.queue@.contains(k as usize));
                let q = choose|q: int| 0 <= q < self.queue@.len() && self.queue@[q] == k as usize;
                assert(pending@[q] == k as usize);
            }
        }
        let ghost mut rank: Seq<nat> = Seq::new(n as nat, |k: int| 0nat);
        let ghost mut counter: nat = 0;
        let ghost mut done: Set<int> = Set::empty();
        let mut round: usize = 0;
        let mut progress: bool = true;
        while progress && round < n
            invariant
                self.docs@.len() == n,
                first.len() == n,
                rank.len() == n,
                mv == metas_view(metas@),
                forall|k: int| 0 <= k < n ==> same_identity(first[k], #[trigger] self.docs@[k]),
                forall|k: int| 0 <= k < n ==> (#[trigger] first_pass_spec(first[k].raw@, first[k].src_path_rel@)) is Ok,
                forall|k: int| 0 <= k < n && (#[trigger] first[k].state) is FirstPassDone ==>
                    self.docs@[k].state is FirstPassDone && self.docs@[k].html == first[k].html,
                forall|k: int| 0 <= k < n && (#[trigger] first[k].state) is Pending ==>
                    self.docs@[k].state is Pending || self.docs@[k].state is Resolved,
                forall|k: int| 0 <= k < n ==> (#[trigger] first[k].state is FirstPassDone || first[k].state is Pending),
                forall|k: int| 0 <= k < n && is_ready(#[trigger] self.docs@[k].state) ==> rank[k] <= counter,
                resolution_ok(self.docs@, rank, mv),
                forall|k: int| 0 <= k < n && (#[trigger] self.docs@[k].state) is Pending ==> pending@.contains(k as usize),
                done.finite(),
                forall|k: int| #[trigger] done.contains(k) ==> 0 <= k < n && self.docs@[k].state is Resolved,
                progress ==> done.len() >= round,
                !progress ==> forall|k: int| 0 <= k < n && (#[trigger] self.docs@[k].state) is Pending ==> has_waiting_include(self.docs@, k),
            decreases n - round,
        {
            let ghost round_docs = self.docs@;
            let ghost round_done = done.len();
            let mut next: Vec<usize> = Vec::new();
            progress = false;
            let mut p: usize = 0;
            while p < pending.len()
                invariant
                    self.docs@.len() == n,
                    first.len() == n,
                    rank.len() == n,
                    mv == metas_view(metas@),
                    forall|k: int| 0 <= k < n ==> same_identity(first[k], #[trigger] self.docs@[k]),
                    forall|k: int| 0 <= k < n ==> (#[trigger] first_pass_spec(first[k].raw@, first[k].src_path_rel@)) is Ok,
                    forall|k: int| 0 <= k < n && (#[trigger] first[k].state) is FirstPassDone ==>
                        self.docs@[k].state is FirstPassDone && self.docs@[k].html == first[k].html,
                    forall|k: int| 0 <= k < n && (#[trigger] first[k].state) is Pending ==>
                        self.docs@[k].state is Pending || self.docs@[k].state is Resolved,
                    forall|k: int| 0 <= k < n ==> (#[trigger] first[k].state is FirstPassDone || first[k].state is Pending),
                    forall|k: int| 0 <= k < n && is_ready(#[trigger] self.docs@[k].state) ==> rank[k] <= counter,
                    resolution_ok(self.docs@, rank, mv),
                    p <= pending@.len(),
                    forall|k: int| 0 <= k < n && (#[trigger] self.docs@[k].state) is Pending ==>
                        next@.contains(k as usize) || exists|q: int| p <= q < pending@.len() && pending@[q] == k as usize,
                    done.finite(),
                    forall|k: int| #[trigger] done.contains(k) ==> 0 <= k < n && self.docs@[k].state is Resolved,
                    done.len() >= round_done,
                    progress ==> done.len() > round_done,
                    !progress ==> self.docs@ == round_docs,
                    !progress ==> forall|q: int| 0 <= q < next@.len() ==> has_waiting_include(self.docs@, #[trigger] next@[q] as int),
                decreases pending@.len() - p,
            {
                let i = pending[p];
                let ghost old_p = p;
                let ghost docs_before = self.docs@;
                p = p + 1;
                if i < n && matches!(self.docs[i].state, DocState::Pending) {
                    assert(first[i as int].state is FirstPassDone || first[i as int].state is Pending);
                    assert(first_pass_spec(self.docs@[i as int].raw@, self.docs@[i as int].src_path_rel@) is Ok) by {
                        assert(same_identity(first[i as int], self.docs@[i as int]));
                    }
                    match self.include_map_if_ready(i, false) {
                        Some(m) => {
                            self.settle(i, &m, metas, true, Ghost(rank), Ghost(counter + 1));
                            progress = true;
                            proof {
                                rank = rank.update(i as int, counter + 1);
                                counter = counter + 1;
                                assert(!done.contains(i as int));
                                done = done.insert(i as int);
                                assert forall|k: int| 0 <= k < n implies same_identity(first[k], #[trigger] self.docs@[k]) by {
                                    if k != i {
                                        assert(self.docs@[k] == docs_before[k]);
                                    }
                                }
                                assert forall|k: int| 0 <= k < n && (#[trigger] first[k].state) is FirstPassDone implies
                                    self.docs@[k].state is FirstPassDone && self.docs@[k].html == first[k].html by {
                                    if k != i {
                                        assert(self.docs@[k] == docs_before[k]);
                                    }
                                }
                                assert forall|k: int| 0 <= k < n && (#[trigger] first[k].state) is Pending implies
                                    self.docs@[k].state is Pending || self.docs@[k].state is Resolved by {
                                    if k != i {
                                        assert(self.docs@[k] == docs_before[k]);
                                    }
                                }
                                assert forall|k: int| 0 <= k < n && is_ready(#[trigger] self.docs@[k].state) implies rank[k] <= counter by {
                                    if k != i {
                                        assert(self.docs@[k] == docs_before[k]);
                                    }
                                }
                                assert forall|k: int| 0 <= k < n && (#[trigger] self.docs@[k].state) is Pending implies
                                    next@.contains(k as usize) || exists|q: int| p <= q < pending@.len() && pending@[q] == k as usize by {
                                    assert(k != i);
                                    assert(self.docs@[k] == docs_before[k]);
                                    if !next@.contains(k as usize) {
                                        let q = choose|q: int| old_p <= q < pending@.len() && pending@[q] == k as usize;
                                        assert(q != old_p);
                                    }
                                }
                                assert forall|k: int| #[trigger] done.contains(k) implies 0 <= k < n && self.docs@[k].state is Resolved by {
                                    if k != i {
                                        assert(self.docs@[k] == docs_before[k]);
                                    }
                                }
                            }
                        },
                        None => {
                            let ghost next_before = next@;
                            next.push(i);
                            proof {
                                let (x, j) = choose|x: int, j: int|
                                    0 <= x < self.docs@[i as int].includes@.len() && #[trigger] first_with_id(
                                        self.docs@,
                                        self.docs@[i as int].includes@[x]@,
                                        j,
                                    ) && !is_ready(self.docs@[j].state);
                                assert(first[j].state is FirstPassDone || first[j].state is Pending);
                                assert(self.docs@[j].state is Pending);
                                assert(includes_edge(self.docs@, i as int, j));
                                assert(has_waiting_include(self.docs@, i as int));
                                assert forall|q: int| 0 <= q < next@.len() && !progress implies has_waiting_include(self.docs@, #[trigger] next@[q] as int) by {
                                    if q < next_before.len() {
                                        assert(next@[q] == next_before[q]);
                                    }
                                }
                                assert(next@[next@.len() - 1] == i);
                                assert forall|k: int| 0 <= k < n && (#[trigger] self.docs@[k].state) is Pending implies
                                    next@.contains(k as usize) || exists|q: int| p <= q < pending@.len() && pending@[q] == k as usize by {
                                    if next_before.contains(k as usize) {
                                        let q = choose|q: int| 0 <= q < next_before.len() && next_before[q] == k as usize;
                                        assert(next@[q] == k as usize);
                                    } else if k != i as int {
                                        let q = choose|q: int| old_p <= q < pending@.len() && pending@[q] == k as usize;
                                        assert(q != old_p);
                                    }
                                }
                            }
                        },
                    }
                } else {
                    proof {
                        assert forall|k: int| 0 <= k < n && (#[trigger] self.docs@[k].state) is Pending implies
                            next@.contains(k as usize) || exists|q: int| p <= q < pending@.len() && pending@[q] == k as usize by {
                            if !next@.contains(k as usize) {
                                let q = choose|q: int| old_p <= q < pending@.len() && pending@[q] == k as usize;
                                assert(q != old_p);
                            }
                        }
                    }
                }
            }
            proof {
                if !progress {
                    assert forall|k: int| 0 <= k < n && (#[trigger] self.docs@[k].state) is Pending implies has_waiting_include(self.docs@, k) by {
                        assert(next@.contains(k as usize));
                        let q = choose|q: int| 0 <= q < next@.len() && next@[q] == k as usize;
                        assert(has_waiting_include(self.docs@, next@[q] as int));
                    }
                }
            }
            pending = next;
            round = round + 1;
        }
        proof {
            if progress {
                assert forall|k: int| 0 <= k < n && (#[trigger] self.docs@[k].state) is Pending implies has_waiting_include(self.docs@, k) by {
                    vstd::set_lib::lemma_int_range(0, n as int);
                    assert(done.subset_of(vstd::set_lib::set_int_range(0, n as int).remove(k)));
                    vstd::set_lib::lemma_len_subset(done, vstd::set_lib::set_int_range(0, n as int).remove(k));
                    assert(false);
                }
            }
            assert forall|k: int| 0 <= k < n && ((#[trigger] self.docs@[k].state) is Pending || self.docs@[k].state is Abandoned) implies
                has_stuck_include(self.docs@, k) by {
                assert(first[k].state is FirstPassDone || first[k].state is Pending);
                assert(has_waiting_include(self.docs@, k));
                let j = choose|j: int| #[trigger] includes_edge(self.docs@, k, j) && self.docs@[j].state is Pending;
                assert(includes_edge(self.docs@, k, j));
            }
        }
        let mut k: usize = 0;
        while k < n
            invariant
                self.docs@.len() == n,
                first.len() == n,
                rank.len() == n,
                mv == metas_view(metas@),
                forall|k: int| 0 <= k < n ==> same_identity(first[k], #[trigger] self.docs@[k]),
                forall|k: int| 0 <= k < n ==> (#[trigger] first_pass_spec(first[k].raw@, first[k].src_path_rel@)) is Ok,
                forall|k: int| 0 <= k < n && (#[trigger] first[k].state) is FirstPassDone ==>
                    self.docs@[k].state is FirstPassDone && self.docs@[k].html == first[k].html,
                forall|j: int| 0 <= j < n && (#[trigger] first[j].state) is Pending ==>
                    self.docs@[j].state is Resolved || self.docs@[j].state is Abandoned || (j >= k && self.docs@[j].state is Pending),
                forall|k: int| 0 <= k < n ==> (#[trigger] first[k].state is FirstPassDone || first[k].state is Pending),
                forall|k: int| 0 <= k < n && is_ready(#[trigger] self.docs@[k].state) ==> rank[k] <= counter,
                resolution_ok(self.docs@, rank, mv),
                forall|k: int| 0 <= k < n && ((#[trigger] self.docs@[k].state) is Pending || self.docs@[k].state is Abandoned) ==>
                    has_stuck_include(self.docs@, k),
            decreases n - k,
        {
            if !ready(&self.docs[k].state) && !matches!(self.docs[k].state, DocState::Abandoned) {
                assert(first[k as int].state is FirstPassDone || first[k as int].state is Pending);
                assert(self.docs@[k as int].state is Pending);
                let ghost before = self.docs@;
                self.abandon(k, metas, Ghost(first), Ghost(rank), Ghost(counter));
                proof {
                    lemma_edges_same(before, self.docs@);
                    assert forall|a: int| 0 <= a < n && ((#[trigger] self.docs@[a].state) is Pending || self.docs@[a].state is Abandoned) implies
                        has_stuck_include(self.docs@, a) by {
                        if a != k {
                            assert(self.docs@[a] == before[a]);
                        }
                        assert(has_stuck_include(before, a));
                        let j = choose|j: int| #[trigger] includes_edge(before, a, j) && (before[j].state is Pending || before[j].state is Abandoned);
                        assert(includes_edge(self.docs@, a, j));
                        if j != k {
                            assert(self.docs@[j] == before[j]);
                        }
                    }
                }
            }
            k = k + 1;
        }
        proof {
            assert forall|a: int| 0 <= a < n && (#[trigger] self.docs@[a].state) is Abandoned implies has_abandoned_include(self.docs@, a) by {
                assert(has_stuck_include(self.docs@, a));
                let j = choose|j: int| #[trigger] includes_edge(self.docs@, a, j) && (self.docs@[j].state is Pending || self.docs@[j].state is Abandoned);
                assert(first[j].state is FirstPassDone || first[j].state is Pending);
            }
        }
        assert(resolution_ok(self.docs@, rank, mv));
    }

    /// Gives up on waiting document `i`: translates it with the documents it
    /// includes that are final, the others marked as failed inclusions.
    fn abandon(&mut self, i: usize, metas: &Vec<DocMeta>, Ghost(first): Ghost<Seq<Doc>>, Ghost(rank): Ghost<Seq<nat>>, Ghost(counter): Ghost<nat>)
        requires
            i < old(self).docs@.len(),
            old(self).docs@.len() == first.len(),
            old(self).docs@[i as int].state is Pending,
            forall|k: int| 0 <= k < first.len() ==> same_identity(first[k], #[trigger] old(self).docs@[k]),
            forall|k: int| 0 <= k < first.len() ==> (#[trigger] first_pass_spec(first[k].raw@, first[k].src_path_rel@)) is Ok,
            resolution_ok(old(self).docs@, rank, metas_view(metas@)),
            forall|k: int| 0 <= k < first.len() && is_ready(#[trigger] old(self).docs@[k].state) ==> rank[k] <= counter,
        ensures
            final(self).queue == old(self).queue,
            final(self).docs@.len() == old(self).docs@.len(),
            forall|k: int| 0 <= k < old(self).docs@.len() && k != i ==> #[trigger] final(self).docs@[k] == old(self).docs@[k],
            same_identity(old(self).docs@[i as int], final(self).docs@[i as int]),
            final(self).docs@[i as int].state is Abandoned,
            forall|k: int| 0 <= k < first.len() ==> same_identity(first[k], #[trigger] final(self).docs@[k]),
            resolution_ok(final(self).docs@, rank, metas_view(metas@)),
            forall|k: int| 0 <= k < first.len() && is_ready(#[trigger] final(self).docs@[k].state) ==> rank[k] <= counter,
    {
        assert(same_identity(first[i as int], self.docs@[i as int]));
        let ghost old_docs = self.docs@;
        match self.include_map_if_ready(i, true) {
            Some(m) => {
                self.settle(i, &m, metas, false, Ghost(rank), Ghost(0));
                assert forall|k: int| 0 <= k < first.len() implies same_identity(first[k], #[trigger] self.docs@[k]) by {
                    if k != i {
                        assert(self.docs@[k] == old_docs[k]);
                    }
                }
                assert forall|k: int| 0 <= k < first.len() && is_ready(#[trigger] self.docs@[k].state) implies rank[k] <= counter by {
                    if k != i {
                        assert(self.docs@[k] == old_docs[k]);
                    }
                }
            },
            None => {},
        }
    }

    /// Builds the corpus of one source root: the first pass over each
    /// readable source, the metadata snapshot, then the second passes.
    pub fn read_md_files(&mut self, sources: &Vec<SourceFile>) -> (r: Result<(), RenderError>)
        requires
            old(self).docs@.len() == 0,
            old(self).queue@.len() == 0,
        ensures
            match r {
                Ok(_) => corpus_of(final(self).docs@, readable(sources@)),
                Err(e) => first_failure(sources@) == Some(e),
            },
    {
        match self.first_pass_across_all(sources) {
            Ok(()) => {},
            Err(e) => {
                return Err(e);
            },
        }
        let ghost first = self.docs@;
        let metas = doc2docmeta(&self.docs);
        proof {
            assert forall|k: int| 0 <= k < first.len() implies (#[trigger] first_pass_spec(first[k].raw@, first[k].src_path_rel@)) is Ok by {
                assert(first_pass_of(first[k], readable(sources@)[k]));
            }
        }
        self.resolve_queue(&metas);
        let ghost fin = self.docs@;
        proof {
            assert(snapshot(fin) =~= snapshot(first)) by {
                assert forall|k: int| 0 <= k < fin.len() implies #[trigger] snapshot(fin)[k] == snapshot(first)[k] by {
                    assert(same_identity(first[k], fin[k]));
                }
            }
            assert forall|k: int| 0 <= k < fin.len() implies settled_doc(#[trigger] fin[k], readable(sources@)[k]) by {
                assert(first_pass_of(first[k], readable(sources@)[k]));
                assert(same_identity(first[k], fin[k]));
                assert(first[k].state is FirstPassDone || first[k].state is Pending);
            }
        }
        Ok(())
    }

    /// The substitution map for `docs[i]`: the HTML of each included
    /// document that the corpus holds. Without `partial`, `None` when one of
    /// them is not final yet; with it, those are left out.
    pub fn include_map_if_ready(&self, i: usize, partial: bool) -> (r: Option<Vec<Inclusion>>)
        requires
            i < self.docs@.len(),
        ensures
            match r {
                Some(m) => {
                    &&& map_from_corpus(self.docs@, incl_view(m@))
                    &&& map_complete(self.docs@, i as int, incl_view(m@))
                    &&& forall|y: int| 0 <= y < m@.len() ==> includes_id(self.docs@[i as int], #[trigger] incl_view(m@)[y].0)
                    &&& !partial ==> forall|x: int, j: int|
                        0 <= x < self.docs@[i as int].includes@.len() && #[trigger] first_with_id(
                            self.docs@,
                            self.docs@[i as int].includes@[x]@,
                            j,
                        ) ==> is_ready(self.docs@[j].state)
                },
                None => !partial && exists|x: int, j: int|
                    0 <= x < self.docs@[i as int].includes@.len() && #[trigger] first_with_id(
                        self.docs@,
                        self.docs@[i as int].includes@[x]@,
                        j,
                    ) && !is_ready(self.docs@[j].state),
            },
    {
        let d = &self.docs[i];
        let ghost docs = self.docs@;
        let mut m: Vec<Inclusion> = Vec::new();
        let mut x: usize = 0;
        while x < d.includes.len()
            invariant
                i < docs.len(),
                docs == self.docs@,
                d == docs[i as int],
                x <= d.includes@.len(),
                map_from_corpus(docs, incl_view(m@)),
                forall|y: int| 0 <= y < m@.len() ==> includes_id(*d, #[trigger] incl_view(m@)[y].0),
                forall|y: int, j: int|
                    0 <= y < x && #[trigger] first_with_id(docs, d.includes@[y]@, j) && is_ready(docs[j].state)
                        ==> lookup_incl(incl_view(m@), d.includes@[y]@) == Some(docs[j].html@),
                !partial ==> forall|y: int, j: int|
                    0 <= y < x && #[trigger] first_with_id(docs, d.includes@[y]@, j) ==> is_ready(docs[j].state),
            decreases d.includes@.len() - x,
        {
            let id = &d.includes[x];
            match index_of(&self.docs, id) {
                Some(j) => {
                    if ready(&self.docs[j].state) {
                        let ghost before = incl_view(m@);
                        let e = Inclusion { did: id.clone(), html: self.docs[j].html.clone() };
                        m.push(e);
                        assert(incl_view(m@) =~= before.push((id@, docs[j as int].html@)));
                        assert forall|y: int| 0 <= y < m@.len() implies includes_id(*d, #[trigger] incl_view(m@)[y].0) by {
                            if y < before.len() {
                                assert(incl_view(m@)[y] == before[y]);
                            } else {
                                assert(d.includes@[x as int]@ == id@);
                            }
                        }
                        assert forall|y: int| 0 <= y < incl_view(m@).len() implies #[trigger] entry_from_corpus(docs, incl_view(m@)[y]) by {
                            if y == before.len() {
                                assert(first_with_id(docs, (id@, docs[j as int].html@).0, j as int));
                            } else {
                                assert(incl_view(m@)[y] == before[y]);
                                assert(entry_from_corpus(docs, before[y]));
                            }
                        }
                        assert forall|y: int, k: int| 0 <= y < x + 1 && #[trigger] first_with_id(docs, d.includes@[y]@, k)
                            && is_ready(docs[k].state) implies lookup_incl(incl_view(m@), d.includes@[y]@) == Some(docs[k].html@) by {
                            assert(incl_view(m@).drop_last() =~= before);
                            if d.includes@[y]@ == id@ {
                                lemma_first_with_id_unique(docs, id@, j as int, k);
                            }
                        }
                    } else {
                        if !partial {
                            assert(first_with_id(docs, d.includes@[x as int]@, j as int));
                            return None;
                        }
                        assert forall|y: int, k: int| 0 <= y < x + 1 && #[trigger] first_with_id(docs, d.includes@[y]@, k)
                            && is_ready(docs[k].state) implies lookup_incl(incl_view(m@), d.includes@[y]@) == Some(docs[k].html@) by {
                            if y == x {
                                lemma_first_with_id_unique(docs, id@, j as int, k);
                            }
                        }
                    }
                    assert forall|y: int, k: int| 0 <= y < x + 1 && #[trigger] first_with_id(docs, d.includes@[y]@, k) && !partial
                        implies is_ready(docs[k].state) by {
                        if y == x {
                            lemma_first_with_id_unique(docs, id@, j as int, k);
                        }
                    }
                },
                None => {
                    assert forall|y: int, k: int| 0 <= y < x + 1 && #[trigger] first_with_id(docs, d.includes@[y]@, k)
                        implies y < x by {
                        if y == x {
                            assert(docs[k].did@ == id@);
                        }
                    }
                },
            }
            x = x + 1;
        }
        Some(m)
    }
}

/// Builds the corpus of one source root and appends its documents to `docs`.
/// Sources that could not be read are left out; the first fatal translation
/// error stops the run and leaves `docs` as it was.
pub fn read_md_files(docs: &mut Vec<Doc>, sources: &Vec<SourceFile>) -> (r: Result<(), RenderError>)
    ensures
        match r {
            Ok(_) => {
                &&& final(docs)@.len() == old(docs)@.len() + readable(sources@).len()
                &&& final(docs)@.subrange(0, old(docs)@.len() as int) == old(docs)@
                &&& corpus_of(final(docs)@.subrange(old(docs)@.len() as int, final(docs)@.len() as int), readable(sources@))
            },
            Err(e) => first_failure(sources@) == Some(e) && final(docs)@ == old(docs)@,
        },
{
    let mut conv = HtmlConverter::new();
    match conv.read_md_files(sources) {
        Ok(()) => {
            let ghost before = docs@;
            let ghost added = conv.docs@;
            docs.append(&mut conv.docs);
            assert(docs@.subrange(0, before.len() as int) =~= before);
            assert(docs@.subrange(before.len() as int, docs@.len() as int) =~= added);
            Ok(())
        },
        Err(e) => Err(e),
    }
}

} // verus!
