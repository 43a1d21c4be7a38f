//! The metadata directive (`key: value` lines) and the filters of the listing directive.

use vstd::prelude::*;
use crate::text::{split_colon, split_colon_spec, split_lines, lines_spec, str_eq, strs, clone_strings, trim, trim_spec};

verus! {

/// The fields that metadata lines set: status, identifier and tags.
pub struct MetaFields {
    pub status: String,
    pub did: String,
    pub tags: Vec<String>,
}

/// The view of `MetaFields`.
pub struct MetaFieldsView {
    pub status: Seq<char>,
    pub did: Seq<char>,
    pub tags: Seq<Seq<char>>,
}

impl View for MetaFields {
    type V = MetaFieldsView;

    open spec fn view(&self) -> MetaFieldsView {
        MetaFieldsView { status: self.status@, did: self.did@, tags: strs(self.tags@) }
    }
}

/// One metadata line: `status: v` and `id: v` set the field to the trimmed
/// value, `tag: v` adds a tag unless the document already has it (tags form
/// a set that keeps the order of first insertion); any other line changes nothing.
pub open spec fn meta_line(m: MetaFieldsView, line: Seq<char>) -> MetaFieldsView {
    match split_colon_spec(line) {
        Some((k, v)) => if k == "status"@ {
            MetaFieldsView { status: trim_spec(v), ..m }
        } else if k == "id"@ {
            MetaFieldsView { did: trim_spec(v), ..m }
        } else if k == "tag"@ {
            if m.tags.contains(trim_spec(v)) {
                m
            } else {
                MetaFieldsView { tags: m.tags.push(trim_spec(v)), ..m }
            }
        } else {
            m
        },
        None => m,
    }
}

/// Lines applied in order.
pub open spec fn meta_lines(m: MetaFieldsView, lines: Seq<Seq<char>>) -> MetaFieldsView
    decreases lines.len(),
{
    if lines.len() == 0 {
        m
    } else {
        meta_line(meta_lines(m, lines.drop_last()), lines.last())
    }
}

/// A metadata block applied to `m`.
pub open spec fn parse_meta_spec(m: MetaFieldsView, text: Seq<char>) -> MetaFieldsView {
    meta_lines(m, lines_spec(text))
}

impl MetaFields {
    /// Applies the metadata lines of `meta`.
    pub fn parse_meta(&mut self, meta: &str)
        ensures
            final(self)@ == parse_meta_spec(old(self)@, meta@),
    {
        let lines = split_lines(meta);
        let ghost ls = strs(lines@);
        let ghost start = self@;
        let mut i: usize = 0;
        assert(ls.subrange(0, 0) =~= Seq::<Seq<char>>::empty());
        while i < lines.len()
            invariant
                i <= lines@.len(),
                ls == strs(lines@),
                ls == lines_spec(meta@),
                self@ == meta_lines(start, ls.subrange(0, i as int)),
                start == old(self)@,
            decreases lines@.len() - i,
        {
            let line = &lines[i];
            assert(ls.subrange(0, i + 1).drop_last() =~= ls.subrange(0, i as int));
            assert(ls[i as int] == line@);
            proof {
                reveal_strlit("status");
                reveal_strlit("id");
                reveal_strlit("tag");
            }
            match split_colon(line.as_str()) {
                Some((k, v)) => {
                    if str_eq(k.as_str(), "status") {
                        self.status = trim(v.as_str());
                    } else if str_eq(k.as_str(), "id") {
                        self.did = trim(v.as_str());
                    } else if str_eq(k.as_str(), "tag") {
                        let t = trim(v.as_str());
                        if !has_tag(&self.tags, &t) {
                            self.tags.push(t);
                            assert(strs(self.tags@) =~= meta_lines(start, ls.subrange(0, i as int)).tags.push(
                                trim_spec(v@)));
                        }
                    }
                },
                None => {},
            }
            i = i + 1;
        }
        assert(ls.subrange(0, i as int) =~= ls);
    }
}

/// What the listing directive knows of a document: identifier, title, tags.
pub struct DocMeta {
    pub did: String,
    pub title: String,
    pub tags: Vec<String>,
}

/// The view of `DocMeta`.
pub struct DocMetaView {
    pub did: Seq<char>,
    pub title: Seq<char>,
    pub tags: Seq<Seq<char>>,
}

impl View for DocMeta {
    type V = DocMetaView;

    open spec fn view(&self) -> DocMetaView {
        DocMetaView { did: self.did@, title: self.title@, tags: strs(self.tags@) }
    }
}

impl DocMeta {
    /// A copy with the same view.
    pub fn copy(&self) -> (r: DocMeta)
        ensures
            r@ == self@,
    {
        DocMeta { did: self.did.clone(), title: self.title.clone(), tags: clone_strings(&self.tags) }
    }
}

/// The views of a sequence of `DocMeta`.
pub open spec fn metas_view(v: Seq<DocMeta>) -> Seq<DocMetaView> {
    v.map_values(|m: DocMeta| m@)
}

/// A listing filter: keep the documents that carry `tag` (`keep`), or those
/// that do not (`!keep`).
pub struct TagFilter {
    pub tag: String,
    pub keep: bool,
}

/// Whether a document passes a filter.
pub open spec fn passes(m: DocMetaView, tag: Seq<char>, keep: bool) -> bool {
    m.tags.contains(tag) == keep
}

/// The documents of `list` that pass one filter, in order.
pub open spec fn filter_once(list: Seq<DocMetaView>, tag: Seq<char>, keep: bool) -> Seq<DocMetaView>
    decreases list.len(),
{
    if list.len() == 0 {
        list
    } else if passes(list.last(), tag, keep) {
        filter_once(list.drop_last(), tag, keep).push(list.last())
    } else {
        filter_once(list.drop_last(), tag, keep)
    }
}

/// The views of a sequence of filters: tag and `keep`.
pub open spec fn filters_view(fs: Seq<TagFilter>) -> Seq<(Seq<char>, bool)> {
    fs.map_values(|f: TagFilter| (f.tag@, f.keep))
}

/// The filters applied one after the other.
pub open spec fn filter_chain(list: Seq<DocMetaView>, fs: Seq<(Seq<char>, bool)>) -> Seq<DocMetaView>
    decreases fs.len(),
{
    if fs.len() == 0 {
        list
    } else {
        filter_once(filter_chain(list, fs.drop_last()), fs.last().0, fs.last().1)
    }
}

/// Whether the string list `tags` holds `tag`.
fn has_tag(tags: &Vec<String>, tag: &String) -> (r: bool)
    ensures
        r == strs(tags@).contains(tag@),
{
    let mut i: usize = 0;
    while i < tags.len()
        invariant
            i <= tags@.len(),
            forall|k: int| 0 <= k < i ==> strs(tags@)[k] != tag@,
        decreases tags@.len() - i,
    {
        if tags[i] == *tag {
            assert(strs(tags@)[i as int] == tag@);
            return true;
        }
        i = i + 1;
    }
    false
}

/// Keeps the documents that pass one filter.
fn filter_by(list: &Vec<DocMeta>, tag: &String, keep: bool) -> (r: Vec<DocMeta>)
    ensures
        metas_view(r@) == filter_once(metas_view(list@), tag@, keep),
{
    let mut out: Vec<DocMeta> = Vec::new();
    let mut i: usize = 0;
    assert(metas_view(list@).subrange(0, 0) =~= Seq::<DocMetaView>::empty());
    while i < list.len()
        invariant
            i <= list@.len(),
            metas_view(out@) == filter_once(metas_view(list@).subrange(0, i as int), tag@, keep),
        decreases list@.len() - i,
    {
        let ghost pre = metas_view(list@).subrange(0, i as int);
        assert(metas_view(list@).subrange(0, i + 1).drop_last() =~= pre);
        assert(metas_view(list@).subrange(0, i + 1).last() == list@[i as int]@);
        if has_tag(&list[i].tags, tag) == keep {
            out.push(list[i].copy());
            assert(metas_view(out@) =~= filter_once(pre, tag@, keep).push(list@[i as int]@));
        }
        i = i + 1;
    }
    assert(metas_view(list@).subrange(0, i as int) =~= metas_view(list@));
    out
}

/// The documents of `metas` that pass every filter, in their order.
pub fn filter_metas(metas: &Vec<DocMeta>, filters: &Vec<TagFilter>) -> (r: Vec<DocMeta>)
    ensures
        metas_view(r@) == filter_chain(metas_view(metas@), filters_view(filters@)),
{
    let mut cur: Vec<DocMeta> = Vec::new();
    let mut i: usize = 0;
    while i < metas.len()
        invariant
            i <= metas@.len(),
            metas_view(cur@) == metas_view(metas@).subrange(0, i as int),
        decreases metas@.len() - i,
    {
        let ghost before = cur@;
        let c = metas[i].copy();
        cur.push(c);
        assert(metas_view(cur@) =~= metas_view(before).push(c@));
        assert(metas_view(cur@) =~= metas_view(metas@).subrange(0, i + 1));
        i = i + 1;
    }
    assert(metas_view(metas@).subrange(0, i as int) =~= metas_view(metas@));
    let mut j: usize = 0;
    while j < filters.len()
        invariant
            j <= filters@.len(),
            metas_view(cur@) == filter_chain(metas_view(metas@), filters_view(filters@).subrange(0, j as int)),
        decreases filters@.len() - j,
    {
        assert(filters_view(filters@).subrange(0, j + 1).drop_last() =~= filters_view(filters@).subrange(0, j as int));
        cur = filter_by(&cur, &filters[j].tag, filters[j].keep);
        j = j + 1;
    }
    assert(filters_view(filters@).subrange(0, j as int) =~= filters_view(filters@));
    cur
}

} // verus!
