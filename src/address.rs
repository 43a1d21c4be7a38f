//! Output addressing: where a document's HTML goes, and the identifier derived
//! for a document that names none.

use vstd::prelude::*;
use vstd::string::*;
use crate::text::{chars_of, substring};

verus! {

/// The MD5 digest of the UTF-8 bytes of a text.
pub uninterp spec fn md5_of(data: Seq<char>) -> Seq<u8>;

/// Relies on `md5::compute`: the 16 bytes of the digest of the string's bytes.
#[verifier::external_body]
fn md5_digest(data: &str) -> (r: Vec<u8>)
    ensures
        r@ == md5_of(data@),
        r@.len() == 16,
{
    md5::compute(data).0.to_vec()
}

/// The lower-case hexadecimal digit for `n < 16`.
pub open spec fn hex_digit(n: u8) -> char {
    if n < 10 {
        (('0' as u8) + n) as char
    } else {
        (('a' as u8) + n - 10) as char
    }
}

/// Bytes written as two lower-case hex digits each, as `format!("{:02x}")` does.
pub open spec fn hex_spec(b: Seq<u8>) -> Seq<char>
    decreases b.len(),
{
    if b.len() == 0 {
        Seq::empty()
    } else {
        hex_spec(b.drop_last()) + seq![hex_digit(b.last() / 16), hex_digit(b.last() % 16)]
    }
}

/// A lower-case hexadecimal digit.
pub open spec fn is_hex_digit(c: char) -> bool {
    ('0' <= c && c <= '9') || ('a' <= c && c <= 'f')
}

/// `hex_spec` gives two hex digits per byte.
pub proof fn lemma_hex_spec(b: Seq<u8>)
    ensures
        hex_spec(b).len() == 2 * b.len(),
        forall|i: int| 0 <= i < hex_spec(b).len() ==> is_hex_digit(#[trigger] hex_spec(b)[i]),
    decreases b.len(),
{
    if b.len() > 0 {
        lemma_hex_spec(b.drop_last());
        let h = hex_spec(b);
        let p = hex_spec(b.drop_last());
        assert forall|i: int| 0 <= i < h.len() implies is_hex_digit(#[trigger] h[i]) by {
            if i < p.len() {
                assert(h[i] == p[i]);
            }
        }
    }
}

fn hex_digit_exec(n: u8) -> (r: char)
    requires
        n < 16,
    ensures
        r == hex_digit(n),
{
    if n < 10 {
        (('0' as u8) + n) as char
    } else {
        (('a' as u8) + n - 10) as char
    }
}

/// Writes the bytes `b[0..n]` in hexadecimal.
fn hex_prefix(b: &Vec<u8>, n: usize) -> (r: String)
    requires
        n <= b@.len(),
    ensures
        r@ == hex_spec(b@.subrange(0, n as int)),
{
    let mut out: Vec<char> = Vec::new();
    let mut i: usize = 0;
    assert(b@.subrange(0, 0) =~= Seq::<u8>::empty());
    while i < n
        invariant
            i <= n <= b@.len(),
            out@ == hex_spec(b@.subrange(0, i as int)),
        decreases n - i,
    {
        let x = b[i];
        out.push(hex_digit_exec(x / 16));
        out.push(hex_digit_exec(x % 16));
        assert(b@.subrange(0, i + 1).drop_last() =~= b@.subrange(0, i as int));
        assert(out@ =~= hex_spec(b@.subrange(0, i + 1)));
        i = i + 1;
    }
    crate::text::string_of(out.as_slice())
}

/// Index of the last occurrence of `c` in `s`.
pub open spec fn rfind_char(s: Seq<char>, c: char) -> Option<int>
    decreases s.len(),
{
    if s.len() == 0 {
        None
    } else if s.last() == c {
        Some(s.len() - 1)
    } else {
        rfind_char(s.drop_last(), c)
    }
}

proof fn lemma_rfind(s: Seq<char>, c: char, n: int)
    requires
        0 <= n <= s.len(),
        forall|k: int| n <= k < s.len() ==> s[k] != c,
    ensures
        n > 0 && s[n - 1] == c ==> rfind_char(s, c) == Some(n - 1),
        n == 0 ==> rfind_char(s, c) is None,
        rfind_char(s, c) matches Some(k) ==> 0 <= k < s.len(),
    decreases s.len(),
{
    if s.len() > 0 && n < s.len() {
        assert forall|k: int| n <= k < s.len() - 1 implies s.drop_last()[k] != c by {
            assert(s.drop_last()[k] == s[k]);
        }
        lemma_rfind(s.drop_last(), c, n);
    } else if s.len() > 0 {
        lemma_rfind(s.drop_last(), c, s.len() - 1);
    }
}

/// Executable `rfind_char`.
fn rfind(v: &Vec<char>, c: char) -> (r: Option<usize>)
    ensures
        match r {
            Some(k) => rfind_char(v@, c) == Some(k as int) && k < v@.len(),
            None => rfind_char(v@, c) is None,
        },
{
    let mut n: usize = v.len();
    while n > 0 && v[n - 1] != c
        invariant
            n <= v@.len(),
            forall|k: int| n <= k < v@.len() ==> v@[k] != c,
        decreases n,
    {
        n = n - 1;
    }
    proof {
        lemma_rfind(v@, c, n as int);
    }
    if n == 0 {
        None
    } else {
        Some(n - 1)
    }
}

/// The parent directory of a `/`-separated relative path (empty at the top level).
pub open spec fn parent_spec(p: Seq<char>) -> Seq<char> {
    match rfind_char(p, '/') {
        Some(k) => p.subrange(0, k),
        None => Seq::empty(),
    }
}

/// The last component of a `/`-separated relative path.
pub open spec fn file_name_spec(p: Seq<char>) -> Seq<char> {
    match rfind_char(p, '/') {
        Some(k) => p.subrange(k + 1, p.len() as int),
        None => p,
    }
}

/// A file name without its extension, as `Path::file_stem` gives it: the part
/// before the last dot, unless that part is empty.
pub open spec fn stem_spec(name: Seq<char>) -> Seq<char> {
    match rfind_char(name, '.') {
        Some(k) => if k > 0 {
            name.subrange(0, k)
        } else {
            name
        },
        None => name,
    }
}

/// The extension of the last component of a path, as `Path::extension`
/// gives it: the part after the last dot, unless that dot starts the name.
pub open spec fn extension_spec(p: Seq<char>) -> Option<Seq<char>> {
    let name = file_name_spec(p);
    match rfind_char(name, '.') {
        Some(k) => if k > 0 {
            Some(name.subrange(k + 1, name.len() as int))
        } else {
            None
        },
        None => None,
    }
}

/// The six hex characters that name the output directory of a source path:
/// the start of the MD5 digest of its parent directory.
pub open spec fn shorthash_spec(p: Seq<char>) -> Seq<char> {
    hex_spec(md5_of(parent_spec(p)).subrange(0, 3))
}

/// The output-relative path of a document: `<shorthash>/<stem>.html`.
pub open spec fn html_path_spec(p: Seq<char>) -> Seq<char> {
    shorthash_spec(p) + seq!['/'] + stem_spec(file_name_spec(p)) + ".html"@
}

/// The site-relative URL of a document: its output path one directory up.
pub open spec fn rel_url_spec(p: Seq<char>) -> Seq<char> {
    "../"@ + html_path_spec(p)
}

/// The identifier derived for a document without an explicit one: the
/// hexadecimal MD5 digest of its relative path followed by its title.
pub open spec fn derived_id_spec(p: Seq<char>, title: Seq<char>) -> Seq<char> {
    hex_spec(md5_of(p + title))
}

/// The output directory name of a source path.
pub fn shorthash(src_path_rel: &str) -> (r: String)
    ensures
        r@ == shorthash_spec(src_path_rel@),
        r@.len() == 6,
        forall|i: int| 0 <= i < r@.len() ==> is_hex_digit(#[trigger] r@[i]),
{
    let v = chars_of(src_path_rel);
    let parent = match rfind(&v, '/') {
        Some(k) => substring(&v, 0, k),
        None => String::new(),
    };
    let d = md5_digest(parent.as_str());
    proof {
        lemma_hex_spec(d@.subrange(0, 3));
    }
    hex_prefix(&d, 3)
}

/// The output-relative path of the document at `src_path_rel`.
pub fn html_path(src_path_rel: &str) -> (r: String)
    ensures
        r@ == html_path_spec(src_path_rel@),
{
    let v = chars_of(src_path_rel);
    let len = v.len();
    let name = match rfind(&v, '/') {
        Some(k) => {
            assert(k < len);
            substring(&v, k + 1, len)
        },
        None => substring(&v, 0, v.len()),
    };
    assert(v@.subrange(0, v@.len() as int) =~= v@);
    let nv = chars_of(name.as_str());
    let stem = match rfind(&nv, '.') {
        Some(k) => if k > 0 {
            substring(&nv, 0, k)
        } else {
            name
        },
        None => name,
    };
    let mut out = shorthash(src_path_rel);
    out.append("/");
    out.append(stem.as_str());
    out.append(".html");
    proof {
        reveal_strlit("/");
    }
    assert(out@ =~= html_path_spec(src_path_rel@));
    out
}

/// Whether a path names a markdown source: its extension is `md`.
pub fn is_markdown(path: &str) -> (r: bool)
    ensures
        r == (extension_spec(path@) == Some("md"@)),
{
    let v = chars_of(path);
    let len = v.len();
    let name = match rfind(&v, '/') {
        Some(k) => {
            assert(k < len);
            substring(&v, k + 1, len)
        },
        None => substring(&v, 0, len),
    };
    assert(v@.subrange(0, v@.len() as int) =~= v@);
    let nv = chars_of(name.as_str());
    let nlen = nv.len();
    match rfind(&nv, '.') {
        Some(k) => if k > 0 {
            assert(k < nlen);
            let ext = substring(&nv, k + 1, nlen);
            crate::text::str_eq(ext.as_str(), "md")
        } else {
            false
        },
        None => false,
    }
}

/// The site-relative URL of the document at `src_path_rel`.
pub fn rel_url(src_path_rel: &str) -> (r: String)
    ensures
        r@ == rel_url_spec(src_path_rel@),
{
    let p = html_path(src_path_rel);
    let mut out = String::from_str("../");
    out.append(p.as_str());
    out
}

/// The identifier of a document that names none in its metadata.
pub fn derived_id(src_path_rel: &str, title: &str) -> (r: String)
    ensures
        r@ == derived_id_spec(src_path_rel@, title@),
        r@.len() == 32,
        forall|i: int| 0 <= i < r@.len() ==> is_hex_digit(#[trigger] r@[i]),
{
    let mut data = String::from_str(src_path_rel);
    data.append(title);
    let d = md5_digest(data.as_str());
    let r = hex_prefix(&d, 16);
    assert(d@.subrange(0, 16) =~= d@);
    proof {
        lemma_hex_spec(d@);
    }
    r
}

/// How many components of `p` are `..`.
pub open spec fn ups(p: Seq<Seq<char>>) -> nat
    decreases p.len(),
{
    if p.len() == 0 {
        0
    } else {
        ups(p.drop_last()) + if p.last() == ".."@ {
            1nat
        } else {
            0nat
        }
    }
}

/// The path back from `out` (relative to the directory whose components are
/// `cwd`): each `..` of `out` is answered by the name of the directory it
/// leaves, every other component by `..`, the answers in reverse order (so
/// `../foo` seen from `/x/src` gives `../src`). `None` when `out` climbs
/// above the root.
pub open spec fn invert_spec(out: Seq<Seq<char>>, cwd: Seq<Seq<char>>) -> Option<Seq<Seq<char>>>
    decreases out.len(),
{
    if out.len() == 0 {
        Some(Seq::empty())
    } else {
        match invert_spec(out.drop_last(), cwd) {
            None => None,
            Some(r) => if out.last() == ".."@ {
                if ups(out.drop_last()) >= cwd.len() {
                    None
                } else {
                    Some(seq![cwd[cwd.len() - ups(out.drop_last()) - 1]] + r)
                }
            } else {
                Some(seq![".."@] + r)
            },
        }
    }
}

proof fn lemma_invert_none_stays(out: Seq<Seq<char>>, cwd: Seq<Seq<char>>, n: int)
    requires
        0 <= n <= out.len(),
        invert_spec(out.subrange(0, n), cwd) is None,
    ensures
        invert_spec(out, cwd) is None,
    decreases out.len() - n,
{
    if n < out.len() {
        assert(out.subrange(0, n + 1).drop_last() =~= out.subrange(0, n));
        lemma_invert_none_stays(out, cwd, n + 1);
    } else {
        assert(out.subrange(0, n) =~= out);
    }
}

/// Inverts the relative path `out` as seen from the directory with absolute
/// components `cwd`: the path that leads from `out` back to that directory.
pub fn invert_path(out: &Vec<String>, cwd: &Vec<String>) -> (r: Option<Vec<String>>)
    ensures
        match r {
            Some(v) => invert_spec(crate::text::strs(out@), crate::text::strs(cwd@)) == Some(crate::text::strs(v@)),
            None => invert_spec(crate::text::strs(out@), crate::text::strs(cwd@)) is None,
        },
{
    let ghost ov = crate::text::strs(out@);
    let ghost cv = crate::text::strs(cwd@);
    let mut ret: Vec<String> = Vec::new();
    let mut depth: usize = cwd.len();
    let mut i: usize = 0;
    assert(ov.subrange(0, 0) =~= Seq::<Seq<char>>::empty());
    assert(crate::text::strs(ret@) =~= Seq::<Seq<char>>::empty());
    while i < out.len()
        invariant
            i <= out@.len(),
            ov == crate::text::strs(out@),
            cv == crate::text::strs(cwd@),
            ups(ov.subrange(0, i as int)) <= cv.len(),
            depth == cv.len() - ups(ov.subrange(0, i as int)),
            invert_spec(ov.subrange(0, i as int), cv) == Some(crate::text::strs(ret@)),
        decreases out@.len() - i,
    {
        let ghost pre = ov.subrange(0, i as int);
        assert(ov.subrange(0, i + 1).drop_last() =~= pre);
        assert(ov.subrange(0, i + 1).last() == out@[i as int]@);
        let ghost before = ret@;
        proof {
            reveal_strlit("..");
        }
        if crate::text::str_eq(out[i].as_str(), "..") {
            if depth == 0 {
                proof {
                    lemma_invert_none_stays(ov, cv, i + 1);
                }
                return None;
            }
            let name = cwd[depth - 1].clone();
            ret.insert(0, name);
            depth = depth - 1;
            assert(crate::text::strs(ret@) =~= seq![cv[cv.len() - ups(pre) - 1]] + crate::text::strs(before));
        } else {
            ret.insert(0, String::from_str(".."));
            assert(crate::text::strs(ret@) =~= seq![".."@] + crate::text::strs(before));
        }
        i = i + 1;
    }
    proof {
        assert(ov.subrange(0, i as int) =~= ov);
    }
    Some(ret)
}

} // verus!
