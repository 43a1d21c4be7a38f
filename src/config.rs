//! Run configuration: source roots, output directory, database path, front
//! page and theme.

use vstd::prelude::*;
use vstd::string::*;
use crate::text::{clone_strings, strs};

verus! {

/// Where the sources are and where the output goes.
pub struct Config {
    pub sources: Vec<String>,
    pub output: String,
    pub db_path: String,
    /// Identifier of the document that becomes the site's index page.
    pub frontpage: Option<String>,
    /// Path of a stylesheet that replaces the default theme.
    pub theme: Option<String>,
}

impl Config {
    /// The source roots that were added, in order.
    pub open spec fn source_dirs(&self) -> Seq<Seq<char>> {
        strs(self.sources@)
    }

    /// The defaults: no source root, output under `out/`, database `db.sqlite3`.
    pub fn new() -> (r: Config)
        ensures
            r.source_dirs().len() == 0,
            r.output@ == "out/"@,
            r.db_path@ == "db.sqlite3"@,
            r.frontpage is None,
            r.theme is None,
    {
        let r = Config {
            sources: Vec::new(),
            output: String::from_str("out/"),
            db_path: String::from_str("db.sqlite3"),
            frontpage: None,
            theme: None,
        };
        assert(strs(r.sources@) =~= Seq::<Seq<char>>::empty());
        r
    }

    /// The source roots; the current directory when none was added.
    pub fn get_sources(&self) -> (r: Vec<String>)
        ensures
            self.source_dirs().len() == 0 ==> strs(r@) == seq!["."@],
            self.source_dirs().len() > 0 ==> strs(r@) == self.source_dirs(),
    {
        if self.sources.len() == 0 {
            let v = vec![String::from_str(".")];
            assert(strs(v@) =~= seq!["."@]);
            v
        } else {
            clone_strings(&self.sources)
        }
    }

    /// Adds a source root.
    pub fn push_source_dir(&mut self, s: String)
        ensures
            final(self).source_dirs() == old(self).source_dirs().push(s@),
            final(self).output == old(self).output,
            final(self).db_path == old(self).db_path,
            final(self).frontpage == old(self).frontpage,
            final(self).theme == old(self).theme,
    {
        let ghost before = self.sources@;
        self.sources.push(s);
        assert(strs(self.sources@) =~= strs(before).push(s@));
    }
}

} // verus!
