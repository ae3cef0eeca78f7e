//! What a project may set for a scan: how its page files are named and which
//! directories it leaves out.

use vstd::prelude::*;

verus! {

/// The settings of a scan.
#[derive(Debug)]
pub struct ScanOptions {
    /// The base name of a page file; a directory is routable when it holds a
    /// file of this name with one extension.
    pub page_stem: String,
    /// Directory names that are ignored besides the dot-directories and
    /// `node_modules`.
    pub exclusions: Vec<String>,
}

/// The settings of a scan as plain values.
pub struct OptionsView {
    pub page_stem: Seq<char>,
    pub exclusions: Seq<Seq<char>>,
}

impl View for ScanOptions {
    type V = OptionsView;

    open spec fn view(&self) -> OptionsView {
        OptionsView {
            page_stem: self.page_stem@,
            exclusions: self.exclusions@.map_values(|e: String| e@),
        }
    }
}

/// The usual settings: page files are named `page`, and no directory is
/// left out besides the dot-directories and `node_modules`.
pub open spec fn default_options() -> OptionsView {
    OptionsView { page_stem: seq!['p', 'a', 'g', 'e'], exclusions: Seq::empty() }
}

impl Default for ScanOptions {
    fn default() -> (options: Self)
        ensures
            options@ == default_options(),
    {
        proof {
            reveal_strlit("page");
        }
        let options = ScanOptions { page_stem: String::from_str("page"), exclusions: Vec::new() };
        assert(options@.page_stem =~= default_options().page_stem);
        assert(options@.exclusions =~= default_options().exclusions);
        options
    }
}

impl ScanOptions {
    /// Whether `name` is one of the excluded directory names.
    pub fn excludes(&self, name: &str) -> (r: bool)
        ensures
            r == self@.exclusions.contains(name@),
    {
        let wanted = String::from_str(name);
        let mut i: usize = 0;
        while i < self.exclusions.len()
            invariant
                i <= self.exclusions.len(),
                wanted@ == name@,
                forall|j: int| 0 <= j < i ==> self@.exclusions[j] != name@,
            decreases self.exclusions.len() - i,
        {
            if self.exclusions[i] == wanted {
                assert(self@.exclusions[i as int] == name@);
                return true;
            }
            i += 1;
        }
        false
    }
}

} // verus!
