//! The Ignore Policy: decides which filesystem entries may enter the index.
//!
//! The policy is configuration: a hidden-name rule and three denylists.
//! Fragments are matched case-insensitively against the whole path and the
//! base name; extensions and application-directory fragments are stored
//! lowercased and matched against the lowercased name and path.

use vstd::prelude::*;

use crate::text::{lower_of, lowercase, seq_contains, str_contains, str_ends_with};

verus! {

/// The denylists and the hidden-file rule.
pub struct IgnorePolicy {
    /// Show entries whose name starts with a dot.
    pub show_hidden: bool,
    /// Substrings that disqualify a path or name, matched
    /// case-insensitively.
    pub deny_fragments: Vec<String>,
    /// Name suffixes that disqualify an entry; given lowercased.
    pub deny_extensions: Vec<String>,
    /// Path substrings marking application directories; given lowercased.
    pub deny_dirs: Vec<String>,
}

impl IgnorePolicy {
    /// A name counts as hidden when it starts with a dot.
    pub open spec fn hidden(name_low: Seq<char>) -> bool {
        name_low.len() > 0 && name_low[0] == '.'
    }

    /// `suffix` ends `s`.
    pub open spec fn ends_with(s: Seq<char>, suffix: Seq<char>) -> bool {
        suffix.len() <= s.len() && s.subrange(s.len() - suffix.len(), s.len() as int)
            == suffix
    }

    /// The policy admits the entry: not hidden (unless shown), no denylisted
    /// fragment in path or name, no denylisted name suffix, and not inside
    /// an application directory.
    pub open spec fn eligible_spec(self, path: Seq<char>, name: Seq<char>) -> bool {
        let pl = lower_of(path);
        let nl = lower_of(name);
        &&& (self.show_hidden || !Self::hidden(nl))
        &&& !(exists|k: int|
            0 <= k < self.deny_fragments@.len() && (seq_contains(
                pl,
                lower_of((#[trigger] self.deny_fragments@[k])@),
            ) || seq_contains(nl, lower_of(self.deny_fragments@[k]@))))
        &&& !(exists|k: int|
            0 <= k < self.deny_extensions@.len() && Self::ends_with(
                nl,
                (#[trigger] self.deny_extensions@[k])@,
            ))
        &&& !(exists|k: int|
            0 <= k < self.deny_dirs@.len() && seq_contains(
                pl,
                (#[trigger] self.deny_dirs@[k])@,
            ))
    }

    /// Pure eligibility test; `path` is the full path and `name` its base
    /// name, both as read from the filesystem.
    pub fn is_eligible(&self, path: &str, name: &str) -> (r: bool)
        ensures
            r == self.eligible_spec(path@, name@),
    {
        let pl = lowercase(path);
        let nl = lowercase(name);
        if !self.show_hidden && nl.as_str().unicode_len() > 0 && nl.as_str().get_char(0) == '.' {
            return false;
        }
        let mut k: usize = 0;
        while k < self.deny_fragments.len()
            invariant
                k <= self.deny_fragments@.len(),
                pl@ == lower_of(path@),
                nl@ == lower_of(name@),
                forall|j: int|
                    0 <= j < k ==> !seq_contains(
                        pl@,
                        lower_of((#[trigger] self.deny_fragments@[j])@),
                    ) && !seq_contains(nl@, lower_of(self.deny_fragments@[j]@)),
            decreases self.deny_fragments@.len() - k,
        {
            let f = lowercase(self.deny_fragments[k].as_str());
            if str_contains(pl.as_str(), f.as_str()) || str_contains(nl.as_str(), f.as_str()) {
                return false;
            }
            k += 1;
        }
        let mut k: usize = 0;
        while k < self.deny_extensions.len()
            invariant
                k <= self.deny_extensions@.len(),
                nl@ == lower_of(name@),
                forall|j: int|
                    0 <= j < k ==> !Self::ends_with(nl@, (#[trigger] self.deny_extensions@[j])@),
            decreases self.deny_extensions@.len() - k,
        {
            if str_ends_with(nl.as_str(), self.deny_extensions[k].as_str()) {
                return false;
            }
            k += 1;
        }
        let mut k: usize = 0;
        while k < self.deny_dirs.len()
            invariant
                k <= self.deny_dirs@.len(),
                pl@ == lower_of(path@),
                forall|j: int|
                    0 <= j < k ==> !seq_contains(pl@, (#[trigger] self.deny_dirs@[j])@),
            decreases self.deny_dirs@.len() - k,
        {
            if str_contains(pl.as_str(), self.deny_dirs[k].as_str()) {
                return false;
            }
            k += 1;
        }
        true
    }

    /// The stock configuration: version-control, build and IDE directories,
    /// application bundles with their installer or transient suffixes, the
    /// well-known vendor directories, and the usual application folders.
    /// The contract pins every configured entry, so what the stock policy
    /// rejects is provable downstream.
    pub fn defaults(show_hidden: bool) -> (r: IgnorePolicy)
        ensures
            r.show_hidden == show_hidden,
            r.deny_fragments@.len() == 30,
            r.deny_fragments@[0]@ == "/.git/"@,
            r.deny_fragments@[1]@ == "/node_modules/"@,
            r.deny_fragments@[2]@ == "/target/"@,
            r.deny_fragments@[3]@ == "/build/"@,
            r.deny_fragments@[4]@ == "/dist/"@,
            r.deny_fragments@[5]@ == "/.idea/"@,
            r.deny_fragments@[6]@ == "/.vscode/"@,
            r.deny_fragments@[7]@ == "github"@,
            r.deny_fragments@[8]@ == ".app/"@,
            r.deny_fragments@[9]@ == ".exe/"@,
            r.deny_fragments@[10]@ == ".dmg/"@,
            r.deny_fragments@[11]@ == ".pkg/"@,
            r.deny_fragments@[12]@ == "/.ds_store"@,
            r.deny_fragments@[13]@ == "/thumbs.db"@,
            r.deny_fragments@[14]@ == "*.tmp"@,
            r.deny_fragments@[15]@ == "*.log"@,
            r.deny_fragments@[16]@ == "*.cache"@,
            r.deny_fragments@[17]@ == "*.swp"@,
            r.deny_fragments@[18]@ == "*.bak"@,
            r.deny_fragments@[19]@ == "*.temp"@,
            r.deny_fragments@[20]@ == "microsoft office/"@,
            r.deny_fragments@[21]@ == "adobe/"@,
            r.deny_fragments@[22]@ == "jetbrains/"@,
            r.deny_fragments@[23]@ == "intellij/"@,
            r.deny_fragments@[24]@ == "webstorm/"@,
            r.deny_fragments@[25]@ == "phpstorm/"@,
            r.deny_fragments@[26]@ == "pycharm/"@,
            r.deny_fragments@[27]@ == "android studio/"@,
            r.deny_fragments@[28]@ == "eclipse/"@,
            r.deny_fragments@[29]@ == "netbeans/"@,
            r.deny_extensions@.len() == 4,
            r.deny_extensions@[0]@ == ".app"@,
            r.deny_extensions@[1]@ == ".exe"@,
            r.deny_extensions@[2]@ == ".dmg"@,
            r.deny_extensions@[3]@ == ".pkg"@,
            r.deny_dirs@.len() == 4,
            r.deny_dirs@[0]@ == "/applications/"@,
            r.deny_dirs@[1]@ == "/program files/"@,
            r.deny_dirs@[2]@ == "/program files (x86)/"@,
            r.deny_dirs@[3]@ == "/library/application support/"@,
    {
        let mut frags: Vec<String> = Vec::new();
        frags.push(String::from_str("/.git/"));
        frags.push(String::from_str("/node_modules/"));
        frags.push(String::from_str("/target/"));
        frags.push(String::from_str("/build/"));
        frags.push(String::from_str("/dist/"));
        frags.push(String::from_str("/.idea/"));
        frags.push(String::from_str("/.vscode/"));
        frags.push(String::from_str("github"));
        frags.push(String::from_str(".app/"));
        frags.push(String::from_str(".exe/"));
        frags.push(String::from_str(".dmg/"));
        frags.push(String::from_str(".pkg/"));
        frags.push(String::from_str("/.ds_store"));
        frags.push(String::from_str("/thumbs.db"));
        frags.push(String::from_str("*.tmp"));
        frags.push(String::from_str("*.log"));
        frags.push(String::from_str("*.cache"));
        frags.push(String::from_str("*.swp"));
        frags.push(String::from_str("*.bak"));
        frags.push(String::from_str("*.temp"));
        frags.push(String::from_str("microsoft office/"));
        frags.push(String::from_str("adobe/"));
        frags.push(String::from_str("jetbrains/"));
        frags.push(String::from_str("intellij/"));
        frags.push(String::from_str("webstorm/"));
        frags.push(String::from_str("phpstorm/"));
        frags.push(String::from_str("pycharm/"));
        frags.push(String::from_str("android studio/"));
        frags.push(String::from_str("eclipse/"));
        frags.push(String::from_str("netbeans/"));
        let mut exts: Vec<String> = Vec::new();
        exts.push(String::from_str(".app"));
        exts.push(String::from_str(".exe"));
        exts.push(String::from_str(".dmg"));
        exts.push(String::from_str(".pkg"));
        let mut dirs: Vec<String> = Vec::new();
        dirs.push(String::from_str("/applications/"));
        dirs.push(String::from_str("/program files/"));
        dirs.push(String::from_str("/program files (x86)/"));
        dirs.push(String::from_str("/library/application support/"));
        IgnorePolicy { show_hidden, deny_fragments: frags, deny_extensions: exts, deny_dirs: dirs }
    }
}

} // verus!
