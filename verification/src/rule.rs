//! Match rules: an optional MIME pattern and/or an optional path pattern,
//! plus the names of the opener groups the rule refers to.
//!
//! Rule order is significant: the table built from them is scanned first to
//! last, and the first rule that matches and resolves to a non-empty set of
//! openers wins.

use vstd::prelude::*;
use crate::pattern::{Pattern, PatternModel, pat_matches_mime, pat_matches_path, pat_any_file,
    pat_any_dir};

verus! {

/// The fixed MIME-like string that stands for "this entry is a directory".
pub open spec fn dir_sentinel() -> Seq<char> {
    "inode/directory"@
}

/// Whether a MIME string denotes a directory entry.
pub open spec fn is_dir_mime(mime: Seq<char>) -> bool {
    mime == dir_sentinel()
}

/// Whether two string slices hold the same characters.
pub fn str_eq(a: &str, b: &str) -> (r: bool)
    ensures
        r == (a@ == b@),
{
    let x: String = a.to_owned();
    let y: String = b.to_owned();
    x == y
}

/// Whether a MIME string is the directory sentinel.
pub fn mime_is_dir(mime: &str) -> (r: bool)
    ensures
        r == is_dir_mime(mime@),
{
    str_eq(mime, "inode/directory")
}

/// Mathematical model of a rule.
#[verifier::ext_equal]
pub struct RuleModel {
    pub mime: Option<PatternModel>,
    pub name: Option<PatternModel>,
    pub uses: Seq<Seq<char>>,
}

/// A rule matches an entry when its MIME pattern matches the entry's MIME
/// string, or its path pattern matches the entry's path; the entry counts as
/// a directory exactly when its MIME string is the directory sentinel.
pub open spec fn rule_matches(r: RuleModel, path: Seq<char>, mime: Seq<char>) -> bool {
    ||| (r.mime is Some && pat_matches_mime(r.mime->0, mime))
    ||| (r.name is Some && pat_matches_path(r.name->0, path, is_dir_mime(mime)))
}

/// A catch-all rule for every regular file: its path pattern matches any
/// regular file.
pub open spec fn rule_any_file(r: RuleModel) -> bool {
    r.name is Some && pat_any_file(r.name->0)
}

/// A catch-all rule for every directory: its path pattern matches any
/// directory.
pub open spec fn rule_any_dir(r: RuleModel) -> bool {
    r.name is Some && pat_any_dir(r.name->0)
}

/// A match rule: optional MIME pattern, optional path pattern, and the
/// opener-group names it references, in order.
pub struct OpenRule {
    pub mime: Option<Pattern>,
    pub name: Option<Pattern>,
    pub use_: Vec<String>,
}

impl View for OpenRule {
    type V = RuleModel;

    open spec fn view(&self) -> RuleModel {
        RuleModel {
            mime: match self.mime {
                Some(p) => Some(p@),
                None => None,
            },
            name: match self.name {
                Some(p) => Some(p@),
                None => None,
            },
            uses: self.use_.deep_view(),
        }
    }
}

impl OpenRule {
    /// Builds a rule from its parts.
    pub fn new(mime: Option<Pattern>, name: Option<Pattern>, use_: Vec<String>) -> (r: OpenRule)
        ensures
            r@.mime == (match mime {
                Some(p) => Some(p@),
                None => None::<PatternModel>,
            }),
            r@.name == (match name {
                Some(p) => Some(p@),
                None => None::<PatternModel>,
            }),
            r@.uses == use_.deep_view(),
    {
        OpenRule { mime, name, use_ }
    }

    /// Whether this rule matches the given path and MIME string.
    pub fn matches(&self, path: &str, mime: &str) -> (r: bool)
        ensures
            r == rule_matches(self@, path@, mime@),
    {
        if let Some(p) = &self.mime {
            if p.match_mime(mime) {
                return true;
            }
        }
        if let Some(p) = &self.name {
            let is_dir = mime_is_dir(mime);
            if p.match_path(path, is_dir) {
                return true;
            }
        }
        false
    }

    /// Whether this rule is a catch-all for regular files.
    pub fn any_file(&self) -> (r: bool)
        ensures
            r == rule_any_file(self@),
    {
        match &self.name {
            Some(p) => p.any_file(),
            None => false,
        }
    }

    /// Whether this rule is a catch-all for directories.
    pub fn any_dir(&self) -> (r: bool)
        ensures
            r == rule_any_dir(self@),
    {
        match &self.name {
            Some(p) => p.any_dir(),
            None => false,
        }
    }
}

/// The models of a sequence of rules.
pub open spec fn rule_views(s: Seq<OpenRule>) -> Seq<RuleModel> {
    s.map_values(|r: OpenRule| r@)
}

} // verus!
