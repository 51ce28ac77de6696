//! Glob-style patterns matched against MIME strings and paths.
//!
//! A pattern is a sequence of characters where `*` matches any (possibly
//! empty) run of characters and `?` matches exactly one character. A pattern
//! written with a trailing `/` applies to directories only; without it, to
//! regular files only.

use vstd::prelude::*;
use vstd::string::StrSliceExecFns;

verus! {

/// Mathematical model of a pattern: the glob text and whether it targets
/// directories.
#[verifier::ext_equal]
pub struct PatternModel {
    pub glob: Seq<char>,
    pub is_dir: bool,
}

/// Whether glob pattern `p` matches the whole text `t`.
pub open spec fn glob_matches(p: Seq<char>, t: Seq<char>) -> bool
    decreases p.len(), t.len(),
{
    if p.len() == 0 {
        t.len() == 0
    } else if p[0] == '*' {
        glob_matches(p.skip(1), t) || (t.len() > 0 && glob_matches(p, t.skip(1)))
    } else {
        t.len() > 0 && (p[0] == '?' || p[0] == t[0]) && glob_matches(p.skip(1), t.skip(1))
    }
}

/// How a pattern is read from its textual form: a trailing `/` marks a
/// directory pattern and is not part of the glob.
pub open spec fn pattern_of(s: Seq<char>) -> PatternModel {
    if s.len() > 0 && s.last() == '/' {
        PatternModel { glob: s.drop_last(), is_dir: true }
    } else {
        PatternModel { glob: s, is_dir: false }
    }
}

/// A pattern matches a MIME string when its glob matches the whole string.
pub open spec fn pat_matches_mime(p: PatternModel, mime: Seq<char>) -> bool {
    glob_matches(p.glob, mime)
}

/// A pattern matches a path when it targets the same kind of entry
/// (directory or regular file) and its glob matches the whole path.
pub open spec fn pat_matches_path(p: PatternModel, path: Seq<char>, is_dir: bool) -> bool {
    p.is_dir == is_dir && glob_matches(p.glob, path)
}

/// A catch-all for every regular file: the bare `*` glob, not a directory
/// pattern.
pub open spec fn pat_any_file(p: PatternModel) -> bool {
    !p.is_dir && p.glob =~= seq!['*']
}

/// A catch-all for every directory: the bare `*` glob as a directory pattern.
pub open spec fn pat_any_dir(p: PatternModel) -> bool {
    p.is_dir && p.glob =~= seq!['*']
}

/// Collects the characters of a string slice into a vector.
pub fn chars_of(s: &str) -> (r: Vec<char>)
    ensures
        r@ == s@,
{
    let n: usize = s.unicode_len();
    let mut r: Vec<char> = Vec::new();
    let mut i: usize = 0;
    while i < n
        invariant
            n == s@.len(),
            i <= n,
            r@ == s@.take(i as int),
        decreases n - i,
    {
        r.push(s.get_char(i));
        i = i + 1;
        proof {
            assert(s@.take(i as int) =~= s@.take(i - 1).push(s@[i - 1]));
        }
    }
    proof {
        assert(s@.take(n as int) =~= s@);
    }
    r
}

/// A compiled pattern: the glob characters and the directory flag.
pub struct Pattern {
    pub glob: Vec<char>,
    pub is_dir: bool,
}

impl View for Pattern {
    type V = PatternModel;

    open spec fn view(&self) -> PatternModel {
        PatternModel { glob: self.glob@, is_dir: self.is_dir }
    }
}

/// Recursive glob matcher over character vectors, from positions `i` of the
/// pattern and `j` of the text.
fn glob_rec(p: &Vec<char>, t: &Vec<char>, i: usize, j: usize) -> (r: bool)
    requires
        i <= p.len(),
        j <= t.len(),
    ensures
        r == glob_matches(p@.skip(i as int), t@.skip(j as int)),
    decreases p.len() - i, t.len() - j,
{
    proof {
        if i < p.len() {
            assert(p@.skip(i as int)[0] == p@[i as int]);
            assert(p@.skip(i as int).skip(1) =~= p@.skip(i + 1));
        }
        if j < t.len() {
            assert(t@.skip(j as int)[0] == t@[j as int]);
            assert(t@.skip(j as int).skip(1) =~= t@.skip(j + 1));
        }
    }
    if i == p.len() {
        j == t.len()
    } else if p[i] == '*' {
        if glob_rec(p, t, i + 1, j) {
            true
        } else if j < t.len() {
            glob_rec(p, t, i, j + 1)
        } else {
            false
        }
    } else if j < t.len() && (p[i] == '?' || p[i] == t[j]) {
        glob_rec(p, t, i + 1, j + 1)
    } else {
        false
    }
}

impl Pattern {
    /// Compiles a pattern from its textual form; a trailing `/` selects
    /// directories and is stripped from the glob.
    pub fn new(text: &str) -> (r: Pattern)
        ensures
            r@ == pattern_of(text@),
    {
        let chars = chars_of(text);
        let n = chars.len();
        if n > 0 && chars[n - 1] == '/' {
            let mut glob = chars;
            let _last = glob.pop();
            proof {
                assert(glob@ =~= text@.drop_last());
            }
            Pattern { glob, is_dir: true }
        } else {
            Pattern { glob: chars, is_dir: false }
        }
    }

    /// Whether this pattern matches the given MIME string.
    pub fn match_mime(&self, mime: &str) -> (r: bool)
        ensures
            r == pat_matches_mime(self@, mime@),
    {
        let t = chars_of(mime);
        proof {
            assert(self.glob@.skip(0) =~= self.glob@);
            assert(t@.skip(0) =~= t@);
        }
        glob_rec(&self.glob, &t, 0, 0)
    }

    /// Whether this pattern matches the given path for an entry that is a
    /// directory iff `is_dir`.
    pub fn match_path(&self, path: &str, is_dir: bool) -> (r: bool)
        ensures
            r == pat_matches_path(self@, path@, is_dir),
    {
        if self.is_dir != is_dir {
            return false;
        }
        let t = chars_of(path);
        proof {
            assert(self.glob@.skip(0) =~= self.glob@);
            assert(t@.skip(0) =~= t@);
        }
        glob_rec(&self.glob, &t, 0, 0)
    }

    /// Whether this pattern is the catch-all for regular files.
    pub fn any_file(&self) -> (r: bool)
        ensures
            r == pat_any_file(self@),
    {
        let r = !self.is_dir && self.glob.len() == 1 && self.glob[0] == '*';
        proof {
            if self.glob@.len() == 1 && self.glob@[0] == '*' {
                assert(self.glob@ =~= seq!['*']);
            }
        }
        r
    }

    /// Whether this pattern is the catch-all for directories.
    pub fn any_dir(&self) -> (r: bool)
        ensures
            r == pat_any_dir(self@),
    {
        let r = self.is_dir && self.glob.len() == 1 && self.glob[0] == '*';
        proof {
            if self.glob@.len() == 1 && self.glob@[0] == '*' {
                assert(self.glob@ =~= seq!['*']);
            }
        }
        r
    }
}

} // verus!
