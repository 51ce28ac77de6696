//! The resolver: an ordered rule table plus a registry of named opener
//! groups, built once from configuration and then queried read-only.
//!
//! The table is built by a layered merge: user `prepend` rules come first,
//! then the `base` (default) rules — with default catch-alls removed when the
//! user's `append` rules supply their own — then the `append` rules. A query
//! scans the table in order and the first rule that matches and resolves to
//! a non-empty, deduplicated set of openers wins; a matching rule whose
//! groups resolve to nothing is passed over as if it had not matched.

use vstd::prelude::*;
use crate::opener::{Opener, OpenerModel, opener_views, dedup, valid_of, dedup_openers,
    contains_opener, clean_group};
use crate::rule::{OpenRule, RuleModel, rule_views, rule_matches, rule_any_file, rule_any_dir,
    str_eq};
use crate::pattern::{Pattern, pat_matches_mime};

verus! {

/// Mathematical model of the resolver: the merged rule table and the group
/// registry, an association list from group name to opener collection.
#[verifier::ext_equal]
pub struct OpenModel {
    pub rules: Seq<RuleModel>,
    pub groups: Seq<(Seq<char>, Seq<OpenerModel>)>,
}

/// The first group with the given name, if any.
pub open spec fn lookup(groups: Seq<(Seq<char>, Seq<OpenerModel>)>, name: Seq<char>) -> Option<
    Seq<OpenerModel>,
>
    decreases groups.len(),
{
    if groups.len() == 0 {
        None
    } else if groups[0].0 == name {
        Some(groups[0].1)
    } else {
        lookup(groups.drop_first(), name)
    }
}

/// The openers of the group with the given name; an unknown name contributes
/// nothing.
pub open spec fn lookup_or_empty(
    groups: Seq<(Seq<char>, Seq<OpenerModel>)>,
    name: Seq<char>,
) -> Seq<OpenerModel> {
    match lookup(groups, name) {
        Some(g) => g,
        None => Seq::empty(),
    }
}

/// Flattens the referenced groups in reference order.
pub open spec fn gather(
    groups: Seq<(Seq<char>, Seq<OpenerModel>)>,
    uses: Seq<Seq<char>>,
) -> Seq<OpenerModel>
    decreases uses.len(),
{
    if uses.len() == 0 {
        Seq::empty()
    } else {
        gather(groups, uses.drop_last()) + lookup_or_empty(groups, uses.last())
    }
}

/// What a rule's references resolve to: the flattened groups, deduplicated
/// preserving first occurrence.
pub open spec fn resolved(
    groups: Seq<(Seq<char>, Seq<OpenerModel>)>,
    uses: Seq<Seq<char>>,
) -> Seq<OpenerModel> {
    dedup(gather(groups, uses))
}

/// The first-match-wins scan: the resolution of the first rule that matches
/// the entry and resolves to a non-empty set; a matching rule with an empty
/// resolution is passed over.
pub open spec fn scan_rules(
    groups: Seq<(Seq<char>, Seq<OpenerModel>)>,
    rules: Seq<RuleModel>,
    path: Seq<char>,
    mime: Seq<char>,
) -> Option<Seq<OpenerModel>>
    decreases rules.len(),
{
    if rules.len() == 0 {
        None
    } else if rule_matches(rules[0], path, mime) && resolved(groups, rules[0].uses).len() > 0 {
        Some(resolved(groups, rules[0].uses))
    } else {
        scan_rules(groups, rules.drop_first(), path, mime)
    }
}

/// What `Open::openers` returns, as a function of the model.
pub open spec fn openers_spec(m: OpenModel, path: Seq<char>, mime: Seq<char>) -> Option<
    Seq<OpenerModel>,
> {
    scan_rules(m.groups, m.rules, path, mime)
}

/// The first opener with the `block` attribute in a resolved sequence.
pub open spec fn first_block(s: Seq<OpenerModel>) -> Option<OpenerModel>
    decreases s.len(),
{
    if s.len() == 0 {
        None
    } else if s[0].block {
        Some(s[0])
    } else {
        first_block(s.drop_first())
    }
}

/// What `Open::block_opener` returns, as a function of the model.
pub open spec fn block_opener_spec(m: OpenModel, path: Seq<char>, mime: Seq<char>) -> Option<
    OpenerModel,
> {
    match openers_spec(m, path, mime) {
        Some(s) => first_block(s),
        None => None,
    }
}

/// The per-target resolutions of a sequence of `(path, mime)` targets, in
/// target order; targets that resolve to nothing are left out entirely.
pub open spec fn grouped(m: OpenModel, targets: Seq<(Seq<char>, Seq<char>)>) -> Seq<
    Seq<OpenerModel>,
>
    decreases targets.len(),
{
    if targets.len() == 0 {
        Seq::empty()
    } else {
        let pre = grouped(m, targets.drop_last());
        match openers_spec(m, targets.last().0, targets.last().1) {
            Some(s) => pre.push(s),
            None => pre,
        }
    }
}

/// Concatenation of a sequence of resolutions.
pub open spec fn concat_all(gs: Seq<Seq<OpenerModel>>) -> Seq<OpenerModel>
    decreases gs.len(),
{
    if gs.len() == 0 {
        Seq::empty()
    } else {
        concat_all(gs.drop_last()) + gs.last()
    }
}

/// Whether an opener occurs in every resolution of the sequence.
pub open spec fn in_all(x: OpenerModel, gs: Seq<Seq<OpenerModel>>) -> bool {
    forall|i: int| 0 <= i < gs.len() ==> #[trigger] gs[i].contains(x)
}

/// Keeps, in order, the elements common to every resolution.
pub open spec fn keep_common(s: Seq<OpenerModel>, gs: Seq<Seq<OpenerModel>>) -> Seq<OpenerModel>
    decreases s.len(),
{
    if s.len() == 0 {
        Seq::empty()
    } else {
        let pre = keep_common(s.drop_last(), gs);
        if in_all(s.last(), gs) {
            pre.push(s.last())
        } else {
            pre
        }
    }
}

/// What `Open::common_openers` returns: the deduplicated union of the
/// retained per-target resolutions, in first-seen order, filtered to the
/// openers common to every retained resolution.
pub open spec fn common_openers_spec(
    m: OpenModel,
    targets: Seq<(Seq<char>, Seq<char>)>,
) -> Seq<OpenerModel> {
    keep_common(dedup(concat_all(grouped(m, targets))), grouped(m, targets))
}

/// Whether some rule of the sequence is a catch-all for regular files.
pub open spec fn has_any_file(rs: Seq<RuleModel>) -> bool {
    exists|i: int| 0 <= i < rs.len() && rule_any_file(#[trigger] rs[i])
}

/// Whether some rule of the sequence is a catch-all for directories.
pub open spec fn has_any_dir(rs: Seq<RuleModel>) -> bool {
    exists|i: int| 0 <= i < rs.len() && rule_any_dir(#[trigger] rs[i])
}

/// The base layer with its superseded catch-alls removed: catch-alls for
/// regular files go when `kill_file` holds, catch-alls for directories when
/// `kill_dir` holds.
pub open spec fn filter_base(rs: Seq<RuleModel>, kill_file: bool, kill_dir: bool) -> Seq<RuleModel>
    decreases rs.len(),
{
    if rs.len() == 0 {
        Seq::empty()
    } else {
        let pre = filter_base(rs.drop_last(), kill_file, kill_dir);
        if (kill_file && rule_any_file(rs.last())) || (kill_dir && rule_any_dir(rs.last())) {
            pre
        } else {
            pre.push(rs.last())
        }
    }
}

/// The merged rule table: `prepend`, then the filtered base, then `append`;
/// the base loses its catch-alls of a kind exactly when `append` supplies one
/// of that kind.
pub open spec fn merged_rules(
    prepend: Seq<RuleModel>,
    base: Seq<RuleModel>,
    append: Seq<RuleModel>,
) -> Seq<RuleModel> {
    prepend + filter_base(base, has_any_file(append), has_any_dir(append)) + append
}

/// The models of the group registry.
pub open spec fn groups_views(s: Seq<(String, Vec<Opener>)>) -> Seq<(Seq<char>, Seq<OpenerModel>)> {
    s.map_values(|p: (String, Vec<Opener>)| (p.0@, opener_views(p.1@)))
}

/// The registry built from raw groups: each group keeps its valid
/// definitions, deduplicated preserving first occurrence.
pub open spec fn build_groups(s: Seq<(Seq<char>, Seq<OpenerModel>)>) -> Seq<
    (Seq<char>, Seq<OpenerModel>),
>
    decreases s.len(),
{
    if s.len() == 0 {
        Seq::empty()
    } else {
        build_groups(s.drop_last()).push((s.last().0, dedup(valid_of(s.last().1))))
    }
}

/// The resolver: the merged rule table and the opener-group registry.
pub struct Open {
    pub rules: Vec<OpenRule>,
    pub openers: Vec<(String, Vec<Opener>)>,
}

impl View for Open {
    type V = OpenModel;

    open spec fn view(&self) -> OpenModel {
        OpenModel { rules: rule_views(self.rules@), groups: groups_views(self.openers@) }
    }
}

/// Whether some rule of the vector is a catch-all for regular files.
fn any_file_in(v: &Vec<OpenRule>) -> (r: bool)
    ensures
        r == has_any_file(rule_views(v@)),
{
    let mut i: usize = 0;
    while i < v.len()
        invariant
            i <= v.len(),
            forall|k: int| 0 <= k < i ==> !rule_any_file(#[trigger] rule_views(v@)[k]),
        decreases v.len() - i,
    {
        if v[i].any_file() {
            proof {
                assert(rule_any_file(rule_views(v@)[i as int]));
            }
            return true;
        }
        proof {
            assert(rule_views(v@)[i as int] == v@[i as int]@);
        }
        i = i + 1;
    }
    false
}

/// Whether some rule of the vector is a catch-all for directories.
fn any_dir_in(v: &Vec<OpenRule>) -> (r: bool)
    ensures
        r == has_any_dir(rule_views(v@)),
{
    let mut i: usize = 0;
    while i < v.len()
        invariant
            i <= v.len(),
            forall|k: int| 0 <= k < i ==> !rule_any_dir(#[trigger] rule_views(v@)[k]),
        decreases v.len() - i,
    {
        if v[i].any_dir() {
            proof {
                assert(rule_any_dir(rule_views(v@)[i as int]));
            }
            return true;
        }
        proof {
            assert(rule_views(v@)[i as int] == v@[i as int]@);
        }
        i = i + 1;
    }
    false
}

/// Copies a vector of characters.
fn dup_chars(v: &Vec<char>) -> (r: Vec<char>)
    ensures
        r@ == v@,
{
    let mut r: Vec<char> = Vec::new();
    let mut i: usize = 0;
    while i < v.len()
        invariant
            i <= v.len(),
            r@ == v@.take(i as int),
        decreases v.len() - i,
    {
        r.push(v[i]);
        proof {
            assert(v@.take(i + 1) =~= v@.take(i as int).push(v@[i as int]));
        }
        i = i + 1;
    }
    proof {
        assert(v@.take(v@.len() as int) =~= v@);
    }
    r
}

/// Copies a vector of strings.
fn dup_strings(v: &Vec<String>) -> (r: Vec<String>)
    ensures
        r@ == v@,
{
    let mut r: Vec<String> = Vec::new();
    let mut i: usize = 0;
    while i < v.len()
        invariant
            i <= v.len(),
            r@ == v@.take(i as int),
        decreases v.len() - i,
    {
        r.push(v[i].clone());
        proof {
            assert(v@.take(i + 1) =~= v@.take(i as int).push(v@[i as int]));
        }
        i = i + 1;
    }
    proof {
        assert(v@.take(v@.len() as int) =~= v@);
    }
    r
}

impl Pattern {
    /// An owned copy with the same glob and directory flag.
    pub fn duplicate(&self) -> (r: Pattern)
        ensures
            r@ == self@,
    {
        let r = Pattern { glob: dup_chars(&self.glob), is_dir: self.is_dir };
        proof {
            assert(r@ =~= self@);
        }
        r
    }
}

impl OpenRule {
    /// An owned copy with the same patterns and references.
    pub fn duplicate(&self) -> (r: OpenRule)
        ensures
            r@ == self@,
    {
        let mime = match &self.mime {
            Some(p) => Some(p.duplicate()),
            None => None,
        };
        let name = match &self.name {
            Some(p) => Some(p.duplicate()),
            None => None,
        };
        let r = OpenRule { mime, name, use_: dup_strings(&self.use_) };
        proof {
            assert(r@.uses =~= self@.uses);
            assert(r@ =~= self@);
        }
        r
    }
}

/// Appends copies of all rules of `src` to `out`.
fn append_rule_copies(out: &mut Vec<OpenRule>, src: &Vec<OpenRule>)
    ensures
        rule_views(final(out)@) == rule_views(old(out)@) + rule_views(src@),
{
    let mut i: usize = 0;
    while i < src.len()
        invariant
            i <= src.len(),
            rule_views(out@) == rule_views(old(out)@) + rule_views(src@).take(i as int),
        decreases src.len() - i,
    {
        let ghost before = out@;
        out.push(src[i].duplicate());
        proof {
            let lhs = rule_views(out@);
            let rhs = rule_views(old(out)@) + rule_views(src@).take(i + 1);
            assert(out@ == before.push(out@.last()));
            assert(out@.last()@ == src@[i as int]@);
            assert(rule_views(src@).len() == src@.len());
            assert(rule_views(before).len() == before.len());
            assert(lhs.len() == rhs.len());
            assert forall|k: int| 0 <= k < lhs.len() implies lhs[k] == rhs[k] by {
                if k < before.len() {
                    assert(out@[k] == before[k]);
                    assert(rule_views(before)[k] == before[k]@);
                } else {
                    assert(out@[k] == out@.last());
                }
            }
            assert(lhs =~= rhs);
        }
        i = i + 1;
    }
    proof {
        assert(rule_views(src@).take(src@.len() as int) =~= rule_views(src@));
    }
}

/// The base layer with its superseded catch-alls removed.
fn filter_base_exec(v: &Vec<OpenRule>, kill_file: bool, kill_dir: bool) -> (r: Vec<OpenRule>)
    ensures
        rule_views(r@) == filter_base(rule_views(v@), kill_file, kill_dir),
{
    let mut r: Vec<OpenRule> = Vec::new();
    let mut i: usize = 0;
    while i < v.len()
        invariant
            i <= v.len(),
            rule_views(r@) == filter_base(rule_views(v@).take(i as int), kill_file, kill_dir),
        decreases v.len() - i,
    {
        let ghost pre = rule_views(v@).take(i as int);
        proof {
            assert(rule_views(v@).take(i + 1).drop_last() =~= pre);
            assert(rule_views(v@).take(i + 1).last() == v@[i as int]@);
        }
        let af = v[i].any_file();
        let ad = v[i].any_dir();
        if !((kill_file && af) || (kill_dir && ad)) {
            r.push(v[i].duplicate());
            proof {
                assert(rule_views(r@) =~= filter_base(pre, kill_file, kill_dir).push(
                    v@[i as int]@,
                ));
            }
        }
        i = i + 1;
    }
    proof {
        assert(rule_views(v@).take(v@.len() as int) =~= rule_views(v@));
    }
    r
}

/// The registry built from raw groups.
fn build_groups_exec(src: &Vec<(String, Vec<Opener>)>) -> (r: Vec<(String, Vec<Opener>)>)
    ensures
        groups_views(r@) == build_groups(groups_views(src@)),
{
    let mut r: Vec<(String, Vec<Opener>)> = Vec::new();
    let mut i: usize = 0;
    while i < src.len()
        invariant
            i <= src.len(),
            groups_views(r@) == build_groups(groups_views(src@).take(i as int)),
        decreases src.len() - i,
    {
        let ghost pre = groups_views(src@).take(i as int);
        proof {
            assert(groups_views(src@).take(i + 1).drop_last() =~= pre);
            assert(groups_views(src@).take(i + 1).last() == (
                src@[i as int].0@,
                opener_views(src@[i as int].1@),
            ));
        }
        let pair = &src[i];
        let cleaned = clean_group(&pair.1);
        r.push((pair.0.clone(), cleaned));
        proof {
            assert(groups_views(r@) =~= build_groups(pre).push((
                src@[i as int].0@,
                dedup(valid_of(opener_views(src@[i as int].1@))),
            )));
        }
        i = i + 1;
    }
    proof {
        assert(groups_views(src@).take(src@.len() as int) =~= groups_views(src@));
    }
    r
}

impl Open {
    /// Builds the resolver from structured configuration: the raw opener
    /// groups and the three rule layers. The rule table is the layered
    /// merge; each group keeps its valid definitions, deduplicated.
    pub fn new(
        openers: Vec<(String, Vec<Opener>)>,
        rules: Vec<OpenRule>,
        prepend_rules: Vec<OpenRule>,
        append_rules: Vec<OpenRule>,
    ) -> (r: Open)
        ensures
            r@.rules == merged_rules(
                rule_views(prepend_rules@),
                rule_views(rules@),
                rule_views(append_rules@),
            ),
            r@.groups == build_groups(groups_views(openers@)),
    {
        let kill_file = any_file_in(&append_rules);
        let kill_dir = any_dir_in(&append_rules);
        let filtered = filter_base_exec(&rules, kill_file, kill_dir);
        let mut table: Vec<OpenRule> = Vec::new();
        append_rule_copies(&mut table, &prepend_rules);
        append_rule_copies(&mut table, &filtered);
        append_rule_copies(&mut table, &append_rules);
        let groups = build_groups_exec(&openers);
        proof {
            assert(rule_views(table@) =~= merged_rules(
                rule_views(prepend_rules@),
                rule_views(rules@),
                rule_views(append_rules@),
            ));
        }
        Open { rules: table, openers: groups }
    }
}

/// The models of a sequence of per-target resolutions.
pub open spec fn group_views(s: Seq<Vec<Opener>>) -> Seq<Seq<OpenerModel>> {
    s.map_values(|v: Vec<Opener>| opener_views(v@))
}

/// The models of a sequence of `(path, mime)` targets.
pub open spec fn target_views(s: Seq<(String, String)>) -> Seq<(Seq<char>, Seq<char>)> {
    s.map_values(|t: (String, String)| (t.0@, t.1@))
}

/// Appends copies of all openers of `src` to `out`.
fn append_opener_copies(out: &mut Vec<Opener>, src: &Vec<Opener>)
    ensures
        opener_views(final(out)@) == opener_views(old(out)@) + opener_views(src@),
{
    let mut i: usize = 0;
    while i < src.len()
        invariant
            i <= src.len(),
            opener_views(out@) == opener_views(old(out)@) + opener_views(src@).take(i as int),
        decreases src.len() - i,
    {
        let ghost before = out@;
        out.push(src[i].duplicate());
        proof {
            let lhs = opener_views(out@);
            let rhs = opener_views(old(out)@) + opener_views(src@).take(i + 1);
            assert(out@ == before.push(out@.last()));
            assert(out@.last()@ == src@[i as int]@);
            assert(opener_views(src@).len() == src@.len());
            assert(opener_views(before).len() == before.len());
            assert(lhs.len() == rhs.len());
            assert forall|k: int| 0 <= k < lhs.len() implies lhs[k] == rhs[k] by {
                if k < before.len() {
                    assert(out@[k] == before[k]);
                    assert(opener_views(before)[k] == before[k]@);
                } else {
                    assert(out@[k] == out@.last());
                }
            }
            assert(lhs =~= rhs);
        }
        i = i + 1;
    }
    proof {
        assert(opener_views(src@).take(src@.len() as int) =~= opener_views(src@));
    }
}

/// Whether the opener occurs in every resolution of the vector.
fn in_all_exec(gs: &Vec<Vec<Opener>>, o: &Opener) -> (r: bool)
    ensures
        r == in_all(o@, group_views(gs@)),
{
    let mut i: usize = 0;
    while i < gs.len()
        invariant
            i <= gs.len(),
            forall|k: int| 0 <= k < i ==> #[trigger] group_views(gs@)[k].contains(o@),
        decreases gs.len() - i,
    {
        if !contains_opener(&gs[i], o) {
            proof {
                assert(group_views(gs@)[i as int] == opener_views(gs@[i as int]@));
                assert(group_views(gs@).len() == gs@.len());
            }
            return false;
        }
        proof {
            assert(group_views(gs@)[i as int] == opener_views(gs@[i as int]@));
        }
        i = i + 1;
    }
    proof {
        assert(group_views(gs@).len() == gs@.len());
    }
    true
}

impl Open {
    /// The first group of the registry with the given name, if any.
    fn lookup_group(&self, name: &String) -> (r: Option<&Vec<Opener>>)
        ensures
            (match r {
                Some(g) => lookup(self@.groups, name@) == Some(opener_views(g@)),
                None => lookup(self@.groups, name@) is None,
            }),
    {
        let ghost gs = self@.groups;
        proof {
            assert(gs.skip(0) =~= gs);
        }
        let mut i: usize = 0;
        while i < self.openers.len()
            invariant
                i <= self.openers.len(),
                gs == self@.groups,
                gs.len() == self.openers@.len(),
                lookup(gs, name@) == lookup(gs.skip(i as int), name@),
            decreases self.openers.len() - i,
        {
            proof {
                assert(gs.skip(i as int)[0] == gs[i as int]);
                assert(gs.skip(i as int).drop_first() =~= gs.skip(i + 1));
            }
            let pair = &self.openers[i];
            if str_eq(pair.0.as_str(), name.as_str()) {
                proof {
                    assert(gs[i as int].1 == opener_views(self.openers@[i as int].1@));
                }
                return Some(&pair.1);
            }
            i = i + 1;
        }
        proof {
            assert(gs.skip(gs.len() as int) =~= Seq::<(Seq<char>, Seq<OpenerModel>)>::empty());
        }
        None
    }

    /// What a list of group references resolves to: the referenced groups,
    /// unknown names contributing nothing, flattened in reference order and
    /// deduplicated preserving first occurrence.
    pub fn resolve(&self, use_: &Vec<String>) -> (r: Vec<Opener>)
        ensures
            opener_views(r@) == resolved(self@.groups, use_.deep_view()),
    {
        let ghost dv = use_.deep_view();
        let mut acc: Vec<Opener> = Vec::new();
        let mut i: usize = 0;
        while i < use_.len()
            invariant
                i <= use_.len(),
                dv == use_.deep_view(),
                dv.len() == use_@.len(),
                opener_views(acc@) == gather(self@.groups, dv.take(i as int)),
            decreases use_.len() - i,
        {
            proof {
                assert(dv.take(i + 1).drop_last() =~= dv.take(i as int));
                assert(dv.take(i + 1).last() == dv[i as int]);
                assert(dv[i as int] == use_@[i as int]@);
            }
            match self.lookup_group(&use_[i]) {
                Some(g) => {
                    append_opener_copies(&mut acc, g);
                    proof {
                        assert(opener_views(acc@) =~= gather(self@.groups, dv.take(i + 1)));
                    }
                },
                None => {
                    proof {
                        assert(opener_views(acc@) =~= gather(self@.groups, dv.take(i + 1)));
                    }
                },
            }
            i = i + 1;
        }
        proof {
            assert(dv.take(dv.len() as int) =~= dv);
        }
        dedup_openers(&acc)
    }

    /// Scans the rule table in order and returns the resolution of the first
    /// rule that matches the entry and resolves to a non-empty set of
    /// openers; a matching rule whose references resolve to nothing is
    /// passed over, and `None` is returned when no rule wins.
    pub fn openers(&self, path: &str, mime: &str) -> (r: Option<Vec<Opener>>)
        ensures
            (match r {
                Some(v) => openers_spec(self@, path@, mime@) == Some(opener_views(v@)),
                None => openers_spec(self@, path@, mime@) is None,
            }),
    {
        let ghost rs = self@.rules;
        proof {
            assert(rs.skip(0) =~= rs);
        }
        let mut i: usize = 0;
        while i < self.rules.len()
            invariant
                i <= self.rules.len(),
                rs == self@.rules,
                rs.len() == self.rules@.len(),
                scan_rules(self@.groups, rs, path@, mime@) == scan_rules(
                    self@.groups,
                    rs.skip(i as int),
                    path@,
                    mime@,
                ),
            decreases self.rules.len() - i,
        {
            proof {
                assert(rs.skip(i as int)[0] == rs[i as int]);
                assert(rs.skip(i as int).drop_first() =~= rs.skip(i + 1));
                assert(rs[i as int] == self.rules@[i as int]@);
            }
            if self.rules[i].matches(path, mime) {
                let found = self.resolve(&self.rules[i].use_);
                proof {
                    assert(opener_views(found@).len() == found@.len());
                }
                if found.len() > 0 {
                    return Some(found);
                }
            }
            i = i + 1;
        }
        proof {
            assert(rs.skip(rs.len() as int) =~= Seq::<RuleModel>::empty());
        }
        None
    }

    /// The first opener with the `block` attribute among the resolved
    /// openers of the entry; `None` when no rule wins or no resolved opener
    /// blocks.
    pub fn block_opener(&self, path: &str, mime: &str) -> (r: Option<Opener>)
        ensures
            (match r {
                Some(o) => block_opener_spec(self@, path@, mime@) == Some(o@),
                None => block_opener_spec(self@, path@, mime@) is None,
            }),
    {
        match self.openers(path, mime) {
            Some(v) => {
                let ghost s = opener_views(v@);
                proof {
                    assert(s.skip(0) =~= s);
                }
                let mut i: usize = 0;
                while i < v.len()
                    invariant
                        i <= v.len(),
                        s == opener_views(v@),
                        s.len() == v@.len(),
                        openers_spec(self@, path@, mime@) == Some(s),
                        first_block(s) == first_block(s.skip(i as int)),
                    decreases v.len() - i,
                {
                    proof {
                        assert(s.skip(i as int)[0] == s[i as int]);
                        assert(s.skip(i as int).drop_first() =~= s.skip(i + 1));
                        assert(s[i as int] == v@[i as int]@);
                    }
                    if v[i].block {
                        proof {
                            assert(s.skip(i as int).len() > 0);
                            assert(first_block(s.skip(i as int)) == Some(s[i as int]));
                        }
                        return Some(v[i].duplicate());
                    }
                    i = i + 1;
                }
                proof {
                    assert(s.skip(s.len() as int) =~= Seq::<OpenerModel>::empty());
                }
                None
            },
            None => None,
        }
    }

    /// The openers usable for every target of a selection: targets whose
    /// lookup yields nothing are left out, the remaining resolutions are
    /// united in first-seen order, and the union is filtered to the openers
    /// present in every retained resolution.
    pub fn common_openers(&self, targets: &Vec<(String, String)>) -> (r: Vec<Opener>)
        ensures
            opener_views(r@) == common_openers_spec(self@, target_views(targets@)),
    {
        let ghost tv = target_views(targets@);
        let mut per_target: Vec<Vec<Opener>> = Vec::new();
        let mut i: usize = 0;
        while i < targets.len()
            invariant
                i <= targets.len(),
                tv == target_views(targets@),
                tv.len() == targets@.len(),
                group_views(per_target@) == grouped(self@, tv.take(i as int)),
            decreases targets.len() - i,
        {
            proof {
                assert(tv.take(i + 1).drop_last() =~= tv.take(i as int));
                assert(tv.take(i + 1).last() == tv[i as int]);
            }
            let ghost before = per_target@;
            let t = &targets[i];
            match self.openers(t.0.as_str(), t.1.as_str()) {
                Some(v) => {
                    per_target.push(v);
                    proof {
                        let lhs = group_views(per_target@);
                        let rhs = grouped(self@, tv.take(i + 1));
                        assert(per_target@ == before.push(per_target@.last()));
                        assert(group_views(before).len() == before.len());
                        assert(lhs.len() == rhs.len());
                        assert forall|k: int| 0 <= k < lhs.len() implies lhs[k] == rhs[k] by {
                            if k < before.len() {
                                assert(per_target@[k] == before[k]);
                                assert(group_views(before)[k] == opener_views(before[k]@));
                            } else {
                                assert(per_target@[k] == per_target@.last());
                            }
                        }
                        assert(lhs =~= rhs);
                    }
                },
                None => {
                    proof {
                        assert(group_views(per_target@) =~= grouped(self@, tv.take(i + 1)));
                    }
                },
            }
            i = i + 1;
        }
        proof {
            assert(tv.take(tv.len() as int) =~= tv);
        }
        let ghost gs = group_views(per_target@);
        let mut flat: Vec<Opener> = Vec::new();
        let mut j: usize = 0;
        while j < per_target.len()
            invariant
                j <= per_target.len(),
                gs == group_views(per_target@),
                gs.len() == per_target@.len(),
                opener_views(flat@) == concat_all(gs.take(j as int)),
            decreases per_target.len() - j,
        {
            proof {
                assert(gs.take(j + 1).drop_last() =~= gs.take(j as int));
                assert(gs.take(j + 1).last() == gs[j as int]);
                assert(gs[j as int] == opener_views(per_target@[j as int]@));
            }
            append_opener_copies(&mut flat, &per_target[j]);
            j = j + 1;
        }
        proof {
            assert(gs.take(gs.len() as int) =~= gs);
        }
        let deduped = dedup_openers(&flat);
        let ghost ds = opener_views(deduped@);
        let mut out: Vec<Opener> = Vec::new();
        let mut k: usize = 0;
        while k < deduped.len()
            invariant
                k <= deduped.len(),
                ds == opener_views(deduped@),
                ds.len() == deduped@.len(),
                gs == group_views(per_target@),
                opener_views(out@) == keep_common(ds.take(k as int), gs),
            decreases deduped.len() - k,
        {
            proof {
                assert(ds.take(k + 1).drop_last() =~= ds.take(k as int));
                assert(ds.take(k + 1).last() == ds[k as int]);
                assert(ds[k as int] == deduped@[k as int]@);
            }
            if in_all_exec(&per_target, &deduped[k]) {
                out.push(deduped[k].duplicate());
                proof {
                    assert(opener_views(out@) =~= keep_common(ds.take(k as int), gs).push(
                        ds[k as int],
                    ));
                }
            }
            k = k + 1;
        }
        proof {
            assert(ds.take(ds.len() as int) =~= ds);
        }
        out
    }
}

/// Helper for the first-match law: the scan returns the resolution of the
/// winning rule at position `i`, and the rules after it play no part.
proof fn lemma_scan_wins(
    groups: Seq<(Seq<char>, Seq<OpenerModel>)>,
    rules: Seq<RuleModel>,
    path: Seq<char>,
    mime: Seq<char>,
    i: int,
)
    requires
        0 <= i < rules.len(),
        rule_matches(rules[i], path, mime),
        resolved(groups, rules[i].uses).len() > 0,
        forall|j: int| 0 <= j < i ==> !(rule_matches(#[trigger] rules[j], path, mime)
            && resolved(groups, rules[j].uses).len() > 0),
    ensures
        scan_rules(groups, rules, path, mime) == Some(resolved(groups, rules[i].uses)),
        scan_rules(groups, rules.take(i + 1), path, mime) == scan_rules(
            groups,
            rules,
            path,
            mime,
        ),
    decreases i,
{
    if i == 0 {
        assert(rules.take(1)[0] == rules[0]);
        assert(rules.take(1).len() == 1);
    } else {
        assert(!(rule_matches(rules[0], path, mime) && resolved(groups, rules[0].uses).len()
            > 0));
        let rest = rules.drop_first();
        assert(rest[i - 1] == rules[i]);
        assert forall|j: int| 0 <= j < i - 1 implies !(rule_matches(
            #[trigger] rest[j],
            path,
            mime,
        ) && resolved(groups, rest[j].uses).len() > 0) by {
            assert(rest[j] == rules[j + 1]);
        }
        lemma_scan_wins(groups, rest, path, mime, i - 1);
        assert(rules.take(i + 1)[0] == rules[0]);
        assert(rules.take(i + 1).drop_first() =~= rest.take(i));
    }
}

/// First match wins: when the rule at position `i` matches the entry by its
/// MIME pattern and its references resolve to a non-empty set, and no earlier
/// rule both matches and resolves to a non-empty set, the query returns
/// exactly that rule's resolution — and the rules after position `i` are
/// never consulted: the table truncated just after it answers the same.
pub proof fn lemma_first_match_wins(m: OpenModel, path: Seq<char>, mime: Seq<char>, i: int)
    requires
        0 <= i < m.rules.len(),
        m.rules[i].mime is Some,
        pat_matches_mime(m.rules[i].mime->0, mime),
        resolved(m.groups, m.rules[i].uses).len() > 0,
        forall|j: int| 0 <= j < i ==> !(rule_matches(#[trigger] m.rules[j], path, mime)
            && resolved(m.groups, m.rules[j].uses).len() > 0),
    ensures
        openers_spec(m, path, mime) == Some(resolved(m.groups, m.rules[i].uses)),
        openers_spec(OpenModel { rules: m.rules.take(i + 1), groups: m.groups }, path, mime)
            == openers_spec(m, path, mime),
{
    assert(rule_matches(m.rules[i], path, mime));
    lemma_scan_wins(m.groups, m.rules, path, mime, i);
}

/// Helper for the fallthrough law: a rule that matches but resolves to
/// nothing can be removed from the table without changing the scan.
proof fn lemma_scan_skip_empty(
    groups: Seq<(Seq<char>, Seq<OpenerModel>)>,
    rules: Seq<RuleModel>,
    path: Seq<char>,
    mime: Seq<char>,
    i: int,
)
    requires
        0 <= i < rules.len(),
        rule_matches(rules[i], path, mime),
        resolved(groups, rules[i].uses).len() == 0,
    ensures
        scan_rules(groups, rules, path, mime) == scan_rules(
            groups,
            rules.remove(i),
            path,
            mime,
        ),
    decreases i,
{
    if i == 0 {
        assert(rules.remove(0) =~= rules.drop_first());
    } else {
        assert(rules.remove(i)[0] == rules[0]);
        assert(rules.remove(i).len() == rules.len() - 1);
        let rest = rules.drop_first();
        assert(rest[i - 1] == rules[i]);
        lemma_scan_skip_empty(groups, rest, path, mime, i - 1);
        assert(rules.remove(i).drop_first() =~= rest.remove(i - 1));
    }
}

/// Fallthrough: a rule that matches the entry but whose references resolve
/// to nothing does not win; the query answers exactly as if that rule were
/// absent from the table.
pub proof fn lemma_fallthrough(m: OpenModel, path: Seq<char>, mime: Seq<char>, i: int)
    requires
        0 <= i < m.rules.len(),
        rule_matches(m.rules[i], path, mime),
        resolved(m.groups, m.rules[i].uses).len() == 0,
    ensures
        openers_spec(m, path, mime) == openers_spec(
            OpenModel { rules: m.rules.remove(i), groups: m.groups },
            path,
            mime,
        ),
{
    lemma_scan_skip_empty(m.groups, m.rules, path, mime, i);
}

/// The filtered base layer holds no catch-all for regular files when those
/// are being removed.
proof fn lemma_filter_base_no_file(rs: Seq<RuleModel>, kill_dir: bool)
    ensures
        forall|j: int| 0 <= j < filter_base(rs, true, kill_dir).len()
            ==> !rule_any_file(#[trigger] filter_base(rs, true, kill_dir)[j]),
    decreases rs.len(),
{
    if rs.len() == 0 {
    } else {
        lemma_filter_base_no_file(rs.drop_last(), kill_dir);
        let pre = filter_base(rs.drop_last(), true, kill_dir);
        assert forall|j: int| 0 <= j < filter_base(rs, true, kill_dir).len()
            implies !rule_any_file(#[trigger] filter_base(rs, true, kill_dir)[j]) by {
            if j < pre.len() {
                assert(filter_base(rs, true, kill_dir)[j] == pre[j]);
            }
        }
    }
}

/// Helper for the lenient-intersection law: dropping a target whose lookup
/// yields nothing leaves the retained per-target resolutions unchanged.
proof fn lemma_grouped_skip_none(m: OpenModel, targets: Seq<(Seq<char>, Seq<char>)>, i: int)
    requires
        0 <= i < targets.len(),
        openers_spec(m, targets[i].0, targets[i].1) is None,
    ensures
        grouped(m, targets) == grouped(m, targets.remove(i)),
    decreases targets.len(),
{
    if i == targets.len() - 1 {
        assert(targets.remove(i) =~= targets.drop_last());
    } else {
        let d = targets.drop_last();
        assert(d[i] == targets[i]);
        lemma_grouped_skip_none(m, d, i);
        assert(targets.remove(i).drop_last() =~= d.remove(i));
        assert(targets.remove(i).last() == targets.last());
    }
}

/// A target whose lookup yields nothing does not constrain the result of
/// `common_openers` at all: the answer is the same as if the target had not
/// been named.
pub proof fn lemma_none_target_ignored(
    m: OpenModel,
    targets: Seq<(Seq<char>, Seq<char>)>,
    i: int,
)
    requires
        0 <= i < targets.len(),
        openers_spec(m, targets[i].0, targets[i].1) is None,
    ensures
        common_openers_spec(m, targets) == common_openers_spec(m, targets.remove(i)),
{
    lemma_grouped_skip_none(m, targets, i);
}

/// Override: when the `append` layer supplies a catch-all for regular files,
/// the merged table keeps no such catch-all from the base layer — the
/// stretch between `prepend` and `append` is free of them — while the
/// `append` rules stand unchanged at the very end of the table.
pub proof fn lemma_override(
    prepend: Seq<RuleModel>,
    base: Seq<RuleModel>,
    append: Seq<RuleModel>,
)
    requires
        has_any_file(append),
    ensures
        merged_rules(prepend, base, append).len() == prepend.len() + filter_base(
            base,
            true,
            has_any_dir(append),
        ).len() + append.len(),
        forall|j: int|
            prepend.len() <= j < merged_rules(prepend, base, append).len() - append.len()
                ==> !rule_any_file(#[trigger] merged_rules(prepend, base, append)[j]),
        forall|j: int| 0 <= j < append.len()
            ==> merged_rules(prepend, base, append)[
                merged_rules(prepend, base, append).len() - append.len() + j
            ] == append[j],
{
    let fb = filter_base(base, true, has_any_dir(append));
    lemma_filter_base_no_file(base, has_any_dir(append));
    assert forall|j: int|
        prepend.len() <= j < merged_rules(prepend, base, append).len() - append.len()
            implies !rule_any_file(#[trigger] merged_rules(prepend, base, append)[j]) by {
        assert(merged_rules(prepend, base, append)[j] == fb[j - prepend.len()]);
    }
}

} // verus!
