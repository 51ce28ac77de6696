//! Opener definitions: external handler programs referenced by rules.
//!
//! An opener carries an invocation template (`run`), a human-readable label
//! (`desc`), and a `block` flag meaning the caller must wait for the program
//! to exit. Openers are compared by their full definition; groups keep them
//! deduplicated in first-occurrence order.

use vstd::prelude::*;

verus! {

/// Mathematical model of an opener definition.
#[verifier::ext_equal]
pub struct OpenerModel {
    pub run: Seq<char>,
    pub desc: Seq<char>,
    pub block: bool,
}

impl OpenerModel {
    /// A definition is valid when it has a non-empty invocation template;
    /// invalid definitions are dropped when groups are built.
    pub open spec fn valid(self) -> bool {
        self.run.len() > 0
    }
}

/// An opener definition.
pub struct Opener {
    pub run: String,
    pub desc: String,
    pub block: bool,
}

impl View for Opener {
    type V = OpenerModel;

    open spec fn view(&self) -> OpenerModel {
        OpenerModel { run: self.run@, desc: self.desc@, block: self.block }
    }
}

impl Opener {
    /// Builds an opener from its parts.
    pub fn new(run: String, desc: String, block: bool) -> (r: Opener)
        ensures
            r@ == (OpenerModel { run: run@, desc: desc@, block }),
    {
        Opener { run, desc, block }
    }

    /// Whether this definition is valid (non-empty invocation template).
    pub fn is_valid(&self) -> (r: bool)
        ensures
            r == self@.valid(),
    {
        !self.run.as_str().is_empty()
    }

    /// An owned copy with the same definition.
    pub fn duplicate(&self) -> (r: Opener)
        ensures
            r@ == self@,
    {
        Opener { run: self.run.clone(), desc: self.desc.clone(), block: self.block }
    }

    /// Whether two openers have the same definition.
    pub fn same_as(&self, other: &Opener) -> (r: bool)
        ensures
            r == (self@ == other@),
    {
        let r = self.run == other.run && self.desc == other.desc && self.block == other.block;
        proof {
            if self.run@ == other.run@ && self.desc@ == other.desc@ && self.block == other.block {
                assert(self@ =~= other@);
            }
        }
        r
    }
}

/// The models of a sequence of openers.
pub open spec fn opener_views(s: Seq<Opener>) -> Seq<OpenerModel> {
    s.map_values(|o: Opener| o@)
}

/// First-occurrence-preserving deduplication: each element is kept at the
/// position of its first appearance.
pub open spec fn dedup(s: Seq<OpenerModel>) -> Seq<OpenerModel>
    decreases s.len(),
{
    if s.len() == 0 {
        Seq::empty()
    } else {
        let pre = dedup(s.drop_last());
        if pre.contains(s.last()) {
            pre
        } else {
            pre.push(s.last())
        }
    }
}

/// Deduplication keeps exactly the elements of its input.
pub proof fn lemma_dedup_membership(s: Seq<OpenerModel>)
    ensures
        forall|x: OpenerModel| dedup(s).contains(x) <==> s.contains(x),
    decreases s.len(),
{
    if s.len() == 0 {
    } else {
        lemma_dedup_membership(s.drop_last());
        let pre = dedup(s.drop_last());
        assert forall|x: OpenerModel| dedup(s).contains(x) implies s.contains(x) by {
            let j = choose|j: int| 0 <= j < dedup(s).len() && dedup(s)[j] == x;
            if pre.contains(s.last()) {
                assert(pre[j] == x);
                assert(pre.contains(x));
                assert(s.drop_last().contains(x));
                let i = choose|i: int|
                    0 <= i < s.drop_last().len() && s.drop_last()[i] == x;
                assert(s[i] == x);
            } else {
                if j < pre.len() {
                    assert(pre[j] == x);
                    assert(pre.contains(x));
                    assert(s.drop_last().contains(x));
                    let i = choose|i: int|
                        0 <= i < s.drop_last().len() && s.drop_last()[i] == x;
                    assert(s[i] == x);
                } else {
                    assert(x == s.last());
                    assert(s[s.len() - 1] == x);
                }
            }
        }
        assert forall|x: OpenerModel| s.contains(x) implies dedup(s).contains(x) by {
            let i = choose|i: int| 0 <= i < s.len() && s[i] == x;
            if i < s.len() - 1 {
                assert(s.drop_last()[i] == x);
                assert(s.drop_last().contains(x));
                let j = choose|j: int| 0 <= j < pre.len() && pre[j] == x;
                assert(dedup(s)[j] == x);
            } else {
                if pre.contains(s.last()) {
                    assert(dedup(s) == pre);
                } else {
                    assert(dedup(s)[pre.len() as int] == x);
                }
            }
        }
    }
}

/// Deduplication leaves no element twice.
pub proof fn lemma_dedup_no_dup(s: Seq<OpenerModel>)
    ensures
        forall|i: int, j: int|
            0 <= i < j < dedup(s).len() ==> dedup(s)[i] != dedup(s)[j],
    decreases s.len(),
{
    if s.len() == 0 {
    } else {
        lemma_dedup_no_dup(s.drop_last());
        lemma_dedup_membership(s.drop_last());
        let pre = dedup(s.drop_last());
        if pre.contains(s.last()) {
        } else {
            assert forall|i: int, j: int|
                0 <= i < j < dedup(s).len() implies dedup(s)[i] != dedup(s)[j] by {
                if j < pre.len() {
                } else {
                    assert(dedup(s)[j] == s.last());
                    assert(dedup(s)[i] == pre[i]);
                    assert(pre.contains(pre[i]));
                }
            }
        }
    }
}

/// The position of the first occurrence of `x` in `s` (meaningful when `s`
/// contains `x`).
pub open spec fn first_index(s: Seq<OpenerModel>, x: OpenerModel) -> int
    decreases s.len(),
{
    if s.len() == 0 {
        0
    } else if s[0] == x {
        0
    } else {
        1 + first_index(s.drop_first(), x)
    }
}

/// The first occurrence of a contained element is in bounds and holds it.
pub proof fn lemma_first_index_of(s: Seq<OpenerModel>, x: OpenerModel)
    requires
        s.contains(x),
    ensures
        0 <= first_index(s, x) < s.len(),
        s[first_index(s, x)] == x,
    decreases s.len(),
{
    if s[0] == x {
    } else {
        let i = choose|i: int| 0 <= i < s.len() && s[i] == x;
        assert(s.drop_first()[i - 1] == x);
        assert(s.drop_first().contains(x));
        lemma_first_index_of(s.drop_first(), x);
        assert(s[1 + first_index(s.drop_first(), x)] == s.drop_first()[first_index(
            s.drop_first(),
            x,
        )]);
    }
}

/// Appending an element does not move the first occurrence of one already
/// present.
pub proof fn lemma_first_index_stable(s: Seq<OpenerModel>, x: OpenerModel)
    requires
        s.len() > 0,
        s.drop_last().contains(x),
    ensures
        first_index(s, x) == first_index(s.drop_last(), x),
    decreases s.len(),
{
    if s[0] == x {
        assert(s.drop_last()[0] == x);
    } else {
        let i = choose|i: int| 0 <= i < s.drop_last().len() && s.drop_last()[i] == x;
        assert(s.drop_last()[0] == s[0]);
        assert(i >= 1);
        assert(s.drop_last().drop_first() =~= s.drop_first().drop_last());
        assert(s.drop_first().drop_last()[i - 1] == x);
        assert(s.drop_first().drop_last().contains(x));
        lemma_first_index_stable(s.drop_first(), x);
    }
}

/// An element appearing for the first time at the end has its first
/// occurrence there.
pub proof fn lemma_first_index_last(s: Seq<OpenerModel>, x: OpenerModel)
    requires
        s.len() > 0,
        s.last() == x,
        !s.drop_last().contains(x),
    ensures
        first_index(s, x) == s.len() - 1,
    decreases s.len(),
{
    if s.len() == 1 {
    } else if s[0] == x {
        assert(s.drop_last()[0] == x);
        assert(s.drop_last().contains(x));
    } else {
        assert(s.drop_first().drop_last() =~= s.drop_last().drop_first());
        if s.drop_first().drop_last().contains(x) {
            let i = choose|i: int|
                0 <= i < s.drop_first().drop_last().len() && s.drop_first().drop_last()[i] == x;
            assert(s.drop_last()[i + 1] == x);
            assert(s.drop_last().contains(x));
        }
        assert(s.drop_first().last() == x);
        lemma_first_index_last(s.drop_first(), x);
    }
}

/// Deduplication keeps each element at the position of its first
/// occurrence: the retained elements stand in the order in which they first
/// occur in the input.
pub proof fn lemma_dedup_first_positions(s: Seq<OpenerModel>)
    ensures
        forall|i: int, j: int| 0 <= i < j < dedup(s).len()
            ==> first_index(s, dedup(s)[i]) < first_index(s, dedup(s)[j]),
    decreases s.len(),
{
    if s.len() == 0 {
    } else {
        let d = s.drop_last();
        let pre = dedup(d);
        lemma_dedup_first_positions(d);
        lemma_dedup_membership(d);
        assert forall|i: int, j: int| 0 <= i < j < dedup(s).len()
            implies first_index(s, dedup(s)[i]) < first_index(s, dedup(s)[j]) by {
            if pre.contains(s.last()) {
                assert(dedup(s) == pre);
                assert(pre.contains(pre[i]));
                assert(pre.contains(pre[j]));
                assert(d.contains(pre[i]));
                assert(d.contains(pre[j]));
                lemma_first_index_stable(s, pre[i]);
                lemma_first_index_stable(s, pre[j]);
            } else {
                if j < pre.len() {
                    assert(dedup(s)[i] == pre[i]);
                    assert(dedup(s)[j] == pre[j]);
                    assert(pre.contains(pre[i]));
                    assert(pre.contains(pre[j]));
                    assert(d.contains(pre[i]));
                    assert(d.contains(pre[j]));
                    lemma_first_index_stable(s, pre[i]);
                    lemma_first_index_stable(s, pre[j]);
                } else {
                    assert(dedup(s)[j] == s.last());
                    lemma_first_index_last(s, s.last());
                    assert(dedup(s)[i] == pre[i]);
                    assert(pre.contains(pre[i]));
                    assert(d.contains(pre[i]));
                    lemma_first_index_stable(s, pre[i]);
                    lemma_first_index_of(d, pre[i]);
                }
            }
        }
    }
}

/// Whether a vector of openers holds one with the given model.
pub fn contains_opener(v: &Vec<Opener>, o: &Opener) -> (r: bool)
    ensures
        r == opener_views(v@).contains(o@),
{
    let mut i: usize = 0;
    while i < v.len()
        invariant
            i <= v.len(),
            forall|k: int| 0 <= k < i ==> v@[k]@ != o@,
        decreases v.len() - i,
    {
        if v[i].same_as(o) {
            proof {
                assert(opener_views(v@)[i as int] == o@);
            }
            return true;
        }
        i = i + 1;
    }
    proof {
        assert forall|k: int| 0 <= k < opener_views(v@).len()
            implies opener_views(v@)[k] != o@ by {
            assert(opener_views(v@)[k] == v@[k]@);
        }
    }
    false
}

/// Copies a vector of openers, dropping every element whose model already
/// occurred earlier.
pub fn dedup_openers(v: &Vec<Opener>) -> (r: Vec<Opener>)
    ensures
        opener_views(r@) == dedup(opener_views(v@)),
{
    let mut r: Vec<Opener> = Vec::new();
    let mut i: usize = 0;
    while i < v.len()
        invariant
            i <= v.len(),
            opener_views(r@) == dedup(opener_views(v@).take(i as int)),
        decreases v.len() - i,
    {
        let ghost pre = opener_views(v@).take(i as int);
        proof {
            assert(opener_views(v@).take(i + 1).drop_last() =~= pre);
            assert(opener_views(v@).take(i + 1).last() == v@[i as int]@);
        }
        if !contains_opener(&r, &v[i]) {
            r.push(v[i].duplicate());
            proof {
                assert(opener_views(r@) =~= dedup(pre).push(v@[i as int]@));
            }
        }
        i = i + 1;
    }
    proof {
        assert(opener_views(v@).take(v@.len() as int) =~= opener_views(v@));
    }
    r
}

/// Keeps, in order, the valid definitions of a sequence.
pub open spec fn valid_of(s: Seq<OpenerModel>) -> Seq<OpenerModel>
    decreases s.len(),
{
    if s.len() == 0 {
        Seq::empty()
    } else {
        let pre = valid_of(s.drop_last());
        if s.last().valid() {
            pre.push(s.last())
        } else {
            pre
        }
    }
}

/// Builds a group's collection from raw definitions: invalid ones are
/// dropped, survivors are deduplicated preserving first occurrence.
pub fn clean_group(v: &Vec<Opener>) -> (r: Vec<Opener>)
    ensures
        opener_views(r@) == dedup(valid_of(opener_views(v@))),
{
    let mut kept: Vec<Opener> = Vec::new();
    let mut i: usize = 0;
    while i < v.len()
        invariant
            i <= v.len(),
            opener_views(kept@) == valid_of(opener_views(v@).take(i as int)),
        decreases v.len() - i,
    {
        let ghost pre = opener_views(v@).take(i as int);
        proof {
            assert(opener_views(v@).take(i + 1).drop_last() =~= pre);
            assert(opener_views(v@).take(i + 1).last() == v@[i as int]@);
        }
        if v[i].is_valid() {
            kept.push(v[i].duplicate());
            proof {
                assert(opener_views(kept@) =~= valid_of(pre).push(v@[i as int]@));
            }
        }
        i = i + 1;
    }
    proof {
        assert(opener_views(v@).take(v@.len() as int) =~= opener_views(v@));
    }
    dedup_openers(&kept)
}

} // verus!
