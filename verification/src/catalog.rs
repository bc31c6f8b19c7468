//! The catalog: a label-to-entry mapping with unique labels, kept as a
//! vector of pairs in insertion order.

use vstd::prelude::*;
use crate::pkg::PackageModel;
use crate::pkg::Package;

verus! {

/// The mathematical model of a catalog: labelled entries in order.
pub type CatalogModel = Seq<(Seq<char>, PackageModel)>;

/// Some entry of `m` carries the label `l`.
pub open spec fn contains_label(m: CatalogModel, l: Seq<char>) -> bool {
    exists|i: int| 0 <= i < m.len() && (#[trigger] m[i]).0 == l
}

/// Index of the first entry labelled `l`, or -1 if there is none.
pub open spec fn idx_of_label(m: CatalogModel, l: Seq<char>) -> int
    decreases m.len(),
{
    if m.len() == 0 {
        -1
    } else if m[0].0 == l {
        0
    } else {
        let r = idx_of_label(m.drop_first(), l);
        if r == -1 {
            -1
        } else {
            r + 1
        }
    }
}

/// The entry stored under label `l` (meaningful when `contains_label`).
pub open spec fn spec_get(m: CatalogModel, l: Seq<char>) -> PackageModel {
    m[idx_of_label(m, l)].1
}

/// `idx_of_label` agrees with `contains_label` and names the first
/// matching index.
pub proof fn lemma_idx_of_label(m: CatalogModel, l: Seq<char>)
    ensures
        idx_of_label(m, l) == -1 ==> forall|i: int| 0 <= i < m.len() ==> (#[trigger] m[i]).0 != l,
        idx_of_label(m, l) != -1 ==> {
            &&& 0 <= idx_of_label(m, l) < m.len()
            &&& m[idx_of_label(m, l)].0 == l
            &&& forall|i: int| 0 <= i < idx_of_label(m, l) ==> (#[trigger] m[i]).0 != l
        },
        (idx_of_label(m, l) == -1) <==> !contains_label(m, l),
    decreases m.len(),
{
    if m.len() == 0 {
    } else if m[0].0 == l {
    } else {
        lemma_idx_of_label(m.drop_first(), l);
        assert forall|i: int|
            0 <= i < m.len() && idx_of_label(m, l) == -1 implies (#[trigger] m[i]).0 != l by {
            if i > 0 {
                assert(m.drop_first()[i - 1].0 != l);
            }
        }
        if idx_of_label(m, l) != -1 {
            let r = idx_of_label(m.drop_first(), l);
            assert(m[r + 1] == m.drop_first()[r]);
            assert forall|i: int| 0 <= i < idx_of_label(m, l) implies (#[trigger] m[i]).0 != l by {
                if i > 0 {
                    assert(m.drop_first()[i - 1].0 != l);
                }
            }
        }
    }
}

/// Index of the first entry whose package identifier is `id`, or -1.
pub open spec fn idx_of_pack(m: CatalogModel, id: Seq<char>) -> int
    decreases m.len(),
{
    if m.len() == 0 {
        -1
    } else if m[0].1.pack_name == id {
        0
    } else {
        let r = idx_of_pack(m.drop_first(), id);
        if r == -1 {
            -1
        } else {
            r + 1
        }
    }
}

/// `idx_of_pack` names the first entry carrying `id`, or -1 when none does.
pub proof fn lemma_idx_of_pack(m: CatalogModel, id: Seq<char>)
    ensures
        idx_of_pack(m, id) == -1 ==> forall|i: int|
            0 <= i < m.len() ==> (#[trigger] m[i]).1.pack_name != id,
        idx_of_pack(m, id) != -1 ==> {
            &&& 0 <= idx_of_pack(m, id) < m.len()
            &&& m[idx_of_pack(m, id)].1.pack_name == id
            &&& forall|i: int| 0 <= i < idx_of_pack(m, id) ==> (#[trigger] m[i]).1.pack_name != id
        },
    decreases m.len(),
{
    if m.len() == 0 {
    } else if m[0].1.pack_name == id {
    } else {
        lemma_idx_of_pack(m.drop_first(), id);
        assert forall|i: int|
            0 <= i < m.len() && idx_of_pack(m, id) == -1 implies (#[trigger] m[i]).1.pack_name
            != id by {
            if i > 0 {
                assert(m.drop_first()[i - 1].1.pack_name != id);
            }
        }
        if idx_of_pack(m, id) != -1 {
            let r = idx_of_pack(m.drop_first(), id);
            assert(m[r + 1] == m.drop_first()[r]);
            assert forall|i: int|
                0 <= i < idx_of_pack(m, id) implies (#[trigger] m[i]).1.pack_name != id by {
                if i > 0 {
                    assert(m.drop_first()[i - 1].1.pack_name != id);
                }
            }
        }
    }
}

/// Inserting under label `l`: an existing entry with that label is
/// replaced in place; otherwise the pair is appended.
pub open spec fn spec_insert(m: CatalogModel, l: Seq<char>, p: PackageModel) -> CatalogModel {
    if contains_label(m, l) {
        m.update(idx_of_label(m, l), (l, p))
    } else {
        m.push((l, p))
    }
}

/// Removing a package identifier: the first entry carrying it goes away;
/// with no such entry the catalog is unchanged.
pub open spec fn spec_remove_id(m: CatalogModel, id: Seq<char>) -> CatalogModel {
    if idx_of_pack(m, id) == -1 {
        m
    } else {
        m.remove(idx_of_pack(m, id))
    }
}

/// All labels of `m` are distinct.
pub open spec fn labels_unique(m: CatalogModel) -> bool {
    forall|i: int, j: int|
        0 <= i < j < m.len() ==> (#[trigger] m[i]).0 != (#[trigger] m[j]).0
}

/// The persistent catalog: a mapping from lower-cased labels to entries.
/// Labels are unique; entries keep their insertion order.
#[derive(Debug, Clone, PartialEq)]
pub struct Catalog {
    entries: Vec<(String, Package)>,
}

impl View for Catalog {
    type V = CatalogModel;

    closed spec fn view(&self) -> CatalogModel {
        self.entries@.map_values(|e: (String, Package)| (e.0@, e.1@))
    }
}

impl Catalog {
    /// Labels are unique.
    pub open spec fn wf(&self) -> bool {
        labels_unique(self@)
    }

    /// The empty catalog.
    pub fn new() -> (r: Catalog)
        ensures
            r@ == Seq::<(Seq<char>, PackageModel)>::empty(),
            r.wf(),
    {
        let r = Catalog { entries: Vec::new() };
        proof {
            assert(r@ =~= Seq::<(Seq<char>, PackageModel)>::empty());
        }
        r
    }

    /// Number of entries, built-ins included.
    pub fn len(&self) -> (r: usize)
        ensures
            r == self@.len(),
    {
        self.entries.len()
    }

    /// The label of the entry at position `i`.
    pub fn label_at(&self, i: usize) -> (r: &String)
        requires
            i < self@.len(),
        ensures
            r@ == self@[i as int].0,
    {
        &self.entries[i].0
    }

    /// The entry at position `i`.
    pub fn package_at(&self, i: usize) -> (r: &Package)
        requires
            i < self@.len(),
        ensures
            r@ == self@[i as int].1,
    {
        &self.entries[i].1
    }

    /// Looks a label up, returning the entry stored under it.
    pub fn get(&self, label: &String) -> (r: Option<&Package>)
        ensures
            match r {
                Some(p) => contains_label(self@, label@) && p@ == spec_get(self@, label@),
                None => !contains_label(self@, label@),
            },
    {
        let n = self.entries.len();
        let mut i: usize = 0;
        while i < n
            invariant
                n == self@.len(),
                i <= n,
                forall|k: int| 0 <= k < i ==> (#[trigger] self@[k]).0 != label@,
            decreases n - i,
        {
            let cand = &self.entries[i].0;
            if *cand == *label {
                proof {
                    assert(self@[i as int].0 == label@);
                    lemma_idx_of_label(self@, label@);
                    assert(idx_of_label(self@, label@) == i);
                }
                return Some(&self.entries[i].1);
            }
            proof {
                assert(self@[i as int].0 != label@);
            }
            i += 1;
        }
        proof {
            if contains_label(self@, label@) {
                let w = choose|k: int| 0 <= k < self@.len() && (#[trigger] self@[k]).0 == label@;
                assert(self@[w].0 != label@);
            }
        }
        None
    }

    /// Inserts `p` under `label`: replaces the entry already labelled so,
    /// or appends a new one.
    pub fn insert(&mut self, label: String, p: Package)
        requires
            old(self).wf(),
        ensures
            final(self)@ == spec_insert(old(self)@, label@, p@),
            final(self).wf(),
            final(self)@.len() == if contains_label(old(self)@, label@) {
                old(self)@.len() as int
            } else {
                old(self)@.len() + 1 as int
            },
    {
        let ghost m = self@;
        let n = self.entries.len();
        let mut i: usize = 0;
        while i < n
            invariant
                n == self@.len(),
                i <= n,
                m == self@,
                m == old(self)@,
                labels_unique(m),
                forall|k: int| 0 <= k < i ==> (#[trigger] self@[k]).0 != label@,
            decreases n - i,
        {
            let cand = &self.entries[i].0;
            if *cand == label {
                proof {
                    assert(m[i as int].0 == label@);
                    lemma_idx_of_label(m, label@);
                    assert(idx_of_label(m, label@) == i);
                }
                self.entries.remove(i);
                self.entries.insert(i, (label, p));
                proof {
                    assert(self@ =~= m.update(i as int, (label@, p@)));
                    assert forall|a: int, b: int| 0 <= a < b < self@.len() implies (
                    #[trigger] self@[a]).0 != (#[trigger] self@[b]).0 by {
                        assert(m[a].0 != m[b].0);
                        assert(m[i as int].0 == label@);
                        if a != i {
                            assert(m[a].0 == self@[a].0);
                        } else {
                            assert(self@[a].0 == label@);
                        }
                        if b != i {
                            assert(m[b].0 == self@[b].0);
                        } else {
                            assert(self@[b].0 == label@);
                        }
                    }
                }
                return ;
            }
            i += 1;
        }
        proof {
            if contains_label(m, label@) {
                let w = choose|k: int| 0 <= k < m.len() && (#[trigger] m[k]).0 == label@;
                assert(m[w].0 != label@);
            }
        }
        self.entries.push((label, p));
        proof {
            assert(self@ =~= m.push((label@, p@)));
            assert forall|a: int, b: int| 0 <= a < b < self@.len() implies (#[trigger] self@[a]).0
                != (#[trigger] self@[b]).0 by {
                if b < m.len() {
                    assert(m[a].0 == self@[a].0 && m[b].0 == self@[b].0);
                } else {
                    assert(self@[b].0 == label@);
                    assert(m[a].0 == self@[a].0);
                }
            }
        }
    }

    /// Removes the first entry whose package identifier equals `id`;
    /// does nothing when none matches.
    pub fn remove_by_pack_name(&mut self, id: &String)
        ensures
            final(self)@ == spec_remove_id(old(self)@, id@),
            old(self).wf() ==> final(self).wf(),
    {
        let ghost m = self@;
        let n = self.entries.len();
        let mut i: usize = 0;
        while i < n
            invariant
                n == self@.len(),
                i <= n,
                m == self@,
                m == old(self)@,
                forall|k: int| 0 <= k < i ==> (#[trigger] self@[k]).1.pack_name != id@,
            decreases n - i,
        {
            let pn = &self.entries[i].1.pack_name;
            if *pn == *id {
                proof {
                    assert(m[i as int].1.pack_name == id@);
                    lemma_idx_of_pack(m, id@);
                    assert(idx_of_pack(m, id@) == i);
                }
                self.entries.remove(i);
                proof {
                    assert(self@ =~= m.remove(i as int));
                    if labels_unique(m) {
                        assert forall|a: int, b: int| 0 <= a < b < self@.len() implies (
                        #[trigger] self@[a]).0 != (#[trigger] self@[b]).0 by {
                            let a0 = if a < i { a } else { a + 1 };
                            let b0 = if b < i { b } else { b + 1 };
                            assert(self@[a].0 == m[a0].0 && self@[b].0 == m[b0].0);
                        }
                    }
                }
                return ;
            }
            proof {
                assert(self@[i as int].1.pack_name != id@);
            }
            i += 1;
        }
        proof {
            lemma_idx_of_pack(m, id@);
            if idx_of_pack(m, id@) != -1 {
                assert(m[idx_of_pack(m, id@)].1.pack_name == id@);
            }
        }
    }


    /// Runtime check of well-formedness: whether all labels are distinct.
    pub fn wf_check(&self) -> (r: bool)
        ensures
            r == self.wf(),
    {
        let n = self.entries.len();
        let mut i: usize = 0;
        while i < n
            invariant
                n == self@.len(),
                i <= n,
                forall|a: int, b: int|
                    0 <= a < b < self@.len() && a < i ==> (#[trigger] self@[a]).0 != (
                    #[trigger] self@[b]).0,
            decreases n - i,
        {
            let mut j: usize = i + 1;
            while j < n
                invariant
                    n == self@.len(),
                    i < n,
                    i < j <= n,
                    forall|b: int| i < b < j ==> (#[trigger] self@[b]).0 != self@[i as int].0,
                decreases n - j,
            {
                let a = &self.entries[i].0;
                let b = &self.entries[j].0;
                if *a == *b {
                    proof {
                        assert(self@[i as int].0 == self@[j as int].0);
                    }
                    return false;
                }
                j += 1;
            }
            i += 1;
        }
        true
    }

    /// All labels, in catalog order.
    pub fn labels(&self) -> (r: Vec<String>)
        ensures
            r@.map_values(|s: String| s@) == self@.map_values(|e: (Seq<char>, PackageModel)| e.0),
    {
        let mut r: Vec<String> = Vec::new();
        let n = self.entries.len();
        let mut i: usize = 0;
        while i < n
            invariant
                n == self@.len(),
                i <= n,
                r@.len() == i,
                forall|k: int| 0 <= k < i ==> (#[trigger] r@[k])@ == self@[k].0,
            decreases n - i,
        {
            r.push(self.entries[i].0.clone());
            i += 1;
        }
        proof {
            assert(r@.map_values(|s: String| s@) =~= self@.map_values(
                |e: (Seq<char>, PackageModel)| e.0,
            ));
        }
        r
    }
}

/// A position holding `l` with no earlier one pins `idx_of_label`.
pub proof fn lemma_idx_of_label_is(m: CatalogModel, l: Seq<char>, i: int)
    requires
        0 <= i < m.len(),
        m[i].0 == l,
        forall|k: int| 0 <= k < i ==> (#[trigger] m[k]).0 != l,
    ensures
        idx_of_label(m, l) == i,
{
    lemma_idx_of_label(m, l);
    let r = idx_of_label(m, l);
    if r == -1 {
        assert(m[i].0 != l);
    } else if r < i {
        assert(m[r].0 != l);
    } else if r > i {
        assert(m[i].0 != l);
    }
}

/// Inserting preserves label uniqueness.
pub proof fn lemma_insert_unique(m: CatalogModel, l: Seq<char>, p: PackageModel)
    requires
        labels_unique(m),
    ensures
        labels_unique(spec_insert(m, l, p)),
        spec_insert(m, l, p).len() == if contains_label(m, l) {
            m.len() as int
        } else {
            m.len() + 1 as int
        },
{
    lemma_idx_of_label(m, l);
    let m2 = spec_insert(m, l, p);
    if contains_label(m, l) {
        let i = idx_of_label(m, l);
        assert forall|a: int, b: int| 0 <= a < b < m2.len() implies (#[trigger] m2[a]).0 != (
        #[trigger] m2[b]).0 by {
            assert(m[a].0 != m[b].0);
            assert(m[i].0 == l);
            if a != i {
                assert(m2[a].0 == m[a].0);
            } else {
                assert(m2[a].0 == l);
            }
            if b != i {
                assert(m2[b].0 == m[b].0);
            } else {
                assert(m2[b].0 == l);
            }
        }
    } else {
        assert forall|a: int, b: int| 0 <= a < b < m2.len() implies (#[trigger] m2[a]).0 != (
        #[trigger] m2[b]).0 by {
            if b < m.len() {
                assert(m2[a].0 == m[a].0 && m2[b].0 == m[b].0);
            } else {
                assert(m2[b].0 == l);
                assert(m2[a].0 == m[a].0);
                if m[a].0 == l {
                    assert(contains_label(m, l));
                }
            }
        }
    }
}

/// Inserting under one label leaves every other label's entry alone.
pub proof fn lemma_insert_other(m: CatalogModel, l2: Seq<char>, p2: PackageModel, l: Seq<char>)
    requires
        labels_unique(m),
        l != l2,
    ensures
        contains_label(spec_insert(m, l2, p2), l) == contains_label(m, l),
        contains_label(m, l) ==> spec_get(spec_insert(m, l2, p2), l) == spec_get(m, l),
{
    lemma_idx_of_label(m, l);
    lemma_idx_of_label(m, l2);
    let m2 = spec_insert(m, l2, p2);
    if contains_label(m, l2) {
        let i2 = idx_of_label(m, l2);
        assert forall|k: int| 0 <= k < m2.len() implies (#[trigger] m2[k]).0 == m[k].0 by {
            if k == i2 {
                assert(m2[k].0 == l2);
                assert(m[i2].0 == l2);
            }
        }
        if contains_label(m, l) {
            let i = idx_of_label(m, l);
            assert(m2[i].0 == l);
            assert forall|k: int| 0 <= k < i implies (#[trigger] m2[k]).0 != l by {
                assert(m[k].0 != l);
            }
            lemma_idx_of_label_is(m2, l, i);
            assert(i != i2);
            assert(m2[i].1 == m[i].1);
        } else {
            if contains_label(m2, l) {
                let w = choose|k: int| 0 <= k < m2.len() && (#[trigger] m2[k]).0 == l;
                assert(m[w].0 == l);
                assert(contains_label(m, l));
            }
        }
    } else {
        assert(m2 == m.push((l2, p2)));
        if contains_label(m, l) {
            let i = idx_of_label(m, l);
            assert(m2[i].0 == l);
            assert(contains_label(m2, l));
            assert forall|k: int| 0 <= k < i implies (#[trigger] m2[k]).0 != l by {
                assert(m[k].0 != l);
            }
            lemma_idx_of_label_is(m2, l, i);
            assert(m2[i].1 == m[i].1);
        } else {
            if contains_label(m2, l) {
                let w = choose|k: int| 0 <= k < m2.len() && (#[trigger] m2[k]).0 == l;
                if w < m.len() {
                    assert(m[w].0 == l);
                    assert(contains_label(m, l));
                } else {
                    assert(m2[w].0 == l2);
                }
            }
        }
    }
}

/// Removing an identifier another entry carries leaves a label's entry
/// alone, and keeps the labels unique.
pub proof fn lemma_remove_other(m: CatalogModel, id: Seq<char>, l: Seq<char>)
    requires
        labels_unique(m),
        contains_label(m, l),
        spec_get(m, l).pack_name != id,
    ensures
        contains_label(spec_remove_id(m, id), l),
        spec_get(spec_remove_id(m, id), l) == spec_get(m, l),
        labels_unique(spec_remove_id(m, id)),
{
    lemma_idx_of_pack(m, id);
    lemma_idx_of_label(m, l);
    let r = idx_of_pack(m, id);
    if r == -1 {
    } else {
        let i = idx_of_label(m, l);
        assert(m[r].1.pack_name == id);
        assert(m[i].1.pack_name != id);
        assert(i != r);
        let m2 = m.remove(r);
        assert(m2.len() == m.len() - 1);
        assert forall|k: int| 0 <= k < m2.len() implies #[trigger] m2[k] == (if k < r {
            m[k]
        } else {
            m[k + 1]
        }) by {}
        assert forall|a: int, b: int| 0 <= a < b < m2.len() implies (#[trigger] m2[a]).0 != (
        #[trigger] m2[b]).0 by {
            let a0 = if a < r {
                a
            } else {
                a + 1
            };
            let b0 = if b < r {
                b
            } else {
                b + 1
            };
            assert(m2[a].0 == m[a0].0 && m2[b].0 == m[b0].0);
        }
        let i2 = if i < r {
            i
        } else {
            i - 1
        };
        assert(m2[i2].0 == l);
        assert forall|k: int| 0 <= k < i2 implies (#[trigger] m2[k]).0 != l by {
            let k0 = if k < r {
                k
            } else {
                k + 1
            };
            assert(m2[k].0 == m[k0].0);
            assert(m[k0].0 != l);
        }
        lemma_idx_of_label_is(m2, l, i2);
        assert(m2[i2].1 == m[i].1);
    }
}

} // verus!
