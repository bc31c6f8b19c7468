//! The change detector's decisions: comparing the cached catalog against
//! the live package list, computing the additions and removals, and
//! patching the catalog.  The surrounding loop — sleeping, reloading the
//! store, running the queries, publishing — belongs to the caller.

use vstd::prelude::*;
use crate::pkg::Package;
use crate::pkg::PackageModel;
use crate::pkg::is_builtin_model;
use crate::catalog::Catalog;
use crate::catalog::CatalogModel;
use crate::catalog::spec_insert;
use crate::catalog::spec_remove_id;
use crate::catalog::contains_label;
use crate::catalog::labels_unique;

verus! {

/// The package identifiers of the non-built-in entries, in catalog order.
pub open spec fn real_ids(m: CatalogModel) -> Seq<Seq<char>>
    decreases m.len(),
{
    if m.len() == 0 {
        seq![]
    } else if is_builtin_model(m[0].1) {
        real_ids(m.drop_first())
    } else {
        seq![m[0].1.pack_name] + real_ids(m.drop_first())
    }
}

/// `real_ids` distributes over concatenation.
pub proof fn lemma_real_ids_add(a: CatalogModel, b: CatalogModel)
    ensures
        real_ids(a + b) == real_ids(a) + real_ids(b),
    decreases a.len(),
{
    if a.len() == 0 {
        assert(a + b =~= b);
        assert(real_ids(a) + real_ids(b) =~= real_ids(b));
    } else {
        lemma_real_ids_add(a.drop_first(), b);
        assert((a + b).drop_first() =~= a.drop_first() + b);
        assert((a + b)[0] == a[0]);
        if is_builtin_model(a[0].1) {
            assert(real_ids(a + b) =~= real_ids(a) + real_ids(b));
        } else {
            assert(real_ids(a + b) =~= real_ids(a) + real_ids(b));
        }
    }
}

/// An element is in a cons exactly when it heads it or is in the tail.
pub proof fn lemma_contains_cons(x: Seq<char>, s: Seq<Seq<char>>, y: Seq<char>)
    ensures
        (seq![x] + s).contains(y) == (x == y || s.contains(y)),
{
    let c = seq![x] + s;
    if x == y {
        assert(c[0] == y);
        assert(c.contains(y));
    } else if s.contains(y) {
        let w = choose|i: int| 0 <= i < s.len() && s[i] == y;
        assert(c[w + 1] == y);
        assert(c.contains(y));
    } else {
        if c.contains(y) {
            let w = choose|i: int| 0 <= i < c.len() && c[i] == y;
            if w == 0 {
                assert(c[0] == x);
            } else {
                assert(s[w - 1] == y);
            }
        }
    }
}

/// The identifiers of `ids` that do not occur in `excl`, in order.
pub open spec fn not_in(ids: Seq<Seq<char>>, excl: Seq<Seq<char>>) -> Seq<Seq<char>>
    decreases ids.len(),
{
    if ids.len() == 0 {
        seq![]
    } else if excl.contains(ids[0]) {
        not_in(ids.drop_first(), excl)
    } else {
        seq![ids[0]] + not_in(ids.drop_first(), excl)
    }
}

/// The data-model invariant that a package identifier appears through
/// at most one label at a time (built-ins aside): the real identifiers
/// are duplicate-free.
pub open spec fn one_label_per_id(m: CatalogModel) -> bool {
    real_ids(m).no_duplicates()
}

/// The live identifiers that the catalog does not yet carry.
pub open spec fn added_ids(m: CatalogModel, live: Seq<Seq<char>>) -> Seq<Seq<char>> {
    not_in(live, real_ids(m))
}

/// The cached identifiers that are no longer installed.
pub open spec fn removed_ids(m: CatalogModel, live: Seq<Seq<char>>) -> Seq<Seq<char>> {
    not_in(real_ids(m), live)
}

/// Whether some non-built-in entry of the catalog carries `id`.
pub fn catalog_has_real_id(c: &Catalog, id: &String) -> (r: bool)
    ensures
        r == real_ids(c@).contains(id@),
{
    let n = c.len();
    let mut i: usize = 0;
    proof {
        assert(c@.skip(0) =~= c@);
    }
    while i < n
        invariant
            i <= n,
            n == c@.len(),
            real_ids(c@).contains(id@) == real_ids(c@.skip(i as int)).contains(id@),
        decreases n - i,
    {
        let ghost t = c@.skip(i as int);
        proof {
            assert(t[0] == c@[i as int]);
            assert(t.drop_first() =~= c@.skip(i + 1));
        }
        let p = c.package_at(i);
        if !p.is_builtin() {
            let pn = &p.pack_name;
            if *pn == *id {
                proof {
                    assert(real_ids(t)[0] == id@);
                }
                return true;
            }
            proof {
                lemma_contains_cons(t[0].1.pack_name, real_ids(c@.skip(i + 1)), id@);
            }
        }
        i += 1;
    }
    proof {
        assert(real_ids(c@.skip(n as int)).len() == 0);
        if real_ids(c@.skip(n as int)).contains(id@) {
            let w = choose|k: int|
                0 <= k < real_ids(c@.skip(n as int)).len() && real_ids(c@.skip(n as int))[k] == id@;
        }
    }
    false
}

/// Whether `id` occurs in the live identifier list.
pub fn vec_has_id(live: &Vec<String>, id: &String) -> (r: bool)
    ensures
        r == live@.map_values(|s: String| s@).contains(id@),
{
    let ghost lv = live@.map_values(|s: String| s@);
    let n = live.len();
    let mut i: usize = 0;
    while i < n
        invariant
            i <= n,
            n == live@.len(),
            lv == live@.map_values(|s: String| s@),
            forall|k: int| 0 <= k < i ==> #[trigger] lv[k] != id@,
        decreases n - i,
    {
        let cand = &live[i];
        if *cand == *id {
            proof {
                assert(lv[i as int] == id@);
            }
            return true;
        }
        proof {
            assert(lv[i as int] != id@);
        }
        i += 1;
    }
    proof {
        if lv.contains(id@) {
            let w = choose|k: int| 0 <= k < lv.len() && lv[k] == id@;
            assert(lv[w] != id@);
        }
    }
    false
}

/// Computes the symmetric difference between the catalog's real package
/// set and the live list: what was added and what was removed, each in
/// the order of its source.
pub fn compute_diff(c: &Catalog, live: &Vec<String>) -> (r: (Vec<String>, Vec<String>))
    ensures
        r.0@.map_values(|s: String| s@) == added_ids(c@, live@.map_values(|s: String| s@)),
        r.1@.map_values(|s: String| s@) == removed_ids(c@, live@.map_values(|s: String| s@)),
{
    let ghost lv = live@.map_values(|s: String| s@);
    let ghost rids = real_ids(c@);

    let mut added: Vec<String> = Vec::new();
    let n = live.len();
    let mut k: usize = 0;
    proof {
        assert(lv.skip(0) =~= lv);
        assert(added@.map_values(|s: String| s@) + not_in(lv, rids) =~= not_in(lv, rids));
    }
    while k < n
        invariant
            k <= n,
            n == live@.len(),
            lv == live@.map_values(|s: String| s@),
            rids == real_ids(c@),
            not_in(lv, rids) == added@.map_values(|s: String| s@) + not_in(lv.skip(k as int), rids),
        decreases n - k,
    {
        let ghost t = lv.skip(k as int);
        proof {
            assert(t[0] == lv[k as int]);
            assert(lv[k as int] == live@[k as int]@);
            assert(t.drop_first() =~= lv.skip(k + 1));
        }
        let ghost oldadded = added@;
        if !catalog_has_real_id(c, &live[k]) {
            added.push(live[k].clone());
            proof {
                assert(added@.map_values(|s: String| s@) =~= oldadded.map_values(|s: String| s@)
                    .push(lv[k as int]));
                assert(oldadded.map_values(|s: String| s@).push(lv[k as int]) + not_in(
                    lv.skip(k + 1),
                    rids,
                ) =~= oldadded.map_values(|s: String| s@) + not_in(t, rids));
            }
        }
        k += 1;
    }
    proof {
        assert(lv.skip(n as int).len() == 0);
        assert(not_in(lv.skip(n as int), rids).len() == 0);
        assert(added@.map_values(|s: String| s@) + not_in(lv.skip(n as int), rids)
            =~= added@.map_values(|s: String| s@));
    }

    let mut removed: Vec<String> = Vec::new();
    let nc = c.len();
    let mut i: usize = 0;
    proof {
        assert(c@.skip(0) =~= c@);
        assert(removed@.map_values(|s: String| s@) + not_in(real_ids(c@), lv) =~= not_in(
            real_ids(c@),
            lv,
        ));
    }
    while i < nc
        invariant
            i <= nc,
            nc == c@.len(),
            lv == live@.map_values(|s: String| s@),
            not_in(real_ids(c@), lv) == removed@.map_values(|s: String| s@) + not_in(
                real_ids(c@.skip(i as int)),
                lv,
            ),
        decreases nc - i,
    {
        let ghost t = c@.skip(i as int);
        proof {
            assert(t[0] == c@[i as int]);
            assert(t.drop_first() =~= c@.skip(i + 1));
        }
        let p = c.package_at(i);
        let ghost oldremoved = removed@;
        if !p.is_builtin() {
            proof {
                assert(real_ids(t) == seq![t[0].1.pack_name] + real_ids(c@.skip(i + 1)));
                assert(real_ids(t)[0] == c@[i as int].1.pack_name);
                assert(real_ids(t).drop_first() =~= real_ids(c@.skip(i + 1)));
            }
            if !vec_has_id(live, &p.pack_name) {
                removed.push(p.pack_name.clone());
                proof {
                    assert(removed@.map_values(|s: String| s@) =~= oldremoved.map_values(
                        |s: String| s@,
                    ).push(c@[i as int].1.pack_name));
                    assert(oldremoved.map_values(|s: String| s@).push(c@[i as int].1.pack_name)
                        + not_in(real_ids(c@.skip(i + 1)), lv) =~= oldremoved.map_values(
                        |s: String| s@,
                    ) + not_in(real_ids(t), lv));
                }
            }
        }
        i += 1;
    }
    proof {
        assert(real_ids(c@.skip(nc as int)).len() == 0);
        assert(not_in(real_ids(c@.skip(nc as int)), lv).len() == 0);
        assert(removed@.map_values(|s: String| s@) + not_in(real_ids(c@.skip(nc as int)), lv)
            =~= removed@.map_values(|s: String| s@));
    }

    (added, removed)
}

/// The comparison the detector makes each interval: the expected
/// installed count — the number of entries that are not built-in
/// pseudo-entries — against the live count.  When they differ a change
/// is assumed; a catalog of built-ins alone thus matches an empty live
/// list.
pub open spec fn spec_needs_update(m: CatalogModel, live_len: int) -> bool {
    real_ids(m).len() != live_len
}

/// Counts the catalog's non-built-in entries.
pub fn count_real_entries(c: &Catalog) -> (r: usize)
    ensures
        r == real_ids(c@).len(),
{
    let n = c.len();
    let mut cnt: usize = 0;
    let mut i: usize = 0;
    proof {
        assert(c@.skip(0) =~= c@);
    }
    while i < n
        invariant
            i <= n,
            cnt <= i,
            n == c@.len(),
            real_ids(c@).len() == cnt + real_ids(c@.skip(i as int)).len(),
        decreases n - i,
    {
        let ghost t = c@.skip(i as int);
        proof {
            assert(t[0] == c@[i as int]);
            assert(t.drop_first() =~= c@.skip(i + 1));
        }
        let p = c.package_at(i);
        if !p.is_builtin() {
            cnt += 1;
        }
        i += 1;
    }
    proof {
        assert(real_ids(c@.skip(n as int)).len() == 0);
    }
    cnt
}

/// Whether the cached catalog's expected installed count differs from
/// the live count.
pub fn needs_update(c: &Catalog, live_count: usize) -> (r: bool)
    ensures
        r == spec_needs_update(c@, live_count as int),
{
    count_real_entries(c) != live_count
}

/// One comparison step of the detector: nothing when the counts agree,
/// otherwise the additions and removals to apply.  A `None` means the
/// iteration ends with no write and no publication.
pub fn check_for_change(c: &Catalog, live: &Vec<String>) -> (r: Option<(Vec<String>, Vec<String>)>)
    ensures
        r is Some <==> spec_needs_update(c@, live@.len() as int),
        match r {
            Some(d) => d.0@.map_values(|s: String| s@) == added_ids(
                c@,
                live@.map_values(|s: String| s@),
            ) && d.1@.map_values(|s: String| s@) == removed_ids(
                c@,
                live@.map_values(|s: String| s@),
            ),
            None => true,
        },
{
    if needs_update(c, live.len()) {
        Some(compute_diff(c, live))
    } else {
        None
    }
}

/// The catalog after the additions are inserted, first to last.
pub open spec fn apply_adds(m: CatalogModel, adds: Seq<(Seq<char>, PackageModel)>) -> CatalogModel
    decreases adds.len(),
{
    if adds.len() == 0 {
        m
    } else {
        apply_adds(spec_insert(m, adds[0].0, adds[0].1), adds.drop_first())
    }
}

/// The catalog after the removed identifiers are taken out, first to last.
pub open spec fn apply_removes(m: CatalogModel, ids: Seq<Seq<char>>) -> CatalogModel
    decreases ids.len(),
{
    if ids.len() == 0 {
        m
    } else {
        apply_removes(spec_remove_id(m, ids[0]), ids.drop_first())
    }
}

/// What patching does: the additions are inserted under their labels,
/// then each removed identifier's first entry is taken out.
pub open spec fn spec_patch(
    m: CatalogModel,
    adds: Seq<(Seq<char>, PackageModel)>,
    ids: Seq<Seq<char>>,
) -> CatalogModel {
    apply_removes(apply_adds(m, adds), ids)
}

/// Patches the catalog: inserts every addition under its label, then
/// removes the first entry of each removed identifier.
pub fn patch_catalog(c: &mut Catalog, additions: &Vec<(String, Package)>, removed: &Vec<String>)
    requires
        old(c).wf(),
    ensures
        final(c)@ == spec_patch(
            old(c)@,
            additions@.map_values(|e: (String, Package)| (e.0@, e.1@)),
            removed@.map_values(|s: String| s@),
        ),
        final(c).wf(),
{
    let ghost am = additions@.map_values(|e: (String, Package)| (e.0@, e.1@));
    let ghost rm = removed@.map_values(|s: String| s@);
    let na = additions.len();
    let mut k: usize = 0;
    proof {
        assert(am.skip(0) =~= am);
    }
    while k < na
        invariant
            k <= na,
            na == additions@.len(),
            am == additions@.map_values(|e: (String, Package)| (e.0@, e.1@)),
            c.wf(),
            apply_adds(old(c)@, am) == apply_adds(c@, am.skip(k as int)),
        decreases na - k,
    {
        let ghost t = am.skip(k as int);
        proof {
            assert(t[0] == am[k as int]);
            assert(t.drop_first() =~= am.skip(k + 1));
        }
        let e = &additions[k];
        c.insert(e.0.clone(), e.1.duplicate());
        k += 1;
    }
    proof {
        assert(am.skip(na as int).len() == 0);
        assert(apply_adds(c@, am.skip(na as int)) == c@);
    }
    let nr = removed.len();
    let mut j: usize = 0;
    proof {
        assert(rm.skip(0) =~= rm);
    }
    while j < nr
        invariant
            j <= nr,
            nr == removed@.len(),
            rm == removed@.map_values(|s: String| s@),
            am == additions@.map_values(|e: (String, Package)| (e.0@, e.1@)),
            c.wf(),
            apply_removes(apply_adds(old(c)@, am), rm) == apply_removes(c@, rm.skip(j as int)),
        decreases nr - j,
    {
        let ghost t = rm.skip(j as int);
        proof {
            assert(t[0] == rm[j as int]);
            assert(rm[j as int] == removed@[j as int]@);
            assert(t.drop_first() =~= rm.skip(j + 1));
        }
        c.remove_by_pack_name(&removed[j]);
        j += 1;
    }
    proof {
        assert(rm.skip(nr as int).len() == 0);
        assert(apply_removes(c@, rm.skip(nr as int)) == c@);
    }
}

// ---------------------------------------------------------------------
// Supporting lemmas for the detector laws.
// ---------------------------------------------------------------------

/// Membership distributes over concatenation.
pub proof fn lemma_contains_add(a: Seq<Seq<char>>, b: Seq<Seq<char>>, x: Seq<char>)
    ensures
        (a + b).contains(x) == (a.contains(x) || b.contains(x)),
{
    let c = a + b;
    if a.contains(x) {
        let w = choose|i: int| 0 <= i < a.len() && a[i] == x;
        assert(c[w] == x);
        assert(c.contains(x));
    } else if b.contains(x) {
        let w = choose|i: int| 0 <= i < b.len() && b[i] == x;
        assert(c[a.len() + w] == x);
        assert(c.contains(x));
    } else {
        if c.contains(x) {
            let w = choose|i: int| 0 <= i < c.len() && c[i] == x;
            if w < a.len() {
                assert(a[w] == x);
            } else {
                assert(b[w - a.len()] == x);
            }
        }
    }
}

/// What survives `not_in`: exactly the identifiers of `ids` that `excl`
/// does not hold.
pub proof fn lemma_not_in_membership(ids: Seq<Seq<char>>, excl: Seq<Seq<char>>, x: Seq<char>)
    ensures
        not_in(ids, excl).contains(x) == (ids.contains(x) && !excl.contains(x)),
    decreases ids.len(),
{
    if ids.len() == 0 {
        if ids.contains(x) {
            let w = choose|i: int| 0 <= i < ids.len() && ids[i] == x;
        }
        if not_in(ids, excl).contains(x) {
            let w = choose|i: int| 0 <= i < not_in(ids, excl).len() && not_in(ids, excl)[i] == x;
        }
    } else {
        lemma_not_in_membership(ids.drop_first(), excl, x);
        assert(ids =~= seq![ids[0]] + ids.drop_first());
        lemma_contains_cons(ids[0], ids.drop_first(), x);
        if !excl.contains(ids[0]) {
            lemma_contains_cons(ids[0], not_in(ids.drop_first(), excl), x);
        }
    }
}

/// `not_in` keeps a duplicate-free list duplicate-free.
pub proof fn lemma_not_in_no_dup(ids: Seq<Seq<char>>, excl: Seq<Seq<char>>)
    requires
        ids.no_duplicates(),
    ensures
        not_in(ids, excl).no_duplicates(),
    decreases ids.len(),
{
    if ids.len() == 0 {
    } else {
        assert(ids.drop_first().no_duplicates()) by {
            assert(forall|i: int, j: int|
                0 <= i < j < ids.drop_first().len() ==> #[trigger] ids.drop_first()[i]
                    != #[trigger] ids.drop_first()[j]) by {
                assert(forall|i: int, j: int|
                    0 <= i < j < ids.drop_first().len() ==> ids.drop_first()[i] == ids[i + 1]
                        && ids.drop_first()[j] == ids[j + 1]);
            }
        }
        lemma_not_in_no_dup(ids.drop_first(), excl);
        if !excl.contains(ids[0]) {
            let nin = not_in(ids.drop_first(), excl);
            assert(!ids.drop_first().contains(ids[0])) by {
                if ids.drop_first().contains(ids[0]) {
                    let w = choose|i: int|
                        0 <= i < ids.drop_first().len() && ids.drop_first()[i] == ids[0];
                    assert(ids[w + 1] == ids[0]);
                }
            }
            lemma_not_in_membership(ids.drop_first(), excl, ids[0]);
            assert(!nin.contains(ids[0]));
            let c = seq![ids[0]] + nin;
            assert forall|i: int, j: int| 0 <= i < j < c.len() implies #[trigger] c[i]
                != #[trigger] c[j] by {
                if i == 0 {
                    assert(c[j] == nin[j - 1]);
                    if c[j] == ids[0] {
                        assert(nin.contains(ids[0]));
                    }
                } else {
                    assert(c[i] == nin[i - 1] && c[j] == nin[j - 1]);
                }
            }
        }
    }
}

/// A real identifier is held exactly by some non-built-in entry.
pub proof fn lemma_real_ids_membership(m: CatalogModel, x: Seq<char>)
    ensures
        real_ids(m).contains(x) == exists|i: int|
            0 <= i < m.len() && !is_builtin_model((#[trigger] m[i]).1) && m[i].1.pack_name == x,
    decreases m.len(),
{
    if m.len() == 0 {
        if real_ids(m).contains(x) {
            let w = choose|i: int| 0 <= i < real_ids(m).len() && real_ids(m)[i] == x;
        }
        if exists|i: int|
            0 <= i < m.len() && !is_builtin_model((#[trigger] m[i]).1) && m[i].1.pack_name == x {
            let w = choose|i: int|
                0 <= i < m.len() && !is_builtin_model((#[trigger] m[i]).1) && m[i].1.pack_name
                    == x;
        }
    } else {
        lemma_real_ids_membership(m.drop_first(), x);
        let tail_has = exists|i: int|
            0 <= i < m.drop_first().len() && !is_builtin_model((#[trigger] m.drop_first()[i]).1)
                && m.drop_first()[i].1.pack_name == x;
        if is_builtin_model(m[0].1) {
            if real_ids(m).contains(x) {
                assert(tail_has);
                let w = choose|i: int|
                    0 <= i < m.drop_first().len() && !is_builtin_model(
                        (#[trigger] m.drop_first()[i]).1,
                    ) && m.drop_first()[i].1.pack_name == x;
                assert(m[w + 1] == m.drop_first()[w]);
            }
            if exists|i: int|
                0 <= i < m.len() && !is_builtin_model((#[trigger] m[i]).1) && m[i].1.pack_name
                    == x {
                let w = choose|i: int|
                    0 <= i < m.len() && !is_builtin_model((#[trigger] m[i]).1)
                        && m[i].1.pack_name == x;
                assert(w > 0);
                assert(m.drop_first()[w - 1] == m[w]);
                assert(tail_has);
            }
        } else {
            lemma_contains_cons(m[0].1.pack_name, real_ids(m.drop_first()), x);
            if real_ids(m).contains(x) {
                if m[0].1.pack_name == x {
                } else {
                    assert(tail_has);
                    let w = choose|i: int|
                        0 <= i < m.drop_first().len() && !is_builtin_model(
                            (#[trigger] m.drop_first()[i]).1,
                        ) && m.drop_first()[i].1.pack_name == x;
                    assert(m[w + 1] == m.drop_first()[w]);
                }
            }
            if exists|i: int|
                0 <= i < m.len() && !is_builtin_model((#[trigger] m[i]).1) && m[i].1.pack_name
                    == x {
                let w = choose|i: int|
                    0 <= i < m.len() && !is_builtin_model((#[trigger] m[i]).1)
                        && m[i].1.pack_name == x;
                if w == 0 {
                } else {
                    assert(m.drop_first()[w - 1] == m[w]);
                    assert(tail_has);
                }
            }
        }
    }
}

/// Entries that are all real contribute exactly their identifiers.
pub proof fn lemma_real_ids_all_real(adds: CatalogModel)
    requires
        forall|k: int| 0 <= k < adds.len() ==> !is_builtin_model((#[trigger] adds[k]).1),
    ensures
        real_ids(adds).len() == adds.len(),
        forall|k: int|
            0 <= k < adds.len() ==> real_ids(adds)[k] == (#[trigger] adds[k]).1.pack_name,
    decreases adds.len(),
{
    if adds.len() == 0 {
    } else {
        assert(forall|k: int|
            0 <= k < adds.drop_first().len() ==> #[trigger] adds.drop_first()[k] == adds[k + 1]);
        lemma_real_ids_all_real(adds.drop_first());
        assert(real_ids(adds) == seq![adds[0].1.pack_name] + real_ids(adds.drop_first()));
        assert forall|k: int|
            0 <= k < adds.len() implies real_ids(adds)[k] == (
        #[trigger] adds[k]).1.pack_name by {
            if k > 0 {
                assert(adds.drop_first()[k - 1] == adds[k]);
                assert(real_ids(adds)[k] == real_ids(adds.drop_first())[k - 1]);
            }
        }
    }
}

/// Fresh, distinct labels make every insertion an append.
pub proof fn lemma_apply_adds_fresh(m: CatalogModel, adds: CatalogModel)
    requires
        labels_unique(m),
        forall|k: int| 0 <= k < adds.len() ==> !contains_label(m, (#[trigger] adds[k]).0),
        forall|k1: int, k2: int|
            0 <= k1 < k2 < adds.len() ==> (#[trigger] adds[k1]).0 != (#[trigger] adds[k2]).0,
    ensures
        apply_adds(m, adds) == m + adds,
        labels_unique(m + adds),
    decreases adds.len(),
{
    if adds.len() == 0 {
        assert(m + adds =~= m);
    } else {
        let e = adds[0];
        crate::catalog::lemma_idx_of_label(m, e.0);
        assert(!contains_label(m, e.0));
        let m1 = spec_insert(m, e.0, e.1);
        assert(m1 == m.push(e));
        crate::catalog::lemma_insert_unique(m, e.0, e.1);
        assert(forall|k: int|
            0 <= k < adds.drop_first().len() ==> #[trigger] adds.drop_first()[k] == adds[k + 1]);
        assert forall|k: int|
            0 <= k < adds.drop_first().len() implies !contains_label(
            m1,
            (#[trigger] adds.drop_first()[k]).0,
        ) by {
            let l = adds.drop_first()[k].0;
            assert(adds[k + 1].0 == l);
            if contains_label(m1, l) {
                let w = choose|i: int| 0 <= i < m1.len() && (#[trigger] m1[i]).0 == l;
                if w < m.len() {
                    assert(m[w].0 == l);
                    assert(contains_label(m, l));
                    assert(!contains_label(m, adds[k + 1].0));
                } else {
                    assert(m1[w].0 == e.0);
                    assert(adds[0].0 != adds[k + 1].0);
                }
            }
        }
        lemma_apply_adds_fresh(m1, adds.drop_first());
        assert(m.push(e) + adds.drop_first() =~= m + adds);
    }
}

/// Label uniqueness survives removing one entry.
pub proof fn lemma_remove_unique(m: CatalogModel, r: int)
    requires
        labels_unique(m),
        0 <= r < m.len(),
    ensures
        labels_unique(m.remove(r)),
{
    let m2 = m.remove(r);
    assert forall|a: int, b: int| 0 <= a < b < m2.len() implies (#[trigger] m2[a]).0 != (
    #[trigger] m2[b]).0 by {
        let a0 = if a < r {
            a
        } else {
            a + 1
        };
        let b0 = if b < r {
            b
        } else {
            b + 1
        };
        assert(m2[a].0 == m[a0].0 && m2[b].0 == m[b0].0);
    }
}

/// Dropping the marked element of a duplicate-free split keeps the rest
/// duplicate-free, and the element occurs in neither part.
pub proof fn lemma_no_dup_mid(a: Seq<Seq<char>>, x: Seq<char>, b: Seq<Seq<char>>)
    requires
        (a + seq![x] + b).no_duplicates(),
    ensures
        (a + b).no_duplicates(),
        !a.contains(x),
        !b.contains(x),
{
    let w = a + seq![x] + b;
    assert(w[a.len() as int] == x);
    assert forall|i: int, j: int| 0 <= i < j < (a + b).len() implies #[trigger] (a + b)[i]
        != #[trigger] (a + b)[j] by {
        let i0 = if i < a.len() {
            i
        } else {
            i + 1
        };
        let j0 = if j < a.len() {
            j
        } else {
            j + 1
        };
        assert((a + b)[i] == w[i0] && (a + b)[j] == w[j0]);
    }
    if a.contains(x) {
        let k = choose|i: int| 0 <= i < a.len() && a[i] == x;
        assert(w[k] == x);
    }
    if b.contains(x) {
        let k = choose|i: int| 0 <= i < b.len() && b[i] == x;
        assert(w[a.len() + 1 + k] == x);
    }
}

/// Removing an identifier that only real entries carry: the first such
/// entry goes, and the real identifiers lose exactly that occurrence.
pub proof fn lemma_remove_real_id(m: CatalogModel, id: Seq<char>)
    requires
        real_ids(m).contains(id),
        forall|i: int|
            0 <= i < m.len() && is_builtin_model((#[trigger] m[i]).1) ==> m[i].1.pack_name != id,
    ensures
        ({
            let r = crate::catalog::idx_of_pack(m, id);
            &&& 0 <= r < m.len()
            &&& !is_builtin_model(m[r].1)
            &&& spec_remove_id(m, id) == m.remove(r)
            &&& real_ids(m) == real_ids(m.take(r)) + seq![id] + real_ids(m.skip(r + 1))
            &&& real_ids(m.remove(r)) == real_ids(m.take(r)) + real_ids(m.skip(r + 1))
            &&& !real_ids(m.take(r)).contains(id)
        }),
{
    crate::catalog::lemma_idx_of_pack(m, id);
    let r = crate::catalog::idx_of_pack(m, id);
    if r == -1 {
        lemma_real_ids_membership(m, id);
        let w = choose|i: int|
            0 <= i < m.len() && !is_builtin_model((#[trigger] m[i]).1) && m[i].1.pack_name == id;
        assert(m[w].1.pack_name != id);
        assert(false);
    }
    assert(m[r].1.pack_name == id);
    assert(!is_builtin_model(m[r].1));
    let a = m.take(r);
    let b = m.skip(r + 1);
    assert(m =~= a + (seq![m[r]] + b));
    lemma_real_ids_add(a, seq![m[r]] + b);
    lemma_real_ids_add(seq![m[r]], b);
    assert(real_ids(seq![m[r]]) =~= seq![id]) by {
        assert(seq![m[r]].drop_first() =~= Seq::<(Seq<char>, PackageModel)>::empty());
        assert(real_ids(Seq::<(Seq<char>, PackageModel)>::empty()).len() == 0);
    }
    assert(real_ids(m) =~= real_ids(a) + seq![id] + real_ids(b));
    assert(m.remove(r) =~= a + b);
    lemma_real_ids_add(a, b);
    assert(real_ids(m.remove(r)) =~= real_ids(a) + real_ids(b));
    lemma_real_ids_membership(a, id);
    if real_ids(a).contains(id) {
        let w = choose|i: int|
            0 <= i < a.len() && !is_builtin_model((#[trigger] a[i]).1) && a[i].1.pack_name == id;
        assert(a[w] == m[w]);
        assert(m[w].1.pack_name != id);
    }
}

/// Removing a duplicate-free list of real identifiers, one by one: each
/// removal takes out exactly one real entry, and what remains carries
/// exactly the identifiers not removed.
pub proof fn lemma_apply_removes(m: CatalogModel, ids: Seq<Seq<char>>)
    requires
        labels_unique(m),
        real_ids(m).no_duplicates(),
        ids.no_duplicates(),
        forall|k: int| 0 <= k < ids.len() ==> real_ids(m).contains(#[trigger] ids[k]),
        forall|i: int|
            0 <= i < m.len() && is_builtin_model((#[trigger] m[i]).1) ==> !ids.contains(
                m[i].1.pack_name,
            ),
    ensures
        labels_unique(apply_removes(m, ids)),
        real_ids(apply_removes(m, ids)).no_duplicates(),
        forall|x: Seq<char>|
            #[trigger] real_ids(apply_removes(m, ids)).contains(x) == (real_ids(m).contains(x)
                && !ids.contains(x)),
        apply_removes(m, ids).len() == m.len() - ids.len(),
        real_ids(apply_removes(m, ids)).len() == real_ids(m).len() - ids.len(),
    decreases ids.len(),
{
    if ids.len() == 0 {
        assert forall|x: Seq<char>|
            #[trigger] real_ids(apply_removes(m, ids)).contains(x) == (real_ids(m).contains(x)
                && !ids.contains(x)) by {
            if ids.contains(x) {
                let w = choose|i: int| 0 <= i < ids.len() && ids[i] == x;
            }
        }
    } else {
        let id = ids[0];
        assert(real_ids(m).contains(id));
        assert forall|i: int|
            0 <= i < m.len() && is_builtin_model((#[trigger] m[i]).1) implies m[i].1.pack_name
            != id by {
            if m[i].1.pack_name == id {
                assert(ids.contains(m[i].1.pack_name));
            }
        }
        lemma_remove_real_id(m, id);
        let r = crate::catalog::idx_of_pack(m, id);
        let m2 = m.remove(r);
        assert(spec_remove_id(m, id) == m2);
        lemma_remove_unique(m, r);
        let ra = real_ids(m.take(r));
        let rb = real_ids(m.skip(r + 1));
        lemma_no_dup_mid(ra, id, rb);
        assert(!rb.contains(id));

        assert(ids =~= seq![id] + ids.drop_first());
        assert(ids.drop_first().no_duplicates()) by {
            assert(forall|i: int, j: int|
                0 <= i < j < ids.drop_first().len() ==> #[trigger] ids.drop_first()[i]
                    != #[trigger] ids.drop_first()[j]) by {
                assert(forall|i: int, j: int|
                    0 <= i < j < ids.drop_first().len() ==> ids.drop_first()[i] == ids[i + 1]
                        && ids.drop_first()[j] == ids[j + 1]);
            }
        }
        assert(!ids.drop_first().contains(id)) by {
            if ids.drop_first().contains(id) {
                let w = choose|i: int| 0 <= i < ids.drop_first().len() && ids.drop_first()[i] == id;
                assert(ids[w + 1] == ids[0]);
            }
        }
        assert forall|x: Seq<char>| #[trigger] real_ids(m2).contains(x) == (real_ids(
            m,
        ).contains(x) && x != id) by {
            lemma_contains_add(ra, rb, x);
            lemma_contains_add(ra + seq![id], rb, x);
            lemma_contains_add(ra, seq![id], x);
            assert(real_ids(m) == (ra + seq![id]) + rb);
            assert(real_ids(m2) == ra + rb);
            if x == id {
                assert(!ra.contains(x) && !rb.contains(x));
                assert(seq![id][0] == id);
                assert((ra + seq![id]).contains(id));
            } else {
                if seq![id].contains(x) {
                    let w = choose|i: int| 0 <= i < seq![id].len() && seq![id][i] == x;
                    assert(seq![id][0] == id);
                }
            }
        }
        assert forall|k: int|
            0 <= k < ids.drop_first().len() implies real_ids(m2).contains(
            #[trigger] ids.drop_first()[k],
        ) by {
            assert(ids.drop_first()[k] == ids[k + 1]);
            assert(real_ids(m).contains(ids[k + 1]));
            assert(ids[k + 1] != id);
        }
        assert forall|i: int|
            0 <= i < m2.len() && is_builtin_model((#[trigger] m2[i]).1) implies !ids.drop_first()
                .contains(m2[i].1.pack_name) by {
            let i0 = if i < r {
                i
            } else {
                i + 1
            };
            assert(m2[i] == m[i0]);
            if ids.drop_first().contains(m2[i].1.pack_name) {
                let w = choose|k: int|
                    0 <= k < ids.drop_first().len() && ids.drop_first()[k] == m2[i].1.pack_name;
                assert(ids[w + 1] == m2[i].1.pack_name);
                assert(ids.contains(m[i0].1.pack_name));
            }
        }
        assert(real_ids(m2).no_duplicates());
        lemma_apply_removes(m2, ids.drop_first());
        assert(apply_removes(m, ids) == apply_removes(m2, ids.drop_first()));
        assert forall|x: Seq<char>|
            #[trigger] real_ids(apply_removes(m, ids)).contains(x) == (real_ids(m).contains(x)
                && !ids.contains(x)) by {
            lemma_contains_cons(id, ids.drop_first(), x);
        }
    }
}

// ---------------------------------------------------------------------
// The detector laws.
// ---------------------------------------------------------------------

/// Diff correctness, after patching: when the additions carry exactly
/// the added identifiers under fresh distinct labels, and no built-in
/// entry shares an identifier with a real entry, patching leaves the
/// catalog's real package set equal to the live set, and the catalog's
/// size in step with the live count.
pub proof fn lemma_patch_synchronizes(
    m: CatalogModel,
    live: Seq<Seq<char>>,
    adds: Seq<(Seq<char>, PackageModel)>,
)
    requires
        labels_unique(m),
        one_label_per_id(m),
        live.no_duplicates(),
        adds.len() == added_ids(m, live).len(),
        forall|k: int|
            0 <= k < adds.len() ==> (#[trigger] adds[k]).1.pack_name == added_ids(m, live)[k],
        forall|k: int| 0 <= k < adds.len() ==> !is_builtin_model((#[trigger] adds[k]).1),
        forall|k: int| 0 <= k < adds.len() ==> !contains_label(m, (#[trigger] adds[k]).0),
        forall|k1: int, k2: int|
            0 <= k1 < k2 < adds.len() ==> (#[trigger] adds[k1]).0 != (#[trigger] adds[k2]).0,
        forall|i: int|
            0 <= i < m.len() && is_builtin_model((#[trigger] m[i]).1) ==> !real_ids(m).contains(
                m[i].1.pack_name,
            ),
    ensures
        ({
            let patched = spec_patch(m, adds, removed_ids(m, live));
            &&& labels_unique(patched)
            &&& one_label_per_id(patched)
            &&& real_ids(patched).to_set() == live.to_set()
            &&& real_ids(patched).len() == live.len()
            &&& patched.len() == m.len() - real_ids(m).len() + live.len()
        }),
{
    broadcast use vstd::seq_lib::group_seq_properties;

    let cached = real_ids(m);
    let added = added_ids(m, live);
    let removed = removed_ids(m, live);
    lemma_apply_adds_fresh(m, adds);
    let m1 = m + adds;
    assert(apply_adds(m, adds) == m1);
    lemma_real_ids_add(m, adds);
    lemma_real_ids_all_real(adds);
    assert forall|k: int| 0 <= k < adds.len() implies real_ids(adds)[k] == added[k] by {
        assert(adds[k].1.pack_name == added_ids(m, live)[k]);
    }
    assert(real_ids(adds) =~= added);
    assert(real_ids(m1) == cached + added);

    lemma_not_in_no_dup(live, cached);
    assert(added.no_duplicates());
    assert((cached + added).no_duplicates()) by {
        assert forall|i: int, j: int|
            0 <= i < j < (cached + added).len() implies #[trigger] (cached + added)[i]
            != #[trigger] (cached + added)[j] by {
            if i < cached.len() && j >= cached.len() {
                assert((cached + added)[i] == cached[i]);
                assert((cached + added)[j] == added[j - cached.len()]);
                lemma_not_in_membership(live, cached, added[j - cached.len()]);
                assert(added.contains(added[j - cached.len()]));
                if cached[i] == added[j - cached.len()] {
                    assert(cached.contains(added[j - cached.len()]));
                }
            }
        }
    }

    lemma_not_in_no_dup(cached, live);
    assert(removed.no_duplicates());
    assert forall|k: int| 0 <= k < removed.len() implies real_ids(m1).contains(
        #[trigger] removed[k],
    ) by {
        lemma_not_in_membership(cached, live, removed[k]);
        assert(removed.contains(removed[k]));
        assert(cached.contains(removed[k]));
        lemma_contains_add(cached, added, removed[k]);
    }
    assert forall|i: int|
        0 <= i < m1.len() && is_builtin_model((#[trigger] m1[i]).1) implies !removed.contains(
        m1[i].1.pack_name,
    ) by {
        if i < m.len() {
            assert(m1[i] == m[i]);
            if removed.contains(m1[i].1.pack_name) {
                lemma_not_in_membership(cached, live, m1[i].1.pack_name);
                assert(cached.contains(m[i].1.pack_name));
            }
        } else {
            assert(m1[i] == adds[i - m.len()]);
            assert(!is_builtin_model(adds[i - m.len()].1));
        }
    }
    lemma_apply_removes(m1, removed);
    let patched = apply_removes(m1, removed);
    assert(spec_patch(m, adds, removed) == patched);

    assert(real_ids(patched).to_set() =~= live.to_set()) by {
        assert forall|x: Seq<char>| real_ids(patched).to_set().contains(x) implies live.to_set()
            .contains(x) by {
            assert(real_ids(patched).contains(x));
            lemma_contains_add(cached, added, x);
            lemma_not_in_membership(live, cached, x);
            lemma_not_in_membership(cached, live, x);
            assert(live.contains(x));
        }
        assert forall|x: Seq<char>| live.to_set().contains(x) implies real_ids(patched).to_set()
            .contains(x) by {
            assert(live.contains(x));
            lemma_contains_add(cached, added, x);
            lemma_not_in_membership(live, cached, x);
            lemma_not_in_membership(cached, live, x);
            assert(real_ids(m1).contains(x) && !removed.contains(x));
            assert(real_ids(patched).contains(x));
        }
    }

    real_ids(patched).unique_seq_to_set();
    live.unique_seq_to_set();
    assert(real_ids(patched).len() == live.len());
    assert(real_ids(m1).len() == cached.len() + added.len());
    assert(real_ids(patched).len() == cached.len() + added.len() - removed.len());
    assert(patched.len() == m.len() + adds.len() - removed.len());
}

/// Idempotence of the detector comparison: after a patch that
/// synchronized the catalog with the live set, a second comparison
/// against the same live set sees matching counts — so the detector
/// writes nothing and publishes nothing.
pub proof fn lemma_second_comparison_idle(
    m: CatalogModel,
    live: Seq<Seq<char>>,
    adds: Seq<(Seq<char>, PackageModel)>,
)
    requires
        labels_unique(m),
        one_label_per_id(m),
        live.no_duplicates(),
        adds.len() == added_ids(m, live).len(),
        forall|k: int|
            0 <= k < adds.len() ==> (#[trigger] adds[k]).1.pack_name == added_ids(m, live)[k],
        forall|k: int| 0 <= k < adds.len() ==> !is_builtin_model((#[trigger] adds[k]).1),
        forall|k: int| 0 <= k < adds.len() ==> !contains_label(m, (#[trigger] adds[k]).0),
        forall|k1: int, k2: int|
            0 <= k1 < k2 < adds.len() ==> (#[trigger] adds[k1]).0 != (#[trigger] adds[k2]).0,
        forall|i: int|
            0 <= i < m.len() && is_builtin_model((#[trigger] m[i]).1) ==> !real_ids(m).contains(
                m[i].1.pack_name,
            ),
    ensures
        !spec_needs_update(spec_patch(m, adds, removed_ids(m, live)), live.len() as int),
{
    lemma_patch_synchronizes(m, live, adds);
}

/// Built-in persistence: an entry held under a label that no addition
/// uses, whose package identifier no removal names — the built-in
/// pseudo-entries in particular — stands unchanged in the catalog after
/// the patch, whatever else is added or removed; and the ensured shape
/// lets the argument repeat for any number of detector iterations.
pub proof fn lemma_builtin_persists(
    m: CatalogModel,
    adds: Seq<(Seq<char>, PackageModel)>,
    ids: Seq<Seq<char>>,
    l: Seq<char>,
)
    requires
        labels_unique(m),
        contains_label(m, l),
        is_builtin_model(crate::catalog::spec_get(m, l)),
        forall|k: int| 0 <= k < adds.len() ==> (#[trigger] adds[k]).0 != l,
        forall|k: int|
            0 <= k < ids.len() ==> #[trigger] ids[k] != crate::catalog::spec_get(m, l).pack_name,
    ensures
        labels_unique(spec_patch(m, adds, ids)),
        contains_label(spec_patch(m, adds, ids), l),
        crate::catalog::spec_get(spec_patch(m, adds, ids), l) == crate::catalog::spec_get(m, l),
    decreases adds.len(), ids.len(),
{
    if adds.len() > 0 {
        let m1 = spec_insert(m, adds[0].0, adds[0].1);
        crate::catalog::lemma_insert_unique(m, adds[0].0, adds[0].1);
        crate::catalog::lemma_insert_other(m, adds[0].0, adds[0].1, l);
        assert(forall|k: int|
            0 <= k < adds.drop_first().len() ==> #[trigger] adds.drop_first()[k] == adds[k + 1]);
        lemma_builtin_persists(m1, adds.drop_first(), ids, l);
        assert(apply_adds(m, adds) == apply_adds(m1, adds.drop_first()));
    } else if ids.len() > 0 {
        let m1 = spec_remove_id(m, ids[0]);
        crate::catalog::lemma_remove_other(m, ids[0], l);
        assert(forall|k: int|
            0 <= k < ids.drop_first().len() ==> #[trigger] ids.drop_first()[k] == ids[k + 1]);
        lemma_builtin_persists(m1, adds, ids.drop_first(), l);
        assert(apply_adds(m, adds) == m);
        assert(apply_removes(m, ids) == apply_removes(m1, ids.drop_first()));
    }
}

} // verus!
