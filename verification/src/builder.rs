//! The catalog builder: turns the discovered packages — identifier, raw
//! label and optional intent, as the external queries reported them —
//! into a fresh catalog, with the labels lower-cased and the built-in
//! pseudo-entries inserted last.  Persisting the result is the caller's
//! business.

use vstd::prelude::*;
use vstd::string::*;
use crate::pkg::Package;
use crate::pkg::PackageModel;
use crate::pkg::settings_model;
use crate::pkg::playstore_model;
use crate::pkg::youtube_model;
use crate::catalog::Catalog;
use crate::catalog::CatalogModel;
use crate::catalog::contains_label;
use crate::catalog::spec_get;
use crate::catalog::spec_insert;
use crate::catalog::lemma_idx_of_label;
use crate::catalog::lemma_idx_of_label_is;
use crate::text::lower;
use crate::text::lower_ascii;

verus! {

/// One discovered package: its identifier, the raw label the metadata
/// dump gave, and its default intent, if any.
#[derive(Debug, Clone)]
pub struct AppInfo {
    pub pack_name: String,
    pub label: String,
    pub intent: Option<String>,
}

/// The model of one discovered package.
pub struct AppInfoModel {
    pub pack_name: Seq<char>,
    pub label: Seq<char>,
    pub intent: Option<Seq<char>>,
}

impl View for AppInfo {
    type V = AppInfoModel;

    open spec fn view(&self) -> AppInfoModel {
        AppInfoModel {
            pack_name: self.pack_name@,
            label: self.label@,
            intent: match self.intent {
                Some(s) => Some(s@),
                None => None,
            },
        }
    }
}

/// The discovered packages inserted in order, each under its lower-cased
/// label; a repeated label keeps the later package.
pub open spec fn insert_discovered(m: CatalogModel, ds: Seq<AppInfoModel>) -> CatalogModel
    decreases ds.len(),
{
    if ds.len() == 0 {
        m
    } else {
        insert_discovered(
            spec_insert(
                m,
                lower(ds[0].label),
                PackageModel { pack_name: ds[0].pack_name, intent: ds[0].intent },
            ),
            ds.drop_first(),
        )
    }
}

/// The three built-in pseudo-entries, inserted under their reserved
/// labels; they shadow any discovered package with a colliding label.
pub open spec fn with_builtins(m: CatalogModel) -> CatalogModel {
    spec_insert(
        spec_insert(spec_insert(m, "playstore"@, playstore_model()), "settings"@, settings_model()),
        "youtube"@,
        youtube_model(),
    )
}

/// What the builder produces from the discovered packages.
pub open spec fn build_model(ds: Seq<AppInfoModel>) -> CatalogModel {
    with_builtins(insert_discovered(Seq::empty(), ds))
}

/// Builds the catalog from the discovered packages: each is inserted
/// under its lower-cased label (a later package silently wins a label
/// collision), then the built-in pseudo-entries are inserted.
pub fn build_catalog(discovered: &Vec<AppInfo>) -> (r: Catalog)
    ensures
        r@ == build_model(discovered@.map_values(|a: AppInfo| a@)),
        r.wf(),
        contains_label(r@, "settings"@) && spec_get(r@, "settings"@) == settings_model(),
        contains_label(r@, "playstore"@) && spec_get(r@, "playstore"@) == playstore_model(),
        contains_label(r@, "youtube"@) && spec_get(r@, "youtube"@) == youtube_model(),
{
    let ghost dm = discovered@.map_values(|a: AppInfo| a@);
    let mut c = Catalog::new();
    let n = discovered.len();
    let mut i: usize = 0;
    proof {
        assert(dm.skip(0) =~= dm);
    }
    while i < n
        invariant
            i <= n,
            n == discovered@.len(),
            dm == discovered@.map_values(|a: AppInfo| a@),
            c.wf(),
            insert_discovered(Seq::empty(), dm) == insert_discovered(c@, dm.skip(i as int)),
        decreases n - i,
    {
        let ghost t = dm.skip(i as int);
        proof {
            assert(t[0] == dm[i as int]);
            assert(t.drop_first() =~= dm.skip(i + 1));
        }
        let a = &discovered[i];
        let label = lower_ascii(a.label.as_str());
        let intent = match &a.intent {
            Some(s) => Some(s.clone()),
            None => None,
        };
        let p = Package { pack_name: a.pack_name.clone(), intent };
        proof {
            assert(p@ =~= PackageModel { pack_name: t[0].pack_name, intent: t[0].intent });
        }
        c.insert(label, p);
        i += 1;
    }
    proof {
        assert(dm.skip(n as int).len() == 0);
        assert(insert_discovered(c@, dm.skip(n as int)) == c@);
    }
    c.insert(String::from_str("playstore"), Package::playstore());
    c.insert(String::from_str("settings"), Package::settings());
    c.insert(String::from_str("youtube"), Package::youtube());
    proof {
        let m0 = insert_discovered(Seq::empty(), dm);
        let m1 = spec_insert(m0, "playstore"@, playstore_model());
        let m2 = spec_insert(m1, "settings"@, settings_model());
        let m3 = spec_insert(m2, "youtube"@, youtube_model());
        reveal_strlit("playstore");
        reveal_strlit("settings");
        reveal_strlit("youtube");
        assert("playstore"@.len() == 9);
        assert("settings"@.len() == 8);
        assert("youtube"@.len() == 7);
        lemma_builtin_labels_present(m0);
    }
    c
}

/// After the three built-in insertions, each built-in stands in the
/// catalog under its reserved label.
proof fn lemma_builtin_labels_present(m0: CatalogModel)
    ensures
        ({
            let m3 = with_builtins(m0);
            &&& contains_label(m3, "settings"@) && spec_get(m3, "settings"@) == settings_model()
            &&& contains_label(m3, "playstore"@) && spec_get(m3, "playstore"@) == playstore_model()
            &&& contains_label(m3, "youtube"@) && spec_get(m3, "youtube"@) == youtube_model()
        }),
{
    let m1 = spec_insert(m0, "playstore"@, playstore_model());
    let m2 = spec_insert(m1, "settings"@, settings_model());
    let m3 = spec_insert(m2, "youtube"@, youtube_model());
    reveal_strlit("playstore");
    reveal_strlit("settings");
    reveal_strlit("youtube");
    assert("playstore"@.len() == 9);
    assert("settings"@.len() == 8);
    assert("youtube"@.len() == 7);
    lemma_inserted_present(m2, "youtube"@, youtube_model());
    lemma_inserted_present(m1, "settings"@, settings_model());
    lemma_inserted_present(m0, "playstore"@, playstore_model());
    lemma_insert_other_any(m2, "youtube"@, youtube_model(), "settings"@);
    lemma_insert_other_any(m1, "settings"@, settings_model(), "playstore"@);
    lemma_insert_other_any(m2, "youtube"@, youtube_model(), "playstore"@);
}

/// The label just inserted is present with the inserted entry.
proof fn lemma_inserted_present(m: CatalogModel, l: Seq<char>, p: PackageModel)
    ensures
        contains_label(spec_insert(m, l, p), l),
        spec_get(spec_insert(m, l, p), l) == p,
{
    lemma_idx_of_label(m, l);
    let m2 = spec_insert(m, l, p);
    if contains_label(m, l) {
        let i = idx_of_label_local(m, l);
        assert(m2[i].0 == l);
        assert forall|k: int| 0 <= k < i implies (#[trigger] m2[k]).0 != l by {
            assert(m2[k] == m[k]);
            assert(m[k].0 != l);
        }
        lemma_idx_of_label_is(m2, l, i);
        assert(m2[i].1 == p);
    } else {
        let i = m.len() as int;
        assert(m2[i].0 == l);
        assert forall|k: int| 0 <= k < i implies (#[trigger] m2[k]).0 != l by {
            assert(m2[k] == m[k]);
            if m[k].0 == l {
                assert(contains_label(m, l));
            }
        }
        lemma_idx_of_label_is(m2, l, i);
        assert(m2[i].1 == p);
    }
}

/// Inserting under one label keeps any other label's entry, without a
/// uniqueness assumption: the first occurrence of the other label is
/// untouched.
proof fn lemma_insert_other_any(m: CatalogModel, l2: Seq<char>, p2: PackageModel, l: Seq<char>)
    requires
        l != l2,
    ensures
        contains_label(spec_insert(m, l2, p2), l) == contains_label(m, l),
        contains_label(m, l) ==> spec_get(spec_insert(m, l2, p2), l) == spec_get(m, l),
{
    lemma_idx_of_label(m, l);
    lemma_idx_of_label(m, l2);
    let m2 = spec_insert(m, l2, p2);
    if contains_label(m, l2) {
        let i2 = idx_of_label_local(m, l2);
        assert(m[i2].0 == l2);
        if contains_label(m, l) {
            let i = idx_of_label_local(m, l);
            assert(i != i2);
            assert(m2[i].0 == l);
            assert forall|k: int| 0 <= k < i implies (#[trigger] m2[k]).0 != l by {
                if k == i2 {
                    assert(m2[k].0 == l2);
                } else {
                    assert(m2[k] == m[k]);
                    assert(m[k].0 != l);
                }
            }
            lemma_idx_of_label_is(m2, l, i);
            assert(m2[i].1 == m[i].1);
        } else {
            if contains_label(m2, l) {
                let w = choose|k: int| 0 <= k < m2.len() && (#[trigger] m2[k]).0 == l;
                if w == i2 {
                    assert(m2[w].0 == l2);
                } else {
                    assert(m2[w] == m[w]);
                    assert(contains_label(m, l));
                }
            }
        }
    } else {
        assert(m2 == m.push((l2, p2)));
        if contains_label(m, l) {
            let i = idx_of_label_local(m, l);
            assert(m2[i].0 == l);
            assert forall|k: int| 0 <= k < i implies (#[trigger] m2[k]).0 != l by {
                assert(m2[k] == m[k]);
                assert(m[k].0 != l);
            }
            lemma_idx_of_label_is(m2, l, i);
            assert(m2[i].1 == m[i].1);
        } else {
            if contains_label(m2, l) {
                let w = choose|k: int| 0 <= k < m2.len() && (#[trigger] m2[k]).0 == l;
                if w < m.len() {
                    assert(m2[w] == m[w]);
                    assert(contains_label(m, l));
                } else {
                    assert(m2[w].0 == l2);
                }
            }
        }
    }
}

/// The first index of `l`, used locally by the lemmas above.
spec fn idx_of_label_local(m: CatalogModel, l: Seq<char>) -> int {
    crate::catalog::idx_of_label(m, l)
}

} // verus!
