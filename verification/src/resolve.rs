//! Label resolution for the command dispatcher: exact case-insensitive
//! match, substring suggestions, or nothing — and the launch command an
//! entry gives rise to.

use vstd::prelude::*;
use vstd::string::*;
use crate::pkg::Package;
use crate::pkg::PackageModel;
use crate::catalog::Catalog;
use crate::catalog::CatalogModel;
use crate::catalog::contains_label;
use crate::catalog::spec_get;
use crate::text::lower;
use crate::text::lower_ascii;
use crate::text::is_substr;
use crate::text::chars_of;
use crate::text::contains_chars;

verus! {

/// What resolving an input against a catalog yields.
#[derive(Debug, Clone)]
pub enum Resolution {
    /// An entry is stored under exactly the lower-cased input.
    Found(Package),
    /// No exact match, but the input occurs inside these labels.
    Suggestions(Vec<String>),
    /// No exact match and no suggestion.
    NotFound,
}

/// The labels of `m`, in catalog order, in which `q` occurs.
pub open spec fn suggestions_for(m: CatalogModel, q: Seq<char>) -> Seq<Seq<char>>
    decreases m.len(),
{
    if m.len() == 0 {
        seq![]
    } else if is_substr(q, m[0].0) {
        seq![m[0].0] + suggestions_for(m.drop_first(), q)
    } else {
        suggestions_for(m.drop_first(), q)
    }
}

/// Resolves `input` against the catalog.  The input is lower-cased, so
/// resolution is case-insensitive: the result depends only on
/// `lower(input@)` and the catalog.  An exact label match wins; otherwise
/// an input of at least two characters that occurs inside one or more
/// labels yields those labels as suggestions; otherwise nothing is found.
pub fn resolve(input: &str, catalog: &Catalog) -> (r: Resolution)
    ensures
        ({
            let q = lower(input@);
            match r {
                Resolution::Found(p) => contains_label(catalog@, q) && p@ == spec_get(
                    catalog@,
                    q,
                ),
                Resolution::Suggestions(ls) => !contains_label(catalog@, q) && q.len() >= 2
                    && ls@.map_values(|s: String| s@) == suggestions_for(catalog@, q)
                    && ls@.len() > 0,
                Resolution::NotFound => !contains_label(catalog@, q) && (q.len() < 2
                    || suggestions_for(catalog@, q).len() == 0),
            }
        }),
{
    let lowered = lower_ascii(input);
    let ghost q = lower(input@);
    match catalog.get(&lowered) {
        Some(p) => Resolution::Found(p.duplicate()),
        None => {
            let qc = chars_of(lowered.as_str());
            if qc.len() >= 2 {
                let mut sugg: Vec<String> = Vec::new();
                let n = catalog.len();
                let mut i: usize = 0;
                proof {
                    assert(catalog@.skip(0) =~= catalog@);
                    assert(sugg@.map_values(|s: String| s@) + suggestions_for(catalog@, q)
                        =~= suggestions_for(catalog@, q));
                }
                while i < n
                    invariant
                        i <= n,
                        n == catalog@.len(),
                        qc@ == q,
                        suggestions_for(catalog@, q) == sugg@.map_values(|s: String| s@)
                            + suggestions_for(catalog@.skip(i as int), q),
                    decreases n - i,
                {
                    let ghost t = catalog@.skip(i as int);
                    proof {
                        assert(t[0] == catalog@[i as int]);
                        assert(t.drop_first() =~= catalog@.skip(i + 1));
                    }
                    let lab = catalog.label_at(i);
                    let lc = chars_of(lab.as_str());
                    let ghost oldsugg = sugg@;
                    if contains_chars(&lc, &qc) {
                        sugg.push(lab.clone());
                        proof {
                            assert(sugg@.map_values(|s: String| s@) =~= oldsugg.map_values(
                                |s: String| s@,
                            ).push(catalog@[i as int].0));
                            assert(oldsugg.map_values(|s: String| s@).push(catalog@[i as int].0)
                                + suggestions_for(catalog@.skip(i + 1), q) =~= oldsugg.map_values(
                                |s: String| s@,
                            ) + suggestions_for(t, q));
                        }
                    }
                    i += 1;
                }
                proof {
                    assert(catalog@.skip(n as int).len() == 0);
                    assert(suggestions_for(catalog@.skip(n as int), q).len() == 0);
                    assert(sugg@.map_values(|s: String| s@) + suggestions_for(
                        catalog@.skip(n as int),
                        q,
                    ) =~= sugg@.map_values(|s: String| s@));
                }
                if sugg.len() > 0 {
                    Resolution::Suggestions(sugg)
                } else {
                    proof {
                        assert(sugg@.map_values(|s: String| s@).len() == 0);
                    }
                    Resolution::NotFound
                }
            } else {
                Resolution::NotFound
            }
        },
    }
}

/// The shell command that launches `p` through the activity manager
/// `am`: its package identifier and its intent, or the word none when
/// the default intent is to be used.
pub open spec fn spec_launch_command(am: Seq<char>, p: PackageModel) -> Seq<char> {
    am + " start --user 0 "@ + p.pack_name + "/'"@ + (match p.intent {
        Some(i) => i,
        None => "none"@,
    }) + "'"@
}

/// Builds the launch command for an entry.
pub fn build_launch_command(am_command: &str, package: &Package) -> (r: String)
    ensures
        r@ == spec_launch_command(am_command@, package@),
{
    let mut s = String::from_str(am_command);
    s.append(" start --user 0 ");
    s.append(package.pack_name.as_str());
    s.append("/'");
    match &package.intent {
        Some(i) => s.append(i.as_str()),
        None => s.append("none"),
    }
    s.append("'");
    s
}

} // verus!
