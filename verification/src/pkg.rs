//! Catalog entries and the launcher's configuration options.

use vstd::prelude::*;
use vstd::string::*;

verus! {

/// Mathematical model of a catalog entry: the package identifier and the
/// optional launch intent, as character sequences.
#[verifier::ext_equal]
pub struct PackageModel {
    pub pack_name: Seq<char>,
    pub intent: Option<Seq<char>>,
}

/// One catalog entry: a package identifier plus an optional launch intent.
/// An absent intent means "use the package's default".
#[derive(Debug, Clone, PartialEq)]
pub struct Package {
    pub pack_name: String,
    pub intent: Option<String>,
}

impl View for Package {
    type V = PackageModel;

    open spec fn view(&self) -> PackageModel {
        PackageModel {
            pack_name: self.pack_name@,
            intent: match self.intent {
                Some(s) => Some(s@),
                None => None,
            },
        }
    }
}

/// The built-in "settings" pseudo-entry, as a model value.
pub open spec fn settings_model() -> PackageModel {
    PackageModel {
        pack_name: "com.android.settings"@,
        intent: Some("com.android.settings.Settings"@),
    }
}

/// The built-in "playstore" pseudo-entry, as a model value.
pub open spec fn playstore_model() -> PackageModel {
    PackageModel {
        pack_name: "com.android.vending"@,
        intent: Some("com.android.vending.AssetBrowserActivity"@),
    }
}

/// The built-in "youtube" pseudo-entry, as a model value.
pub open spec fn youtube_model() -> PackageModel {
    PackageModel {
        pack_name: "com.google.android.youtube"@,
        intent: Some("com.google.android.youtube.app.honeycomb.Shell$HomeActivity"@),
    }
}

/// An entry is a built-in pseudo-entry iff it equals one of the three
/// fixed built-ins, package identifier and intent both.
pub open spec fn is_builtin_model(p: PackageModel) -> bool {
    ||| p == settings_model()
    ||| p == playstore_model()
    ||| p == youtube_model()
}

impl Package {
    /// The built-in pseudo-entry for the system settings.
    pub fn settings() -> (r: Self)
        ensures
            r@ == settings_model(),
    {
        let intent = Some(String::from_str("com.android.settings.Settings"));
        let pack_name = String::from_str("com.android.settings");
        Self { intent, pack_name }
    }

    /// The built-in pseudo-entry for the application store.
    pub fn playstore() -> (r: Self)
        ensures
            r@ == playstore_model(),
    {
        let intent = Some(String::from_str("com.android.vending.AssetBrowserActivity"));
        let pack_name = String::from_str("com.android.vending");
        Self { intent, pack_name }
    }

    /// The built-in pseudo-entry for the video application.
    pub fn youtube() -> (r: Self)
        ensures
            r@ == youtube_model(),
    {
        let intent = Some(
            String::from_str("com.google.android.youtube.app.honeycomb.Shell$HomeActivity"),
        );
        let pack_name = String::from_str("com.google.android.youtube");
        Self { intent, pack_name }
    }

    /// Field-wise equality test; `r` says whether the two entries have the
    /// same package identifier and the same intent.
    pub fn same_entry(&self, other: &Package) -> (r: bool)
        ensures
            r == (self@ == other@),
    {
        if !(self.pack_name == other.pack_name) {
            return false;
        }
        match (&self.intent, &other.intent) {
            (Some(a), Some(b)) => {
                let e: bool = *a == *b;
                proof {
                    if e {
                        assert(self@ =~= other@);
                    }
                }
                e
            },
            (None, None) => {
                proof {
                    assert(self@ =~= other@);
                }
                true
            },
            (Some(_), None) => false,
            (None, Some(_)) => false,
        }
    }

    /// Whether this entry is one of the three built-in pseudo-entries.
    pub fn is_builtin(&self) -> (r: bool)
        ensures
            r == is_builtin_model(self@),
    {
        self.same_entry(&Package::settings()) || self.same_entry(&Package::playstore())
            || self.same_entry(&Package::youtube())
    }

    /// A copy of this entry with the same package identifier and intent.
    pub fn duplicate(&self) -> (r: Package)
        ensures
            r@ == self@,
    {
        let intent = match &self.intent {
            Some(s) => Some(s.clone()),
            None => None,
        };
        Package { pack_name: self.pack_name.clone(), intent }
    }
}

impl Default for Package {
    /// The placeholder entry used when a package cannot be described.
    fn default() -> (r: Self)
        ensures
            r@.pack_name == "not available"@,
            r@.intent is None,
    {
        Self { pack_name: String::from_str("not available"), intent: None }
    }
}

/// The launcher's configuration: which activity-manager variant to use,
/// whether to print warnings, and an app to run non-interactively.
#[derive(Debug, Clone)]
pub struct Options {
    pub am: String,
    pub warn: bool,
    pub running_app: Option<String>,
}

impl Default for Options {
    fn default() -> (r: Self)
        ensures
            r.am@ == "old"@,
            r.warn == true,
            r.running_app is None,
    {
        Self { am: String::from_str("old"), warn: true, running_app: None }
    }
}

} // verus!
