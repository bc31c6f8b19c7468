//! The pure halves of the external package queries: the shell commands
//! the launcher issues, and the parsing of their output.  Running the
//! commands is the caller's business; everything here is exact text work.

use vstd::prelude::*;
use vstd::string::*;
use crate::text::chars_of;
use crate::text::string_from_chars;
use crate::text::str_eq;
use crate::text::split_lines;
use crate::text::contains_chars;
use crate::text::remove_all_chars;
use crate::text::trim_chars;
use crate::text::parse_u8_chars;
use crate::text::spec_lines;
use crate::text::is_substr;
use crate::text::remove_all;
use crate::text::spec_trim;
use crate::text::spec_parse_u8;

verus! {

/// Shell command that lists installed third-party package identifiers.
pub const PKGS_CMD: &'static str = "/system/bin/pm list packages --user 0 -3 | cut -d: -f2";

/// Shell command prefix that prints a package's installation path.
pub const PATH_CMD: &'static str = "/system/bin/pm path --user 0";

/// Shell command prefix that resolves a package's default activity.
pub const INTENT_CMD: &'static str = "/system/bin/pm resolve-activity --user 0";

/// Shell command prefix that dumps a package's metadata.
pub const AAPT_CMD: &'static str = "aapt dump badging";

/// Splits the package-listing command's output into one identifier per
/// line, in output order.
pub fn ret_pack_names(cmd_out: &str) -> (r: Vec<String>)
    ensures
        r@.map_values(|x: String| x@) == spec_lines(cmd_out@),
{
    let cs = chars_of(cmd_out);
    let ls = split_lines(&cs);
    let mut r: Vec<String> = Vec::new();
    let n = ls.len();
    let mut i: usize = 0;
    while i < n
        invariant
            i <= n,
            n == ls@.len(),
            ls@.map_values(|l: Vec<char>| l@) == spec_lines(cmd_out@),
            r@.len() == i,
            forall|k: int| 0 <= k < i ==> (#[trigger] r@[k])@ == ls@[k]@,
        decreases n - i,
    {
        r.push(string_from_chars(&ls[i]));
        i += 1;
    }
    proof {
        assert(r@.map_values(|x: String| x@) =~= ls@.map_values(|l: Vec<char>| l@));
    }
    r
}

/// The shell command that prints the installation path of package `pn`.
pub fn ret_path(pn: &str) -> (r: String)
    ensures
        r@ == PATH_CMD@ + "  "@ + pn@ + " | cut -d: -f2"@,
{
    let mut s = String::from_str(PATH_CMD);
    s.append("  ");
    s.append(pn);
    s.append(" | cut -d: -f2");
    s
}

/// Index of the first line in which `pat` occurs, or -1.
pub open spec fn find_line_with(ls: Seq<Seq<char>>, pat: Seq<char>) -> int
    decreases ls.len(),
{
    if ls.len() == 0 {
        -1
    } else if is_substr(pat, ls[0]) {
        0
    } else {
        let r = find_line_with(ls.drop_first(), pat);
        if r == -1 {
            -1
        } else {
            r + 1
        }
    }
}

/// `find_line_with` returns -1 exactly when no line matches, and
/// otherwise the first matching index.
pub proof fn lemma_find_line_with(ls: Seq<Seq<char>>, pat: Seq<char>)
    ensures
        find_line_with(ls, pat) == -1 ==> forall|i: int|
            0 <= i < ls.len() ==> !is_substr(pat, #[trigger] ls[i]),
        find_line_with(ls, pat) != -1 ==> {
            &&& 0 <= find_line_with(ls, pat) < ls.len()
            &&& is_substr(pat, ls[find_line_with(ls, pat)])
            &&& forall|i: int|
                0 <= i < find_line_with(ls, pat) ==> !is_substr(pat, #[trigger] ls[i])
        },
    decreases ls.len(),
{
    if ls.len() == 0 {
    } else if is_substr(pat, ls[0]) {
    } else {
        lemma_find_line_with(ls.drop_first(), pat);
        assert forall|i: int|
            0 <= i < ls.len() && find_line_with(ls, pat) == -1 implies !is_substr(
            pat,
            #[trigger] ls[i],
        ) by {
            if i > 0 {
                assert(!is_substr(pat, ls.drop_first()[i - 1]));
            }
        }
        if find_line_with(ls, pat) != -1 {
            let r = find_line_with(ls.drop_first(), pat);
            assert(ls[r + 1] == ls.drop_first()[r]);
            assert forall|i: int|
                0 <= i < find_line_with(ls, pat) implies !is_substr(pat, #[trigger] ls[i]) by {
                if i > 0 {
                    assert(!is_substr(pat, ls.drop_first()[i - 1]));
                }
            }
        }
    }
}

/// The label in a metadata dump: the first line naming an application
/// label, with the tag and the quotes removed; a fixed placeholder when
/// no such line exists.
pub open spec fn label_of_output(out: Seq<char>) -> Seq<char> {
    let ls = spec_lines(out);
    let i = find_line_with(ls, "application-label:"@);
    if i == -1 {
        "No Label"@
    } else {
        remove_all(remove_all(ls[i], "application-label:"@), "'"@)
    }
}

/// Extracts the human-readable label from the metadata dump `cmd_out`.
pub fn ret_label(cmd_out: &str) -> (r: String)
    ensures
        r@ == label_of_output(cmd_out@),
{
    let cs = chars_of(cmd_out);
    let ls = split_lines(&cs);
    let pat = chars_of("application-label:");
    proof {
        reveal_strlit("application-label:");
    }
    let quote = chars_of("'");
    proof {
        reveal_strlit("'");
    }
    let n = ls.len();
    let mut i: usize = 0;
    while i < n
        invariant
            i <= n,
            n == ls@.len(),
            cs@ == cmd_out@,
            pat@ == "application-label:"@,
            quote@ == "'"@,
            pat@.len() > 0,
            quote@.len() > 0,
            ls@.map_values(|l: Vec<char>| l@) == spec_lines(cmd_out@),
            forall|k: int| 0 <= k < i ==> !is_substr(pat@, (#[trigger] ls@[k])@),
        decreases n - i,
    {
        if contains_chars(&ls[i], &pat) {
            let r1 = remove_all_chars(&ls[i], &pat);
            let r2 = remove_all_chars(&r1, &quote);
            proof {
                let glines = spec_lines(cmd_out@);
                assert(glines[i as int] == ls@[i as int]@);
                assert forall|k: int|
                    0 <= k < i implies !is_substr(pat@, #[trigger] glines[k]) by {
                    assert(glines[k] == ls@[k]@);
                }
                lemma_find_line_with(glines, pat@);
                if find_line_with(glines, pat@) == -1 {
                    assert(!is_substr(pat@, glines[i as int]));
                }
                assert(find_line_with(glines, pat@) == i);
            }
            return string_from_chars(&r2);
        }
        proof {
            assert(ls@[i as int]@ == spec_lines(cmd_out@)[i as int]);
        }
        i += 1;
    }
    proof {
        let glines = spec_lines(cmd_out@);
        assert forall|k: int| 0 <= k < glines.len() implies !is_substr(
            pat@,
            #[trigger] glines[k],
        ) by {
            assert(glines[k] == ls@[k]@);
        }
        lemma_find_line_with(glines, pat@);
        if find_line_with(glines, pat@) != -1 {
            assert(is_substr(pat@, glines[find_line_with(glines, pat@)]));
        }
    }
    String::from_str("No Label")
}

/// The intent in an activity-resolution dump: the first line naming a
/// component, with the tag removed and whitespace trimmed; absent when
/// no such line exists.
pub open spec fn intent_of_output(out: Seq<char>) -> Option<Seq<char>> {
    let ls = spec_lines(out);
    let i = find_line_with(ls, "name="@);
    if i == -1 {
        None
    } else {
        Some(spec_trim(remove_all(ls[i], "name="@)))
    }
}

/// Extracts the default launch intent from the resolution dump `cmd_out`.
pub fn ret_intent(cmd_out: &str) -> (r: Option<String>)
    ensures
        match r {
            Some(s) => intent_of_output(cmd_out@) == Some(s@),
            None => intent_of_output(cmd_out@) is None,
        },
{
    let cs = chars_of(cmd_out);
    let ls = split_lines(&cs);
    let pat = chars_of("name=");
    proof {
        reveal_strlit("name=");
    }
    let n = ls.len();
    let mut i: usize = 0;
    while i < n
        invariant
            i <= n,
            n == ls@.len(),
            cs@ == cmd_out@,
            pat@ == "name="@,
            pat@.len() > 0,
            ls@.map_values(|l: Vec<char>| l@) == spec_lines(cmd_out@),
            forall|k: int| 0 <= k < i ==> !is_substr(pat@, (#[trigger] ls@[k])@),
        decreases n - i,
    {
        if contains_chars(&ls[i], &pat) {
            let r1 = remove_all_chars(&ls[i], &pat);
            let r2 = trim_chars(&r1);
            proof {
                let glines = spec_lines(cmd_out@);
                assert(glines[i as int] == ls@[i as int]@);
                assert forall|k: int|
                    0 <= k < i implies !is_substr(pat@, #[trigger] glines[k]) by {
                    assert(glines[k] == ls@[k]@);
                }
                lemma_find_line_with(glines, pat@);
                if find_line_with(glines, pat@) == -1 {
                    assert(!is_substr(pat@, glines[i as int]));
                }
                assert(find_line_with(glines, pat@) == i);
            }
            return Some(string_from_chars(&r2));
        }
        proof {
            assert(ls@[i as int]@ == spec_lines(cmd_out@)[i as int]);
        }
        i += 1;
    }
    proof {
        let glines = spec_lines(cmd_out@);
        assert forall|k: int| 0 <= k < glines.len() implies !is_substr(
            pat@,
            #[trigger] glines[k],
        ) by {
            assert(glines[k] == ls@[k]@);
        }
        lemma_find_line_with(glines, pat@);
        if find_line_with(glines, pat@) != -1 {
            assert(is_substr(pat@, glines[find_line_with(glines, pat@)]));
        }
    }
    None
}


/// The label-failure recovery rule: a failed label query does not block
/// catalog construction — the entry is still created, under a fixed
/// placeholder label instead.
pub open spec fn spec_label_or_placeholder(o: Option<Seq<char>>) -> Seq<char> {
    match o {
        Some(s) => s,
        None => "No Label"@,
    }
}

/// Substitutes the placeholder when the label query itself failed.
pub fn label_or_placeholder(queried: Option<String>) -> (r: String)
    ensures
        r@ == spec_label_or_placeholder(
            match queried {
                Some(s) => Some(s@),
                None => None,
            },
        ),
{
    match queried {
        Some(s) => s,
        None => String::from_str("No Label"),
    }
}

/// The activity-manager binary each variant name selects; anything
/// unknown falls back to the legacy one.
pub open spec fn spec_am_command(am: Seq<char>) -> Seq<char> {
    if am == "old"@ {
        "am"@
    } else if am == "new"@ {
        "termux-am"@
    } else if am == "system"@ {
        "/system/bin/am"@
    } else {
        "am"@
    }
}

/// Maps an activity-manager variant name to the binary to invoke.
pub fn get_am_command(am_opt_val: &str) -> (r: String)
    ensures
        r@ == spec_am_command(am_opt_val@),
{
    if str_eq(am_opt_val, "old") {
        String::from_str("am")
    } else if str_eq(am_opt_val, "new") {
        String::from_str("termux-am")
    } else if str_eq(am_opt_val, "system") {
        String::from_str("/system/bin/am")
    } else {
        String::from_str("am")
    }
}

/// The version that is too new for the system activity manager, if the
/// version dump names one: present exactly when the trimmed output
/// parses as an 8-bit number greater than 29.
pub open spec fn incompatible_sdk(out: Seq<char>) -> Option<u8> {
    match spec_parse_u8(spec_trim(out)) {
        Some(sdk) => if sdk > 29 {
            Some(sdk)
        } else {
            None
        },
        None => None,
    }
}

/// Checks the version dump for a system release too new for the system
/// activity manager.
pub fn check_sdk_version(getprop_out: &str) -> (r: Option<u8>)
    ensures
        r == incompatible_sdk(getprop_out@),
{
    let cs = chars_of(getprop_out);
    let t = trim_chars(&cs);
    match parse_u8_chars(&t) {
        Some(sdk) => if sdk > 29 {
            Some(sdk)
        } else {
            None
        },
        None => None,
    }
}

} // verus!
