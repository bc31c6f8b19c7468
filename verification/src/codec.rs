//! The persisted-catalog codec: a JSON-shaped text format mapping each
//! label to an object with the package identifier and the optional intent.
//!
//! `save_catalog` and `load_catalog` are exact inverses:
//! `lemma_load_of_save` proves that decoding an encoded catalog gives the
//! catalog back, for every well-formed catalog value.  Loading is
//! forward-compatible: entry objects may carry key-value pairs under
//! keys this version does not know (with string or null values), and
//! those are ignored.

use vstd::prelude::*;
use crate::pkg::PackageModel;
use crate::pkg::Package;
use crate::catalog::CatalogModel;
use crate::catalog::Catalog;
use crate::catalog::contains_label;
use crate::catalog::spec_insert;
use crate::catalog::labels_unique;
use crate::text::chars_of;
use crate::text::string_from_chars;
use crate::text::match_at;

verus! {

/// Why a persisted catalog could not be produced.
#[derive(Debug, Clone, PartialEq, Eq)]
pub enum StoreError {
    /// The backing file does not exist.
    NotFound,
    /// The backing file exists but does not hold a valid catalog.
    Corrupt,
    /// The backing file could not be read or written.
    IoError,
}

/// A quote or backslash is escaped with a backslash; all other
/// characters stand for themselves.
pub open spec fn esc_char(c: char) -> Seq<char> {
    if c == '"' || c == '\\' {
        seq!['\\', c]
    } else {
        seq![c]
    }
}

/// The escaped form of a character sequence.
pub open spec fn esc(s: Seq<char>) -> Seq<char>
    decreases s.len(),
{
    if s.len() == 0 {
        Seq::empty()
    } else {
        esc_char(s[0]) + esc(s.drop_first())
    }
}

/// Escaping distributes over concatenation.
pub proof fn lemma_esc_add(a: Seq<char>, b: Seq<char>)
    ensures
        esc(a + b) == esc(a) + esc(b),
    decreases a.len(),
{
    if a.len() == 0 {
        assert(a + b =~= b);
        assert(esc(a) + esc(b) =~= esc(b));
    } else {
        lemma_esc_add(a.drop_first(), b);
        assert((a + b).drop_first() =~= a.drop_first() + b);
        assert(esc(a + b) =~= esc(a) + esc(b));
    }
}

/// A quoted, escaped string.
pub open spec fn enc_str(s: Seq<char>) -> Seq<char> {
    seq!['"'] + esc(s) + seq!['"']
}

/// An optional string: quoted when present, the word null when absent.
pub open spec fn enc_opt(o: Option<Seq<char>>) -> Seq<char> {
    match o {
        Some(s) => enc_str(s),
        None => "null"@,
    }
}

/// One key-value pair of an entry object: a quoted key, a colon, and
/// the value (a quoted string or the word null).
pub open spec fn enc_pair(key: Seq<char>, v: Option<Seq<char>>) -> Seq<char> {
    enc_str(key) + seq![':'] + enc_opt(v)
}

/// One catalog entry's value object: the package identifier and the
/// optional intent, as key-value pairs in braces.
pub open spec fn enc_package(p: PackageModel) -> Seq<char> {
    seq!['{'] + enc_pair("pack_name"@, Some(p.pack_name)) + seq![','] + enc_pair(
        "intent"@,
        p.intent,
    ) + seq!['}']
}

/// One labelled entry.
pub open spec fn enc_entry(e: (Seq<char>, PackageModel)) -> Seq<char> {
    enc_str(e.0) + seq![':'] + enc_package(e.1)
}

/// The comma-separated entry list.
pub open spec fn enc_entries(m: CatalogModel) -> Seq<char>
    decreases m.len(),
{
    if m.len() == 0 {
        Seq::empty()
    } else if m.len() == 1 {
        enc_entry(m[0])
    } else {
        enc_entry(m[0]) + seq![','] + enc_entries(m.drop_first())
    }
}

/// The whole catalog: the entry list in braces.
pub open spec fn enc_catalog(m: CatalogModel) -> Seq<char> {
    seq!['{'] + enc_entries(m) + seq!['}']
}

/// Appending an entry extends the encoded list with a comma.
pub proof fn lemma_enc_entries_push(m: CatalogModel, e: (Seq<char>, PackageModel))
    requires
        m.len() >= 1,
    ensures
        enc_entries(m.push(e)) == enc_entries(m) + seq![','] + enc_entry(e),
    decreases m.len(),
{
    if m.len() == 1 {
        assert(m.push(e).drop_first() =~= seq![e]);
        assert(m.push(e)[0] == m[0]);
        assert(enc_entries(seq![e]) == enc_entry(e));
        assert(enc_entries(m.push(e)) =~= enc_entries(m) + seq![','] + enc_entry(e));
    } else {
        lemma_enc_entries_push(m.drop_first(), e);
        assert(m.push(e).drop_first() =~= m.drop_first().push(e));
        assert(m.push(e)[0] == m[0]);
        assert(enc_entries(m.push(e)) =~= enc_entries(m) + seq![','] + enc_entry(e));
    }
}

/// An encoded entry is never empty and starts with a quote.
pub proof fn lemma_enc_entry_head(e: (Seq<char>, PackageModel))
    ensures
        enc_entry(e).len() > 0,
        enc_entry(e)[0] == '"',
{
}

// ---------------------------------------------------------------------
// The parser, as spec functions over the remaining input.
// ---------------------------------------------------------------------

/// Parses a string body up to the closing quote; yields the unescaped
/// characters and the rest of the input.
pub open spec fn p_str_body(s: Seq<char>) -> Option<(Seq<char>, Seq<char>)>
    decreases s.len(),
{
    if s.len() == 0 {
        None
    } else if s[0] == '"' {
        Some((Seq::empty(), s.skip(1)))
    } else if s[0] == '\\' {
        if s.len() >= 2 {
            match p_str_body(s.skip(2)) {
                Some(t) => Some((seq![s[1]] + t.0, t.1)),
                None => None,
            }
        } else {
            None
        }
    } else {
        match p_str_body(s.skip(1)) {
            Some(t) => Some((seq![s[0]] + t.0, t.1)),
            None => None,
        }
    }
}

/// Parses a quoted string.
pub open spec fn p_string(s: Seq<char>) -> Option<(Seq<char>, Seq<char>)> {
    if s.len() > 0 && s[0] == '"' {
        p_str_body(s.skip(1))
    } else {
        None
    }
}

/// Consumes the exact literal `lit`, or fails.
pub open spec fn expect(s: Seq<char>, lit: Seq<char>) -> Option<Seq<char>> {
    if s.len() >= lit.len() && s.take(lit.len() as int) == lit {
        Some(s.skip(lit.len() as int))
    } else {
        None
    }
}

/// Parses a quoted string or the word null.
pub open spec fn p_opt_string(s: Seq<char>) -> Option<(Option<Seq<char>>, Seq<char>)> {
    if s.len() > 0 && s[0] == '"' {
        match p_string(s) {
            Some(t) => Some((Some(t.0), t.1)),
            None => None,
        }
    } else {
        match expect(s, "null"@) {
            Some(r) => Some((None, r)),
            None => None,
        }
    }
}

/// One parsed key-value pair: the key and its value (absent for null).
pub type FieldModel = (Seq<char>, Option<Seq<char>>);

/// Parses one key-value pair.
pub open spec fn p_pair(s: Seq<char>) -> Option<(FieldModel, Seq<char>)> {
    match p_string(s) {
        Some(t) => match expect(t.1, ":"@) {
            Some(s2) => match p_opt_string(s2) {
                Some(t2) => Some(((t.0, t2.0), t2.1)),
                None => None,
            },
            None => None,
        },
        None => None,
    }
}

/// Parses a non-empty, comma-separated key-value pair list.
pub open spec fn p_pairs(s: Seq<char>) -> Option<(Seq<FieldModel>, Seq<char>)>
    decreases s.len(),
{
    match p_pair(s) {
        Some(t) => {
            let e = t.0;
            let r = t.1;
            if r.len() > 0 && r[0] == ',' {
                if r.len() < s.len() {
                    match p_pairs(r.skip(1)) {
                        Some(t2) => Some((seq![e] + t2.0, t2.1)),
                        None => None,
                    }
                } else {
                    None
                }
            } else {
                Some((seq![e], r))
            }
        },
        None => None,
    }
}

/// The value of the last pair carrying `key`, if any.
pub open spec fn pick_field(pairs: Seq<FieldModel>, key: Seq<char>) -> Option<Option<Seq<char>>>
    decreases pairs.len(),
{
    if pairs.len() == 0 {
        None
    } else if pairs.last().0 == key {
        Some(pairs.last().1)
    } else {
        pick_field(pairs.drop_last(), key)
    }
}

/// An entry from its parsed pairs: the package identifier must be
/// present as a string; the intent may be a string, null, or absent;
/// pairs under any other key are ignored, so that a catalog written by
/// a later version still loads.  Of a repeated key, the last pair wins.
pub open spec fn fields_to_package(pairs: Seq<FieldModel>) -> Option<PackageModel> {
    match pick_field(pairs, "pack_name"@) {
        Some(pn) => match pn {
            Some(name) => Some(
                PackageModel {
                    pack_name: name,
                    intent: match pick_field(pairs, "intent"@) {
                        Some(v) => v,
                        None => None,
                    },
                },
            ),
            None => None,
        },
        None => None,
    }
}

/// Parses one entry's value object: a brace-enclosed pair list, with
/// unrecognized keys ignored.
pub open spec fn p_package(s: Seq<char>) -> Option<(PackageModel, Seq<char>)> {
    match expect(s, "{"@) {
        Some(s1) => match p_pairs(s1) {
            Some(t) => match expect(t.1, "}"@) {
                Some(s3) => match fields_to_package(t.0) {
                    Some(p) => Some((p, s3)),
                    None => None,
                },
                None => None,
            },
            None => None,
        },
        None => None,
    }
}

/// Parses one labelled entry.
pub open spec fn p_entry(s: Seq<char>) -> Option<((Seq<char>, PackageModel), Seq<char>)> {
    match p_string(s) {
        Some(t) => match expect(t.1, ":"@) {
            Some(s2) => match p_package(s2) {
                Some(t2) => Some(((t.0, t2.0), t2.1)),
                None => None,
            },
            None => None,
        },
        None => None,
    }
}

/// Parses a non-empty, comma-separated entry list.
pub open spec fn p_entries(s: Seq<char>) -> Option<(CatalogModel, Seq<char>)>
    decreases s.len(),
{
    match p_entry(s) {
        Some(t) => {
            let e = t.0;
            let r = t.1;
            if r.len() > 0 && r[0] == ',' {
                if r.len() < s.len() {
                    match p_entries(r.skip(1)) {
                        Some(t2) => Some((seq![e] + t2.0, t2.1)),
                        None => None,
                    }
                } else {
                    None
                }
            } else {
                Some((seq![e], r))
            }
        },
        None => None,
    }
}

/// Parses a whole persisted catalog; the input must be consumed entirely.
pub open spec fn p_catalog(s: Seq<char>) -> Option<CatalogModel> {
    match expect(s, "{"@) {
        Some(s1) => match expect(s1, "}"@) {
            Some(r) => if r.len() == 0 {
                Some(Seq::empty())
            } else {
                None
            },
            None => match p_entries(s1) {
                Some(t) => match expect(t.1, "}"@) {
                    Some(r2) => if r2.len() == 0 {
                        Some(t.0)
                    } else {
                        None
                    },
                    None => None,
                },
                None => None,
            },
        },
        None => None,
    }
}

/// Entry pairs folded into a catalog model by insertion, first to last.
pub open spec fn fold_insert(m: CatalogModel) -> CatalogModel
    decreases m.len(),
{
    if m.len() == 0 {
        Seq::empty()
    } else {
        spec_insert(fold_insert(m.drop_last()), m.last().0, m.last().1)
    }
}

/// What loading a persisted text yields: the parsed entries, folded into
/// a catalog by insertion (a repeated label keeps the last occurrence).
pub open spec fn spec_load(s: Seq<char>) -> Option<CatalogModel> {
    match p_catalog(s) {
        Some(es) => Some(fold_insert(es)),
        None => None,
    }
}

// ---------------------------------------------------------------------
// Round-trip lemmas.
// ---------------------------------------------------------------------

/// Consuming a literal that stands at the front succeeds.
pub proof fn lemma_expect_lit(lit: Seq<char>, rest: Seq<char>)
    ensures
        expect(lit + rest, lit) == Some(rest),
{
    assert((lit + rest).take(lit.len() as int) =~= lit);
    assert((lit + rest).skip(lit.len() as int) =~= rest);
}

/// A string body: its escaped form followed by a closing quote parses
/// back to exactly the original characters.
pub proof fn lemma_p_str_body(x: Seq<char>, rest: Seq<char>)
    ensures
        p_str_body(esc(x) + seq!['"'] + rest) == Some((x, rest)),
    decreases x.len(),
{
    let s = esc(x) + seq!['"'] + rest;
    if x.len() == 0 {
        assert(s =~= seq!['"'] + rest);
        assert(s[0] == '"');
        assert(s.skip(1) =~= rest);
    } else {
        lemma_p_str_body(x.drop_first(), rest);
        let c = x[0];
        assert(esc(x) == esc_char(c) + esc(x.drop_first()));
        if c == '"' || c == '\\' {
            assert(s[0] == '\\');
            assert(s[1] == c);
            assert(s.len() >= 2);
            assert(s.skip(2) =~= esc(x.drop_first()) + seq!['"'] + rest);
            assert(seq![c] + x.drop_first() =~= x);
        } else {
            assert(s[0] == c);
            assert(s.skip(1) =~= esc(x.drop_first()) + seq!['"'] + rest);
            assert(seq![c] + x.drop_first() =~= x);
        }
    }
}

/// A quoted string parses back to the original characters.
pub proof fn lemma_p_string(x: Seq<char>, rest: Seq<char>)
    ensures
        p_string(enc_str(x) + rest) == Some((x, rest)),
{
    let s = enc_str(x) + rest;
    assert(s[0] == '"');
    assert(s.skip(1) =~= esc(x) + seq!['"'] + rest);
    lemma_p_str_body(x, rest);
}

/// An optional string parses back to the original option.
pub proof fn lemma_p_opt_string(o: Option<Seq<char>>, rest: Seq<char>)
    ensures
        p_opt_string(enc_opt(o) + rest) == Some((o, rest)),
{
    let s = enc_opt(o) + rest;
    match o {
        Some(x) => {
            assert(s[0] == '"');
            lemma_p_string(x, rest);
            assert(enc_str(x) + rest =~= s);
        },
        None => {
            reveal_strlit("null");
            assert(s[0] == 'n');
            assert(s[0] != '"');
            lemma_expect_lit("null"@, rest);
            assert("null"@ + rest =~= s);
        },
    }
}

/// An encoded key-value pair parses back to the original pair.
pub proof fn lemma_p_pair(key: Seq<char>, v: Option<Seq<char>>, rest: Seq<char>)
    ensures
        p_pair(enc_pair(key, v) + rest) == Some(((key, v), rest)),
{
    let s = enc_pair(key, v) + rest;
    let r1 = ":"@ + (enc_opt(v) + rest);
    reveal_strlit(":");
    assert(":"@ =~= seq![':']);
    assert(s =~= enc_str(key) + r1);
    lemma_p_string(key, r1);
    let r2 = enc_opt(v) + rest;
    lemma_expect_lit(":"@, r2);
    lemma_p_opt_string(v, rest);
    assert(p_pair(s) == Some(((key, v), rest)));
}

/// An encoded entry value parses back to the original entry value: the
/// two written pairs are found again, and nothing else stands between
/// the braces.
pub proof fn lemma_p_package(p: PackageModel, rest: Seq<char>)
    ensures
        p_package(enc_package(p) + rest) == Some((p, rest)),
{
    let s = enc_package(p) + rest;
    reveal_strlit("{");
    reveal_strlit("}");
    reveal_strlit("pack_name");
    reveal_strlit("intent");
    assert("{"@ =~= seq!['{']);
    assert("}"@ =~= seq!['}']);
    assert("pack_name"@.len() == 9);
    assert("intent"@.len() == 6);

    let pair1 = enc_pair("pack_name"@, Some(p.pack_name));
    let pair2 = enc_pair("intent"@, p.intent);
    let s1 = pair1 + (seq![','] + (pair2 + (seq!['}'] + rest)));
    assert(s =~= "{"@ + s1);
    lemma_expect_lit("{"@, s1);

    // first pair
    let r1 = seq![','] + (pair2 + (seq!['}'] + rest));
    lemma_p_pair("pack_name"@, Some(p.pack_name), r1);
    assert(r1[0] == ',');
    assert(pair1.len() >= 2);
    assert(r1.len() < s1.len());
    let s2 = pair2 + (seq!['}'] + rest);
    assert(r1.skip(1) =~= s2);

    // second pair
    let r2 = seq!['}'] + rest;
    lemma_p_pair("intent"@, p.intent, r2);
    assert(r2[0] == '}');
    assert(r2[0] != ',');

    let f1: FieldModel = ("pack_name"@, Some(p.pack_name));
    let f2: FieldModel = ("intent"@, p.intent);
    let pairs = seq![f1] + seq![f2];
    assert(p_pairs(s2) == Some((seq![f2], r2)));
    assert(p_pairs(s1) == Some((pairs, r2)));

    lemma_expect_lit("}"@, rest);
    assert(r2 =~= "}"@ + rest);

    // the two pairs give back exactly the entry
    assert(pairs.len() == 2);
    assert(pairs.last() == f2);
    assert(pairs.drop_last() =~= seq![f1]);
    assert("pack_name"@ != "intent"@);
    assert(pairs.last().0 == "intent"@);
    assert(pick_field(pairs, "pack_name"@) == pick_field(pairs.drop_last(), "pack_name"@));
    assert(pick_field(seq![f1], "pack_name"@) == Some(Some(p.pack_name))) by {
        assert(seq![f1].last() == f1);
    }
    assert(pick_field(pairs, "intent"@) == Some(p.intent));
    assert(fields_to_package(pairs) == Some(
        PackageModel { pack_name: p.pack_name, intent: p.intent },
    ));
    assert(PackageModel { pack_name: p.pack_name, intent: p.intent } =~= p);
}

/// An encoded labelled entry parses back to the original pair.
pub proof fn lemma_p_entry(e: (Seq<char>, PackageModel), rest: Seq<char>)
    ensures
        p_entry(enc_entry(e) + rest) == Some((e, rest)),
{
    let s = enc_entry(e) + rest;
    let r1 = ":"@ + (enc_package(e.1) + rest);
    reveal_strlit(":");
    assert(":"@ =~= seq![':']);
    assert(s =~= enc_str(e.0) + r1);
    lemma_p_string(e.0, r1);
    let r2 = enc_package(e.1) + rest;
    lemma_expect_lit(":"@, r2);
    lemma_p_package(e.1, rest);
    assert(p_entry(s) == Some(((e.0, e.1), rest)));
    assert((e.0, e.1) =~= e);
}

/// An encoded entry list parses back to the original entries, provided
/// what follows does not begin with a comma.
pub proof fn lemma_p_entries(m: CatalogModel, rest: Seq<char>)
    requires
        m.len() >= 1,
        rest.len() == 0 || rest[0] != ',',
    ensures
        p_entries(enc_entries(m) + rest) == Some((m, rest)),
    decreases m.len(),
{
    let s = enc_entries(m) + rest;
    lemma_enc_entry_head(m[0]);
    if m.len() == 1 {
        assert(s =~= enc_entry(m[0]) + rest);
        lemma_p_entry(m[0], rest);
        assert(seq![m[0]] =~= m);
    } else {
        let tail = seq![','] + (enc_entries(m.drop_first()) + rest);
        assert(s =~= enc_entry(m[0]) + tail);
        lemma_p_entry(m[0], tail);
        assert(tail[0] == ',');
        assert(tail.len() < s.len());
        assert(tail.skip(1) =~= enc_entries(m.drop_first()) + rest);
        lemma_p_entries(m.drop_first(), rest);
        assert(seq![m[0]] + m.drop_first() =~= m);
    }
}

/// Decoding an encoded catalog yields exactly the original entries.
pub proof fn lemma_p_catalog(m: CatalogModel)
    ensures
        p_catalog(enc_catalog(m)) == Some(m),
{
    let s = enc_catalog(m);
    reveal_strlit("{");
    reveal_strlit("}");
    assert("{"@ =~= seq!['{']);
    assert("}"@ =~= seq!['}']);
    let s1 = enc_entries(m) + seq!['}'];
    assert(s =~= "{"@ + s1);
    lemma_expect_lit("{"@, s1);
    if m.len() == 0 {
        assert(s1 =~= seq!['}']);
        assert(s1 =~= "}"@ + Seq::<char>::empty());
        lemma_expect_lit("}"@, Seq::<char>::empty());
    } else {
        lemma_enc_entry_head(m[0]);
        assert(enc_entries(m)[0] == '"');
        assert(s1[0] == '"');
        assert(s1.take(1) =~= seq![s1[0]]);
        assert(expect(s1, "}"@) is None);
        assert(s1 =~= enc_entries(m) + "}"@);
        lemma_p_entries(m, "}"@);
        lemma_expect_lit("}"@, Seq::<char>::empty());
        assert("}"@ + Seq::<char>::empty() =~= "}"@);
    }
}

/// Inserting unique-labelled pairs in order reproduces the sequence.
pub proof fn lemma_fold_insert_unique(m: CatalogModel)
    requires
        labels_unique(m),
    ensures
        fold_insert(m) == m,
    decreases m.len(),
{
    if m.len() == 0 {
        assert(fold_insert(m) =~= m);
    } else {
        let pre = m.drop_last();
        assert(labels_unique(pre)) by {
            assert(forall|i: int, j: int|
                0 <= i < j < pre.len() ==> (#[trigger] pre[i]).0 != (#[trigger] pre[j]).0);
        }
        lemma_fold_insert_unique(pre);
        let l = m.last().0;
        if contains_label(pre, l) {
            let w = choose|i: int| 0 <= i < pre.len() && (#[trigger] pre[i]).0 == l;
            assert(m[w].0 == m[m.len() - 1].0);
            assert(false);
        }
        assert(fold_insert(m) == pre.push(m.last()));
        assert(pre.push(m.last()) =~= m);
    }
}

/// Round trip: loading what was saved gives the catalog back.
/// Stated over the models: for every well-formed catalog value,
/// decoding its encoding succeeds and yields the same entries.
pub proof fn lemma_load_of_save(m: CatalogModel)
    requires
        labels_unique(m),
    ensures
        spec_load(enc_catalog(m)) == Some(m),
{
    lemma_p_catalog(m);
    lemma_fold_insert_unique(m);
}

// ---------------------------------------------------------------------
// Executable encoder.
// ---------------------------------------------------------------------

/// Appends the escaped characters of `s` to `out`.
fn push_escaped(out: &mut Vec<char>, s: &Vec<char>)
    ensures
        final(out)@ == old(out)@ + esc(s@),
{
    let ghost base = old(out)@;
    let n = s.len();
    let mut i: usize = 0;
    proof {
        assert(esc(s@.take(0)) =~= Seq::<char>::empty());
        assert(base + esc(s@.take(0)) =~= base);
    }
    while i < n
        invariant
            i <= n,
            n == s@.len(),
            out@ == base + esc(s@.take(i as int)),
        decreases n - i,
    {
        let c = s[i];
        if c == '"' || c == '\\' {
            out.push('\\');
            out.push(c);
        } else {
            out.push(c);
        }
        proof {
            assert(s@.take(i as int) + seq![s@[i as int]] =~= s@.take(i + 1));
            lemma_esc_add(s@.take(i as int), seq![s@[i as int]]);
            assert(esc(s@.take(i + 1)) == esc(s@.take(i as int) + seq![s@[i as int]]));
            assert(seq![s@[i as int]].drop_first() =~= Seq::<char>::empty());
            assert(esc(Seq::<char>::empty()) == Seq::<char>::empty());
            assert(esc(seq![s@[i as int]]) =~= esc_char(s@[i as int]) + Seq::<char>::empty());
            assert(esc_char(s@[i as int]) + Seq::<char>::empty() =~= esc_char(s@[i as int]));
            assert(out@ =~= base + esc(s@.take(i + 1)));
        }
        i += 1;
    }
    proof {
        assert(s@.take(n as int) =~= s@);
    }
}

/// Appends a quoted, escaped string to `out`.
fn push_enc_str(out: &mut Vec<char>, s: &str)
    ensures
        final(out)@ == old(out)@ + enc_str(s@),
{
    let cs = chars_of(s);
    out.push('"');
    push_escaped(out, &cs);
    out.push('"');
    proof {
        assert(out@ =~= old(out)@ + enc_str(s@));
    }
}

/// Appends the characters of a literal to `out`.
fn push_lit(out: &mut Vec<char>, lit: &str)
    ensures
        final(out)@ == old(out)@ + lit@,
{
    let cs = chars_of(lit);
    let n = cs.len();
    let mut i: usize = 0;
    proof {
        assert(old(out)@ + lit@.take(0) =~= old(out)@);
    }
    while i < n
        invariant
            i <= n,
            n == cs@.len(),
            cs@ == lit@,
            out@ == old(out)@ + lit@.take(i as int),
        decreases n - i,
    {
        out.push(cs[i]);
        proof {
            assert(lit@.take(i as int).push(lit@[i as int]) =~= lit@.take(i + 1));
            assert(out@ =~= old(out)@ + lit@.take(i + 1));
        }
        i += 1;
    }
    proof {
        assert(lit@.take(n as int) =~= lit@);
    }
}

/// Appends one entry's value object to `out`: the two key-value pairs
/// in braces.
fn push_enc_package(out: &mut Vec<char>, p: &Package)
    ensures
        final(out)@ == old(out)@ + enc_package(p@),
{
    out.push('{');
    push_enc_str(out, "pack_name");
    out.push(':');
    push_enc_str(out, p.pack_name.as_str());
    out.push(',');
    push_enc_str(out, "intent");
    out.push(':');
    match &p.intent {
        Some(s) => {
            push_enc_str(out, s.as_str());
            proof {
                assert(p@.intent == Some(s@));
            }
        },
        None => {
            push_lit(out, "null");
            proof {
                assert(p@.intent is None);
            }
        },
    }
    out.push('}');
    proof {
        assert(out@ =~= old(out)@ + enc_package(p@));
    }
}

/// Serializes the catalog to its persisted text form.
pub fn save_catalog(c: &Catalog) -> (r: String)
    ensures
        r@ == enc_catalog(c@),
{
    let mut out: Vec<char> = Vec::new();
    out.push('{');
    let n = c.len();
    let mut i: usize = 0;
    proof {
        assert(enc_entries(c@.take(0)) =~= Seq::<char>::empty());
        assert(out@ =~= seq!['{'] + enc_entries(c@.take(0)));
    }
    while i < n
        invariant
            i <= n,
            n == c@.len(),
            out@ == seq!['{'] + enc_entries(c@.take(i as int)),
        decreases n - i,
    {
        if i > 0 {
            out.push(',');
        }
        push_enc_str(&mut out, c.label_at(i).as_str());
        push_lit(&mut out, ":");
        push_enc_package(&mut out, c.package_at(i));
        proof {
            reveal_strlit(":");
            assert(":"@ =~= seq![':']);
            let e = c@[i as int];
            assert(enc_entry(e) == enc_str(e.0) + seq![':'] + enc_package(e.1));
            if i == 0 {
                assert(c@.take(1) =~= seq![e]);
                assert(enc_entries(c@.take(1)) == enc_entry(e));
                assert(out@ =~= seq!['{'] + enc_entries(c@.take(i + 1)));
            } else {
                assert(c@.take(i as int).push(e) =~= c@.take(i + 1));
                lemma_enc_entries_push(c@.take(i as int), e);
                assert(out@ =~= seq!['{'] + enc_entries(c@.take(i + 1)));
            }
        }
        i += 1;
    }
    out.push('}');
    proof {
        assert(c@.take(n as int) =~= c@);
        assert(out@ =~= enc_catalog(c@));
    }
    string_from_chars(&out)
}

// ---------------------------------------------------------------------
// Executable decoder, mirroring the spec parsers.
// ---------------------------------------------------------------------

/// Parses a string body starting at `i` (just past the opening quote).
fn px_str_body(v: &Vec<char>, i: usize) -> (r: Option<(Vec<char>, usize)>)
    requires
        i <= v@.len(),
    ensures
        match r {
            Some(t) => i <= t.1 <= v@.len() && p_str_body(v@.skip(i as int)) == Some(
                (t.0@, v@.skip(t.1 as int)),
            ),
            None => p_str_body(v@.skip(i as int)) is None,
        },
    decreases v@.len() - i,
{
    let n = v.len();
    let ghost s = v@.skip(i as int);
    if i == n {
        proof {
            assert(s.len() == 0);
        }
        return None;
    }
    proof {
        assert(s[0] == v@[i as int]);
    }
    let c = v[i];
    if c == '"' {
        proof {
            assert(s.skip(1) =~= v@.skip(i + 1));
        }
        Some((Vec::new(), i + 1))
    } else if c == '\\' {
        if i + 1 < n {
            let d = v[i + 1];
            proof {
                assert(s[1] == v@[i + 1]);
                assert(s.skip(2) =~= v@.skip(i + 2));
            }
            match px_str_body(v, i + 2) {
                Some(tj) => {
                    let mut t = tj.0;
                    let j = tj.1;
                    let ghost t0 = t@;
                    t.insert(0, d);
                    proof {
                        assert(t@ =~= seq![s[1]] + t0);
                    }
                    Some((t, j))
                },
                None => None,
            }
        } else {
            proof {
                assert(s.len() < 2);
            }
            None
        }
    } else {
        proof {
            assert(s.skip(1) =~= v@.skip(i + 1));
        }
        match px_str_body(v, i + 1) {
            Some(tj) => {
                let mut t = tj.0;
                let j = tj.1;
                let ghost t0 = t@;
                t.insert(0, c);
                proof {
                    assert(t@ =~= seq![s[0]] + t0);
                }
                Some((t, j))
            },
            None => None,
        }
    }
}

/// Consumes the literal `lit` at position `i`.
fn px_expect(v: &Vec<char>, i: usize, lit: &Vec<char>) -> (r: Option<usize>)
    requires
        i <= v@.len(),
    ensures
        match r {
            Some(j) => i <= j <= v@.len() && expect(v@.skip(i as int), lit@) == Some(
                v@.skip(j as int),
            ),
            None => expect(v@.skip(i as int), lit@) is None,
        },
{
    let n = v.len();
    if n - i >= lit.len() && match_at(v, i, lit) {
        proof {
            assert(v@.skip(i as int).take(lit@.len() as int) =~= v@.subrange(
                i as int,
                i + lit@.len(),
            ));
            assert(v@.skip(i as int).skip(lit@.len() as int) =~= v@.skip(i + lit@.len()));
        }
        Some(i + lit.len())
    } else {
        proof {
            if v@.skip(i as int).len() >= lit@.len() {
                assert(v@.skip(i as int).take(lit@.len() as int) =~= v@.subrange(
                    i as int,
                    i + lit@.len(),
                ));
            }
        }
        None
    }
}

/// Parses a quoted string at position `i`.
fn px_string(v: &Vec<char>, i: usize) -> (r: Option<(Vec<char>, usize)>)
    requires
        i <= v@.len(),
    ensures
        match r {
            Some(t) => i <= t.1 <= v@.len() && p_string(v@.skip(i as int)) == Some(
                (t.0@, v@.skip(t.1 as int)),
            ),
            None => p_string(v@.skip(i as int)) is None,
        },
{
    let n = v.len();
    if i < n && v[i] == '"' {
        proof {
            assert(v@.skip(i as int)[0] == v@[i as int]);
            assert(v@.skip(i as int).skip(1) =~= v@.skip(i + 1));
        }
        px_str_body(v, i + 1)
    } else {
        proof {
            if i < n {
                assert(v@.skip(i as int)[0] == v@[i as int]);
            } else {
                assert(v@.skip(i as int).len() == 0);
            }
        }
        None
    }
}

/// Parses a quoted string or the word null at position `i`.
fn px_opt_string(v: &Vec<char>, i: usize) -> (r: Option<(Option<String>, usize)>)
    requires
        i <= v@.len(),
    ensures
        match r {
            Some(t) => i <= t.1 <= v@.len() && p_opt_string(v@.skip(i as int)) == Some(
                (
                    match t.0 {
                        Some(x) => Some(x@),
                        None => None,
                    },
                    v@.skip(t.1 as int),
                ),
            ),
            None => p_opt_string(v@.skip(i as int)) is None,
        },
{
    let n = v.len();
    if i < n && v[i] == '"' {
        proof {
            assert(v@.skip(i as int)[0] == v@[i as int]);
        }
        match px_string(v, i) {
            Some(tj) => {
                let x = string_from_chars(&tj.0);
                Some((Some(x), tj.1))
            },
            None => None,
        }
    } else {
        proof {
            if i < n {
                assert(v@.skip(i as int)[0] == v@[i as int]);
            } else {
                assert(v@.skip(i as int).len() == 0);
            }
        }
        let lit = chars_of("null");
        match px_expect(v, i, &lit) {
            Some(j) => Some((None, j)),
            None => None,
        }
    }
}

/// Parses one entry value object at position `i`.
fn px_package(v: &Vec<char>, i: usize) -> (r: Option<(Package, usize)>)
    requires
        i <= v@.len(),
    ensures
        match r {
            Some(t) => i <= t.1 <= v@.len() && p_package(v@.skip(i as int)) == Some(
                (t.0@, v@.skip(t.1 as int)),
            ),
            None => p_package(v@.skip(i as int)) is None,
        },
{
    let lit_open = chars_of("{");
    let j1 = match px_expect(v, i, &lit_open) {
        Some(j) => j,
        None => {
            return None;
        },
    };
    let t1 = match px_pairs(v, j1) {
        Some(t) => t,
        None => {
            return None;
        },
    };
    let pairs = t1.0;
    let j2 = t1.1;
    let lit_close = chars_of("}");
    let j3 = match px_expect(v, j2, &lit_close) {
        Some(j) => j,
        None => {
            return None;
        },
    };
    let ghost pm = pairs@.map_values(|e: (String, Option<String>)| field_view(e));
    let key_pn = String::from_str("pack_name");
    let key_it = String::from_str("intent");
    proof {
        reveal_strlit("pack_name");
        reveal_strlit("intent");
        assert("pack_name"@.len() == 9);
        assert("intent"@.len() == 6);
        assert(pm.take(0) =~= Seq::<FieldModel>::empty());
    }
    let mut pn_field: Option<Option<String>> = None;
    let mut it_field: Option<Option<String>> = None;
    let np = pairs.len();
    let mut k: usize = 0;
    while k < np
        invariant
            k <= np,
            np == pairs@.len(),
            key_pn@ == "pack_name"@,
            key_it@ == "intent"@,
            pm == pairs@.map_values(|e: (String, Option<String>)| field_view(e)),
            oo_view(pn_field) == pick_field(pm.take(k as int), "pack_name"@),
            oo_view(it_field) == pick_field(pm.take(k as int), "intent"@),
        decreases np - k,
    {
        let e = &pairs[k];
        proof {
            reveal_strlit("pack_name");
            reveal_strlit("intent");
            assert("pack_name"@.len() == 9);
            assert("intent"@.len() == 6);
            assert(pm[k as int] == field_view(pairs@[k as int]));
            assert(pm.take(k + 1).drop_last() =~= pm.take(k as int));
            assert(pm.take(k + 1).last() == pm[k as int]);
        }
        if e.0 == key_pn {
            pn_field = Some(
                match &e.1 {
                    Some(x) => Some(x.clone()),
                    None => None,
                },
            );
        } else if e.0 == key_it {
            it_field = Some(
                match &e.1 {
                    Some(x) => Some(x.clone()),
                    None => None,
                },
            );
        }
        k += 1;
    }
    proof {
        assert(pm.take(np as int) =~= pm);
    }
    let name = match pn_field {
        Some(Some(name)) => name,
        _ => {
            return None;
        },
    };
    let intent = match it_field {
        Some(Some(x)) => Some(x),
        _ => None,
    };
    let p = Package { pack_name: name, intent };
    proof {
        assert(fields_to_package(pm) is Some);
        assert(p@ =~= fields_to_package(pm).unwrap());
    }
    Some((p, j3))
}


/// The model of one executable key-value pair.
pub open spec fn field_view(e: (String, Option<String>)) -> FieldModel {
    (e.0@, match e.1 {
        Some(x) => Some(x@),
        None => None,
    })
}

/// The model of a tracked optional field: absent, null, or a string.
pub open spec fn oo_view(x: Option<Option<String>>) -> Option<Option<Seq<char>>> {
    match x {
        None => None,
        Some(None) => Some(None),
        Some(Some(s)) => Some(Some(s@)),
    }
}

/// Parses a non-empty key-value pair list at position `i`.
fn px_pairs(v: &Vec<char>, i: usize) -> (r: Option<(Vec<(String, Option<String>)>, usize)>)
    requires
        i <= v@.len(),
    ensures
        match r {
            Some(t) => i <= t.1 <= v@.len() && p_pairs(v@.skip(i as int)) == Some(
                (
                    t.0@.map_values(|e: (String, Option<String>)| field_view(e)),
                    v@.skip(t.1 as int),
                ),
            ),
            None => p_pairs(v@.skip(i as int)) is None,
        },
    decreases v@.len() - i,
{
    let n = v.len();
    let t1 = match px_pair(v, i) {
        Some(t) => t,
        None => {
            return None;
        },
    };
    let e = t1.0;
    let j = t1.1;
    let ghost rsuf = v@.skip(j as int);
    if j < n && v[j] == ',' {
        proof {
            assert(rsuf[0] == v@[j as int]);
        }
        if j > i {
            proof {
                assert(rsuf.skip(1) =~= v@.skip(j + 1));
            }
            match px_pairs(v, j + 1) {
                Some(tj) => {
                    let mut es = tj.0;
                    let j2 = tj.1;
                    let ghost es0 = es@;
                    es.insert(0, e);
                    proof {
                        assert(es@ =~= seq![(es@[0])] + es0);
                        assert(es@[0] == e);
                        let cl = |x: (String, Option<String>)| field_view(x);
                        assert(es@.map_values(cl) =~= seq![cl(e)] + es0.map_values(cl));
                    }
                    Some((es, j2))
                },
                None => None,
            }
        } else {
            None
        }
    } else {
        proof {
            if j < n {
                assert(rsuf[0] == v@[j as int]);
            } else {
                assert(rsuf.len() == 0);
            }
        }
        let mut es: Vec<(String, Option<String>)> = Vec::new();
        es.push(e);
        proof {
            let cl = |x: (String, Option<String>)| field_view(x);
            assert(es@.map_values(cl) =~= seq![cl(es@[0])]);
        }
        Some((es, j))
    }
}

/// Parses one key-value pair at position `i`.
fn px_pair(v: &Vec<char>, i: usize) -> (r: Option<((String, Option<String>), usize)>)
    requires
        i <= v@.len(),
    ensures
        match r {
            Some(t) => i <= t.1 <= v@.len() && p_pair(v@.skip(i as int)) == Some(
                (field_view(t.0), v@.skip(t.1 as int)),
            ),
            None => p_pair(v@.skip(i as int)) is None,
        },
{
    let t1 = match px_string(v, i) {
        Some(t) => t,
        None => {
            return None;
        },
    };
    let key = t1.0;
    let j1 = t1.1;
    let lit = chars_of(":");
    let j2 = match px_expect(v, j1, &lit) {
        Some(j) => j,
        None => {
            return None;
        },
    };
    let t2 = match px_opt_string(v, j2) {
        Some(t) => t,
        None => {
            return None;
        },
    };
    Some(((string_from_chars(&key), t2.0), t2.1))
}

/// Parses one labelled entry at position `i`.
fn px_entry(v: &Vec<char>, i: usize) -> (r: Option<((String, Package), usize)>)
    requires
        i <= v@.len(),
    ensures
        match r {
            Some(t) => i <= t.1 <= v@.len() && p_entry(v@.skip(i as int)) == Some(
                ((t.0.0@, t.0.1@), v@.skip(t.1 as int)),
            ),
            None => p_entry(v@.skip(i as int)) is None,
        },
{
    let t1 = match px_string(v, i) {
        Some(t) => t,
        None => {
            return None;
        },
    };
    let lab = t1.0;
    let j1 = t1.1;
    let lit = chars_of(":");
    let j2 = match px_expect(v, j1, &lit) {
        Some(j) => j,
        None => {
            return None;
        },
    };
    let t2 = match px_package(v, j2) {
        Some(t) => t,
        None => {
            return None;
        },
    };
    Some(((string_from_chars(&lab), t2.0), t2.1))
}

/// Parses a non-empty entry list at position `i`.
fn px_entries(v: &Vec<char>, i: usize) -> (r: Option<(Vec<(String, Package)>, usize)>)
    requires
        i <= v@.len(),
    ensures
        match r {
            Some(t) => i <= t.1 <= v@.len() && p_entries(v@.skip(i as int)) == Some(
                (t.0@.map_values(|e: (String, Package)| (e.0@, e.1@)), v@.skip(t.1 as int)),
            ),
            None => p_entries(v@.skip(i as int)) is None,
        },
    decreases v@.len() - i,
{
    let n = v.len();
    let t1 = match px_entry(v, i) {
        Some(t) => t,
        None => {
            return None;
        },
    };
    let e = t1.0;
    let j = t1.1;
    let ghost rsuf = v@.skip(j as int);
    if j < n && v[j] == ',' {
        proof {
            assert(rsuf[0] == v@[j as int]);
        }
        if j > i {
            proof {
                assert(rsuf.skip(1) =~= v@.skip(j + 1));
            }
            match px_entries(v, j + 1) {
                Some(tj) => {
                    let mut es = tj.0;
                    let j2 = tj.1;
                    let ghost es0 = es@;
                    es.insert(0, e);
                    proof {
                        assert(es@ =~= seq![(es@[0])] + es0);
                        assert(es@[0] == e);
                        assert(es@.map_values(|x: (String, Package)| (x.0@, x.1@)) =~= seq![
                            (e.0@, e.1@),
                        ] + es0.map_values(|x: (String, Package)| (x.0@, x.1@)));
                    }
                    Some((es, j2))
                },
                None => None,
            }
        } else {
            None
        }
    } else {
        proof {
            if j < n {
                assert(rsuf[0] == v@[j as int]);
            } else {
                assert(rsuf.len() == 0);
            }
        }
        let mut es: Vec<(String, Package)> = Vec::new();
        es.push(e);
        proof {
            assert(es@.map_values(|x: (String, Package)| (x.0@, x.1@)) =~= seq![(es@[0].0@, es@[0].1@)]);
        }
        Some((es, j))
    }
}

/// Deserializes a persisted catalog text. `None` means the text is not a
/// valid persisted catalog (the store calls that corrupt).
pub fn load_catalog(s: &String) -> (r: Option<Catalog>)
    ensures
        match r {
            Some(c) => spec_load(s@) == Some(c@) && c.wf(),
            None => spec_load(s@) is None,
        },
{
    let v = chars_of(s.as_str());
    proof {
        assert(v@.skip(0) =~= v@);
    }
    let lit_open = chars_of("{");
    let lit_close = chars_of("}");
    let j0 = match px_expect(&v, 0, &lit_open) {
        Some(j) => j,
        None => {
            return None;
        },
    };
    match px_expect(&v, j0, &lit_close) {
        Some(j1) => {
            if j1 == v.len() {
                let c = Catalog::new();
                proof {
                    assert(v@.skip(j1 as int).len() == 0);
                    assert(fold_insert(Seq::<(Seq<char>, PackageModel)>::empty())
                        =~= Seq::<(Seq<char>, PackageModel)>::empty());
                }
                return Some(c);
            } else {
                proof {
                    assert(v@.skip(j1 as int).len() != 0);
                }
                return None;
            }
        },
        None => {},
    }
    let t = match px_entries(&v, j0) {
        Some(t) => t,
        None => {
            return None;
        },
    };
    let pairs = t.0;
    let j2 = t.1;
    let j3 = match px_expect(&v, j2, &lit_close) {
        Some(j) => j,
        None => {
            return None;
        },
    };
    if j3 != v.len() {
        proof {
            assert(v@.skip(j3 as int).len() != 0);
        }
        return None;
    }
    proof {
        assert(v@.skip(j3 as int).len() == 0);
    }
    let ghost pm = pairs@.map_values(|e: (String, Package)| (e.0@, e.1@));
    let mut c = Catalog::new();
    let np = pairs.len();
    let mut k: usize = 0;
    proof {
        assert(pm.take(0) =~= Seq::<(Seq<char>, PackageModel)>::empty());
        assert(c@ =~= fold_insert(pm.take(0)));
    }
    while k < np
        invariant
            k <= np,
            np == pairs@.len(),
            pm == pairs@.map_values(|e: (String, Package)| (e.0@, e.1@)),
            c.wf(),
            c@ == fold_insert(pm.take(k as int)),
        decreases np - k,
    {
        let e = &pairs[k];
        c.insert(e.0.clone(), e.1.duplicate());
        proof {
            assert(pm.take(k + 1).drop_last() =~= pm.take(k as int));
            assert(pm.take(k + 1).last() == pm[k as int]);
            assert(pm[k as int] == (pairs@[k as int].0@, pairs@[k as int].1@));
            assert(c@ == fold_insert(pm.take(k + 1)));
        }
        k += 1;
    }
    proof {
        assert(pm.take(np as int) =~= pm);
    }
    Some(c)
}

} // verus!
