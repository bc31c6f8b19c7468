//! Character-level text utilities: case folding, substring search,
//! line splitting, pattern removal, trimming and integer parsing.
//!
//! All logic works on `Vec<char>` / `Seq<char>`; the only trusted code is
//! the pair of conversions between `str` and `Vec<char>`.

use vstd::prelude::*;
use vstd::string::*;

verus! {

/// Relies on str::chars together with Iterator::collect for Vec:
/// the collected vector holds exactly the characters of the string, in order.
#[verifier::external_body]
pub(crate) fn chars_of(s: &str) -> (r: Vec<char>)
    ensures
        r@ == s@,
{
    s.chars().collect()
}

/// Relies on String's FromIterator<char> impl: collecting characters
/// yields the string of exactly those characters, in order.
#[verifier::external_body]
pub(crate) fn string_from_chars(v: &Vec<char>) -> (r: String)
    ensures
        r@ == v@,
{
    v.iter().collect()
}

/// Whether two character vectors hold the same characters.
pub fn eq_chars(a: &Vec<char>, b: &Vec<char>) -> (r: bool)
    ensures
        r == (a@ == b@),
{
    if a.len() != b.len() {
        return false;
    }
    let mut i: usize = 0;
    while i < a.len()
        invariant
            i <= a@.len(),
            a@.len() == b@.len(),
            forall|k: int| 0 <= k < i ==> a@[k] == b@[k],
        decreases a@.len() - i,
    {
        if a[i] != b[i] {
            return false;
        }
        i += 1;
    }
    proof {
        assert(a@ =~= b@);
    }
    true
}

/// Whether two string slices hold the same characters.
pub fn str_eq(a: &str, b: &str) -> (r: bool)
    ensures
        r == (a@ == b@),
{
    let ca = chars_of(a);
    let cb = chars_of(b);
    eq_chars(&ca, &cb)
}

/// ASCII lower-casing of one character; everything outside 'A'..='Z'
/// is unchanged.
pub open spec fn lower_char(c: char) -> char {
    if 65 <= c as int && c as int <= 90 {
        ((c as int + 32) as u8) as char
    } else {
        c
    }
}

/// ASCII lower-casing of a character sequence.
pub open spec fn lower(s: Seq<char>) -> Seq<char> {
    s.map_values(|c: char| lower_char(c))
}

/// Lower-cases the ASCII letters of `s`; other characters are unchanged.
pub fn lower_ascii(s: &str) -> (r: String)
    ensures
        r@ == lower(s@),
{
    let cs = chars_of(s);
    let mut out: Vec<char> = Vec::new();
    let mut i: usize = 0;
    while i < cs.len()
        invariant
            i <= cs@.len(),
            cs@ == s@,
            out@ == lower(s@).take(i as int),
        decreases cs@.len() - i,
    {
        let c = cs[i];
        let u = c as u32;
        if 65 <= u && u <= 90 {
            out.push(((u + 32) as u8) as char);
        } else {
            out.push(c);
        }
        proof {
            assert(lower(s@).take(i + 1) =~= lower(s@).take(i as int).push(lower_char(s@[i as int])));
        }
        i += 1;
    }
    proof {
        assert(out@ =~= lower(s@));
    }
    string_from_chars(&out)
}

/// `needle` occurs contiguously somewhere in `hay` (the empty sequence
/// occurs in everything).
pub open spec fn is_substr(needle: Seq<char>, hay: Seq<char>) -> bool {
    exists|k: int|
        0 <= k <= hay.len() - needle.len() && #[trigger] hay.subrange(k, k + needle.len())
            == needle
}

/// Whether the characters of `pat` appear in `s` starting at index `at`.
pub(crate) fn match_at(s: &Vec<char>, at: usize, pat: &Vec<char>) -> (r: bool)
    requires
        at + pat@.len() <= s@.len(),
    ensures
        r == (s@.subrange(at as int, at + pat@.len()) == pat@),
{
    let slen = s.len();
    let mut m: usize = 0;
    while m < pat.len()
        invariant
            m <= pat@.len(),
            at + pat@.len() <= s@.len(),
            slen == s@.len(),
            forall|k: int| 0 <= k < m ==> s@[at + k] == pat@[k],
        decreases pat@.len() - m,
    {
        if s[at + m] != pat[m] {
            proof {
                assert(s@.subrange(at as int, at + pat@.len())[m as int] != pat@[m as int]);
            }
            return false;
        }
        m += 1;
    }
    proof {
        assert(s@.subrange(at as int, at + pat@.len()) =~= pat@);
    }
    true
}

/// Whether `needle` occurs contiguously in `hay`.
pub fn contains_chars(hay: &Vec<char>, needle: &Vec<char>) -> (r: bool)
    ensures
        r == is_substr(needle@, hay@),
{
    if needle.len() > hay.len() {
        return false;
    }
    if needle.len() == 0 {
        proof {
            assert(hay@.subrange(0, 0 + needle@.len() as int) =~= needle@);
        }
        return true;
    }
    let mut k: usize = 0;
    while k <= hay.len() - needle.len()
        invariant
            0 < needle@.len() <= hay@.len(),
            k <= hay@.len() - needle@.len() + 1,
            forall|j: int|
                0 <= j < k ==> #[trigger] hay@.subrange(j, j + needle@.len()) != needle@,
        decreases hay@.len() - needle@.len() + 1 - k,
    {
        if match_at(hay, k, needle) {
            return true;
        }
        k += 1;
    }
    false
}

/// Index of the first occurrence of `c` in `s`, or -1 if there is none.
pub open spec fn find_char(s: Seq<char>, c: char) -> int
    decreases s.len(),
{
    if s.len() == 0 {
        -1
    } else if s[0] == c {
        0
    } else {
        let r = find_char(s.drop_first(), c);
        if r == -1 {
            -1
        } else {
            r + 1
        }
    }
}

/// `find_char` returns -1 exactly when `c` does not occur, and otherwise
/// the index of the first occurrence.
pub proof fn lemma_find_char(s: Seq<char>, c: char)
    ensures
        find_char(s, c) == -1 ==> forall|i: int| 0 <= i < s.len() ==> s[i] != c,
        find_char(s, c) != -1 ==> {
            &&& 0 <= find_char(s, c) < s.len()
            &&& s[find_char(s, c)] == c
            &&& forall|i: int| 0 <= i < find_char(s, c) ==> s[i] != c
        },
    decreases s.len(),
{
    if s.len() == 0 {
    } else if s[0] == c {
    } else {
        lemma_find_char(s.drop_first(), c);
        assert forall|i: int| 0 <= i < s.len() && find_char(s, c) == -1 implies s[i] != c by {
            if i > 0 {
                assert(s.drop_first()[i - 1] != c);
            }
        }
        if find_char(s, c) != -1 {
            let r = find_char(s.drop_first(), c);
            assert(s[r + 1] == s.drop_first()[r]);
            assert forall|i: int| 0 <= i < find_char(s, c) implies s[i] != c by {
                if i > 0 {
                    assert(s.drop_first()[i - 1] != c);
                }
            }
        }
    }
}

/// A trailing carriage return is dropped; used on segments that ended
/// with a line feed.
pub open spec fn strip_cr(l: Seq<char>) -> Seq<char> {
    if l.len() > 0 && l[l.len() - 1] == '\r' {
        l.drop_last()
    } else {
        l
    }
}

/// The lines of `s`: split at '\n', with a '\r' immediately before a
/// '\n' removed; a final line ending produces no empty last line.
pub open spec fn spec_lines(s: Seq<char>) -> Seq<Seq<char>>
    decreases s.len(),
{
    if s.len() == 0 {
        seq![]
    } else {
        let i = find_char(s, '\n');
        if i < 0 || i >= s.len() {
            seq![s]
        } else {
            seq![strip_cr(s.take(i))] + spec_lines(s.skip(i + 1))
        }
    }
}

/// Splits `v` into its lines, as `spec_lines` describes.
pub fn split_lines(v: &Vec<char>) -> (r: Vec<Vec<char>>)
    ensures
        r@.map_values(|l: Vec<char>| l@) == spec_lines(v@),
{
    let ghost lm = |l: Vec<char>| l@;
    let mut out: Vec<Vec<char>> = Vec::new();
    let ghost mut glines = Seq::<Seq<char>>::empty();
    let mut cur: Vec<char> = Vec::new();
    let mut pos: usize = 0;
    proof {
        assert(cur@ + v@.skip(0) =~= v@);
        assert(glines + spec_lines(v@) =~= spec_lines(v@));
    }
    while pos < v.len()
        invariant
            pos <= v@.len(),
            forall|k: int| 0 <= k < cur@.len() ==> cur@[k] != '\n',
            spec_lines(v@) == glines + spec_lines(cur@ + v@.skip(pos as int)),
            out@.len() == glines.len(),
            forall|k: int| 0 <= k < out@.len() ==> #[trigger] out@[k]@ == glines[k],
        decreases v@.len() - pos,
    {
        let c = v[pos];
        if c == '\n' {
            let ghost w = cur@ + v@.skip(pos as int);
            let ghost oldcur = cur@;
            proof {
                assert(w[oldcur.len() as int] == '\n');
                lemma_find_char(w, '\n');
                if find_char(w, '\n') != oldcur.len() {
                    let f = find_char(w, '\n');
                    if f == -1 || f > oldcur.len() {
                        assert(w[oldcur.len() as int] != '\n');
                    } else {
                        assert(w[f] == oldcur[f]);
                    }
                }
                assert(find_char(w, '\n') == oldcur.len());
                assert(w.take(oldcur.len() as int) =~= oldcur);
                assert(w.skip(oldcur.len() as int + 1) =~= v@.skip(pos + 1));
                assert(spec_lines(w) == seq![strip_cr(oldcur)] + spec_lines(v@.skip(pos + 1)));
            }
            if cur.len() > 0 && cur[cur.len() - 1] == '\r' {
                cur.pop();
            }
            proof {
                assert(cur@ == strip_cr(oldcur));
            }
            out.push(cur);
            cur = Vec::new();
            proof {
                let oldg = glines;
                glines = glines.push(strip_cr(oldcur));
                assert(cur@ + v@.skip(pos + 1) =~= v@.skip(pos + 1));
                assert(oldg + spec_lines(w) =~= glines + spec_lines(v@.skip(pos + 1)));
            }
        } else {
            let ghost oldcur = cur@;
            cur.push(c);
            proof {
                assert(cur@ + v@.skip(pos + 1) =~= oldcur + v@.skip(pos as int));
            }
        }
        pos += 1;
    }
    proof {
        assert(cur@ + v@.skip(pos as int) =~= cur@);
    }
    if cur.len() > 0 {
        proof {
            lemma_find_char(cur@, '\n');
            if find_char(cur@, '\n') != -1 {
                assert(cur@[find_char(cur@, '\n')] == '\n');
            }
            assert(spec_lines(cur@) == seq![cur@]);
        }
        let ghost oldcur = cur@;
        out.push(cur);
        proof {
            let oldg = glines;
            glines = glines.push(oldcur);
            assert(oldg + seq![oldcur] =~= glines);
        }
    } else {
        proof {
            assert(spec_lines(cur@) =~= Seq::<Seq<char>>::empty());
            assert(glines + spec_lines(cur@) =~= glines);
        }
    }
    proof {
        assert(out@.map_values(lm) =~= glines);
    }
    out
}

/// `s` with every non-overlapping occurrence of `pat` removed, scanning
/// left to right.
pub open spec fn remove_all(s: Seq<char>, pat: Seq<char>) -> Seq<char>
    decreases s.len(),
{
    if pat.len() == 0 || s.len() == 0 {
        s
    } else if s.len() >= pat.len() && s.take(pat.len() as int) == pat {
        remove_all(s.skip(pat.len() as int), pat)
    } else {
        seq![s[0]] + remove_all(s.skip(1), pat)
    }
}

/// Removes every occurrence of `pat` from `s`, scanning left to right.
pub fn remove_all_chars(s: &Vec<char>, pat: &Vec<char>) -> (r: Vec<char>)
    requires
        pat@.len() > 0,
    ensures
        r@ == remove_all(s@, pat@),
{
    let mut out: Vec<char> = Vec::new();
    let mut i: usize = 0;
    proof {
        assert(s@.skip(0) =~= s@);
        assert(out@ + remove_all(s@, pat@) =~= remove_all(s@, pat@));
    }
    while i < s.len()
        invariant
            i <= s@.len(),
            pat@.len() > 0,
            remove_all(s@, pat@) == out@ + remove_all(s@.skip(i as int), pat@),
        decreases s@.len() - i,
    {
        let ghost t = s@.skip(i as int);
        if s.len() - i >= pat.len() && match_at(s, i, pat) {
            proof {
                assert(t.take(pat@.len() as int) =~= s@.subrange(i as int, i + pat@.len()));
                assert(t.skip(pat@.len() as int) =~= s@.skip(i + pat@.len()));
                assert(remove_all(t, pat@) == remove_all(s@.skip(i + pat@.len()), pat@));
            }
            i += pat.len();
        } else {
            proof {
                if t.len() >= pat@.len() {
                    assert(t.take(pat@.len() as int) =~= s@.subrange(i as int, i + pat@.len()));
                }
                assert(remove_all(t, pat@) == seq![t[0]] + remove_all(t.skip(1), pat@));
                assert(t.skip(1) =~= s@.skip(i + 1));
                assert(t[0] == s@[i as int]);
            }
            out.push(s[i]);
            proof {
                assert(out@ + remove_all(s@.skip(i + 1), pat@) =~= out@.drop_last() + remove_all(
                    t,
                    pat@,
                ));
            }
            i += 1;
        }
    }
    proof {
        assert(s@.skip(s@.len() as int) =~= Seq::<char>::empty());
        assert(out@ =~= remove_all(s@, pat@));
    }
    out
}

/// ASCII whitespace, as trimming understands it.  Trimming is ASCII by
/// design: the trimmed texts are tool dumps whose padding is spaces,
/// tabs and line endings.
pub open spec fn is_ws(c: char) -> bool {
    c == ' ' || c == '\t' || c == '\n' || c == '\r'
}

/// `s` without its leading whitespace.
pub open spec fn trim_start(s: Seq<char>) -> Seq<char>
    decreases s.len(),
{
    if s.len() > 0 && is_ws(s[0]) {
        trim_start(s.drop_first())
    } else {
        s
    }
}

/// `s` without its trailing whitespace.
pub open spec fn trim_end(s: Seq<char>) -> Seq<char>
    decreases s.len(),
{
    if s.len() > 0 && is_ws(s[s.len() - 1]) {
        trim_end(s.drop_last())
    } else {
        s
    }
}

/// `s` without leading and trailing whitespace.
pub open spec fn spec_trim(s: Seq<char>) -> Seq<char> {
    trim_end(trim_start(s))
}

/// Trims ASCII whitespace from both ends.
pub fn trim_chars(s: &Vec<char>) -> (r: Vec<char>)
    ensures
        r@ == spec_trim(s@),
{
    let mut a: usize = 0;
    proof {
        assert(s@.skip(0) =~= s@);
    }
    while a < s.len() && is_ws_exec(s[a])
        invariant
            a <= s@.len(),
            trim_start(s@) == trim_start(s@.skip(a as int)),
        decreases s@.len() - a,
    {
        proof {
            assert(s@.skip(a as int).drop_first() =~= s@.skip(a + 1));
        }
        a += 1;
    }
    proof {
        assert(trim_start(s@) == s@.skip(a as int));
    }
    let ghost t = s@.skip(a as int);
    let mut b: usize = s.len();
    proof {
        assert(t.take(b - a as int) =~= t);
    }
    while b > a && is_ws_exec(s[b - 1])
        invariant
            a <= b <= s@.len(),
            t == s@.skip(a as int),
            trim_end(t) == trim_end(t.take(b - a as int)),
        decreases b,
    {
        proof {
            assert(t.take(b - a as int).len() == b - a);
            assert(t.take(b - a as int)[b - a - 1] == s@[b - 1]);
            assert(t.take(b - a as int).drop_last() =~= t.take(b - 1 - a as int));
        }
        b -= 1;
    }
    proof {
        if b == a {
            assert(t.take(0) =~= Seq::<char>::empty());
            assert(trim_end(t.take(b - a as int)) == t.take(b - a as int));
        } else {
            assert(t.take(b - a as int)[b - a - 1] == s@[b - 1]);
            assert(trim_end(t.take(b - a as int)) == t.take(b - a as int));
        }
    }
    let mut out: Vec<char> = Vec::new();
    let mut k: usize = a;
    while k < b
        invariant
            a <= k <= b <= s@.len(),
            out@ == s@.subrange(a as int, k as int),
        decreases b - k,
    {
        out.push(s[k]);
        proof {
            assert(s@.subrange(a as int, k + 1) =~= s@.subrange(a as int, k as int).push(
                s@[k as int],
            ));
        }
        k += 1;
    }
    proof {
        assert(out@ =~= t.take(b - a as int));
    }
    out
}

/// Whether `c` is ASCII whitespace.
pub fn is_ws_exec(c: char) -> (r: bool)
    ensures
        r == is_ws(c),
{
    c == ' ' || c == '\t' || c == '\n' || c == '\r'
}

/// The numeric value of a digit string, most significant digit first.
pub open spec fn digits_val(s: Seq<char>) -> int
    decreases s.len(),
{
    if s.len() == 0 {
        0
    } else {
        digits_val(s.drop_last()) * 10 + (s[s.len() - 1] as u32 - 48)
    }
}

/// Whether every character of `s` is an ASCII digit.
pub open spec fn all_digits(s: Seq<char>) -> bool {
    forall|i: int| 0 <= i < s.len() ==> 48 <= #[trigger] s[i] as u32 <= 57
}

/// The digit part of a number literal: everything after an optional
/// leading '+'.
pub open spec fn digits_part(s: Seq<char>) -> Seq<char> {
    if s.len() > 0 && s[0] == '+' {
        s.drop_first()
    } else {
        s
    }
}

/// What parsing `s` as an 8-bit unsigned integer yields: an optional '+'
/// sign, then at least one digit, with a value of at most 255.
pub open spec fn spec_parse_u8(s: Seq<char>) -> Option<u8> {
    let d = digits_part(s);
    if d.len() > 0 && all_digits(d) && digits_val(d) <= 255 {
        Some(digits_val(d) as u8)
    } else {
        None
    }
}

/// Parses `s` as an 8-bit unsigned integer, as `spec_parse_u8` describes.
pub fn parse_u8_chars(s: &Vec<char>) -> (r: Option<u8>)
    ensures
        r == spec_parse_u8(s@),
{
    let start: usize = if s.len() > 0 && s[0] == '+' {
        1
    } else {
        0
    };
    let ghost d = digits_part(s@);
    proof {
        assert(d =~= s@.skip(start as int));
    }
    if s.len() == start {
        return None;
    }
    let mut val: u32 = 0;
    let mut over: bool = false;
    let mut i: usize = start;
    while i < s.len()
        invariant
            start <= i <= s@.len(),
            d == digits_part(s@),
            d == s@.skip(start as int),
            all_digits(d.take(i - start as int)),
            !over ==> val == digits_val(d.take(i - start as int)) && val <= 255,
            over ==> digits_val(d.take(i - start as int)) > 255,
        decreases s@.len() - i,
    {
        let u = s[i] as u32;
        if u < 48 || u > 57 {
            proof {
                assert(d[i - start as int] == s@[i as int]);
                assert(s@[i as int] as u32 == u);
                assert(!(48 <= d[i - start as int] as u32 <= 57));
                assert(!all_digits(d));
            }
            return None;
        }
        proof {
            assert(d[i - start as int] == s@[i as int]);
            assert(s@[i as int] as u32 == u);
            assert(48 <= d[i - start as int] as u32 <= 57);
            assert(d.take(i + 1 - start as int).drop_last() =~= d.take(i - start as int));
            assert(d.take(i + 1 - start as int)[i - start as int] == s@[i as int]);
        }
        if !over {
            let nv = val * 10 + (u - 48);
            if nv > 255 {
                over = true;
            } else {
                val = nv;
            }
            proof {
                assert(digits_val(d.take(i + 1 - start as int)) == nv);
            }
        } else {
            proof {
                assert(digits_val(d.take(i + 1 - start as int)) == digits_val(
                    d.take(i - start as int),
                ) * 10 + (d[i - start as int] as u32 - 48));
                assert(digits_val(d.take(i - start as int)) * 10 > 2550);
                assert(d[i - start as int] as u32 - 48 >= 0);
            }
        }
        i += 1;
    }
    proof {
        assert(d.take(s@.len() - start as int) =~= d);
    }
    if over {
        None
    } else {
        Some(val as u8)
    }
}

} // verus!
