//! Text utilities of the update planner and the dev loop: leftmost
//! non-overlapping replacement, error-text cleanup, joining, suffix
//! tests, and decimal rendering of hashes.

use vstd::prelude::*;

verus! {

/// Leftmost non-overlapping replacement of `pat` by `rep` in `s`.
pub open spec fn spec_replace_all(s: Seq<char>, pat: Seq<char>, rep: Seq<char>) -> Seq<char>
    decreases s.len(),
{
    if s.len() == 0 {
        s
    } else if 0 < pat.len() <= s.len() && s.subrange(0, pat.len() as int) == pat {
        rep + spec_replace_all(s.subrange(pat.len() as int, s.len() as int), pat, rep)
    } else {
        seq![s[0]] + spec_replace_all(s.subrange(1, s.len() as int), pat, rep)
    }
}

/// Replaces every leftmost occurrence of `pat` in `s` by `rep`.
pub fn replace_all(s: &str, pat: &str, rep: &str) -> (r: String)
    requires
        pat@.len() > 0,
    ensures
        r@ == spec_replace_all(s@, pat@, rep@),
    decreases s@.len(),
{
    let n = s.unicode_len();
    let m = pat.unicode_len();
    if n == 0 {
        let r = String::new();
        proof {
            assert(r@ =~= s@);
        }
        return r;
    }
    if m <= n && crate::ident::str_eq(s.substring_char(0, m), pat) {
        let rest = replace_all(s.substring_char(m, n), pat, rep);
        rep.to_owned().concat(rest.as_str())
    } else {
        let first = s.substring_char(0, 1);
        let rest = replace_all(s.substring_char(1, n), pat, rep);
        let r = first.to_owned().concat(rest.as_str());
        proof {
            assert(s@.subrange(0, 1) =~= seq![s@[0]]);
        }
        r
    }
}

/// Strips one pair of surrounding double quotes, if present.
pub open spec fn spec_trim_quotes(s: Seq<char>) -> Seq<char> {
    if s.len() >= 2 && s[0] == '"' && s[s.len() - 1] == '"' {
        s.subrange(1, s.len() - 1)
    } else {
        s
    }
}

pub fn trim_quotes(s: &str) -> (r: String)
    ensures
        r@ == spec_trim_quotes(s@),
{
    let n = s.unicode_len();
    if n >= 2 && s.get_char(0) == '"' && s.get_char(n - 1) == '"' {
        s.substring_char(1, n - 1).to_owned()
    } else {
        s.to_owned()
    }
}

/// The cleanup applied to build-error text before printing: unescape
/// newlines, escape sequences and backslashes, then drop surrounding
/// quotes.
pub open spec fn spec_clean_error(s: Seq<char>) -> Seq<char> {
    spec_trim_quotes(
        spec_replace_all(
            spec_replace_all(
                spec_replace_all(s, "\\n"@, "\n"@),
                "\\u{1b}"@,
                "\u{1b}"@,
            ),
            "\\\\"@,
            "\\"@,
        ),
    )
}

pub fn clean_error_text(s: &str) -> (r: String)
    ensures
        r@ == spec_clean_error(s@),
{
    proof {
        reveal_strlit("\\n");
        reveal_strlit("\\u{1b}");
        reveal_strlit("\\\\");
    }
    let step1 = replace_all(s, "\\n", "\n");
    let step2 = replace_all(step1.as_str(), "\\u{1b}", "\u{1b}");
    let step3 = replace_all(step2.as_str(), "\\\\", "\\");
    trim_quotes(step3.as_str())
}

/// The elements joined by `sep`.
pub open spec fn spec_join(items: Seq<Seq<char>>, sep: Seq<char>) -> Seq<char>
    decreases items.len(),
{
    if items.len() == 0 {
        Seq::empty()
    } else if items.len() == 1 {
        items[0]
    } else {
        spec_join(items.drop_last(), sep) + sep + items.last()
    }
}

/// Joins error strings with `", "`, as the add phase aggregates them.
pub fn join_errors(items: &Vec<String>, sep: &str) -> (r: String)
    ensures
        r@ == spec_join(items@.map_values(|s: String| s@), sep@),
{
    let n = items.len();
    let mut r = String::new();
    let mut i: usize = 0;
    proof {
        assert(items@.map_values(|s: String| s@).subrange(0, 0) =~= Seq::<Seq<char>>::empty());
    }
    while i < n
        invariant
            0 <= i <= n,
            n == items@.len(),
            r@ == spec_join(items@.map_values(|s: String| s@).subrange(0, i as int), sep@),
        decreases n - i,
    {
        if i > 0 {
            r.append(sep);
        }
        r.append(items[i].as_str());
        proof {
            let views = items@.map_values(|s: String| s@);
            let sub1 = views.subrange(0, i as int + 1);
            assert(sub1.drop_last() =~= views.subrange(0, i as int));
            assert(sub1.last() == views[i as int]);
            if i == 0 {
                assert(r@ =~= spec_join(sub1, sep@));
            }
        }
        i = i + 1;
    }
    proof {
        assert(items@.map_values(|s: String| s@).subrange(0, n as int) =~= items@.map_values(
            |s: String| s@,
        ));
    }
    r
}

/// Whether `s` ends with `suffix`.
pub open spec fn seq_ends_with(s: Seq<char>, suffix: Seq<char>) -> bool {
    s.len() >= suffix.len() && s.subrange(s.len() - suffix.len(), s.len() as int) == suffix
}

pub fn str_ends_with(s: &str, suffix: &str) -> (r: bool)
    ensures
        r == seq_ends_with(s@, suffix@),
{
    let n = s.unicode_len();
    let m = suffix.unicode_len();
    if m > n {
        return false;
    }
    crate::ident::str_eq(s.substring_char(n - m, n), suffix)
}

/// Whether `s` starts with `prefix`.
pub open spec fn seq_starts_with(s: Seq<char>, prefix: Seq<char>) -> bool {
    s.len() >= prefix.len() && s.subrange(0, prefix.len() as int) == prefix
}

pub fn str_starts_with(s: &str, prefix: &str) -> (r: bool)
    ensures
        r == seq_starts_with(s@, prefix@),
{
    let n = s.unicode_len();
    let m = prefix.unicode_len();
    if m > n {
        return false;
    }
    crate::ident::str_eq(s.substring_char(0, m), prefix)
}

/// The decimal digits of `v`, most significant first.
pub open spec fn spec_u64_decimal(v: nat) -> Seq<char>
    decreases v,
{
    let digit = seq![digit_char((v % 10) as int)];
    if v < 10 {
        digit
    } else {
        spec_u64_decimal(v / 10) + digit
    }
}

/// The character of one decimal digit.
pub open spec fn digit_char(d: int) -> char {
    if d == 0 {
        '0'
    } else if d == 1 {
        '1'
    } else if d == 2 {
        '2'
    } else if d == 3 {
        '3'
    } else if d == 4 {
        '4'
    } else if d == 5 {
        '5'
    } else if d == 6 {
        '6'
    } else if d == 7 {
        '7'
    } else if d == 8 {
        '8'
    } else {
        '9'
    }
}

/// A one-character string holding one decimal digit.
fn digit_string(d: u64) -> (r: String)
    requires
        d < 10,
    ensures
        r@ == seq![digit_char(d as int)],
{
    proof {
        reveal_strlit("0123456789");
    }
    let digits = "0123456789";
    let r = digits.substring_char(d as usize, d as usize + 1).to_owned();
    proof {
        assert(r@ =~= seq![digit_char(d as int)]);
    }
    r
}

/// Renders `v` in decimal, as the hash appears on the wire.
pub fn u64_to_decimal(v: u64) -> (r: String)
    ensures
        r@ == spec_u64_decimal(v as nat),
    decreases v,
{
    let digit_str = digit_string(v % 10);
    let prefix = if v < 10 {
        String::new()
    } else {
        u64_to_decimal(v / 10)
    };
    let r = prefix.concat(digit_str.as_str());
    proof {
        if v < 10 {
            assert(r@ =~= spec_u64_decimal(v as nat));
        }
    }
    r
}

/// Position of the first occurrence of `c` in `s`, or `s.len()`.
pub open spec fn first_char_pos(s: Seq<char>, c: char) -> int
    decreases s.len(),
{
    if s.len() == 0 {
        0
    } else if s[0] == c {
        0
    } else {
        1 + first_char_pos(s.subrange(1, s.len() as int), c)
    }
}

pub proof fn lemma_first_char_pos(s: Seq<char>, c: char)
    ensures
        0 <= first_char_pos(s, c) <= s.len(),
        forall|k: int| 0 <= k < first_char_pos(s, c) ==> s[k] != c,
        first_char_pos(s, c) < s.len() ==> s[first_char_pos(s, c)] == c,
    decreases s.len(),
{
    if s.len() != 0 && s[0] != c {
        let t = s.subrange(1, s.len() as int);
        lemma_first_char_pos(t, c);
        assert(forall|k: int| 1 <= k < first_char_pos(s, c) ==> s[k] == t[k - 1] && t[k - 1] != c);
    }
}

pub proof fn lemma_first_char_pos_unique(s: Seq<char>, c: char, p: int)
    requires
        0 <= p <= s.len(),
        forall|k: int| 0 <= k < p ==> s[k] != c,
        p < s.len() ==> s[p] == c,
    ensures
        first_char_pos(s, c) == p,
    decreases s.len(),
{
    if s.len() != 0 && s[0] != c {
        let t = s.subrange(1, s.len() as int);
        assert(forall|k: int| 0 <= k < p - 1 ==> t[k] == s[k + 1] && s[k + 1] != c);
        lemma_first_char_pos_unique(t, c, p - 1);
    }
}

/// Index of the first occurrence of `c` in `s`, or its length.
pub fn find_char(s: &str, c: char) -> (i: usize)
    ensures
        i == first_char_pos(s@, c),
{
    let n = s.unicode_len();
    let mut i: usize = 0;
    while i < n
        invariant
            0 <= i <= n,
            n == s@.len(),
            forall|k: int| 0 <= k < i ==> s@[k] != c,
        decreases n - i,
    {
        if s.get_char(i) == c {
            proof {
                lemma_first_char_pos_unique(s@, c, i as int);
            }
            return i;
        }
        i = i + 1;
    }
    proof {
        lemma_first_char_pos_unique(s@, c, n as int);
    }
    n
}

/// Whether `pat` occurs in `s` at some offset.
pub open spec fn seq_contains_at(s: Seq<char>, pat: Seq<char>, off: int) -> bool {
    0 <= off && off + pat.len() <= s.len() && s.subrange(off, off + pat.len()) == pat
}

/// Whether `pat` occurs anywhere in `s`.
pub open spec fn seq_contains(s: Seq<char>, pat: Seq<char>) -> bool {
    exists|off: int| seq_contains_at(s, pat, off)
}

/// Whether `pat` occurs as a substring of `s`.
pub fn str_contains(s: &str, pat: &str) -> (r: bool)
    ensures
        r == seq_contains(s@, pat@),
{
    let n = s.unicode_len();
    let m = pat.unicode_len();
    if m > n {
        proof {
            assert forall|off: int| !seq_contains_at(s@, pat@, off) by {};
        }
        return false;
    }
    if m == 0 {
        proof {
            assert(s@.subrange(0, 0) =~= pat@);
            assert(seq_contains_at(s@, pat@, 0));
        }
        return true;
    }
    let last = n - m;
    let mut off: usize = 0;
    while off <= last
        invariant
            0 <= off <= last + 1,
            last == n - m,
            1 <= m <= n,
            n == s@.len(),
            m == pat@.len(),
            forall|o: int| 0 <= o < off ==> !seq_contains_at(s@, pat@, o),
        decreases last + 1 - off,
    {
        if crate::ident::str_eq(s.substring_char(off, off + m), pat) {
            proof {
                assert(seq_contains_at(s@, pat@, off as int));
            }
            return true;
        }
        off = off + 1;
    }
    proof {
        assert forall|o: int| !seq_contains_at(s@, pat@, o) by {
            if 0 <= o && o + pat@.len() <= s@.len() {
                assert(o < off);
            }
        };
    }
    false
}

} // verus!
