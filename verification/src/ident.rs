//! Identifier utilities.
//!
//! Identifiers may carry a syntactic-context tag: an opaque marker that
//! parser passes append after a `#`, as in `foo#2`. Equality is two-tier:
//! symbol-only, or symbol plus context when both sides carry one.

use vstd::prelude::*;

verus! {

/// Position of the first `#` in `s`, or `s.len()` when there is none.
pub open spec fn first_hash_pos(s: Seq<char>) -> int
    decreases s.len(),
{
    if s.len() == 0 {
        0
    } else if s[0] == '#' {
        0
    } else {
        1 + first_hash_pos(s.subrange(1, s.len() as int))
    }
}

pub proof fn lemma_first_hash_pos(s: Seq<char>)
    ensures
        0 <= first_hash_pos(s) <= s.len(),
        forall|k: int| 0 <= k < first_hash_pos(s) ==> s[k] != '#',
        first_hash_pos(s) < s.len() ==> s[first_hash_pos(s)] == '#',
    decreases s.len(),
{
    if s.len() != 0 && s[0] != '#' {
        let t = s.subrange(1, s.len() as int);
        lemma_first_hash_pos(t);
        assert(forall|k: int| 1 <= k < first_hash_pos(s) ==> s[k] == t[k - 1] && t[k - 1] != '#');
    }
}

/// `first_hash_pos` is the only position with no `#` before it that is
/// either the end of the string or a `#`.
pub proof fn lemma_first_hash_pos_unique(s: Seq<char>, p: int)
    requires
        0 <= p <= s.len(),
        forall|k: int| 0 <= k < p ==> s[k] != '#',
        p < s.len() ==> s[p] == '#',
    ensures
        first_hash_pos(s) == p,
    decreases s.len(),
{
    if s.len() != 0 && s[0] != '#' {
        let t = s.subrange(1, s.len() as int);
        assert(forall|k: int| 0 <= k < p - 1 ==> t[k] == s[k + 1] && s[k + 1] != '#');
        lemma_first_hash_pos_unique(t, p - 1);
    }
}

/// The bare symbol: everything before the first `#`.
pub open spec fn sym_of(s: Seq<char>) -> Seq<char> {
    s.subrange(0, first_hash_pos(s))
}

/// Whether the identifier carries a context tag.
pub open spec fn has_ctxt(s: Seq<char>) -> bool {
    first_hash_pos(s) < s.len()
}

/// The context tag: everything after the first `#`.
pub open spec fn ctxt_of(s: Seq<char>) -> Seq<char>
    recommends
        has_ctxt(s),
{
    s.subrange(first_hash_pos(s) + 1, s.len() as int)
}

/// Symbol-only identifier equality.
pub open spec fn ident_sym_eq(a: Seq<char>, b: Seq<char>) -> bool {
    sym_of(a) == sym_of(b)
}

/// Full identifier equality: the symbols must agree, and the contexts too
/// when both sides carry one.
pub open spec fn ident_eq(a: Seq<char>, b: Seq<char>) -> bool {
    if has_ctxt(a) && has_ctxt(b) {
        sym_of(a) == sym_of(b) && ctxt_of(a) == ctxt_of(b)
    } else {
        sym_of(a) == sym_of(b)
    }
}

/// Index of the first `#` in `s`, or its length when there is none.
fn find_hash(s: &str) -> (i: usize)
    ensures
        i == first_hash_pos(s@),
{
    let n = s.unicode_len();
    let mut i: usize = 0;
    while i < n
        invariant
            0 <= i <= n,
            n == s@.len(),
            forall|k: int| 0 <= k < i ==> s@[k] != '#',
        decreases n - i,
    {
        if s.get_char(i) == '#' {
            proof {
                lemma_first_hash_pos_unique(s@, i as int);
            }
            return i;
        }
        i = i + 1;
    }
    proof {
        lemma_first_hash_pos_unique(s@, n as int);
    }
    n
}

/// String equality on views.
pub fn str_eq(a: &str, b: &str) -> (r: bool)
    ensures
        r == (a@ == b@),
{
    let sa = a.to_owned();
    let sb = b.to_owned();
    sa.eq(&sb)
}

/// Removes any trailing context annotation, yielding the bare symbol.
pub fn strip_context(ident: &str) -> (r: String)
    ensures
        r@ == sym_of(ident@),
{
    let p = find_hash(ident);
    proof {
        lemma_first_hash_pos(ident@);
    }
    ident.substring_char(0, p).to_owned()
}

/// Compares the textual symbol only, ignoring context tags.
pub fn is_ident_sym_equal(a: &str, b: &str) -> (r: bool)
    ensures
        r == ident_sym_eq(a@, b@),
{
    let sa = strip_context(a);
    let sb = strip_context(b);
    sa.eq(&sb)
}

/// Compares symbol and, when both sides carry one, context.
pub fn is_ident_equal(a: &str, b: &str) -> (r: bool)
    ensures
        r == ident_eq(a@, b@),
{
    let an = a.unicode_len();
    let bn = b.unicode_len();
    let pa = find_hash(a);
    let pb = find_hash(b);
    proof {
        lemma_first_hash_pos(a@);
        lemma_first_hash_pos(b@);
    }
    let syms_equal = is_ident_sym_equal(a, b);
    if pa < an && pb < bn {
        let ca = a.substring_char(pa + 1, an);
        let cb = b.substring_char(pb + 1, bn);
        syms_equal && ca.to_owned().eq(&cb.to_owned())
    } else {
        syms_equal
    }
}

} // verus!
