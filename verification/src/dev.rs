//! Decision logic of the dev loop and the dev server: what a finished
//! rebuild changes, when the new full hash is published, how requests
//! route, and the exact wire format of the hot-update notification.
//!
//! The I/O around these decisions (the watcher, the HTTP server, the
//! WebSocket) lives outside the library and only carries values in and
//! out.

use vstd::prelude::*;

use crate::text::{seq_contains, seq_starts_with, spec_u64_decimal, str_contains,
    str_starts_with, u64_to_decimal};

verus! {

/// The one message pushed to connected clients.
#[derive(Debug, Clone, Copy, PartialEq, Eq, Structural)]
pub struct WsMessage {
    pub hash: u64,
}

/// The text frame sent for a hash: `{"hash":"<decimal>"}`.
pub open spec fn spec_ws_frame(hash: u64) -> Seq<char> {
    "{\"hash\":\""@ + spec_u64_decimal(hash as nat) + "\"}"@
}

pub fn ws_frame(msg: &WsMessage) -> (r: String)
    ensures
        r@ == spec_ws_frame(msg.hash),
{
    let digits = u64_to_decimal(msg.hash);
    "{\"hash\":\"".to_owned().concat(digits.as_str()).concat("\"}")
}

/// What the watch loop does once the hot-update chunks are generated.
#[derive(Debug, Clone, Copy, PartialEq, Eq, Structural)]
pub struct WatchPlan {
    /// Report the hot rebuild (only when no module still has missing
    /// dependencies).
    pub report_hot: bool,
    /// Whether the full hash changed, so dev chunks must be emitted.
    pub emit: bool,
    /// The freshly generated full hash.
    pub next_hash: u64,
}

/// The plan after `generate_hot_update_chunks` returned `next_hash`.
pub open spec fn spec_plan_after_chunks(
    last_hash: u64,
    next_hash: u64,
    missing_empty: bool,
) -> WatchPlan {
    WatchPlan { report_hot: missing_empty, emit: next_hash != last_hash, next_hash }
}

pub fn plan_after_chunks(last_hash: u64, next_hash: u64, missing_empty: bool) -> (p: WatchPlan)
    ensures
        p == spec_plan_after_chunks(last_hash, next_hash, missing_empty),
{
    WatchPlan { report_hot: missing_empty, emit: next_hash != last_hash, next_hash }
}

/// The hash carried into the next round: the fresh one only once its
/// dev chunks were emitted; a failed emit keeps the old hash, so the
/// next file event retries.
pub open spec fn spec_settle_hash(plan: WatchPlan, emit_ok: bool, last_hash: u64) -> u64 {
    if plan.emit && emit_ok {
        plan.next_hash
    } else {
        last_hash
    }
}

pub fn settle_hash(plan: &WatchPlan, emit_ok: bool, last_hash: u64) -> (r: u64)
    ensures
        r == spec_settle_hash(*plan, emit_ok, last_hash),
{
    if plan.emit && emit_ok {
        plan.next_hash
    } else {
        last_hash
    }
}

/// Whether the new hash is published: only after a changed hash whose
/// chunks were emitted, and only when someone is subscribed.
pub open spec fn spec_should_broadcast(emit: bool, emit_ok: bool, receivers: int) -> bool {
    emit && emit_ok && receivers > 0
}

pub fn plan_broadcast(plan: &WatchPlan, emit_ok: bool, receivers: usize) -> (b: Option<
    WsMessage,
>)
    ensures
        (b is Some) == spec_should_broadcast(plan.emit, emit_ok, receivers as int),
        b matches Some(m) ==> m.hash == plan.next_hash,
{
    if plan.emit && emit_ok && receivers > 0 {
        Some(WsMessage { hash: plan.next_hash })
    } else {
        None
    }
}

/// An unchanged full hash is never published, whatever else happened:
/// two successive events that leave the hash alone broadcast nothing,
/// and the carried hash stays put.
pub proof fn lemma_hash_dedup(
    last_hash: u64,
    next_hash: u64,
    missing_empty: bool,
    emit_ok: bool,
    receivers: int,
)
    requires
        next_hash == last_hash,
    ensures
        !spec_should_broadcast(
            spec_plan_after_chunks(last_hash, next_hash, missing_empty).emit,
            emit_ok,
            receivers,
        ),
        spec_settle_hash(
            spec_plan_after_chunks(last_hash, next_hash, missing_empty),
            emit_ok,
            last_hash,
        ) == last_hash,
{
}

/// The leading and trailing `/` trimmed off a public path.
pub open spec fn spec_trim_slashes(s: Seq<char>) -> Seq<char> {
    let start = first_non_slash(s);
    let end = last_non_slash(s);
    if start > end {
        Seq::empty()
    } else {
        s.subrange(start, end + 1)
    }
}

/// The first index holding a character other than `/`, or `s.len()`.
pub open spec fn first_non_slash(s: Seq<char>) -> int
    decreases s.len(),
{
    if s.len() == 0 {
        0
    } else if s[0] != '/' {
        0
    } else {
        1 + first_non_slash(s.subrange(1, s.len() as int))
    }
}

/// The last index holding a character other than `/`, or `-1`.
pub open spec fn last_non_slash(s: Seq<char>) -> int
    decreases s.len(),
{
    if s.len() == 0 {
        -1
    } else if s[s.len() - 1] != '/' {
        s.len() - 1
    } else {
        last_non_slash(s.subrange(0, s.len() - 1))
    }
}

proof fn lemma_first_non_slash_unique(s: Seq<char>, p: int)
    requires
        0 <= p <= s.len(),
        forall|k: int| 0 <= k < p ==> s[k] == '/',
        p < s.len() ==> s[p] != '/',
    ensures
        first_non_slash(s) == p,
    decreases s.len(),
{
    if s.len() != 0 && s[0] == '/' {
        let t = s.subrange(1, s.len() as int);
        assert(forall|k: int| 0 <= k < p - 1 ==> t[k] == s[k + 1] && s[k + 1] == '/');
        lemma_first_non_slash_unique(t, p - 1);
    }
}

proof fn lemma_last_non_slash_unique(s: Seq<char>, p: int)
    requires
        -1 <= p < s.len(),
        forall|k: int| p < k < s.len() ==> s[k] == '/',
        p >= 0 ==> s[p] != '/',
    ensures
        last_non_slash(s) == p,
    decreases s.len(),
{
    if s.len() != 0 && s[s.len() - 1] == '/' {
        let t = s.subrange(0, s.len() - 1);
        assert(forall|k: int| p < k < t.len() ==> t[k] == s[k] && s[k] == '/');
        lemma_last_non_slash_unique(t, p);
    }
}

/// Trims leading and trailing slashes, as the public path is
/// normalized.
pub fn trim_slashes(s: &str) -> (r: String)
    ensures
        r@ == spec_trim_slashes(s@),
{
    let n = s.unicode_len();
    let mut start: usize = 0;
    while start < n && s.get_char(start) == '/'
        invariant
            0 <= start <= n,
            n == s@.len(),
            forall|k: int| 0 <= k < start ==> s@[k] == '/',
        decreases n - start,
    {
        start = start + 1;
    }
    proof {
        lemma_first_non_slash_unique(s@, start as int);
    }
    let mut end: usize = n;
    while end > start && s.get_char(end - 1) == '/'
        invariant
            start <= end <= n,
            n == s@.len(),
            forall|k: int| end <= k < n ==> s@[k] == '/',
            forall|k: int| 0 <= k < start ==> s@[k] == '/',
            start < n ==> s@[start as int] != '/',
        decreases end,
    {
        end = end - 1;
    }
    if end == start {
        proof {
            assert(start == n);
            lemma_last_non_slash_unique(s@, -1);
        }
        let r = String::new();
        proof {
            assert(r@ =~= spec_trim_slashes(s@));
        }
        r
    } else {
        proof {
            lemma_last_non_slash_unique(s@, end as int - 1);
        }
        s.substring_char(start, end).to_owned()
    }
}

/// The first occurrence of `pat` removed from `s`; `s` itself when
/// `pat` is empty or absent.
pub open spec fn spec_remove_first(s: Seq<char>, pat: Seq<char>) -> Seq<char>
    decreases s.len(),
{
    if pat.len() == 0 || s.len() < pat.len() {
        s
    } else if s.subrange(0, pat.len() as int) == pat {
        s.subrange(pat.len() as int, s.len() as int)
    } else {
        seq![s[0]] + spec_remove_first(s.subrange(1, s.len() as int), pat)
    }
}

/// Removes the first occurrence of `pat` from `s`, as the public-path
/// prefix is stripped from a request URI once.
pub fn remove_first(s: &str, pat: &str) -> (r: String)
    ensures
        r@ == spec_remove_first(s@, pat@),
    decreases s@.len(),
{
    let n = s.unicode_len();
    let m = pat.unicode_len();
    if m == 0 || n < m {
        return s.to_owned();
    }
    if crate::ident::str_eq(s.substring_char(0, m), pat) {
        s.substring_char(m, n).to_owned()
    } else {
        let first = s.substring_char(0, 1);
        let rest = remove_first(s.substring_char(1, n), pat);
        let r = first.to_owned().concat(rest.as_str());
        proof {
            assert(s@.subrange(0, 1) =~= seq![s@[0]]);
        }
        r
    }
}

/// Where a request goes.
#[derive(Debug)]
pub enum RouteDecision {
    /// Accept the WebSocket upgrade and subscribe the client.
    WebSocket,
    /// The reserved path without an upgrade: an empty 404.
    NotFoundEmpty,
    /// Serve the carried URI from the hot-update directory, falling
    /// back to the build output directory.
    Serve(String),
    /// A 404 with the "page not found" body.
    NotFound,
}

/// Routing, given the request path with its leading `/` stripped, the
/// full URI, the configured public path, and whether the request asks
/// for a WebSocket upgrade.
pub fn route_request(path: &str, uri: &str, public_path: &str, is_upgrade: bool) -> (r:
    RouteDecision)
    ensures
        path@ == "__/hmr-ws"@ ==> (is_upgrade ==> r is WebSocket) && (!is_upgrade
            ==> r is NotFoundEmpty),
        path@ != "__/hmr-ws"@ && seq_starts_with(path@, spec_trim_slashes(public_path@)) ==> (
        r matches RouteDecision::Serve(u) && u@ == (if public_path@.len() > 0 {
            spec_remove_first(uri@, spec_trim_slashes(public_path@))
        } else {
            uri@
        })),
        path@ != "__/hmr-ws"@ && !seq_starts_with(path@, spec_trim_slashes(public_path@))
            ==> r is NotFound,
{
    if crate::ident::str_eq(path, "__/hmr-ws") {
        if is_upgrade {
            RouteDecision::WebSocket
        } else {
            RouteDecision::NotFoundEmpty
        }
    } else {
        let stripped = trim_slashes(public_path);
        if str_starts_with(path, stripped.as_str()) {
            if public_path.unicode_len() > 0 {
                RouteDecision::Serve(remove_first(uri, stripped.as_str()))
            } else {
                RouteDecision::Serve(uri.to_owned())
            }
        } else {
            RouteDecision::NotFound
        }
    }
}

/// The replacement content type, when the served response's type names
/// JavaScript or text: the served type with `; charset=utf-8` appended.
pub fn rewrite_content_type(content_type: &str) -> (r: Option<String>)
    ensures
        (r is Some) == (seq_contains(content_type@, "javascript"@) || seq_contains(
            content_type@,
            "text"@,
        )),
        r matches Some(s) ==> s@ == content_type@ + "; charset=utf-8"@,
{
    if str_contains(content_type, "javascript") || str_contains(content_type, "text") {
        Some(content_type.to_owned().concat("; charset=utf-8"))
    } else {
        None
    }
}

/// The numeric value of a digit character, or 10 for any other.
pub open spec fn spec_digit_val(c: char) -> int {
    if c == '0' {
        0
    } else if c == '1' {
        1
    } else if c == '2' {
        2
    } else if c == '3' {
        3
    } else if c == '4' {
        4
    } else if c == '5' {
        5
    } else if c == '6' {
        6
    } else if c == '7' {
        7
    } else if c == '8' {
        8
    } else if c == '9' {
        9
    } else {
        10
    }
}

/// Whether every character of `s` is a decimal digit.
pub open spec fn spec_all_digits(s: Seq<char>) -> bool {
    forall|k: int| 0 <= k < s.len() ==> spec_digit_val(s[k]) < 10
}

/// The number the digits denote.
pub open spec fn spec_dec_value(s: Seq<char>) -> int
    decreases s.len(),
{
    if s.len() == 0 {
        0
    } else {
        spec_dec_value(s.drop_last()) * 10 + spec_digit_val(s.last())
    }
}

fn digit_val(c: char) -> (d: u32)
    ensures
        d == spec_digit_val(c),
{
    match c {
        '0' => 0,
        '1' => 1,
        '2' => 2,
        '3' => 3,
        '4' => 4,
        '5' => 5,
        '6' => 6,
        '7' => 7,
        '8' => 8,
        '9' => 9,
        _ => 10,
    }
}

/// Parses the configured HMR port. `Some` exactly on a non-empty
/// string of digits denoting a number no larger than a port can hold.
pub fn parse_port(s: &str) -> (r: Option<u16>)
    ensures
        (r is Some) == (s@.len() > 0 && spec_all_digits(s@) && spec_dec_value(s@) <= u16::MAX),
        r matches Some(p) ==> p == spec_dec_value(s@),
{
    let n = s.unicode_len();
    if n == 0 {
        return None;
    }
    let mut acc: u32 = 0;
    let mut i: usize = 0;
    while i < n
        invariant
            0 <= i <= n,
            n == s@.len(),
            spec_all_digits(s@.subrange(0, i as int)),
            acc == spec_dec_value(s@.subrange(0, i as int)),
            acc <= u16::MAX,
        decreases n - i,
    {
        let d = digit_val(s.get_char(i));
        proof {
            let sub0 = s@.subrange(0, i as int);
            let sub1 = s@.subrange(0, i as int + 1);
            assert(sub1.drop_last() =~= sub0);
            assert(sub1.last() == s@[i as int]);
        }
        if d >= 10 {
            return None;
        }
        let next = acc * 10 + d;
        if next > 65535 {
            proof {
                if spec_all_digits(s@) {
                    lemma_dec_value_monotone(s@, i as int + 1);
                }
            }
            return None;
        }
        acc = next;
        i = i + 1;
    }
    proof {
        assert(s@.subrange(0, n as int) =~= s@);
    }
    Some(acc as u16)
}

/// A longer digit string denotes at least as much as its prefix.
proof fn lemma_dec_value_monotone(s: Seq<char>, p: int)
    requires
        0 <= p <= s.len(),
        spec_all_digits(s),
    ensures
        spec_dec_value(s) >= spec_dec_value(s.subrange(0, p)),
    decreases s.len() - p,
{
    if p < s.len() {
        lemma_dec_value_monotone(s, p + 1);
        let sub0 = s.subrange(0, p);
        let sub1 = s.subrange(0, p + 1);
        assert(sub1.drop_last() =~= sub0);
        assert(spec_digit_val(sub1.last()) >= 0);
        assert(spec_dec_value(sub0) >= 0) by {
            lemma_dec_value_nonneg(sub0);
        };
        assert(spec_dec_value(sub1) >= spec_dec_value(sub0));
    } else {
        assert(s.subrange(0, p) =~= s);
    }
}

proof fn lemma_dec_value_nonneg(s: Seq<char>)
    ensures
        spec_dec_value(s) >= 0,
    decreases s.len(),
{
    if s.len() > 0 {
        lemma_dec_value_nonneg(s.drop_last());
    }
}

} // verus!
