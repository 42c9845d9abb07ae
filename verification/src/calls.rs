//! Call edges from call sites: receivers resolved against the enclosing scopes,
//! and I/O classification of the callee.
use vstd::prelude::*;

use crate::facts::{facts_view, lemma_facts_view_push, FactView, IOKind, SemanticFact};
use crate::records::{call_sites_view, chunks_view};
use crate::scopes::{
    chunk_scopes, collect_scopes, qualified_name, qualify, scope_chain, scope_stack_for_offset,
    scopes_view, strip_or_keep, Scope,
};
use crate::text::{
    after_last, ascii_lower, ascii_lower_seq, ascii_lowercase, chars_eq, chars_of, contains, contains_chars,
    lemma_rfind_below, occurs_at, rfind, rfind_below, rfind_index, string_of_range, strip_prefix, strip_prefix_len,
    utf8_len,
};

verus! {

/// The part of a callee after its last `::`, then after its last `.`, folded to
/// ASCII lower case: `System.Net.Http.HttpClient::GetAsync` and `client.GetAsync`
/// both end in `getasync`.
pub open spec fn callee_tail(callee: Seq<char>) -> Seq<char> {
    ascii_lower_seq(after_last(after_last(callee, "::"@), "."@))
}

/// Network signals in the lower-cased callee `full` or its lower-cased tail.
pub open spec fn network_signal(full: Seq<char>, tail: Seq<char>) -> bool {
    ||| contains(full, "httpclient"@)
    ||| contains(full, "httprequest"@)
    ||| contains(full, "webrequest"@)
    ||| contains(full, "tcpclient"@)
    ||| contains(full, "udpsocket"@)
    ||| contains(full, "socket"@)
    ||| contains(full, "restsharp"@)
    ||| tail == "getasync"@
    ||| tail == "postasync"@
    ||| tail == "putasync"@
    ||| tail == "deleteasync"@
    ||| tail == "sendasync"@
}

/// File-read signals.
pub open spec fn file_read_signal(full: Seq<char>, tail: Seq<char>) -> bool {
    ||| contains(full, "streamreader"@)
    ||| contains(full, "readalltext"@)
    ||| contains(full, "readalllines"@)
    ||| contains(full, "file.read"@)
    ||| tail == "read"@
    ||| tail == "openread"@
}

/// File-write signals.
pub open spec fn file_write_signal(full: Seq<char>) -> bool {
    ||| contains(full, "streamwriter"@)
    ||| contains(full, "writealltext"@)
    ||| contains(full, "writealllines"@)
    ||| contains(full, "file.write"@)
    ||| contains(full, "file.append"@)
}

/// Standard-I/O signals.
pub open spec fn stdio_signal(full: Seq<char>, tail: Seq<char>) -> bool {
    ||| contains(full, "console."@)
    ||| contains(full, "debug.write"@)
    ||| contains(full, "trace.write"@)
    ||| tail == "writeline"@
    ||| tail == "write"@
}

/// The I/O kind of a callee, checked in the order network, file read, file
/// write, standard I/O; none when no signal matches.
pub open spec fn io_kind_of(callee: Seq<char>) -> Option<IOKind> {
    let full = ascii_lower_seq(callee);
    let tail = callee_tail(callee);
    if network_signal(full, tail) {
        Some(IOKind::Network)
    } else if file_read_signal(full, tail) {
        Some(IOKind::FileRead)
    } else if file_write_signal(full) {
        Some(IOKind::FileWrite)
    } else if stdio_signal(full, tail) {
        Some(IOKind::StdIO)
    } else {
        None
    }
}

/// Where the part of `s` after the last occurrence of `p` begins.
fn after_last_start(s: &[char], p: &str) -> (k: usize)
    ensures
        k <= s@.len(),
        s@.skip(k as int) == after_last(s@, p@),
{
    let pc = chars_of(p);
    let n = s.len();
    match rfind_index(s, pc.as_slice()) {
        Some(i) => {
            proof {
                lemma_rfind_below(s@, pc@, s@.len() as int + 1);
                assert(rfind(s@, pc@) == Some(i as int));
                assert(occurs_at(s@, pc@, i as int));
                assert(i + pc@.len() <= n);
            }
            i + pc.len()
        },
        None => {
            assert(s@.skip(0) =~= s@);
            0
        },
    }
}

/// Whether `p` occurs in `s`.
fn contains_str(s: &[char], p: &str) -> (b: bool)
    ensures
        b == contains(s@, p@),
{
    let pc = chars_of(p);
    contains_chars(s, pc.as_slice())
}

/// Whether `s` holds exactly the characters of `p`.
fn equals_str(s: &[char], p: &str) -> (b: bool)
    ensures
        b == (s@ == p@),
{
    let pc = chars_of(p);
    chars_eq(s, pc.as_slice())
}

/// Classifies a callee as network, file-read, file-write or standard I/O by
/// C# ecosystem signals in its name.
pub fn classify_io(callee: &str) -> (k: Option<IOKind>)
    ensures
        k == io_kind_of(callee@),
{
    let cc = chars_of(callee);
    let a = after_last_start(cc.as_slice(), "::");
    let first = &cc.as_slice()[a..cc.len()];
    assert(first@ =~= after_last(callee@, "::"@));
    let b = after_last_start(first, ".");
    let tail_raw = &first[b..first.len()];
    assert(tail_raw@ =~= after_last(after_last(callee@, "::"@), "."@));
    let tail_v = ascii_lowercase(tail_raw);
    let full_v = ascii_lowercase(cc.as_slice());
    let tail = tail_v.as_slice();
    let full = full_v.as_slice();
    if contains_str(full, "httpclient") || contains_str(full, "httprequest") || contains_str(
        full,
        "webrequest",
    ) || contains_str(full, "tcpclient") || contains_str(full, "udpsocket") || contains_str(
        full,
        "socket",
    ) || contains_str(full, "restsharp") || equals_str(tail, "getasync") || equals_str(
        tail,
        "postasync",
    ) || equals_str(tail, "putasync") || equals_str(tail, "deleteasync") || equals_str(
        tail,
        "sendasync",
    ) {
        Some(IOKind::Network)
    } else if contains_str(full, "streamreader") || contains_str(full, "readalltext")
        || contains_str(full, "readalllines") || contains_str(full, "file.read") || equals_str(
        tail,
        "read",
    ) || equals_str(tail, "openread") {
        Some(IOKind::FileRead)
    } else if contains_str(full, "streamwriter") || contains_str(full, "writealltext")
        || contains_str(full, "writealllines") || contains_str(full, "file.write")
        || contains_str(full, "file.append") {
        Some(IOKind::FileWrite)
    } else if contains_str(full, "console.") || contains_str(full, "debug.write") || contains_str(
        full,
        "trace.write",
    ) || equals_str(tail, "writeline") || equals_str(tail, "write") {
        Some(IOKind::StdIO)
    } else {
        None
    }
}

/// The callee a call edge points to: `this.Foo` inside `Ns.Type` becomes
/// `Ns::Type::Foo` (bare `Foo` when no scope encloses the call); `base.Foo`
/// becomes `Foo`; any other callee stays as written.
pub open spec fn resolve_callee(callee: Seq<char>, offset: u32, scopes: Seq<Scope>) -> Seq<char> {
    match strip_prefix(callee, "this."@) {
        Some(rest) => match qualified_name(
            scope_chain(scopes, offset, offset, u32::MAX, Seq::empty()),
            rest,
        ) {
            Some(q) => q,
            None => rest,
        },
        None => strip_or_keep(callee, "base."@),
    }
}

/// The facts of one call site: the call edge, then an I/O operation when the
/// resolved callee classifies as I/O. Lengths are the callee's UTF-8 length,
/// truncated to 32 bits.
pub open spec fn call_facts(site: (u32, Seq<char>), scopes: Seq<Scope>) -> Seq<FactView> {
    let resolved = resolve_callee(site.1, site.0, scopes);
    let length = utf8_len(site.1) as u32;
    let call = FactView::Calls { caller_offset: site.0, caller_length: length, callee: resolved };
    match io_kind_of(resolved) {
        Some(k) => seq![
            call,
            FactView::IOOperation {
                io_kind: k,
                offset: site.0,
                length,
                descriptor: Some(resolved),
            },
        ],
        None => seq![call],
    }
}

/// The facts of a list of call sites, in order.
pub open spec fn call_edges(sites: Seq<(u32, Seq<char>)>, scopes: Seq<Scope>) -> Seq<FactView>
    decreases sites.len(),
{
    if sites.len() == 0 {
        Seq::empty()
    } else {
        call_edges(sites.drop_last(), scopes) + call_facts(sites.last(), scopes)
    }
}

/// Resolves a callee against the scopes.
fn resolve(callee: &str, offset: u32, scopes: &[(u32, u32, String)]) -> (r: String)
    ensures
        r@ == resolve_callee(callee@, offset, scopes_view(scopes@)),
{
    let cc = chars_of(callee);
    let n = cc.len();
    match strip_prefix_len(cc.as_slice(), "this.") {
        Some(k) => {
            let nobody = String::new();
            let chain = scope_stack_for_offset(scopes, offset, offset, u32::MAX, nobody.as_str());
            assert(cc@.subrange(k as int, n as int) =~= cc@.skip(k as int));
            if chain.len() == 0 {
                string_of_range(cc.as_slice(), k, n)
            } else {
                qualify(&chain, &cc.as_slice()[k..n])
            }
        },
        None => match strip_prefix_len(cc.as_slice(), "base.") {
            Some(k) => {
                assert(cc@.subrange(k as int, n as int) =~= cc@.skip(k as int));
                string_of_range(cc.as_slice(), k, n)
            },
            None => {
                assert(cc@.subrange(0, n as int) =~= cc@);
                string_of_range(cc.as_slice(), 0, n)
            },
        },
    }
}

/// Appends a call edge for every call site, and an I/O operation for each whose
/// resolved callee classifies as I/O.
pub fn derive_call_edges(
    call_sites: &[(u32, &str)],
    retrieval: &[(u32, u32, &str, u8)],
    facts: &mut Vec<SemanticFact>,
)
    ensures
        facts_view(final(facts)@) == facts_view(old(facts)@) + call_edges(
            call_sites_view(call_sites@),
            chunk_scopes(chunks_view(retrieval@)),
        ),
{
    let ghost sites = call_sites_view(call_sites@);
    let ghost all_scopes = chunk_scopes(chunks_view(retrieval@));
    let scopes = collect_scopes(retrieval);
    let mut i: usize = 0;
    while i < call_sites.len()
        invariant
            i <= call_sites@.len(),
            sites == call_sites_view(call_sites@),
            scopes_view(scopes@) == all_scopes,
            facts_view(facts@) == facts_view(old(facts)@) + call_edges(
                sites.take(i as int),
                all_scopes,
            ),
        decreases call_sites@.len() - i,
    {
        let (offset, callee) = call_sites[i];
        assert(sites[i as int] == (offset, callee@));
        let resolved = resolve(callee, offset, scopes.as_slice());
        let length = callee.as_bytes().len() as u32;
        let ghost before = facts@;
        let descriptor = resolved.clone();
        let call = SemanticFact::Calls { caller_offset: offset, caller_length: length, callee: resolved };
        facts.push(call);
        proof {
            lemma_facts_view_push(before, call);
        }
        let ghost middle = facts@;
        match classify_io(descriptor.as_str()) {
            Some(k) => {
                let op = SemanticFact::IOOperation {
                    io_kind: k,
                    offset,
                    length,
                    descriptor: Some(descriptor),
                };
                facts.push(op);
                proof {
                    lemma_facts_view_push(middle, op);
                }
            },
            None => {},
        }
        assert(sites.take(i + 1).drop_last() =~= sites.take(i as int));
        i = i + 1;
        assert(facts_view(facts@) =~= facts_view(old(facts)@) + call_edges(
            sites.take(i as int),
            all_scopes,
        ));
    }
    assert(sites.take(call_sites@.len() as int) =~= sites);
}

/// Receivers other than `this.` resolve without the scopes: `base.Foo` becomes
/// `Foo` and any other callee stays as written, wherever the call stands.
pub proof fn lemma_other_receivers_stay_bare(
    callee: Seq<char>,
    offset: u32,
    scopes: Seq<Scope>,
    other_offset: u32,
    other_scopes: Seq<Scope>,
)
    requires
        strip_prefix(callee, "this."@) is None,
    ensures
        resolve_callee(callee, offset, scopes) == strip_or_keep(callee, "base."@),
        resolve_callee(callee, offset, scopes) == resolve_callee(
            callee,
            other_offset,
            other_scopes,
        ),
{
}

/// A `this.` call with no enclosing scope stays bare: just the member name.
pub proof fn lemma_unscoped_this_stays_bare(callee: Seq<char>, offset: u32, scopes: Seq<Scope>)
    requires
        strip_prefix(callee, "this."@) is Some,
        scope_chain(scopes, offset, offset, u32::MAX, Seq::empty()).len() == 0,
    ensures
        resolve_callee(callee, offset, scopes) == strip_prefix(callee, "this."@)->0,
{
}

/// A `this.` call inside scopes is qualified by them, outermost first.
pub proof fn lemma_scoped_this_is_qualified(callee: Seq<char>, offset: u32, scopes: Seq<Scope>)
    requires
        strip_prefix(callee, "this."@) is Some,
        scope_chain(scopes, offset, offset, u32::MAX, Seq::empty()).len() > 0,
    ensures
        resolve_callee(callee, offset, scopes) == crate::scopes::join(
            scope_chain(scopes, offset, offset, u32::MAX, Seq::empty()),
            "::"@,
        ) + "::"@ + strip_prefix(callee, "this."@)->0,
{
}

/// Folding twice folds once.
proof fn lemma_ascii_lower_idempotent(s: Seq<char>)
    ensures
        ascii_lower_seq(ascii_lower_seq(s)) == ascii_lower_seq(s),
{
    assert forall|i: int| 0 <= i < s.len() implies ascii_lower(ascii_lower(s[i])) == ascii_lower(
        s[i],
    ) by {
        let c = s[i];
        if 'A' <= c && c <= 'Z' {
            let l = ((c as u32) + 32) as char;
            assert(l as u32 == (c as u32) + 32);
            assert(!('A' <= l && l <= 'Z'));
        }
    }
    assert(ascii_lower_seq(ascii_lower_seq(s)) =~= ascii_lower_seq(s));
}

/// An ASCII letter of either case.
pub open spec fn is_ascii_letter(c: char) -> bool {
    ('a' <= c && c <= 'z') || ('A' <= c && c <= 'Z')
}

/// A character that folds to a non-letter was that non-letter.
proof fn lemma_fold_to_non_letter(c: char, d: char)
    requires
        !('a' <= d && d <= 'z'),
        !('A' <= d && d <= 'Z'),
    ensures
        ascii_lower(c) == d <==> c == d,
{
    if 'A' <= c && c <= 'Z' {
        let l = ((c as u32) + 32) as char;
        assert(l as u32 == (c as u32) + 32);
    }
}

/// Folding case does not move the occurrences of a pattern without letters.
proof fn lemma_occurs_folded(s: Seq<char>, p: Seq<char>, i: int)
    requires
        forall|k: int| 0 <= k < p.len() ==> !is_ascii_letter(#[trigger] p[k]),
    ensures
        occurs_at(ascii_lower_seq(s), p, i) == occurs_at(s, p, i),
{
    if 0 <= i && i + p.len() <= s.len() {
        if occurs_at(s, p, i) {
            assert forall|k: int| 0 <= k < p.len() implies ascii_lower_seq(s).subrange(
                i,
                i + p.len(),
            )[k] == p[k] by {
                assert(s.subrange(i, i + p.len())[k] == p[k]);
                lemma_fold_to_non_letter(s[i + k], p[k]);
            }
            assert(ascii_lower_seq(s).subrange(i, i + p.len()) =~= p);
        }
        if occurs_at(ascii_lower_seq(s), p, i) {
            assert forall|k: int| 0 <= k < p.len() implies s.subrange(i, i + p.len())[k]
                == p[k] by {
                assert(ascii_lower_seq(s).subrange(i, i + p.len())[k] == p[k]);
                lemma_fold_to_non_letter(s[i + k], p[k]);
            }
            assert(s.subrange(i, i + p.len()) =~= p);
        }
    }
}

/// Folding case commutes with cutting after the last occurrence of a pattern
/// without letters.
proof fn lemma_after_last_folded(s: Seq<char>, p: Seq<char>)
    requires
        forall|k: int| 0 <= k < p.len() ==> !is_ascii_letter(#[trigger] p[k]),
    ensures
        after_last(ascii_lower_seq(s), p) == ascii_lower_seq(after_last(s, p)),
{
    let ls = ascii_lower_seq(s);
    assert forall|i: int| occurs_at(ls, p, i) == occurs_at(s, p, i) by {
        lemma_occurs_folded(s, p, i);
    }
    lemma_rfind_same(ls, s, p, s.len() as int + 1);
    match rfind(s, p) {
        Some(i) => {
            lemma_rfind_below(s, p, s.len() as int + 1);
            assert(ls.skip(i + p.len()) =~= ascii_lower_seq(s.skip(i + p.len())));
        },
        None => {},
    }
}

/// Two sequences with the same occurrences have the same last occurrence.
proof fn lemma_rfind_same(a: Seq<char>, b: Seq<char>, p: Seq<char>, end: int)
    requires
        forall|i: int| occurs_at(a, p, i) == occurs_at(b, p, i),
    ensures
        rfind_below(a, p, end) == rfind_below(b, p, end),
    decreases end,
{
    if end > 0 {
        lemma_rfind_same(a, b, p, end - 1);
    }
}

/// I/O classification ignores ASCII case: a callee and its lower-cased form
/// classify alike.
pub proof fn lemma_io_kind_ignores_ascii_case(callee: Seq<char>)
    ensures
        io_kind_of(ascii_lower_seq(callee)) == io_kind_of(callee),
{
    reveal_strlit("::");
    reveal_strlit(".");
    let lc = ascii_lower_seq(callee);
    lemma_after_last_folded(callee, "::"@);
    lemma_after_last_folded(after_last(callee, "::"@), "."@);
    lemma_ascii_lower_idempotent(callee);
    lemma_ascii_lower_idempotent(after_last(after_last(callee, "::"@), "."@));
    assert(callee_tail(lc) == callee_tail(callee));
}

/// A name with neither `:` nor `.` in it.
pub open spec fn is_plain_name(n: Seq<char>) -> bool {
    forall|k: int| 0 <= k < n.len() ==> n[k] != ':' && n[k] != '.'
}

/// The part after the last occurrence, when the last occurrence is at `k`.
proof fn lemma_after_last_at(s: Seq<char>, q: Seq<char>, k: int)
    requires
        occurs_at(s, q, k),
        forall|j: int| j > k ==> !occurs_at(s, q, j),
    ensures
        after_last(s, q) == s.skip(k + q.len()),
{
    lemma_rfind_below(s, q, s.len() as int + 1);
}

/// Without any occurrence, nothing is cut.
proof fn lemma_after_last_none(s: Seq<char>, q: Seq<char>)
    requires
        forall|j: int| !occurs_at(s, q, j),
    ensures
        after_last(s, q) == s,
{
    lemma_rfind_below(s, q, s.len() as int + 1);
}

/// The part after the last `.` of `p.n`, for a plain name `n`, is `n`.
proof fn lemma_after_last_dot(p: Seq<char>, n: Seq<char>)
    requires
        is_plain_name(n),
    ensures
        after_last(p + "."@ + n, "."@) == n,
{
    reveal_strlit(".");
    let s = p + "."@ + n;
    let k = p.len() as int;
    assert(s.subrange(k, k + 1) =~= "."@);
    assert forall|j: int| j > k implies !occurs_at(s, "."@, j) by {
        if occurs_at(s, "."@, j) {
            assert(s.subrange(j, j + 1)[0] == s[j]);
            assert(s[j] == n[j - k - 1]);
        }
    }
    lemma_after_last_at(s, "."@, k);
    assert(s.skip(k + 1) =~= n);
}

/// The tail that classification compares is the name after the last `::` or
/// `.`, lower-cased: for a plain name `n` (no `:`, no `.`), the callees `n`,
/// `p::n` and `p.n` all have the tail `n` in ASCII lower case, whatever `p` is.
pub proof fn lemma_callee_tail(p: Seq<char>, n: Seq<char>)
    requires
        is_plain_name(n),
    ensures
        callee_tail(n) == ascii_lower_seq(n),
        callee_tail(p + "::"@ + n) == ascii_lower_seq(n),
        callee_tail(p + "."@ + n) == ascii_lower_seq(n),
{
    reveal_strlit("::");
    reveal_strlit(".");
    // The bare name.
    assert forall|j: int| !occurs_at(n, "::"@, j) by {
        if occurs_at(n, "::"@, j) {
            assert(n.subrange(j, j + 2)[0] == n[j]);
        }
    }
    assert forall|j: int| !occurs_at(n, "."@, j) by {
        if occurs_at(n, "."@, j) {
            assert(n.subrange(j, j + 1)[0] == n[j]);
        }
    }
    lemma_after_last_none(n, "::"@);
    lemma_after_last_none(n, "."@);
    // `p::n`
    let s = p + "::"@ + n;
    let k = p.len() as int;
    assert(s.subrange(k, k + 2) =~= "::"@);
    assert forall|j: int| j > k implies !occurs_at(s, "::"@, j) by {
        if occurs_at(s, "::"@, j) {
            assert(s.subrange(j, j + 2)[1] == s[j + 1]);
            assert(s[j + 1] == n[j - k - 1]);
        }
    }
    lemma_after_last_at(s, "::"@, k);
    assert(s.skip(k + 2) =~= n);
    // `p.n`
    let t = p + "."@ + n;
    assert forall|j: int| occurs_at(t, "::"@, j) implies j + 2 <= k by {
        assert(t.subrange(j, j + 2)[0] == t[j]);
        assert(t.subrange(j, j + 2)[1] == t[j + 1]);
        if j >= k {
            if j == k {
                assert(t[j] == '.');
            } else {
                assert(t[j] == n[j - k - 1]);
            }
        } else if j + 1 == k {
            assert(t[j + 1] == '.');
        }
    }
    lemma_rfind_below(t, "::"@, t.len() as int + 1);
    match rfind(t, "::"@) {
        Some(i) => {
            assert(t.skip(i + 2) =~= p.skip(i + 2) + "."@ + n);
            lemma_after_last_dot(p.skip(i + 2), n);
        },
        None => {
            lemma_after_last_dot(p, n);
        },
    }
}

/// The signals of each kind. A callee with a network signal in its lower-cased
/// text or tail is network I/O; otherwise one with a file-read signal reads a
/// file; otherwise one with a file-write signal writes a file; otherwise one
/// with a standard-I/O signal is standard I/O. A callee is classified only by
/// such a signal.
pub proof fn lemma_io_signals(callee: Seq<char>)
    ensures
        ({
            let full = ascii_lower_seq(callee);
            let tail = callee_tail(callee);
            let k = io_kind_of(callee);
            let network = contains(full, "httpclient"@) || contains(full, "httprequest"@)
                || contains(full, "webrequest"@) || contains(full, "tcpclient"@) || contains(
                full,
                "udpsocket"@,
            ) || contains(full, "socket"@) || contains(full, "restsharp"@) || tail
                == "getasync"@ || tail == "postasync"@ || tail == "putasync"@ || tail
                == "deleteasync"@ || tail == "sendasync"@;
            let read = contains(full, "streamreader"@) || contains(full, "readalltext"@)
                || contains(full, "readalllines"@) || contains(full, "file.read"@) || tail
                == "read"@ || tail == "openread"@;
            let write = contains(full, "streamwriter"@) || contains(full, "writealltext"@)
                || contains(full, "writealllines"@) || contains(full, "file.write"@) || contains(
                full,
                "file.append"@,
            );
            let stdio = contains(full, "console."@) || contains(full, "debug.write"@) || contains(
                full,
                "trace.write"@,
            ) || tail == "writeline"@ || tail == "write"@;
            &&& network ==> k == Some(IOKind::Network)
            &&& !network && read ==> k == Some(IOKind::FileRead)
            &&& !network && !read && write ==> k == Some(IOKind::FileWrite)
            &&& !network && !read && !write && stdio ==> k == Some(IOKind::StdIO)
            &&& !network && !read && !write && !stdio ==> k is None
        }),
{
}

} // verus!
