//! Scopes (namespaces, types, interfaces) taken from retrieval chunks, and the
//! chain of scopes that encloses an offset, outermost first.
use vstd::prelude::*;

use crate::records::chunks_view;
use crate::text::{
    chars_eq, chars_of, push_chars, string_of, string_of_range, strip_prefix, strip_prefix_len,
    trim, trim_bounds,
};

verus! {

/// A retrieval chunk as plain values: offset, length, label, kind.
pub type Chunk = (u32, u32, Seq<char>, u8);

/// A scope as plain values: start offset, length, name.
pub type Scope = (u32, u32, Seq<char>);

/// `s` without the prefix `p` if it has it, else `s` itself.
pub open spec fn strip_or_keep(s: Seq<char>, p: Seq<char>) -> Seq<char> {
    match strip_prefix(s, p) {
        Some(rest) => rest,
        None => s,
    }
}

/// The name in a type label: the label without the first of `type `, `class `,
/// `struct `, `enum ` that it begins with.
pub open spec fn declared_type(label: Seq<char>) -> Seq<char> {
    match strip_prefix(label, "type "@) {
        Some(rest) => rest,
        None => match strip_prefix(label, "class "@) {
            Some(rest) => rest,
            None => match strip_prefix(label, "struct "@) {
                Some(rest) => rest,
                None => strip_or_keep(label, "enum "@),
            },
        },
    }
}

/// The untrimmed scope name of a chunk of kind 1 (namespace), 2 (type) or
/// 7 (interface); other kinds open no scope.
pub open spec fn scope_name(label: Seq<char>, kind: u8) -> Option<Seq<char>> {
    if kind == 1 {
        Some(strip_or_keep(label, "namespace "@))
    } else if kind == 2 {
        Some(declared_type(label))
    } else if kind == 7 {
        Some(strip_or_keep(label, "interface "@))
    } else {
        None
    }
}

/// The scope a chunk opens: its trimmed name, when that is not empty and the
/// chunk's length is not zero.
pub open spec fn scope_of(c: Chunk) -> Option<Scope> {
    match scope_name(c.2, c.3) {
        Some(name) => if trim(name).len() > 0 && c.1 > 0 {
            Some((c.0, c.1, trim(name)))
        } else {
            None
        },
        None => None,
    }
}

/// The scopes of a list of chunks, in order.
pub open spec fn chunk_scopes(chunks: Seq<Chunk>) -> Seq<Scope> {
    chunks.filter_map(|c: Chunk| scope_of(c))
}

/// Scopes as plain values.
pub open spec fn scopes_view(s: Seq<(u32, u32, String)>) -> Seq<Scope> {
    s.map_values(|e: (u32, u32, String)| (e.0, e.1, e.2@))
}

/// Where the name of a type label begins.
pub fn declared_type_start(label: &[char]) -> (k: usize)
    ensures
        k <= label@.len(),
        label@.skip(k as int) == declared_type(label@),
{
    if let Some(k) = strip_prefix_len(label, "type ") {
        return k;
    }
    if let Some(k) = strip_prefix_len(label, "class ") {
        return k;
    }
    if let Some(k) = strip_prefix_len(label, "struct ") {
        return k;
    }
    if let Some(k) = strip_prefix_len(label, "enum ") {
        return k;
    }
    assert(label@.skip(0) =~= label@);
    0
}

/// Where the name in `label` begins once `p` is stripped, if `label` begins with `p`.
pub fn strip_or_keep_start(label: &[char], p: &str) -> (k: usize)
    ensures
        k <= label@.len(),
        label@.skip(k as int) == strip_or_keep(label@, p@),
{
    match strip_prefix_len(label, p) {
        Some(k) => k,
        None => {
            assert(label@.skip(0) =~= label@);
            0
        },
    }
}

/// Where the untrimmed scope name of a chunk begins in its label.
pub fn scope_name_start(label: &[char], kind: u8) -> (r: Option<usize>)
    ensures
        match r {
            Some(k) => k <= label@.len() && scope_name(label@, kind) == Some(label@.skip(k as int)),
            None => scope_name(label@, kind) is None,
        },
{
    if kind == 1 {
        Some(strip_or_keep_start(label, "namespace "))
    } else if kind == 2 {
        Some(declared_type_start(label))
    } else if kind == 7 {
        Some(strip_or_keep_start(label, "interface "))
    } else {
        None
    }
}

/// The scopes that the namespace, type and interface chunks open, in order.
pub fn collect_scopes(retrieval: &[(u32, u32, &str, u8)]) -> (scopes: Vec<(u32, u32, String)>)
    ensures
        scopes_view(scopes@) == chunk_scopes(chunks_view(retrieval@)),
{
    let ghost chunks = chunks_view(retrieval@);
    let mut scopes: Vec<(u32, u32, String)> = Vec::new();
    let mut i: usize = 0;
    while i < retrieval.len()
        invariant
            i <= retrieval@.len(),
            chunks == chunks_view(retrieval@),
            scopes_view(scopes@) == chunk_scopes(chunks.take(i as int)),
        decreases retrieval@.len() - i,
    {
        let (offset, length, label, kind) = retrieval[i];
        let lc = chars_of(label);
        let ghost before = scopes@;
        proof {
            chunks.lemma_filter_map_take_succ(|c: Chunk| scope_of(c), i as int);
        }
        match scope_name_start(lc.as_slice(), kind) {
            Some(k) => {
                let (a, b) = trim_bounds(lc.as_slice(), k, lc.len());
                assert(lc@.subrange(k as int, lc@.len() as int) =~= lc@.skip(k as int));
                if b > a && length > 0 {
                    let name = string_of_range(lc.as_slice(), a, b);
                    scopes.push((offset, length, name));
                    assert(scopes_view(scopes@) =~= scopes_view(before).push(
                        (offset, length, name@),
                    ));
                }
            },
            None => {},
        }
        i = i + 1;
    }
    assert(chunks.take(retrieval@.len() as int) =~= chunks);
    scopes
}

/// A scope encloses `offset` for the declaration `(self_start, self_len,
/// self_name)` when it is not that declaration's own entry, starts at or before
/// the offset, ends (saturating) after it, and has a name.
pub open spec fn encloses(
    e: Scope,
    offset: u32,
    self_start: u32,
    self_len: u32,
    self_name: Seq<char>,
) -> bool {
    &&& !(e.0 == self_start && e.1 == self_len && e.2 == self_name)
    &&& e.0 <= offset
    &&& offset < e.0.saturating_add(e.1)
    &&& e.2.len() > 0
}

/// The enclosing scopes, in list order, each with its span length and name.
pub open spec fn enclosing_scopes(
    scopes: Seq<Scope>,
    offset: u32,
    self_start: u32,
    self_len: u32,
    self_name: Seq<char>,
) -> Seq<(u32, Seq<char>)> {
    scopes.filter_map(
        |e: Scope|
            if encloses(e, offset, self_start, self_len, self_name) {
                Some((e.1, e.2))
            } else {
                None
            },
    )
}

/// The first index at or after `j` whose span is shorter than `w` (or the
/// length of `s`).
pub open spec fn insert_pos_from(s: Seq<(u32, Seq<char>)>, w: u32, j: int) -> int
    decreases s.len() - j,
{
    if j >= s.len() || j < 0 {
        s.len() as int
    } else if s[j].0 < w {
        j
    } else {
        insert_pos_from(s, w, j + 1)
    }
}

/// Longest span first, and among equal spans in list order (a stable sort by
/// descending span length): each entry is put after every entry at least as long.
pub open spec fn longest_first(s: Seq<(u32, Seq<char>)>) -> Seq<(u32, Seq<char>)>
    decreases s.len(),
{
    if s.len() == 0 {
        s
    } else {
        let sorted = longest_first(s.drop_last());
        sorted.insert(insert_pos_from(sorted, s.last().0, 0), s.last())
    }
}

/// The names of the scopes that enclose `offset`, outermost (longest span) first.
pub open spec fn scope_chain(
    scopes: Seq<Scope>,
    offset: u32,
    self_start: u32,
    self_len: u32,
    self_name: Seq<char>,
) -> Seq<Seq<char>> {
    longest_first(enclosing_scopes(scopes, offset, self_start, self_len, self_name)).map_values(
        |e: (u32, Seq<char>)| e.1,
    )
}

/// Width-and-name pairs as plain values.
pub open spec fn chain_view(s: Seq<(u32, String)>) -> Seq<(u32, Seq<char>)> {
    s.map_values(|e: (u32, String)| (e.0, e.1@))
}

/// Strings as plain values.
pub open spec fn strings_view(s: Seq<String>) -> Seq<Seq<char>> {
    s.map_values(|e: String| e@)
}

/// Finds [`insert_pos_from`] from 0.
fn insertion_point(chain: &Vec<(u32, String)>, w: u32) -> (p: usize)
    ensures
        p == insert_pos_from(chain_view(chain@), w, 0),
        p <= chain@.len(),
{
    let mut j: usize = 0;
    while j < chain.len() && chain[j].0 >= w
        invariant
            j <= chain@.len(),
            insert_pos_from(chain_view(chain@), w, 0) == insert_pos_from(
                chain_view(chain@),
                w,
                j as int,
            ),
        decreases chain@.len() - j,
    {
        j = j + 1;
    }
    j
}

/// The names of the scopes that enclose `offset`, outermost first, leaving out
/// the entry `(self_start, self_len, self_name)` itself.
pub fn scope_stack_for_offset(
    scopes: &[(u32, u32, String)],
    offset: u32,
    self_start: u32,
    self_len: u32,
    self_name: &str,
) -> (chain: Vec<String>)
    ensures
        strings_view(chain@) == scope_chain(
            scopes_view(scopes@),
            offset,
            self_start,
            self_len,
            self_name@,
        ),
{
    let ghost sv = scopes_view(scopes@);
    let ghost f = |e: Scope|
        if encloses(e, offset, self_start, self_len, self_name@) {
            Some((e.1, e.2))
        } else {
            None
        };
    let self_chars = chars_of(self_name);
    let mut sorted: Vec<(u32, String)> = Vec::new();
    let mut i: usize = 0;
    while i < scopes.len()
        invariant
            i <= scopes@.len(),
            sv == scopes_view(scopes@),
            self_chars@ == self_name@,
            f == (|e: Scope|
                if encloses(e, offset, self_start, self_len, self_name@) {
                    Some((e.1, e.2))
                } else {
                    None
                }),
            chain_view(sorted@) == longest_first(sv.take(i as int).filter_map(f)),
        decreases scopes@.len() - i,
    {
        let start = scopes[i].0;
        let len = scopes[i].1;
        let name = &scopes[i].2;
        let nc = chars_of(name.as_str());
        proof {
            sv.lemma_filter_map_take_succ(f, i as int);
        }
        let own = start == self_start && len == self_len && chars_eq(
            nc.as_slice(),
            self_chars.as_slice(),
        );
        if !own && start <= offset && offset < start.saturating_add(len) && nc.len() > 0 {
            let w = len;
            let p = insertion_point(&sorted, w);
            let ghost before = chain_view(sorted@);
            let ghost prefix = sv.take(i as int).filter_map(f);
            sorted.insert(p, (w, name.clone()));
            assert(chain_view(sorted@) =~= before.insert(p as int, (w, name@)));
            assert(sv[i as int] == (start, len, name@));
            assert(f(sv[i as int]) == Some((w, name@)));
            assert(sv.take(i + 1).filter_map(f) =~= prefix.push((w, name@)));
            assert(prefix.push((w, name@)).drop_last() =~= prefix);
        } else {
            assert(sv[i as int] == (start, len, name@));
            assert(f(sv[i as int]) is None);
            assert(sv.take(i + 1).filter_map(f) =~= sv.take(i as int).filter_map(f));
        }
        i = i + 1;
    }
    assert(sv.take(scopes@.len() as int) =~= sv);
    let mut chain: Vec<String> = Vec::new();
    let mut j: usize = 0;
    while j < sorted.len()
        invariant
            j <= sorted@.len(),
            strings_view(chain@) == chain_view(sorted@).take(j as int).map_values(
                |e: (u32, Seq<char>)| e.1,
            ),
        decreases sorted@.len() - j,
    {
        let ghost before = chain@;
        let item = sorted[j].1.clone();
        assert(item@ == chain_view(sorted@)[j as int].1);
        chain.push(item);
        assert(strings_view(chain@) =~= strings_view(before).push(item@));
        j = j + 1;
        assert(strings_view(chain@) =~= chain_view(sorted@).take(j as int).map_values(
            |e: (u32, Seq<char>)| e.1,
        ));
    }
    assert(chain_view(sorted@).take(sorted@.len() as int) =~= chain_view(sorted@));
    chain
}

/// `parts` joined with `sep` between neighbours (`[String]::join`).
pub open spec fn join(parts: Seq<Seq<char>>, sep: Seq<char>) -> Seq<char>
    decreases parts.len(),
{
    if parts.len() == 0 {
        Seq::empty()
    } else if parts.len() == 1 {
        parts[0]
    } else {
        join(parts.drop_last(), sep) + sep + parts.last()
    }
}

/// `name` qualified by its enclosing scopes, or nothing when none encloses it.
pub open spec fn qualified_name(parts: Seq<Seq<char>>, name: Seq<char>) -> Option<Seq<char>> {
    if parts.len() == 0 {
        None
    } else {
        Some(join(parts, "::"@) + "::"@ + name)
    }
}

/// `parts` joined with `::`, then `::` and `name`.
pub fn qualify(parts: &Vec<String>, name: &[char]) -> (r: String)
    requires
        parts@.len() > 0,
    ensures
        qualified_name(strings_view(parts@), name@) == Some(r@),
{
    let ghost pv = strings_view(parts@);
    let sep = chars_of("::");
    let mut out: Vec<char> = Vec::new();
    let mut i: usize = 0;
    while i < parts.len()
        invariant
            i <= parts@.len(),
            pv == strings_view(parts@),
            sep@ == "::"@,
            out@ == join(pv.take(i as int), "::"@),
        decreases parts@.len() - i,
    {
        let pc = chars_of(parts[i].as_str());
        if i > 0 {
            push_chars(&mut out, sep.as_slice(), 0, sep.len());
        }
        push_chars(&mut out, pc.as_slice(), 0, pc.len());
        assert(sep@.subrange(0, sep@.len() as int) =~= sep@);
        assert(pc@.subrange(0, pc@.len() as int) =~= pc@);
        i = i + 1;
        assert(pv.take(i as int).drop_last() =~= pv.take(i - 1));
    }
    assert(pv.take(parts@.len() as int) =~= pv);
    push_chars(&mut out, sep.as_slice(), 0, sep.len());
    push_chars(&mut out, name, 0, name.len());
    assert(name@.subrange(0, name@.len() as int) =~= name@);
    string_of(out.as_slice())
}

/// The span lengths never increase along `s`.
pub open spec fn longest_first_order(s: Seq<(u32, Seq<char>)>) -> bool {
    forall|i: int, j: int| 0 <= i < j < s.len() ==> s[i].0 >= s[j].0
}

/// The entries of `s` whose span length is `w`, in order.
pub open spec fn of_length(s: Seq<(u32, Seq<char>)>, w: u32) -> Seq<(u32, Seq<char>)> {
    s.filter(length_is(w))
}

/// The test for span length `w`.
pub open spec fn length_is(w: u32) -> spec_fn((u32, Seq<char>)) -> bool {
    |e: (u32, Seq<char>)| e.0 == w
}

/// `insert_pos_from` stops at the first entry from `j` on narrower than `w`.
proof fn lemma_insert_pos_from(s: Seq<(u32, Seq<char>)>, w: u32, j: int)
    requires
        0 <= j <= s.len(),
    ensures
        j <= insert_pos_from(s, w, j) <= s.len(),
        forall|k: int| j <= k < insert_pos_from(s, w, j) ==> s[k].0 >= w,
        insert_pos_from(s, w, j) < s.len() ==> s[insert_pos_from(s, w, j)].0 < w,
    decreases s.len() - j,
{
    if j < s.len() && s[j].0 >= w {
        lemma_insert_pos_from(s, w, j + 1);
    }
}

/// Filtering a sequence none of whose entries has span length `w` leaves nothing.
proof fn lemma_of_length_none(s: Seq<(u32, Seq<char>)>, w: u32)
    requires
        forall|k: int| 0 <= k < s.len() ==> s[k].0 != w,
    ensures
        of_length(s, w) == Seq::<(u32, Seq<char>)>::empty(),
    decreases s.len(),
{
    reveal(Seq::filter);
    if s.len() > 0 {
        lemma_of_length_none(s.drop_last(), w);
    }
}

/// [`longest_first`] is a stable sort by descending span length: it keeps the
/// number of entries, its span lengths never increase, and the entries of each
/// span length keep their order.
pub proof fn lemma_longest_first(s: Seq<(u32, Seq<char>)>)
    ensures
        longest_first(s).len() == s.len(),
        longest_first_order(longest_first(s)),
        forall|w: u32| #[trigger] of_length(longest_first(s), w) == of_length(s, w),
    decreases s.len(),
{
    if s.len() > 0 {
        let e = s.last();
        let r = longest_first(s.drop_last());
        lemma_longest_first(s.drop_last());
        lemma_insert_pos_from(r, e.0, 0);
        let p = insert_pos_from(r, e.0, 0);
        let out = r.insert(p, e);
        assert(out == longest_first(s));
        assert forall|i: int, j: int| 0 <= i < j < out.len() implies out[i].0 >= out[j].0 by {
            if j < p {
                assert(out[i] == r[i] && out[j] == r[j]);
            } else if j == p {
                assert(out[i] == r[i]);
            } else if i < p {
                assert(out[i] == r[i] && out[j] == r[j - 1]);
            } else if i == p {
                assert(out[j] == r[j - 1]);
            } else {
                assert(out[i] == r[i - 1] && out[j] == r[j - 1]);
            }
        }
        assert(out =~= r.take(p) + seq![e] + r.skip(p));
        assert(r =~= r.take(p) + r.skip(p));
        assert(s =~= s.drop_last().push(e));
        assert forall|w: u32| #[trigger] of_length(out, w) == of_length(s, w) by {
            let pred = length_is(w);
            assert(of_length(s.drop_last(), w) == of_length(r, w));
            Seq::filter_distributes_over_add(r.take(p) + seq![e], r.skip(p), pred);
            Seq::filter_distributes_over_add(r.take(p), seq![e], pred);
            Seq::filter_distributes_over_add(r.take(p), r.skip(p), pred);
            Seq::<(u32, Seq<char>)>::empty().lemma_filter_push(e, pred);
            assert(Seq::<(u32, Seq<char>)>::empty().push(e) =~= seq![e]);
            assert(Seq::<(u32, Seq<char>)>::empty().filter(pred) =~= Seq::empty()) by {
                reveal(Seq::filter);
            }
            s.drop_last().lemma_filter_push(e, pred);
            if w == e.0 {
                assert forall|k: int| 0 <= k < r.skip(p).len() implies r.skip(p)[k].0 != w by {
                    assert(r.skip(p)[k] == r[p + k]);
                    assert(r[p + k].0 <= r[p].0);
                }
                lemma_of_length_none(r.skip(p), w);
                assert(of_length(r, w) =~= of_length(r.take(p), w));
                assert(of_length(out, w) =~= of_length(r.take(p), w).push(e));
                assert(of_length(s, w) == of_length(s.drop_last(), w).push(e));
            } else {
                assert(of_length(out, w) =~= of_length(r.take(p), w) + of_length(r.skip(p), w));
                assert(of_length(s, w) == of_length(s.drop_last(), w));
            }
        }
    }
}

/// Every name in the chain belongs to a scope that encloses the offset and is
/// not the declaration's own entry; the chain never holds more names than
/// there are such scopes.
pub proof fn lemma_scope_chain_encloses(
    scopes: Seq<Scope>,
    offset: u32,
    self_start: u32,
    self_len: u32,
    self_name: Seq<char>,
    i: int,
)
    requires
        0 <= i < scope_chain(scopes, offset, self_start, self_len, self_name).len(),
    ensures
        exists|e: Scope|
            #![trigger scopes.contains(e)]
            scopes.contains(e) && encloses(e, offset, self_start, self_len, self_name) && e.2
                == scope_chain(scopes, offset, self_start, self_len, self_name)[i],
{
    let f = |e: Scope|
        if encloses(e, offset, self_start, self_len, self_name) {
            Some((e.1, e.2))
        } else {
            None
        };
    let enc = enclosing_scopes(scopes, offset, self_start, self_len, self_name);
    assert(enc == scopes.filter_map(f));
    let sorted = longest_first(enc);
    lemma_longest_first(enc);
    let x = sorted[i];
    let pred = length_is(x.0);
    sorted.lemma_filter_contains(pred, i);
    assert(of_length(sorted, x.0) == of_length(enc, x.0));
    assert(enc.filter(pred).contains(x));
    enc.lemma_filter_contains_rev(pred, x);
    scopes.lemma_filter_map_contains(f, x);
    let e = choose|e: Scope| #[trigger] scopes.contains(e) && f(e) == Some(x);
    assert(scopes.contains(e) && f(e) == Some(x));
}

/// The span lengths strictly decrease along `s`.
pub open spec fn strictly_longest_first(s: Seq<(u32, Seq<char>)>) -> bool {
    forall|i: int, j: int| 0 <= i < j < s.len() ==> s[i].0 > s[j].0
}

/// No two scope entries that enclose `offset` (leaving out the declaration's
/// own entry) have the same span length.
pub open spec fn distinct_enclosing_lengths(
    scopes: Seq<Scope>,
    offset: u32,
    self_start: u32,
    self_len: u32,
    self_name: Seq<char>,
) -> bool {
    forall|i: int, j: int|
        0 <= i < j < scopes.len() && encloses(scopes[i], offset, self_start, self_len, self_name)
            && encloses(scopes[j], offset, self_start, self_len, self_name) ==> scopes[i].1
            != scopes[j].1
}

/// An entry that `f` maps to `x` puts `x` into the `filter_map`.
proof fn lemma_filter_map_has<A, B>(s: Seq<A>, f: spec_fn(A) -> Option<B>, t: A, x: B)
    requires
        s.contains(t),
        f(t) == Some(x),
    ensures
        s.filter_map(f).contains(x),
    decreases s.len(),
{
    let rest = s.drop_last();
    if s.last() == t {
        assert((rest.filter_map(f) + seq![x]).last() == x);
    } else {
        let k = choose|k: int| 0 <= k < s.len() && s[k] == t;
        assert(rest[k] == t);
        lemma_filter_map_has(rest, f, t, x);
        let m = choose|m: int| 0 <= m < rest.filter_map(f).len() && rest.filter_map(f)[m] == x;
        match f(s.last()) {
            Some(y) => assert((rest.filter_map(f) + seq![y])[m] == x),
            None => {},
        }
    }
}

/// With distinct span lengths among the enclosing entries, the enclosing
/// scopes have pairwise distinct span lengths.
proof fn lemma_enclosing_distinct(
    scopes: Seq<Scope>,
    offset: u32,
    self_start: u32,
    self_len: u32,
    self_name: Seq<char>,
)
    requires
        distinct_enclosing_lengths(scopes, offset, self_start, self_len, self_name),
    ensures
        ({
            let a = enclosing_scopes(scopes, offset, self_start, self_len, self_name);
            forall|i: int, j: int| 0 <= i < j < a.len() ==> a[i].0 != a[j].0
        }),
    decreases scopes.len(),
{
    let f = |e: Scope|
        if encloses(e, offset, self_start, self_len, self_name) {
            Some((e.1, e.2))
        } else {
            None
        };
    if scopes.len() > 0 {
        let rest = scopes.drop_last();
        let last = scopes.last();
        assert(distinct_enclosing_lengths(rest, offset, self_start, self_len, self_name)) by {
            assert forall|i: int, j: int|
                0 <= i < j < rest.len() && encloses(rest[i], offset, self_start, self_len, self_name)
                    && encloses(rest[j], offset, self_start, self_len, self_name) implies rest[i].1
                != rest[j].1 by {
                assert(rest[i] == scopes[i] && rest[j] == scopes[j]);
            }
        }
        lemma_enclosing_distinct(rest, offset, self_start, self_len, self_name);
        let ar = rest.filter_map(f);
        assert(ar == enclosing_scopes(rest, offset, self_start, self_len, self_name));
        let a = scopes.filter_map(f);
        assert(a == enclosing_scopes(scopes, offset, self_start, self_len, self_name));
        match f(last) {
            None => {
                assert(a == ar);
            },
            Some(x) => {
                assert(a == ar + seq![x]);
                assert forall|i: int, j: int| 0 <= i < j < a.len() implies a[i].0 != a[j].0 by {
                    assert(a[i] == ar[i]);
                    if j < ar.len() {
                        assert(a[j] == ar[j]);
                    } else {
                        assert(ar.contains(ar[i]));
                        rest.lemma_filter_map_contains(f, ar[i]);
                        let t = choose|t: Scope| #[trigger] rest.contains(t) && f(t) == Some(ar[i]);
                        let k = choose|k: int| 0 <= k < rest.len() && rest[k] == t;
                        assert(scopes[k] == t);
                        assert(scopes.len() - 1 < scopes.len());
                        assert(encloses(scopes[k], offset, self_start, self_len, self_name));
                        assert(encloses(
                            scopes[scopes.len() - 1],
                            offset,
                            self_start,
                            self_len,
                            self_name,
                        ));
                    }
                }
            },
        }
    }
}

/// With pairwise distinct span lengths, [`longest_first`] strictly orders the
/// entries and holds exactly the entries it was given.
proof fn lemma_longest_first_strict(s: Seq<(u32, Seq<char>)>)
    requires
        forall|i: int, j: int| 0 <= i < j < s.len() ==> s[i].0 != s[j].0,
    ensures
        strictly_longest_first(longest_first(s)),
        forall|x: (u32, Seq<char>)| longest_first(s).contains(x) <==> s.contains(x),
    decreases s.len(),
{
    if s.len() > 0 {
        let rest = s.drop_last();
        let e = s.last();
        let r = longest_first(rest);
        lemma_longest_first_strict(rest);
        lemma_insert_pos_from(r, e.0, 0);
        let p = insert_pos_from(r, e.0, 0);
        let out = r.insert(p, e);
        assert(out == longest_first(s));
        assert forall|k: int| 0 <= k < r.len() implies r[k].0 != e.0 by {
            assert(r.contains(r[k]));
            assert(rest.contains(r[k]));
            let m = choose|m: int| 0 <= m < rest.len() && rest[m] == r[k];
            assert(s[m] == rest[m]);
        }
        assert forall|i: int, j: int| 0 <= i < j < out.len() implies out[i].0 > out[j].0 by {
            if j < p {
                assert(out[i] == r[i] && out[j] == r[j]);
            } else if j == p {
                assert(out[i] == r[i]);
            } else if i < p {
                assert(out[i] == r[i] && out[j] == r[j - 1]);
            } else if i == p {
                assert(out[j] == r[j - 1]);
            } else {
                assert(out[i] == r[i - 1] && out[j] == r[j - 1]);
            }
        }
        assert forall|x: (u32, Seq<char>)| out.contains(x) <==> s.contains(x) by {
            if out.contains(x) {
                let k = choose|k: int| 0 <= k < out.len() && out[k] == x;
                if k < p {
                    assert(r[k] == x && r.contains(x));
                    assert(rest.contains(x));
                    let m = choose|m: int| 0 <= m < rest.len() && rest[m] == x;
                    assert(s[m] == x);
                } else if k == p {
                    assert(s[s.len() - 1] == x);
                } else {
                    assert(r[k - 1] == x && r.contains(x));
                    assert(rest.contains(x));
                    let m = choose|m: int| 0 <= m < rest.len() && rest[m] == x;
                    assert(s[m] == x);
                }
            }
            if s.contains(x) {
                let k = choose|k: int| 0 <= k < s.len() && s[k] == x;
                if k == s.len() - 1 {
                    assert(out[p] == x);
                } else {
                    assert(0 <= k < rest.len());
                    assert(rest[k] == s[k]);
                    assert(rest.contains(x));
                    assert(r.contains(x));
                    let m = choose|m: int| 0 <= m < r.len() && r[m] == x;
                    if m < p {
                        assert(out[m] == x);
                    } else {
                        assert(out[m + 1] == x);
                    }
                }
            }
        }
    }
}

/// Two strictly ordered sequences with the same entries are equal.
proof fn lemma_strictly_ordered_unique(a: Seq<(u32, Seq<char>)>, b: Seq<(u32, Seq<char>)>)
    requires
        strictly_longest_first(a),
        strictly_longest_first(b),
        forall|x: (u32, Seq<char>)| a.contains(x) <==> b.contains(x),
    ensures
        a == b,
    decreases a.len() + b.len(),
{
    if a.len() == 0 {
        if b.len() > 0 {
            assert(b.contains(b[0]));
        }
        assert(a =~= b);
    } else if b.len() == 0 {
        assert(a.contains(a[0]));
    } else {
        assert(a.contains(a[0]) && b.contains(b[0]));
        let i = choose|i: int| 0 <= i < a.len() && a[i] == b[0];
        let j = choose|j: int| 0 <= j < b.len() && b[j] == a[0];
        assert(i == 0 && j == 0);
        let a1 = a.drop_first();
        let b1 = b.drop_first();
        assert forall|x: (u32, Seq<char>)| a1.contains(x) <==> b1.contains(x) by {
            if a1.contains(x) {
                let k = choose|k: int| 0 <= k < a1.len() && a1[k] == x;
                assert(a[k + 1] == x && a.contains(x) && b.contains(x));
                let m = choose|m: int| 0 <= m < b.len() && b[m] == x;
                assert(m != 0);
                assert(b1[m - 1] == x);
            }
            if b1.contains(x) {
                let k = choose|k: int| 0 <= k < b1.len() && b1[k] == x;
                assert(b[k + 1] == x && b.contains(x) && a.contains(x));
                let m = choose|m: int| 0 <= m < a.len() && a[m] == x;
                assert(m != 0);
                assert(a1[m - 1] == x);
            }
        }
        lemma_strictly_ordered_unique(a1, b1);
        assert(a =~= seq![a[0]] + a1);
        assert(b =~= seq![b[0]] + b1);
    }
}

/// The scope chain does not depend on the order of the scope list: two lists
/// with the same entries give the same chain, as long as the entries that
/// enclose the offset have distinct span lengths (as properly nested scopes
/// with distinct extents do).
pub proof fn lemma_scope_chain_ignores_list_order(
    scopes1: Seq<Scope>,
    scopes2: Seq<Scope>,
    offset: u32,
    self_start: u32,
    self_len: u32,
    self_name: Seq<char>,
)
    requires
        forall|e: Scope| scopes1.contains(e) <==> scopes2.contains(e),
        distinct_enclosing_lengths(scopes1, offset, self_start, self_len, self_name),
        distinct_enclosing_lengths(scopes2, offset, self_start, self_len, self_name),
    ensures
        scope_chain(scopes1, offset, self_start, self_len, self_name) == scope_chain(
            scopes2,
            offset,
            self_start,
            self_len,
            self_name,
        ),
{
    let f = |e: Scope|
        if encloses(e, offset, self_start, self_len, self_name) {
            Some((e.1, e.2))
        } else {
            None
        };
    let a1 = enclosing_scopes(scopes1, offset, self_start, self_len, self_name);
    let a2 = enclosing_scopes(scopes2, offset, self_start, self_len, self_name);
    assert(a1 == scopes1.filter_map(f));
    assert(a2 == scopes2.filter_map(f));
    lemma_enclosing_distinct(scopes1, offset, self_start, self_len, self_name);
    lemma_enclosing_distinct(scopes2, offset, self_start, self_len, self_name);
    assert forall|x: (u32, Seq<char>)| a1.contains(x) <==> a2.contains(x) by {
        if a1.contains(x) {
            scopes1.lemma_filter_map_contains(f, x);
            let t = choose|t: Scope| #[trigger] scopes1.contains(t) && f(t) == Some(x);
            lemma_filter_map_has(scopes2, f, t, x);
        }
        if a2.contains(x) {
            scopes2.lemma_filter_map_contains(f, x);
            let t = choose|t: Scope| #[trigger] scopes2.contains(t) && f(t) == Some(x);
            lemma_filter_map_has(scopes1, f, t, x);
        }
    }
    lemma_longest_first_strict(a1);
    lemma_longest_first_strict(a2);
    assert forall|x: (u32, Seq<char>)|
        longest_first(a1).contains(x) <==> longest_first(a2).contains(x) by {
        assert(longest_first(a1).contains(x) <==> a1.contains(x));
        assert(longest_first(a2).contains(x) <==> a2.contains(x));
    }
    lemma_strictly_ordered_unique(longest_first(a1), longest_first(a2));
}

/// Every scope around the offset is named in the chain: each entry that starts
/// at or before the offset, ends (saturating) after it, has a name and is not
/// the entry `(self_start, self_len, self_name)` has its name in the chain.
pub proof fn lemma_scope_chain_members(
    scopes: Seq<Scope>,
    offset: u32,
    self_start: u32,
    self_len: u32,
    self_name: Seq<char>,
)
    ensures
        forall|e: Scope|
            #![trigger scopes.contains(e)]
            scopes.contains(e) && e.0 <= offset && offset < e.0.saturating_add(e.1) && e.2.len()
                > 0 && e != (self_start, self_len, self_name) ==> scope_chain(
                scopes,
                offset,
                self_start,
                self_len,
                self_name,
            ).contains(e.2),
{
    let f = |e: Scope|
        if encloses(e, offset, self_start, self_len, self_name) {
            Some((e.1, e.2))
        } else {
            None
        };
    let enc = enclosing_scopes(scopes, offset, self_start, self_len, self_name);
    assert(enc == scopes.filter_map(f));
    let sorted = longest_first(enc);
    lemma_longest_first(enc);
    let chain = scope_chain(scopes, offset, self_start, self_len, self_name);
    assert(chain == sorted.map_values(|x: (u32, Seq<char>)| x.1));
    assert forall|e: Scope|
        #![trigger scopes.contains(e)]
        scopes.contains(e) && e.0 <= offset && offset < e.0.saturating_add(e.1) && e.2.len() > 0
            && e != (self_start, self_len, self_name) implies chain.contains(e.2) by {
        let x = (e.1, e.2);
        assert(f(e) == Some(x));
        lemma_filter_map_has(scopes, f, e, x);
        let k = choose|k: int| 0 <= k < enc.len() && enc[k] == x;
        enc.lemma_filter_contains(length_is(e.1), k);
        assert(of_length(sorted, e.1) == of_length(enc, e.1));
        assert(of_length(sorted, e.1).contains(x));
        sorted.lemma_filter_contains_rev(length_is(e.1), x);
        let m = choose|m: int| 0 <= m < sorted.len() && sorted[m] == x;
        assert(chain[m] == e.2);
    }
}

/// Every name in the chain belongs to a scope around the offset: an entry that
/// starts at or before the offset, ends (saturating) after it, has a name and
/// is not the entry `(self_start, self_len, self_name)`.
pub proof fn lemma_scope_chain_member_encloses(
    scopes: Seq<Scope>,
    offset: u32,
    self_start: u32,
    self_len: u32,
    self_name: Seq<char>,
    i: int,
)
    requires
        0 <= i < scope_chain(scopes, offset, self_start, self_len, self_name).len(),
    ensures
        exists|e: Scope|
            #![trigger scopes.contains(e)]
            scopes.contains(e) && e.0 <= offset && offset < e.0.saturating_add(e.1) && e.2.len()
                > 0 && e != (self_start, self_len, self_name) && e.2 == scope_chain(
                scopes,
                offset,
                self_start,
                self_len,
                self_name,
            )[i],
{
    lemma_scope_chain_encloses(scopes, offset, self_start, self_len, self_name, i);
    let e = choose|e: Scope|
        #![trigger scopes.contains(e)]
        scopes.contains(e) && encloses(e, offset, self_start, self_len, self_name) && e.2
            == scope_chain(scopes, offset, self_start, self_len, self_name)[i];
    assert(e != (self_start, self_len, self_name));
}

} // verus!
