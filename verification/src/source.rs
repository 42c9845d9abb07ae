//! Facts read straight from the source text, line by line: `await`
//! expressions and `using` directives.
use vstd::prelude::*;

use crate::facts::{
    facts_view, lemma_facts_view_push, opt_str, AsyncBoundaryKind, FactView, SemanticFact,
};
use crate::text::{
    byte_offsets, contains, find, is_white_space, lemma_trim, occurs_at, find_from, find_from_index, is_ascii_alnum,
    is_ascii_alnum_char, lemma_find_from, lossy_utf8, lossy_utf8_text, starts_with,
    starts_with_str, string_of_range, strip_prefix, strip_prefix_len, trim, trim_bounds,
    trim_start, trim_start_index, utf8_len,
};

verus! {

/// The index of the first line feed at or after `i`, or the length.
pub open spec fn line_break(s: Seq<char>, i: int) -> int
    decreases s.len() - i,
{
    if i < 0 || i >= s.len() || s[i] == '\n' {
        i
    } else {
        line_break(s, i + 1)
    }
}

/// `line_break` moves forward and stops at a line feed or the end.
pub proof fn lemma_line_break(s: Seq<char>, i: int)
    requires
        0 <= i <= s.len(),
    ensures
        i <= line_break(s, i) <= s.len(),
        line_break(s, i) < s.len() ==> s[line_break(s, i)] == '\n',
        forall|j: int| i <= j < line_break(s, i) ==> s[j] != '\n',
    decreases s.len() - i,
{
    if i < s.len() && s[i] != '\n' {
        lemma_line_break(s, i + 1);
    }
}

/// The lines of `s` from `start` on, as `(start, end)` of their contents
/// (`str::lines`): each ends at a line feed, which is dropped together with a
/// carriage return just before it; a last line without a line feed keeps all
/// it has; nothing follows a final line feed.
pub open spec fn lines_from(s: Seq<char>, start: int) -> Seq<(int, int)>
    decreases s.len() - start,
{
    if start < 0 || start >= s.len() {
        Seq::empty()
    } else {
        let nl = line_break(s, start);
        if nl >= s.len() {
            seq![(start, s.len() as int)]
        } else {
            let end = if nl > start && s[nl - 1] == '\r' {
                nl - 1
            } else {
                nl
            };
            proof {
                lemma_line_break(s, start);
            }
            seq![(start, end)] + lines_from(s, nl + 1)
        }
    }
}

/// The lines of `s`.
pub open spec fn lines(s: Seq<char>) -> Seq<(int, int)> {
    lines_from(s, 0)
}

/// Line spans as plain values.
pub open spec fn spans_view(v: Seq<(usize, usize)>) -> Seq<(int, int)> {
    v.map_values(|e: (usize, usize)| (e.0 as int, e.1 as int))
}

/// Every line lies within the text, start before end.
pub open spec fn spans_within(v: Seq<(int, int)>, n: int) -> bool {
    forall|k: int| 0 <= k < v.len() ==> 0 <= (#[trigger] v[k]).0 <= v[k].1 <= n
}

/// Lines from `start` lie within the text.
proof fn lemma_lines_within(s: Seq<char>, start: int)
    ensures
        spans_within(lines_from(s, start), s.len() as int),
    decreases s.len() - start,
{
    if 0 <= start < s.len() {
        lemma_line_break(s, start);
        let nl = line_break(s, start);
        if nl < s.len() {
            lemma_lines_within(s, nl + 1);
            let rest = lines_from(s, nl + 1);
            let end = if nl > start && s[nl - 1] == '\r' {
                nl - 1
            } else {
                nl
            };
            assert forall|k: int| 0 <= k < lines_from(s, start).len() implies 0 <= (
            #[trigger] lines_from(s, start)[k]).0 <= lines_from(s, start)[k].1 <= s.len() by {
                if k > 0 {
                    assert(lines_from(s, start)[k] == rest[k - 1]);
                }
            }
        }
    }
}

/// Splits `text` into lines.
pub fn line_spans(text: &[char]) -> (r: Vec<(usize, usize)>)
    ensures
        spans_view(r@) == lines(text@),
        spans_within(lines(text@), text@.len() as int),
{
    let n = text.len();
    let mut r: Vec<(usize, usize)> = Vec::new();
    let mut start: usize = 0;
    proof {
        lemma_lines_within(text@, 0);
    }
    while start < n
        invariant
            n == text@.len(),
            start <= n,
            lines(text@) == spans_view(r@) + lines_from(text@, start as int),
        decreases n - start,
    {
        let mut nl = start;
        while nl < n && text[nl] != '\n'
            invariant
                start <= nl <= n,
                n == text@.len(),
                line_break(text@, start as int) == line_break(text@, nl as int),
            decreases n - nl,
        {
            nl = nl + 1;
        }
        let ghost before = r@;
        if nl >= n {
            r.push((start, n));
            assert(spans_view(r@) =~= spans_view(before).push((start as int, n as int)));
            assert(lines_from(text@, n as int) =~= Seq::<(int, int)>::empty());
            assert(lines(text@) =~= spans_view(r@) + lines_from(text@, n as int));
            start = n;
        } else {
            let end = if nl > start && text[nl - 1] == '\r' {
                nl - 1
            } else {
                nl
            };
            r.push((start, end));
            assert(spans_view(r@) =~= spans_view(before).push((start as int, end as int)));
            assert(lines_from(text@, start as int) == seq![(start as int, end as int)]
                + lines_from(text@, nl + 1));
            assert(lines(text@) =~= spans_view(r@) + lines_from(text@, nl + 1));
            start = nl + 1;
        }
    }
    assert(lines_from(text@, start as int) =~= Seq::<(int, int)>::empty());
    assert(spans_view(r@) =~= lines(text@));
    r
}

/// The keyword `await`.
pub open spec fn await_word() -> Seq<char> {
    seq!['a', 'w', 'a', 'i', 't']
}

/// The start of a line comment, `//`.
pub open spec fn comment_mark() -> Seq<char> {
    seq!['/', '/']
}

/// A character that continues a word: an ASCII letter or digit, or `_`.
pub open spec fn is_word_char(c: char) -> bool {
    is_ascii_alnum(c) || c == '_'
}

/// The `await` at `p` in `code` stands alone: no word character just before or
/// just after it.
pub open spec fn stands_alone(code: Seq<char>, p: int) -> bool {
    &&& (p == 0 || !is_word_char(code[p - 1]))
    &&& (code.len() <= p + 5 || !is_word_char(code[p + 5]))
}

/// The positions, at or after `from`, of the `await`s that stand alone in
/// `code`; the search resumes after each `await` found, whether or not it
/// stands alone.
pub open spec fn await_hits(code: Seq<char>, from: int) -> Seq<int>
    decreases code.len() + 1 - from,
{
    if from < 0 {
        Seq::empty()
    } else {
        match find_from(code, await_word(), from) {
            None => Seq::empty(),
            Some(p) => {
                proof {
                    lemma_find_from(code, await_word(), from);
                }
                (if stands_alone(code, p) {
                    seq![p]
                } else {
                    Seq::empty()
                }) + await_hits(code, p + 5)
            },
        }
    }
}

/// The code of a line: what comes before its first `//`.
pub open spec fn code_of(line: Seq<char>) -> Seq<char> {
    match find(line, comment_mark()) {
        Some(i) => line.take(i),
        None => line,
    }
}

/// The fact for an `await` that starts at character `k` of the text.
pub open spec fn await_fact(text: Seq<char>, k: int) -> FactView {
    FactView::AsyncBoundary {
        boundary_kind: AsyncBoundaryKind::Await,
        offset: utf8_len(text.take(k)) as u32,
        length: 5,
    }
}

/// The `await` facts of one line.
pub open spec fn line_awaits(text: Seq<char>, span: (int, int)) -> Seq<FactView> {
    await_hits(code_of(text.subrange(span.0, span.1)), 0).map_values(
        |p: int| await_fact(text, span.0 + p),
    )
}

/// The `await` facts of a list of lines, in order.
pub open spec fn awaits_of_lines(text: Seq<char>, spans: Seq<(int, int)>) -> Seq<FactView>
    decreases spans.len(),
{
    if spans.len() == 0 {
        Seq::empty()
    } else {
        awaits_of_lines(text, spans.drop_last()) + line_awaits(text, spans.last())
    }
}

/// The `await` facts of a text: every `await` that stands alone outside a line
/// comment, with its byte offset (truncated to 32 bits) and length 5.
pub open spec fn await_facts(text: Seq<char>) -> Seq<FactView> {
    awaits_of_lines(text, lines(text))
}

/// Whether `c` continues a word.
fn word_char(c: char) -> (b: bool)
    ensures
        b == is_word_char(c),
{
    is_ascii_alnum_char(c) || c == '_'
}

/// The length of the code of a line.
fn code_len(line: &[char]) -> (n: usize)
    ensures
        n <= line@.len(),
        line@.take(n as int) == code_of(line@),
{
    let pat: Vec<char> = vec!['/', '/'];
    proof {
        lemma_find_from(line@, pat@, 0);
    }
    match find_from_index(line, pat.as_slice(), 0) {
        Some(i) => i,
        None => {
            assert(line@.take(line@.len() as int) =~= line@);
            line.len()
        },
    }
}

/// Appends the `await` facts of the line `text[ls..le]`.
fn push_line_awaits(
    text: &[char],
    offs: &Vec<usize>,
    ls: usize,
    le: usize,
    facts: &mut Vec<SemanticFact>,
)
    requires
        ls <= le <= text@.len(),
        offs@.len() == text@.len() + 1,
        forall|k: int| 0 <= k <= text@.len() ==> #[trigger] offs@[k] == utf8_len(text@.take(k)),
    ensures
        facts_view(final(facts)@) == facts_view(old(facts)@) + line_awaits(
            text@,
            (ls as int, le as int),
        ),
{
    let line = &text[ls..le];
    let n = code_len(line);
    let code = &line[0..n];
    let ghost cv = code@;
    assert(cv == code_of(text@.subrange(ls as int, le as int)));
    let ghost f = |p: int| await_fact(text@, ls + p);
    let pat: Vec<char> = vec!['a', 'w', 'a', 'i', 't'];
    let mut from: usize = 0;
    loop
        invariant
            from <= code@.len(),
            ls <= le <= text@.len(),
            offs@.len() == text@.len() + 1,
            forall|k: int|
                0 <= k <= text@.len() ==> #[trigger] offs@[k] == utf8_len(text@.take(k)),
            code@ == cv,
            cv.len() <= le - ls,
            cv == text@.subrange(ls as int, le as int).take(cv.len() as int),
            pat@ == await_word(),
            f == (|p: int| await_fact(text@, ls + p)),
            facts_view(facts@) + await_hits(cv, from as int).map_values(f) == facts_view(
                old(facts)@,
            ) + await_hits(cv, 0).map_values(f),
        ensures
            facts_view(facts@) == facts_view(old(facts)@) + await_hits(cv, 0).map_values(f),
        decreases code@.len() + 1 - from,
    {
        proof {
            lemma_find_from(cv, pat@, from as int);
        }
        match find_from_index(code, pat.as_slice(), from) {
            None => {
                assert(await_hits(cv, from as int) =~= Seq::<int>::empty());
                assert(facts_view(facts@) =~= facts_view(facts@) + await_hits(
                    cv,
                    from as int,
                ).map_values(f));
                break ;
            },
            Some(p) => {
                let after = p + 5;
                let before_ok = p == 0 || !word_char(code[p - 1]);
                let after_ok = code.len() <= after || !word_char(code[after]);
                let ghost rest = await_hits(cv, after as int);
                let ghost prev = facts@;
                if before_ok && after_ok {
                    assert(stands_alone(cv, p as int));
                    assert(await_hits(cv, from as int) == seq![p as int] + rest);
                    let k = ls + p;
                    assert(cv[p as int] == text@[k as int]);
                    let fact = SemanticFact::AsyncBoundary {
                        boundary_kind: AsyncBoundaryKind::Await,
                        offset: offs[k] as u32,
                        length: 5,
                    };
                    facts.push(fact);
                    proof {
                        lemma_facts_view_push(prev, fact);
                        assert(fact@ == f(p as int));
                        assert((seq![p as int] + rest).map_values(f) =~= seq![f(p as int)]
                            + rest.map_values(f));
                        assert(facts_view(facts@) + rest.map_values(f) =~= facts_view(prev)
                            + await_hits(cv, from as int).map_values(f));
                    }
                } else {
                    assert(!stands_alone(cv, p as int));
                    assert(await_hits(cv, from as int) =~= rest);
                }
                from = after;
            },
        }
    }
}

/// Appends a fact for every `await` that stands alone outside a line comment
/// in the source, read as UTF-8 with invalid sequences replaced.
pub fn derive_awaits(src: &[u8], facts: &mut Vec<SemanticFact>)
    ensures
        facts_view(final(facts)@) == facts_view(old(facts)@) + await_facts(
            lossy_utf8_text(src@),
        ),
{
    let text = lossy_utf8(src);
    derive_awaits_in_text(text.as_str(), facts);
}

/// Appends a fact for every `await` that stands alone outside a line comment
/// in `text`.
pub fn derive_awaits_in_text(text: &str, facts: &mut Vec<SemanticFact>)
    ensures
        facts_view(final(facts)@) == facts_view(old(facts)@) + await_facts(text@),
{
    let (cs, offs) = byte_offsets(text);
    let ghost tv = cs@;
    let spans = line_spans(cs.as_slice());
    let ghost sv = spans_view(spans@);
    let mut j: usize = 0;
    while j < spans.len()
        invariant
            j <= spans@.len(),
            tv == cs@,
            tv == text@,
            sv == spans_view(spans@),
            sv == lines(tv),
            spans_within(sv, tv.len() as int),
            offs@.len() == tv.len() + 1,
            forall|k: int| 0 <= k <= tv.len() ==> #[trigger] offs@[k] == utf8_len(tv.take(k)),
            facts_view(facts@) == facts_view(old(facts)@) + awaits_of_lines(tv, sv.take(j as int)),
        decreases spans@.len() - j,
    {
        let (ls, le) = spans[j];
        assert(sv[j as int] == (ls as int, le as int));
        push_line_awaits(cs.as_slice(), &offs, ls, le, facts);
        assert(sv.take(j + 1).drop_last() =~= sv.take(j as int));
        j = j + 1;
    }
    assert(sv.take(spans@.len() as int) =~= sv);
}

/// The ` = ` of an aliased directive.
pub open spec fn alias_mark() -> Seq<char> {
    seq![' ', '=', ' ']
}

/// The module path and alias a `using` line imports: `using Foo.Bar;` imports
/// `Foo.Bar`, `using Alias = Foo.Bar;` imports `Foo.Bar` as `Alias`, and
/// `using static ...` imports nothing. The directive runs to the first `;` and
/// is trimmed; an empty one, one with a `(` but no `.`, or an alias with an
/// empty side imports nothing.
pub open spec fn using_directive(line: Seq<char>) -> Option<(Seq<char>, Option<Seq<char>>)> {
    match strip_prefix(trim_start(line), "using "@) {
        None => None,
        Some(rest) => if starts_with(rest, "static "@) {
            None
        } else {
            let end = match find(rest, ";"@) {
                Some(i) => i,
                None => rest.len() as int,
            };
            let directive = trim(rest.take(end));
            if directive.len() == 0 || (!contains(directive, "."@) && contains(directive, "("@)) {
                None
            } else {
                match find(directive, alias_mark()) {
                    Some(pos) => {
                        let alias = trim(directive.take(pos));
                        let path = trim(directive.skip(pos + 3));
                        if alias.len() == 0 || path.len() == 0 {
                            None
                        } else {
                            Some((path, Some(alias)))
                        }
                    },
                    None => Some((directive, None)),
                }
            }
        },
    }
}

/// The import fact of one line: its byte offset and byte length (each
/// truncated to 32 bits), the module path and the alias.
pub open spec fn import_fact(text: Seq<char>, span: (int, int)) -> Option<FactView> {
    match using_directive(text.subrange(span.0, span.1)) {
        Some((path, alias)) => Some(
            FactView::ImportModule {
                offset: utf8_len(text.take(span.0)) as u32,
                length: utf8_len(text.subrange(span.0, span.1)) as u32,
                import_path: path,
                alias,
            },
        ),
        None => None,
    }
}

/// The import facts of a text, one per `using` line, in order.
pub open spec fn import_facts(text: Seq<char>) -> Seq<FactView> {
    lines(text).filter_map(|span: (int, int)| import_fact(text, span))
}

/// Reads the `using` directive of one line.
pub fn using_of_line(line: &[char]) -> (r: Option<(String, Option<String>)>)
    ensures
        match r {
            Some((path, alias)) => using_directive(line@) == Some((path@, opt_str(alias))),
            None => using_directive(line@) is None,
        },
{
    let t0 = trim_start_index(line, 0, line.len());
    let trimmed = &line[t0..line.len()];
    assert(line@.subrange(0, line@.len() as int) =~= line@);
    assert(trimmed@ == trim_start(line@));
    let k = match strip_prefix_len(trimmed, "using ") {
        Some(k) => k,
        None => return None,
    };
    let rest = &trimmed[k..trimmed.len()];
    assert(rest@ =~= trimmed@.skip(k as int));
    if starts_with_str(rest, "static ") {
        return None;
    }
    let semi = crate::text::chars_of(";");
    let end = match find_from_index(rest, semi.as_slice(), 0) {
        Some(i) => {
            proof {
                lemma_find_from(rest@, semi@, 0);
            }
            i
        },
        None => rest.len(),
    };
    let (a, b) = trim_bounds(rest, 0, end);
    assert(rest@.subrange(0, end as int) =~= rest@.take(end as int));
    let directive = &rest[a..b];
    if a == b {
        return None;
    }
    let dot = crate::text::chars_of(".");
    let paren = crate::text::chars_of("(");
    if !crate::text::contains_chars(directive, dot.as_slice()) && crate::text::contains_chars(
        directive,
        paren.as_slice(),
    ) {
        return None;
    }
    let mark: Vec<char> = vec![' ', '=', ' '];
    let dn = directive.len();
    match find_from_index(directive, mark.as_slice(), 0) {
        Some(pos) => {
            proof {
                lemma_find_from(directive@, mark@, 0);
            }
            let (a1, b1) = trim_bounds(directive, 0, pos);
            let (a2, b2) = trim_bounds(directive, pos + 3, dn);
            assert(directive@.subrange(0, pos as int) =~= directive@.take(pos as int));
            assert(directive@.subrange(pos + 3, dn as int) =~= directive@.skip(pos + 3));
            if a1 == b1 || a2 == b2 {
                return None;
            }
            let path = string_of_range(directive, a2, b2);
            let alias = string_of_range(directive, a1, b1);
            Some((path, Some(alias)))
        },
        None => {
            assert(directive@.subrange(0, dn as int) =~= directive@);
            Some((string_of_range(directive, 0, dn), None))
        },
    }
}

/// The UTF-8 length of a stretch of characters is the difference of the
/// lengths of the prefixes that end there.
proof fn lemma_utf8_len_span(s: Seq<char>, a: int, b: int)
    requires
        0 <= a <= b <= s.len(),
    ensures
        utf8_len(s.take(b)) == utf8_len(s.take(a)) + utf8_len(s.subrange(a, b)),
{
    crate::text::lemma_encode_utf8_add(s.take(a), s.subrange(a, b));
    assert(s.take(a) + s.subrange(a, b) =~= s.take(b));
}

/// Appends an import fact for every `using` directive in the source, read as
/// UTF-8 with invalid sequences replaced.
pub fn derive_usings(src: &[u8], facts: &mut Vec<SemanticFact>)
    ensures
        facts_view(final(facts)@) == facts_view(old(facts)@) + import_facts(
            lossy_utf8_text(src@),
        ),
{
    let text = lossy_utf8(src);
    derive_usings_in_text(text.as_str(), facts);
}

/// Appends an import fact for every `using` directive in `text`.
pub fn derive_usings_in_text(text: &str, facts: &mut Vec<SemanticFact>)
    ensures
        facts_view(final(facts)@) == facts_view(old(facts)@) + import_facts(text@),
{
    let (cs, offs) = byte_offsets(text);
    let ghost tv = cs@;
    let spans = line_spans(cs.as_slice());
    let ghost sv = spans_view(spans@);
    let ghost f = |span: (int, int)| import_fact(tv, span);
    let mut j: usize = 0;
    while j < spans.len()
        invariant
            j <= spans@.len(),
            tv == cs@,
            tv == text@,
            sv == spans_view(spans@),
            sv == lines(tv),
            f == (|span: (int, int)| import_fact(tv, span)),
            spans_within(sv, tv.len() as int),
            offs@.len() == tv.len() + 1,
            forall|k: int| 0 <= k <= tv.len() ==> #[trigger] offs@[k] == utf8_len(tv.take(k)),
            facts_view(facts@) == facts_view(old(facts)@) + sv.take(j as int).filter_map(f),
        decreases spans@.len() - j,
    {
        let (ls, le) = spans[j];
        assert(sv[j as int] == (ls as int, le as int));
        proof {
            sv.lemma_filter_map_take_succ(f, j as int);
        }
        let line = &cs.as_slice()[ls..le];
        let ghost before = facts@;
        match using_of_line(line) {
            Some((path, alias)) => {
                proof {
                    lemma_utf8_len_span(tv, ls as int, le as int);
                }
                let fact = SemanticFact::ImportModule {
                    offset: offs[ls] as u32,
                    length: (offs[le] - offs[ls]) as u32,
                    import_path: path,
                    alias,
                };
                facts.push(fact);
                proof {
                    lemma_facts_view_push(before, fact);
                }
                assert(f(sv[j as int]) == Some(fact@));
            },
            None => {
                assert(f(sv[j as int]) is None);
            },
        }
        j = j + 1;
        assert(facts_view(facts@) =~= facts_view(old(facts)@) + sv.take(j as int).filter_map(f));
    }
    assert(sv.take(spans@.len() as int) =~= sv);
}

/// Every `await` reported stands alone: each position holds the word `await`
/// with no word character on either side, the positions rise, and none lies
/// before `from`.
pub proof fn lemma_await_hits(code: Seq<char>, from: int)
    requires
        0 <= from,
    ensures
        forall|k: int|
            0 <= k < await_hits(code, from).len() ==> {
                let p = #[trigger] await_hits(code, from)[k];
                &&& from <= p
                &&& occurs_at(code, await_word(), p)
                &&& stands_alone(code, p)
            },
        forall|k: int, l: int|
            0 <= k < l < await_hits(code, from).len() ==> await_hits(code, from)[k] + 5
                <= await_hits(code, from)[l],
    decreases code.len() + 1 - from,
{
    lemma_find_from(code, await_word(), from);
    match find_from(code, await_word(), from) {
        None => {},
        Some(p) => {
            lemma_await_hits(code, p + 5);
            let rest = await_hits(code, p + 5);
            let head: Seq<int> = if stands_alone(code, p) {
                seq![p]
            } else {
                Seq::empty()
            };
            assert(await_hits(code, from) == head + rest);
            assert forall|k: int| 0 <= k < await_hits(code, from).len() implies {
                let q = #[trigger] await_hits(code, from)[k];
                &&& from <= q
                &&& occurs_at(code, await_word(), q)
                &&& stands_alone(code, q)
            } by {
                if k >= head.len() {
                    assert(await_hits(code, from)[k] == rest[k - head.len()]);
                }
            }
            assert forall|k: int, l: int|
                0 <= k < l < await_hits(code, from).len() implies await_hits(code, from)[k] + 5
                <= await_hits(code, from)[l] by {
                if k >= head.len() {
                    assert(await_hits(code, from)[k] == rest[k - head.len()]);
                    assert(await_hits(code, from)[l] == rest[l - head.len()]);
                } else {
                    assert(await_hits(code, from)[l] == rest[l - head.len()]);
                }
            }
        },
    }
}

/// The code of a line is the line up to its first `//`: no `//` occurs in it,
/// and whatever of the line it leaves out begins with `//`.
pub proof fn lemma_code_of(line: Seq<char>)
    ensures
        code_of(line).len() <= line.len(),
        code_of(line) == line.take(code_of(line).len() as int),
        !contains(code_of(line), comment_mark()),
        code_of(line).len() < line.len() ==> occurs_at(
            line,
            comment_mark(),
            code_of(line).len() as int,
        ),
{
    lemma_find_from(line, comment_mark(), 0);
    let code = code_of(line);
    match find(line, comment_mark()) {
        Some(i) => {
            assert forall|j: int| !occurs_at(code, comment_mark(), j) by {
                if occurs_at(code, comment_mark(), j) {
                    assert(code.subrange(j, j + 2) =~= line.subrange(j, j + 2));
                    assert(occurs_at(line, comment_mark(), j));
                }
            }
        },
        None => {
            assert(line.take(line.len() as int) =~= line);
        },
    }
}

/// A `using static` line imports nothing, and every import has a non-empty
/// module path and, when aliased, a non-empty alias.
pub proof fn lemma_using_directive(line: Seq<char>)
    ensures
        (strip_prefix(trim_start(line), "using "@) matches Some(rest) && starts_with(
            rest,
            "static "@,
        )) ==> using_directive(line) is None,
        using_directive(line) matches Some((path, alias)) ==> path.len() > 0 && (
        alias matches Some(a) ==> a.len() > 0),
{
}

/// Imported paths and aliases are trimmed: each is non-empty and has no white
/// space at either end.
pub proof fn lemma_imports_are_trimmed(line: Seq<char>)
    ensures
        using_directive(line) matches Some((path, alias)) ==> {
            &&& path.len() > 0
            &&& !is_white_space(path[0])
            &&& !is_white_space(path.last())
            &&& alias matches Some(a) ==> {
                &&& a.len() > 0
                &&& !is_white_space(a[0])
                &&& !is_white_space(a.last())
            }
        },
{
    match strip_prefix(trim_start(line), "using "@) {
        None => {},
        Some(rest) => {
            let end = match find(rest, ";"@) {
                Some(i) => i,
                None => rest.len() as int,
            };
            let directive = trim(rest.take(end));
            lemma_trim(rest.take(end));
            match find(directive, alias_mark()) {
                Some(pos) => {
                    lemma_trim(directive.take(pos));
                    lemma_trim(directive.skip(pos + 3));
                },
                None => {},
            }
        },
    }
}

/// Two occurrences of `await` never overlap.
proof fn lemma_await_no_overlap(code: Seq<char>, p: int, j: int)
    requires
        occurs_at(code, await_word(), p),
        occurs_at(code, await_word(), j),
        p < j,
    ensures
        p + 5 <= j,
{
    if j < p + 5 {
        let w = seq!['a', 'w', 'a', 'i', 't'];
        assert(code.subrange(j, j + 5)[0] == code[j]);
        assert(code.subrange(j, j + 5)[1] == code[j + 1]);
        assert(code.subrange(p, p + 5)[j - p] == code[j]);
        if j + 1 < p + 5 {
            assert(code.subrange(p, p + 5)[j + 1 - p] == code[j + 1]);
        }
        assert(code[j] == w[0] && code[j + 1] == w[1]);
    }
}

/// The `await`s reported from `from` on are exactly the positions at or after
/// `from` where the five characters `await` stand with neither an ASCII letter,
/// digit or `_` just before them nor just after them.
pub proof fn lemma_awaits_exact(code: Seq<char>, from: int)
    requires
        0 <= from,
    ensures
        forall|j: int|
            await_hits(code, from).contains(j) <==> {
                &&& from <= j
                &&& j + 5 <= code.len()
                &&& code.subrange(j, j + 5) == seq!['a', 'w', 'a', 'i', 't']
                &&& (j == 0 || !(is_ascii_alnum(code[j - 1]) || code[j - 1] == '_'))
                &&& (code.len() <= j + 5 || !(is_ascii_alnum(code[j + 5]) || code[j + 5] == '_'))
            },
    decreases code.len() + 1 - from,
{
    lemma_find_from(code, await_word(), from);
    match find_from(code, await_word(), from) {
        None => {
            assert forall|j: int| !await_hits(code, from).contains(j) by {}
            assert forall|j: int|
                from <= j && j + 5 <= code.len() && #[trigger] code.subrange(j, j + 5) == seq![
                    'a',
                    'w',
                    'a',
                    'i',
                    't',
                ] implies false by {
                assert(occurs_at(code, await_word(), j));
            }
        },
        Some(p) => {
            lemma_awaits_exact(code, p + 5);
            let rest = await_hits(code, p + 5);
            let head: Seq<int> = if stands_alone(code, p) {
                seq![p]
            } else {
                Seq::empty()
            };
            assert(await_hits(code, from) == head + rest);
            assert forall|j: int|
                await_hits(code, from).contains(j) <==> {
                    &&& from <= j
                    &&& j + 5 <= code.len()
                    &&& code.subrange(j, j + 5) == seq!['a', 'w', 'a', 'i', 't']
                    &&& (j == 0 || !(is_ascii_alnum(code[j - 1]) || code[j - 1] == '_'))
                    &&& (code.len() <= j + 5 || !(is_ascii_alnum(code[j + 5]) || code[j + 5]
                        == '_'))
                } by {
                let hits = await_hits(code, from);
                if hits.contains(j) {
                    let k = choose|k: int| 0 <= k < hits.len() && hits[k] == j;
                    if k >= head.len() {
                        assert(rest[k - head.len()] == j);
                        assert(rest.contains(j));
                    } else {
                        assert(j == p);
                    }
                }
                if from <= j && j + 5 <= code.len() && code.subrange(j, j + 5) == seq![
                    'a',
                    'w',
                    'a',
                    'i',
                    't',
                ] && (j == 0 || !(is_ascii_alnum(code[j - 1]) || code[j - 1] == '_')) && (
                code.len() <= j + 5 || !(is_ascii_alnum(code[j + 5]) || code[j + 5] == '_')) {
                    assert(occurs_at(code, await_word(), j));
                    if j == p {
                        assert(stands_alone(code, p));
                        assert(hits[0] == j);
                    } else {
                        assert(j > p);
                        lemma_await_no_overlap(code, p, j);
                        assert(rest.contains(j));
                        let m = choose|m: int| 0 <= m < rest.len() && rest[m] == j;
                        assert(hits[head.len() + m] == j);
                    }
                }
            }
        },
    }
}

/// Where nothing occurs, `find` finds nothing.
proof fn lemma_find_absent(s: Seq<char>, p: Seq<char>)
    requires
        !contains(s, p),
    ensures
        find(s, p) is None,
{
    lemma_find_from(s, p, 0);
    if let Some(i) = find(s, p) {
        assert(occurs_at(s, p, i));
    }
}

/// `find` gives the first occurrence.
proof fn lemma_find_first(s: Seq<char>, p: Seq<char>, k: int)
    requires
        occurs_at(s, p, k),
        forall|j: int| 0 <= j < k ==> !occurs_at(s, p, j),
    ensures
        find(s, p) == Some(k),
{
    lemma_find_from(s, p, 0);
    match find(s, p) {
        Some(i) => {
            if i < k {
                assert(!occurs_at(s, p, i));
            }
        },
        None => {
            assert(!occurs_at(s, p, k));
        },
    }
}

/// Text with no white space at either end is its own trim.
proof fn lemma_trim_of_trimmed(s: Seq<char>)
    requires
        s.len() > 0,
        !is_white_space(s[0]),
        !is_white_space(s.last()),
    ensures
        trim(s) == s,
{
    assert(trim_start(s) == s);
    assert(crate::text::trim_end(s) == s);
}

/// A character that does not occur in `s` gives no one-character occurrence.
proof fn lemma_no_char(s: Seq<char>, c: char)
    requires
        forall|k: int| 0 <= k < s.len() ==> s[k] != c,
    ensures
        !contains(s, seq![c]),
{
    assert forall|j: int| !occurs_at(s, seq![c], j) by {
        if occurs_at(s, seq![c], j) {
            assert(s.subrange(j, j + 1)[0] == s[j]);
        }
    }
}

/// An occurrence in a part is an occurrence in the whole.
proof fn lemma_contains_in_suffix(a: Seq<char>, b: Seq<char>, p: Seq<char>)
    requires
        contains(b, p),
    ensures
        contains(a + b, p),
{
    let j = choose|j: int| occurs_at(b, p, j);
    assert((a + b).subrange(a.len() + j, a.len() + j + p.len()) =~= b.subrange(j, j + p.len()));
    assert(occurs_at(a + b, p, a.len() + j));
}

/// `using M;` imports the module path `M` without an alias, and
/// `using A = M;` imports `M` under the alias `A`, for trimmed, non-empty `A`
/// and `M` without `;` (and `A` without `=`), a directive that does not begin
/// with `static ` and has a `.` or no `(`.
pub proof fn lemma_using_imports(a: Seq<char>, m: Seq<char>)
    requires
        m.len() > 0,
        !is_white_space(m[0]),
        !is_white_space(m.last()),
        forall|k: int| 0 <= k < m.len() ==> m[k] != ';',
        !starts_with(m + seq![';'], "static "@),
    ensures
        !contains(m, alias_mark()) && (contains(m, "."@) || !contains(m, "("@)) ==> using_directive(
            "using "@ + m + seq![';'],
        ) == Some((m, None::<Seq<char>>)),
        a.len() > 0 && !is_white_space(a[0]) && !is_white_space(a.last()) && (forall|k: int|
            0 <= k < a.len() ==> a[k] != ';' && a[k] != '=') && (contains(m, "."@) || !contains(
            a + alias_mark() + m,
            "("@,
        )) && !starts_with(a + alias_mark() + m + seq![';'], "static "@) ==> using_directive("using "@ + a + alias_mark() + m + seq![';']) == Some(
            (m, Some(a)),
        ),
{
    reveal_strlit("using ");
    reveal_strlit(";");
    reveal_strlit(".");
    reveal_strlit("(");
    let semi = seq![';'];
    assert(";"@ =~= semi);
    // `using M;`
    let line = "using "@ + m + semi;
    assert(line[0] == 'u');
    assert(trim_start(line) == line);
    assert(line =~= "using "@ + (m + semi));
    assert(line.subrange(0, 6) =~= "using "@);
    assert(line.skip(6) =~= m + semi);
    assert(strip_prefix(line, "using "@) == Some(m + semi));
    lemma_no_char(m, ';');
    let ms = m + semi;
    assert(ms.subrange(m.len() as int, m.len() + 1int) =~= semi);
    assert forall|j: int| 0 <= j < m.len() implies !occurs_at(ms, semi, j) by {
        if occurs_at(ms, semi, j) {
            assert(ms.subrange(j, j + 1)[0] == ms[j]);
        }
    }
    lemma_find_first(ms, semi, m.len() as int);
    assert(ms.take(m.len() as int) =~= m);
    lemma_trim_of_trimmed(m);
    if !contains(m, alias_mark()) && (contains(m, "."@) || !contains(m, "("@)) {
        lemma_find_absent(m, alias_mark());
    }
    // `using A = M;`
    if a.len() > 0 && !is_white_space(a[0]) && !is_white_space(a.last()) && (forall|k: int|
        0 <= k < a.len() ==> a[k] != ';' && a[k] != '=') && (contains(m, "."@) || !contains(
        a + alias_mark() + m,
        "("@,
    )) && !starts_with(a + alias_mark() + m + seq![';'], "static "@) {
        let d = a + alias_mark() + m;
        let line2 = "using "@ + a + alias_mark() + m + semi;
        assert(line2[0] == 'u');
        assert(trim_start(line2) == line2);
        assert(line2.subrange(0, 6) =~= "using "@);
        assert(line2.skip(6) =~= d + semi);
        assert(strip_prefix(line2, "using "@) == Some(d + semi));
        let ds = d + semi;
        assert(ds.subrange(d.len() as int, d.len() + 1int) =~= semi);
        assert forall|j: int| 0 <= j < d.len() implies !occurs_at(ds, semi, j) by {
            if occurs_at(ds, semi, j) {
                assert(ds.subrange(j, j + 1)[0] == ds[j]);
                if j < a.len() {
                    assert(ds[j] == a[j]);
                } else if j >= a.len() + 3 {
                    assert(ds[j] == m[j - a.len() - 3]);
                } else {
                    assert(ds[j] == alias_mark()[j - a.len()]);
                }
            }
        }
        lemma_find_first(ds, semi, d.len() as int);
        assert(ds.take(d.len() as int) =~= d);
        assert(d[0] == a[0]);
        assert(d.last() == m.last());
        lemma_trim_of_trimmed(d);
        if contains(m, "."@) {
            lemma_contains_in_suffix(a + alias_mark(), m, "."@);
            assert(a + alias_mark() + m =~= (a + alias_mark()) + m);
        }
        let k = a.len() as int;
        assert(d.subrange(k, k + 3) =~= alias_mark());
        assert forall|j: int| 0 <= j < k implies !occurs_at(d, alias_mark(), j) by {
            if occurs_at(d, alias_mark(), j) {
                assert(d.subrange(j, j + 3)[1] == d[j + 1]);
                if j + 1 < k {
                    assert(d[j + 1] == a[j + 1]);
                } else {
                    assert(d[j + 1] == ' ');
                }
            }
        }
        lemma_find_first(d, alias_mark(), k);
        assert(d.take(k) =~= a);
        assert(d.skip(k + 3) =~= m);
        lemma_trim_of_trimmed(a);
    }
}

} // verus!
