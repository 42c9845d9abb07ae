//! Symbol declarations taken from retrieval chunks.
use vstd::prelude::*;

use crate::facts::{facts_view, lemma_facts_view_push, FactView, SemanticFact, SymbolKind};
use crate::records::chunks_view;
use crate::scopes::{
    chunk_scopes, collect_scopes, lemma_scope_chain_encloses, scope_name, scope_of, declared_type, declared_type_start, qualified_name, qualify,
    scope_chain, scope_stack_for_offset, scopes_view, strings_view, strip_or_keep,
    strip_or_keep_start, Chunk, Scope,
};
use crate::text::{chars_of, strip_prefix, string_of_range, trim, trim_bounds};

verus! {

/// The name a declaration's own scope entry would carry: types and interfaces
/// open a scope under their trimmed name; a function opens none, and is matched
/// by its name as written.
pub open spec fn own_scope_name(kind: SymbolKind, name: Seq<char>) -> Seq<char> {
    if kind == SymbolKind::Function {
        name
    } else {
        trim(name)
    }
}

/// A declaration qualified by the scopes that enclose it, leaving out the entry
/// with its own offset, length and [`own_scope_name`].
pub open spec fn scoped_declaration(
    kind: SymbolKind,
    c: Chunk,
    name: Seq<char>,
    scopes: Seq<Scope>,
) -> FactView {
    FactView::DeclareSymbol {
        kind,
        offset: c.0,
        length: c.1,
        name,
        qualified_name: qualified_name(
            scope_chain(scopes, c.0, c.0, c.1, own_scope_name(kind, name)),
            name,
        ),
    }
}

/// The declaration a chunk makes: kind 1 a module (qualified by its own name),
/// kind 2 a type, kind 3 a function, kind 7 an interface; other kinds none.
pub open spec fn declaration_of(c: Chunk, scopes: Seq<Scope>) -> Option<FactView> {
    if c.3 == 1 {
        let name = strip_or_keep(c.2, "namespace "@);
        Some(
            FactView::DeclareSymbol {
                kind: SymbolKind::Module,
                offset: c.0,
                length: c.1,
                name,
                qualified_name: Some(name),
            },
        )
    } else if c.3 == 2 {
        Some(scoped_declaration(SymbolKind::Type, c, declared_type(c.2), scopes))
    } else if c.3 == 3 {
        Some(scoped_declaration(SymbolKind::Function, c, strip_or_keep(c.2, "function "@), scopes))
    } else if c.3 == 7 {
        Some(
            scoped_declaration(SymbolKind::Interface, c, strip_or_keep(c.2, "interface "@), scopes),
        )
    } else {
        None
    }
}

/// The declarations of a list of chunks, in order.
pub open spec fn declarations(chunks: Seq<Chunk>) -> Seq<FactView> {
    chunks.filter_map(|c: Chunk| declaration_of(c, chunk_scopes(chunks)))
}

/// The declaration of the name `label[k..]`, qualified by its enclosing scopes.
fn scoped_fact(
    kind: SymbolKind,
    offset: u32,
    length: u32,
    label: &[char],
    k: usize,
    scopes: &[(u32, u32, String)],
) -> (f: SemanticFact)
    requires
        k <= label@.len(),
    ensures
        f@ == scoped_declaration(
            kind,
            (offset, length, label@, 0u8),
            label@.skip(k as int),
            scopes_view(scopes@),
        ),
{
    let name = string_of_range(label, k, label.len());
    assert(label@.subrange(k as int, label@.len() as int) =~= label@.skip(k as int));
    let (a, b) = if kind == SymbolKind::Function {
        (k, label.len())
    } else {
        trim_bounds(label, k, label.len())
    };
    let own = string_of_range(label, a, b);
    let chain = scope_stack_for_offset(scopes, offset, offset, length, own.as_str());
    let qualified = if chain.len() == 0 {
        None
    } else {
        let nc = chars_of(name.as_str());
        Some(qualify(&chain, nc.as_slice()))
    };
    SemanticFact::DeclareSymbol { kind, offset, length, name, qualified_name: qualified }
}

/// Appends a declaration for every module, type, function and interface chunk,
/// types, functions and interfaces qualified by the scopes that enclose them.
pub fn derive_declarations(retrieval: &[(u32, u32, &str, u8)], facts: &mut Vec<SemanticFact>)
    ensures
        facts_view(final(facts)@) == facts_view(old(facts)@) + declarations(
            chunks_view(retrieval@),
        ),
{
    let ghost chunks = chunks_view(retrieval@);
    let ghost all_scopes = chunk_scopes(chunks);
    let ghost f = |c: Chunk| declaration_of(c, all_scopes);
    let scopes = collect_scopes(retrieval);
    let mut i: usize = 0;
    while i < retrieval.len()
        invariant
            i <= retrieval@.len(),
            chunks == chunks_view(retrieval@),
            all_scopes == chunk_scopes(chunks),
            scopes_view(scopes@) == all_scopes,
            f == (|c: Chunk| declaration_of(c, all_scopes)),
            facts_view(facts@) == facts_view(old(facts)@) + chunks.take(i as int).filter_map(f),
        decreases retrieval@.len() - i,
    {
        let (offset, length, label, kind) = retrieval[i];
        proof {
            chunks.lemma_filter_map_take_succ(f, i as int);
        }
        assert(chunks[i as int] == (offset, length, label@, kind));
        let ghost before = facts@;
        let lc = chars_of(label);
        if kind == 1 {
            let k = strip_or_keep_start(lc.as_slice(), "namespace ");
            let name = string_of_range(lc.as_slice(), k, lc.len());
            let name2 = string_of_range(lc.as_slice(), k, lc.len());
            assert(lc@.subrange(k as int, lc@.len() as int) =~= lc@.skip(k as int));
            let fact = SemanticFact::DeclareSymbol {
                kind: SymbolKind::Module,
                offset,
                length,
                name,
                qualified_name: Some(name2),
            };
            facts.push(fact);
            proof {
                lemma_facts_view_push(before, fact);
            }
        } else if kind == 2 || kind == 3 || kind == 7 {
            let (sk, k) = if kind == 2 {
                (SymbolKind::Type, declared_type_start(lc.as_slice()))
            } else if kind == 3 {
                (SymbolKind::Function, strip_or_keep_start(lc.as_slice(), "function "))
            } else {
                (SymbolKind::Interface, strip_or_keep_start(lc.as_slice(), "interface "))
            };
            let fact = scoped_fact(sk, offset, length, lc.as_slice(), k, scopes.as_slice());
            facts.push(fact);
            proof {
                lemma_facts_view_push(before, fact);
            }
        }
        i = i + 1;
        assert(facts_view(facts@) =~= facts_view(old(facts)@) + chunks.take(i as int).filter_map(
            f,
        ));
    }
    assert(chunks.take(retrieval@.len() as int) =~= chunks);
}

/// A type or interface never lies in its own scope: every name in the chain
/// that qualifies its declaration comes from an enclosing scope entry other
/// than the entry the chunk itself opens.
pub proof fn lemma_never_in_own_scope(chunks: Seq<Chunk>, c: Chunk, name: Seq<char>, i: int)
    requires
        c.3 == 2 || c.3 == 7,
        scope_name(c.2, c.3) == Some(name),
        0 <= i < scope_chain(chunk_scopes(chunks), c.0, c.0, c.1, trim(name)).len(),
    ensures
        exists|e: Scope|
            #![trigger chunk_scopes(chunks).contains(e)]
            chunk_scopes(chunks).contains(e) && e.2 == scope_chain(
                chunk_scopes(chunks),
                c.0,
                c.0,
                c.1,
                trim(name),
            )[i] && (scope_of(c) matches Some(own) ==> e != own),
{
    lemma_scope_chain_encloses(chunk_scopes(chunks), c.0, c.0, c.1, trim(name), i);
}

/// The chain that qualifies a type or interface declaration is the one the
/// lemma above speaks of.
pub proof fn lemma_declaration_chain(chunks: Seq<Chunk>, c: Chunk)
    requires
        c.3 == 2 || c.3 == 7,
    ensures
        scope_name(c.2, c.3) matches Some(name) && declaration_of(c, chunk_scopes(chunks))
            == Some(
            FactView::DeclareSymbol {
                kind: if c.3 == 2 {
                    SymbolKind::Type
                } else {
                    SymbolKind::Interface
                },
                offset: c.0,
                length: c.1,
                name,
                qualified_name: qualified_name(
                    scope_chain(chunk_scopes(chunks), c.0, c.0, c.1, trim(name)),
                    name,
                ),
            },
        ),
{
}

/// A keyword put in front of a name is stripped off again.
proof fn lemma_strip_own_prefix(p: Seq<char>, n: Seq<char>)
    ensures
        strip_prefix(p + n, p) == Some(n),
{
    assert((p + n).subrange(0, p.len() as int) =~= p);
    assert((p + n).skip(p.len() as int) =~= n);
}

/// A label that begins with another letter does not begin with `p`.
proof fn lemma_strip_other_prefix(p: Seq<char>, q: Seq<char>, n: Seq<char>)
    requires
        p.len() > 0,
        q.len() > 0,
        p[0] != q[0],
    ensures
        strip_prefix(q + n, p) is None,
{
    if p.len() <= (q + n).len() {
        assert((q + n).subrange(0, p.len() as int)[0] == q[0]);
    }
}

/// Labels name what they declare: `namespace N` declares the module `N`
/// (qualified by itself), `type N`, `class N`, `struct N` and `enum N` the type
/// `N`, `function N` the function `N` and `interface N` the interface `N`, with
/// the chunk's offset and length.
pub proof fn lemma_declared_names(o: u32, l: u32, n: Seq<char>, scopes: Seq<Scope>)
    ensures
        declaration_of((o, l, "namespace "@ + n, 1), scopes) == Some(
            FactView::DeclareSymbol {
                kind: SymbolKind::Module,
                offset: o,
                length: l,
                name: n,
                qualified_name: Some(n),
            },
        ),
        declaration_of((o, l, "type "@ + n, 2), scopes) matches Some(
            FactView::DeclareSymbol { kind, offset, length, name, .. },
        ) && kind == SymbolKind::Type && offset == o && length == l && name == n,
        declaration_of((o, l, "class "@ + n, 2), scopes) matches Some(
            FactView::DeclareSymbol { kind, offset, length, name, .. },
        ) && kind == SymbolKind::Type && offset == o && length == l && name == n,
        declaration_of((o, l, "struct "@ + n, 2), scopes) matches Some(
            FactView::DeclareSymbol { kind, offset, length, name, .. },
        ) && kind == SymbolKind::Type && offset == o && length == l && name == n,
        declaration_of((o, l, "enum "@ + n, 2), scopes) matches Some(
            FactView::DeclareSymbol { kind, offset, length, name, .. },
        ) && kind == SymbolKind::Type && offset == o && length == l && name == n,
        declaration_of((o, l, "function "@ + n, 3), scopes) matches Some(
            FactView::DeclareSymbol { kind, offset, length, name, .. },
        ) && kind == SymbolKind::Function && offset == o && length == l && name == n,
        declaration_of((o, l, "interface "@ + n, 7), scopes) matches Some(
            FactView::DeclareSymbol { kind, offset, length, name, .. },
        ) && kind == SymbolKind::Interface && offset == o && length == l && name == n,
{
    reveal_strlit("namespace ");
    reveal_strlit("type ");
    reveal_strlit("class ");
    reveal_strlit("struct ");
    reveal_strlit("enum ");
    reveal_strlit("function ");
    reveal_strlit("interface ");
    lemma_strip_own_prefix("namespace "@, n);
    lemma_strip_own_prefix("type "@, n);
    lemma_strip_own_prefix("class "@, n);
    lemma_strip_own_prefix("struct "@, n);
    lemma_strip_own_prefix("enum "@, n);
    lemma_strip_own_prefix("function "@, n);
    lemma_strip_own_prefix("interface "@, n);
    lemma_strip_other_prefix("type "@, "class "@, n);
    lemma_strip_other_prefix("type "@, "struct "@, n);
    lemma_strip_other_prefix("class "@, "struct "@, n);
    lemma_strip_other_prefix("type "@, "enum "@, n);
    lemma_strip_other_prefix("class "@, "enum "@, n);
    lemma_strip_other_prefix("struct "@, "enum "@, n);
}

/// The scope a chunk opens is named by its label without the keyword, trimmed:
/// `namespace N`, `type N`, `class N`, `struct N`, `enum N` and `interface N`
/// open the scope `trim(N)` (when that is not empty and the length is not zero);
/// functions open none.
pub proof fn lemma_scope_names(o: u32, l: u32, n: Seq<char>)
    ensures
        ({
            let opened = if trim(n).len() > 0 && l > 0 {
                Some((o, l, trim(n)))
            } else {
                None
            };
            &&& scope_of((o, l, "namespace "@ + n, 1)) == opened
            &&& scope_of((o, l, "type "@ + n, 2)) == opened
            &&& scope_of((o, l, "class "@ + n, 2)) == opened
            &&& scope_of((o, l, "struct "@ + n, 2)) == opened
            &&& scope_of((o, l, "enum "@ + n, 2)) == opened
            &&& scope_of((o, l, "interface "@ + n, 7)) == opened
            &&& scope_of((o, l, "function "@ + n, 3)) is None
        }),
{
    reveal_strlit("namespace ");
    reveal_strlit("type ");
    reveal_strlit("class ");
    reveal_strlit("struct ");
    reveal_strlit("enum ");
    reveal_strlit("interface ");
    lemma_strip_own_prefix("namespace "@, n);
    lemma_strip_own_prefix("type "@, n);
    lemma_strip_own_prefix("class "@, n);
    lemma_strip_own_prefix("struct "@, n);
    lemma_strip_own_prefix("enum "@, n);
    lemma_strip_own_prefix("interface "@, n);
    lemma_strip_other_prefix("type "@, "class "@, n);
    lemma_strip_other_prefix("type "@, "struct "@, n);
    lemma_strip_other_prefix("class "@, "struct "@, n);
    lemma_strip_other_prefix("type "@, "enum "@, n);
    lemma_strip_other_prefix("class "@, "enum "@, n);
    lemma_strip_other_prefix("struct "@, "enum "@, n);
}

} // verus!
