//! Semantic facts for C# sources, derived from what the parser capabilities
//! report (call sites and retrieval chunks) and from the source text itself:
//! symbol declarations with scope-qualified names, call edges, I/O operations,
//! `using` imports and `await` boundaries.
use vstd::prelude::*;

pub mod calls;
pub mod declarations;
pub mod facts;
pub mod records;
pub mod scopes;
pub mod source;
pub mod text;
pub mod wire;

use crate::calls::{call_edges, derive_call_edges};
use crate::declarations::{declarations, derive_declarations};
use crate::facts::{facts_view, FactView, SemanticFact};
use crate::records::{decode_call_sites, decode_retrieval, decoded_call_sites, decoded_retrieval};
use crate::scopes::chunk_scopes;
use crate::source::{await_facts, derive_awaits, derive_usings, import_facts};
use crate::text::lossy_utf8_text;

verus! {

/// Every fact for a source, given the call-site and retrieval answers of the
/// parser: declarations, then call edges (with I/O operations), then imports,
/// then `await` boundaries.
pub open spec fn semantic_facts(src: Seq<u8>, call_sites: Seq<u8>, retrieval: Seq<u8>) -> Seq<
    FactView,
> {
    let chunks = decoded_retrieval(retrieval);
    let text = lossy_utf8_text(src);
    declarations(chunks) + call_edges(decoded_call_sites(call_sites), chunk_scopes(chunks))
        + import_facts(text) + await_facts(text)
}

/// Derives every fact for `src` from the parser's answers.
pub fn derive_semantic_facts(src: &[u8], call_sites_raw: &[u8], retrieval_raw: &[u8]) -> (facts:
    Vec<SemanticFact>)
    ensures
        facts_view(facts@) == semantic_facts(src@, call_sites_raw@, retrieval_raw@),
{
    let call_sites = decode_call_sites(call_sites_raw);
    let retrieval = decode_retrieval(retrieval_raw);
    let mut facts: Vec<SemanticFact> = Vec::new();
    assert(facts_view(facts@) =~= Seq::<FactView>::empty());
    derive_declarations(retrieval.as_slice(), &mut facts);
    derive_call_edges(call_sites.as_slice(), retrieval.as_slice(), &mut facts);
    derive_usings(src, &mut facts);
    derive_awaits(src, &mut facts);
    facts
}

} // verus!
