//! The semantic facts this plugin derives, and their plain-value view.
use vstd::prelude::*;

verus! {

/// What a declared symbol is.
#[derive(Clone, Copy, Debug, PartialEq, Eq, Structural)]
pub enum SymbolKind {
    Module,
    Type,
    Function,
    Interface,
}

/// What an I/O call touches.
#[derive(Clone, Copy, Debug, PartialEq, Eq, Structural)]
pub enum IOKind {
    Network,
    FileRead,
    FileWrite,
    StdIO,
}

/// Where control may be suspended.
#[derive(Clone, Copy, Debug, PartialEq, Eq, Structural)]
pub enum AsyncBoundaryKind {
    Await,
}

/// One fact about the analysed source. Offsets and lengths are in bytes.
#[derive(Debug)]
pub enum SemanticFact {
    DeclareSymbol {
        kind: SymbolKind,
        offset: u32,
        length: u32,
        name: String,
        qualified_name: Option<String>,
    },
    Calls { caller_offset: u32, caller_length: u32, callee: String },
    IOOperation { io_kind: IOKind, offset: u32, length: u32, descriptor: Option<String> },
    AsyncBoundary { boundary_kind: AsyncBoundaryKind, offset: u32, length: u32 },
    ImportModule { offset: u32, length: u32, import_path: String, alias: Option<String> },
}

/// A [`SemanticFact`] with its strings taken as character sequences.
pub enum FactView {
    DeclareSymbol {
        kind: SymbolKind,
        offset: u32,
        length: u32,
        name: Seq<char>,
        qualified_name: Option<Seq<char>>,
    },
    Calls { caller_offset: u32, caller_length: u32, callee: Seq<char> },
    IOOperation { io_kind: IOKind, offset: u32, length: u32, descriptor: Option<Seq<char>> },
    AsyncBoundary { boundary_kind: AsyncBoundaryKind, offset: u32, length: u32 },
    ImportModule { offset: u32, length: u32, import_path: Seq<char>, alias: Option<Seq<char>> },
}

/// An optional string as an optional character sequence.
pub open spec fn opt_str(s: Option<String>) -> Option<Seq<char>> {
    match s {
        Some(s) => Some(s@),
        None => None,
    }
}

impl View for SemanticFact {
    type V = FactView;

    open spec fn view(&self) -> FactView {
        match self {
            SemanticFact::DeclareSymbol { kind, offset, length, name, qualified_name } => {
                FactView::DeclareSymbol {
                    kind: *kind,
                    offset: *offset,
                    length: *length,
                    name: name@,
                    qualified_name: opt_str(*qualified_name),
                }
            },
            SemanticFact::Calls { caller_offset, caller_length, callee } => FactView::Calls {
                caller_offset: *caller_offset,
                caller_length: *caller_length,
                callee: callee@,
            },
            SemanticFact::IOOperation { io_kind, offset, length, descriptor } => {
                FactView::IOOperation {
                    io_kind: *io_kind,
                    offset: *offset,
                    length: *length,
                    descriptor: opt_str(*descriptor),
                }
            },
            SemanticFact::AsyncBoundary { boundary_kind, offset, length } => {
                FactView::AsyncBoundary {
                    boundary_kind: *boundary_kind,
                    offset: *offset,
                    length: *length,
                }
            },
            SemanticFact::ImportModule { offset, length, import_path, alias } => {
                FactView::ImportModule {
                    offset: *offset,
                    length: *length,
                    import_path: import_path@,
                    alias: opt_str(*alias),
                }
            },
        }
    }
}

/// A list of facts as plain values.
pub open spec fn facts_view(s: Seq<SemanticFact>) -> Seq<FactView> {
    s.map_values(|f: SemanticFact| f@)
}

/// Appending one fact extends the view by that fact.
pub proof fn lemma_facts_view_push(s: Seq<SemanticFact>, f: SemanticFact)
    ensures
        facts_view(s.push(f)) == facts_view(s).push(f@),
{
    assert(facts_view(s.push(f)) =~= facts_view(s).push(f@));
}

} // verus!
