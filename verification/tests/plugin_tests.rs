use semantic_facts_csharp::calls::derive_call_edges;
use semantic_facts_csharp::declarations::derive_declarations;
use semantic_facts_csharp::facts::{IOKind, SemanticFact};
use semantic_facts_csharp::source::{derive_awaits, derive_usings};

// namespace App (0..200), class Store (10..150), method Save (30..80).
fn retrieval_fixture() -> Vec<(u32, u32, &'static str, u8)> {
    vec![
        (0, 200, "namespace App", 1),
        (10, 140, "class Store", 2),
        (30, 50, "function Save", 3),
        (100, 30, "function Load", 3),
    ]
}

fn qualified_of(facts: &[SemanticFact], wanted: &str) -> Option<Option<String>> {
    facts.iter().find_map(|f| match f {
        SemanticFact::DeclareSymbol { name, qualified_name, .. } if name == wanted => {
            Some(qualified_name.clone())
        }
        _ => None,
    })
}

#[test]
fn methods_carry_scope_qualified_names() {
    let ret = retrieval_fixture();
    let mut facts = Vec::new();
    derive_declarations(&ret, &mut facts);
    let q = qualified_of(&facts, "Save").flatten();
    assert_eq!(q, Some("App::Store::Save".to_string()));
    // The type itself must not include itself in its own scope.
    let qt = qualified_of(&facts, "Store").flatten();
    assert_eq!(qt, Some("App::Store".to_string()));
}

#[test]
fn this_receiver_resolves_to_enclosing_type() {
    let ret = retrieval_fixture();
    let sites = vec![(40u32, "this.Save")];
    let mut facts = Vec::new();
    derive_call_edges(&sites, &ret, &mut facts);
    assert!(facts.iter().any(|f| matches!(f,
        SemanticFact::Calls { callee, .. } if callee == "App::Store::Save")));
}

#[test]
fn base_receiver_stays_bare() {
    let ret = retrieval_fixture();
    let sites = vec![(40u32, "base.Dispose")];
    let mut facts = Vec::new();
    derive_call_edges(&sites, &ret, &mut facts);
    assert!(facts.iter().any(|f| matches!(f,
        SemanticFact::Calls { callee, .. } if callee == "Dispose")));
}

#[test]
fn usings_emit_import_facts_with_alias() {
    let src = b"using System.Text;\nusing IO = System.IO;\nusing static System.Math;\nnamespace App {}\n";
    let mut facts = Vec::new();
    derive_usings(src, &mut facts);
    assert!(facts.iter().any(|f| matches!(f,
        SemanticFact::ImportModule { import_path, alias: None, .. } if import_path == "System.Text")));
    assert!(facts.iter().any(|f| matches!(f,
        SemanticFact::ImportModule { import_path, alias: Some(a), .. }
            if import_path == "System.IO" && a == "IO")));
    assert!(!facts.iter().any(|f| matches!(f,
        SemanticFact::ImportModule { import_path, .. } if import_path.contains("Math"))));
}

#[test]
fn io_classification_hits_csharp_signals() {
    let ret: Vec<(u32, u32, &str, u8)> = vec![];
    let sites = vec![
        (0u32, "HttpClient.GetAsync"),
        (10u32, "File.ReadAllText"),
        (20u32, "StreamWriter.Write"),
        (30u32, "Console.WriteLine"),
        (40u32, "Save"),
    ];
    let mut facts = Vec::new();
    derive_call_edges(&sites, &ret, &mut facts);
    let kinds: Vec<IOKind> = facts
        .iter()
        .filter_map(|f| match f {
            SemanticFact::IOOperation { io_kind, .. } => Some(*io_kind),
            _ => None,
        })
        .collect();
    assert!(kinds.contains(&IOKind::Network), "HttpClient must be Network");
    assert!(kinds.contains(&IOKind::FileRead), "ReadAllText must be FileRead");
    assert!(kinds.contains(&IOKind::FileWrite), "StreamWriter must be FileWrite");
    assert!(kinds.contains(&IOKind::StdIO), "Console must be StdIO");
    assert_eq!(kinds.len(), 4, "Save must not classify");
}

#[test]
fn awaits_detected_with_word_boundaries() {
    let src = b"var x = await FetchAsync();\n// await in comment\nvar awaiting = 1;\n";
    let mut facts = Vec::new();
    derive_awaits(src, &mut facts);
    assert_eq!(facts.len(), 1, "only the real await, not comment/awaiting");
}
