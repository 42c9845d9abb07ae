use semantic_facts_csharp::calls::{classify_io, derive_call_edges};
use semantic_facts_csharp::declarations::derive_declarations;
use semantic_facts_csharp::derive_semantic_facts;
use semantic_facts_csharp::facts::{AsyncBoundaryKind, IOKind, SemanticFact, SymbolKind};
use semantic_facts_csharp::records::{decode_call_sites, decode_retrieval};
use semantic_facts_csharp::scopes::{collect_scopes, scope_stack_for_offset};
use semantic_facts_csharp::source::{derive_awaits, derive_awaits_in_text, derive_usings, derive_usings_in_text};
use semantic_facts_csharp::wire::{
    call_sites_request, decode_capability_request, parser_request, retrieval_request,
    CapabilityRequest,
};

fn le(x: u32) -> [u8; 4] {
    x.to_le_bytes()
}

fn call_site_record(out: &mut Vec<u8>, offset: u32, name: &[u8]) {
    out.extend_from_slice(&le(offset));
    let mut field = [0u8; 64];
    field[..name.len()].copy_from_slice(name);
    out.extend_from_slice(&field);
}

fn retrieval_record(out: &mut Vec<u8>, offset: u32, length: u32, label: &[u8], kind: u8) {
    out.extend_from_slice(&le(offset));
    out.extend_from_slice(&le(length));
    let mut field = [0u8; 95];
    field[..label.len()].copy_from_slice(label);
    out.extend_from_slice(&field);
    out.push(kind);
}

fn source_of<'a>(r: CapabilityRequest<'a>) -> Option<&'a [u8]> {
    match r {
        CapabilityRequest::Source(s) => Some(s),
        _ => None,
    }
}

#[test]
fn capability_request_framing() {
    assert!(matches!(decode_capability_request(&[]), CapabilityRequest::Empty));
    assert!(matches!(decode_capability_request(&[1, 2]), CapabilityRequest::Malformed));
    assert!(matches!(decode_capability_request(&[5, 0, 0, 0, b'a']), CapabilityRequest::Malformed));
    assert!(matches!(decode_capability_request(&[0, 0, 0, 0, 7]), CapabilityRequest::Empty));
    let req = [2, 0, 0, 0, b'h', b'i', 9];
    assert_eq!(source_of(decode_capability_request(&req)), Some(&b"hi"[..]));
}

#[test]
fn parser_requests_are_length_prefixed_with_a_limit() {
    assert_eq!(call_sites_request(b"abc"), vec![3, 0, 0, 0, b'a', b'b', b'c', 0x00, 0x40, 0, 0]);
    assert_eq!(retrieval_request(b"xy"), vec![2, 0, 0, 0, b'x', b'y', 0x00, 0x20, 0, 0]);
    assert_eq!(parser_request(b"", 0x01020304), vec![0, 0, 0, 0, 4, 3, 2, 1]);
}

#[test]
fn parser_request_reads_back_as_its_source() {
    let src = b"class A { void M() {} }";
    let req = parser_request(src, 7);
    assert_eq!(source_of(decode_capability_request(&req)), Some(&src[..]));
}

#[test]
fn call_site_records_are_decoded_in_order() {
    let mut data = Vec::new();
    data.extend_from_slice(&le(5));
    call_site_record(&mut data, 7, b"Foo.Bar");
    call_site_record(&mut data, 8, &[0xff, 0xfe]);
    call_site_record(&mut data, 9, b"");
    call_site_record(&mut data, 10, &[b'x'; 64]);
    let sites = decode_call_sites(&data);
    let long = "x".repeat(64);
    assert_eq!(sites, vec![(7, "Foo.Bar"), (10, long.as_str())]);
}

#[test]
fn call_sites_stop_at_count_and_at_end_of_data() {
    let mut data = Vec::new();
    data.extend_from_slice(&le(1));
    call_site_record(&mut data, 1, b"A");
    call_site_record(&mut data, 2, b"B");
    assert_eq!(decode_call_sites(&data), vec![(1, "A")]);
    let mut short = Vec::new();
    short.extend_from_slice(&le(2));
    call_site_record(&mut short, 1, b"A");
    short.extend_from_slice(&[0; 10]);
    assert_eq!(decode_call_sites(&short), vec![(1, "A")]);
    assert!(decode_call_sites(&[1, 0]).is_empty());
}

#[test]
fn retrieval_records_are_trimmed_and_filtered() {
    let mut data = Vec::new();
    data.extend_from_slice(&le(4));
    retrieval_record(&mut data, 0, 200, b"  class Store \t", 2);
    retrieval_record(&mut data, 5, 0, b"namespace Zero", 1);
    retrieval_record(&mut data, 6, 9, b"   ", 3);
    retrieval_record(&mut data, 7, 3, b"function Go", 3);
    let chunks = decode_retrieval(&data);
    assert_eq!(chunks, vec![(0, 200, "class Store", 2), (7, 3, "function Go", 3)]);
    assert!(decode_retrieval(&[]).is_empty());
}

#[test]
fn io_classification_uses_the_bare_tail() {
    assert_eq!(classify_io("System.Net.Http.HttpClient::GetAsync"), Some(IOKind::Network));
    assert_eq!(classify_io("client.GetAsync"), Some(IOKind::Network));
    assert_eq!(classify_io("conn.Socket"), Some(IOKind::Network));
    assert_eq!(classify_io("FILE.READALLTEXT"), Some(IOKind::FileRead));
    assert_eq!(classify_io("reader.Read"), Some(IOKind::FileRead));
    assert_eq!(classify_io("File.AppendAllText"), Some(IOKind::FileWrite));
    assert_eq!(classify_io("Debug.WriteLine"), Some(IOKind::StdIO));
    assert_eq!(classify_io("Write"), Some(IOKind::StdIO));
    assert_eq!(classify_io("StreamWriter.Write"), Some(IOKind::FileWrite));
    assert_eq!(classify_io("Save"), None);
    assert_eq!(classify_io("Ns::Reader.Readable"), None);
}

#[test]
fn io_classification_ignores_ascii_case() {
    for c in ["HttpClient.GetAsync", "FILE.OPENREAD", "Console.WRITELINE", "Store::Save"] {
        assert_eq!(classify_io(c), classify_io(&c.to_ascii_lowercase()));
    }
}

fn scope(start: u32, len: u32, name: &str) -> (u32, u32, String) {
    (start, len, name.to_string())
}

#[test]
fn scope_chain_is_widest_first_and_stable() {
    let scopes = vec![scope(0, 100, "A"), scope(5, 200, "B"), scope(10, 50, "C"), scope(20, 50, "D")];
    assert_eq!(scope_stack_for_offset(&scopes, 30, 0, 0, ""), vec!["B", "A", "C", "D"]);
    let ties = vec![scope(0, 10, "X"), scope(0, 10, "Y"), scope(0, 10, "Z")];
    assert_eq!(scope_stack_for_offset(&ties, 5, 0, 10, "Y"), vec!["X", "Z"]);
    let edge = vec![scope(u32::MAX - 1, 10, "E")];
    assert!(scope_stack_for_offset(&edge, u32::MAX, 0, 0, "").is_empty());
    assert_eq!(scope_stack_for_offset(&edge, u32::MAX - 1, 0, 0, ""), vec!["E"]);
}

#[test]
fn scopes_come_from_namespace_type_and_interface_chunks() {
    let ret = vec![
        (0u32, 100u32, "namespace  App ", 1u8),
        (1, 50, "struct Point", 2),
        (2, 40, "interface IRepo", 7),
        (3, 30, "function Run", 3),
        (4, 0, "class Empty", 2),
        (5, 20, "record R", 2),
    ];
    let scopes = collect_scopes(&ret);
    assert_eq!(
        scopes,
        vec![scope(0, 100, "App"), scope(1, 50, "Point"), scope(2, 40, "IRepo"), scope(5, 20, "record R")]
    );
}

#[test]
fn declarations_of_each_kind() {
    let ret = vec![
        (0u32, 200u32, "namespace App", 1u8),
        (10, 100, "interface IRepo", 7),
        (300, 10, "enum Color", 2),
        (20, 5, "function Find", 3),
        (40, 5, "label", 9),
    ];
    let mut facts = Vec::new();
    derive_declarations(&ret, &mut facts);
    assert_eq!(facts.len(), 4);
    assert!(matches!(&facts[0], SemanticFact::DeclareSymbol { kind: SymbolKind::Module, offset: 0,
        length: 200, name, qualified_name: Some(q) } if name == "App" && q == "App"));
    assert!(matches!(&facts[1], SemanticFact::DeclareSymbol { kind: SymbolKind::Interface,
        name, qualified_name: Some(q), .. } if name == "IRepo" && q == "App::IRepo"));
    assert!(matches!(&facts[2], SemanticFact::DeclareSymbol { kind: SymbolKind::Type,
        name, qualified_name: None, .. } if name == "Color"));
    assert!(matches!(&facts[3], SemanticFact::DeclareSymbol { kind: SymbolKind::Function,
        name, qualified_name: Some(q), .. } if name == "Find" && q == "App::IRepo::Find"));
}

#[test]
fn call_edges_carry_byte_lengths_and_io_descriptors() {
    let ret: Vec<(u32, u32, &str, u8)> = vec![];
    let sites = vec![(3u32, "this.Säve"), (9u32, "this.File.ReadAllText")];
    let mut facts = Vec::new();
    derive_call_edges(&sites, &ret, &mut facts);
    assert_eq!(facts.len(), 3);
    assert!(matches!(&facts[0], SemanticFact::Calls { caller_offset: 3, caller_length: 10, callee }
        if callee == "Säve"));
    assert!(matches!(&facts[1], SemanticFact::Calls { caller_offset: 9, caller_length: 21, callee }
        if callee == "File.ReadAllText"));
    assert!(matches!(&facts[2], SemanticFact::IOOperation { io_kind: IOKind::FileRead, offset: 9,
        length: 21, descriptor: Some(d) } if d == "File.ReadAllText"));
}

fn await_offsets(src: &[u8]) -> Vec<u32> {
    let mut facts = Vec::new();
    derive_awaits(src, &mut facts);
    facts
        .iter()
        .map(|f| match f {
            SemanticFact::AsyncBoundary { boundary_kind: AsyncBoundaryKind::Await, offset, length: 5 } => *offset,
            _ => panic!("unexpected fact"),
        })
        .collect()
}

#[test]
fn awaits_have_byte_offsets_and_word_boundaries() {
    let src = b"a\r\n  await x; // await\nawaited;\nfoo_await;\n(await)\nx=await";
    assert_eq!(await_offsets(src), vec![5, 44, 53]);
    assert_eq!(await_offsets("é await".as_bytes()), vec![3]);
    assert_eq!(await_offsets(b"await await"), vec![0, 6]);
    assert!(await_offsets(b"").is_empty());
}

#[test]
fn awaits_in_invalid_utf8_count_replacement_bytes() {
    assert_eq!(await_offsets(b"\xff await"), vec![4]);
}

#[test]
fn usings_have_offsets_lengths_paths_and_aliases() {
    let src = "  using A.B;\r\nusing X = Y.Z ;\nusing (var f = g());\nusing System;\nusing A = ;\n   using  static S;\nusing é.b;";
    let mut facts = Vec::new();
    derive_usings(src.as_bytes(), &mut facts);
    let got: Vec<(u32, u32, String, Option<String>)> = facts
        .iter()
        .map(|f| match f {
            SemanticFact::ImportModule { offset, length, import_path, alias } => {
                (*offset, *length, import_path.clone(), alias.clone())
            }
            _ => panic!("unexpected fact"),
        })
        .collect();
    assert_eq!(
        got,
        vec![
            (0, 12, "A.B".to_string(), None),
            (14, 15, "Y.Z".to_string(), Some("X".to_string())),
            (51, 13, "System".to_string(), None),
            (65, 11, "A =".to_string(), None),
            (77, 19, "static S".to_string(), None),
            (97, 11, "é.b".to_string(), None),
        ]
    );
}

#[test]
fn semantic_facts_come_in_a_fixed_order() {
    let src = b"using System.IO;\nawait Save();\n";
    let mut calls = Vec::new();
    calls.extend_from_slice(&le(1));
    call_site_record(&mut calls, 23, b"this.Save");
    let mut ret = Vec::new();
    ret.extend_from_slice(&le(2));
    retrieval_record(&mut ret, 0, 40, b"namespace App", 1);
    retrieval_record(&mut ret, 17, 20, b"class Program", 2);
    let facts = derive_semantic_facts(src, &calls, &ret);
    assert_eq!(facts.len(), 5);
    assert!(matches!(&facts[0], SemanticFact::DeclareSymbol { kind: SymbolKind::Module, .. }));
    assert!(matches!(&facts[1], SemanticFact::DeclareSymbol { kind: SymbolKind::Type,
        qualified_name: Some(q), .. } if q == "App::Program"));
    assert!(matches!(&facts[2], SemanticFact::Calls { callee, caller_length: 9, .. }
        if callee == "App::Program::Save"));
    assert!(matches!(&facts[3], SemanticFact::ImportModule { import_path, .. } if import_path == "System.IO"));
    assert!(matches!(&facts[4], SemanticFact::AsyncBoundary { offset: 17, .. }));
}

#[test]
fn scope_names_lose_unicode_white_space() {
    let ret = vec![(0u32, 10u32, "namespace \u{2003}App\u{3000}", 1u8), (1, 5, "class\u{a0}Odd", 2)];
    assert_eq!(collect_scopes(&ret), vec![scope(0, 10, "App"), scope(1, 5, "class\u{a0}Odd")]);
}

#[test]
fn nested_scopes_come_outermost_first_in_any_order() {
    let inner_first = vec![scope(120, 50, "Inner"), scope(100, 100, "Outer")];
    let outer_first = vec![scope(100, 100, "Outer"), scope(120, 50, "Inner")];
    assert_eq!(scope_stack_for_offset(&inner_first, 130, 130, 5, "M"), vec!["Outer", "Inner"]);
    assert_eq!(scope_stack_for_offset(&outer_first, 130, 130, 5, "M"), vec!["Outer", "Inner"]);
}

#[test]
fn a_type_never_lies_in_its_own_scope() {
    let ret = vec![(0u32, 50u32, "class  Foo", 2u8)];
    let mut facts = Vec::new();
    derive_declarations(&ret, &mut facts);
    assert_eq!(facts.len(), 1);
    assert!(matches!(&facts[0], SemanticFact::DeclareSymbol { kind: SymbolKind::Type,
        name, qualified_name: None, .. } if name == " Foo"));
}

#[test]
fn a_function_is_matched_against_scopes_by_its_name_as_written() {
    let ret = vec![(0u32, 10u32, "class Foo", 2u8), (0, 10, "function  Foo", 3)];
    let mut facts = Vec::new();
    derive_declarations(&ret, &mut facts);
    assert_eq!(facts.len(), 2);
    assert!(matches!(&facts[0], SemanticFact::DeclareSymbol { kind: SymbolKind::Type,
        name, qualified_name: None, .. } if name == "Foo"));
    assert!(matches!(&facts[1], SemanticFact::DeclareSymbol { kind: SymbolKind::Function,
        name, qualified_name: Some(q), .. } if name == " Foo" && q == "Foo:: Foo"));
}

#[test]
fn text_level_scans_match_the_byte_level_ones() {
    let text = "using A.B;\n  await x;\n";
    let mut from_text = Vec::new();
    derive_usings_in_text(text, &mut from_text);
    derive_awaits_in_text(text, &mut from_text);
    assert_eq!(from_text.len(), 2);
    assert!(matches!(&from_text[0], SemanticFact::ImportModule { offset: 0, length: 10, import_path, alias: None }
        if import_path == "A.B"));
    assert!(matches!(&from_text[1], SemanticFact::AsyncBoundary { offset: 13, length: 5, .. }));
    let mut from_bytes = Vec::new();
    derive_usings(text.as_bytes(), &mut from_bytes);
    derive_awaits(text.as_bytes(), &mut from_bytes);
    assert_eq!(format!("{:?}", from_text), format!("{:?}", from_bytes));
}
