use magellan::export::{
    assemble_export, empty_export, export_plan, referenced_symbol_name, scip_text, sort_records, CallExport, ExportConfig,
    ExportFormat, ExportPlan, ExportRecords, FileExport, ReferenceExport, SymbolExport,
};

#[test]
fn parse_format_ignores_case() {
    assert_eq!(ExportFormat::parse_format("json"), Some(ExportFormat::Json));
    assert_eq!(ExportFormat::parse_format("JSONL"), Some(ExportFormat::JsonL));
    assert_eq!(ExportFormat::parse_format("Dot"), Some(ExportFormat::Dot));
    assert_eq!(ExportFormat::parse_format("csv"), Some(ExportFormat::Csv));
    assert_eq!(ExportFormat::parse_format("SCIP"), Some(ExportFormat::Scip));
    assert_eq!(ExportFormat::parse_format("lsif"), Some(ExportFormat::Lsif));
    assert_eq!(ExportFormat::parse_format("Impact"), Some(ExportFormat::Impact));
    assert_eq!(ExportFormat::parse_format("xml"), None);
}

#[test]
fn config_builders_change_one_flag_each() {
    let c = ExportConfig::new(ExportFormat::Dot);
    assert_eq!(c.format, ExportFormat::Dot);
    assert!(c.include_symbols && c.include_references && c.include_calls && !c.minify && !c.include_collisions);
    let c = c.with_symbols(false).with_references(false).with_calls(true).with_minify(true);
    assert!(!c.include_symbols && !c.include_references && c.include_calls && c.minify);
    assert_eq!(c.format, ExportFormat::Dot);
}

#[test]
fn export_plan_for_empty_selection() {
    let none = |f| ExportConfig::new(f).with_symbols(false).with_references(false).with_calls(false);
    assert!(matches!(export_plan(&none(ExportFormat::Json)), ExportPlan::EmptyJson));
    match export_plan(&none(ExportFormat::Dot)) {
        ExportPlan::Text(t) => assert_eq!(t, "strict digraph call_graph {\n}\n"),
        _ => panic!("expected text"),
    }
    match export_plan(&none(ExportFormat::JsonL)) {
        ExportPlan::Text(t) => assert_eq!(t, ""),
        _ => panic!("expected text"),
    }
    match export_plan(&none(ExportFormat::Csv)) {
        ExportPlan::Fail(m) => assert_eq!(m, "Export format Csv not yet implemented"),
        _ => panic!("expected failure"),
    }
}

#[test]
fn export_plan_for_full_selection() {
    assert!(matches!(export_plan(&ExportConfig::new(ExportFormat::Json)), ExportPlan::Json));
    assert!(matches!(export_plan(&ExportConfig::new(ExportFormat::Scip)), ExportPlan::ScipBase64));
    match export_plan(&ExportConfig::new(ExportFormat::Impact)) {
        ExportPlan::Fail(m) => assert!(m.starts_with("Impact export requires --symbol parameter.")),
        _ => panic!("expected failure"),
    }
    match export_plan(&ExportConfig::new(ExportFormat::Lsif)) {
        ExportPlan::Text(t) => assert!(t.is_empty()),
        _ => panic!("expected text"),
    }
}

#[test]
fn reference_names_come_after_the_prefix() {
    assert_eq!(referenced_symbol_name("ref to parse"), "parse");
    assert_eq!(referenced_symbol_name("parse"), "");
    assert_eq!(referenced_symbol_name("ref to "), "");
}

fn sym(file: &str, name: Option<&str>) -> SymbolExport {
    SymbolExport {
        symbol_id: None,
        canonical_fqn: None,
        display_fqn: None,
        name: name.map(|n| n.to_string()),
        kind: "Function".to_string(),
        kind_normalized: None,
        file: file.to_string(),
        byte_start: 0,
        byte_end: 1,
        start_line: 1,
        start_col: 0,
        end_line: 1,
        end_col: 1,
    }
}

fn call(file: &str, caller: &str, callee: &str) -> CallExport {
    CallExport {
        file: file.to_string(),
        caller: caller.to_string(),
        callee: callee.to_string(),
        caller_symbol_id: None,
        callee_symbol_id: None,
        byte_start: 0,
        byte_end: 0,
        start_line: 0,
        start_col: 0,
        end_line: 0,
        end_col: 0,
    }
}

#[test]
fn records_sort_by_their_keys() {
    let syms = sort_records(vec![sym("b.rs", Some("x")), sym("a.rs", Some("z")), sym("a.rs", None), sym("a.rs", Some("y"))]);
    let keys: Vec<(String, Option<String>)> = syms.iter().map(|s| (s.file.clone(), s.name.clone())).collect();
    assert_eq!(
        keys,
        vec![
            ("a.rs".to_string(), None),
            ("a.rs".to_string(), Some("y".to_string())),
            ("a.rs".to_string(), Some("z".to_string())),
            ("b.rs".to_string(), Some("x".to_string())),
        ]
    );
    let calls = sort_records(vec![call("a", "m", "z"), call("a", "m", "b"), call("a", "l", "q")]);
    let keys: Vec<String> = calls.iter().map(|c| format!("{}:{}:{}", c.file, c.caller, c.callee)).collect();
    assert_eq!(keys, vec!["a:l:q", "a:m:b", "a:m:z"]);
}

#[test]
fn assembled_export_keeps_only_selected_kinds() {
    let recs = ExportRecords {
        files: vec![FileExport { path: "b".to_string(), hash: "2".to_string() }, FileExport { path: "a".to_string(), hash: "1".to_string() }],
        symbols: vec![sym("a.rs", Some("f"))],
        references: vec![ReferenceExport {
            file: "a.rs".to_string(),
            referenced_symbol: "f".to_string(),
            target_symbol_id: None,
            byte_start: 0,
            byte_end: 0,
            start_line: 0,
            start_col: 0,
            end_line: 0,
            end_col: 0,
        }],
        calls: vec![call("a.rs", "g", "f")],
        collisions: Vec::new(),
    };
    let config = ExportConfig::new(ExportFormat::Json).with_references(false);
    let e = assemble_export(&config, recs);
    assert_eq!(e.version, "2.0.0");
    assert_eq!(e.files.iter().map(|f| f.path.as_str()).collect::<Vec<_>>(), vec!["a", "b"]);
    assert_eq!(e.symbols.len(), 1);
    assert!(e.references.is_empty());
    assert_eq!(e.calls.len(), 1);
    let empty = empty_export();
    assert_eq!(empty.version, "2.0.0");
    assert!(empty.files.is_empty() && empty.calls.is_empty());
}

#[test]
fn scip_text_is_standard_base64() {
    assert_eq!(scip_text(b"hello"), "aGVsbG8=");
    assert_eq!(scip_text(b"Man"), "TWFu");
    assert_eq!(scip_text(b"Ma"), "TWE=");
    assert_eq!(scip_text(b"M"), "TQ==");
    assert_eq!(scip_text(&[0xfb, 0xff]), "+/8=");
    assert_eq!(scip_text(b""), "");
}
