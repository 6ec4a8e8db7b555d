use magellan::call_ops::{plan_call_index, resolve_call, simple_name};
use magellan::db_compat::{
    check_sqlite_header, is_in_memory_path, meta_plan, preflight_step, DbCompatError, MigrationStep, PreflightAction,
    PreflightObservation, PreflightOk,
};
use magellan::execution_log::{duration_ms, ExecutionRecord};

#[test]
fn simple_names_follow_the_last_separator() {
    assert_eq!(simple_name("crate::module::function"), "function");
    assert_eq!(simple_name("Widget.render"), "render");
    assert_eq!(simple_name("a::b.c"), "c");
    assert_eq!(simple_name("plain"), "plain");
    assert_eq!(simple_name("a:::b"), ":b");
    assert_eq!(simple_name("a::"), "");
}

#[test]
fn calls_resolve_by_name_then_by_simple_name() {
    let ids = vec![("crate::main".to_string(), 1), ("Widget::render".to_string(), 2), ("crate::helper".to_string(), 3)];
    assert_eq!(resolve_call(&ids, "crate::main", "crate::helper"), Some((1, 3)));
    assert_eq!(resolve_call(&ids, "crate::main", "render"), Some((1, 2)));
    assert_eq!(resolve_call(&ids, "crate::main", "missing"), None);
    assert_eq!(resolve_call(&ids, "nobody", "render"), None);
}

#[test]
fn sqlite_header_check() {
    let mut good = b"SQLite format 3\0".to_vec();
    good.extend_from_slice(&[1, 2, 3]);
    assert!(check_sqlite_header(&good));
    assert!(!check_sqlite_header(b"SQLite format 3"));
    assert!(!check_sqlite_header(b"not a database at all"));
    assert!(is_in_memory_path(":memory:"));
    assert!(!is_in_memory_path("db.sqlite"));
}

#[test]
fn preflight_steps() {
    let p = "x.db";
    assert!(matches!(
        preflight_step(p, 3, &PreflightObservation::Location { in_memory: false, exists: false }),
        PreflightAction::Finish(Ok(PreflightOk::NewDb))
    ));
    assert!(matches!(
        preflight_step(p, 3, &PreflightObservation::Location { in_memory: false, exists: true }),
        PreflightAction::ReadFile
    ));
    match preflight_step(p, 3, &PreflightObservation::Contents(Some(b"garbage".to_vec()))) {
        PreflightAction::Finish(Err(e)) => assert_eq!(e, DbCompatError::NotSqlite { path: p.to_string() }),
        _ => panic!("expected refusal"),
    }
    assert!(matches!(preflight_step(p, 3, &PreflightObservation::GraphMetaTable(Some(true))), PreflightAction::QuerySchemaVersionColumn));
    match preflight_step(p, 3, &PreflightObservation::SchemaVersionRow(Ok(Some(2)))) {
        PreflightAction::Finish(Err(e)) => {
            assert_eq!(e, DbCompatError::SqliteGraphSchemaMismatch { path: p.to_string(), found: 2, expected: 3 })
        }
        _ => panic!("expected refusal"),
    }
    match preflight_step(p, 3, &PreflightObservation::SchemaVersionRow(Ok(Some(3)))) {
        PreflightAction::Finish(Ok(ok)) => assert_eq!(ok, PreflightOk::CompatibleExisting { found_schema_version: 3 }),
        _ => panic!("expected success"),
    }
    match preflight_step(p, 3, &PreflightObservation::SchemaVersionRow(Ok(None))) {
        PreflightAction::Finish(Err(e)) => assert_eq!(e, DbCompatError::MissingGraphMetaRow { path: p.to_string(), id: 1 }),
        _ => panic!("expected refusal"),
    }
}

#[test]
fn migrations_run_one_version_at_a_time() {
    let plan = meta_plan("x.db", Some((9, 3)), 12, 3);
    assert!(!plan.create);
    assert_eq!(
        plan.steps,
        vec![(MigrationStep::CoordinateColumns, 10), (MigrationStep::GeoIndexMeta, 11), (MigrationStep::SymbolFts, 12)]
    );
    assert_eq!(plan.outcome, Ok(()));
    let fresh = meta_plan("x.db", None, 12, 3);
    assert!(fresh.create && fresh.steps.is_empty());
    let old = meta_plan("x.db", Some((2, 3)), 12, 3);
    assert!(old.steps.is_empty());
    assert_eq!(old.outcome, Err(DbCompatError::MagellanSchemaMismatch { path: "x.db".to_string(), found: 2, expected: 12 }));
    let graph_mismatch = meta_plan("x.db", Some((12, 4)), 12, 3);
    assert!(graph_mismatch.steps.is_empty());
    assert_eq!(
        graph_mismatch.outcome,
        Err(DbCompatError::SqliteGraphSchemaMismatch { path: "x.db".to_string(), found: 4, expected: 3 })
    );
    let past = meta_plan("x.db", Some((4, 3)), 13, 3);
    assert_eq!(past.steps.len(), 8);
    assert_eq!(past.steps[0], (MigrationStep::AstSchema, 5));
    assert_eq!(past.outcome, Err(DbCompatError::MagellanSchemaMismatch { path: "x.db".to_string(), found: 4, expected: 13 }));
}

#[test]
fn execution_records_open_and_close() {
    let args = vec!["index".to_string(), "--root".to_string()];
    let rec = ExecutionRecord::running("e1", "1.0", &args, Some("/src"), "db", 100).unwrap();
    assert_eq!(rec.id, 100);
    assert_eq!(rec.args, r#"["index","--root"]"#);
    assert_eq!(rec.outcome, "running");
    assert_eq!(rec.root, Some("/src".to_string()));
    let done = rec.finished(103, "success", None, 4, 5, 6);
    assert_eq!(done.duration_ms, Some(3000));
    assert_eq!(done.finished_at, Some(103));
    assert_eq!((done.files_indexed, done.symbols_indexed, done.references_indexed), (4, 5, 6));
    assert_eq!(done.outcome, "success");
    assert_eq!(duration_ms(10, 7), -3000);
}

#[test]
fn run_arguments_are_stored_as_compact_json() {
    let args = vec!["a\"b".to_string(), "x\ny\\".to_string(), "\u{1}é".to_string()];
    let rec = ExecutionRecord::running("e2", "1.0", &args, None, "db", 7).unwrap();
    assert_eq!(rec.args, "[\"a\\\"b\",\"x\\ny\\\\\",\"\\u0001é\"]");
    let none: Vec<String> = Vec::new();
    assert_eq!(ExecutionRecord::running("e3", "1.0", &none, None, "db", 8).unwrap().args, "[]");
}

#[test]
fn call_index_plan_keeps_the_resolved_calls_with_their_stable_ids() {
    let symbols = vec![("crate::a::main".to_string(), 1), ("Widget::render".to_string(), 2)];
    let stable = vec![
        ("f.rs".to_string(), "crate::a::main".to_string(), Some("S1".to_string())),
        ("f.rs".to_string(), "render".to_string(), None),
    ];
    let calls = vec![
        ("f.rs".to_string(), "crate::a::main".to_string(), "render".to_string()),
        ("f.rs".to_string(), "crate::a::main".to_string(), "missing".to_string()),
        ("g.rs".to_string(), "crate::a::main".to_string(), "Widget::render".to_string()),
    ];
    let (count, plan) = plan_call_index(&symbols, &stable, &calls);
    assert_eq!(count, 3);
    assert_eq!(plan, vec![(0, 1, 2, Some("S1".to_string()), None), (2, 1, 2, None, None)]);
}
