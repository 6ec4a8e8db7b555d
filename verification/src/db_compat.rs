//! Compatibility of an existing database: the read-only preflight that
//! refuses an incompatible file before anything is written, and the schema
//! migrations that bring an older index up to date. The decisions are here;
//! the reads and writes they call for are made by the caller.

use vstd::prelude::*;
use crate::text::str_eq;

verus! {

/// A preflight that found nothing to refuse.
#[derive(Debug, Clone, PartialEq, Eq)]
pub enum PreflightOk {
    /// There is no database yet (or it lives in memory).
    NewDb,
    /// An existing database of the expected schema.
    CompatibleExisting { found_schema_version: i64 },
}

/// Why a database is refused.
#[derive(Debug, Clone, PartialEq, Eq)]
pub enum DbCompatError {
    NotSqlite { path: String },
    CorruptSqlite { path: String },
    SqliteGraphSchemaMismatch { path: String, found: i64, expected: i64 },
    MagellanSchemaMismatch { path: String, found: i64, expected: i64 },
    MissingGraphMeta { path: String },
    GraphMetaMissingSchemaVersion { path: String },
    MissingGraphMetaRow { path: String, id: i64 },
    PreflightSqliteFailure { path: String },
}

/// What the caller found at the last step of a preflight.
#[derive(Debug)]
pub enum PreflightObservation {
    /// Where the database is: in memory, and whether a file exists there.
    Location { in_memory: bool, exists: bool },
    /// The file's bytes, or `None` when it could not be read.
    Contents(Option<Vec<u8>>),
    /// Whether the file opened read-only.
    Opened(bool),
    /// Whether a `graph_meta` table exists (`None`: the query failed).
    GraphMetaTable(Option<bool>),
    /// Whether `graph_meta` has a `schema_version` column (`None`: the
    /// query failed).
    SchemaVersionColumn(Option<bool>),
    /// The schema version in row 1 of `graph_meta` (`Err`: the query
    /// failed; `Ok(None)`: there is no such row).
    SchemaVersionRow(Result<Option<i64>, ()>),
}

/// What a preflight does next.
#[derive(Debug)]
pub enum PreflightAction {
    /// Read the file.
    ReadFile,
    /// Open the database read-only.
    OpenReadOnly,
    /// Look for the `graph_meta` table.
    QueryGraphMetaTable,
    /// Look for its `schema_version` column.
    QuerySchemaVersionColumn,
    /// Read its row 1.
    QuerySchemaVersionRow,
    /// Stop with this outcome.
    Finish(Result<PreflightOk, DbCompatError>),
}

/// The first bytes of every SQLite database file.
pub open spec fn sqlite_magic() -> Seq<u8> {
    seq![83u8, 81u8, 76u8, 105u8, 116u8, 101u8, 32u8, 102u8, 111u8, 114u8, 109u8, 97u8, 116u8, 32u8, 51u8, 0u8]
}

/// Whether bytes begin as a SQLite database file does.
pub open spec fn has_sqlite_header(bytes: Seq<u8>) -> bool {
    bytes.len() >= 16 && bytes.take(16) == sqlite_magic()
}

/// Whether `act` stops with error `kind` on the database at `path`.
pub open spec fn fails_with(act: PreflightAction, path: Seq<char>, kind: FailKind) -> bool {
    match act {
        PreflightAction::Finish(Err(e)) => match (e, kind) {
            (DbCompatError::NotSqlite { path: p }, FailKind::NotSqlite) => p@ == path,
            (DbCompatError::PreflightSqliteFailure { path: p }, FailKind::Failure) => p@ == path,
            (DbCompatError::MissingGraphMeta { path: p }, FailKind::MissingGraphMeta) => p@ == path,
            (DbCompatError::GraphMetaMissingSchemaVersion { path: p }, FailKind::MissingColumn) => p@ == path,
            (DbCompatError::MissingGraphMetaRow { path: p, id }, FailKind::MissingRow) => p@ == path && id == 1,
            (DbCompatError::SqliteGraphSchemaMismatch { path: p, found, expected }, FailKind::Mismatch(f, x)) =>
                p@ == path && found == f && expected == x,
            _ => false,
        },
        _ => false,
    }
}

/// The ways a preflight can refuse a database.
pub enum FailKind {
    NotSqlite,
    Failure,
    MissingGraphMeta,
    MissingColumn,
    MissingRow,
    Mismatch(i64, i64),
}

/// Whether `act` is what follows observation `obs` in the preflight of the
/// database at `path` against the expected graph schema version
/// `expected`: a database in memory or not on disk is new; an unreadable
/// file, a failed open or a failed query is a failure; a file without the
/// SQLite header is not SQLite; then the `graph_meta` table, its
/// `schema_version` column and its row 1 must be there, and the version
/// must be the expected one.
pub open spec fn preflight_next(path: Seq<char>, expected: i64, obs: PreflightObservation, act: PreflightAction) -> bool {
    match obs {
        PreflightObservation::Location { in_memory, exists } =>
            if in_memory || !exists { act == PreflightAction::Finish(Ok(PreflightOk::NewDb)) } else { act is ReadFile },
        PreflightObservation::Contents(None) => fails_with(act, path, FailKind::Failure),
        PreflightObservation::Contents(Some(bytes)) =>
            if has_sqlite_header(bytes@) { act is OpenReadOnly } else { fails_with(act, path, FailKind::NotSqlite) },
        PreflightObservation::Opened(ok) =>
            if ok { act is QueryGraphMetaTable } else { fails_with(act, path, FailKind::Failure) },
        PreflightObservation::GraphMetaTable(None) => fails_with(act, path, FailKind::Failure),
        PreflightObservation::GraphMetaTable(Some(has)) =>
            if has { act is QuerySchemaVersionColumn } else { fails_with(act, path, FailKind::MissingGraphMeta) },
        PreflightObservation::SchemaVersionColumn(None) => fails_with(act, path, FailKind::Failure),
        PreflightObservation::SchemaVersionColumn(Some(has)) =>
            if has { act is QuerySchemaVersionRow } else { fails_with(act, path, FailKind::MissingColumn) },
        PreflightObservation::SchemaVersionRow(Err(_)) => fails_with(act, path, FailKind::Failure),
        PreflightObservation::SchemaVersionRow(Ok(None)) => fails_with(act, path, FailKind::MissingRow),
        PreflightObservation::SchemaVersionRow(Ok(Some(found))) =>
            if found == expected {
                act == PreflightAction::Finish(Ok(PreflightOk::CompatibleExisting { found_schema_version: found }))
            } else {
                fails_with(act, path, FailKind::Mismatch(found, expected))
            },
    }
}

/// Whether the bytes begin as a SQLite database file does.
pub fn check_sqlite_header(bytes: &[u8]) -> (r: bool)
    ensures
        r == has_sqlite_header(bytes@),
{
    let magic: [u8; 16] = [83u8, 81u8, 76u8, 105u8, 116u8, 101u8, 32u8, 102u8, 111u8, 114u8, 109u8, 97u8, 116u8, 32u8, 51u8, 0u8];
    assert(magic@ =~= sqlite_magic());
    if bytes.len() < 16 {
        return false;
    }
    let mut i: usize = 0;
    while i < 16
        invariant
            bytes@.len() >= 16,
            magic@ == sqlite_magic(),
            i <= 16,
            forall|k: int| 0 <= k < i ==> bytes@[k] == magic@[k],
        decreases 16 - i,
    {
        if bytes[i] != magic[i] {
            assert(bytes@.take(16)[i as int] != sqlite_magic()[i as int]);
            return false;
        }
        i = i + 1;
    }
    assert(bytes@.take(16) =~= sqlite_magic());
    true
}

/// The next step of the preflight of the database at `path` against the
/// expected graph schema version `expected`, given what the last step
/// found.
pub fn preflight_step(path: &str, expected: i64, obs: &PreflightObservation) -> (r: PreflightAction)
    ensures
        preflight_next(path@, expected, *obs, r),
{
    match obs {
        PreflightObservation::Location { in_memory, exists } => {
            if *in_memory || !*exists {
                PreflightAction::Finish(Ok(PreflightOk::NewDb))
            } else {
                PreflightAction::ReadFile
            }
        },
        PreflightObservation::Contents(None) => failure(path),
        PreflightObservation::Contents(Some(bytes)) => {
            if check_sqlite_header(bytes.as_slice()) {
                PreflightAction::OpenReadOnly
            } else {
                PreflightAction::Finish(Err(DbCompatError::NotSqlite { path: path.to_owned() }))
            }
        },
        PreflightObservation::Opened(ok) => {
            if *ok { PreflightAction::QueryGraphMetaTable } else { failure(path) }
        },
        PreflightObservation::GraphMetaTable(None) => failure(path),
        PreflightObservation::GraphMetaTable(Some(has)) => {
            if *has {
                PreflightAction::QuerySchemaVersionColumn
            } else {
                PreflightAction::Finish(Err(DbCompatError::MissingGraphMeta { path: path.to_owned() }))
            }
        },
        PreflightObservation::SchemaVersionColumn(None) => failure(path),
        PreflightObservation::SchemaVersionColumn(Some(has)) => {
            if *has {
                PreflightAction::QuerySchemaVersionRow
            } else {
                PreflightAction::Finish(Err(DbCompatError::GraphMetaMissingSchemaVersion { path: path.to_owned() }))
            }
        },
        PreflightObservation::SchemaVersionRow(Err(_)) => failure(path),
        PreflightObservation::SchemaVersionRow(Ok(None)) => {
            PreflightAction::Finish(Err(DbCompatError::MissingGraphMetaRow { path: path.to_owned(), id: 1 }))
        },
        PreflightObservation::SchemaVersionRow(Ok(Some(found))) => {
            if *found == expected {
                PreflightAction::Finish(Ok(PreflightOk::CompatibleExisting { found_schema_version: *found }))
            } else {
                PreflightAction::Finish(Err(DbCompatError::SqliteGraphSchemaMismatch {
                    path: path.to_owned(),
                    found: *found,
                    expected,
                }))
            }
        },
    }
}

/// Stops with a failure to read the database at `path`.
fn failure(path: &str) -> (r: PreflightAction)
    ensures
        fails_with(r, path@, FailKind::Failure),
{
    PreflightAction::Finish(Err(DbCompatError::PreflightSqliteFailure { path: path.to_owned() }))
}

/// Whether the path names the in-memory database.
pub fn is_in_memory_path(path: &str) -> (r: bool)
    ensures
        r == (path@ == ":memory:"@),
{
    str_eq(path, ":memory:")
}

/// A schema change that brings an index up one version.
#[derive(Debug, Clone, Copy, PartialEq, Eq, Structural)]
pub enum MigrationStep {
    /// Create the AST node table and its indexes.
    AstSchema,
    /// Create the CFG tables and their indexes.
    CfgSchema,
    /// Add the CFG hash column.
    CfgHashColumn,
    /// Add the statements column.
    StatementsColumn,
    /// Add the coordinate columns.
    CoordinateColumns,
    /// Create the geometric index table.
    GeoIndexMeta,
    /// Create the symbol search table.
    SymbolFts,
}

/// The change that takes an index from version `v` to `v + 1`, where there
/// is one.
pub open spec fn step_from(v: i64) -> Option<MigrationStep> {
    if v == 4 || v == 5 {
        Some(MigrationStep::AstSchema)
    } else if v == 6 {
        Some(MigrationStep::CfgSchema)
    } else if v == 7 {
        Some(MigrationStep::CfgHashColumn)
    } else if v == 8 {
        Some(MigrationStep::StatementsColumn)
    } else if v == 9 {
        Some(MigrationStep::CoordinateColumns)
    } else if v == 10 {
        Some(MigrationStep::GeoIndexMeta)
    } else if v == 11 {
        Some(MigrationStep::SymbolFts)
    } else {
        None
    }
}

/// The changes, each with the version it reaches, that take an index from
/// version `v` up to `target`, as far as there are changes to take; and
/// whether a version without one was met on the way.
pub open spec fn upgrade_path(v: i64, target: i64) -> (Seq<(MigrationStep, i64)>, bool)
    decreases target - v,
{
    if v >= target {
        (seq![], false)
    } else {
        match step_from(v) {
            Some(s) => {
                let rest = upgrade_path((v + 1) as i64, target);
                (seq![(s, (v + 1) as i64)] + rest.0, rest.1)
            },
            None => (seq![], true),
        }
    }
}

/// What bringing an index's bookkeeping up to date involves.
#[derive(Debug)]
pub struct MetaPlan {
    /// Whether the bookkeeping row is new (and the tables of the current
    /// version are created with it).
    pub create: bool,
    /// The changes to make, in order, each with the version recorded after
    /// it.
    pub steps: Vec<(MigrationStep, i64)>,
    /// The outcome once they are made.
    pub outcome: Result<(), DbCompatError>,
}

/// The change from version `v`.
fn step_for(v: i64) -> (r: Option<MigrationStep>)
    ensures
        r == step_from(v),
{
    if v == 4 || v == 5 {
        Some(MigrationStep::AstSchema)
    } else if v == 6 {
        Some(MigrationStep::CfgSchema)
    } else if v == 7 {
        Some(MigrationStep::CfgHashColumn)
    } else if v == 8 {
        Some(MigrationStep::StatementsColumn)
    } else if v == 9 {
        Some(MigrationStep::CoordinateColumns)
    } else if v == 10 {
        Some(MigrationStep::GeoIndexMeta)
    } else if v == 11 {
        Some(MigrationStep::SymbolFts)
    } else {
        None
    }
}

/// What bringing the bookkeeping of the index at `path` up to date
/// involves, given the recorded (index schema, graph schema) versions if a
/// row exists: without one, the row is created; with one, an older index
/// is upgraded step by step (refused where a version has no step), and the
/// graph schema version must be `graph_expected`.
pub fn meta_plan(path: &str, existing: Option<(i64, i64)>, target: i64, graph_expected: i64) -> (r: MetaPlan)
    ensures
        r.create == existing is None,
        existing is None ==> r.steps@.len() == 0 && r.outcome is Ok,
        existing matches Some((m, g)) ==> {
            let (steps, stuck) = if m != target { upgrade_path(m, target) } else { (seq![], false) };
            &&& r.steps@ == steps
            &&& stuck ==> (r.outcome matches Err(DbCompatError::MagellanSchemaMismatch { path: p, found, expected })
                && p@ == path@ && found == m && expected == target)
            &&& (!stuck && g != graph_expected) ==> (r.outcome matches Err(DbCompatError::SqliteGraphSchemaMismatch { path: p, found, expected })
                && p@ == path@ && found == g && expected == graph_expected)
            &&& (!stuck && g == graph_expected) ==> r.outcome is Ok
        },
{
    match existing {
        None => MetaPlan { create: true, steps: Vec::new(), outcome: Ok(()) },
        Some((m, g)) => {
            let mut steps: Vec<(MigrationStep, i64)> = Vec::new();
            let mut stuck = false;
            if m != target {
                let mut v = m;
                proof {
                    assert(steps@ + upgrade_path(v, target).0 =~= upgrade_path(m, target).0);
                }
                while v < target && !stuck
                    invariant
                        m <= v,
                        !stuck ==> steps@ + upgrade_path(v, target).0 == upgrade_path(m, target).0,
                        !stuck ==> upgrade_path(v, target).1 == upgrade_path(m, target).1,
                        stuck ==> steps@ == upgrade_path(m, target).0 && upgrade_path(m, target).1,
                    decreases target - v, (if stuck { 0int } else { 1int }),
                {
                    match step_for(v) {
                        Some(s) => {
                            let ghost before = steps@;
                            steps.push((s, v + 1));
                            proof {
                                let rest = upgrade_path((v + 1) as i64, target);
                                assert(upgrade_path(v, target).0 == seq![(s, (v + 1) as i64)] + rest.0);
                                assert(steps@ + rest.0 =~= before + (seq![(s, (v + 1) as i64)] + rest.0));
                            }
                            v = v + 1;
                        },
                        None => {
                            stuck = true;
                            assert(upgrade_path(v, target).0 =~= Seq::<(MigrationStep, i64)>::empty());
                            assert(steps@ =~= upgrade_path(m, target).0);
                        },
                    }
                }
                proof {
                    if !stuck {
                        assert(upgrade_path(v, target).0 =~= Seq::<(MigrationStep, i64)>::empty());
                        assert(steps@ =~= upgrade_path(m, target).0);
                    }
                }
            }
            if stuck {
                return MetaPlan {
                    create: false,
                    steps,
                    outcome: Err(DbCompatError::MagellanSchemaMismatch { path: path.to_owned(), found: m, expected: target }),
                };
            }
            if g != graph_expected {
                return MetaPlan {
                    create: false,
                    steps,
                    outcome: Err(DbCompatError::SqliteGraphSchemaMismatch { path: path.to_owned(), found: g, expected: graph_expected }),
                };
            }
            MetaPlan { create: false, steps, outcome: Ok(()) }
        },
    }
}

} // verus!
