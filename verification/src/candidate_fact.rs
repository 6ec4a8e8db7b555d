//! Staged candidate facts: their statuses, and the conflicts among a batch
//! (facts that say different things of the same subject and predicate).

use vstd::prelude::*;
use crate::text::{chars_of, str_eq};

verus! {

/// Where a candidate fact stands in the staging pipeline.
#[derive(Debug, Clone, Copy, PartialEq, Eq, Structural)]
pub enum CandidateStatus {
    /// Submitted, awaiting validation.
    Pending,
    /// Passed validation.
    Accepted,
    /// Failed validation.
    Rejected,
    /// Needs review.
    Ambiguous,
    /// Part of a conflict set.
    InConflict,
}

/// The name a status is stored under.
pub open spec fn status_name(s: CandidateStatus) -> Seq<char> {
    match s {
        CandidateStatus::Pending => "pending"@,
        CandidateStatus::Accepted => "accepted"@,
        CandidateStatus::Rejected => "rejected"@,
        CandidateStatus::Ambiguous => "ambiguous"@,
        CandidateStatus::InConflict => "in_conflict"@,
    }
}

/// The status stored under `name`, if any.
pub open spec fn status_from_name(name: Seq<char>) -> Option<CandidateStatus> {
    if name == "pending"@ {
        Some(CandidateStatus::Pending)
    } else if name == "accepted"@ {
        Some(CandidateStatus::Accepted)
    } else if name == "rejected"@ {
        Some(CandidateStatus::Rejected)
    } else if name == "ambiguous"@ {
        Some(CandidateStatus::Ambiguous)
    } else if name == "in_conflict"@ {
        Some(CandidateStatus::InConflict)
    } else {
        None
    }
}

impl CandidateStatus {
    /// The name the status is stored under.
    pub fn as_str(&self) -> (r: &'static str)
        ensures
            r@ == status_name(*self),
    {
        match self {
            CandidateStatus::Pending => "pending",
            CandidateStatus::Accepted => "accepted",
            CandidateStatus::Rejected => "rejected",
            CandidateStatus::Ambiguous => "ambiguous",
            CandidateStatus::InConflict => "in_conflict",
        }
    }

    /// The status stored under `s`, or `None` for any other text.
    pub fn parse(s: &str) -> (r: Option<CandidateStatus>)
        ensures
            r == status_from_name(s@),
    {
        if str_eq(s, "pending") {
            Some(CandidateStatus::Pending)
        } else if str_eq(s, "accepted") {
            Some(CandidateStatus::Accepted)
        } else if str_eq(s, "rejected") {
            Some(CandidateStatus::Rejected)
        } else if str_eq(s, "ambiguous") {
            Some(CandidateStatus::Ambiguous)
        } else if str_eq(s, "in_conflict") {
            Some(CandidateStatus::InConflict)
        } else {
            None
        }
    }
}

/// Parsing the stored name of a status gives the status back.
pub proof fn lemma_status_roundtrip(s: CandidateStatus)
    ensures
        status_from_name(status_name(s)) == Some(s),
{
    reveal_strlit("pending");
    reveal_strlit("accepted");
    reveal_strlit("rejected");
    reveal_strlit("ambiguous");
    reveal_strlit("in_conflict");
    assert("accepted"@[0] != "rejected"@[0]);
    assert("pending"@.len() != "accepted"@.len());
    assert("pending"@.len() != "rejected"@.len());
    assert("pending"@.len() != "ambiguous"@.len());
    assert("accepted"@.len() != "ambiguous"@.len());
    assert("rejected"@.len() != "ambiguous"@.len());
    assert("in_conflict"@.len() != "pending"@.len());
    assert("in_conflict"@.len() != "accepted"@.len());
    assert("in_conflict"@.len() != "ambiguous"@.len());
}

/// A name that parses is the stored name of the status it gives.
pub proof fn lemma_status_parse_names(name: Seq<char>)
    ensures
        status_from_name(name) matches Some(s) ==> status_name(s) == name,
{
}

/// What kind of contradiction a conflict set records.
#[derive(Debug, Clone, Copy, PartialEq, Eq, Structural)]
pub enum ConflictType {
    StatusConflict,
    OwnershipConflict,
    TimestampConflict,
    SemanticConflict,
    CausalConflict,
}

/// The name a conflict type is stored under.
pub open spec fn conflict_type_name(c: ConflictType) -> Seq<char> {
    match c {
        ConflictType::StatusConflict => "status_conflict"@,
        ConflictType::OwnershipConflict => "ownership_conflict"@,
        ConflictType::TimestampConflict => "timestamp_conflict"@,
        ConflictType::SemanticConflict => "semantic_conflict"@,
        ConflictType::CausalConflict => "causal_conflict"@,
    }
}

impl ConflictType {
    /// The name the conflict type is stored under.
    pub fn as_str(&self) -> (r: &'static str)
        ensures
            r@ == conflict_type_name(*self),
    {
        match self {
            ConflictType::StatusConflict => "status_conflict",
            ConflictType::OwnershipConflict => "ownership_conflict",
            ConflictType::TimestampConflict => "timestamp_conflict",
            ConflictType::SemanticConflict => "semantic_conflict",
            ConflictType::CausalConflict => "causal_conflict",
        }
    }
}

/// How a conflict set was settled.
#[derive(Debug, Clone, Copy, PartialEq, Eq, Structural)]
pub enum ResolutionStatus {
    Unresolved,
    AcceptedOne,
    Merged,
    RejectedAll,
    NeedsUser,
}

/// The name a resolution status is stored under.
pub open spec fn resolution_name(r: ResolutionStatus) -> Seq<char> {
    match r {
        ResolutionStatus::Unresolved => "unresolved"@,
        ResolutionStatus::AcceptedOne => "accepted_one"@,
        ResolutionStatus::Merged => "merged"@,
        ResolutionStatus::RejectedAll => "rejected_all"@,
        ResolutionStatus::NeedsUser => "needs_user"@,
    }
}

impl ResolutionStatus {
    /// The name the resolution status is stored under.
    pub fn as_str(&self) -> (r: &'static str)
        ensures
            r@ == resolution_name(*self),
    {
        match self {
            ResolutionStatus::Unresolved => "unresolved",
            ResolutionStatus::AcceptedOne => "accepted_one",
            ResolutionStatus::Merged => "merged",
            ResolutionStatus::RejectedAll => "rejected_all",
            ResolutionStatus::NeedsUser => "needs_user",
        }
    }
}

/// A set of candidates that contradict each other.
#[derive(Debug, Clone)]
pub struct ConflictSet {
    /// Identifier of the set.
    pub conflict_set_id: String,
    /// What kind of contradiction.
    pub conflict_type: ConflictType,
    /// The candidates in the set.
    pub candidate_ids: Vec<String>,
    /// When it was found, in seconds since the Unix epoch.
    pub detected_at: i64,
    /// How it was settled.
    pub resolution_status: ResolutionStatus,
    /// Who settled it.
    pub resolver: Option<String>,
    /// Why it was settled so.
    pub resolution_reason: Option<String>,
}

/// What conflict detection reads of a stored candidate.
#[derive(Debug, Clone)]
pub struct ConflictRow {
    pub candidate_id: String,
    pub subject_type: String,
    pub subject_key: String,
    pub predicate: String,
    pub object_type: Option<String>,
    pub object_key: Option<String>,
}

/// The text that groups candidates: `subject_type:subject_key:predicate`.
pub open spec fn row_key(r: ConflictRow) -> Seq<char> {
    r.subject_type@ + seq![':'] + r.subject_key@ + seq![':'] + r.predicate@
}

/// The text of a candidate's object: `object_type:object_key`, or `none`
/// where either part is missing.
pub open spec fn row_object(r: ConflictRow) -> Seq<char> {
    match (r.object_type, r.object_key) {
        (Some(t), Some(k)) => t@ + seq![':'] + k@,
        _ => seq!['n', 'o', 'n', 'e'],
    }
}

/// The distinct keys of the rows, in the order they first appear.
pub open spec fn first_keys(rows: Seq<ConflictRow>) -> Seq<Seq<char>>
    decreases rows.len(),
{
    if rows.len() == 0 {
        seq![]
    } else {
        let ks = first_keys(rows.drop_last());
        if ks.contains(row_key(rows.last())) { ks } else { ks.push(row_key(rows.last())) }
    }
}

/// The rows with key `k`, in order.
pub open spec fn key_members(rows: Seq<ConflictRow>, k: Seq<char>) -> Seq<ConflictRow> {
    rows.filter(key_is(k))
}

/// Whether a row has key `k`.
pub open spec fn key_is(k: Seq<char>) -> spec_fn(ConflictRow) -> bool {
    |r: ConflictRow| row_key(r) == k
}

/// Whether two of the rows name different objects.
pub open spec fn has_conflict(ms: Seq<ConflictRow>) -> bool {
    exists|a: int, b: int| 0 <= a < ms.len() && 0 <= b < ms.len() && row_object(ms[a]) != row_object(ms[b])
}

/// The candidate ids of the rows.
pub open spec fn row_ids(ms: Seq<ConflictRow>) -> Seq<Seq<char>> {
    ms.map_values(|r: ConflictRow| r.candidate_id@)
}

/// For each key of `ks` in turn whose rows name different objects, the
/// candidate ids of those rows.
pub open spec fn groups_over(rows: Seq<ConflictRow>, ks: Seq<Seq<char>>) -> Seq<Seq<Seq<char>>>
    decreases ks.len(),
{
    if ks.len() == 0 {
        seq![]
    } else {
        let rest = groups_over(rows, ks.drop_last());
        let ms = key_members(rows, ks.last());
        if has_conflict(ms) { rest.push(row_ids(ms)) } else { rest }
    }
}

/// The conflicts among the rows: for each key, in the order keys first
/// appear, whose rows name two or more different objects, the candidate
/// ids of those rows in order.
pub open spec fn conflict_groups_of(rows: Seq<ConflictRow>) -> Seq<Seq<Seq<char>>> {
    groups_over(rows, first_keys(rows))
}

/// The characters of `a`, a colon, and the characters of `b`.
fn joined(a: &str, b: &str) -> (r: Vec<char>)
    ensures
        r@ == a@ + seq![':'] + b@,
{
    let mut v = chars_of(a);
    let w = chars_of(b);
    v.push(':');
    let ghost v0 = v@;
    let mut i: usize = 0;
    while i < w.len()
        invariant
            i <= w@.len(),
            v@ == v0 + w@.take(i as int),
        decreases w@.len() - i,
    {
        v.push(w[i]);
        assert(w@.take(i + 1) =~= w@.take(i as int).push(w@[i as int]));
        i = i + 1;
    }
    assert(w@.take(w@.len() as int) =~= w@);
    v
}

/// The key of a row.
fn key_chars(r: &ConflictRow) -> (k: Vec<char>)
    ensures
        k@ == row_key(*r),
{
    let mut v = joined(r.subject_type.as_str(), r.subject_key.as_str());
    let w = chars_of(r.predicate.as_str());
    v.push(':');
    let ghost v0 = v@;
    let mut i: usize = 0;
    while i < w.len()
        invariant
            i <= w@.len(),
            v@ == v0 + w@.take(i as int),
        decreases w@.len() - i,
    {
        v.push(w[i]);
        assert(w@.take(i + 1) =~= w@.take(i as int).push(w@[i as int]));
        i = i + 1;
    }
    assert(w@.take(w@.len() as int) =~= w@);
    v
}

/// The object text of a row.
fn object_chars(r: &ConflictRow) -> (o: Vec<char>)
    ensures
        o@ == row_object(*r),
{
    match (&r.object_type, &r.object_key) {
        (Some(t), Some(k)) => joined(t.as_str(), k.as_str()),
        _ => {
            let v = vec!['n', 'o', 'n', 'e'];
            assert(v@ =~= seq!['n', 'o', 'n', 'e']);
            v
        },
    }
}

/// Whether two character vectors are equal.
fn chars_eq(a: &Vec<char>, b: &Vec<char>) -> (r: bool)
    ensures
        r == (a@ == b@),
{
    if a.len() != b.len() {
        return false;
    }
    let mut i: usize = 0;
    while i < a.len()
        invariant
            a@.len() == b@.len(),
            i <= a@.len(),
            forall|k: int| 0 <= k < i ==> a@[k] == b@[k],
        decreases a@.len() - i,
    {
        if a[i] != b[i] {
            return false;
        }
        i = i + 1;
    }
    assert(a@ =~= b@);
    true
}

/// The keys as sequences.
pub open spec fn key_views(ks: Seq<Vec<char>>) -> Seq<Seq<char>> {
    ks.map_values(|k: Vec<char>| k@)
}

/// The distinct keys of the rows, in the order they first appear.
fn distinct_keys(rows: &Vec<ConflictRow>) -> (r: Vec<Vec<char>>)
    ensures
        key_views(r@) == first_keys(rows@),
{
    let mut keys: Vec<Vec<char>> = Vec::new();
    let mut i: usize = 0;
    assert(key_views(keys@) =~= first_keys(rows@.take(0)));
    while i < rows.len()
        invariant
            i <= rows@.len(),
            key_views(keys@) == first_keys(rows@.take(i as int)),
        decreases rows@.len() - i,
    {
        let k = key_chars(&rows[i]);
        let mut j: usize = 0;
        while j < keys.len() && !chars_eq(&keys[j], &k)
            invariant
                j <= keys@.len(),
                forall|a: int| 0 <= a < j ==> (#[trigger] key_views(keys@)[a]) != k@,
            decreases keys@.len() - j,
        {
            j = j + 1;
        }
        let ghost ks = key_views(keys@);
        proof {
            assert(rows@.take(i + 1).drop_last() =~= rows@.take(i as int));
            assert(rows@.take(i + 1).last() == rows@[i as int]);
            if j < keys@.len() {
                assert(ks[j as int] == k@);
                assert(ks.contains(k@));
            } else {
                assert(!ks.contains(k@)) by {
                    if ks.contains(k@) {
                        let a = choose|a: int| 0 <= a < ks.len() && ks[a] == k@;
                        assert(key_views(keys@)[a] != k@);
                    }
                }
            }
        }
        if j == keys.len() {
            keys.push(k);
            assert(key_views(keys@) =~= ks.push(row_key(rows@[i as int])));
        }
        i = i + 1;
    }
    assert(rows@.take(rows@.len() as int) =~= rows@);
    keys
}

/// The positions of the rows with key `k`, in order.
fn members_with_key(rows: &Vec<ConflictRow>, k: &Vec<char>) -> (r: Vec<usize>)
    ensures
        forall|a: int| 0 <= a < r@.len() ==> (#[trigger] r@[a]) < rows@.len(),
        r@.map_values(|a: usize| rows@[a as int]) == key_members(rows@, k@),
{
    let mut out: Vec<usize> = Vec::new();
    let mut i: usize = 0;
    assert(out@.map_values(|a: usize| rows@[a as int]) =~= key_members(rows@.take(0), k@));
    while i < rows.len()
        invariant
            i <= rows@.len(),
            forall|a: int| 0 <= a < out@.len() ==> (#[trigger] out@[a]) < i,
            out@.map_values(|a: usize| rows@[a as int]) == key_members(rows@.take(i as int), k@),
        decreases rows@.len() - i,
    {
        let rk = key_chars(&rows[i]);
        let ghost before = out@;
        proof {
            let t1 = rows@.take(i + 1);
            assert(t1 =~= rows@.take(i as int).push(rows@[i as int]));
            rows@.take(i as int).lemma_filter_push(rows@[i as int], key_is(k@));
            assert(key_members(t1, k@) == (if row_key(rows@[i as int]) == k@ {
                key_members(rows@.take(i as int), k@).push(rows@[i as int])
            } else {
                key_members(rows@.take(i as int), k@)
            }));
        }
        if chars_eq(&rk, k) {
            out.push(i);
            assert(out@.map_values(|a: usize| rows@[a as int])
                =~= before.map_values(|a: usize| rows@[a as int]).push(rows@[i as int]));
        }
        i = i + 1;
    }
    assert(rows@.take(rows@.len() as int) =~= rows@);
    out
}

/// The groups of candidates that conflict: for each key
/// (`subject_type:subject_key:predicate`), in the order keys first appear,
/// whose rows name two or more different objects, the candidate ids of
/// those rows in order.
pub fn conflict_groups(rows: &Vec<ConflictRow>) -> (r: Vec<Vec<String>>)
    ensures
        r@.len() == conflict_groups_of(rows@).len(),
        forall|g: int| 0 <= g < r@.len() ==> (#[trigger] r@[g])@.map_values(|s: String| s@) == conflict_groups_of(rows@)[g],
{
    let keys = distinct_keys(rows);
    let ghost ks = key_views(keys@);
    let mut out: Vec<Vec<String>> = Vec::new();
    let mut j: usize = 0;
    assert(ks.take(0) =~= Seq::<Seq<char>>::empty());
    while j < keys.len()
        invariant
            ks == key_views(keys@),
            ks == first_keys(rows@),
            j <= keys@.len(),
            out@.len() == groups_over(rows@, ks.take(j as int)).len(),
            forall|g: int| 0 <= g < out@.len() ==> (#[trigger] out@[g])@.map_values(|s: String| s@)
                == groups_over(rows@, ks.take(j as int))[g],
        decreases keys@.len() - j,
    {
        let ms = members_with_key(rows, &keys[j]);
        let ghost mrows = key_members(rows@, ks[j as int]);
        assert(ms@.map_values(|a: usize| rows@[a as int]) == mrows);
        assert(ks.take(j + 1).drop_last() =~= ks.take(j as int));
        assert(ks.take(j + 1).last() == ks[j as int]);
        let mut conflict = false;
        if ms.len() > 0 {
            let o0 = object_chars(&rows[ms[0]]);
            assert(mrows[0] == rows@[ms@[0] as int]);
            let mut b: usize = 1;
            while b < ms.len()
                invariant
                    1 <= b <= ms@.len(),
                    mrows == ms@.map_values(|a: usize| rows@[a as int]),
                    forall|a: int| 0 <= a < ms@.len() ==> (#[trigger] ms@[a]) < rows@.len(),
                    o0@ == row_object(mrows[0]),
                    !conflict ==> forall|a: int| 0 <= a < b ==> row_object(#[trigger] mrows[a]) == o0@,
                    conflict ==> has_conflict(mrows),
                decreases ms@.len() - b,
            {
                let ob = object_chars(&rows[ms[b]]);
                assert(mrows[b as int] == rows@[ms@[b as int] as int]);
                if !chars_eq(&ob, &o0) {
                    conflict = true;
                    assert(row_object(mrows[b as int]) != row_object(mrows[0]));
                }
                b = b + 1;
            }
            proof {
                if !conflict {
                    assert(!has_conflict(mrows)) by {
                        if has_conflict(mrows) {
                            let (x, y) = choose|x: int, y: int| 0 <= x < mrows.len() && 0 <= y < mrows.len()
                                && row_object(mrows[x]) != row_object(mrows[y]);
                            assert(row_object(mrows[x]) == o0@);
                            assert(row_object(mrows[y]) == o0@);
                        }
                    }
                }
            }
        } else {
            assert(!has_conflict(mrows));
        }
        if conflict {
            let mut ids: Vec<String> = Vec::new();
            let mut b: usize = 0;
            while b < ms.len()
                invariant
                    b <= ms@.len(),
                    mrows == ms@.map_values(|a: usize| rows@[a as int]),
                    forall|a: int| 0 <= a < ms@.len() ==> (#[trigger] ms@[a]) < rows@.len(),
                    ids@.map_values(|s: String| s@) == row_ids(mrows.take(b as int)),
                decreases ms@.len() - b,
            {
                let ghost before = ids@;
                ids.push(rows[ms[b]].candidate_id.clone());
                assert(mrows[b as int] == rows@[ms@[b as int] as int]);
                assert(ids@.map_values(|s: String| s@) =~= before.map_values(|s: String| s@).push(mrows[b as int].candidate_id@));
                assert(row_ids(mrows.take(b + 1)) =~= row_ids(mrows.take(b as int)).push(mrows[b as int].candidate_id@));
                b = b + 1;
            }
            assert(mrows.take(ms@.len() as int) =~= mrows);
            out.push(ids);
        }
        j = j + 1;
    }
    assert(ks.take(keys@.len() as int) =~= ks);
    out
}

/// `uuid::Uuid::new_v4` written with `to_string`. Trusted: the text is the
/// hyphenated form of a random UUID, 36 characters long; nothing else of it
/// is claimed, since it is random.
#[verifier::external_body]
fn new_uuid_text() -> (s: String)
    ensures
        s@.len() == 36,
{
    uuid::Uuid::new_v4().to_string()
}

/// `std::time::SystemTime::now`, as whole seconds since the Unix epoch (0
/// for a clock set before it). Trusted with no claim: the value depends on
/// the clock.
#[verifier::external_body]
fn unix_seconds_now() -> i64 {
    std::time::SystemTime::now().duration_since(std::time::UNIX_EPOCH).unwrap_or_default().as_secs() as i64
}

/// The unresolved status conflict among `candidate_ids`, under the id
/// `conflict_` followed by `uuid`, found at `detected_at`.
pub fn conflict_set_for(candidate_ids: Vec<String>, uuid: &str, detected_at: i64) -> (r: ConflictSet)
    ensures
        r.conflict_set_id@ == "conflict_"@ + uuid@,
        r.candidate_ids@ == candidate_ids@,
        r.detected_at == detected_at,
        r.conflict_type == ConflictType::StatusConflict,
        r.resolution_status == ResolutionStatus::Unresolved,
        r.resolver is None,
        r.resolution_reason is None,
{
    let mut id = String::new();
    let prefix = vec!['c', 'o', 'n', 'f', 'l', 'i', 'c', 't', '_'];
    let mut a: usize = 0;
    while a < prefix.len()
        invariant
            a <= prefix@.len(),
            prefix@ == seq!['c', 'o', 'n', 'f', 'l', 'i', 'c', 't', '_'],
            id@ == prefix@.take(a as int),
        decreases prefix@.len() - a,
    {
        crate::text::push_char(&mut id, prefix[a]);
        assert(prefix@.take(a + 1) =~= prefix@.take(a as int).push(prefix@[a as int]));
        a = a + 1;
    }
    let u = chars_of(uuid);
    let ghost id0 = id@;
    let mut b: usize = 0;
    while b < u.len()
        invariant
            b <= u@.len(),
            u@ == uuid@,
            id@ == id0 + u@.take(b as int),
        decreases u@.len() - b,
    {
        crate::text::push_char(&mut id, u[b]);
        assert(u@.take(b + 1) =~= u@.take(b as int).push(u@[b as int]));
        b = b + 1;
    }
    proof {
        reveal_strlit("conflict_");
        assert(prefix@.take(9) =~= prefix@);
        assert(id0 =~= "conflict_"@);
        assert(u@.take(u@.len() as int) =~= u@);
    }
    ConflictSet {
        conflict_set_id: id,
        conflict_type: ConflictType::StatusConflict,
        candidate_ids,
        detected_at,
        resolution_status: ResolutionStatus::Unresolved,
        resolver: None,
        resolution_reason: None,
    }
}

/// The conflicts among a batch of `candidate_count` candidates whose stored
/// rows are `rows`: none for fewer than two candidates; otherwise one
/// unresolved status conflict per group of `conflict_groups`, in that
/// order, each under a fresh `conflict_<uuid>` id and stamped with the
/// current time.
pub fn detect_conflicts(candidate_count: usize, rows: &Vec<ConflictRow>) -> (r: Vec<ConflictSet>)
    ensures
        candidate_count < 2 ==> r@.len() == 0,
        candidate_count >= 2 ==> r@.len() == conflict_groups_of(rows@).len(),
        candidate_count >= 2 ==> forall|g: int| 0 <= g < r@.len() ==> {
            &&& (#[trigger] r@[g]).candidate_ids@.map_values(|s: String| s@) == conflict_groups_of(rows@)[g]
            &&& r@[g].conflict_type == ConflictType::StatusConflict
            &&& r@[g].resolution_status == ResolutionStatus::Unresolved
            &&& r@[g].resolver is None
            &&& r@[g].resolution_reason is None
            &&& r@[g].conflict_set_id@.len() == 45
            &&& r@[g].conflict_set_id@.take(9) == "conflict_"@
        },
{
    let mut out: Vec<ConflictSet> = Vec::new();
    if candidate_count < 2 {
        return out;
    }
    let groups = conflict_groups(rows);
    let mut g: usize = 0;
    while g < groups.len()
        invariant
            g <= groups@.len(),
            groups@.len() == conflict_groups_of(rows@).len(),
            forall|x: int| 0 <= x < groups@.len() ==> (#[trigger] groups@[x])@.map_values(|s: String| s@) == conflict_groups_of(rows@)[x],
            out@.len() == g,
            forall|x: int| 0 <= x < g ==> {
                &&& (#[trigger] out@[x]).candidate_ids@.map_values(|s: String| s@) == conflict_groups_of(rows@)[x]
                &&& out@[x].conflict_type == ConflictType::StatusConflict
                &&& out@[x].resolution_status == ResolutionStatus::Unresolved
                &&& out@[x].resolver is None
                &&& out@[x].resolution_reason is None
                &&& out@[x].conflict_set_id@.len() == 45
                &&& out@[x].conflict_set_id@.take(9) == "conflict_"@
            },
        decreases groups@.len() - g,
    {
        let u = new_uuid_text();
        let mut ids: Vec<String> = Vec::new();
        let mut c: usize = 0;
        while c < groups[g].len()
            invariant
                g < groups@.len(),
                c <= groups@[g as int]@.len(),
                ids@.map_values(|s: String| s@) == groups@[g as int]@.take(c as int).map_values(|s: String| s@),
            decreases groups@[g as int]@.len() - c,
        {
            let ghost before = ids@;
            ids.push(groups[g][c].clone());
            assert(ids@.map_values(|s: String| s@) =~= before.map_values(|s: String| s@).push(groups@[g as int]@[c as int]@));
            assert(groups@[g as int]@.take(c + 1).map_values(|s: String| s@)
                =~= groups@[g as int]@.take(c as int).map_values(|s: String| s@).push(groups@[g as int]@[c as int]@));
            c = c + 1;
        }
        assert(groups@[g as int]@.take(groups@[g as int]@.len() as int) =~= groups@[g as int]@);
        let set = conflict_set_for(ids, u.as_str(), unix_seconds_now());
        proof {
            reveal_strlit("conflict_");
            assert(set.conflict_set_id@.take(9) =~= "conflict_"@);
        }
        out.push(set);
        g = g + 1;
    }
    out
}

} // verus!
