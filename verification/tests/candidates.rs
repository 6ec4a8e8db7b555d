use magellan::candidate_fact::{
    conflict_groups, conflict_set_for, detect_conflicts, CandidateStatus, ConflictRow, ConflictType, ResolutionStatus,
};

#[test]
fn candidate_fact_test_candidate_status_roundtrip() {
    for status in [
        CandidateStatus::Pending,
        CandidateStatus::Accepted,
        CandidateStatus::Rejected,
        CandidateStatus::Ambiguous,
        CandidateStatus::InConflict,
    ] {
        let s = status.as_str();
        let parsed = CandidateStatus::parse(s).unwrap();
        assert_eq!(parsed, status);
    }
}

#[test]
fn candidate_fact_tests_test_candidate_status_roundtrip() {
    for status in [
        CandidateStatus::Pending,
        CandidateStatus::Accepted,
        CandidateStatus::Rejected,
        CandidateStatus::Ambiguous,
        CandidateStatus::InConflict,
    ] {
        let s = status.as_str();
        let parsed = CandidateStatus::parse(s).unwrap();
        assert_eq!(parsed, status);
    }
}

#[test]
fn unknown_status_name_does_not_parse() {
    assert_eq!(CandidateStatus::parse("done"), None);
    assert_eq!(CandidateStatus::parse("Pending"), None);
    assert_eq!(CandidateStatus::InConflict.as_str(), "in_conflict");
}

#[test]
fn conflict_and_resolution_names() {
    assert_eq!(ConflictType::StatusConflict.as_str(), "status_conflict");
    assert_eq!(ConflictType::OwnershipConflict.as_str(), "ownership_conflict");
    assert_eq!(ConflictType::TimestampConflict.as_str(), "timestamp_conflict");
    assert_eq!(ConflictType::SemanticConflict.as_str(), "semantic_conflict");
    assert_eq!(ConflictType::CausalConflict.as_str(), "causal_conflict");
    assert_eq!(ResolutionStatus::Unresolved.as_str(), "unresolved");
    assert_eq!(ResolutionStatus::AcceptedOne.as_str(), "accepted_one");
    assert_eq!(ResolutionStatus::Merged.as_str(), "merged");
    assert_eq!(ResolutionStatus::RejectedAll.as_str(), "rejected_all");
    assert_eq!(ResolutionStatus::NeedsUser.as_str(), "needs_user");
}

fn row(id: &str, st: &str, sk: &str, p: &str, obj: Option<(&str, &str)>) -> ConflictRow {
    ConflictRow {
        candidate_id: id.to_string(),
        subject_type: st.to_string(),
        subject_key: sk.to_string(),
        predicate: p.to_string(),
        object_type: obj.map(|o| o.0.to_string()),
        object_key: obj.map(|o| o.1.to_string()),
    }
}

#[test]
fn conflicting_objects_for_one_subject_form_a_group() {
    let rows = vec![
        row("c1", "Task", "t1", "assigned_to", Some(("Agent", "Codex"))),
        row("c2", "Task", "t2", "assigned_to", Some(("Agent", "Codex"))),
        row("c3", "Task", "t1", "assigned_to", Some(("Agent", "Robin"))),
        row("c4", "Task", "t2", "assigned_to", Some(("Agent", "Codex"))),
        row("c5", "Task", "t3", "status", None),
        row("c6", "Task", "t3", "status", Some(("State", "done"))),
    ];
    let groups = conflict_groups(&rows);
    assert_eq!(groups, vec![vec!["c1".to_string(), "c3".to_string()], vec!["c5".to_string(), "c6".to_string()]]);
}

#[test]
fn object_missing_either_part_counts_as_none() {
    let rows = vec![
        ConflictRow {
            candidate_id: "a".to_string(),
            subject_type: "T".to_string(),
            subject_key: "k".to_string(),
            predicate: "p".to_string(),
            object_type: Some("X".to_string()),
            object_key: None,
        },
        row("b", "T", "k", "p", None),
    ];
    assert!(conflict_groups(&rows).is_empty());
}

#[test]
fn detect_conflicts_needs_two_candidates_and_marks_sets_unresolved() {
    let rows = vec![
        row("c1", "Task", "t1", "assigned_to", Some(("Agent", "Codex"))),
        row("c3", "Task", "t1", "assigned_to", Some(("Agent", "Robin"))),
    ];
    assert!(detect_conflicts(1, &rows).is_empty());
    let sets = detect_conflicts(2, &rows);
    assert_eq!(sets.len(), 1);
    let s = &sets[0];
    assert_eq!(s.candidate_ids, vec!["c1".to_string(), "c3".to_string()]);
    assert_eq!(s.conflict_type, ConflictType::StatusConflict);
    assert_eq!(s.resolution_status, ResolutionStatus::Unresolved);
    assert!(s.resolver.is_none() && s.resolution_reason.is_none());
    assert!(s.conflict_set_id.starts_with("conflict_"));
    assert_eq!(s.conflict_set_id.len(), 45);
    let again = detect_conflicts(2, &rows);
    assert_ne!(again[0].conflict_set_id, s.conflict_set_id);
}

#[test]
fn conflict_set_is_named_after_its_uuid_and_stamped() {
    let ids = vec!["c1".to_string(), "c2".to_string()];
    let set = conflict_set_for(ids.clone(), "123e4567-e89b-12d3-a456-426614174000", 1_700_000_000);
    assert_eq!(set.conflict_set_id, "conflict_123e4567-e89b-12d3-a456-426614174000");
    assert_eq!(set.candidate_ids, ids);
    assert_eq!(set.detected_at, 1_700_000_000);
    assert_eq!(set.conflict_type, ConflictType::StatusConflict);
    assert_eq!(set.resolution_status, ResolutionStatus::Unresolved);
    assert!(set.resolver.is_none() && set.resolution_reason.is_none());
}
