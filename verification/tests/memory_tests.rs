use backend::memory::{
    MemoryEntry, MemoryError, MemoryScope, SchemaStep, memory_schema_step, rank_entries,
};

fn entry(id: i64, project: &str, query: &str, content: &str) -> MemoryEntry {
    let checksum = MemoryEntry::checksum_for(query, content);
    MemoryEntry::from_storage(
        id,
        project.to_string(),
        query.to_string(),
        content.to_string(),
        "agent_final_answer".to_string(),
        checksum,
        1,
    )
}

#[test]
fn checksum_uses_backslash_n_separator() {
    assert_eq!(
        MemoryEntry::checksum_for("q", "c"),
        "7a6e76bdbff92db1d238f92ae6e95a367a1d19b3d5013ac8ef8468e87d1582e2"
    );
}

#[test]
fn stored_entry_verifies_and_tampered_entry_does_not() {
    let good = entry(1, "p", "question", "answer");
    assert!(good.verify_checksum());
    let bad = MemoryEntry::from_storage(
        2,
        "p".to_string(),
        "question".to_string(),
        "changed".to_string(),
        "agent_final_answer".to_string(),
        MemoryEntry::checksum_for("question", "answer"),
        1,
    );
    assert!(!bad.verify_checksum());
}

#[test]
fn getters_return_stored_fields() {
    let e = entry(7, "proj", "q text", "c text");
    assert_eq!(e.id(), 7);
    assert_eq!(e.project(), "proj");
    assert_eq!(e.query(), "q text");
    assert_eq!(e.content(), "c text");
    assert_eq!(e.source(), "agent_final_answer");
    assert_eq!(e.checksum(), MemoryEntry::checksum_for("q text", "c text"));
    assert_eq!(e.revision(), 1);
}

#[test]
fn relevance_score_weights_query_content_and_role() {
    let e = entry(1, "p", "sqlite index", "sqlite index tuning for queries");
    // request terms shared with query: 2 (x4), with content: 2 (x2), role with content: 1.
    assert_eq!(e.relevance_score("sqlite index", "tuning"), 8 + 4 + 1);
    assert!(e.matches_request("index"));
    assert!(!e.matches_request("weather"));
}

#[test]
fn ranking_orders_by_score_then_id_and_drops_unrelated() {
    let entries = vec![
        entry(1, "p", "sqlite", "one"),
        entry(2, "p", "weather", "sunny"),
        entry(3, "p", "sqlite", "three"),
        entry(4, "p", "sqlite index", "four"),
    ];
    let ranked = rank_entries(entries, "sqlite index", "", 8);
    let ids: Vec<i64> = ranked.iter().map(|e| e.id()).collect();
    assert_eq!(ids, vec![4, 3, 1]);
}

#[test]
fn ranking_respects_the_limit() {
    let entries = vec![entry(1, "p", "sqlite", "a"), entry(2, "p", "sqlite", "b"), entry(3, "p", "sqlite", "c")];
    let ranked = rank_entries(entries, "sqlite", "", 2);
    let ids: Vec<i64> = ranked.iter().map(|e| e.id()).collect();
    assert_eq!(ids, vec![3, 2]);
}

#[test]
fn recall_limit_is_eight() {
    assert_eq!(MemoryScope::check_recall_limit(8), Ok(()));
    assert_eq!(MemoryScope::check_recall_limit(9), Err(MemoryError::RecallLimit));
    assert_eq!(MemoryError::RecallLimit.message(), "Limite de recherche mémoire excessive");
}

#[test]
fn schema_errors_name_the_version() {
    assert_eq!(MemoryError::MissingMigration(0).message(), "Migration depuis la version 0 non implémentée");
    assert_eq!(MemoryError::MissingMigration(-3).message(), "Migration depuis la version -3 non implémentée");
    assert_eq!(MemoryError::UnsupportedSchema.message(), "Version de schéma SQLite non prise en charge");
    assert_eq!(MemoryError::Partition.message(), "Erreur de cloisonnement de la mémoire");
}

#[test]
fn screening_refuses_foreign_entries_and_drops_corrupt_ones() {
    let scope = MemoryScope::new("/home/user/project");
    let project = scope.project().to_string();
    let corrupt = MemoryEntry::from_storage(
        9,
        project.clone(),
        "q".to_string(),
        "c".to_string(),
        "agent_final_answer".to_string(),
        "0".repeat(64),
        1,
    );
    let kept = scope.screen(vec![entry(1, &project, "q", "c"), corrupt]).unwrap();
    assert_eq!(kept.len(), 1);
    assert_eq!(kept[0].id(), 1);
    let foreign = scope.screen(vec![entry(1, "other", "q", "c")]);
    assert_eq!(foreign.err(), Some(MemoryError::Partition));
}

#[test]
fn prepare_truncates_and_checksums() {
    assert!(MemoryScope::prepare("   ", "answer").is_none());
    assert!(MemoryScope::prepare("question", "\n").is_none());
    let long_query = "q".repeat(2000);
    let long_answer = "é".repeat(5000);
    let p = MemoryScope::prepare(&long_query, &long_answer).unwrap();
    assert_eq!(p.query.chars().count(), 1024);
    assert_eq!(p.content.chars().count(), 4096);
    assert_eq!(p.checksum, MemoryEntry::checksum_for(&p.query, &p.content));
}

#[test]
fn remembered_answer_is_recalled_intact() {
    let p = MemoryScope::prepare("hello", "world").unwrap();
    let stored = MemoryEntry::from_storage(
        1,
        "p".to_string(),
        p.query.clone(),
        p.content.clone(),
        "agent_final_answer".to_string(),
        p.checksum.clone(),
        1,
    );
    assert!(stored.verify_checksum());
    assert_eq!(p.checksum, "b36d6c749b42798f14e29117496248f8efeaab4d04bce454b1254ec94d3a8b65");
}

#[test]
fn memory_schema_steps() {
    assert_eq!(memory_schema_step(None), Ok(SchemaStep::Create));
    assert_eq!(memory_schema_step(Some(1)), Ok(SchemaStep::Current));
    assert_eq!(memory_schema_step(Some(2)), Err(MemoryError::UnsupportedSchema));
    assert_eq!(memory_schema_step(Some(0)), Err(MemoryError::MissingMigration(0)));
}
