use codex_mem9::config::RuntimeConfig;
use codex_mem9::fingerprint::fingerprint_value;
use codex_mem9::importer::{
    build_legacy_source, build_source, canonical_fingerprint_for, collect_from_file,
    collect_import_entries, collect_tagged_bullets, effective_api_key, is_memory_file_exec,
    legacy_fingerprint_candidates, migrate_fingerprints, migrate_prepared, migrate_state_fingerprints,
    plan_item, prepare_items, PreparedItem,
    record_store_outcome, select_memory_files, ImportItem, MemoryDocument, SyncAction, SyncStats,
};
use codex_mem9::redact::sanitize_mem9_content;
use codex_mem9::state::SyncState;

#[test]
fn build_source_is_stable_for_the_same_path() {
    let root = "/tmp/memories";
    let path = "/tmp/memories/rollout_summaries/example.md";
    let first = build_source(root, path);
    let second = build_source(root, path);

    assert_eq!(first, second);
    assert_eq!(first, "codex-memory:rollout_summaries/example.md");
}

#[test]
fn build_source_does_not_leak_absolute_paths_for_custom_root_names() {
    let root = "/tmp/custom-root-name";
    let path = "/tmp/custom-root-name/subdir/example.md";
    let source = build_source(root, path);

    assert_eq!(source, "codex-memory:subdir/example.md");
    assert!(!source.contains("/tmp/custom-root-name"));
}

#[test]
fn build_legacy_source_matches_v012_format() {
    let path = "/tmp/memories/rollout_summaries/example.md";

    assert_eq!(
        build_legacy_source(path),
        "codex-memory:memories/rollout_summaries/example.md"
    );
}

#[test]
fn migrates_unique_legacy_fingerprint_to_canonical_state_entry() {
    let source = "codex-memory:rollout_summaries/example.md".to_string();
    let legacy_source = "codex-memory:memories/rollout_summaries/example.md".to_string();
    let raw_content = "Learning: Read /Users/example/project/file-a.txt".to_string();
    let sanitized_content = sanitize_mem9_content(&raw_content);
    let item = ImportItem {
        raw_content: raw_content.clone(),
        content: sanitized_content.clone(),
        tags: vec![],
        source: source.clone(),
        legacy_sources: vec![legacy_source.clone()],
    };
    let mut state = SyncState::default();
    state.mark_imported(fingerprint_value(&legacy_source, &sanitized_content));

    assert!(migrate_state_fingerprints(&mut state, &[item]));
    assert!(state.contains(&canonical_fingerprint_for(&ImportItem {
        raw_content,
        content: sanitized_content,
        tags: vec![],
        source,
        legacy_sources: vec![legacy_source],
    })));
}

#[test]
fn canonical_fingerprint_avoids_redaction_collision_for_distinct_items() {
    let source = "codex-memory:rollout_summaries/example.md".to_string();
    let first_raw = "Learning: Read /Users/example/project/file-a.txt".to_string();
    let second_raw = "Learning: Read /Users/example/project/file-b.txt".to_string();
    let first = ImportItem {
        raw_content: first_raw.clone(),
        content: sanitize_mem9_content(&first_raw),
        tags: vec![],
        source: source.clone(),
        legacy_sources: vec![],
    };
    let second = ImportItem {
        raw_content: second_raw.clone(),
        content: sanitize_mem9_content(&second_raw),
        tags: vec![],
        source,
        legacy_sources: vec![],
    };
    let mut state = SyncState::default();
    state.mark_imported(canonical_fingerprint_for(&first));

    assert_eq!(first.content, second.content);
    assert!(!state.contains(&canonical_fingerprint_for(&second)));
}

#[test]
fn drops_ambiguous_legacy_fingerprint_aliases_to_avoid_collision() {
    let source = "codex-memory:rollout_summaries/example.md".to_string();
    let legacy_source = "codex-memory:memories/rollout_summaries/example.md".to_string();
    let first_raw = "Learning: Read /Users/example/project/file-a.txt".to_string();
    let second_raw = "Learning: Read /Users/example/project/file-b.txt".to_string();
    let first = ImportItem {
        raw_content: first_raw.clone(),
        content: sanitize_mem9_content(&first_raw),
        tags: vec![],
        source: source.clone(),
        legacy_sources: vec![legacy_source.clone()],
    };
    let second = ImportItem {
        raw_content: second_raw.clone(),
        content: sanitize_mem9_content(&second_raw),
        tags: vec![],
        source,
        legacy_sources: vec![legacy_source.clone()],
    };
    let mut state = SyncState::default();
    state.mark_imported(fingerprint_value(&legacy_source, &first.content));

    assert!(migrate_state_fingerprints(
        &mut state,
        &[first.clone(), second.clone()]
    ));
    assert!(!state.contains(&fingerprint_value(&legacy_source, &first.content)));
    assert!(!state.contains(&canonical_fingerprint_for(&first)));
    assert!(!state.contains(&canonical_fingerprint_for(&second)));
}

#[test]
fn ignores_nested_headings_when_collecting_bullets() {
    let markdown = "## User preferences\n- Keep concise output\n### Nested note\n- Ignore this nested bullet\n## General Tips\n- Check health first\n";
    let items = collect_tagged_bullets(
        markdown,
        "## User preferences",
        "User preference",
        &["codex-memory", "user-preference"],
        "codex-memory:memories/memory_summary.md",
        &[],
    );

    assert_eq!(items.len(), 1);
    assert!(items[0].content.contains("Keep concise output"));
}

#[test]
fn collects_high_signal_entries() {
    let root = "/tmp/x/memories";
    let documents = vec![
        MemoryDocument {
            path: format!("{root}/MEMORY.md"),
            markdown: "### learnings\n- Re-check `~/.codex/sessions/x.jsonl`\n".to_string(),
        },
        MemoryDocument {
            path: format!("{root}/memory_summary.md"),
            markdown: "## User preferences\n- Prefer concise Chinese output\n## General Tips\n- Check localhost:8081 first\n".to_string(),
        },
        MemoryDocument {
            path: format!("{root}/rollout_summaries/one.md"),
            markdown: "### learnings\n- The service listens on 192.168.64.1:5000\n".to_string(),
        },
    ];

    let items = collect_import_entries(root, &documents);
    assert_eq!(items.len(), 4);
    assert!(items
        .iter()
        .any(|item| item.content.contains("Codex session rollout JSONL file")));
    assert!(
        items
            .iter()
            .any(|item| item.content.contains("loopback address"))
            || items
                .iter()
                .any(|item| item.content.contains("related address"))
    );
    assert!(items
        .iter()
        .any(|item| item.content.contains("private network address (port 5000)")));
}

#[test]
fn bullets_exact_items_and_heading_rules() {
    let markdown = "# Title\n### LEARNINGS  \n- - - first  \n- \n-   \n-second\n  - indented\n### other\n- no\n### learnings\n- third\r\n## higher\n- closed\n";
    let items = collect_tagged_bullets(
        markdown,
        "### learnings",
        "Learning",
        &["codex-memory", "learning"],
        "codex-memory:MEMORY.md",
        &["codex-memory:memories/MEMORY.md".to_string()],
    );
    let raws: Vec<&str> = items.iter().map(|i| i.raw_content.as_str()).collect();
    assert_eq!(raws, vec!["Learning: first", "Learning: third"]);
    assert_eq!(items[0].tags, vec!["codex-memory".to_string(), "learning".to_string()]);
    assert_eq!(items[0].source, "codex-memory:MEMORY.md");
    assert_eq!(items[0].legacy_sources, vec!["codex-memory:memories/MEMORY.md".to_string()]);
    assert_eq!(items[0].content, "Learning: first");
}

#[test]
fn bullets_without_heading_yield_nothing() {
    let items = collect_tagged_bullets("- a\n- b", "### learnings", "L", &[], "s", &[]);
    assert!(items.is_empty());
    let empty = collect_tagged_bullets("", "### learnings", "L", &[], "s", &[]);
    assert!(empty.is_empty());
}

#[test]
fn collect_from_file_dispatches_on_the_file_name() {
    let md = "## User preferences\n- P\n## General Tips\n- T\n### learnings\n- L\n";
    let summary = collect_from_file("/r/memories", "/r/memories/memory_summary.md", md);
    let raws: Vec<&str> = summary.iter().map(|i| i.raw_content.as_str()).collect();
    assert_eq!(raws, vec!["User preference: P", "General tip: T"]);
    assert_eq!(summary[1].tags, vec!["codex-memory".to_string(), "general-tip".to_string()]);
    assert_eq!(
        summary[0].legacy_sources,
        vec!["codex-memory:memories/memory_summary.md".to_string()]
    );

    let memory = collect_from_file("/r/custom", "/r/custom/MEMORY.md", md);
    assert_eq!(memory.len(), 1);
    assert_eq!(memory[0].tags[1], "learning");
    assert_eq!(memory[0].source, "codex-memory:MEMORY.md");
    assert_eq!(memory[0].legacy_sources, vec!["codex-memory:r/custom/MEMORY.md".to_string()]);

    let rollout = collect_from_file("/r/custom", "/r/custom/rollout_summaries/x.md", md);
    assert_eq!(rollout[0].tags[1], "rollout-learning");
    assert_eq!(rollout[0].source, "codex-memory:rollout_summaries/x.md");
}

#[test]
fn sources_for_unusual_paths() {
    assert_eq!(build_source("/a/b", "/c/d.md"), "codex-memory:/c/d.md");
    assert_eq!(build_source("/a/b/", "/a/b/x\\y.md"), "codex-memory:x/y.md");
    assert_eq!(build_source("/a/b", "/a/b"), "codex-memory:");
    assert_eq!(
        build_source("/tmp/memories", "/tmp/memories//a/./b.md"),
        "codex-memory:a/./b.md"
    );
    assert_eq!(build_source("/tmp/memories/", "/tmp/memories/a/"), "codex-memory:a");
    assert_eq!(build_source("/", "/./x.md/."), "codex-memory:x.md");
    assert_eq!(build_source("", "a//b/./"), "codex-memory:a//b");
    assert_eq!(build_source("", "//"), "codex-memory:/");
    assert_eq!(build_source("", "./"), "codex-memory:.");
    assert_eq!(build_source(".", "./notes/x.md"), "codex-memory:notes/x.md");
    assert_eq!(build_legacy_source("/x/y.md"), "codex-memory:x/y.md");
    assert_eq!(
        build_legacy_source("/memories/a/memories/b.md"),
        "codex-memory:memories/b.md"
    );
    assert_eq!(build_legacy_source("rel/../z.md"), "codex-memory:rel/z.md");
}

#[test]
fn selects_markdown_files_in_path_order() {
    let paths = vec![
        "/r/b.md".to_string(),
        "/r/raw_memories.md".to_string(),
        "/r/a.md".to_string(),
        "/r/a/z.md".to_string(),
        "/r/notes.txt".to_string(),
        "/r/.md".to_string(),
        "/r/a.b.md".to_string(),
    ];
    assert_eq!(
        select_memory_files(&paths),
        vec![
            "/r/a/z.md".to_string(),
            "/r/a.b.md".to_string(),
            "/r/a.md".to_string(),
            "/r/b.md".to_string(),
        ]
    );
    assert!(is_memory_file_exec("x/y.md"));
    assert!(!is_memory_file_exec("x/raw_memories.md"));
    assert!(!is_memory_file_exec("x/.."));
}

#[test]
fn fingerprints_are_lower_case_sha256_hex() {
    let fp = fingerprint_value("a", "b");
    // SHA-256 of "a\nb".
    assert_eq!(fp, "7e18f737311b2dc3b2f269dd78396b0351f14fb66efa879f768cb23181883c78");
    assert_eq!(fp.len(), 64);
    assert!(fp.chars().all(|c| c.is_ascii_hexdigit() && !c.is_ascii_uppercase()));
    assert_ne!(fingerprint_value("a", "b"), fingerprint_value("a\nb", ""));
}

#[test]
fn legacy_candidates_skip_repeats_and_the_canonical() {
    let item = ImportItem {
        raw_content: "Learning: same".to_string(),
        content: "Learning: same".to_string(),
        tags: vec![],
        source: "s".to_string(),
        legacy_sources: vec!["l".to_string(), "l".to_string(), "s".to_string()],
    };
    let candidates = legacy_fingerprint_candidates(&item);
    assert_eq!(candidates, vec![fingerprint_value("l", "Learning: same")]);
}

#[test]
fn migration_without_aliases_changes_nothing() {
    let mut state = SyncState::new();
    state.mark_imported("x".to_string());
    state.mark_imported("y".to_string());
    let (updated, changed) = migrate_fingerprints(state.imported_fingerprints(), &[]);
    assert!(!changed);
    assert_eq!(&updated, state.imported_fingerprints());
}

#[test]
fn sync_plan_skips_recorded_items_and_records_accepted_ones() {
    let item = ImportItem {
        raw_content: "Learning: x".to_string(),
        content: "Learning: x".to_string(),
        tags: vec!["t".to_string()],
        source: "codex-memory:MEMORY.md".to_string(),
        legacy_sources: vec![],
    };
    let mut state = SyncState::new();
    let mut stats = SyncStats::default();
    let fingerprint = match plan_item(&state, &mut stats, &item) {
        SyncAction::Store { fingerprint, payload } => {
            assert_eq!(payload.content, "Learning: x");
            assert_eq!(payload.tags, vec!["t".to_string()]);
            assert_eq!(payload.source, "codex-memory:MEMORY.md");
            fingerprint
        }
        SyncAction::Skip => panic!("a new item is stored"),
    };
    assert_eq!(fingerprint, canonical_fingerprint_for(&item));
    assert!(!record_store_outcome(&mut state, &mut stats, fingerprint.clone(), false));
    assert!(!state.contains(&fingerprint));
    assert!(record_store_outcome(&mut state, &mut stats, fingerprint.clone(), true));
    assert!(state.contains(&fingerprint));
    assert!(matches!(plan_item(&state, &mut stats, &item), SyncAction::Skip));
    assert_eq!((stats.total, stats.imported, stats.skipped), (2, 1, 1));
}

#[test]
fn api_key_falls_back_to_tenant() {
    let mut config = RuntimeConfig {
        api_url: "u".to_string(),
        api_key: None,
        tenant_id: "tenant".to_string(),
        codex_memories_dir: "m".to_string(),
        state_path: "s".to_string(),
        poll_interval_seconds: 1,
    };
    assert_eq!(effective_api_key(&config), "tenant");
    config.api_key = Some("key".to_string());
    assert_eq!(effective_api_key(&config), "key");
}

#[test]
fn store_failure_leaves_the_item_unrecorded() {
    let items = collect_from_file(
        "/tmp/memories",
        "/tmp/memories/MEMORY.md",
        "### learnings\n- One durable fact\n",
    );
    assert_eq!(items.len(), 1);
    let mut state = SyncState::default();
    let mut stats = SyncStats::new();
    let fingerprint = match plan_item(&state, &mut stats, &items[0]) {
        SyncAction::Store { fingerprint, payload } => {
            assert_eq!(payload.content, "Learning: One durable fact");
            fingerprint
        }
        SyncAction::Skip => panic!("a new item is stored"),
    };
    assert!(!record_store_outcome(&mut state, &mut stats, fingerprint.clone(), false));
    assert_eq!(stats.total, 1);
    assert_eq!(stats.imported, 0);
    assert!(!state.contains(&fingerprint));
}

fn prepared(canonical: &str, aliases: &[&str]) -> PreparedItem {
    PreparedItem {
        canonical: canonical.to_string(),
        aliases: aliases.iter().map(|a| a.to_string()).collect(),
    }
}

#[test]
fn migrate_prepared_maps_unique_aliases_and_drops_ambiguous_ones() {
    let mut state = SyncState::new();
    for f in ["x", "a", "b", "c", "A"] {
        state.mark_imported(f.to_string());
    }
    let items = vec![prepared("A", &["a"]), prepared("B1", &["b"]), prepared("B2", &["b", "q"])];
    let (updated, changed) = migrate_prepared(state.imported_fingerprints(), &items);
    assert!(changed);
    let kept: Vec<&str> = updated.iter().map(|f| f.as_str()).collect();
    assert_eq!(kept, vec!["x", "A", "c"]);

    let (same, changed) = migrate_prepared(state.imported_fingerprints(), &vec![prepared("Z", &["z"])]);
    assert!(!changed);
    assert_eq!(&same, state.imported_fingerprints());
}

#[test]
fn prepare_items_lists_canonical_and_legacy_fingerprints() {
    let item = ImportItem {
        raw_content: "Learning: raw".to_string(),
        content: "Learning: clean".to_string(),
        tags: vec![],
        source: "s".to_string(),
        legacy_sources: vec!["l".to_string()],
    };
    let prepared = prepare_items(&[item.clone()]);
    assert_eq!(prepared.len(), 1);
    assert_eq!(prepared[0].canonical, canonical_fingerprint_for(&item));
    assert_eq!(prepared[0].aliases, legacy_fingerprint_candidates(&item));
    assert_eq!(
        prepared[0].aliases,
        vec![fingerprint_value("s", "Learning: clean"), fingerprint_value("l", "Learning: clean")]
    );
}

#[test]
fn paths_that_compare_equal_keep_their_order() {
    let paths = vec![
        "/r/b.md".to_string(),
        "/r/a//x.md".to_string(),
        "/r/a/x.md".to_string(),
        "/r/a/./x.md".to_string(),
    ];
    assert_eq!(
        select_memory_files(&paths),
        vec!["/r/a//x.md".to_string(), "/r/a/x.md".to_string(), "/r/a/./x.md".to_string(), "/r/b.md".to_string()]
    );
    let reversed: Vec<String> = paths.iter().rev().cloned().collect();
    assert_eq!(
        select_memory_files(&reversed),
        vec!["/r/a/./x.md".to_string(), "/r/a/x.md".to_string(), "/r/a//x.md".to_string(), "/r/b.md".to_string()]
    );
}

#[test]
fn bullets_follow_the_nearest_heading() {
    let markdown = "- before\n## User preferences\n- a\n### Nested\n- b\n## user PREFERENCES \n- c\n## Other\n- d\n";
    let items = collect_tagged_bullets(
        markdown,
        "## User preferences",
        "User preference",
        &["codex-memory", "user-preference"],
        "s",
        &[],
    );
    let raws: Vec<&str> = items.iter().map(|i| i.raw_content.as_str()).collect();
    assert_eq!(raws, vec!["User preference: a", "User preference: c"]);
}
