use ccusage_pi::pi::{
    dedupe_key, keys_equal, load_entries, load_entries_for_store_path, load_entries_for_store_paths,
    load_entries_from_paths, sort_by_timestamp, PiDedupeKey, PiEntry, PiLoadScope, SessionFile,
};

const JAN_2: i64 = 1767312000000;
const JAN_2_PLUS_1S: i64 = 1767312001000;
const JAN_3: i64 = 1767398400000;

fn message(id: &str, timestamp: i64, provider: &str, input: u64, output: u64) -> PiEntry {
    PiEntry {
        timestamp,
        message_id: Some(id.to_string()),
        entry_id: format!("entry-{id}-{timestamp}"),
        provider: Some(provider.to_string()),
        model: Some("sonnet-4".to_string()),
        input_tokens: input,
        output_tokens: output,
        cache_creation_tokens: 0,
        cache_read_tokens: 0,
        extra_total_tokens: 0,
    }
}

fn legacy(entry_id: &str, timestamp: i64, provider: Option<&str>) -> PiEntry {
    PiEntry {
        timestamp,
        message_id: None,
        entry_id: entry_id.to_string(),
        provider: provider.map(|p| p.to_string()),
        model: None,
        input_tokens: 1,
        output_tokens: 1,
        cache_creation_tokens: 0,
        cache_read_tokens: 0,
        extra_total_tokens: 0,
    }
}

fn file(display: &str, entries: Vec<PiEntry>) -> SessionFile {
    SessionFile { display: display.to_string(), result: Ok(entries) }
}

fn total_tokens(entry: &PiEntry) -> u64 {
    entry.input_tokens
        + entry.output_tokens
        + entry.cache_creation_tokens
        + entry.cache_read_tokens
        + entry.extra_total_tokens
}

#[test]
fn counts_a_resumed_message_id_once_across_session_files() {
    let files = vec![vec![
        file(
            "sessions/project-a/agent_original.jsonl",
            vec![message("msg-420", JAN_2, "anthropic", 400, 20)],
        ),
        file(
            "sessions/project-a/agent_resumed.jsonl",
            vec![message("msg-420", JAN_3, "anthropic", 400, 20)],
        ),
    ]];
    let entries = load_entries(files).entries;
    let total = entries.iter().map(total_tokens).sum::<u64>();

    assert_eq!(entries.len(), 1);
    assert_eq!(total, 420);
}

#[test]
fn counts_a_subagent_transcript_mirror_and_nested_source_once() {
    let files = vec![vec![
        file(
            "sessions/project-a/subagent-artifacts/run-worker/session.jsonl",
            vec![message("subagent-msg", JAN_2, "anthropic", 300, 20)],
        ),
        file(
            "sessions/project-a/subagent-artifacts/worker_transcript.jsonl",
            vec![message("subagent-msg", JAN_2, "anthropic", 300, 20)],
        ),
    ]];
    let entries = load_entries(files).entries;

    assert_eq!(entries.len(), 1);
    assert_eq!(entries[0].message_id.as_deref(), Some("subagent-msg"));
}

#[test]
fn keeps_distinct_nested_subagent_message_ids() {
    let files = vec![vec![
        file(
            "sessions/project-a/subagent-artifacts/run-worker-a/session.jsonl",
            vec![message("subagent-msg-a", JAN_2, "anthropic", 200, 10)],
        ),
        file(
            "sessions/project-a/subagent-artifacts/run-worker-b/session.jsonl",
            vec![message("subagent-msg-b", JAN_2_PLUS_1S, "anthropic", 200, 10)],
        ),
    ]];
    let entries = load_entries(files).entries;
    let ids = entries
        .iter()
        .filter_map(|entry| entry.message_id.as_deref())
        .collect::<Vec<_>>();

    assert_eq!(ids, vec!["subagent-msg-a", "subagent-msg-b"]);
}

#[test]
fn provider_metadata_does_not_split_copies_of_one_message_id() {
    let files = vec![vec![
        file(
            "sessions/project-a/agent_original.jsonl",
            vec![message("shared-msg", JAN_2, "anthropic", 100, 10)],
        ),
        file(
            "sessions/project-a/agent_resumed.jsonl",
            vec![message("shared-msg", JAN_3, "openai-codex", 100, 10)],
        ),
    ]];
    let entries = load_entries(files).entries;

    assert_eq!(entries.len(), 1);
    assert_eq!(entries[0].message_id.as_deref(), Some("shared-msg"));
}

#[test]
fn first_copy_read_is_the_one_kept() {
    let files = vec![
        vec![file("a.jsonl", vec![message("m", JAN_3, "anthropic", 5, 5)])],
        vec![file("b.jsonl", vec![message("m", JAN_2, "openai", 7, 7)])],
    ];
    let entries = load_entries(files).entries;
    assert_eq!(entries.len(), 1);
    assert_eq!(entries[0].timestamp, JAN_3);
    assert_eq!(entries[0].provider.as_deref(), Some("anthropic"));
    assert_eq!(entries[0].input_tokens, 5);
}

#[test]
fn legacy_records_are_split_by_provider_and_entry_id() {
    let files = vec![vec![file(
        "legacy.jsonl",
        vec![
            legacy("e1", JAN_2, Some("anthropic")),
            legacy("e1", JAN_2, Some("openai")),
            legacy("e1", JAN_2, Some("anthropic")),
            legacy("e2", JAN_2, Some("anthropic")),
            legacy("e1", JAN_2, None),
            legacy("e1", JAN_3, None),
        ],
    )]];
    let entries = load_entries(files).entries;
    let kept = entries
        .iter()
        .map(|e| (e.entry_id.clone(), e.provider.clone()))
        .collect::<Vec<_>>();
    assert_eq!(
        kept,
        vec![
            ("e1".to_string(), Some("anthropic".to_string())),
            ("e1".to_string(), Some("openai".to_string())),
            ("e2".to_string(), Some("anthropic".to_string())),
            ("e1".to_string(), None),
        ]
    );
}

#[test]
fn message_id_takes_precedence_over_entry_id() {
    let mut with_id = legacy("same", JAN_2, Some("p"));
    with_id.message_id = Some("m1".to_string());
    let without_id = legacy("same", JAN_2, Some("p"));
    let files = vec![vec![file("f.jsonl", vec![with_id, without_id])]];
    assert_eq!(load_entries(files).entries.len(), 2);
}

#[test]
fn entries_are_ordered_stably_by_timestamp() {
    let files = vec![vec![
        file(
            "one.jsonl",
            vec![
                message("late", 30, "p", 1, 1),
                message("tie-1", 20, "p", 1, 1),
                message("early", 10, "p", 1, 1),
            ],
        ),
        file("two.jsonl", vec![message("tie-2", 20, "p", 1, 1), message("tie-3", 20, "p", 1, 1)]),
    ]];
    let ids = load_entries(files)
        .entries
        .iter()
        .map(|e| e.message_id.clone().unwrap())
        .collect::<Vec<_>>();
    assert_eq!(ids, vec!["early", "tie-1", "tie-2", "tie-3", "late"]);
}

#[test]
fn sort_by_timestamp_keeps_order_of_equal_timestamps() {
    let input = vec![
        message("b", 5, "p", 1, 1),
        message("a", 1, "p", 1, 1),
        message("c", 5, "p", 1, 1),
        message("d", -3, "p", 1, 1),
        message("e", 5, "p", 1, 1),
        message("f", 1, "p", 1, 1),
    ];
    let sorted = sort_by_timestamp(input);
    let ids = sorted.iter().map(|e| e.message_id.clone().unwrap()).collect::<Vec<_>>();
    assert_eq!(ids, vec!["d", "a", "f", "b", "c", "e"]);
}

#[test]
fn unreadable_files_give_messages_and_no_records() {
    let files = vec![
        vec![
            SessionFile { display: "/s/bad.jsonl".to_string(), result: Err("boom".to_string()) },
            file("/s/good.jsonl", vec![message("m", 1, "p", 1, 1)]),
        ],
        vec![SessionFile { display: "/t/x.jsonl".to_string(), result: Err("eof".to_string()) }],
    ];
    let load = load_entries(files);
    assert_eq!(load.entries.len(), 1);
    assert_eq!(
        load.debug_messages,
        vec![
            "Failed to read pi session file /s/bad.jsonl: boom".to_string(),
            "Failed to read pi session file /t/x.jsonl: eof".to_string(),
        ]
    );
}

#[test]
fn named_store_messages_name_the_store() {
    let files = vec![vec![SessionFile {
        display: "f.jsonl".to_string(),
        result: Err("bad line".to_string()),
    }]];
    let load = load_entries_for_store_paths(files, "omp");
    assert_eq!(
        load.debug_messages,
        vec!["Failed to read pi-format store 'omp' session file f.jsonl: bad line".to_string()]
    );
    let files = vec![vec![SessionFile { display: "g".to_string(), result: Err("e".to_string()) }]];
    let load = load_entries_for_store_path(files, "work");
    assert_eq!(
        load.debug_messages,
        vec!["Failed to read pi-format store 'work' session file g: e".to_string()]
    );
}

#[test]
fn scope_names_and_labels() {
    assert_eq!(PiLoadScope::Default.store_name(), "pi");
    assert_eq!(PiLoadScope::Default.debug_label(), "pi");
    let named = PiLoadScope::Named { store_name: "omp".to_string() };
    assert_eq!(named.store_name(), "omp");
    assert_eq!(named.debug_label(), "pi-format store 'omp'");
}

#[test]
fn dedupe_keys_compare_as_documented() {
    let a = dedupe_key(&message("m", 1, "anthropic", 1, 1));
    let b = dedupe_key(&message("m", 2, "openai", 3, 3));
    assert!(keys_equal(&a, &b));
    assert!(matches!(a, PiDedupeKey::Message(ref id) if id == "m"));
    let c = dedupe_key(&legacy("e", 1, Some("x")));
    let d = dedupe_key(&legacy("e", 1, Some("y")));
    let e = dedupe_key(&legacy("e", 5, Some("x")));
    assert!(!keys_equal(&c, &d));
    assert!(keys_equal(&c, &e));
    assert!(!keys_equal(&a, &c));
}

#[test]
fn empty_input_loads_nothing() {
    let load = load_entries_from_paths(&PiLoadScope::Default, Vec::new());
    assert!(load.entries.is_empty());
    assert!(load.debug_messages.is_empty());
}

fn sample_paths() -> Vec<Vec<SessionFile>> {
    vec![
        vec![
            file("a.jsonl", vec![message("m1", 20, "p", 1, 1), message("m2", 10, "p", 2, 2)]),
            SessionFile { display: "bad.jsonl".to_string(), result: Err("boom".to_string()) },
        ],
        vec![file("b.jsonl", vec![message("m1", 5, "q", 3, 3), legacy("e", 15, None)])],
    ]
}

fn ids(entries: &[PiEntry]) -> Vec<String> {
    entries
        .iter()
        .map(|e| e.message_id.clone().unwrap_or_else(|| e.entry_id.clone()))
        .collect()
}

#[test]
fn loading_the_same_paths_twice_adds_nothing() {
    let once = load_entries(sample_paths());
    let mut twice_paths = sample_paths();
    twice_paths.extend(sample_paths());
    let twice = load_entries(twice_paths);
    assert_eq!(ids(&twice.entries), ids(&once.entries));
    assert_eq!(ids(&once.entries), vec!["m2", "e", "m1"]);
    assert_eq!(twice.debug_messages.len(), 2 * once.debug_messages.len());
}

#[test]
fn loading_more_paths_keeps_every_key() {
    let small = load_entries(sample_paths());
    let mut more = sample_paths();
    more.push(vec![file("c.jsonl", vec![message("m3", 1, "p", 1, 1), message("m2", 99, "p", 1, 1)])]);
    let large = load_entries(more);
    for id in ids(&small.entries) {
        assert!(ids(&large.entries).contains(&id));
    }
    assert_eq!(ids(&large.entries), vec!["m3", "m2", "e", "m1"]);
}

#[test]
fn an_unreadable_file_changes_only_the_messages() {
    let with_file = load_entries(sample_paths());
    let mut fewer = sample_paths();
    fewer[0].remove(1);
    let without_file = load_entries(fewer);
    assert_eq!(ids(&with_file.entries), ids(&without_file.entries));
    assert_eq!(with_file.debug_messages, vec!["Failed to read pi session file bad.jsonl: boom"]);
    assert!(without_file.debug_messages.is_empty());
}

#[test]
fn every_load_function_gives_the_same_load() {
    let a = load_entries(sample_paths());
    let b = load_entries_from_paths(&PiLoadScope::Default, sample_paths());
    assert_eq!(ids(&a.entries), ids(&b.entries));
    assert_eq!(a.debug_messages, b.debug_messages);
    let c = load_entries_for_store_paths(sample_paths(), "omp");
    let d = load_entries_for_store_path(sample_paths(), "omp");
    let scope = PiLoadScope::Named { store_name: "omp".to_string() };
    let e = load_entries_from_paths(&scope, sample_paths());
    assert_eq!(ids(&c.entries), ids(&e.entries));
    assert_eq!(ids(&d.entries), ids(&e.entries));
    assert_eq!(c.debug_messages, e.debug_messages);
}
