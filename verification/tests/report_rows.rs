use ccusage_pi::breakdown::{
    aggregate_model_breakdowns, group_breakdowns, merge_model_breakdowns, ModelBreakdown,
};
use ccusage_pi::rows::{
    accumulate_agents, add_token_counts, find_agent_key, group_by_provider, merged_agents,
    normalize_model_names, provider_key, requested_sections, unprefix_breakdown_names, AgentKey,
    AgentReportKind, AgentSlot, SectionAgents, SummaryTotals, TokenCounts,
};
use ccusage_pi::provider::{merge_breakdown_rows, provider_rows, regrouped_models, BreakdownRow};
use ccusage_pi::strset::{group_by_key, ordered_set, ordered_union, string_less};
use ccusage_pi::text::{canonical_provider_id, unprefixed_model_name};

fn strings(v: &[&str]) -> Vec<String> {
    v.iter().map(|s| s.to_string()).collect()
}

fn breakdown(name: &str, input: u64, output: u64, missing: bool) -> ModelBreakdown {
    ModelBreakdown {
        model_name: name.to_string(),
        input_tokens: input,
        output_tokens: output,
        cache_creation_tokens: input / 2,
        cache_read_tokens: 1,
        extra_total_tokens: 0,
        missing_pricing: missing,
    }
}

#[test]
fn canonical_provider_ids() {
    assert_eq!(canonical_provider_id("openai-codex"), "openai");
    assert_eq!(canonical_provider_id("  OpenAI-Codex\t"), "openai");
    assert_eq!(canonical_provider_id("XAI-AUTH"), "xai");
    assert_eq!(canonical_provider_id(""), "unknown");
    assert_eq!(canonical_provider_id(" \u{3000}\n"), "unknown");
    assert_eq!(canonical_provider_id(" Anthropic "), "anthropic");
    assert_eq!(canonical_provider_id("Ünicode-X"), "Ünicode-x");
    assert_eq!(canonical_provider_id("open ai"), "open ai");
}

#[test]
fn canonical_provider_id_is_idempotent_on_examples() {
    for p in ["  OpenAI-Codex ", "xai-auth", "", "MiXeD", " a b "] {
        let once = canonical_provider_id(p);
        assert_eq!(canonical_provider_id(&once), once);
    }
}

#[test]
fn unprefixed_model_names() {
    assert_eq!(unprefixed_model_name("[pi] sonnet-4"), "sonnet-4");
    assert_eq!(unprefixed_model_name("[a] [b] c"), "[b] c");
    assert_eq!(unprefixed_model_name("[a]b"), "[a]b");
    assert_eq!(unprefixed_model_name("gemini"), "gemini");
    assert_eq!(unprefixed_model_name("x [a] y"), "x [a] y");
    assert_eq!(unprefixed_model_name("[] "), "");
    assert_eq!(unprefixed_model_name("["), "[");
    assert_eq!(unprefixed_model_name(""), "");
}

#[test]
fn grouping_sums_by_model_in_first_occurrence_order() {
    let items = vec![
        breakdown("b", 10, 1, false),
        breakdown("a", 20, 2, false),
        breakdown("b", 30, 3, true),
        breakdown("c", 1, 1, false),
        breakdown("a", 2, 2, false),
    ];
    let g = group_breakdowns(&items);
    let names = g.breakdowns.iter().map(|b| b.model_name.clone()).collect::<Vec<_>>();
    assert_eq!(names, strings(&["b", "a", "c"]));
    assert_eq!(g.breakdowns[0].input_tokens, 40);
    assert_eq!(g.breakdowns[0].output_tokens, 4);
    assert_eq!(g.breakdowns[0].cache_creation_tokens, 20);
    assert_eq!(g.breakdowns[0].cache_read_tokens, 2);
    assert!(g.breakdowns[0].missing_pricing);
    assert_eq!(g.breakdowns[1].input_tokens, 22);
    assert!(!g.breakdowns[1].missing_pricing);
    assert_eq!(g.sources, vec![vec![0, 2], vec![1, 4], vec![3]]);
}

#[test]
fn grouping_keeps_token_totals() {
    let items = vec![
        breakdown("x", 7, 1, false),
        breakdown("y", 9, 2, false),
        breakdown("x", 11, 3, false),
    ];
    let before: u64 = items.iter().map(|b| b.input_tokens).sum();
    let g = group_breakdowns(&items);
    let after: u64 = g.breakdowns.iter().map(|b| b.input_tokens).sum();
    assert_eq!(before, after);
}

#[test]
fn merging_puts_existing_models_first() {
    let existing = vec![breakdown("m1", 1, 1, false)];
    let additional = vec![breakdown("m2", 2, 2, false), breakdown("m1", 3, 3, false)];
    let g = merge_model_breakdowns(existing, additional);
    assert_eq!(g.breakdowns.len(), 2);
    assert_eq!(g.breakdowns[0].model_name, "m1");
    assert_eq!(g.breakdowns[0].input_tokens, 4);
    assert_eq!(g.sources, vec![vec![0, 2], vec![1]]);
}

#[test]
fn aggregation_runs_over_rows_in_order() {
    let rows = vec![
        vec![breakdown("z", 1, 0, false)],
        vec![],
        vec![breakdown("y", 1, 0, false), breakdown("z", 5, 0, false)],
    ];
    let g = aggregate_model_breakdowns(rows);
    assert_eq!(g.breakdowns[0].model_name, "z");
    assert_eq!(g.breakdowns[0].input_tokens, 6);
    assert_eq!(g.sources, vec![vec![0, 2], vec![1]]);
}

#[test]
fn string_order_is_by_code_point() {
    assert!(string_less("a", "b"));
    assert!(string_less("a", "ab"));
    assert!(!string_less("ab", "a"));
    assert!(!string_less("a", "a"));
    assert!(string_less("Z", "a"));
    assert!(string_less("z", "é"));
    assert!(string_less("", "a"));
}

#[test]
fn ordered_sets_match_btreeset() {
    let input = strings(&["pear", "apple", "pear", "Zebra", "é", "apple", ""]);
    let expected: Vec<String> =
        input.iter().cloned().collect::<std::collections::BTreeSet<_>>().into_iter().collect();
    assert_eq!(ordered_set(input), expected);
    let u = ordered_union(strings(&["b", "d"]), strings(&["c", "a", "d"]));
    assert_eq!(u, strings(&["a", "b", "c", "d"]));
}

#[test]
fn grouping_by_key_orders_keys() {
    let keys = strings(&["openai", "anthropic", "openai", "google"]);
    let g = group_by_key(&keys);
    let ks = g.iter().map(|x| x.key.clone()).collect::<Vec<_>>();
    assert_eq!(ks, strings(&["anthropic", "google", "openai"]));
    assert_eq!(g[2].members, vec![0, 2]);
    assert_eq!(g[0].members, vec![1]);
}

#[test]
fn providers_group_under_canonical_ids() {
    let providers = vec![
        Some("OpenAI-Codex".to_string()),
        None,
        Some("openai".to_string()),
        Some("xai-auth".to_string()),
        Some(" ".to_string()),
    ];
    let g = group_by_provider(&providers);
    let ks = g.iter().map(|x| x.key.clone()).collect::<Vec<_>>();
    assert_eq!(ks, strings(&["openai", "unknown", "xai"]));
    assert_eq!(g[0].members, vec![0, 2]);
    assert_eq!(g[1].members, vec![1, 4]);
    assert_eq!(g[2].members, vec![3]);
    assert_eq!(provider_key(&None), "unknown");
}

#[test]
fn model_names_are_normalized_to_a_sorted_set() {
    let models = strings(&["[pi] b", "a", "b", "[x] a"]);
    assert_eq!(normalize_model_names(&models), strings(&["a", "b"]));
    let renamed = unprefix_breakdown_names(vec![breakdown("[pi] m", 3, 4, true)]);
    assert_eq!(renamed[0].model_name, "m");
    assert_eq!(renamed[0].input_tokens, 3);
    assert!(renamed[0].missing_pricing);
}

#[test]
fn agent_sets() {
    assert_eq!(merged_agents(None, None), None);
    assert_eq!(merged_agents(Some(vec![]), Some(vec![])), None);
    assert_eq!(
        merged_agents(Some(strings(&["pi", "gemini"])), Some(strings(&["codex", "pi"]))),
        Some(strings(&["codex", "gemini", "pi"]))
    );
    let a = accumulate_agents(strings(&["pi"]), &None, "gemini");
    assert_eq!(a, strings(&["gemini", "pi"]));
    let a = accumulate_agents(a, &None, "all");
    assert_eq!(a, strings(&["gemini", "pi"]));
    let a = accumulate_agents(a, &Some(strings(&["amp", "pi"])), "gemini");
    assert_eq!(a, strings(&["amp", "gemini", "pi"]));
}

#[test]
fn agent_keys_are_found_by_agent_and_provider() {
    let keys = vec![
        AgentKey { agent: "pi".to_string(), provider: Some("openai".to_string()) },
        AgentKey { agent: "pi".to_string(), provider: None },
        AgentKey { agent: "pi".to_string(), provider: None },
    ];
    assert_eq!(find_agent_key(&keys, "pi", &None), Some(1));
    assert_eq!(find_agent_key(&keys, "pi", &Some("openai".to_string())), Some(0));
    assert_eq!(find_agent_key(&keys, "gemini", &None), None);
}

#[test]
fn token_counts_add_field_by_field() {
    let a = TokenCounts {
        input_tokens: 1,
        output_tokens: 2,
        cache_creation_tokens: 3,
        cache_read_tokens: 4,
        total_tokens: 10,
    };
    let b = TokenCounts {
        input_tokens: 10,
        output_tokens: 20,
        cache_creation_tokens: 30,
        cache_read_tokens: 40,
        total_tokens: 100,
    };
    let c = add_token_counts(&a, &b);
    assert_eq!(
        (c.input_tokens, c.output_tokens, c.cache_creation_tokens, c.cache_read_tokens, c.total_tokens),
        (11, 22, 33, 44, 110)
    );
}

#[test]
fn requested_sections_start_with_the_command_kind() {
    let (daily, weekly, monthly, session) = (
        AgentReportKind::Daily,
        AgentReportKind::Weekly,
        AgentReportKind::Monthly,
        AgentReportKind::Session,
    );
    let r = requested_sections(monthly, vec![session, daily, monthly, daily]);
    assert!(r == vec![monthly, daily, session]);
    let r = requested_sections(daily, vec![]);
    assert!(r == vec![daily]);
    let r = requested_sections(session, vec![weekly, session, monthly, daily]);
    assert!(r == vec![session, daily, weekly, monthly]);
}

#[test]
fn detected_agents_follow_the_section_kind() {
    let s = SectionAgents {
        daily_detected_agents: strings(&["pi"]),
        session_detected_agents: strings(&["codex"]),
    };
    assert_eq!(s.detected_agents_for(AgentReportKind::Session), &strings(&["codex"]));
    assert_eq!(s.detected_agents_for(AgentReportKind::Weekly), &strings(&["pi"]));
    assert_eq!(s.detected_agents_for(AgentReportKind::Daily), &strings(&["pi"]));
}

fn counts(n: u64) -> TokenCounts {
    TokenCounts {
        input_tokens: n,
        output_tokens: 2 * n,
        cache_creation_tokens: 3 * n,
        cache_read_tokens: 4 * n,
        total_tokens: 10 * n,
    }
}

#[test]
fn summary_totals_keep_one_slot_per_agent_and_provider() {
    let mut totals = SummaryTotals::new();
    let openai = Some("openai".to_string());
    let slot = totals.add_row(&counts(1), strings(&["m2", "m1"]), &None, "codex", &openai);
    assert_eq!(slot, AgentSlot::New(0));
    let slot = totals.add_row(&counts(2), strings(&["m1"]), &None, "pi", &openai);
    assert_eq!(slot, AgentSlot::New(1));
    let slot = totals.add_row(&counts(3), strings(&["m3"]), &None, "codex", &openai);
    assert_eq!(slot, AgentSlot::Existing(0));
    let slot = totals.add_row(&counts(4), Vec::new(), &None, "codex", &None);
    assert_eq!(slot, AgentSlot::New(2));
    let slot = totals.add_row(
        &counts(5),
        Vec::new(),
        &Some(strings(&["amp", "codex"])),
        "all",
        &openai,
    );
    assert_eq!(slot, AgentSlot::New(3));
    assert_eq!(totals.tokens().input_tokens, 15);
    assert_eq!(totals.tokens().output_tokens, 30);
    assert_eq!(totals.tokens().cache_creation_tokens, 45);
    assert_eq!(totals.tokens().cache_read_tokens, 60);
    assert_eq!(totals.tokens().total_tokens, 150);
    assert_eq!(totals.models(), &strings(&["m1", "m2", "m3"]));
    assert_eq!(totals.agents(), &strings(&["amp", "codex", "pi"]));
    assert_eq!(totals.keys().len(), 4);
    assert_eq!(totals.keys()[2].agent, "codex");
    assert_eq!(totals.keys()[2].provider, None);
}

#[test]
fn summary_totals_skip_the_all_agent_without_metadata() {
    let mut totals = SummaryTotals::new();
    totals.add_row(&counts(1), Vec::new(), &None, "all", &None);
    assert!(totals.agents().is_empty());
    assert_eq!(totals.tokens().total_tokens, 10);
}

#[test]
fn grouping_puts_each_position_in_one_group() {
    let keys = strings(&["b", "a", "c", "a", "b", "b"]);
    let g = group_by_key(&keys);
    let mut seen = vec![0; keys.len()];
    for group in &g {
        for &i in &group.members {
            assert_eq!(keys[i], group.key);
            seen[i] += 1;
        }
    }
    assert_eq!(seen, vec![1; keys.len()]);
}

#[test]
fn grouping_bounds_each_model_on_its_own() {
    let items = vec![breakdown("a", u64::MAX, 0, false), breakdown("b", 1, 0, false)];
    let mut items = items;
    items[0].cache_creation_tokens = 0;
    let g = merge_model_breakdowns(items, Vec::new());
    assert_eq!(g.breakdowns.len(), 2);
    assert_eq!(g.breakdowns[0].input_tokens, u64::MAX);
    assert_eq!(g.breakdowns[1].input_tokens, 1);
}

#[test]
fn regrouping_grouped_breakdowns_changes_nothing() {
    let items = vec![
        breakdown("a", 1, 2, false),
        breakdown("b", 3, 4, true),
        breakdown("a", 5, 6, true),
    ];
    let g = group_breakdowns(&items);
    let again = group_breakdowns(&g.breakdowns);
    assert_eq!(again.breakdowns.len(), g.breakdowns.len());
    for (x, y) in again.breakdowns.iter().zip(&g.breakdowns) {
        assert_eq!(x.model_name, y.model_name);
        assert_eq!(x.input_tokens, y.input_tokens);
        assert_eq!(x.output_tokens, y.output_tokens);
        assert_eq!(x.cache_creation_tokens, y.cache_creation_tokens);
        assert_eq!(x.cache_read_tokens, y.cache_read_tokens);
        assert_eq!(x.extra_total_tokens, y.extra_total_tokens);
        assert_eq!(x.missing_pricing, y.missing_pricing);
    }
    assert_eq!(again.sources, vec![vec![0], vec![1]]);
}

fn plain(agent: &str, provider: Option<&str>, n: u64, models: &[&str], agents: Option<&[&str]>, items: Vec<ModelBreakdown>) -> BreakdownRow {
    BreakdownRow {
        agent: agent.to_string(),
        provider: provider.map(|p| p.to_string()),
        tokens: counts(n),
        models_used: strings(models),
        metadata_agents: agents.map(strings),
        model_breakdowns: items,
    }
}

#[test]
fn provider_rows_merge_the_breakdowns_of_each_provider() {
    let rows = vec![
        plain("codex", Some("OpenAI-Codex"), 1, &["[c] gpt", "o3"], Some(&["codex"]), vec![
            breakdown("[c] gpt", 1, 1, false),
        ]),
        plain("pi", Some("anthropic"), 2, &["[p] sonnet"], None, vec![breakdown("[p] sonnet", 2, 2, true)]),
        plain("pi", Some("openai"), 3, &["gpt"], Some(&["pi"]), vec![
            breakdown("gpt", 3, 3, false),
            breakdown("o3", 4, 4, true),
        ]),
    ];
    let r = provider_rows(&rows);
    assert_eq!(r.len(), 2);
    assert_eq!(r[0].key, "anthropic");
    assert_eq!(r[0].members, vec![1]);
    assert_eq!(r[0].row.metadata_agents, None);
    assert_eq!(r[0].row.models_used, strings(&["sonnet"]));
    assert_eq!(r[1].key, "openai");
    assert_eq!(r[1].members, vec![0, 2]);
    let row = &r[1].row;
    assert_eq!(row.agent, "all");
    assert_eq!(row.provider.as_deref(), Some("openai"));
    assert_eq!(row.tokens.input_tokens, 4);
    assert_eq!(row.tokens.total_tokens, 40);
    assert_eq!(row.models_used, strings(&["gpt", "o3"]));
    assert_eq!(row.metadata_agents, Some(strings(&["codex", "pi"])));
    let names = row.model_breakdowns.iter().map(|b| b.model_name.clone()).collect::<Vec<_>>();
    assert_eq!(names, strings(&["gpt", "o3"]));
    assert_eq!(row.model_breakdowns[0].input_tokens, 4);
    assert_eq!(r[1].model_sources, vec![vec![0, 1], vec![2]]);
    assert_eq!(regrouped_models(&rows), strings(&["gpt", "o3", "sonnet"]));
}

#[test]
fn a_single_breakdown_keeps_its_agent_list() {
    let rows = vec![plain("pi", None, 1, &[], Some(&["z", "a"]), Vec::new())];
    let r = provider_rows(&rows);
    assert_eq!(r[0].key, "unknown");
    assert_eq!(r[0].row.metadata_agents, Some(strings(&["z", "a"])));
}

#[test]
fn merging_breakdown_rows_keeps_the_target_and_sums() {
    let target = plain("pi", Some("openai"), 1, &["b", "a"], None, vec![breakdown("a", 1, 1, false)]);
    let source = plain("codex", None, 2, &["c"], Some(&["codex"]), vec![
        breakdown("b", 2, 2, false),
        breakdown("a", 3, 3, true),
    ]);
    let m = merge_breakdown_rows(target, source);
    assert_eq!(m.row.agent, "pi");
    assert_eq!(m.row.provider.as_deref(), Some("openai"));
    assert_eq!(m.row.tokens.output_tokens, 6);
    assert_eq!(m.row.models_used, strings(&["a", "b", "c"]));
    assert_eq!(m.row.metadata_agents, Some(strings(&["codex"])));
    assert_eq!(m.row.model_breakdowns[0].input_tokens, 4);
    assert!(m.row.model_breakdowns[0].missing_pricing);
    assert_eq!(m.model_sources, vec![vec![0, 2], vec![1]]);
}

#[test]
fn provider_rows_keep_token_totals() {
    let rows = vec![
        plain("a", Some("x"), 1, &[], None, Vec::new()),
        plain("b", Some("y"), 2, &[], None, Vec::new()),
        plain("c", Some("X "), 4, &[], None, Vec::new()),
        plain("d", None, 8, &[], None, Vec::new()),
    ];
    let r = provider_rows(&rows);
    let total: u64 = r.iter().map(|p| p.row.tokens.total_tokens).sum();
    assert_eq!(total, 150);
    assert_eq!(r.iter().map(|p| p.members.len()).sum::<usize>(), 4);
}
