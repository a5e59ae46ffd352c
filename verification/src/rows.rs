//! Rules of the cross-agent report rows: provider keys, model-name
//! normalisation, agent sets, token totals and report sections.
//!
//! A summary finds the breakdown of an agent and provider by a linear
//! search of its keys (`find_agent_key`) rather than a hash map keyed by
//! `(String, Option<String>)`, for which vstd proves no lookup; the keys
//! stay distinct (`SummaryTotals::wf`).
use vstd::prelude::*;
use crate::breakdown::ModelBreakdown;
use crate::strset::{
    group_by_key, ordered_set_of, ordered_union, strictly_sorted, views, KeyGroup,
    ordered_groups_of, insert_ordered, ordered_set,
};
use crate::text::{canonical_provider_id, canonical_provider_spec, unprefixed_model_name, unprefixed_spec};

verus! {

/// The key a provider is grouped under: its canonical id, `unknown` when
/// there is no provider.
pub open spec fn provider_key_spec(provider: Option<String>) -> Seq<char> {
    match provider {
        Some(p) => canonical_provider_spec(p@),
        None => canonical_provider_spec("unknown"@),
    }
}

/// The key a provider is grouped under (see `provider_key_spec`).
pub fn provider_key(provider: &Option<String>) -> (r: String)
    ensures
        r@ == provider_key_spec(*provider),
{
    match provider {
        Some(p) => canonical_provider_id(p.as_str()),
        None => canonical_provider_id("unknown"),
    }
}

/// The provider keys of some rows.
pub open spec fn provider_keys(providers: Seq<Option<String>>) -> Seq<Seq<char>> {
    providers.map_values(|p: Option<String>| provider_key_spec(p))
}

/// Groups rows by provider key, in key order: one group per key, holding
/// the positions of the rows with that key.
pub fn group_by_provider(providers: &Vec<Option<String>>) -> (r: Vec<KeyGroup>)
    ensures
        ordered_groups_of(provider_keys(providers@), r@),
{
    let mut keys: Vec<String> = Vec::new();
    let n = providers.len();
    let mut i: usize = 0;
    while i < n
        invariant
            n == providers@.len(),
            i <= n,
            views(keys@) == provider_keys(providers@.take(i as int)),
        decreases n - i,
    {
        let k = provider_key(&providers[i]);
        let ghost old_keys = keys@;
        keys.push(k);
        proof {
            assert(views(keys@) =~= views(old_keys).push(k@));
            assert(provider_keys(providers@.take(i + 1)) =~= provider_keys(providers@.take(i as int)).push(
                provider_key_spec(providers@[i as int]),
            ));
        }
        i = i + 1;
    }
    assert(providers@.take(n as int) =~= providers@);
    group_by_key(&keys)
}

/// The model names without their `[tag] ` prefixes.
pub open spec fn unprefixed_names(models: Seq<String>) -> Seq<Seq<char>> {
    models.map_values(|m: String| unprefixed_spec(m@))
}

/// The model names without their `[tag] ` prefixes, as an ordered set.
pub fn normalize_model_names(models: &Vec<String>) -> (r: Vec<String>)
    ensures
        ordered_set_of(
            views(r@),
            unprefixed_names(models@).to_set(),
        ),
{
    let mut r: Vec<String> = Vec::new();
    let n = models.len();
    let mut i: usize = 0;
    assert(unprefixed_names(models@).take(0).to_set() =~= Set::<Seq<char>>::empty());
    while i < n
        invariant
            n == models@.len(),
            i <= n,
            strictly_sorted(views(r@)),
            views(r@).to_set() == unprefixed_names(models@).take(i as int).to_set(),
        decreases n - i,
    {
        let name = unprefixed_model_name(models[i].as_str());
        let ghost before = unprefixed_names(models@).take(i as int);
        insert_ordered(&mut r, String::from_str(name));
        proof {
            let after = unprefixed_names(models@).take(i + 1);
            assert(after =~= before.push(unprefixed_spec(models@[i as int]@)));
            assert forall|y: Seq<char>| after.to_set().contains(y) == before.to_set().insert(
                unprefixed_spec(models@[i as int]@),
            ).contains(y) by {
                if after.to_set().contains(y) {
                    let j = choose|j: int| 0 <= j < after.len() && after[j] == y;
                    if j < before.len() {
                        assert(before[j] == y);
                    }
                }
                if before.to_set().contains(y) {
                    let j = choose|j: int| 0 <= j < before.len() && before[j] == y;
                    assert(after[j] == y);
                }
                if y == unprefixed_spec(models@[i as int]@) {
                    assert(after[i as int] == y);
                }
            }
            assert(after.to_set() =~= before.to_set().insert(unprefixed_spec(models@[i as int]@)));
        }
        i = i + 1;
    }
    assert(unprefixed_names(models@).take(n as int) =~= unprefixed_names(models@));
    r
}

/// The breakdowns with their model names unprefixed (see `unprefixed_spec`),
/// all counts unchanged.
pub fn unprefix_breakdown_names(items: Vec<ModelBreakdown>) -> (r: Vec<ModelBreakdown>)
    ensures
        r@.len() == items@.len(),
        forall|i: int|
            0 <= i < r@.len() ==> {
                &&& (#[trigger] r@[i]).model_name@ == unprefixed_spec(items@[i].model_name@)
                &&& r@[i].input_tokens == items@[i].input_tokens
                &&& r@[i].output_tokens == items@[i].output_tokens
                &&& r@[i].cache_creation_tokens == items@[i].cache_creation_tokens
                &&& r@[i].cache_read_tokens == items@[i].cache_read_tokens
                &&& r@[i].extra_total_tokens == items@[i].extra_total_tokens
                &&& r@[i].missing_pricing == items@[i].missing_pricing
            },
{
    let ghost s = items@;
    let mut r: Vec<ModelBreakdown> = Vec::new();
    for b in it: items.into_iter()
        invariant
            s == it.seq(),
            r@.len() == it.index(),
            forall|i: int|
                0 <= i < r@.len() ==> {
                    &&& (#[trigger] r@[i]).model_name@ == unprefixed_spec(s[i].model_name@)
                    &&& r@[i].input_tokens == s[i].input_tokens
                    &&& r@[i].output_tokens == s[i].output_tokens
                    &&& r@[i].cache_creation_tokens == s[i].cache_creation_tokens
                    &&& r@[i].cache_read_tokens == s[i].cache_read_tokens
                    &&& r@[i].extra_total_tokens == s[i].extra_total_tokens
                    &&& r@[i].missing_pricing == s[i].missing_pricing
                },
    {
        let name = String::from_str(unprefixed_model_name(b.model_name.as_str()));
        r.push(ModelBreakdown { model_name: name, ..b });
    }
    r
}

/// A copy of a list of strings.
pub fn clone_strings(v: &Vec<String>) -> (r: Vec<String>)
    ensures
        views(r@) == views(v@),
{
    let mut r: Vec<String> = Vec::new();
    let n = v.len();
    let mut i: usize = 0;
    while i < n
        invariant
            n == v@.len(),
            i <= n,
            views(r@) == views(v@.take(i as int)),
        decreases n - i,
    {
        let ghost old_r = r@;
        r.push(v[i].clone());
        proof {
            assert(views(r@) =~= views(old_r).push(v@[i as int]@));
            assert(views(v@.take(i + 1)) =~= views(v@.take(i as int)).push(v@[i as int]@));
        }
        i = i + 1;
    }
    assert(v@.take(n as int) =~= v@);
    r
}

/// The set of the strings in an optional list (empty for none).
pub open spec fn opt_set(o: Option<Vec<String>>) -> Set<Seq<char>> {
    match o {
        Some(v) => views(v@).to_set(),
        None => Set::empty(),
    }
}

/// The agents of a merged breakdown: the ordered union of both agent lists,
/// or none when that union is empty.
pub fn merged_agents(target: Option<Vec<String>>, source: Option<Vec<String>>) -> (r: Option<
    Vec<String>,
>)
    ensures
        match r {
            Some(v) => ordered_set_of(views(v@), opt_set(target) + opt_set(source)) && v@.len() > 0,
            None => opt_set(target) + opt_set(source) == Set::<Seq<char>>::empty(),
        },
{
    let base = match target {
        Some(t) => ordered_set(t),
        None => Vec::new(),
    };
    assert(views(base@).to_set() == opt_set(target)) by {
        if target is None {
            assert(views(base@) =~= Seq::<Seq<char>>::empty());
            assert(views(base@).to_set() =~= Set::<Seq<char>>::empty());
        }
    }
    let all = match source {
        Some(s) => ordered_union(base, s),
        None => {
            assert(opt_set(target) + opt_set(source) =~= opt_set(target));
            base
        },
    };
    if all.len() == 0 {
        assert(views(all@).to_set() =~= Set::<Seq<char>>::empty()) by {
            assert(views(all@) =~= Seq::<Seq<char>>::empty());
        }
        None
    } else {
        Some(all)
    }
}

/// The agents a summary adds for one row: those of the row's agent list
/// when it has one (even an empty one), otherwise the row's own agent
/// unless that is `all`.
pub open spec fn row_agents(metadata_agents: Option<Vec<String>>, agent: Seq<char>) -> Set<
    Seq<char>,
> {
    match metadata_agents {
        Some(v) => views(v@).to_set(),
        None => if agent == "all"@ {
            Set::empty()
        } else {
            Set::empty().insert(agent)
        },
    }
}

/// Adds the agents of one row (see `row_agents`) to an ordered set.
pub fn accumulate_agents(agents: Vec<String>, metadata_agents: &Option<Vec<String>>, agent: &str) -> (r:
    Vec<String>)
    requires
        strictly_sorted(views(agents@)),
    ensures
        ordered_set_of(views(r@), views(agents@).to_set() + row_agents(*metadata_agents, agent@)),
{
    match metadata_agents {
        Some(list) => ordered_union(agents, clone_strings(list)),
        None => {
            let all = String::from_str("all");
            let a = String::from_str(agent);
            if a.eq(&all) {
                assert(views(agents@).to_set() + row_agents(*metadata_agents, agent@)
                    =~= views(agents@).to_set());
                agents
            } else {
                let mut r = agents;
                insert_ordered(&mut r, a);
                assert(views(agents@).to_set() + row_agents(*metadata_agents, agent@)
                    =~= views(agents@).to_set().insert(agent@));
                r
            }
        },
    }
}

/// The key under which a summary keeps one breakdown per agent and
/// provider.
#[derive(Clone, Debug)]
pub struct AgentKey {
    pub agent: String,
    pub provider: Option<String>,
}

pub open spec fn agent_key_matches(k: AgentKey, agent: Seq<char>, provider: Option<Seq<char>>) -> bool {
    k.agent@ == agent && crate::pi::opt_string_view(k.provider) == provider
}

/// The position of the first key for `agent` and `provider`, if any.
pub fn find_agent_key(keys: &Vec<AgentKey>, agent: &str, provider: &Option<String>) -> (r: Option<
    usize,
>)
    ensures
        match r {
            Some(j) => j < keys@.len() && agent_key_matches(
                keys@[j as int],
                agent@,
                crate::pi::opt_string_view(*provider),
            ) && forall|k: int|
                0 <= k < j ==> !agent_key_matches(
                    #[trigger] keys@[k],
                    agent@,
                    crate::pi::opt_string_view(*provider),
                ),
            None => forall|k: int|
                0 <= k < keys@.len() ==> !agent_key_matches(
                    #[trigger] keys@[k],
                    agent@,
                    crate::pi::opt_string_view(*provider),
                ),
        },
{
    let a = String::from_str(agent);
    let n = keys.len();
    let mut i: usize = 0;
    while i < n
        invariant
            n == keys@.len(),
            i <= n,
            a@ == agent@,
            forall|k: int|
                0 <= k < i ==> !agent_key_matches(
                    #[trigger] keys@[k],
                    agent@,
                    crate::pi::opt_string_view(*provider),
                ),
        decreases n - i,
    {
        if keys[i].agent.eq(&a) && crate::pi::opt_string_eq(&keys[i].provider, provider) {
            return Some(i);
        }
        i = i + 1;
    }
    None
}

/// Token counts of a report row.
#[derive(Clone, Debug)]
pub struct TokenCounts {
    pub input_tokens: u64,
    pub output_tokens: u64,
    pub cache_creation_tokens: u64,
    pub cache_read_tokens: u64,
    pub total_tokens: u64,
}

/// The sums of two rows' token counts, field by field.
pub fn add_token_counts(a: &TokenCounts, b: &TokenCounts) -> (r: TokenCounts)
    requires
        a.input_tokens + b.input_tokens <= u64::MAX,
        a.output_tokens + b.output_tokens <= u64::MAX,
        a.cache_creation_tokens + b.cache_creation_tokens <= u64::MAX,
        a.cache_read_tokens + b.cache_read_tokens <= u64::MAX,
        a.total_tokens + b.total_tokens <= u64::MAX,
    ensures
        r.input_tokens == a.input_tokens + b.input_tokens,
        r.output_tokens == a.output_tokens + b.output_tokens,
        r.cache_creation_tokens == a.cache_creation_tokens + b.cache_creation_tokens,
        r.cache_read_tokens == a.cache_read_tokens + b.cache_read_tokens,
        r.total_tokens == a.total_tokens + b.total_tokens,
{
    TokenCounts {
        input_tokens: a.input_tokens + b.input_tokens,
        output_tokens: a.output_tokens + b.output_tokens,
        cache_creation_tokens: a.cache_creation_tokens + b.cache_creation_tokens,
        cache_read_tokens: a.cache_read_tokens + b.cache_read_tokens,
        total_tokens: a.total_tokens + b.total_tokens,
    }
}

/// The kinds of report a command or section asks for.
#[derive(PartialEq, Eq, Structural, Clone, Copy, Debug)]
pub enum AgentReportKind {
    Daily,
    Weekly,
    Monthly,
    Session,
}

/// The report kinds in the order sections are listed.
pub open spec fn section_order() -> Seq<AgentReportKind> {
    seq![
        AgentReportKind::Daily,
        AgentReportKind::Weekly,
        AgentReportKind::Monthly,
        AgentReportKind::Session,
    ]
}

/// The sections a report shows: the command's own kind first, then each
/// other kind that was asked for, in the order daily, weekly, monthly,
/// session.
pub open spec fn requested_sections_spec(
    command_kind: AgentReportKind,
    sections: Seq<AgentReportKind>,
) -> Seq<AgentReportKind> {
    seq![command_kind] + section_order().filter(section_wanted(command_kind, sections))
}

/// A section is shown besides the command's own when it was asked for and
/// is not the command's own kind.
pub open spec fn section_wanted(command_kind: AgentReportKind, sections: Seq<AgentReportKind>) -> spec_fn(
    AgentReportKind,
) -> bool {
    |k: AgentReportKind| k != command_kind && sections.contains(k)
}

fn contains_kind(sections: &Vec<AgentReportKind>, k: AgentReportKind) -> (r: bool)
    ensures
        r == sections@.contains(k),
{
    let n = sections.len();
    let mut i: usize = 0;
    while i < n
        invariant
            n == sections@.len(),
            i <= n,
            forall|j: int| 0 <= j < i ==> sections@[j] != k,
        decreases n - i,
    {
        if sections[i] == k {
            return true;
        }
        i = i + 1;
    }
    false
}

/// The sections a report shows (see `requested_sections_spec`).
pub fn requested_sections(command_kind: AgentReportKind, sections: Vec<AgentReportKind>) -> (r: Vec<
    AgentReportKind,
>)
    ensures
        r@ == requested_sections_spec(command_kind, sections@),
{
    let mut requested: Vec<AgentReportKind> = Vec::new();
    requested.push(command_kind);
    let order = [
        AgentReportKind::Daily,
        AgentReportKind::Weekly,
        AgentReportKind::Monthly,
        AgentReportKind::Session,
    ];
    let ghost pred = section_wanted(command_kind, sections@);
    let mut i: usize = 0;
    assert(section_order().take(0).filter(pred) =~= Seq::<AgentReportKind>::empty()) by {
        reveal(Seq::filter);
    }
    while i < 4
        invariant
            i <= 4,
            order@ == section_order(),
            pred == section_wanted(command_kind, sections@),
            requested@ == seq![command_kind] + section_order().take(i as int).filter(pred),
        decreases 4 - i,
    {
        let section = order[i];
        let ghost before = section_order().take(i as int);
        proof {
            reveal(Seq::filter);
            assert(section_order().take(i + 1).drop_last() =~= before);
            assert(section_order().take(i + 1).last() == section);
        }
        if section != command_kind && contains_kind(&sections, section) {
            requested.push(section);
            assert(requested@ =~= seq![command_kind] + section_order().take(i + 1).filter(pred));
        } else {
            assert(requested@ =~= seq![command_kind] + section_order().take(i + 1).filter(pred));
        }
        i = i + 1;
    }
    assert(section_order().take(4) =~= section_order());
    requested
}

proof fn lemma_filter_no_duplicates(s: Seq<AgentReportKind>, p: spec_fn(AgentReportKind) -> bool)
    requires
        s.no_duplicates(),
    ensures
        s.filter(p).no_duplicates(),
        forall|x: AgentReportKind| s.filter(p).contains(x) ==> s.contains(x),
    decreases s.len(),
{
    reveal(Seq::filter);
    if s.len() > 0 {
        let d = s.drop_last();
        let f = d.filter(p);
        assert forall|i: int, j: int| 0 <= i < d.len() && 0 <= j < d.len() && i != j implies d[i]
            != d[j] by {
            assert(d[i] == s[i] && d[j] == s[j]);
        }
        lemma_filter_no_duplicates(d, p);
        assert forall|x: AgentReportKind| d.contains(x) implies s.contains(x) by {
            let i = choose|i: int| 0 <= i < d.len() && d[i] == x;
            assert(s[i] == x);
        }
        if p(s.last()) {
            assert(s.filter(p) == f.push(s.last()));
            assert(!f.contains(s.last())) by {
                if f.contains(s.last()) {
                    assert(d.contains(s.last()));
                    let i = choose|i: int| 0 <= i < d.len() && d[i] == s.last();
                    assert(s[i] == s[s.len() - 1]);
                }
            }
            assert forall|x: AgentReportKind| s.filter(p).contains(x) implies s.contains(x) by {
                let i = choose|i: int| 0 <= i < s.filter(p).len() && s.filter(p)[i] == x;
                if i < f.len() {
                    assert(f[i] == x);
                    assert(f.contains(x));
                } else {
                    assert(s[s.len() - 1] == x);
                }
            }
        }
    }
}

/// A report shows the command's own section first, then each section that
/// was asked for, each of them once.
pub proof fn law_requested_sections_once_each(
    command_kind: AgentReportKind,
    sections: Seq<AgentReportKind>,
)
    ensures
        requested_sections_spec(command_kind, sections).len() >= 1,
        requested_sections_spec(command_kind, sections)[0] == command_kind,
        requested_sections_spec(command_kind, sections).no_duplicates(),
        forall|k: AgentReportKind|
            requested_sections_spec(command_kind, sections).contains(k) <==> (k == command_kind
                || sections.contains(k)),
{
    broadcast use vstd::seq_lib::group_filter_ensures;

    let order = section_order();
    let pred = section_wanted(command_kind, sections);
    let f = order.filter(pred);
    let r = requested_sections_spec(command_kind, sections);
    assert(order.no_duplicates());
    lemma_filter_no_duplicates(order, pred);
    assert(r == seq![command_kind] + f);
    assert(!f.contains(command_kind)) by {
        if f.contains(command_kind) {
            let i = choose|i: int| 0 <= i < f.len() && f[i] == command_kind;
            assert(pred(f[i]));
        }
    }
    assert forall|i: int, j: int| 0 <= i < r.len() && 0 <= j < r.len() && i != j implies r[i]
        != r[j] by {
        if i == 0 {
            assert(f[j - 1] == r[j]);
        } else if j == 0 {
            assert(f[i - 1] == r[i]);
        } else {
            assert(f[i - 1] == r[i] && f[j - 1] == r[j]);
        }
    }
    assert forall|k: AgentReportKind| r.contains(k) <==> (k == command_kind || sections.contains(
        k,
    )) by {
        if r.contains(k) && k != command_kind {
            let i = choose|i: int| 0 <= i < r.len() && r[i] == k;
            assert(f[i - 1] == k);
            assert(pred(f[i - 1]));
        }
        if k == command_kind {
            assert(r[0] == k);
        } else if sections.contains(k) {
            let i: int = match k {
                AgentReportKind::Daily => 0,
                AgentReportKind::Weekly => 1,
                AgentReportKind::Monthly => 2,
                AgentReportKind::Session => 3,
            };
            assert(order[i] == k);
            assert(f.contains(k));
            let j = choose|j: int| 0 <= j < f.len() && f[j] == k;
            assert(r[j + 1] == k);
        }
    }
}

spec fn listing_rank(k: AgentReportKind) -> int {
    match k {
        AgentReportKind::Daily => 0,
        AgentReportKind::Weekly => 1,
        AgentReportKind::Monthly => 2,
        AgentReportKind::Session => 3,
    }
}

proof fn lemma_filter_keeps_rank_order(s: Seq<AgentReportKind>, p: spec_fn(AgentReportKind) -> bool)
    requires
        forall|i: int, j: int| 0 <= i < j < s.len() ==> listing_rank(s[i]) < listing_rank(s[j]),
    ensures
        forall|i: int, j: int|
            0 <= i < j < s.filter(p).len() ==> listing_rank(s.filter(p)[i]) < listing_rank(
                s.filter(p)[j],
            ),
    decreases s.len(),
{
    reveal(Seq::filter);
    if s.len() > 0 {
        let d = s.drop_last();
        let f = d.filter(p);
        assert forall|i: int, j: int| 0 <= i < j < d.len() implies listing_rank(d[i]) < listing_rank(
            d[j],
        ) by {
            assert(d[i] == s[i] && d[j] == s[j]);
        }
        lemma_filter_keeps_rank_order(d, p);
        if p(s.last()) {
            assert(s.filter(p) == f.push(s.last()));
            assert forall|i: int, j: int|
                0 <= i < j < s.filter(p).len() implies listing_rank(s.filter(p)[i]) < listing_rank(
                s.filter(p)[j],
            ) by {
                if j == f.len() {
                    assert(f.contains(f[i]));
                    d.lemma_filter_contains_rev(p, f[i]);
                    let w = choose|w: int| 0 <= w < d.len() && d[w] == f[i];
                    assert(s[w] == f[i]);
                    assert(s.filter(p)[j] == s[s.len() - 1]);
                } else {
                    assert(s.filter(p)[i] == f[i] && s.filter(p)[j] == f[j]);
                }
            }
        }
    }
}

/// Law: after the command's own kind, the sections come in the order daily,
/// weekly, monthly, session, whatever order they were asked for in.
pub proof fn law_requested_sections_in_listing_order(
    command_kind: AgentReportKind,
    sections: Seq<AgentReportKind>,
)
    ensures
        forall|a: int, b: int|
            #![trigger requested_sections_spec(command_kind, sections)[a], requested_sections_spec(command_kind, sections)[b]]
            1 <= a < b < requested_sections_spec(command_kind, sections).len() ==> (match requested_sections_spec(
                command_kind,
                sections,
            )[a] {
                AgentReportKind::Daily => 0int,
                AgentReportKind::Weekly => 1int,
                AgentReportKind::Monthly => 2int,
                AgentReportKind::Session => 3int,
            }) < (match requested_sections_spec(command_kind, sections)[b] {
                AgentReportKind::Daily => 0int,
                AgentReportKind::Weekly => 1int,
                AgentReportKind::Monthly => 2int,
                AgentReportKind::Session => 3int,
            }),
{
    let order = section_order();
    let pred = section_wanted(command_kind, sections);
    let f = order.filter(pred);
    let r = requested_sections_spec(command_kind, sections);
    assert(forall|i: int, j: int| 0 <= i < j < order.len() ==> listing_rank(order[i]) < listing_rank(
        order[j],
    ));
    lemma_filter_keeps_rank_order(order, pred);
    assert(r == seq![command_kind] + f);
    assert forall|a: int, b: int| 1 <= a < b < r.len() implies listing_rank(r[a]) < listing_rank(r[b]) by {
        assert(r[a] == f[a - 1] && r[b] == f[b - 1]);
    }
}

/// The agents detected for each section of a multi-section report.
#[derive(Clone, Debug)]
pub struct SectionAgents {
    pub daily_detected_agents: Vec<String>,
    pub session_detected_agents: Vec<String>,
}

impl SectionAgents {
    /// The agents detected for a section: those of the session load for a
    /// session section, those of the daily load for the others.
    pub fn detected_agents_for(&self, kind: AgentReportKind) -> (r: &Vec<String>)
        ensures
            r == (if kind == AgentReportKind::Session {
                &self.session_detected_agents
            } else {
                &self.daily_detected_agents
            }),
    {
        match kind {
            AgentReportKind::Session => &self.session_detected_agents,
            AgentReportKind::Daily | AgentReportKind::Weekly | AgentReportKind::Monthly => {
                &self.daily_detected_agents
            },
        }
    }
}

/// Where a summary puts a row's breakdown: into the breakdown already kept
/// for its agent and provider, or into a new one.
#[derive(Clone, Copy, Debug, PartialEq, Eq)]
pub enum AgentSlot {
    Existing(usize),
    New(usize),
}

/// The running totals of a summary row: token counts, the ordered sets of
/// models and agents seen, and the agent-and-provider keys of the
/// breakdowns kept so far (in the order they were first seen).
pub struct SummaryTotals {
    tokens: TokenCounts,
    models: Vec<String>,
    agents: Vec<String>,
    keys: Vec<AgentKey>,
}

/// No two keys are for the same agent and provider.
pub open spec fn keys_distinct(keys: Seq<AgentKey>) -> bool {
    forall|i: int, j: int|
        0 <= i < j < keys.len() ==> !agent_key_matches(
            #[trigger] keys[i],
            (#[trigger] keys[j]).agent@,
            crate::pi::opt_string_view(keys[j].provider),
        )
}

impl SummaryTotals {
    pub closed spec fn tokens_spec(&self) -> TokenCounts {
        self.tokens
    }

    pub closed spec fn models_spec(&self) -> Seq<Seq<char>> {
        views(self.models@)
    }

    pub closed spec fn agents_spec(&self) -> Seq<Seq<char>> {
        views(self.agents@)
    }

    pub closed spec fn keys_spec(&self) -> Seq<AgentKey> {
        self.keys@
    }

    /// The sets are ordered and the keys distinct.
    pub closed spec fn wf(&self) -> bool {
        &&& strictly_sorted(views(self.models@))
        &&& strictly_sorted(views(self.agents@))
        &&& keys_distinct(self.keys@)
    }

    /// Totals of no rows.
    pub fn new() -> (r: SummaryTotals)
        ensures
            r.wf(),
            r.tokens_spec() == (TokenCounts {
                input_tokens: 0,
                output_tokens: 0,
                cache_creation_tokens: 0,
                cache_read_tokens: 0,
                total_tokens: 0,
            }),
            r.models_spec() == Seq::<Seq<char>>::empty(),
            r.agents_spec() == Seq::<Seq<char>>::empty(),
            r.keys_spec() == Seq::<AgentKey>::empty(),
    {
        let r = SummaryTotals {
            tokens: TokenCounts {
                input_tokens: 0,
                output_tokens: 0,
                cache_creation_tokens: 0,
                cache_read_tokens: 0,
                total_tokens: 0,
            },
            models: Vec::new(),
            agents: Vec::new(),
            keys: Vec::new(),
        };
        assert(views(r.models@) =~= Seq::<Seq<char>>::empty());
        assert(views(r.agents@) =~= Seq::<Seq<char>>::empty());
        r
    }

    /// Adds one row: its tokens to the counts, its models and agents (see
    /// `row_agents`) to the sets; returns where its breakdown goes: the
    /// position of the key for its agent and provider, which is added when
    /// it is new.
    pub fn add_row(
        &mut self,
        tokens: &TokenCounts,
        models_used: Vec<String>,
        metadata_agents: &Option<Vec<String>>,
        agent: &str,
        provider: &Option<String>,
    ) -> (slot: AgentSlot)
        requires
            old(self).wf(),
            old(self).tokens_spec().input_tokens + tokens.input_tokens <= u64::MAX,
            old(self).tokens_spec().output_tokens + tokens.output_tokens <= u64::MAX,
            old(self).tokens_spec().cache_creation_tokens + tokens.cache_creation_tokens
                <= u64::MAX,
            old(self).tokens_spec().cache_read_tokens + tokens.cache_read_tokens <= u64::MAX,
            old(self).tokens_spec().total_tokens + tokens.total_tokens <= u64::MAX,
        ensures
            final(self).wf(),
            final(self).tokens_spec().input_tokens == old(self).tokens_spec().input_tokens
                + tokens.input_tokens,
            final(self).tokens_spec().output_tokens == old(self).tokens_spec().output_tokens
                + tokens.output_tokens,
            final(self).tokens_spec().cache_creation_tokens
                == old(self).tokens_spec().cache_creation_tokens + tokens.cache_creation_tokens,
            final(self).tokens_spec().cache_read_tokens == old(self).tokens_spec().cache_read_tokens
                + tokens.cache_read_tokens,
            final(self).tokens_spec().total_tokens == old(self).tokens_spec().total_tokens
                + tokens.total_tokens,
            ordered_set_of(
                final(self).models_spec(),
                old(self).models_spec().to_set() + views(models_used@).to_set(),
            ),
            ordered_set_of(
                final(self).agents_spec(),
                old(self).agents_spec().to_set() + row_agents(*metadata_agents, agent@),
            ),
            match slot {
                AgentSlot::Existing(i) => {
                    &&& i < old(self).keys_spec().len()
                    &&& agent_key_matches(
                        old(self).keys_spec()[i as int],
                        agent@,
                        crate::pi::opt_string_view(*provider),
                    )
                    &&& final(self).keys_spec() == old(self).keys_spec()
                },
                AgentSlot::New(i) => {
                    &&& i == old(self).keys_spec().len()
                    &&& forall|k: int|
                        0 <= k < old(self).keys_spec().len() ==> !agent_key_matches(
                            #[trigger] old(self).keys_spec()[k],
                            agent@,
                            crate::pi::opt_string_view(*provider),
                        )
                    &&& final(self).keys_spec().len() == i + 1
                    &&& final(self).keys_spec().drop_last() == old(self).keys_spec()
                    &&& agent_key_matches(
                        final(self).keys_spec()[i as int],
                        agent@,
                        crate::pi::opt_string_view(*provider),
                    )
                },
            },
    {
        self.tokens = add_token_counts(&self.tokens, tokens);
        let mut models: Vec<String> = Vec::new();
        std::mem::swap(&mut models, &mut self.models);
        self.models = ordered_union(models, models_used);
        let mut agents: Vec<String> = Vec::new();
        std::mem::swap(&mut agents, &mut self.agents);
        self.agents = accumulate_agents(agents, metadata_agents, agent);
        match find_agent_key(&self.keys, agent, provider) {
            Some(i) => AgentSlot::Existing(i),
            None => {
                let i = self.keys.len();
                let ghost old_keys = self.keys@;
                let key = AgentKey {
                    agent: String::from_str(agent),
                    provider: crate::pi::clone_opt_string(provider),
                };
                self.keys.push(key);
                proof {
                    assert(self.keys@.drop_last() =~= old_keys);
                    assert forall|a: int, b: int|
                        0 <= a < b < self.keys@.len() implies !agent_key_matches(
                        #[trigger] self.keys@[a],
                        (#[trigger] self.keys@[b]).agent@,
                        crate::pi::opt_string_view(self.keys@[b].provider),
                    ) by {
                        if b == i {
                            assert(self.keys@[a] == old_keys[a]);
                        } else {
                            assert(self.keys@[a] == old_keys[a] && self.keys@[b] == old_keys[b]);
                        }
                    }
                }
                AgentSlot::New(i)
            },
        }
    }

    /// The summed token counts.
    pub fn tokens(&self) -> (r: &TokenCounts)
        ensures
            *r == self.tokens_spec(),
    {
        &self.tokens
    }

    /// The models seen, as an ordered set.
    pub fn models(&self) -> (r: &Vec<String>)
        ensures
            views(r@) == self.models_spec(),
    {
        &self.models
    }

    /// The agents seen, as an ordered set.
    pub fn agents(&self) -> (r: &Vec<String>)
        ensures
            views(r@) == self.agents_spec(),
    {
        &self.agents
    }

    /// The agent-and-provider keys of the breakdowns, in the order first seen.
    pub fn keys(&self) -> (r: &Vec<AgentKey>)
        ensures
            r@ == self.keys_spec(),
    {
        &self.keys
    }
}

} // verus!
