//! Regrouping the agent breakdowns of a report row by provider: one row per
//! canonical provider key, in key order, summing the token counts, model
//! sets, agent lists and model breakdowns of the breakdowns under that key.
//! (Costs are kept by the caller, who sums them over `members` and
//! `model_sources`.)
use vstd::prelude::*;
use crate::breakdown::{group_breakdowns, groups_of, sum_field, total_field, ModelBreakdown, ModelGroups};
use crate::pi::opt_string_view;
use crate::rows::{
    add_token_counts, clone_strings, merged_agents, normalize_model_names, opt_set,
    provider_key, provider_key_spec, unprefixed_names, TokenCounts,
};
use crate::strset::{
    group_by_key, ordered_set_of, ordered_union, positions_eq, strictly_sorted, views, KeyGroup,
    group_keys,
};
use crate::text::{unprefixed_model_name, unprefixed_spec};

verus! {

/// The plain values of one agent breakdown of a report row (its cost and
/// JSON metadata are kept by the caller).
#[derive(Clone, Debug)]
pub struct BreakdownRow {
    pub agent: String,
    pub provider: Option<String>,
    pub tokens: TokenCounts,
    pub models_used: Vec<String>,
    pub metadata_agents: Option<Vec<String>>,
    pub model_breakdowns: Vec<ModelBreakdown>,
}

/// The row of one provider: its key, the positions of the breakdowns
/// grouped under it, the merged row, and for each of the row's model
/// breakdowns the positions of the items merged into it (positions in the
/// members' model breakdowns, member after member).
#[derive(Clone, Debug)]
pub struct ProviderRow {
    pub key: String,
    pub members: Vec<usize>,
    pub row: BreakdownRow,
    pub model_sources: Vec<Vec<usize>>,
}

/// Token field `k` of some counts: input, output, cache creation, cache
/// read and total for `k` = 0, 1, 2, 3, 4.
pub open spec fn token_field(t: TokenCounts, k: int) -> int {
    if k == 0 {
        t.input_tokens as int
    } else if k == 1 {
        t.output_tokens as int
    } else if k == 2 {
        t.cache_creation_tokens as int
    } else if k == 3 {
        t.cache_read_tokens as int
    } else {
        t.total_tokens as int
    }
}

/// The provider key a breakdown is grouped under.
pub open spec fn row_key(r: BreakdownRow) -> Seq<char> {
    provider_key_spec(r.provider)
}

/// The provider keys of some breakdowns.
pub open spec fn row_keys(rows: Seq<BreakdownRow>) -> Seq<Seq<char>> {
    rows.map_values(|r: BreakdownRow| row_key(r))
}

/// How many of the breakdowns have the key.
pub open spec fn key_count(rows: Seq<BreakdownRow>, key: Seq<char>) -> nat
    decreases rows.len(),
{
    if rows.len() == 0 {
        0
    } else {
        key_count(rows.drop_last(), key) + if row_key(rows.last()) == key {
            1nat
        } else {
            0nat
        }
    }
}

/// Token field `k` summed over the breakdowns with the key.
pub open spec fn key_tokens(rows: Seq<BreakdownRow>, key: Seq<char>, k: int) -> int
    decreases rows.len(),
{
    if rows.len() == 0 {
        0
    } else {
        key_tokens(rows.drop_last(), key, k) + if row_key(rows.last()) == key {
            token_field(rows.last().tokens, k)
        } else {
            0
        }
    }
}

/// The models, without their `[tag] ` prefixes, of the breakdowns with the key.
pub open spec fn key_models(rows: Seq<BreakdownRow>, key: Seq<char>) -> Set<Seq<char>>
    decreases rows.len(),
{
    if rows.len() == 0 {
        Set::empty()
    } else if row_key(rows.last()) == key {
        key_models(rows.drop_last(), key) + unprefixed_names(rows.last().models_used@).to_set()
    } else {
        key_models(rows.drop_last(), key)
    }
}

/// The agents listed by the breakdowns with the key.
pub open spec fn key_agents(rows: Seq<BreakdownRow>, key: Seq<char>) -> Set<Seq<char>>
    decreases rows.len(),
{
    if rows.len() == 0 {
        Set::empty()
    } else if row_key(rows.last()) == key {
        key_agents(rows.drop_last(), key) + opt_set(rows.last().metadata_agents)
    } else {
        key_agents(rows.drop_last(), key)
    }
}

/// The agent list of the first breakdown with the key.
pub open spec fn key_first_agents(rows: Seq<BreakdownRow>, key: Seq<char>) -> Option<Vec<String>>
    decreases rows.len(),
{
    if rows.len() == 0 {
        None
    } else if key_count(rows.drop_last(), key) == 0 && row_key(rows.last()) == key {
        rows.last().metadata_agents
    } else {
        key_first_agents(rows.drop_last(), key)
    }
}

/// The model breakdowns of the breakdowns with the key, one after another.
pub open spec fn key_items(rows: Seq<BreakdownRow>, key: Seq<char>) -> Seq<ModelBreakdown>
    decreases rows.len(),
{
    if rows.len() == 0 {
        Seq::empty()
    } else if row_key(rows.last()) == key {
        key_items(rows.drop_last(), key) + rows.last().model_breakdowns@
    } else {
        key_items(rows.drop_last(), key)
    }
}

/// The values of an optional list of strings.
pub open spec fn opt_views(o: Option<Vec<String>>) -> Option<Seq<Seq<char>>> {
    match o {
        Some(v) => Some(views(v@)),
        None => None,
    }
}

/// `u` is `items` with every model name unprefixed, all counts unchanged.
pub open spec fn unprefixed_of(u: Seq<ModelBreakdown>, items: Seq<ModelBreakdown>) -> bool {
    &&& u.len() == items.len()
    &&& forall|i: int|
        0 <= i < u.len() ==> {
            &&& (#[trigger] u[i]).model_name@ == unprefixed_spec(items[i].model_name@)
            &&& u[i].input_tokens == items[i].input_tokens
            &&& u[i].output_tokens == items[i].output_tokens
            &&& u[i].cache_creation_tokens == items[i].cache_creation_tokens
            &&& u[i].cache_read_tokens == items[i].cache_read_tokens
            &&& u[i].extra_total_tokens == items[i].extra_total_tokens
            &&& u[i].missing_pricing == items[i].missing_pricing
        }
}

/// Token field `k` of the breakdowns summed over the items whose unprefixed
/// model name is `name`.
pub open spec fn unprefixed_sum(items: Seq<ModelBreakdown>, name: Seq<char>, k: int) -> int
    decreases items.len(),
{
    if items.len() == 0 {
        0
    } else {
        unprefixed_sum(items.drop_last(), name, k) + if unprefixed_spec(
            items.last().model_name@,
        ) == name {
            crate::breakdown::field(items.last(), k)
        } else {
            0
        }
    }
}

/// The sums that regrouping makes fit in `u64`: for every key, the token
/// fields of its breakdowns, and the token fields of its model breakdowns
/// of each unprefixed model name.
pub open spec fn provider_sums_fit(rows: Seq<BreakdownRow>) -> bool {
    &&& forall|key: Seq<char>, k: int| 0 <= k < 5 ==> #[trigger] key_tokens(rows, key, k) <= u64::MAX
    &&& forall|key: Seq<char>, name: Seq<char>, k: int|
        0 <= k < 5 ==> #[trigger] unprefixed_sum(key_items(rows, key), name, k) <= u64::MAX
}

/// The agent list of a provider row: the first breakdown's own list when
/// only one breakdown has the key; otherwise the ordered union of all their
/// lists, or none when that union is empty.
pub open spec fn agents_outcome(rows: Seq<BreakdownRow>, key: Seq<char>, a: Option<Vec<String>>) -> bool {
    if key_count(rows, key) == 1 {
        opt_views(a) == opt_views(key_first_agents(rows, key))
    } else {
        match a {
            Some(v) => ordered_set_of(views(v@), key_agents(rows, key)) && v@.len() > 0,
            None => key_agents(rows, key) == Set::<Seq<char>>::empty(),
        }
    }
}

/// `p` is the provider row of `key`: agent `all`, provider `key`, the
/// summed token counts, the ordered set of the unprefixed models, the
/// agents (see `agents_outcome`), and the model breakdowns of all the
/// breakdowns with the key, unprefixed and grouped by model name.
pub open spec fn provider_row_of(rows: Seq<BreakdownRow>, key: Seq<char>, p: ProviderRow) -> bool {
    &&& p.key@ == key
    &&& p.row.agent@ == "all"@
    &&& opt_string_view(p.row.provider) == Some(key)
    &&& forall|k: int| 0 <= k < 5 ==> #[trigger] token_field(p.row.tokens, k) == key_tokens(rows, key, k)
    &&& ordered_set_of(views(p.row.models_used@), key_models(rows, key))
    &&& agents_outcome(rows, key, p.row.metadata_agents)
    &&& exists|u: Seq<ModelBreakdown>|
        unprefixed_of(u, key_items(rows, key)) && groups_of(
            u,
            (ModelGroups { breakdowns: p.row.model_breakdowns, sources: p.model_sources }),
        )
}

/// A copy of an optional list of strings.
fn clone_opt_strings(o: &Option<Vec<String>>) -> (r: Option<Vec<String>>)
    ensures
        opt_views(r) == opt_views(*o),
        opt_set(r) == opt_set(*o),
{
    match o {
        Some(v) => Some(clone_strings(v)),
        None => None,
    }
}

/// The breakdowns with their model names unprefixed.
fn unprefixed_copies(items: &Vec<ModelBreakdown>) -> (r: Vec<ModelBreakdown>)
    ensures
        unprefixed_of(r@, items@),
{
    let mut r: Vec<ModelBreakdown> = Vec::new();
    let n = items.len();
    let mut i: usize = 0;
    while i < n
        invariant
            n == items@.len(),
            i <= n,
            r@.len() == i,
            forall|j: int|
                0 <= j < i ==> {
                    &&& (#[trigger] r@[j]).model_name@ == unprefixed_spec(items@[j].model_name@)
                    &&& r@[j].input_tokens == items@[j].input_tokens
                    &&& r@[j].output_tokens == items@[j].output_tokens
                    &&& r@[j].cache_creation_tokens == items@[j].cache_creation_tokens
                    &&& r@[j].cache_read_tokens == items@[j].cache_read_tokens
                    &&& r@[j].extra_total_tokens == items@[j].extra_total_tokens
                    &&& r@[j].missing_pricing == items@[j].missing_pricing
                },
        decreases n - i,
    {
        let b = &items[i];
        r.push(
            ModelBreakdown {
                model_name: String::from_str(unprefixed_model_name(b.model_name.as_str())),
                input_tokens: b.input_tokens,
                output_tokens: b.output_tokens,
                cache_creation_tokens: b.cache_creation_tokens,
                cache_read_tokens: b.cache_read_tokens,
                extra_total_tokens: b.extra_total_tokens,
                missing_pricing: b.missing_pricing,
            },
        );
        i = i + 1;
    }
    r
}

proof fn lemma_unprefixed_concat(
    u1: Seq<ModelBreakdown>,
    x1: Seq<ModelBreakdown>,
    u2: Seq<ModelBreakdown>,
    x2: Seq<ModelBreakdown>,
)
    requires
        unprefixed_of(u1, x1),
        unprefixed_of(u2, x2),
    ensures
        unprefixed_of(u1 + u2, x1 + x2),
{
    assert forall|i: int| 0 <= i < (u1 + u2).len() implies {
        &&& (#[trigger] (u1 + u2)[i]).model_name@ == unprefixed_spec((x1 + x2)[i].model_name@)
        &&& (u1 + u2)[i].input_tokens == (x1 + x2)[i].input_tokens
        &&& (u1 + u2)[i].output_tokens == (x1 + x2)[i].output_tokens
        &&& (u1 + u2)[i].cache_creation_tokens == (x1 + x2)[i].cache_creation_tokens
        &&& (u1 + u2)[i].cache_read_tokens == (x1 + x2)[i].cache_read_tokens
        &&& (u1 + u2)[i].extra_total_tokens == (x1 + x2)[i].extra_total_tokens
        &&& (u1 + u2)[i].missing_pricing == (x1 + x2)[i].missing_pricing
    } by {
        if i < u1.len() {
            assert((u1 + u2)[i] == u1[i] && (x1 + x2)[i] == x1[i]);
        } else {
            assert((u1 + u2)[i] == u2[i - u1.len()] && (x1 + x2)[i] == x2[i - x1.len()]);
        }
    }
}

proof fn lemma_unprefixed_sum(u: Seq<ModelBreakdown>, items: Seq<ModelBreakdown>, name: Seq<char>, k: int)
    requires
        unprefixed_of(u, items),
    ensures
        sum_field(u, name, k) == unprefixed_sum(items, name, k),
    decreases items.len(),
{
    if items.len() > 0 {
        let n = items.len() - 1;
        assert(u[n].model_name@ == unprefixed_spec(items[n].model_name@));
        assert(unprefixed_of(u.drop_last(), items.drop_last())) by {
            assert forall|i: int| 0 <= i < u.drop_last().len() implies {
                &&& (#[trigger] u.drop_last()[i]).model_name@ == unprefixed_spec(
                    items.drop_last()[i].model_name@,
                )
                &&& u.drop_last()[i].input_tokens == items.drop_last()[i].input_tokens
                &&& u.drop_last()[i].output_tokens == items.drop_last()[i].output_tokens
                &&& u.drop_last()[i].cache_creation_tokens
                    == items.drop_last()[i].cache_creation_tokens
                &&& u.drop_last()[i].cache_read_tokens == items.drop_last()[i].cache_read_tokens
                &&& u.drop_last()[i].extra_total_tokens == items.drop_last()[i].extra_total_tokens
                &&& u.drop_last()[i].missing_pricing == items.drop_last()[i].missing_pricing
            } by {
                assert(u.drop_last()[i] == u[i] && items.drop_last()[i] == items[i]);
            }
        }
        lemma_unprefixed_sum(u.drop_last(), items.drop_last(), name, k);
        assert(crate::breakdown::field(u[n], k) == crate::breakdown::field(items[n], k));
    }
}

proof fn lemma_key_tokens_prefix(rows: Seq<BreakdownRow>, i: int, key: Seq<char>, k: int)
    requires
        0 <= i <= rows.len(),
    ensures
        0 <= key_tokens(rows.take(i), key, k) <= key_tokens(rows, key, k),
    decreases rows.len(),
{
    if i < rows.len() {
        assert(rows.drop_last().take(i) =~= rows.take(i));
        lemma_key_tokens_prefix(rows.drop_last(), i, key, k);
        assert(token_field(rows.last().tokens, k) >= 0);
    } else {
        assert(rows.take(i) =~= rows);
        lemma_key_tokens_nonneg(rows, key, k);
    }
}

proof fn lemma_key_tokens_nonneg(rows: Seq<BreakdownRow>, key: Seq<char>, k: int)
    ensures
        0 <= key_tokens(rows, key, k),
    decreases rows.len(),
{
    if rows.len() > 0 {
        lemma_key_tokens_nonneg(rows.drop_last(), key, k);
    }
}

/// The row of one provider key (see `provider_row_of`).
fn provider_row(
    rows: &Vec<BreakdownRow>,
    keys: &Vec<String>,
    key: String,
    members: Vec<usize>,
) -> (p: ProviderRow)
    requires
        views(keys@) == row_keys(rows@),
        provider_sums_fit(rows@),
    ensures
        provider_row_of(rows@, key@, p),
        p.members@ == members@,
{
    let ghost rs = rows@;
    let ghost kv = key@;
    let n = rows.len();
    let mut tokens = TokenCounts {
        input_tokens: 0,
        output_tokens: 0,
        cache_creation_tokens: 0,
        cache_read_tokens: 0,
        total_tokens: 0,
    };
    let mut models: Vec<String> = Vec::new();
    let mut agents: Option<Vec<String>> = None;
    let mut count: usize = 0;
    let mut items: Vec<ModelBreakdown> = Vec::new();
    let mut i: usize = 0;
    assert(views(models@) =~= Seq::<Seq<char>>::empty());
    assert(views(models@).to_set() =~= Set::<Seq<char>>::empty());
    assert(rs.take(0) =~= Seq::<BreakdownRow>::empty());
    assert(views(keys@).len() == keys@.len() && row_keys(rs).len() == rs.len());
    while i < n
        invariant
            n == rs.len(),
            keys@.len() == n,
            rs == rows@,
            kv == key@,
            views(keys@) == row_keys(rs),
            provider_sums_fit(rs),
            i <= n,
            count <= i,
            count == key_count(rs.take(i as int), kv),
            forall|k: int|
                0 <= k < 5 ==> #[trigger] token_field(tokens, k) == key_tokens(
                    rs.take(i as int),
                    kv,
                    k,
                ),
            strictly_sorted(views(models@)),
            views(models@).to_set() == key_models(rs.take(i as int), kv),
            count == 0 ==> agents is None && key_agents(rs.take(i as int), kv) == Set::<
                Seq<char>,
            >::empty(),
            count == 1 ==> opt_views(agents) == opt_views(key_first_agents(rs.take(i as int), kv))
                && key_agents(rs.take(i as int), kv) == opt_set(agents),
            count >= 2 ==> agents_outcome(rs.take(i as int), kv, agents),
            unprefixed_of(items@, key_items(rs.take(i as int), kv)),
        decreases n - i,
    {
        let ghost pre = rs.take(i as int);
        let ghost cur = rs.take(i + 1);
        proof {
            assert(cur.drop_last() =~= pre);
            assert(cur.last() == rs[i as int]);
            assert(views(keys@)[i as int] == keys@[i as int]@);
        }
        if keys[i].eq(&key) {
            let row = &rows[i];
            proof {
                assert(row_key(rs[i as int]) == kv);
                assert forall|k: int| 0 <= k < 5 implies token_field(tokens, k) + token_field(
                    row.tokens,
                    k,
                ) <= u64::MAX by {
                    lemma_key_tokens_prefix(rs, i + 1, kv, k);
                }
                assert(token_field(tokens, 0) + token_field(row.tokens, 0) <= u64::MAX);
                assert(token_field(tokens, 1) + token_field(row.tokens, 1) <= u64::MAX);
                assert(token_field(tokens, 2) + token_field(row.tokens, 2) <= u64::MAX);
                assert(token_field(tokens, 3) + token_field(row.tokens, 3) <= u64::MAX);
                assert(token_field(tokens, 4) + token_field(row.tokens, 4) <= u64::MAX);
            }
            tokens = add_token_counts(&tokens, &row.tokens);
            let normalized = normalize_model_names(&row.models_used);
            models = ordered_union(models, normalized);
            let row_agents = clone_opt_strings(&row.metadata_agents);
            if count == 0 {
                agents = row_agents;
            } else {
                agents = merged_agents(agents, row_agents);
            }
            let mut more = unprefixed_copies(&row.model_breakdowns);
            let ghost old_items = items@;
            let ghost old_more = more@;
            items.append(&mut more);
            proof {
                lemma_unprefixed_concat(old_items, key_items(pre, kv), old_more, row.model_breakdowns@);
                assert(key_items(cur, kv) == key_items(pre, kv) + row.model_breakdowns@);
                if count >= 2 {
                    assert(key_count(pre, kv) != 1);
                }
            }
            count = count + 1;
        } else {
            proof {
                assert(row_key(rs[i as int]) != kv);
            }
        }
        i = i + 1;
    }
    proof {
        assert(rs.take(n as int) =~= rs);
        assert forall|nm: Seq<char>, k: int| 0 <= k < 5 implies #[trigger] sum_field(items@, nm, k)
            <= u64::MAX by {
            lemma_unprefixed_sum(items@, key_items(rs, kv), nm, k);
        }
    }
    let groups = group_breakdowns(&items);
    let ModelGroups { breakdowns, sources } = groups;
    let p = ProviderRow {
        key: key.clone(),
        members,
        row: BreakdownRow {
            agent: String::from_str("all"),
            provider: Some(key),
            tokens,
            models_used: models,
            metadata_agents: agents,
            model_breakdowns: breakdowns,
        },
        model_sources: sources,
    };
    proof {
        reveal_strlit("all");
        assert(groups_of(
            items@,
            (ModelGroups { breakdowns: p.row.model_breakdowns, sources: p.model_sources }),
        ));
        if count == 0 {
            assert(agents_outcome(rs, kv, p.row.metadata_agents));
        }
    }
    p
}

/// Regroups the agent breakdowns of a report row by provider: one row per
/// provider key (see `provider_key_spec`), in increasing key order, each
/// listing the positions of its breakdowns (ascending) and merging them
/// (see `provider_row_of`).
pub fn provider_rows(rows: &Vec<BreakdownRow>) -> (r: Vec<ProviderRow>)
    requires
        provider_sums_fit(rows@),
    ensures
        ordered_set_of(r@.map_values(|p: ProviderRow| p.key@), row_keys(rows@).to_set()),
        forall|j: int|
            0 <= j < r@.len() ==> {
                &&& (#[trigger] r@[j]).members@ == positions_eq(row_keys(rows@), r@[j].key@)
                &&& provider_row_of(rows@, r@[j].key@, r@[j])
            },
{
    let n = rows.len();
    let mut keys: Vec<String> = Vec::new();
    let mut i: usize = 0;
    while i < n
        invariant
            n == rows@.len(),
            i <= n,
            views(keys@) == row_keys(rows@.take(i as int)),
        decreases n - i,
    {
        let k = provider_key(&rows[i].provider);
        let ghost old_keys = keys@;
        keys.push(k);
        proof {
            assert(views(keys@) =~= views(old_keys).push(k@));
            assert(row_keys(rows@.take(i + 1)) =~= row_keys(rows@.take(i as int)).push(
                row_key(rows@[i as int]),
            ));
        }
        i = i + 1;
    }
    assert(rows@.take(n as int) =~= rows@);
    let groups = group_by_key(&keys);
    let ghost gs = groups@;
    let ghost ks = views(keys@);
    let mut out: Vec<ProviderRow> = Vec::new();
    for g in it: groups.into_iter()
        invariant
            gs == it.seq(),
            ks == views(keys@),
            ks == row_keys(rows@),
            provider_sums_fit(rows@),
            crate::strset::ordered_groups_of(ks, gs),
            out@.len() == it.index(),
            forall|j: int|
                0 <= j < out@.len() ==> {
                    &&& (#[trigger] out@[j]).key@ == gs[j].key@
                    &&& out@[j].members@ == positions_eq(ks, gs[j].key@)
                    &&& provider_row_of(rows@, out@[j].key@, out@[j])
                },
    {
        let ghost j = it.index() as int;
        assert(gs[j] == g);
        let KeyGroup { key, members } = g;
        let p = provider_row(rows, &keys, key, members);
        out.push(p);
    }
    proof {
        let m = out@.map_values(|p: ProviderRow| p.key@);
        assert(m =~= group_keys(gs));
    }
    out
}

/// The models of all the breakdowns, without their `[tag] ` prefixes.
pub open spec fn all_models(rows: Seq<BreakdownRow>) -> Set<Seq<char>>
    decreases rows.len(),
{
    if rows.len() == 0 {
        Set::empty()
    } else {
        all_models(rows.drop_last()) + unprefixed_names(rows.last().models_used@).to_set()
    }
}

/// The models of a regrouped report row: the ordered set of the unprefixed
/// models of all its breakdowns.
pub fn regrouped_models(rows: &Vec<BreakdownRow>) -> (r: Vec<String>)
    ensures
        ordered_set_of(views(r@), all_models(rows@)),
{
    let n = rows.len();
    let mut models: Vec<String> = Vec::new();
    let mut i: usize = 0;
    assert(views(models@) =~= Seq::<Seq<char>>::empty());
    assert(views(models@).to_set() =~= Set::<Seq<char>>::empty());
    assert(rows@.take(0) =~= Seq::<BreakdownRow>::empty());
    while i < n
        invariant
            n == rows@.len(),
            i <= n,
            strictly_sorted(views(models@)),
            views(models@).to_set() == all_models(rows@.take(i as int)),
        decreases n - i,
    {
        let normalized = normalize_model_names(&rows[i].models_used);
        models = ordered_union(models, normalized);
        assert(rows@.take(i + 1).drop_last() =~= rows@.take(i as int));
        i = i + 1;
    }
    assert(rows@.take(n as int) =~= rows@);
    models
}

/// A merged breakdown row, and for each of its model breakdowns the
/// positions of the items merged into it (in the target's model breakdowns
/// followed by the source's).
#[derive(Clone, Debug)]
pub struct MergedRow {
    pub row: BreakdownRow,
    pub model_sources: Vec<Vec<usize>>,
}

/// Merges `source` into `target`: the target's agent and provider, the
/// summed token counts, the ordered union of the models, the merged agent
/// lists (see `merged_agents`), and the model breakdowns of both grouped by
/// model name.
pub fn merge_breakdown_rows(target: BreakdownRow, source: BreakdownRow) -> (r: MergedRow)
    requires
        target.tokens.input_tokens + source.tokens.input_tokens <= u64::MAX,
        target.tokens.output_tokens + source.tokens.output_tokens <= u64::MAX,
        target.tokens.cache_creation_tokens + source.tokens.cache_creation_tokens <= u64::MAX,
        target.tokens.cache_read_tokens + source.tokens.cache_read_tokens <= u64::MAX,
        target.tokens.total_tokens + source.tokens.total_tokens <= u64::MAX,
        crate::breakdown::name_totals_fit(target.model_breakdowns@ + source.model_breakdowns@),
    ensures
        r.row.agent@ == target.agent@,
        opt_string_view(r.row.provider) == opt_string_view(target.provider),
        forall|k: int|
            0 <= k < 5 ==> #[trigger] token_field(r.row.tokens, k) == token_field(target.tokens, k)
                + token_field(source.tokens, k),
        ordered_set_of(
            views(r.row.models_used@),
            views(target.models_used@).to_set() + views(source.models_used@).to_set(),
        ),
        match r.row.metadata_agents {
            Some(v) => ordered_set_of(
                views(v@),
                opt_set(target.metadata_agents) + opt_set(source.metadata_agents),
            ) && v@.len() > 0,
            None => opt_set(target.metadata_agents) + opt_set(source.metadata_agents) == Set::<
                Seq<char>,
            >::empty(),
        },
        groups_of(
            target.model_breakdowns@ + source.model_breakdowns@,
            (ModelGroups { breakdowns: r.row.model_breakdowns, sources: r.model_sources }),
        ),
{
    let ghost t = target;
    let ghost s = source;
    let BreakdownRow { agent, provider, tokens, models_used, metadata_agents, model_breakdowns } =
        target;
    let tokens = add_token_counts(&tokens, &source.tokens);
    let models = crate::strset::ordered_set(models_used);
    let models = ordered_union(models, source.models_used);
    let agents = merged_agents(metadata_agents, source.metadata_agents);
    let groups = crate::breakdown::merge_model_breakdowns(model_breakdowns, source.model_breakdowns);
    let ModelGroups { breakdowns, sources } = groups;
    MergedRow {
        row: BreakdownRow {
            agent,
            provider,
            tokens,
            models_used: models,
            metadata_agents: agents,
            model_breakdowns: breakdowns,
        },
        model_sources: sources,
    }
}

/// Token field `k` summed over all the breakdowns.
pub open spec fn total_tokens_of(rows: Seq<BreakdownRow>, k: int) -> int
    decreases rows.len(),
{
    if rows.len() == 0 {
        0
    } else {
        total_tokens_of(rows.drop_last(), k) + token_field(rows.last().tokens, k)
    }
}

/// Token field `k` summed over some provider rows.
pub open spec fn provider_rows_tokens(r: Seq<ProviderRow>, k: int) -> int
    decreases r.len(),
{
    if r.len() == 0 {
        0
    } else {
        provider_rows_tokens(r.drop_last(), k) + token_field(r.last().row.tokens, k)
    }
}

/// Token field `k` summed, for each of the keys, over the breakdowns with it.
pub open spec fn keys_tokens(rows: Seq<BreakdownRow>, keys: Seq<Seq<char>>, k: int) -> int
    decreases keys.len(),
{
    if keys.len() == 0 {
        0
    } else {
        keys_tokens(rows, keys.drop_last(), k) + key_tokens(rows, keys.last(), k)
    }
}

proof fn lemma_keys_tokens_push(rows: Seq<BreakdownRow>, x: BreakdownRow, keys: Seq<Seq<char>>, k: int)
    requires
        keys.no_duplicates(),
    ensures
        keys_tokens(rows.push(x), keys, k) == keys_tokens(rows, keys, k) + if keys.contains(row_key(x)) {
            token_field(x.tokens, k)
        } else {
            0
        },
    decreases keys.len(),
{
    assert(rows.push(x).drop_last() =~= rows);
    if keys.len() > 0 {
        let d = keys.drop_last();
        assert(d.no_duplicates());
        lemma_keys_tokens_push(rows, x, d, k);
        if keys.last() == row_key(x) {
            assert(!d.contains(row_key(x))) by {
                if d.contains(row_key(x)) {
                    let j = choose|j: int| 0 <= j < d.len() && d[j] == row_key(x);
                    assert(keys[j] == keys[keys.len() - 1]);
                }
            }
            assert(keys[keys.len() - 1] == row_key(x));
        } else {
            assert(keys.contains(row_key(x)) == d.contains(row_key(x))) by {
                if keys.contains(row_key(x)) {
                    let j = choose|j: int| 0 <= j < keys.len() && keys[j] == row_key(x);
                    assert(d[j] == row_key(x));
                }
                if d.contains(row_key(x)) {
                    let j = choose|j: int| 0 <= j < d.len() && d[j] == row_key(x);
                    assert(keys[j] == row_key(x));
                }
            }
        }
    }
}

proof fn lemma_keys_tokens_total(rows: Seq<BreakdownRow>, keys: Seq<Seq<char>>, k: int)
    requires
        keys.no_duplicates(),
        forall|i: int| 0 <= i < rows.len() ==> keys.contains(row_key(#[trigger] rows[i])),
    ensures
        keys_tokens(rows, keys, k) == total_tokens_of(rows, k),
    decreases rows.len(),
{
    if rows.len() == 0 {
        lemma_keys_tokens_empty(rows, keys, k);
    } else {
        let d = rows.drop_last();
        assert forall|i: int| 0 <= i < d.len() implies keys.contains(row_key(#[trigger] d[i])) by {
            assert(d[i] == rows[i]);
        }
        lemma_keys_tokens_total(d, keys, k);
        assert(d.push(rows.last()) =~= rows);
        assert(keys.contains(row_key(rows[rows.len() - 1])));
        lemma_keys_tokens_push(d, rows.last(), keys, k);
    }
}

proof fn lemma_keys_tokens_empty(rows: Seq<BreakdownRow>, keys: Seq<Seq<char>>, k: int)
    requires
        rows.len() == 0,
    ensures
        keys_tokens(rows, keys, k) == 0,
    decreases keys.len(),
{
    if keys.len() > 0 {
        lemma_keys_tokens_empty(rows, keys.drop_last(), k);
    }
}

proof fn lemma_provider_rows_tokens(rows: Seq<BreakdownRow>, r: Seq<ProviderRow>, k: int)
    requires
        0 <= k < 5,
        forall|j: int| 0 <= j < r.len() ==> provider_row_of(rows, (#[trigger] r[j]).key@, r[j]),
    ensures
        provider_rows_tokens(r, k) == keys_tokens(rows, r.map_values(|p: ProviderRow| p.key@), k),
    decreases r.len(),
{
    if r.len() > 0 {
        let d = r.drop_last();
        assert forall|j: int| 0 <= j < d.len() implies provider_row_of(
            rows,
            (#[trigger] d[j]).key@,
            d[j],
        ) by {
            assert(d[j] == r[j]);
        }
        lemma_provider_rows_tokens(rows, d, k);
        assert(r.map_values(|p: ProviderRow| p.key@).drop_last() =~= d.map_values(
            |p: ProviderRow| p.key@,
        ));
        assert(provider_row_of(rows, r[r.len() - 1].key@, r[r.len() - 1]));
    }
}

/// Law: regrouping by provider loses no tokens and counts none twice: over
/// the provider rows, each token field sums to what it sums to over the
/// breakdowns.
pub proof fn law_provider_rows_keep_token_totals(rows: Seq<BreakdownRow>, r: Seq<ProviderRow>, k: int)
    requires
        0 <= k < 5,
        ordered_set_of(r.map_values(|p: ProviderRow| p.key@), row_keys(rows).to_set()),
        forall|j: int| 0 <= j < r.len() ==> provider_row_of(rows, (#[trigger] r[j]).key@, r[j]),
    ensures
        provider_rows_tokens(r, k) == total_tokens_of(rows, k),
{
    let keys = r.map_values(|p: ProviderRow| p.key@);
    assert(keys.no_duplicates()) by {
        assert forall|a: int, b: int| 0 <= a < keys.len() && 0 <= b < keys.len() && a != b implies keys[a]
            != keys[b] by {
            if a < b {
                crate::strset::lemma_str_lt_irreflexive(keys[a]);
                assert(crate::strset::str_lt(keys[a], keys[b]));
            } else {
                crate::strset::lemma_str_lt_irreflexive(keys[b]);
                assert(crate::strset::str_lt(keys[b], keys[a]));
            }
        }
    }
    assert forall|i: int| 0 <= i < rows.len() implies keys.contains(row_key(#[trigger] rows[i])) by {
        assert(row_keys(rows)[i] == row_key(rows[i]));
        assert(row_keys(rows).to_set().contains(row_key(rows[i])));
        assert(keys.to_set().contains(row_key(rows[i])));
    }
    lemma_keys_tokens_total(rows, keys, k);
    lemma_provider_rows_tokens(rows, r, k);
}

proof fn lemma_key_models_contains(rows: Seq<BreakdownRow>, key: Seq<char>, m: Seq<char>)
    ensures
        key_models(rows, key).contains(m) <==> exists|j: int|
            0 <= j < rows.len() && row_key(#[trigger] rows[j]) == key && unprefixed_names(
                rows[j].models_used@,
            ).contains(m),
    decreases rows.len(),
{
    if rows.len() > 0 {
        let d = rows.drop_last();
        lemma_key_models_contains(d, key, m);
        if exists|j: int|
            0 <= j < d.len() && row_key(#[trigger] d[j]) == key && unprefixed_names(
                d[j].models_used@,
            ).contains(m) {
            let j = choose|j: int|
                0 <= j < d.len() && row_key(#[trigger] d[j]) == key && unprefixed_names(
                    d[j].models_used@,
                ).contains(m);
            assert(rows[j] == d[j]);
        }
        if exists|j: int|
            0 <= j < rows.len() && row_key(#[trigger] rows[j]) == key && unprefixed_names(
                rows[j].models_used@,
            ).contains(m) {
            let j = choose|j: int|
                0 <= j < rows.len() && row_key(#[trigger] rows[j]) == key && unprefixed_names(
                    rows[j].models_used@,
                ).contains(m);
            if j < d.len() {
                assert(d[j] == rows[j]);
            } else {
                assert(rows[j] == rows.last());
            }
        }
        if row_key(rows.last()) == key && unprefixed_names(rows.last().models_used@).contains(m) {
            assert(unprefixed_names(rows.last().models_used@).to_set().contains(m));
        }
    }
}

proof fn lemma_key_agents_contains(rows: Seq<BreakdownRow>, key: Seq<char>, a: Seq<char>)
    ensures
        key_agents(rows, key).contains(a) <==> exists|j: int|
            0 <= j < rows.len() && row_key(#[trigger] rows[j]) == key && opt_set(
                rows[j].metadata_agents,
            ).contains(a),
    decreases rows.len(),
{
    if rows.len() > 0 {
        let d = rows.drop_last();
        lemma_key_agents_contains(d, key, a);
        if exists|j: int|
            0 <= j < d.len() && row_key(#[trigger] d[j]) == key && opt_set(d[j].metadata_agents).contains(
                a,
            ) {
            let j = choose|j: int|
                0 <= j < d.len() && row_key(#[trigger] d[j]) == key && opt_set(
                    d[j].metadata_agents,
                ).contains(a);
            assert(rows[j] == d[j]);
        }
        if exists|j: int|
            0 <= j < rows.len() && row_key(#[trigger] rows[j]) == key && opt_set(
                rows[j].metadata_agents,
            ).contains(a) {
            let j = choose|j: int|
                0 <= j < rows.len() && row_key(#[trigger] rows[j]) == key && opt_set(
                    rows[j].metadata_agents,
                ).contains(a);
            if j < d.len() {
                assert(d[j] == rows[j]);
            } else {
                assert(rows[j] == rows.last());
            }
        }
    }
}

/// Law: the models of a provider row are exactly the unprefixed models of
/// all the breakdowns under its key, each once, in increasing order: every
/// model of every such breakdown is listed, and no other.
pub proof fn law_provider_models_are_the_union(rows: Seq<BreakdownRow>, key: Seq<char>, p: ProviderRow)
    requires
        provider_row_of(rows, key, p),
    ensures
        forall|j: int, m: Seq<char>|
            0 <= j < rows.len() && row_key(rows[j]) == key && #[trigger] unprefixed_names(
                rows[j].models_used@,
            ).contains(m) ==> views(p.row.models_used@).contains(m),
        forall|m: Seq<char>|
            #[trigger] views(p.row.models_used@).contains(m) ==> exists|j: int|
                0 <= j < rows.len() && row_key(#[trigger] rows[j]) == key && unprefixed_names(
                    rows[j].models_used@,
                ).contains(m),
        strictly_sorted(views(p.row.models_used@)),
{
    let v = views(p.row.models_used@);
    assert forall|j: int, m: Seq<char>|
        0 <= j < rows.len() && row_key(rows[j]) == key && #[trigger] unprefixed_names(
            rows[j].models_used@,
        ).contains(m) implies v.contains(m) by {
        lemma_key_models_contains(rows, key, m);
        assert(v.to_set().contains(m));
    }
    assert forall|m: Seq<char>| #[trigger] v.contains(m) implies exists|j: int|
        0 <= j < rows.len() && row_key(#[trigger] rows[j]) == key && unprefixed_names(
            rows[j].models_used@,
        ).contains(m) by {
        assert(v.to_set().contains(m));
        lemma_key_models_contains(rows, key, m);
    }
}

/// Law: when several breakdowns share a provider key, the provider row's
/// agents are exactly those that any of them lists, each once, in
/// increasing order (none at all when they list none).
pub proof fn law_provider_agents_are_the_union(rows: Seq<BreakdownRow>, key: Seq<char>, p: ProviderRow)
    requires
        provider_row_of(rows, key, p),
        key_count(rows, key) >= 2,
    ensures
        forall|a: Seq<char>|
            (exists|j: int|
                0 <= j < rows.len() && row_key(#[trigger] rows[j]) == key && opt_set(
                    rows[j].metadata_agents,
                ).contains(a)) <==> opt_set(p.row.metadata_agents).contains(a),
        match p.row.metadata_agents {
            Some(v) => strictly_sorted(views(v@)),
            None => true,
        },
{
    assert forall|a: Seq<char>|
        (exists|j: int|
            0 <= j < rows.len() && row_key(#[trigger] rows[j]) == key && opt_set(
                rows[j].metadata_agents,
            ).contains(a)) <==> opt_set(p.row.metadata_agents).contains(a) by {
        lemma_key_agents_contains(rows, key, a);
    }
}

/// Token field `k` of the model breakdowns of the breakdowns with the key,
/// summed over all of them.
pub open spec fn member_model_tokens(rows: Seq<BreakdownRow>, key: Seq<char>, k: int) -> int
    decreases rows.len(),
{
    if rows.len() == 0 {
        0
    } else {
        member_model_tokens(rows.drop_last(), key, k) + if row_key(rows.last()) == key {
            total_field(rows.last().model_breakdowns@, k)
        } else {
            0
        }
    }
}

proof fn lemma_total_field_add(a: Seq<ModelBreakdown>, b: Seq<ModelBreakdown>, k: int)
    ensures
        total_field(a + b, k) == total_field(a, k) + total_field(b, k),
    decreases b.len(),
{
    if b.len() == 0 {
        assert(a + b =~= a);
    } else {
        lemma_total_field_add(a, b.drop_last(), k);
        assert((a + b).drop_last() =~= a + b.drop_last());
        assert((a + b).last() == b.last());
    }
}

proof fn lemma_unprefixed_total(u: Seq<ModelBreakdown>, items: Seq<ModelBreakdown>, k: int)
    requires
        unprefixed_of(u, items),
    ensures
        total_field(u, k) == total_field(items, k),
    decreases items.len(),
{
    if items.len() > 0 {
        let n = items.len() - 1;
        assert(unprefixed_of(u.drop_last(), items.drop_last())) by {
            assert forall|i: int| 0 <= i < u.drop_last().len() implies {
                &&& (#[trigger] u.drop_last()[i]).model_name@ == unprefixed_spec(
                    items.drop_last()[i].model_name@,
                )
                &&& u.drop_last()[i].input_tokens == items.drop_last()[i].input_tokens
                &&& u.drop_last()[i].output_tokens == items.drop_last()[i].output_tokens
                &&& u.drop_last()[i].cache_creation_tokens
                    == items.drop_last()[i].cache_creation_tokens
                &&& u.drop_last()[i].cache_read_tokens == items.drop_last()[i].cache_read_tokens
                &&& u.drop_last()[i].extra_total_tokens == items.drop_last()[i].extra_total_tokens
                &&& u.drop_last()[i].missing_pricing == items.drop_last()[i].missing_pricing
            } by {
                assert(u.drop_last()[i] == u[i] && items.drop_last()[i] == items[i]);
            }
        }
        lemma_unprefixed_total(u.drop_last(), items.drop_last(), k);
        assert(u[n] == u.last() && items[n] == items.last());
        assert(crate::breakdown::field(u[n], k) == crate::breakdown::field(items[n], k));
    }
}

proof fn lemma_key_items_total(rows: Seq<BreakdownRow>, key: Seq<char>, k: int)
    ensures
        total_field(key_items(rows, key), k) == member_model_tokens(rows, key, k),
    decreases rows.len(),
{
    if rows.len() > 0 {
        lemma_key_items_total(rows.drop_last(), key, k);
        if row_key(rows.last()) == key {
            lemma_total_field_add(
                key_items(rows.drop_last(), key),
                rows.last().model_breakdowns@,
                k,
            );
        }
    }
}

/// Law: the model breakdowns of a provider row hold, field by field, all
/// the tokens of the model breakdowns of every breakdown under its key.
pub proof fn law_provider_model_tokens_kept(rows: Seq<BreakdownRow>, key: Seq<char>, p: ProviderRow, k: int)
    requires
        provider_row_of(rows, key, p),
        0 <= k < 5,
    ensures
        total_field(p.row.model_breakdowns@, k) == member_model_tokens(rows, key, k),
{
    let u = choose|u: Seq<ModelBreakdown>|
        unprefixed_of(u, key_items(rows, key)) && groups_of(
            u,
            (ModelGroups { breakdowns: p.row.model_breakdowns, sources: p.model_sources }),
        );
    crate::breakdown::law_groups_keep_token_totals(
        u,
        ModelGroups { breakdowns: p.row.model_breakdowns, sources: p.model_sources },
        k,
    );
    lemma_unprefixed_total(u, key_items(rows, key), k);
    lemma_key_items_total(rows, key, k);
}

} // verus!
