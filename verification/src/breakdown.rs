//! Per-model usage breakdowns: grouping by model name with summed token
//! counts.
//!
//! The position of each model name's group is found by a linear search of
//! the groups so far rather than through a hash map from names: a hash map
//! keyed by `String` gets no usable specification from vstd, and the
//! groups are few. What a map would give, one group per name in
//! first-occurrence order, is `groups_of`.
use vstd::prelude::*;

verus! {

/// The token counts of one model within a report row. (The row's cost for
/// the model is kept beside it by the caller, who sums the costs of the
/// items that `ModelGroups::sources` lists for it.)
#[derive(Clone, Debug)]
pub struct ModelBreakdown {
    pub model_name: String,
    pub input_tokens: u64,
    pub output_tokens: u64,
    pub cache_creation_tokens: u64,
    pub cache_read_tokens: u64,
    pub extra_total_tokens: u64,
    /// Some usage of the model had no price.
    pub missing_pricing: bool,
}

/// Breakdowns grouped by model name: one breakdown per name, in the order
/// the names first occur, and for each the positions of the items merged
/// into it.
#[derive(Clone, Debug)]
pub struct ModelGroups {
    pub breakdowns: Vec<ModelBreakdown>,
    pub sources: Vec<Vec<usize>>,
}

/// Token field `k` of a breakdown: input, output, cache creation, cache
/// read and extra tokens for `k` = 0, 1, 2, 3, 4.
pub open spec fn field(b: ModelBreakdown, k: int) -> int {
    if k == 0 {
        b.input_tokens as int
    } else if k == 1 {
        b.output_tokens as int
    } else if k == 2 {
        b.cache_creation_tokens as int
    } else if k == 3 {
        b.cache_read_tokens as int
    } else {
        b.extra_total_tokens as int
    }
}

/// The sum of token field `k` over all items.
pub open spec fn total_field(items: Seq<ModelBreakdown>, k: int) -> int
    decreases items.len(),
{
    if items.len() == 0 {
        0
    } else {
        total_field(items.drop_last(), k) + field(items.last(), k)
    }
}

/// The sum of token field `k` over the items named `name`.
pub open spec fn sum_field(items: Seq<ModelBreakdown>, name: Seq<char>, k: int) -> int
    decreases items.len(),
{
    if items.len() == 0 {
        0
    } else {
        sum_field(items.drop_last(), name, k) + if items.last().model_name@ == name {
            field(items.last(), k)
        } else {
            0
        }
    }
}

/// Some item named `name` is missing a price.
pub open spec fn any_missing(items: Seq<ModelBreakdown>, name: Seq<char>) -> bool
    decreases items.len(),
{
    if items.len() == 0 {
        false
    } else {
        any_missing(items.drop_last(), name) || (items.last().model_name@ == name
            && items.last().missing_pricing)
    }
}

/// The positions of the items named `name`, ascending.
pub open spec fn positions_of(items: Seq<ModelBreakdown>, name: Seq<char>) -> Seq<usize>
    decreases items.len(),
{
    if items.len() == 0 {
        Seq::empty()
    } else {
        let p = positions_of(items.drop_last(), name);
        if items.last().model_name@ == name {
            p.push((items.len() - 1) as usize)
        } else {
            p
        }
    }
}

/// The distinct model names of the items, in the order they first occur.
pub open spec fn names_in_order(items: Seq<ModelBreakdown>) -> Seq<Seq<char>>
    decreases items.len(),
{
    if items.len() == 0 {
        Seq::empty()
    } else {
        let p = names_in_order(items.drop_last());
        if p.contains(items.last().model_name@) {
            p
        } else {
            p.push(items.last().model_name@)
        }
    }
}

/// For no model name does a token field, summed over the items of that
/// name, exceed `u64::MAX`.
pub open spec fn name_totals_fit(items: Seq<ModelBreakdown>) -> bool {
    forall|name: Seq<char>, k: int| 0 <= k < 5 ==> #[trigger] sum_field(items, name, k) <= u64::MAX
}

/// `g` groups `items` by model name: one breakdown per distinct name, in
/// first-occurrence order, whose token fields are the sums over the items
/// of that name, which misses a price when one of them does, and whose
/// sources are the positions of those items.
pub open spec fn groups_of(items: Seq<ModelBreakdown>, g: ModelGroups) -> bool {
    let names = names_in_order(items);
    &&& g.breakdowns@.len() == names.len()
    &&& g.sources@.len() == names.len()
    &&& forall|i: int|
        #![trigger g.breakdowns@[i]]
        0 <= i < names.len() ==> {
            &&& g.breakdowns@[i].model_name@ == names[i]
            &&& g.breakdowns@[i].missing_pricing == any_missing(items, names[i])
            &&& forall|k: int|
                0 <= k < 5 ==> #[trigger] field(g.breakdowns@[i], k) == sum_field(
                    items,
                    names[i],
                    k,
                )
            &&& g.sources@[i]@ == positions_of(items, names[i])
        }
}

proof fn lemma_sum_prefix(items: Seq<ModelBreakdown>, i: int, name: Seq<char>, k: int)
    requires
        0 <= i <= items.len(),
    ensures
        0 <= sum_field(items.take(i), name, k) <= sum_field(items, name, k),
    decreases items.len(),
{
    if i < items.len() {
        assert(items.drop_last().take(i) =~= items.take(i));
        lemma_sum_prefix(items.drop_last(), i, name, k);
        assert(field(items.last(), k) >= 0);
    } else {
        assert(items.take(i) =~= items);
        lemma_sum_nonneg(items, name, k);
    }
}

proof fn lemma_sum_nonneg(items: Seq<ModelBreakdown>, name: Seq<char>, k: int)
    ensures
        0 <= sum_field(items, name, k),
    decreases items.len(),
{
    if items.len() > 0 {
        lemma_sum_nonneg(items.drop_last(), name, k);
    }
}

proof fn lemma_name_absent(items: Seq<ModelBreakdown>, name: Seq<char>)
    requires
        !names_in_order(items).contains(name),
    ensures
        forall|k: int| #[trigger] sum_field(items, name, k) == 0,
        !any_missing(items, name),
        positions_of(items, name) == Seq::<usize>::empty(),
    decreases items.len(),
{
    if items.len() > 0 {
        let p = names_in_order(items.drop_last());
        if p.contains(name) {
            if !p.contains(items.last().model_name@) {
                assert(names_in_order(items).contains(name)) by {
                    let j = choose|j: int| 0 <= j < p.len() && p[j] == name;
                    assert(names_in_order(items)[j] == name);
                }
            }
        }
        lemma_name_absent(items.drop_last(), name);
        if items.last().model_name@ == name {
            assert(names_in_order(items).contains(name)) by {
                if p.contains(name) {
                } else {
                    assert(names_in_order(items)[p.len() as int] == name);
                }
            }
        }
        assert forall|k: int| #[trigger] sum_field(items, name, k) == 0 by {
            assert(sum_field(items.drop_last(), name, k) == 0);
        }
    }
}

proof fn lemma_names_distinct(items: Seq<ModelBreakdown>)
    ensures
        names_in_order(items).no_duplicates(),
    decreases items.len(),
{
    if items.len() > 0 {
        lemma_names_distinct(items.drop_last());
    }
}

/// Copies one breakdown's name into a new breakdown with all counts zero.
fn empty_breakdown(name: &String) -> (r: ModelBreakdown)
    ensures
        r.model_name@ == name@,
        forall|k: int| 0 <= k < 5 ==> #[trigger] field(r, k) == 0,
        !r.missing_pricing,
{
    ModelBreakdown {
        model_name: name.clone(),
        input_tokens: 0,
        output_tokens: 0,
        cache_creation_tokens: 0,
        cache_read_tokens: 0,
        extra_total_tokens: 0,
        missing_pricing: false,
    }
}

/// Groups breakdowns by model name (see `groups_of`).
pub fn group_breakdowns(items: &Vec<ModelBreakdown>) -> (g: ModelGroups)
    requires
        name_totals_fit(items@),
    ensures
        groups_of(items@, g),
{
    let mut breakdowns: Vec<ModelBreakdown> = Vec::new();
    let mut sources: Vec<Vec<usize>> = Vec::new();
    let n = items.len();
    let mut i: usize = 0;
    while i < n
        invariant
            n == items@.len(),
            i <= n,
            name_totals_fit(items@),
            groups_of(items@.take(i as int), ModelGroups { breakdowns, sources }),
        decreases n - i,
    {
        let ghost pre = items@.take(i as int);
        let ghost cur = items@.take(i + 1);
        let item = &items[i];
        proof {
            assert(cur.drop_last() =~= pre);
            assert(cur.last() == *item);
            lemma_names_distinct(pre);
            assert forall|nm: Seq<char>, k: int| 0 <= k < 5 implies #[trigger] sum_field(cur, nm, k)
                <= u64::MAX by {
                lemma_sum_prefix(items@, i + 1, nm, k);
            }
        }
        let m = breakdowns.len();
        let mut g: usize = 0;
        while g < m && !breakdowns[g].model_name.eq(&item.model_name)
            invariant
                m == breakdowns@.len(),
                g <= m,
                groups_of(pre, ModelGroups { breakdowns, sources }),
                forall|j: int| 0 <= j < g ==> names_in_order(pre)[j] != item.model_name@,
            decreases m - g,
        {
            g = g + 1;
        }
        let ghost name = item.model_name@;
        if g == m {
            proof {
                assert(!names_in_order(pre).contains(name)) by {
                    if names_in_order(pre).contains(name) {
                        let j = choose|j: int|
                            0 <= j < names_in_order(pre).len() && names_in_order(pre)[j] == name;
                        assert(names_in_order(pre)[j] != item.model_name@);
                    }
                }
                lemma_name_absent(pre, name);
                assert(names_in_order(cur) == names_in_order(pre).push(name));
            }
            let mut b = empty_breakdown(&item.model_name);
            b.input_tokens = item.input_tokens;
            b.output_tokens = item.output_tokens;
            b.cache_creation_tokens = item.cache_creation_tokens;
            b.cache_read_tokens = item.cache_read_tokens;
            b.extra_total_tokens = item.extra_total_tokens;
            b.missing_pricing = item.missing_pricing;
            let mut src: Vec<usize> = Vec::new();
            src.push(i);
            let ghost old_b = breakdowns@;
            let ghost old_s = sources@;
            breakdowns.push(b);
            sources.push(src);
            assert(breakdowns@.len() == names_in_order(cur).len());
            assert(sources@.len() == names_in_order(cur).len());
            proof {
                let names = names_in_order(cur);
                assert forall|j: int|
                    #![trigger breakdowns@[j]]
                    0 <= j < names.len() implies {
                    &&& breakdowns@[j].model_name@ == names[j]
                    &&& breakdowns@[j].missing_pricing == any_missing(cur, names[j])
                    &&& forall|k: int|
                        0 <= k < 5 ==> #[trigger] field(breakdowns@[j], k) == sum_field(
                            cur,
                            names[j],
                            k,
                        )
                    &&& sources@[j]@ == positions_of(cur, names[j])
                } by {
                    if j < m {
                        assert(breakdowns@[j] == old_b[j]);
                        assert(names[j] == names_in_order(pre)[j]);
                        assert(names[j] != name);
                        assert forall|k: int|
                            0 <= k < 5 implies #[trigger] field(breakdowns@[j], k) == sum_field(
                            cur,
                            names[j],
                            k,
                        ) by {
                            assert(sum_field(cur, names[j], k) == sum_field(pre, names[j], k));
                        }
                    } else {
                        assert(positions_of(pre, name) == Seq::<usize>::empty());
                        assert(positions_of(cur, name) =~= seq![i]);
                        assert forall|k: int|
                            0 <= k < 5 implies #[trigger] field(breakdowns@[j], k) == sum_field(
                            cur,
                            names[j],
                            k,
                        ) by {
                            assert(sum_field(pre, name, k) == 0);
                            assert(sum_field(cur, name, k) == field(*item, k));
                        }
                    }
                }
            }
        } else {
            let ghost gi = g as int;
            proof {
                assert(names_in_order(pre)[gi] == name);
                assert(names_in_order(pre).contains(name));
                assert(names_in_order(cur) == names_in_order(pre));
                assert forall|k: int| 0 <= k < 5 implies sum_field(cur, name, k) <= u64::MAX by {
                    lemma_sum_nonneg(cur, name, k);
                }
                assert(field(breakdowns@[gi], 0) + field(*item, 0) == sum_field(cur, name, 0));
                assert(field(breakdowns@[gi], 1) + field(*item, 1) == sum_field(cur, name, 1));
                assert(field(breakdowns@[gi], 2) + field(*item, 2) == sum_field(cur, name, 2));
                assert(field(breakdowns@[gi], 3) + field(*item, 3) == sum_field(cur, name, 3));
                assert(field(breakdowns@[gi], 4) + field(*item, 4) == sum_field(cur, name, 4));
            }
            let ghost old_b = breakdowns@;
            let ghost old_s = sources@;
            let mut b = empty_breakdown(&breakdowns[g].model_name);
            b.input_tokens = breakdowns[g].input_tokens + item.input_tokens;
            b.output_tokens = breakdowns[g].output_tokens + item.output_tokens;
            b.cache_creation_tokens = breakdowns[g].cache_creation_tokens
                + item.cache_creation_tokens;
            b.cache_read_tokens = breakdowns[g].cache_read_tokens + item.cache_read_tokens;
            b.extra_total_tokens = breakdowns[g].extra_total_tokens + item.extra_total_tokens;
            b.missing_pricing = breakdowns[g].missing_pricing || item.missing_pricing;
            breakdowns.set(g, b);
            let mut src: Vec<usize> = Vec::new();
            let mut t: usize = 0;
            let sl = sources[g].len();
            while t < sl
                invariant
                    gi == g,
                    g < old_s.len(),
                    sl == old_s[gi]@.len(),
                    sources@ == old_s,
                    t <= sl,
                    src@ == old_s[gi]@.take(t as int),
                decreases sl - t,
            {
                src.push(sources[g][t]);
                t = t + 1;
                assert(src@ =~= old_s[gi]@.take(t as int));
            }
            assert(src@ =~= old_s[gi]@);
            src.push(i);
            sources.set(g, src);
            assert(breakdowns@.len() == names_in_order(cur).len());
            assert(sources@.len() == names_in_order(cur).len());
            proof {
                let names = names_in_order(cur);
                assert forall|j: int|
                    #![trigger breakdowns@[j]]
                    0 <= j < names.len() implies {
                    &&& breakdowns@[j].model_name@ == names[j]
                    &&& breakdowns@[j].missing_pricing == any_missing(cur, names[j])
                    &&& forall|k: int|
                        0 <= k < 5 ==> #[trigger] field(breakdowns@[j], k) == sum_field(
                            cur,
                            names[j],
                            k,
                        )
                    &&& sources@[j]@ == positions_of(cur, names[j])
                } by {
                    if j != gi {
                        assert(breakdowns@[j] == old_b[j]);
                        assert(names_in_order(pre).no_duplicates());
                        assert(names[j] != name);
                        assert forall|k: int|
                            0 <= k < 5 implies #[trigger] field(breakdowns@[j], k) == sum_field(
                            cur,
                            names[j],
                            k,
                        ) by {
                            assert(sum_field(cur, names[j], k) == sum_field(pre, names[j], k));
                        }
                    } else {
                        assert(positions_of(cur, name) == positions_of(pre, name).push(i as usize));
                        assert(any_missing(cur, name) == (any_missing(pre, name)
                            || item.missing_pricing));
                        assert forall|k: int|
                            0 <= k < 5 implies #[trigger] field(breakdowns@[j], k) == sum_field(
                            cur,
                            names[j],
                            k,
                        ) by {
                            if k == 0 {
                            } else if k == 1 {
                            } else if k == 2 {
                            } else if k == 3 {
                            } else {
                            }
                        }
                    }
                }
            }
        }
        assert(groups_of(cur, ModelGroups { breakdowns, sources }));
        i = i + 1;
    }
    assert(items@.take(n as int) =~= items@);
    ModelGroups { breakdowns, sources }
}

/// Merges two lists of breakdowns by model name (the items of `existing`
/// first, then those of `additional`); see `groups_of`.
pub fn merge_model_breakdowns(existing: Vec<ModelBreakdown>, additional: Vec<ModelBreakdown>) -> (g:
    ModelGroups)
    requires
        name_totals_fit(existing@ + additional@),
    ensures
        groups_of(existing@ + additional@, g),
{
    let mut all = existing;
    let mut more = additional;
    all.append(&mut more);
    group_breakdowns(&all)
}

/// The breakdown lists, one after another.
pub open spec fn flatten_breakdowns(lists: Seq<Vec<ModelBreakdown>>) -> Seq<ModelBreakdown>
    decreases lists.len(),
{
    if lists.len() == 0 {
        Seq::empty()
    } else {
        flatten_breakdowns(lists.drop_last()) + lists.last()@
    }
}

/// Groups by model name the breakdowns of several rows, row after row; see
/// `groups_of`.
pub fn aggregate_model_breakdowns(lists: Vec<Vec<ModelBreakdown>>) -> (g: ModelGroups)
    requires
        name_totals_fit(flatten_breakdowns(lists@)),
    ensures
        groups_of(flatten_breakdowns(lists@), g),
{
    let ghost ls = lists@;
    let mut all: Vec<ModelBreakdown> = Vec::new();
    for list in it: lists.into_iter()
        invariant
            ls == it.seq(),
            all@ == flatten_breakdowns(ls.take(it.index() as int)),
    {
        let mut list = list;
        let ghost k = it.index() as int;
        assert(ls.take(k + 1).drop_last() =~= ls.take(k));
        assert(ls.take(k + 1).last() == list);
        all.append(&mut list);
    }
    assert(ls.take(ls.len() as int) =~= ls);
    group_breakdowns(&all)
}

/// The sum of token field `k` over the items of each of the names.
pub open spec fn names_sum(items: Seq<ModelBreakdown>, names: Seq<Seq<char>>, k: int) -> int
    decreases names.len(),
{
    if names.len() == 0 {
        0
    } else {
        names_sum(items, names.drop_last(), k) + sum_field(items, names.last(), k)
    }
}

proof fn lemma_names_sum_push_item(
    pre: Seq<ModelBreakdown>,
    x: ModelBreakdown,
    names: Seq<Seq<char>>,
    k: int,
)
    requires
        names.no_duplicates(),
    ensures
        names_sum(pre.push(x), names, k) == names_sum(pre, names, k) + if names.contains(
            x.model_name@,
        ) {
            field(x, k)
        } else {
            0
        },
    decreases names.len(),
{
    let cur = pre.push(x);
    assert(cur.drop_last() =~= pre);
    if names.len() > 0 {
        let d = names.drop_last();
        assert(d.no_duplicates());
        lemma_names_sum_push_item(pre, x, d, k);
        if names.last() == x.model_name@ {
            assert(!d.contains(x.model_name@)) by {
                if d.contains(x.model_name@) {
                    let j = choose|j: int| 0 <= j < d.len() && d[j] == x.model_name@;
                    assert(names[j] == names[names.len() - 1]);
                }
            }
            assert(names.contains(x.model_name@)) by {
                assert(names[names.len() - 1] == x.model_name@);
            }
        } else {
            assert(names.contains(x.model_name@) == d.contains(x.model_name@)) by {
                if names.contains(x.model_name@) {
                    let j = choose|j: int| 0 <= j < names.len() && names[j] == x.model_name@;
                    assert(d[j] == x.model_name@);
                }
                if d.contains(x.model_name@) {
                    let j = choose|j: int| 0 <= j < d.len() && d[j] == x.model_name@;
                    assert(names[j] == x.model_name@);
                }
            }
        }
    }
}

proof fn lemma_names_sum_total(items: Seq<ModelBreakdown>, k: int)
    ensures
        names_sum(items, names_in_order(items), k) == total_field(items, k),
    decreases items.len(),
{
    if items.len() > 0 {
        let pre = items.drop_last();
        let x = items.last();
        assert(pre.push(x) =~= items);
        lemma_names_sum_total(pre, k);
        lemma_names_distinct(pre);
        lemma_names_sum_push_item(pre, x, names_in_order(pre), k);
        let np = names_in_order(pre);
        assert(items.drop_last() == pre);
        assert(total_field(items, k) == total_field(pre, k) + field(x, k));
        if !np.contains(x.model_name@) {
            lemma_name_absent(pre, x.model_name@);
            assert(sum_field(pre, x.model_name@, k) == 0);
            assert(sum_field(items, x.model_name@, k) == field(x, k));
            assert(names_in_order(items) == np.push(x.model_name@));
            assert(names_in_order(items).drop_last() =~= np);
            assert(names_in_order(items).last() == x.model_name@);
        } else {
            assert(names_in_order(items) == np);
        }
    }
}

/// Law: grouping loses no tokens and counts none twice: over all groups,
/// each token field sums to what it sums to over the items.
pub proof fn law_groups_keep_token_totals(items: Seq<ModelBreakdown>, g: ModelGroups, k: int)
    requires
        groups_of(items, g),
        0 <= k < 5,
    ensures
        total_field(g.breakdowns@, k) == total_field(items, k),
{
    let b = g.breakdowns@;
    let names = names_in_order(items);
    assert forall|j: int| 0 <= j <= b.len() implies total_field(#[trigger] b.take(j), k) == names_sum(
        items,
        names.take(j),
        k,
    ) by {
        lemma_prefix_sums(items, g, k, j);
    }
    assert(b.take(b.len() as int) =~= b);
    assert(names.take(names.len() as int) =~= names);
    lemma_names_sum_total(items, k);
}

proof fn lemma_prefix_sums(items: Seq<ModelBreakdown>, g: ModelGroups, k: int, j: int)
    requires
        groups_of(items, g),
        0 <= k < 5,
        0 <= j <= g.breakdowns@.len(),
    ensures
        total_field(g.breakdowns@.take(j), k) == names_sum(items, names_in_order(items).take(j), k),
    decreases j,
{
    let b = g.breakdowns@;
    let names = names_in_order(items);
    if j > 0 {
        lemma_prefix_sums(items, g, k, j - 1);
        assert(b.take(j).drop_last() =~= b.take(j - 1));
        assert(names.take(j).drop_last() =~= names.take(j - 1));
        assert(b.take(j).last() == b[j - 1]);
        assert(field(b[j - 1], k) == sum_field(items, names[j - 1], k));
    }
}

/// Law: each model name appears in one group only.
pub proof fn law_group_names_distinct(items: Seq<ModelBreakdown>, g: ModelGroups)
    requires
        groups_of(items, g),
    ensures
        forall|i: int, j: int|
            0 <= i < j < g.breakdowns@.len() ==> (#[trigger] g.breakdowns@[i]).model_name@
                != (#[trigger] g.breakdowns@[j]).model_name@,
{
    lemma_names_distinct(items);
}

/// The model names of some breakdowns, in order.
pub open spec fn model_names(b: Seq<ModelBreakdown>) -> Seq<Seq<char>> {
    b.map_values(|x: ModelBreakdown| x.model_name@)
}

proof fn lemma_distinct_names_in_order(b: Seq<ModelBreakdown>)
    requires
        forall|i: int, j: int|
            0 <= i < j < b.len() ==> (#[trigger] b[i]).model_name@ != (#[trigger] b[j]).model_name@,
    ensures
        names_in_order(b) == model_names(b),
    decreases b.len(),
{
    if b.len() > 0 {
        let d = b.drop_last();
        assert forall|i: int, j: int|
            0 <= i < j < d.len() implies (#[trigger] d[i]).model_name@ != (
            #[trigger] d[j]).model_name@ by {
            assert(d[i] == b[i] && d[j] == b[j]);
        }
        lemma_distinct_names_in_order(d);
        assert(!model_names(d).contains(b.last().model_name@)) by {
            if model_names(d).contains(b.last().model_name@) {
                let w = choose|w: int|
                    0 <= w < model_names(d).len() && model_names(d)[w] == b.last().model_name@;
                assert(b[w] == d[w]);
                assert(b[w].model_name@ != b[b.len() - 1].model_name@);
            }
        }
        assert(model_names(b) =~= model_names(d).push(b.last().model_name@));
    }
}

proof fn lemma_distinct_single(b: Seq<ModelBreakdown>, i: int, k: int)
    requires
        forall|x: int, y: int|
            0 <= x < y < b.len() ==> (#[trigger] b[x]).model_name@ != (#[trigger] b[y]).model_name@,
        0 <= i < b.len(),
        b.len() <= usize::MAX,
    ensures
        sum_field(b, b[i].model_name@, k) == field(b[i], k),
        any_missing(b, b[i].model_name@) == b[i].missing_pricing,
        positions_of(b, b[i].model_name@) == seq![i as usize],
    decreases b.len(),
{
    let d = b.drop_last();
    let name = b[i].model_name@;
    assert forall|x: int, y: int|
        0 <= x < y < d.len() implies (#[trigger] d[x]).model_name@ != (#[trigger] d[y]).model_name@ by {
        assert(d[x] == b[x] && d[y] == b[y]);
    }
    if i == b.len() - 1 {
        lemma_distinct_names_in_order(d);
        assert(!names_in_order(d).contains(name)) by {
            if names_in_order(d).contains(name) {
                let w = choose|w: int| 0 <= w < model_names(d).len() && model_names(d)[w] == name;
                assert(b[w] == d[w]);
            }
        }
        lemma_name_absent(d, name);
        assert(sum_field(d, name, k) == 0);
        assert(b.last() == b[i]);
        assert(positions_of(b, name) =~= seq![i as usize]);
    } else {
        assert(d[i] == b[i]);
        lemma_distinct_single(d, i, k);
        assert(b.last().model_name@ != name) by {
            assert(b[b.len() - 1] == b.last());
        }
    }
}

/// Law: grouping grouped breakdowns again changes nothing: each group
/// comes back with the same name, token counts and missing-price flag, at
/// the same place, made of itself alone.
pub proof fn law_regrouping_changes_nothing(items: Seq<ModelBreakdown>, g: ModelGroups, again: ModelGroups)
    requires
        groups_of(items, g),
        groups_of(g.breakdowns@, again),
    ensures
        again.breakdowns@.len() == g.breakdowns@.len(),
        forall|i: int|
            0 <= i < g.breakdowns@.len() ==> {
                &&& (#[trigger] again.breakdowns@[i]).model_name@ == g.breakdowns@[i].model_name@
                &&& again.breakdowns@[i].missing_pricing == g.breakdowns@[i].missing_pricing
                &&& forall|k: int|
                    0 <= k < 5 ==> #[trigger] field(again.breakdowns@[i], k) == field(
                        g.breakdowns@[i],
                        k,
                    )
                &&& again.sources@[i]@ == seq![i as usize]
            },
{
    let b = g.breakdowns@;
    assert(b.len() == g.breakdowns.len());
    law_group_names_distinct(items, g);
    lemma_distinct_names_in_order(b);
    assert forall|i: int| 0 <= i < b.len() implies {
        &&& (#[trigger] again.breakdowns@[i]).model_name@ == b[i].model_name@
        &&& again.breakdowns@[i].missing_pricing == b[i].missing_pricing
        &&& forall|k: int| 0 <= k < 5 ==> #[trigger] field(again.breakdowns@[i], k) == field(b[i], k)
        &&& again.sources@[i]@ == seq![i as usize]
    } by {
        assert(names_in_order(b)[i] == b[i].model_name@);
        lemma_distinct_single(b, i, 0);
        assert forall|k: int| 0 <= k < 5 implies #[trigger] field(again.breakdowns@[i], k) == field(
            b[i],
            k,
        ) by {
            lemma_distinct_single(b, i, k);
        }
    }
}

proof fn lemma_positions_of_bounds(items: Seq<ModelBreakdown>, name: Seq<char>)
    requires
        items.len() <= usize::MAX,
    ensures
        forall|a: int|
            0 <= a < positions_of(items, name).len() ==> (#[trigger] positions_of(items, name)[a])
                < items.len(),
        forall|a: int, b: int|
            0 <= a < b < positions_of(items, name).len() ==> (#[trigger] positions_of(items, name)[a])
                < (#[trigger] positions_of(items, name)[b]),
    decreases items.len(),
{
    if items.len() > 0 {
        let p = positions_of(items.drop_last(), name);
        lemma_positions_of_bounds(items.drop_last(), name);
        let q = positions_of(items, name);
        if items.last().model_name@ == name {
            assert(q == p.push((items.len() - 1) as usize));
            assert forall|a: int| 0 <= a < q.len() implies (#[trigger] q[a]) < items.len() by {
                if a < p.len() {
                    assert(q[a] == p[a]);
                }
            }
            assert forall|a: int, b: int| 0 <= a < b < q.len() implies (#[trigger] q[a]) < (
            #[trigger] q[b]) by {
                assert(q[a] == p[a]);
                if b < p.len() {
                    assert(q[b] == p[b]);
                }
            }
        }
    }
}

proof fn lemma_positions_of_contain(items: Seq<ModelBreakdown>, name: Seq<char>, i: int)
    requires
        0 <= i < items.len(),
        items.len() <= usize::MAX,
    ensures
        positions_of(items, name).contains(i as usize) <==> items[i].model_name@ == name,
    decreases items.len(),
{
    let d = items.drop_last();
    let q = positions_of(items, name);
    let p = positions_of(d, name);
    lemma_positions_of_bounds(d, name);
    if items.last().model_name@ == name {
        assert(q == p.push((items.len() - 1) as usize));
    } else {
        assert(q == p);
    }
    if i < items.len() - 1 {
        lemma_positions_of_contain(d, name, i);
        assert(d[i] == items[i]);
        if q.contains(i as usize) {
            let j = choose|j: int| 0 <= j < q.len() && q[j] == i as usize;
            if j < p.len() {
                assert(p[j] == q[j]);
            }
        }
        if p.contains(i as usize) {
            let j = choose|j: int| 0 <= j < p.len() && p[j] == i as usize;
            assert(q[j] == p[j]);
        }
    } else {
        assert(!p.contains(i as usize)) by {
            if p.contains(i as usize) {
                let j = choose|j: int| 0 <= j < p.len() && p[j] == i as usize;
                assert(p[j] < d.len());
            }
        }
        if items.last().model_name@ == name {
            assert(q[p.len() as int] == i as usize);
        }
        if q.contains(i as usize) {
            let j = choose|j: int| 0 <= j < q.len() && q[j] == i as usize;
            if j < p.len() {
                assert(p[j] == q[j]);
            }
        }
    }
}

proof fn lemma_name_listed(items: Seq<ModelBreakdown>, i: int)
    requires
        0 <= i < items.len(),
    ensures
        names_in_order(items).contains(items[i].model_name@),
    decreases items.len(),
{
    let d = items.drop_last();
    let p = names_in_order(d);
    if i < items.len() - 1 {
        lemma_name_listed(d, i);
        assert(d[i] == items[i]);
        let w = choose|w: int| 0 <= w < p.len() && p[w] == items[i].model_name@;
        assert(names_in_order(items)[w] == p[w]);
    } else if p.contains(items.last().model_name@) {
        let w = choose|w: int| 0 <= w < p.len() && p[w] == items.last().model_name@;
        assert(names_in_order(items)[w] == p[w]);
    } else {
        assert(names_in_order(items)[p.len() as int] == items.last().model_name@);
    }
}

/// Law: every position of the items lies in the sources of exactly one
/// group, the group of its model name; a group's sources are positions of
/// the items, in increasing order, each once. So a group's sources hold
/// all the positions of the items with its name, as many as there are.
pub proof fn law_group_sources_hold_each_position_once(
    items: Seq<ModelBreakdown>,
    g: ModelGroups,
    p: int,
)
    requires
        groups_of(items, g),
        items.len() <= usize::MAX,
        0 <= p < items.len(),
    ensures
        exists|i: int| 0 <= i < g.sources@.len() && (#[trigger] g.sources@[i])@.contains(p as usize),
        forall|i: int|
            0 <= i < g.sources@.len() ==> ((#[trigger] g.sources@[i])@.contains(p as usize)
                <==> g.breakdowns@[i].model_name@ == items[p].model_name@),
        forall|i: int, a: int|
            0 <= i < g.sources@.len() && 0 <= a < g.sources@[i]@.len() ==> (
            #[trigger] g.sources@[i]@[a]) < items.len(),
        forall|i: int, a: int, b: int|
            0 <= i < g.sources@.len() && 0 <= a < b < g.sources@[i]@.len() ==> (
            #[trigger] g.sources@[i]@[a]) < (#[trigger] g.sources@[i]@[b]),
{
    let names = names_in_order(items);
    assert forall|i: int|
        0 <= i < g.sources@.len() implies ((#[trigger] g.sources@[i])@.contains(p as usize)
        <==> g.breakdowns@[i].model_name@ == items[p].model_name@) by {
        assert(g.breakdowns@[i].model_name@ == names[i]);
        lemma_positions_of_contain(items, names[i], p);
    }
    lemma_name_listed(items, p);
    let w = choose|w: int| 0 <= w < names.len() && names[w] == items[p].model_name@;
    assert(g.breakdowns@[w].model_name@ == names[w]);
    assert(g.sources@[w]@.contains(p as usize));
    assert forall|i: int, a: int|
        0 <= i < g.sources@.len() && 0 <= a < g.sources@[i]@.len() implies (
        #[trigger] g.sources@[i]@[a]) < items.len() by {
        assert(g.breakdowns@[i].model_name@ == names[i]);
        lemma_positions_of_bounds(items, names[i]);
    }
    assert forall|i: int, a: int, b: int|
        0 <= i < g.sources@.len() && 0 <= a < b < g.sources@[i]@.len() implies (
        #[trigger] g.sources@[i]@[a]) < (#[trigger] g.sources@[i]@[b]) by {
        assert(g.breakdowns@[i].model_name@ == names[i]);
        lemma_positions_of_bounds(items, names[i]);
    }
}

} // verus!
