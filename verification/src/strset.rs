//! Ordered sets of strings, kept as strictly increasing vectors (the order
//! of `str`: lexicographic by code point).
//!
//! These stand where a `BTreeSet<String>` or a `BTreeMap<String, _>` would:
//! vstd specifies no ordered std collection by `String` keys, so the
//! invariant (`strictly_sorted`) is kept and proved here, and iteration in
//! key order is the vector's order.
use vstd::prelude::*;

verus! {

/// `a` comes before `b` in the order of `str`: lexicographically by code
/// point, a proper prefix first.
pub open spec fn str_lt(a: Seq<char>, b: Seq<char>) -> bool
    decreases a.len(),
{
    if a.len() == 0 {
        b.len() > 0
    } else if b.len() == 0 {
        false
    } else if (a[0] as int) < (b[0] as int) {
        true
    } else if a[0] == b[0] {
        str_lt(a.drop_first(), b.drop_first())
    } else {
        false
    }
}

/// The strings are strictly increasing, so also pairwise distinct.
pub open spec fn strictly_sorted(s: Seq<Seq<char>>) -> bool {
    forall|i: int, j: int| 0 <= i < j < s.len() ==> str_lt(#[trigger] s[i], #[trigger] s[j])
}

/// The values of a sequence of strings.
pub open spec fn views(v: Seq<String>) -> Seq<Seq<char>> {
    v.map_values(|s: String| s@)
}

/// `r` is the ordered set of the values in `s`: strictly increasing, with
/// the same values as `s`.
pub open spec fn ordered_set_of(r: Seq<Seq<char>>, s: Set<Seq<char>>) -> bool {
    &&& strictly_sorted(r)
    &&& r.to_set() == s
}

pub(crate) proof fn lemma_str_lt_irreflexive(a: Seq<char>)
    ensures
        !str_lt(a, a),
    decreases a.len(),
{
    if a.len() > 0 {
        lemma_str_lt_irreflexive(a.drop_first());
    }
}

proof fn lemma_str_lt_transitive(a: Seq<char>, b: Seq<char>, c: Seq<char>)
    requires
        str_lt(a, b),
        str_lt(b, c),
    ensures
        str_lt(a, c),
    decreases a.len(),
{
    if a.len() > 0 && b.len() > 0 && c.len() > 0 {
        if a[0] == b[0] && b[0] == c[0] {
            lemma_str_lt_transitive(a.drop_first(), b.drop_first(), c.drop_first());
        }
    }
}

proof fn lemma_str_lt_total(a: Seq<char>, b: Seq<char>)
    ensures
        str_lt(a, b) || str_lt(b, a) || a == b,
    decreases a.len(),
{
    if a.len() > 0 && b.len() > 0 {
        if a[0] == b[0] {
            lemma_str_lt_total(a.drop_first(), b.drop_first());
            if a.drop_first() == b.drop_first() {
                assert(a =~= seq![a[0]] + a.drop_first());
                assert(b =~= seq![b[0]] + b.drop_first());
            }
        } else {
            assert((a[0] as int) != (b[0] as int));
        }
    } else if a.len() == 0 && b.len() == 0 {
        assert(a =~= b);
    }
}

/// Whether `a` comes before `b` in the order of `str`.
pub fn string_less(a: &str, b: &str) -> (r: bool)
    ensures
        r == str_lt(a@, b@),
{
    let na = a.unicode_len();
    let nb = b.unicode_len();
    let mut i: usize = 0;
    while i < na && i < nb && a.get_char(i) == b.get_char(i)
        invariant
            na == a@.len(),
            nb == b@.len(),
            i <= na,
            i <= nb,
            a@.subrange(0, i as int) == b@.subrange(0, i as int),
        decreases na - i,
    {
        assert(a@.subrange(0, i + 1) =~= a@.subrange(0, i as int).push(a@[i as int]));
        assert(b@.subrange(0, i + 1) =~= b@.subrange(0, i as int).push(b@[i as int]));
        i = i + 1;
    }
    proof {
        lemma_str_lt_common_prefix(a@, b@, i as int);
    }
    if i == na {
        i < nb
    } else if i == nb {
        false
    } else {
        a.get_char(i) < b.get_char(i)
    }
}

proof fn lemma_str_lt_common_prefix(a: Seq<char>, b: Seq<char>, i: int)
    requires
        0 <= i <= a.len(),
        i <= b.len(),
        a.subrange(0, i) == b.subrange(0, i),
    ensures
        str_lt(a, b) == str_lt(a.subrange(i, a.len() as int), b.subrange(i, b.len() as int)),
    decreases i,
{
    if i == 0 {
        assert(a.subrange(0, a.len() as int) =~= a);
        assert(b.subrange(0, b.len() as int) =~= b);
    } else {
        assert(a[0] == a.subrange(0, i)[0]);
        assert(b[0] == b.subrange(0, i)[0]);
        assert(a.drop_first().subrange(0, i - 1) =~= a.subrange(0, i).drop_first());
        assert(b.drop_first().subrange(0, i - 1) =~= b.subrange(0, i).drop_first());
        lemma_str_lt_common_prefix(a.drop_first(), b.drop_first(), i - 1);
        assert(a.drop_first().subrange(i - 1, a.len() - 1) =~= a.subrange(i, a.len() as int));
        assert(b.drop_first().subrange(i - 1, b.len() - 1) =~= b.subrange(i, b.len() as int));
    }
}

/// Adds `x` to the ordered set `set` (nothing changes when it is there).
pub fn insert_ordered(set: &mut Vec<String>, x: String)
    requires
        strictly_sorted(views(old(set)@)),
    ensures
        strictly_sorted(views(final(set)@)),
        views(final(set)@).to_set() == views(old(set)@).to_set().insert(x@),
{
    let n = set.len();
    let mut i: usize = 0;
    while i < n && string_less(set[i].as_str(), x.as_str())
        invariant
            n == set@.len(),
            i <= n,
            strictly_sorted(views(set@)),
            forall|j: int| 0 <= j < i ==> str_lt(#[trigger] views(set@)[j], x@),
        decreases n - i,
    {
        i = i + 1;
    }
    let ghost v = views(set@);
    if i < n && set[i].eq(&x) {
        assert(v[i as int] == x@);
        assert(v.to_set().insert(x@) =~= v.to_set()) by {
            assert(v.to_set().contains(x@)) by {
                assert(v.contains(x@));
            }
        }
        return;
    }
    proof {
        if i < n {
            lemma_str_lt_total(v[i as int], x@);
            assert(str_lt(x@, v[i as int]));
        }
    }
    set.insert(i, x);
    proof {
        let w = views(set@);
        assert(w =~= v.insert(i as int, x@));
        assert forall|a: int, b: int| 0 <= a < b < w.len() implies str_lt(
            #[trigger] w[a],
            #[trigger] w[b],
        ) by {
            if b < i {
                assert(w[a] == v[a] && w[b] == v[b]);
            } else if b == i {
                assert(w[a] == v[a]);
            } else if a < i {
                assert(w[a] == v[a] && w[b] == v[b - 1]);
                assert(str_lt(v[a], x@));
                if i < n {
                    if b - 1 > i {
                        assert(str_lt(v[i as int], v[b - 1]));
                        lemma_str_lt_transitive(x@, v[i as int], v[b - 1]);
                    }
                    lemma_str_lt_transitive(v[a], x@, v[b - 1]);
                }
            } else if a == i {
                assert(w[b] == v[b - 1]);
                if b - 1 > i {
                    assert(str_lt(v[i as int], v[b - 1]));
                    lemma_str_lt_transitive(x@, v[i as int], v[b - 1]);
                }
            } else {
                assert(w[a] == v[a - 1] && w[b] == v[b - 1]);
            }
        }
        assert(w.to_set() =~= v.to_set().insert(x@)) by {
            assert forall|y: Seq<char>| w.to_set().contains(y) implies v.to_set().insert(
                x@,
            ).contains(y) by {
                let k = choose|k: int| 0 <= k < w.len() && w[k] == y;
                if k < i {
                    assert(v[k] == y);
                } else if k > i {
                    assert(v[k - 1] == y);
                }
            }
            assert forall|y: Seq<char>| v.to_set().insert(x@).contains(y) implies w.to_set().contains(
                y,
            ) by {
                if y == x@ {
                    assert(w[i as int] == y);
                } else {
                    let k = choose|k: int| 0 <= k < v.len() && v[k] == y;
                    if k < i {
                        assert(w[k] == y);
                    } else {
                        assert(w[k + 1] == y);
                    }
                }
            }
        }
    }
}

/// The ordered set of the given strings.
pub fn ordered_set(items: Vec<String>) -> (r: Vec<String>)
    ensures
        ordered_set_of(views(r@), views(items@).to_set()),
{
    let ghost s = items@;
    let mut r: Vec<String> = Vec::new();
    for x in it: items.into_iter()
        invariant
            s == it.seq(),
            strictly_sorted(views(r@)),
            views(r@).to_set() == views(s.take(it.index() as int)).to_set(),
    {
        let ghost k = it.index() as int;
        insert_ordered(&mut r, x);
        assert(views(s.take(k + 1)) =~= views(s.take(k)).push(x@));
        assert(views(s.take(k)).push(x@).to_set() =~= views(s.take(k)).to_set().insert(x@)) by {
            let a = views(s.take(k));
            assert forall|y: Seq<char>| a.push(x@).to_set().contains(y) implies a.to_set().insert(
                x@,
            ).contains(y) by {
                let j = choose|j: int| 0 <= j < a.push(x@).len() && a.push(x@)[j] == y;
                if j < a.len() {
                    assert(a[j] == y);
                }
            }
            assert forall|y: Seq<char>| a.to_set().insert(x@).contains(y) implies a.push(
                x@,
            ).to_set().contains(y) by {
                if y == x@ {
                    assert(a.push(x@)[a.len() as int] == y);
                } else {
                    let j = choose|j: int| 0 <= j < a.len() && a[j] == y;
                    assert(a.push(x@)[j] == y);
                }
            }
        }
    }
    assert(s.take(s.len() as int) =~= s);
    r
}

/// The ordered union of an ordered set and some more strings.
pub fn ordered_union(set: Vec<String>, more: Vec<String>) -> (r: Vec<String>)
    requires
        strictly_sorted(views(set@)),
    ensures
        ordered_set_of(views(r@), views(set@).to_set() + views(more@).to_set()),
{
    let ghost s0 = views(set@).to_set();
    let ghost m = more@;
    let mut r = set;
    for x in it: more.into_iter()
        invariant
            m == it.seq(),
            strictly_sorted(views(r@)),
            views(r@).to_set() == s0 + views(m.take(it.index() as int)).to_set(),
    {
        let ghost k = it.index() as int;
        insert_ordered(&mut r, x);
        assert(views(m.take(k + 1)) =~= views(m.take(k)).push(x@));
        proof {
            let a = views(m.take(k));
            assert forall|y: Seq<char>| (s0 + a.to_set()).insert(x@).contains(y) == (s0 + a.push(
                x@,
            ).to_set()).contains(y) by {
                if a.push(x@).to_set().contains(y) {
                    let j = choose|j: int| 0 <= j < a.push(x@).len() && a.push(x@)[j] == y;
                    if j < a.len() {
                        assert(a[j] == y);
                    }
                }
                if a.to_set().contains(y) {
                    let j = choose|j: int| 0 <= j < a.len() && a[j] == y;
                    assert(a.push(x@)[j] == y);
                }
                if y == x@ {
                    assert(a.push(x@)[a.len() as int] == y);
                }
            }
            assert((s0 + a.to_set()).insert(x@) =~= s0 + a.push(x@).to_set());
        }
    }
    assert(m.take(m.len() as int) =~= m);
    r
}

/// The positions in `keys` that hold `k`, ascending.
pub open spec fn positions_eq(keys: Seq<Seq<char>>, k: Seq<char>) -> Seq<usize>
    decreases keys.len(),
{
    if keys.len() == 0 {
        Seq::empty()
    } else {
        let p = positions_eq(keys.drop_last(), k);
        if keys.last() == k {
            p.push((keys.len() - 1) as usize)
        } else {
            p
        }
    }
}

/// The positions of the items that share one key.
#[derive(Clone, Debug)]
pub struct KeyGroup {
    pub key: String,
    pub members: Vec<usize>,
}

/// The keys of some groups.
pub open spec fn group_keys(g: Seq<KeyGroup>) -> Seq<Seq<char>> {
    g.map_values(|x: KeyGroup| x.key@)
}

/// `g` groups the positions of `keys` by key, in key order: one group per
/// distinct key, in increasing key order, holding the positions of that key
/// in ascending order.
pub open spec fn ordered_groups_of(keys: Seq<Seq<char>>, g: Seq<KeyGroup>) -> bool {
    &&& ordered_set_of(group_keys(g), keys.to_set())
    &&& forall|i: int| 0 <= i < g.len() ==> (#[trigger] g[i]).members@ == positions_eq(keys, g[i].key@)
}

proof fn lemma_positions_absent(keys: Seq<Seq<char>>, k: Seq<char>)
    requires
        !keys.contains(k),
    ensures
        positions_eq(keys, k) == Seq::<usize>::empty(),
    decreases keys.len(),
{
    if keys.len() > 0 {
        assert(!keys.drop_last().contains(k)) by {
            if keys.drop_last().contains(k) {
                let j = choose|j: int| 0 <= j < keys.drop_last().len() && keys.drop_last()[j] == k;
                assert(keys[j] == k);
            }
        }
        assert(keys.last() != k) by {
            if keys.last() == k {
                assert(keys[keys.len() - 1] == k);
            }
        }
        lemma_positions_absent(keys.drop_last(), k);
    }
}

proof fn lemma_to_set_push(a: Seq<Seq<char>>, x: Seq<char>)
    ensures
        a.push(x).to_set() == a.to_set().insert(x),
{
    assert forall|y: Seq<char>| a.push(x).to_set().contains(y) == a.to_set().insert(x).contains(
        y,
    ) by {
        if a.push(x).to_set().contains(y) {
            let j = choose|j: int| 0 <= j < a.push(x).len() && a.push(x)[j] == y;
            if j < a.len() {
                assert(a[j] == y);
            }
        }
        if a.to_set().contains(y) {
            let j = choose|j: int| 0 <= j < a.len() && a[j] == y;
            assert(a.push(x)[j] == y);
        }
        if y == x {
            assert(a.push(x)[a.len() as int] == y);
        }
    }
    assert(a.push(x).to_set() =~= a.to_set().insert(x));
}

/// Groups the positions of `keys` by key, in key order (see
/// `ordered_groups_of`).
pub fn group_by_key(keys: &Vec<String>) -> (r: Vec<KeyGroup>)
    ensures
        ordered_groups_of(views(keys@), r@),
{
    let ghost ks = views(keys@);
    let mut groups: Vec<KeyGroup> = Vec::new();
    let n = keys.len();
    let mut i: usize = 0;
    assert(ks.take(0).to_set() =~= Set::<Seq<char>>::empty());
    assert(group_keys(groups@).to_set() =~= Set::<Seq<char>>::empty());
    while i < n
        invariant
            n == keys@.len(),
            ks == views(keys@),
            i <= n,
            ordered_groups_of(ks.take(i as int), groups@),
        decreases n - i,
    {
        let ghost pre = ks.take(i as int);
        let ghost cur = ks.take(i + 1);
        let ghost x = keys@[i as int]@;
        proof {
            assert(cur =~= pre.push(x));
            lemma_to_set_push(pre, x);
        }
        let m = groups.len();
        let mut g: usize = 0;
        while g < m && string_less(groups[g].key.as_str(), keys[i].as_str())
            invariant
                m == groups@.len(),
                g <= m,
                i < n,
                n == keys@.len(),
                x == keys@[i as int]@,
                ordered_groups_of(pre, groups@),
                forall|j: int| 0 <= j < g ==> str_lt(#[trigger] group_keys(groups@)[j], x),
            decreases m - g,
        {
            assert(group_keys(groups@)[g as int] == groups@[g as int].key@);
            g = g + 1;
        }
        let ghost gk = group_keys(groups@);
        let ghost old_g = groups@;
        if g < m && groups[g].key.eq(&keys[i]) {
            let ghost gi = g as int;
            assert(gk[gi] == x);
            let mut members: Vec<usize> = Vec::new();
            let mut t: usize = 0;
            let sl = groups[g].members.len();
            while t < sl
                invariant
                    gi == g,
                    g < m,
                    m == groups@.len(),
                    groups@ == old_g,
                    sl == old_g[gi].members@.len(),
                    t <= sl,
                    members@ == old_g[gi].members@.take(t as int),
                decreases sl - t,
            {
                members.push(groups[g].members[t]);
                t = t + 1;
                assert(members@ =~= old_g[gi].members@.take(t as int));
            }
            assert(members@ =~= old_g[gi].members@);
            members.push(i);
            let key = keys[i].clone();
            groups.set(g, KeyGroup { key, members });
            proof {
                assert(gk.contains(x));
                assert(pre.to_set().insert(x) =~= pre.to_set());
                assert(group_keys(groups@) =~= gk);
                assert forall|j: int| 0 <= j < groups@.len() implies (#[trigger] groups@[j]).members@
                    == positions_eq(cur, groups@[j].key@) by {
                    assert(cur.drop_last() =~= pre);
                    if j != gi {
                        assert(groups@[j] == old_g[j]);
                        assert(str_lt(gk[j], gk[gi]) || str_lt(gk[gi], gk[j]));
                        if gk[j] == x {
                            if j < gi {
                                lemma_str_lt_irreflexive(x);
                            } else {
                                lemma_str_lt_irreflexive(x);
                            }
                        }
                    }
                }
            }
        } else {
            proof {
                if g < m {
                    lemma_str_lt_total(gk[g as int], x);
                    assert(str_lt(x, gk[g as int]));
                }
                assert(!pre.contains(x)) by {
                    if pre.contains(x) {
                        assert(pre.to_set().contains(x));
                        assert(gk.to_set().contains(x));
                        let j = choose|j: int| 0 <= j < gk.len() && gk[j] == x;
                        if j < g {
                            lemma_str_lt_irreflexive(x);
                        } else if j == g {
                            lemma_str_lt_irreflexive(x);
                        } else {
                            assert(str_lt(gk[g as int], gk[j]));
                            lemma_str_lt_transitive(x, gk[g as int], gk[j]);
                            lemma_str_lt_irreflexive(x);
                        }
                    }
                }
                lemma_positions_absent(pre, x);
            }
            let mut members: Vec<usize> = Vec::new();
            members.push(i);
            let key = keys[i].clone();
            groups.insert(g, KeyGroup { key, members });
            proof {
                let w = group_keys(groups@);
                assert(w =~= gk.insert(g as int, x));
                assert forall|a: int, b: int| 0 <= a < b < w.len() implies str_lt(
                    #[trigger] w[a],
                    #[trigger] w[b],
                ) by {
                    if b < g {
                        assert(w[a] == gk[a] && w[b] == gk[b]);
                    } else if b == g {
                        assert(w[a] == gk[a]);
                    } else if a < g {
                        assert(w[a] == gk[a] && w[b] == gk[b - 1]);
                        if b - 1 > g {
                            assert(str_lt(gk[g as int], gk[b - 1]));
                            lemma_str_lt_transitive(x, gk[g as int], gk[b - 1]);
                        }
                        lemma_str_lt_transitive(gk[a], x, gk[b - 1]);
                    } else if a == g {
                        assert(w[b] == gk[b - 1]);
                        if b - 1 > g {
                            assert(str_lt(gk[g as int], gk[b - 1]));
                            lemma_str_lt_transitive(x, gk[g as int], gk[b - 1]);
                        }
                    } else {
                        assert(w[a] == gk[a - 1] && w[b] == gk[b - 1]);
                    }
                }
                assert(w.to_set() =~= gk.to_set().insert(x)) by {
                    assert forall|y: Seq<char>| w.to_set().contains(y) implies gk.to_set().insert(
                        x,
                    ).contains(y) by {
                        let k = choose|k: int| 0 <= k < w.len() && w[k] == y;
                        if k < g {
                            assert(gk[k] == y);
                        } else if k > g {
                            assert(gk[k - 1] == y);
                        }
                    }
                    assert forall|y: Seq<char>| gk.to_set().insert(x).contains(y) implies w.to_set().contains(
                        y,
                    ) by {
                        if y == x {
                            assert(w[g as int] == y);
                        } else {
                            let k = choose|k: int| 0 <= k < gk.len() && gk[k] == y;
                            if k < g {
                                assert(w[k] == y);
                            } else {
                                assert(w[k + 1] == y);
                            }
                        }
                    }
                }
                assert forall|j: int| 0 <= j < groups@.len() implies (#[trigger] groups@[j]).members@
                    == positions_eq(cur, groups@[j].key@) by {
                    assert(cur.drop_last() =~= pre);
                    if j < g {
                        assert(groups@[j] == old_g[j]);
                        assert(w[j] == gk[j]);
                        assert(gk[j] != x) by {
                            lemma_str_lt_irreflexive(x);
                        }
                    } else if j == g {
                        assert(positions_eq(cur, x) =~= seq![i]);
                    } else {
                        assert(groups@[j] == old_g[j - 1]);
                        assert(w[j] == gk[j - 1]);
                        assert(gk[j - 1] != x) by {
                            if gk[j - 1] == x {
                                assert(pre.to_set().contains(x));
                                assert(pre.contains(x));
                            }
                        }
                    }
                }
            }
        }
        i = i + 1;
    }
    assert(ks.take(n as int) =~= ks);
    groups
}

proof fn lemma_positions_below(keys: Seq<Seq<char>>, k: Seq<char>)
    requires
        keys.len() <= usize::MAX,
    ensures
        forall|j: int|
            0 <= j < positions_eq(keys, k).len() ==> (#[trigger] positions_eq(keys, k)[j]) < keys.len(),
    decreases keys.len(),
{
    if keys.len() > 0 {
        let p = positions_eq(keys.drop_last(), k);
        lemma_positions_below(keys.drop_last(), k);
        assert forall|j: int|
            0 <= j < positions_eq(keys, k).len() implies (#[trigger] positions_eq(keys, k)[j])
            < keys.len() by {
            if j < p.len() {
                assert(positions_eq(keys, k)[j] == p[j]);
            }
        }
    }
}

proof fn lemma_positions_contain(keys: Seq<Seq<char>>, k: Seq<char>, i: int)
    requires
        0 <= i < keys.len(),
        keys.len() <= usize::MAX,
    ensures
        positions_eq(keys, k).contains(i as usize) <==> keys[i] == k,
    decreases keys.len(),
{
    let q = positions_eq(keys, k);
    let p = positions_eq(keys.drop_last(), k);
    let last = (keys.len() - 1) as usize;
    lemma_positions_below(keys.drop_last(), k);
    if keys.last() == k {
        assert(q == p.push(last));
    } else {
        assert(q == p);
    }
    if i < keys.len() - 1 {
        lemma_positions_contain(keys.drop_last(), k, i);
        assert(keys.drop_last()[i] == keys[i]);
        if q.contains(i as usize) {
            let j = choose|j: int| 0 <= j < q.len() && q[j] == i as usize;
            if j < p.len() {
                assert(p[j] == q[j]);
            }
        }
        if p.contains(i as usize) {
            let j = choose|j: int| 0 <= j < p.len() && p[j] == i as usize;
            assert(q[j] == p[j]);
        }
    } else {
        assert(!p.contains(i as usize)) by {
            if p.contains(i as usize) {
                let j = choose|j: int| 0 <= j < p.len() && p[j] == i as usize;
                assert(p[j] < keys.len() - 1);
            }
        }
        if keys.last() == k {
            assert(q[p.len() as int] == i as usize);
        }
        if q.contains(i as usize) {
            let j = choose|j: int| 0 <= j < q.len() && q[j] == i as usize;
            if j < p.len() {
                assert(p[j] == q[j]);
            }
        }
    }
}

/// Grouping loses and repeats no position: each position of `keys` is in
/// exactly one group, the group of its key.
pub proof fn law_each_position_in_one_group(keys: Seq<Seq<char>>, g: Seq<KeyGroup>, i: int)
    requires
        ordered_groups_of(keys, g),
        0 <= i < keys.len(),
        keys.len() <= usize::MAX,
    ensures
        exists|j: int| 0 <= j < g.len() && (#[trigger] g[j]).members@.contains(i as usize),
        forall|j: int|
            0 <= j < g.len() ==> ((#[trigger] g[j]).members@.contains(i as usize) <==> g[j].key@
                == keys[i]),
        forall|a: int, b: int|
            0 <= a < g.len() && 0 <= b < g.len() && (#[trigger] g[a]).members@.contains(i as usize)
                && (#[trigger] g[b]).members@.contains(i as usize) ==> a == b,
{
    let gk = group_keys(g);
    assert forall|j: int| 0 <= j < g.len() implies ((#[trigger] g[j]).members@.contains(
        i as usize,
    ) <==> g[j].key@ == keys[i]) by {
        lemma_positions_contain(keys, g[j].key@, i);
    }
    assert(keys.to_set().contains(keys[i]));
    assert(gk.to_set().contains(keys[i]));
    let j = choose|j: int| 0 <= j < gk.len() && gk[j] == keys[i];
    assert(g[j].key@ == gk[j]);
    assert(g[j].members@.contains(i as usize));
    assert forall|a: int, b: int|
        0 <= a < g.len() && 0 <= b < g.len() && (#[trigger] g[a]).members@.contains(i as usize)
            && (#[trigger] g[b]).members@.contains(i as usize) implies a == b by {
        assert(gk[a] == g[a].key@ && gk[b] == g[b].key@);
        if a < b {
            lemma_str_lt_irreflexive(gk[a]);
        } else if b < a {
            lemma_str_lt_irreflexive(gk[b]);
        }
    }
}

} // verus!
