//! Loading of pi-agent session records: first-wins de-duplication across
//! session files, then a stable ordering by timestamp.
//!
//! The keys seen so far are kept in a `Vec` searched linearly, not in a
//! `HashSet`: the keys hold `String`s, and vstd's specification of hash
//! collections proves nothing of lookups by such keys, so a set of them
//! would leave "a key is kept once" unprovable. The `Vec` keeps the same
//! keys with the invariant `dedupe_state`.
use vstd::prelude::*;
use std::collections::VecDeque;
use crate::strset::views;

verus! {

/// One usage record read from a pi session file.
#[derive(Clone, Debug)]
pub struct PiEntry {
    /// Time of the record, in milliseconds since the Unix epoch.
    pub timestamp: i64,
    /// The message id the record carries, if any.
    pub message_id: Option<String>,
    /// The record's id within its store, as the session reader derives it
    /// (used to recognise copies of records that carry no message id). For
    /// a named pi-format store the reader derives it from the store's name
    /// and the record, so that records of different stores never share it;
    /// the loader compares it as given.
    pub entry_id: String,
    /// The provider named by the record, if any.
    pub provider: Option<String>,
    /// The model named by the record, if any.
    pub model: Option<String>,
    pub input_tokens: u64,
    pub output_tokens: u64,
    pub cache_creation_tokens: u64,
    pub cache_read_tokens: u64,
    /// Tokens counted on top of the four usage fields.
    pub extra_total_tokens: u64,
}

/// The key by which copies of one record are recognised.
#[derive(Clone, Debug)]
pub enum PiDedupeKey {
    /// Records with a message id are the same when their ids are.
    Message(String),
    /// Records without one are the same when entry id and provider are.
    Legacy { entry: String, provider: Option<String> },
}

/// The mathematical value of a `PiDedupeKey`.
pub enum PiDedupeKeyView {
    Message(Seq<char>),
    Legacy(Seq<char>, Option<Seq<char>>),
}

pub open spec fn opt_string_view(o: Option<String>) -> Option<Seq<char>> {
    match o {
        Some(s) => Some(s@),
        None => None,
    }
}

impl View for PiDedupeKey {
    type V = PiDedupeKeyView;

    open spec fn view(&self) -> PiDedupeKeyView {
        match self {
            PiDedupeKey::Message(m) => PiDedupeKeyView::Message(m@),
            PiDedupeKey::Legacy { entry, provider } => PiDedupeKeyView::Legacy(
                entry@,
                opt_string_view(*provider),
            ),
        }
    }
}

/// The key of a record: its message id when it has one, otherwise its entry
/// id together with its provider.
pub open spec fn entry_key(e: PiEntry) -> PiDedupeKeyView {
    match e.message_id {
        Some(m) => PiDedupeKeyView::Message(m@),
        None => PiDedupeKeyView::Legacy(e.entry_id@, opt_string_view(e.provider)),
    }
}

/// Some record of `s` has the key `k`.
pub open spec fn key_seen(s: Seq<PiEntry>, k: PiDedupeKeyView) -> bool {
    exists|j: int| 0 <= j < s.len() && entry_key(#[trigger] s[j]) == k
}

/// The records of `s` whose key no earlier record of `s` has, in their
/// order in `s`: of several copies, the first one read is kept.
pub open spec fn first_wins(s: Seq<PiEntry>) -> Seq<PiEntry>
    decreases s.len(),
{
    if s.len() == 0 {
        Seq::empty()
    } else {
        let p = s.drop_last();
        if key_seen(p, entry_key(s.last())) {
            first_wins(p)
        } else {
            first_wins(p).push(s.last())
        }
    }
}

pub fn clone_opt_string(o: &Option<String>) -> (r: Option<String>)
    ensures
        opt_string_view(r) == opt_string_view(*o),
{
    match o {
        Some(s) => Some(s.clone()),
        None => None,
    }
}

pub(crate) fn opt_string_eq(a: &Option<String>, b: &Option<String>) -> (r: bool)
    ensures
        r == (opt_string_view(*a) == opt_string_view(*b)),
{
    match (a, b) {
        (Some(x), Some(y)) => x.eq(y),
        (None, None) => true,
        _ => false,
    }
}

/// The key of a record (see `entry_key`).
pub fn dedupe_key(entry: &PiEntry) -> (k: PiDedupeKey)
    ensures
        k@ == entry_key(*entry),
{
    match &entry.message_id {
        Some(m) => PiDedupeKey::Message(m.clone()),
        None => PiDedupeKey::Legacy {
            entry: entry.entry_id.clone(),
            provider: clone_opt_string(&entry.provider),
        },
    }
}

/// Whether two keys are the same.
pub fn keys_equal(a: &PiDedupeKey, b: &PiDedupeKey) -> (r: bool)
    ensures
        r == (a@ == b@),
{
    match (a, b) {
        (PiDedupeKey::Message(x), PiDedupeKey::Message(y)) => x.eq(y),
        (
            PiDedupeKey::Legacy { entry: e1, provider: p1 },
            PiDedupeKey::Legacy { entry: e2, provider: p2 },
        ) => e1.eq(e2) && opt_string_eq(p1, p2),
        _ => false,
    }
}

/// A key occurs in `first_wins(s)` exactly when it occurs in `s`.
proof fn lemma_first_wins_keys(s: Seq<PiEntry>, k: PiDedupeKeyView)
    ensures
        key_seen(first_wins(s), k) == key_seen(s, k),
    decreases s.len(),
{
    if s.len() > 0 {
        let p = s.drop_last();
        lemma_first_wins_keys(p, k);
        let fp = first_wins(p);
        if key_seen(s, k) {
            let j = choose|j: int| 0 <= j < s.len() && entry_key(#[trigger] s[j]) == k;
            if j < p.len() {
                assert(p[j] == s[j]);
                let j2 = choose|j2: int| 0 <= j2 < fp.len() && entry_key(#[trigger] fp[j2]) == k;
                if !key_seen(p, entry_key(s.last())) {
                    assert(first_wins(s)[j2] == fp[j2]);
                }
            } else {
                if key_seen(p, entry_key(s.last())) {
                    let j3 = choose|j3: int|
                        0 <= j3 < p.len() && entry_key(#[trigger] p[j3]) == entry_key(s.last());
                    assert(key_seen(p, k));
                } else {
                    assert(first_wins(s)[fp.len() as int] == s.last());
                }
            }
        }
        if key_seen(first_wins(s), k) {
            let fs = first_wins(s);
            let j = choose|j: int| 0 <= j < fs.len() && entry_key(#[trigger] fs[j]) == k;
            if j < fp.len() {
                assert(fs[j] == fp[j]);
                let j2 = choose|j2: int| 0 <= j2 < p.len() && entry_key(#[trigger] p[j2]) == k;
                assert(s[j2] == p[j2]);
            } else {
                assert(s[s.len() - 1] == s.last());
            }
        }
    }
}

/// The de-duplication state: the records kept so far and their keys.
pub open spec fn dedupe_state(
    seen: Seq<PiDedupeKey>,
    kept: Seq<PiEntry>,
    processed: Seq<PiEntry>,
) -> bool {
    &&& kept == first_wins(processed)
    &&& seen.len() == kept.len()
    &&& forall|i: int| 0 <= i < seen.len() ==> (#[trigger] seen[i])@ == entry_key(kept[i])
}

/// Offers one record to the de-duplication: it is kept unless a record with
/// the same key was kept before.
fn offer_entry(
    seen: &mut Vec<PiDedupeKey>,
    kept: &mut Vec<PiEntry>,
    entry: PiEntry,
    Ghost(processed): Ghost<Seq<PiEntry>>,
)
    requires
        dedupe_state(old(seen)@, old(kept)@, processed),
    ensures
        dedupe_state(final(seen)@, final(kept)@, processed.push(entry)),
{
    let key = dedupe_key(&entry);
    let ghost s = processed.push(entry);
    assert(s.drop_last() =~= processed);
    assert(s.last() == entry);
    proof {
        lemma_first_wins_keys(processed, key@);
    }
    let mut i: usize = 0;
    let n = seen.len();
    while i < n
        invariant
            n == seen.len(),
            i <= n,
            dedupe_state(seen@, kept@, processed),
            key@ == entry_key(entry),
            forall|j: int| 0 <= j < i ==> (#[trigger] seen@[j])@ != key@,
        decreases n - i,
    {
        if keys_equal(&seen[i], &key) {
            assert(kept@[i as int] == first_wins(processed)[i as int]);
            assert(key_seen(first_wins(processed), key@));
            proof {
                lemma_first_wins_keys(processed, key@);
                let s2 = processed.push(entry);
                assert(s2.drop_last() =~= processed);
                assert(s2.last() == entry);
                assert(first_wins(s2) == first_wins(processed));
            }
            return;
        }
        i = i + 1;
    }
    assert(!key_seen(first_wins(processed), key@)) by {
        if key_seen(first_wins(processed), key@) {
            let j = choose|j: int|
                0 <= j < first_wins(processed).len() && entry_key(
                    #[trigger] first_wins(processed)[j],
                ) == key@;
            assert(seen@[j]@ == key@);
        }
    }
    assert(first_wins(s) == first_wins(processed).push(entry));
    seen.push(key);
    kept.push(entry);
}

/// Offers a batch of records, in order.
fn offer_all(
    seen: &mut Vec<PiDedupeKey>,
    kept: &mut Vec<PiEntry>,
    batch: Vec<PiEntry>,
    Ghost(processed): Ghost<Seq<PiEntry>>,
)
    requires
        dedupe_state(old(seen)@, old(kept)@, processed),
    ensures
        dedupe_state(final(seen)@, final(kept)@, processed + batch@),
{
    let ghost b = batch@;
    let ghost mut done: Seq<PiEntry> = processed;
    for e in it: batch.into_iter()
        invariant
            b == it.seq(),
            done == processed + b.take(it.index() as int),
            dedupe_state(seen@, kept@, done),
    {
        offer_entry(seen, kept, e, Ghost(done));
        proof {
            assert(b.take(it.index() + 1) =~= b.take(it.index() as int).push(e));
            done = done.push(e);
        }
    }
    assert(b.take(b.len() as int) =~= b);
}

/// The records are in non-decreasing order of timestamp.
pub open spec fn ts_sorted(s: Seq<PiEntry>) -> bool {
    forall|i: int, j: int| 0 <= i <= j < s.len() ==> s[i].timestamp <= s[j].timestamp
}

/// The predicate "the record has timestamp `t`".
pub open spec fn ts_is(t: i64) -> spec_fn(PiEntry) -> bool {
    |e: PiEntry| e.timestamp == t
}

/// `r` is `s` ordered stably by timestamp: `r` is ordered, as long as `s`,
/// and for every timestamp the records that have it come in `r` in the
/// order they had in `s`.
pub open spec fn stable_sorted_by_ts(r: Seq<PiEntry>, s: Seq<PiEntry>) -> bool {
    &&& ts_sorted(r)
    &&& r.len() == s.len()
    &&& forall|t: i64| #[trigger] r.filter(ts_is(t)) == s.filter(ts_is(t))
}

proof fn lemma_filter_none(s: Seq<PiEntry>, t: i64)
    requires
        forall|i: int| 0 <= i < s.len() ==> (#[trigger] s[i]).timestamp != t,
    ensures
        s.filter(ts_is(t)) == Seq::<PiEntry>::empty(),
    decreases s.len(),
{
    reveal(Seq::filter);
    if s.len() > 0 {
        let p = s.drop_last();
        assert forall|i: int| 0 <= i < p.len() implies (#[trigger] p[i]).timestamp != t by {
            assert(p[i] == s[i]);
        }
        lemma_filter_none(p, t);
    }
}

proof fn lemma_filter_single(x: PiEntry, t: i64)
    ensures
        seq![x].filter(ts_is(t)) == (if x.timestamp == t {
            seq![x]
        } else {
            Seq::<PiEntry>::empty()
        }),
{
    reveal_with_fuel(Seq::filter, 2);
    assert(seq![x].drop_last() =~= Seq::<PiEntry>::empty());
}

proof fn lemma_take_first(ra: Seq<PiEntry>, aa: Seq<PiEntry>, rest: Seq<PiEntry>, bb: Seq<PiEntry>, x: PiEntry, t: i64)
    requires
        aa == seq![x] + rest,
    ensures
        ra.push(x).filter(ts_is(t)) + rest.filter(ts_is(t)) + bb.filter(ts_is(t))
            == ra.filter(ts_is(t)) + aa.filter(ts_is(t)) + bb.filter(ts_is(t)),
{
    assert(ra.push(x) =~= ra + seq![x]);
    Seq::filter_distributes_over_add(ra, seq![x], ts_is(t));
    Seq::filter_distributes_over_add(seq![x], rest, ts_is(t));
    assert(ra.filter(ts_is(t)) + seq![x].filter(ts_is(t)) + rest.filter(ts_is(t)) =~= ra.filter(
        ts_is(t),
    ) + (seq![x].filter(ts_is(t)) + rest.filter(ts_is(t))));
}

proof fn lemma_take_second(ra: Seq<PiEntry>, aa: Seq<PiEntry>, bb: Seq<PiEntry>, rest: Seq<PiEntry>, x: PiEntry, t: i64)
    requires
        bb == seq![x] + rest,
        x.timestamp == t ==> aa.filter(ts_is(t)) == Seq::<PiEntry>::empty(),
    ensures
        ra.push(x).filter(ts_is(t)) + aa.filter(ts_is(t)) + rest.filter(ts_is(t))
            == ra.filter(ts_is(t)) + aa.filter(ts_is(t)) + bb.filter(ts_is(t)),
{
    assert(ra.push(x) =~= ra + seq![x]);
    Seq::filter_distributes_over_add(ra, seq![x], ts_is(t));
    Seq::filter_distributes_over_add(seq![x], rest, ts_is(t));
    lemma_filter_single(x, t);
    if x.timestamp == t {
        assert(ra.filter(ts_is(t)) + seq![x] + aa.filter(ts_is(t)) + rest.filter(ts_is(t)) =~= ra.filter(
            ts_is(t),
        ) + aa.filter(ts_is(t)) + (seq![x] + rest.filter(ts_is(t))));
    } else {
        assert(ra.filter(ts_is(t)) + seq![x].filter(ts_is(t)) =~= ra.filter(ts_is(t)));
        assert(seq![x].filter(ts_is(t)) + rest.filter(ts_is(t)) =~= rest.filter(ts_is(t)));
    }
}

proof fn lemma_filter_empty(s: Seq<PiEntry>, t: i64)
    requires
        s.len() == 0,
    ensures
        s.filter(ts_is(t)) == Seq::<PiEntry>::empty(),
{
    reveal(Seq::filter);
}

/// Merges two ordered sequences; of records with equal timestamps, those of
/// `a` come first.
fn merge_by_ts(a: VecDeque<PiEntry>, b: VecDeque<PiEntry>) -> (r: VecDeque<PiEntry>)
    requires
        ts_sorted(a@),
        ts_sorted(b@),
    ensures
        ts_sorted(r@),
        r@.len() == a@.len() + b@.len(),
        forall|t: i64| #[trigger] r@.filter(ts_is(t)) == a@.filter(ts_is(t)) + b@.filter(ts_is(t)),
{
    let ghost a0 = a@;
    let ghost b0 = b@;
    let mut a = a;
    let mut b = b;
    let mut r: VecDeque<PiEntry> = VecDeque::new();
    proof {
        assert forall|t: i64|
            #[trigger] r@.filter(ts_is(t)) + a@.filter(ts_is(t)) + b@.filter(ts_is(t))
                == a0.filter(ts_is(t)) + b0.filter(ts_is(t)) by {
            lemma_filter_empty(r@, t);
            assert(r@.filter(ts_is(t)) + a@.filter(ts_is(t)) =~= a@.filter(ts_is(t)));
        }
    }
    while a.len() > 0 || b.len() > 0
        invariant
            ts_sorted(a@),
            ts_sorted(b@),
            ts_sorted(r@),
            r@.len() + a@.len() + b@.len() == a0.len() + b0.len(),
            r@.len() > 0 && a@.len() > 0 ==> r@.last().timestamp <= a@[0].timestamp,
            r@.len() > 0 && b@.len() > 0 ==> r@.last().timestamp <= b@[0].timestamp,
            forall|t: i64|
                #[trigger] r@.filter(ts_is(t)) + a@.filter(ts_is(t)) + b@.filter(ts_is(t))
                    == a0.filter(ts_is(t)) + b0.filter(ts_is(t)),
        decreases a@.len() + b@.len(),
    {
        let take_a = b.len() == 0 || (a.len() > 0 && a[0].timestamp <= b[0].timestamp);
        let ghost ra = r@;
        let ghost aa = a@;
        let ghost bb = b@;
        if take_a {
            let x = a.pop_front().unwrap();
            proof {
                assert(aa =~= seq![x] + a@);
                assert forall|t: i64|
                    #[trigger] ra.push(x).filter(ts_is(t)) + a@.filter(ts_is(t)) + b@.filter(ts_is(t))
                        == a0.filter(ts_is(t)) + b0.filter(ts_is(t)) by {
                    lemma_take_first(ra, aa, a@, bb, x, t);
                }
            }
            r.push_back(x);
        } else {
            let x = b.pop_front().unwrap();
            proof {
                assert(bb =~= seq![x] + b@);
                assert forall|t: i64|
                    #[trigger] ra.push(x).filter(ts_is(t)) + a@.filter(ts_is(t)) + b@.filter(ts_is(t))
                        == a0.filter(ts_is(t)) + b0.filter(ts_is(t)) by {
                    if x.timestamp == t {
                        assert forall|i: int| 0 <= i < aa.len() implies (#[trigger] aa[i]).timestamp
                            != t by {
                            assert(aa[0].timestamp <= aa[i].timestamp);
                        }
                        lemma_filter_none(aa, t);
                    }
                    lemma_take_second(ra, aa, bb, b@, x, t);
                }
            }
            r.push_back(x);
        }
    }
    proof {
        assert forall|t: i64| #[trigger] r@.filter(ts_is(t)) == a0.filter(ts_is(t)) + b0.filter(
            ts_is(t),
        ) by {
            lemma_filter_empty(a@, t);
            lemma_filter_empty(b@, t);
            assert(r@.filter(ts_is(t)) + a@.filter(ts_is(t)) + b@.filter(ts_is(t)) =~= r@.filter(
                ts_is(t),
            ));
        }
    }
    r
}

/// Merge sort, stable by timestamp.
fn sort_deque_by_ts(v: VecDeque<PiEntry>) -> (r: VecDeque<PiEntry>)
    ensures
        stable_sorted_by_ts(r@, v@),
    decreases v@.len(),
{
    broadcast use Seq::filter_distributes_over_add;

    if v.len() <= 1 {
        return v;
    }
    let mid = v.len() / 2;
    let mut left = v;
    let right = left.split_off(mid);
    let ghost lv = left@;
    let ghost rv = right@;
    assert(v@ =~= lv + rv);
    let sl = sort_deque_by_ts(left);
    let sr = sort_deque_by_ts(right);
    let r = merge_by_ts(sl, sr);
    assert forall|t: i64| #[trigger] r@.filter(ts_is(t)) == v@.filter(ts_is(t)) by {
        assert(v@.filter(ts_is(t)) == lv.filter(ts_is(t)) + rv.filter(ts_is(t)));
    }
    r
}

/// The records ordered stably by timestamp (see `stable_sorted_by_ts`).
pub fn sort_by_timestamp(entries: Vec<PiEntry>) -> (r: Vec<PiEntry>)
    ensures
        stable_sorted_by_ts(r@, entries@),
{
    let ghost e = entries@;
    let mut d: VecDeque<PiEntry> = VecDeque::new();
    for x in it: entries.into_iter()
        invariant
            e == it.seq(),
            d@ == e.take(it.index() as int),
    {
        d.push_back(x);
        assert(e.take(it.index() + 1) =~= e.take(it.index() as int).push(x));
    }
    assert(e.take(e.len() as int) =~= e);
    let mut sorted = sort_deque_by_ts(d);
    let ghost s0 = sorted@;
    let mut r: Vec<PiEntry> = Vec::new();
    while sorted.len() > 0
        invariant
            s0 == r@ + sorted@,
        decreases sorted@.len(),
    {
        let x = sorted.pop_front().unwrap();
        r.push(x);
        assert(r@ + sorted@ =~= s0);
    }
    assert(r@ =~= s0);
    r
}

/// Which store a load reads: the pi agent's own, or a named store in pi's
/// session format.
#[derive(Clone, Debug)]
pub enum PiLoadScope {
    Default,
    Named { store_name: String },
}

/// The name of the store a scope reads.
pub open spec fn scope_store_name(scope: PiLoadScope) -> Seq<char> {
    match scope {
        PiLoadScope::Default => "pi"@,
        PiLoadScope::Named { store_name } => store_name@,
    }
}

/// How a scope is named in diagnostic messages.
pub open spec fn scope_label(scope: PiLoadScope) -> Seq<char> {
    match scope {
        PiLoadScope::Default => "pi"@,
        PiLoadScope::Named { store_name } => "pi-format store '"@ + store_name@ + "'"@,
    }
}

impl PiLoadScope {
    /// The name of the store this scope reads.
    pub fn store_name(&self) -> (r: &str)
        ensures
            r@ == scope_store_name(*self),
    {
        match self {
            PiLoadScope::Default => "pi",
            PiLoadScope::Named { store_name } => store_name.as_str(),
        }
    }

    /// How this scope is named in diagnostic messages.
    pub fn debug_label(&self) -> (r: String)
        ensures
            r@ == scope_label(*self),
    {
        match self {
            PiLoadScope::Default => String::from_str("pi"),
            PiLoadScope::Named { store_name } => {
                let mut label = String::from_str("pi-format store '");
                label.append(store_name.as_str());
                label.append("'");
                label
            },
        }
    }
}

/// One session file: how its path is shown, and what reading it gave.
#[derive(Debug)]
pub struct SessionFile {
    /// The file's path as shown in messages.
    pub display: String,
    /// The records read from the file, or why it could not be read.
    pub result: Result<Vec<PiEntry>, String>,
}

/// The outcome of a load: the records kept, and one diagnostic message per
/// session file that could not be read.
#[derive(Debug)]
pub struct PiLoad {
    pub entries: Vec<PiEntry>,
    pub debug_messages: Vec<String>,
}

/// The records a session file contributes: all of them when it was read,
/// none when it could not be.
pub open spec fn file_entries(f: SessionFile) -> Seq<PiEntry> {
    match f.result {
        Ok(v) => v@,
        Err(_) => Seq::empty(),
    }
}

/// The records of a list of files, file after file.
pub open spec fn files_entries(fs: Seq<SessionFile>) -> Seq<PiEntry>
    decreases fs.len(),
{
    if fs.len() == 0 {
        Seq::empty()
    } else {
        files_entries(fs.drop_last()) + file_entries(fs.last())
    }
}

/// The records of the files under each path, path after path.
pub open spec fn paths_entries(ps: Seq<Vec<SessionFile>>) -> Seq<PiEntry>
    decreases ps.len(),
{
    if ps.len() == 0 {
        Seq::empty()
    } else {
        paths_entries(ps.drop_last()) + files_entries(ps.last()@)
    }
}

/// The message for a session file that could not be read.
pub open spec fn failure_message(label: Seq<char>, display: Seq<char>, error: Seq<char>) -> Seq<
    char,
> {
    "Failed to read "@ + label + " session file "@ + display + ": "@ + error
}

/// The messages a list of files gives rise to: one per unreadable file.
pub open spec fn files_messages(label: Seq<char>, fs: Seq<SessionFile>) -> Seq<Seq<char>>
    decreases fs.len(),
{
    if fs.len() == 0 {
        Seq::empty()
    } else {
        let rest = files_messages(label, fs.drop_last());
        match fs.last().result {
            Ok(_) => rest,
            Err(e) => rest.push(failure_message(label, fs.last().display@, e@)),
        }
    }
}

/// The messages of the files under each path, path after path.
pub open spec fn paths_messages(label: Seq<char>, ps: Seq<Vec<SessionFile>>) -> Seq<Seq<char>>
    decreases ps.len(),
{
    if ps.len() == 0 {
        Seq::empty()
    } else {
        paths_messages(label, ps.drop_last()) + files_messages(label, ps.last()@)
    }
}

/// What a load gives for the session files under `paths`, its messages
/// naming the store `label`: of all records,
/// in path, file and record order, the first copy of each is kept and the
/// kept records are ordered stably by timestamp; every unreadable file
/// adds its message, in the same order.
pub open spec fn load_outcome(label: Seq<char>, paths: Seq<Vec<SessionFile>>, r: PiLoad) -> bool {
    &&& stable_sorted_by_ts(r.entries@, first_wins(paths_entries(paths)))
    &&& views(r.debug_messages@) == paths_messages(label, paths)
}

fn failure_text(label: &String, display: &String, error: &String) -> (r: String)
    ensures
        r@ == failure_message(label@, display@, error@),
{
    let mut m = String::from_str("Failed to read ");
    m.append(label.as_str());
    m.append(" session file ");
    m.append(display.as_str());
    m.append(": ");
    m.append(error.as_str());
    m
}

/// Loads the records of the session files under `paths` for `scope`
/// (see `load_outcome`).
pub fn load_entries_from_paths(scope: &PiLoadScope, paths: Vec<Vec<SessionFile>>) -> (r: PiLoad)
    ensures
        load_outcome(scope_label(*scope), paths@, r),
{
    let label = scope.debug_label();
    let ghost ps = paths@;
    let mut seen: Vec<PiDedupeKey> = Vec::new();
    let mut kept: Vec<PiEntry> = Vec::new();
    let mut messages: Vec<String> = Vec::new();
    for path_files in it: paths.into_iter()
        invariant
            ps == it.seq(),
            label@ == scope_label(*scope),
            dedupe_state(seen@, kept@, paths_entries(ps.take(it.index() as int))),
            views(messages@) == paths_messages(label@, ps.take(it.index() as int)),
    {
        let ghost before = paths_entries(ps.take(it.index() as int));
        let ghost msgs_before = views(messages@);
        let ghost fs = path_files@;
        for file in it2: path_files.into_iter()
            invariant
                fs == it2.seq(),
                label@ == scope_label(*scope),
                dedupe_state(seen@, kept@, before + files_entries(fs.take(it2.index() as int))),
                views(messages@) == msgs_before + files_messages(
                    label@,
                    fs.take(it2.index() as int),
                ),
        {
            let ghost k = it2.index() as int;
            let ghost before_files = files_entries(fs.take(k));
            let ghost msgs_files = files_messages(label@, fs.take(k));
            assert(fs.take(k + 1).drop_last() =~= fs.take(k));
            assert(fs.take(k + 1).last() == file);
            let SessionFile { display, result } = file;
            match result {
                Ok(batch) => {
                    offer_all(&mut seen, &mut kept, batch, Ghost(before + before_files));
                    assert(before + before_files + batch@ =~= before + files_entries(
                        fs.take(k + 1),
                    ));
                    assert(files_messages(label@, fs.take(k + 1)) == msgs_files);
                },
                Err(error) => {
                    let m = failure_text(&label, &display, &error);
                    let ghost old_messages = messages@;
                    messages.push(m);
                    assert(files_messages(label@, fs.take(k + 1)) == msgs_files.push(
                        failure_message(label@, display@, error@),
                    ));
                    assert(views(messages@) =~= views(old_messages).push(m@));
                    assert(files_entries(fs.take(k + 1)) =~= before_files);
                    assert(views(messages@) =~= msgs_before + files_messages(
                        label@,
                        fs.take(k + 1),
                    ));
                },
            }
        }
        let ghost j = it.index() as int;
        assert(fs.take(fs.len() as int) =~= fs);
        assert(ps.take(j + 1).drop_last() =~= ps.take(j));
        assert(ps.take(j + 1).last() == path_files);
    }
    assert(ps.take(ps.len() as int) =~= ps);
    let entries = sort_by_timestamp(kept);
    PiLoad { entries, debug_messages: messages }
}

/// Loads the records of the pi agent's own session files (grouped by the
/// path they were found under).
pub fn load_entries(paths: Vec<Vec<SessionFile>>) -> (r: PiLoad)
    ensures
        load_outcome("pi"@, paths@, r),
{
    load_entries_from_paths(&PiLoadScope::Default, paths)
}

/// Loads the records of a named pi-format store from the session files
/// found under its store paths.
pub fn load_entries_for_store_paths(store_paths: Vec<Vec<SessionFile>>, store_name: &str) -> (r:
    PiLoad)
    ensures
        load_outcome("pi-format store '"@ + store_name@ + "'"@, store_paths@, r),
{
    let scope = PiLoadScope::Named { store_name: String::from_str(store_name) };
    load_entries_from_paths(&scope, store_paths)
}

/// Loads the records of a named pi-format store located at one store path
/// (the session files found under the paths that store path names).
pub fn load_entries_for_store_path(store_path_files: Vec<Vec<SessionFile>>, store_name: &str) -> (r:
    PiLoad)
    ensures
        load_outcome("pi-format store '"@ + store_name@ + "'"@, store_path_files@, r),
{
    load_entries_for_store_paths(store_path_files, store_name)
}

/// How often `x` occurs in `s`.
pub open spec fn count_of(s: Seq<PiEntry>, x: PiEntry) -> nat
    decreases s.len(),
{
    if s.len() == 0 {
        0
    } else {
        count_of(s.drop_last(), x) + if s.last() == x {
            1nat
        } else {
            0nat
        }
    }
}

/// No two records of `s` have the same key.
pub open spec fn keys_unique(s: Seq<PiEntry>) -> bool {
    forall|i: int, j: int|
        0 <= i < j < s.len() ==> entry_key(#[trigger] s[i]) != entry_key(#[trigger] s[j])
}

proof fn lemma_count_filter(s: Seq<PiEntry>, x: PiEntry)
    ensures
        count_of(s.filter(ts_is(x.timestamp)), x) == count_of(s, x),
    decreases s.len(),
{
    reveal(Seq::filter);
    if s.len() > 0 {
        lemma_count_filter(s.drop_last(), x);
        let f = s.drop_last().filter(ts_is(x.timestamp));
        if (ts_is(x.timestamp))(s.last()) {
            assert(s.filter(ts_is(x.timestamp)) == f.push(s.last()));
            assert(f.push(s.last()).drop_last() =~= f);
        } else {
            assert(s.filter(ts_is(x.timestamp)) == f);
        }
    }
}

proof fn lemma_count_positive(s: Seq<PiEntry>, x: PiEntry)
    ensures
        count_of(s, x) > 0 <==> exists|i: int| 0 <= i < s.len() && s[i] == x,
    decreases s.len(),
{
    if s.len() > 0 {
        let p = s.drop_last();
        lemma_count_positive(p, x);
        if count_of(s, x) > 0 {
            if s.last() != x {
                let i = choose|i: int| 0 <= i < p.len() && p[i] == x;
                assert(s[i] == x);
            } else {
                assert(s[s.len() - 1] == x);
            }
        }
        if exists|i: int| 0 <= i < s.len() && s[i] == x {
            let i = choose|i: int| 0 <= i < s.len() && s[i] == x;
            if i < p.len() {
                assert(p[i] == x);
            }
        }
    }
}

proof fn lemma_count_two(s: Seq<PiEntry>, i: int, j: int)
    requires
        0 <= i < j < s.len(),
        s[i] == s[j],
    ensures
        count_of(s, s[i]) >= 2,
    decreases s.len(),
{
    let p = s.drop_last();
    if j < s.len() - 1 {
        assert(p[i] == s[i] && p[j] == s[j]);
        lemma_count_two(p, i, j);
    } else {
        lemma_count_positive(p, s[i]);
        assert(p[i] == s[i]);
    }
}

proof fn lemma_count_two_positions(s: Seq<PiEntry>, x: PiEntry)
    requires
        count_of(s, x) >= 2,
    ensures
        exists|i: int, j: int| 0 <= i < j < s.len() && s[i] == x && s[j] == x,
    decreases s.len(),
{
    let p = s.drop_last();
    if s.last() == x {
        lemma_count_positive(p, x);
        let i = choose|i: int| 0 <= i < p.len() && p[i] == x;
        assert(s[i] == x && s[s.len() - 1] == x);
    } else {
        lemma_count_two_positions(p, x);
        let (i, j) = choose|i: int, j: int| 0 <= i < j < p.len() && p[i] == x && p[j] == x;
        assert(s[i] == x && s[j] == x);
    }
}

/// Law: ordering by timestamp keeps every record, as often as it occurs.
pub proof fn law_sort_keeps_records(r: Seq<PiEntry>, s: Seq<PiEntry>, x: PiEntry)
    requires
        stable_sorted_by_ts(r, s),
    ensures
        count_of(r, x) == count_of(s, x),
{
    lemma_count_filter(r, x);
    lemma_count_filter(s, x);
    assert(r.filter(ts_is(x.timestamp)) == s.filter(ts_is(x.timestamp)));
}

/// Law: of the records kept, no two have the same key; copies of one message
/// (one message id, whatever the provider) are counted once.
pub proof fn law_first_wins_unique(s: Seq<PiEntry>)
    ensures
        keys_unique(first_wins(s)),
    decreases s.len(),
{
    if s.len() > 0 {
        let p = s.drop_last();
        law_first_wins_unique(p);
        lemma_first_wins_keys(p, entry_key(s.last()));
        let fp = first_wins(p);
        let fs = first_wins(s);
        if !key_seen(p, entry_key(s.last())) {
            assert forall|i: int, j: int|
                0 <= i < j < fs.len() implies entry_key(#[trigger] fs[i]) != entry_key(
                #[trigger] fs[j],
            ) by {
                if j == fs.len() - 1 {
                    assert(fs[i] == fp[i]);
                    if entry_key(fs[i]) == entry_key(fs[j]) {
                        assert(key_seen(fp, entry_key(s.last())));
                    }
                } else {
                    assert(fs[i] == fp[i] && fs[j] == fp[j]);
                }
            }
        }
    }
}

/// Law: every key that occurs among the records read occurs among the
/// records kept, and no other.
pub proof fn law_first_wins_keeps_every_key(s: Seq<PiEntry>, k: PiDedupeKeyView)
    ensures
        key_seen(first_wins(s), k) == key_seen(s, k),
{
    lemma_first_wins_keys(s, k);
}

/// Law: the record kept for a key is the first record read with that key.
pub proof fn law_first_wins_keeps_first_copy(s: Seq<PiEntry>, i: int)
    requires
        0 <= i < first_wins(s).len(),
    ensures
        exists|j: int|
            0 <= j < s.len() && s[j] == first_wins(s)[i] && !key_seen(
                s.take(j),
                entry_key(s[j]),
            ),
    decreases s.len(),
{
    let p = s.drop_last();
    let fp = first_wins(p);
    if i < fp.len() {
        assert(first_wins(s)[i] == fp[i]);
        law_first_wins_keeps_first_copy(p, i);
        let j = choose|j: int|
            0 <= j < p.len() && p[j] == fp[i] && !key_seen(p.take(j), entry_key(p[j]));
        assert(s[j] == p[j]);
        assert(s.take(j) =~= p.take(j));
    } else {
        assert(first_wins(s)[i] == s.last());
        assert(s.take(s.len() - 1) =~= p);
    }
}

/// Law: a load keeps each record key once: no two records it returns share
/// a key, and every key read is among them.
pub proof fn law_load_counts_each_key_once(label: Seq<char>, paths: Seq<Vec<SessionFile>>, r: PiLoad)
    requires
        load_outcome(label, paths, r),
    ensures
        keys_unique(r.entries@),
        forall|k: PiDedupeKeyView| key_seen(r.entries@, k) == key_seen(paths_entries(paths), k),
{
    let fs = first_wins(paths_entries(paths));
    let re = r.entries@;
    law_first_wins_unique(paths_entries(paths));
    assert forall|i: int, j: int|
        0 <= i < j < re.len() implies entry_key(#[trigger] re[i]) != entry_key(#[trigger] re[j]) by {
        if entry_key(re[i]) == entry_key(re[j]) {
            law_sort_keeps_records(re, fs, re[i]);
            law_sort_keeps_records(re, fs, re[j]);
            lemma_count_positive(re, re[i]);
            lemma_count_positive(re, re[j]);
            if re[i] == re[j] {
                lemma_count_two(re, i, j);
                lemma_count_two_positions(fs, re[i]);
            } else {
                lemma_count_positive(fs, re[i]);
                lemma_count_positive(fs, re[j]);
                let a = choose|a: int| 0 <= a < fs.len() && fs[a] == re[i];
                let b = choose|b: int| 0 <= b < fs.len() && fs[b] == re[j];
                if a < b {
                    assert(entry_key(fs[a]) != entry_key(fs[b]));
                } else {
                    assert(entry_key(fs[b]) != entry_key(fs[a]));
                }
            }
        }
    }
    assert forall|k: PiDedupeKeyView| key_seen(re, k) == key_seen(paths_entries(paths), k) by {
        lemma_first_wins_keys(paths_entries(paths), k);
        if key_seen(re, k) {
            let j = choose|j: int| 0 <= j < re.len() && entry_key(#[trigger] re[j]) == k;
            law_sort_keeps_records(re, fs, re[j]);
            lemma_count_positive(re, re[j]);
            lemma_count_positive(fs, re[j]);
            let a = choose|a: int| 0 <= a < fs.len() && fs[a] == re[j];
            assert(entry_key(fs[a]) == k);
        }
        if key_seen(fs, k) {
            let j = choose|j: int| 0 <= j < fs.len() && entry_key(#[trigger] fs[j]) == k;
            law_sort_keeps_records(re, fs, fs[j]);
            lemma_count_positive(fs, fs[j]);
            lemma_count_positive(re, fs[j]);
            let a = choose|a: int| 0 <= a < re.len() && re[a] == fs[j];
            assert(entry_key(re[a]) == k);
        }
    }
}

/// Law: copies of one message are one record whatever provider each copy
/// names: two records with the same message id have the same key.
pub proof fn law_message_id_decides_key(a: PiEntry, b: PiEntry)
    requires
        a.message_id is Some,
        opt_string_view(a.message_id) == opt_string_view(b.message_id),
    ensures
        entry_key(a) == entry_key(b),
{
}

/// Law: records with different message ids are different records, so a
/// load keeps each of them.
pub proof fn law_distinct_message_ids_kept(a: PiEntry, b: PiEntry)
    requires
        a.message_id is Some,
        b.message_id is Some,
        opt_string_view(a.message_id) != opt_string_view(b.message_id),
    ensures
        entry_key(a) != entry_key(b),
{
}

proof fn lemma_ts_filter_push(s: Seq<PiEntry>, x: PiEntry, t: i64)
    ensures
        s.push(x).filter(ts_is(t)) == (if x.timestamp == t {
            s.filter(ts_is(t)).push(x)
        } else {
            s.filter(ts_is(t))
        }),
{
    reveal(Seq::filter);
    assert(s.push(x).drop_last() =~= s);
    assert(s.push(x).last() == x);
}

proof fn lemma_sorted_equal_filters(r1: Seq<PiEntry>, r2: Seq<PiEntry>)
    requires
        ts_sorted(r1),
        ts_sorted(r2),
        forall|t: i64| #[trigger] r1.filter(ts_is(t)) == r2.filter(ts_is(t)),
    ensures
        r1 == r2,
    decreases r1.len() + r2.len(),
{
    broadcast use vstd::seq_lib::group_filter_ensures;

    if r1.len() == 0 || r2.len() == 0 {
        if r1.len() > 0 {
            let x = r1.last();
            lemma_filter_empty(r2, x.timestamp);
            assert(r1.filter(ts_is(x.timestamp)).contains(r1[r1.len() - 1]));
        } else if r2.len() > 0 {
            let x = r2.last();
            lemma_filter_empty(r1, x.timestamp);
            assert(r2.filter(ts_is(x.timestamp)).contains(r2[r2.len() - 1]));
        } else {
            assert(r1 =~= r2);
        }
    } else {
        let x1 = r1.last();
        let x2 = r2.last();
        let d1 = r1.drop_last();
        let d2 = r2.drop_last();
        assert(r1 =~= d1.push(x1));
        assert(r2 =~= d2.push(x2));
        assert(r1.filter(ts_is(x1.timestamp)).contains(r1[r1.len() - 1]));
        r2.lemma_filter_contains_rev(ts_is(x1.timestamp), x1);
        let j2 = choose|j: int| 0 <= j < r2.len() && r2[j] == x1;
        assert(r2[j2].timestamp <= r2[r2.len() - 1].timestamp);
        assert(r2.filter(ts_is(x2.timestamp)).contains(r2[r2.len() - 1]));
        r1.lemma_filter_contains_rev(ts_is(x2.timestamp), x2);
        let j1 = choose|j: int| 0 <= j < r1.len() && r1[j] == x2;
        assert(r1[j1].timestamp <= r1[r1.len() - 1].timestamp);
        let t = x1.timestamp;
        lemma_ts_filter_push(d1, x1, t);
        lemma_ts_filter_push(d2, x2, t);
        assert(d1.filter(ts_is(t)).push(x1) == d2.filter(ts_is(t)).push(x2));
        assert(x1 == d1.filter(ts_is(t)).push(x1).last());
        assert(x2 == d2.filter(ts_is(t)).push(x2).last());
        assert(d1.filter(ts_is(t)) == d1.filter(ts_is(t)).push(x1).drop_last());
        assert(d2.filter(ts_is(t)) == d2.filter(ts_is(t)).push(x2).drop_last());
        assert forall|u: i64| #[trigger] d1.filter(ts_is(u)) == d2.filter(ts_is(u)) by {
            lemma_ts_filter_push(d1, x1, u);
            lemma_ts_filter_push(d2, x2, u);
        }
        lemma_sorted_equal_filters(d1, d2);
    }
}

/// Law: ordering stably by timestamp has one outcome: two orderings of the
/// same records are equal.
pub proof fn law_stable_sort_unique(r1: Seq<PiEntry>, r2: Seq<PiEntry>, s: Seq<PiEntry>)
    requires
        stable_sorted_by_ts(r1, s),
        stable_sorted_by_ts(r2, s),
    ensures
        r1 == r2,
{
    lemma_sorted_equal_filters(r1, r2);
}

/// Law: a load is determined by the store's label and the session files:
/// two loads of the same files give the same records and the same
/// messages. (So `load_entries` gives what `load_entries_from_paths` gives
/// for the default scope, and the store loads what it gives for the named
/// scope.)
pub proof fn law_load_determined(label: Seq<char>, paths: Seq<Vec<SessionFile>>, r1: PiLoad, r2: PiLoad)
    requires
        load_outcome(label, paths, r1),
        load_outcome(label, paths, r2),
    ensures
        r1.entries@ == r2.entries@,
        views(r1.debug_messages@) == views(r2.debug_messages@),
{
    law_stable_sort_unique(r1.entries@, r2.entries@, first_wins(paths_entries(paths)));
}

proof fn lemma_paths_add(label: Seq<char>, ps: Seq<Vec<SessionFile>>, qs: Seq<Vec<SessionFile>>)
    ensures
        paths_entries(ps + qs) == paths_entries(ps) + paths_entries(qs),
        paths_messages(label, ps + qs) == paths_messages(label, ps) + paths_messages(label, qs),
    decreases qs.len(),
{
    if qs.len() == 0 {
        assert(ps + qs =~= ps);
        assert(paths_entries(ps) + paths_entries(qs) =~= paths_entries(ps));
        assert(paths_messages(label, ps) + paths_messages(label, qs) =~= paths_messages(label, ps));
    } else {
        lemma_paths_add(label, ps, qs.drop_last());
        assert((ps + qs).drop_last() =~= ps + qs.drop_last());
        assert((ps + qs).last() == qs.last());
        assert(paths_entries(ps) + paths_entries(qs.drop_last()) + files_entries(qs.last()@)
            =~= paths_entries(ps) + (paths_entries(qs.drop_last()) + files_entries(qs.last()@)));
        assert(paths_messages(label, ps) + paths_messages(label, qs.drop_last()) + files_messages(
            label,
            qs.last()@,
        ) =~= paths_messages(label, ps) + (paths_messages(label, qs.drop_last()) + files_messages(
            label,
            qs.last()@,
        )));
    }
}

proof fn lemma_first_wins_seen(s: Seq<PiEntry>, t: Seq<PiEntry>)
    requires
        forall|j: int| 0 <= j < t.len() ==> key_seen(s, entry_key(#[trigger] t[j])),
    ensures
        first_wins(s + t) == first_wins(s),
    decreases t.len(),
{
    if t.len() == 0 {
        assert(s + t =~= s);
    } else {
        let d = t.drop_last();
        assert forall|j: int| 0 <= j < d.len() implies key_seen(s, entry_key(#[trigger] d[j])) by {
            assert(d[j] == t[j]);
        }
        lemma_first_wins_seen(s, d);
        assert((s + t).drop_last() =~= s + d);
        assert((s + t).last() == t[t.len() - 1]);
        assert(key_seen(s, entry_key(t[t.len() - 1])));
        let w = choose|w: int| 0 <= w < s.len() && entry_key(#[trigger] s[w]) == entry_key(
            t[t.len() - 1],
        );
        assert((s + d)[w] == s[w]);
        assert(key_seen(s + d, entry_key((s + t).last())));
    }
}

proof fn lemma_first_wins_grows(s: Seq<PiEntry>, t: Seq<PiEntry>)
    ensures
        first_wins(s).len() <= first_wins(s + t).len(),
    decreases t.len(),
{
    if t.len() == 0 {
        assert(s + t =~= s);
    } else {
        lemma_first_wins_grows(s, t.drop_last());
        assert((s + t).drop_last() =~= s + t.drop_last());
    }
}

/// Law: reading the same paths a second time adds no record: the load of
/// `paths` followed by `paths` keeps what the load of `paths` keeps (an
/// unreadable file reports its message on each reading).
pub proof fn law_same_paths_twice_add_nothing(
    label: Seq<char>,
    paths: Seq<Vec<SessionFile>>,
    once: PiLoad,
    twice: PiLoad,
)
    requires
        load_outcome(label, paths, once),
        load_outcome(label, paths + paths, twice),
    ensures
        twice.entries@ == once.entries@,
        views(twice.debug_messages@) == views(once.debug_messages@) + views(once.debug_messages@),
{
    let pe = paths_entries(paths);
    lemma_paths_add(label, paths, paths);
    assert forall|j: int| 0 <= j < pe.len() implies key_seen(pe, entry_key(#[trigger] pe[j])) by {
    }
    lemma_first_wins_seen(pe, pe);
    law_stable_sort_unique(twice.entries@, once.entries@, first_wins(pe));
}

/// Law: loading more paths keeps every record key of the smaller load and
/// never returns fewer records.
pub proof fn law_more_paths_keep_keys(
    label: Seq<char>,
    paths: Seq<Vec<SessionFile>>,
    more: Seq<Vec<SessionFile>>,
    small: PiLoad,
    large: PiLoad,
)
    requires
        load_outcome(label, paths, small),
        load_outcome(label, paths + more, large),
    ensures
        forall|k: PiDedupeKeyView| key_seen(small.entries@, k) ==> key_seen(large.entries@, k),
        small.entries@.len() <= large.entries@.len(),
{
    let pe = paths_entries(paths);
    let me = paths_entries(more);
    lemma_paths_add(label, paths, more);
    law_load_counts_each_key_once(label, paths, small);
    law_load_counts_each_key_once(label, paths + more, large);
    assert forall|k: PiDedupeKeyView| key_seen(small.entries@, k) implies key_seen(
        large.entries@,
        k,
    ) by {
        assert(key_seen(paths_entries(paths), k));
        let j = choose|j: int| 0 <= j < pe.len() && entry_key(#[trigger] pe[j]) == k;
        assert((pe + me)[j] == pe[j]);
        assert(key_seen(paths_entries(paths + more), k));
    }
    lemma_first_wins_grows(pe, me);
}

proof fn lemma_files_remove(label: Seq<char>, fs: Seq<SessionFile>, j: int)
    requires
        0 <= j < fs.len(),
        fs[j].result is Err,
    ensures
        files_entries(fs) == files_entries(fs.remove(j)),
        files_messages(label, fs).len() == files_messages(label, fs.remove(j)).len() + 1,
        files_messages(label, fs).contains(
            failure_message(label, fs[j].display@, fs[j].result->Err_0@),
        ),
    decreases fs.len(),
{
    let d = fs.drop_last();
    let m = failure_message(label, fs[j].display@, fs[j].result->Err_0@);
    if j == fs.len() - 1 {
        assert(fs.remove(j) =~= d);
        assert(files_entries(fs) =~= files_entries(d));
        assert(files_messages(label, fs) == files_messages(label, d).push(m));
        assert(files_messages(label, fs)[files_messages(label, d).len() as int] == m);
    } else {
        assert(d[j] == fs[j]);
        lemma_files_remove(label, d, j);
        assert(fs.remove(j).drop_last() =~= d.remove(j));
        assert(fs.remove(j).last() == fs.last());
        let fm = files_messages(label, d);
        let w = choose|w: int| 0 <= w < fm.len() && fm[w] == m;
        match fs.last().result {
            Ok(_) => {
                assert(files_messages(label, fs) == fm);
            },
            Err(e) => {
                assert(files_messages(label, fs) == fm.push(failure_message(label, fs.last().display@, e@)));
                assert(files_messages(label, fs)[w] == m);
            },
        }
    }
}

proof fn lemma_paths_one_file_removed(
    label: Seq<char>,
    ps: Seq<Vec<SessionFile>>,
    qs: Seq<Vec<SessionFile>>,
    i: int,
)
    requires
        ps.len() == qs.len(),
        forall|k: int| 0 <= k < ps.len() && k != i ==> (#[trigger] ps[k])@ == qs[k]@,
        0 <= i < ps.len() ==> files_entries(ps[i]@) == files_entries(qs[i]@),
        0 <= i < ps.len() ==> files_messages(label, ps[i]@).len() == files_messages(label, qs[i]@).len()
            + 1,
    ensures
        paths_entries(ps) == paths_entries(qs),
        paths_messages(label, ps).len() == paths_messages(label, qs).len() + (if 0 <= i < ps.len() {
            1int
        } else {
            0int
        }),
    decreases ps.len(),
{
    if ps.len() > 0 {
        let n = ps.len() - 1;
        assert forall|k: int| 0 <= k < ps.drop_last().len() && k != i implies (
        #[trigger] ps.drop_last()[k])@ == qs.drop_last()[k]@ by {
            assert(ps[k]@ == qs[k]@);
        }
        if 0 <= i < n {
            assert(ps.drop_last()[i] == ps[i] && qs.drop_last()[i] == qs[i]);
        }
        lemma_paths_one_file_removed(label, ps.drop_last(), qs.drop_last(), i);
        if i != n {
            assert(ps[n]@ == qs[n]@);
        }
    }
}

proof fn lemma_paths_message_kept(label: Seq<char>, ps: Seq<Vec<SessionFile>>, i: int, m: Seq<char>)
    requires
        0 <= i < ps.len(),
        files_messages(label, ps[i]@).contains(m),
    ensures
        paths_messages(label, ps).contains(m),
    decreases ps.len(),
{
    let d = ps.drop_last();
    if i == ps.len() - 1 {
        let fm = files_messages(label, ps[i]@);
        let w = choose|w: int| 0 <= w < fm.len() && fm[w] == m;
        assert(paths_messages(label, ps)[paths_messages(label, d).len() + w] == m);
    } else {
        assert(d[i] == ps[i]);
        lemma_paths_message_kept(label, d, i, m);
        let pm = paths_messages(label, d);
        let w = choose|w: int| 0 <= w < pm.len() && pm[w] == m;
        assert(paths_messages(label, ps)[w] == m);
    }
}

/// Law: an unreadable session file changes nothing but the messages: the
/// load keeps what the load without that file keeps, and reports one
/// message more, the one for that file.
pub proof fn law_unreadable_file_adds_only_its_message(
    label: Seq<char>,
    paths: Seq<Vec<SessionFile>>,
    fewer: Seq<Vec<SessionFile>>,
    i: int,
    j: int,
    with_file: PiLoad,
    without_file: PiLoad,
)
    requires
        paths.len() == fewer.len(),
        0 <= i < paths.len(),
        0 <= j < paths[i]@.len(),
        paths[i]@[j].result is Err,
        fewer[i]@ == paths[i]@.remove(j),
        forall|k: int| 0 <= k < paths.len() && k != i ==> (#[trigger] fewer[k])@ == paths[k]@,
        load_outcome(label, paths, with_file),
        load_outcome(label, fewer, without_file),
    ensures
        with_file.entries@ == without_file.entries@,
        with_file.debug_messages@.len() == without_file.debug_messages@.len() + 1,
        views(with_file.debug_messages@).contains(
            failure_message(label, paths[i]@[j].display@, paths[i]@[j].result->Err_0@),
        ),
{
    lemma_files_remove(label, paths[i]@, j);
    lemma_paths_one_file_removed(label, paths, fewer, i);
    lemma_paths_message_kept(
        label,
        paths,
        i,
        failure_message(label, paths[i]@[j].display@, paths[i]@[j].result->Err_0@),
    );
    law_stable_sort_unique(
        with_file.entries@,
        without_file.entries@,
        first_wins(paths_entries(paths)),
    );
}

} // verus!
