//! Character-level helpers: provider-id canonicalisation and model-name prefixes.
use vstd::prelude::*;

verus! {

/// The Unicode `White_Space` property, which `char::is_whitespace` and
/// `str::trim` go by.
pub open spec fn is_white_space(c: char) -> bool {
    let u = c as int;
    ||| (0x09 <= u && u <= 0x0d)
    ||| u == 0x20
    ||| u == 0x85
    ||| u == 0xa0
    ||| u == 0x1680
    ||| (0x2000 <= u && u <= 0x200a)
    ||| u == 0x2028
    ||| u == 0x2029
    ||| u == 0x202f
    ||| u == 0x205f
    ||| u == 0x3000
}

/// ASCII lower-casing of one character: `A`..=`Z` map to `a`..=`z`, all
/// other characters stay as they are.
pub open spec fn ascii_lower(c: char) -> char {
    if 'A' <= c && c <= 'Z' {
        ((c as int) + 32) as char
    } else {
        c
    }
}

/// `s` without its leading white space.
pub open spec fn trim_start_seq(s: Seq<char>) -> Seq<char>
    decreases s.len(),
{
    if s.len() > 0 && is_white_space(s[0]) {
        trim_start_seq(s.drop_first())
    } else {
        s
    }
}

/// `s` without its trailing white space.
pub open spec fn trim_end_seq(s: Seq<char>) -> Seq<char>
    decreases s.len(),
{
    if s.len() > 0 && is_white_space(s.last()) {
        trim_end_seq(s.drop_last())
    } else {
        s
    }
}

/// `s` without leading and trailing white space, as `str::trim` gives it.
pub open spec fn trim_seq(s: Seq<char>) -> Seq<char> {
    trim_end_seq(trim_start_seq(s))
}

/// `s` with every character ASCII-lower-cased.
pub open spec fn lower_seq(s: Seq<char>) -> Seq<char> {
    s.map_values(|c: char| ascii_lower(c))
}

/// The canonical id of a provider name: trimmed and ASCII-lower-cased, with
/// the aliases `openai-codex` and `xai-auth` folded into `openai` and `xai`,
/// and the empty name read as `unknown`.
pub open spec fn canonical_provider_spec(provider: Seq<char>) -> Seq<char> {
    let p = lower_seq(trim_seq(provider));
    if p == "openai-codex"@ {
        "openai"@
    } else if p == "xai-auth"@ {
        "xai"@
    } else if p.len() == 0 {
        "unknown"@
    } else {
        p
    }
}

/// The first index `i >= from` with `s[i] == ']'` and `s[i + 1] == ' '`, or
/// `-1` when there is none.
pub open spec fn find_close_from(s: Seq<char>, from: int) -> int
    decreases s.len() - from,
{
    if from < 0 || from + 1 >= s.len() {
        -1
    } else if s[from] == ']' && s[from + 1] == ' ' {
        from
    } else {
        find_close_from(s, from + 1)
    }
}

/// A model name without a leading `[tag] ` prefix: when the name starts
/// with `[` and later holds `] `, everything after the first such `] `;
/// otherwise the name itself.
pub open spec fn unprefixed_spec(s: Seq<char>) -> Seq<char> {
    if s.len() > 0 && s[0] == '[' && find_close_from(s, 1) >= 0 {
        s.subrange(find_close_from(s, 1) + 2, s.len() as int)
    } else {
        s
    }
}

/// Whether a character has the Unicode `White_Space` property (what
/// `char::is_whitespace` answers).
fn char_is_whitespace(c: char) -> (r: bool)
    ensures
        r == is_white_space(c),
{
    let u = c as u32;
    (0x09 <= u && u <= 0x0d) || u == 0x20 || u == 0x85 || u == 0xa0 || u == 0x1680 || (0x2000 <= u
        && u <= 0x200a) || u == 0x2028 || u == 0x2029 || u == 0x202f || u == 0x205f || u == 0x3000
}

/// ASCII lower-casing of one character (what `char::to_ascii_lowercase`
/// gives).
fn char_to_ascii_lowercase(c: char) -> (r: char)
    ensures
        r == ascii_lower(c),
{
    if 'A' <= c && c <= 'Z' {
        let b = c as u8;
        (b + 32) as char
    } else {
        c
    }
}

/// Wrapper of `String::push`: appends one character.
#[verifier::external_body]
pub(crate) fn push_char(s: &mut String, c: char)
    ensures
        final(s)@ == old(s)@.push(c),
{
    s.push(c)
}

proof fn lemma_trim_start(s: Seq<char>, i: int)
    requires
        0 <= i <= s.len(),
        forall|k: int| 0 <= k < i ==> is_white_space(#[trigger] s[k]),
        i == s.len() || !is_white_space(s[i]),
    ensures
        trim_start_seq(s) == s.subrange(i, s.len() as int),
    decreases i,
{
    if i == 0 {
        assert(s.subrange(0, s.len() as int) =~= s);
    } else {
        let t = s.drop_first();
        assert forall|k: int| 0 <= k < i - 1 implies is_white_space(#[trigger] t[k]) by {
            assert(t[k] == s[k + 1]);
        }
        assert(is_white_space(s[0]));
        lemma_trim_start(t, i - 1);
        assert(t.subrange(i - 1, t.len() as int) =~= s.subrange(i, s.len() as int));
    }
}

proof fn lemma_trim_end(s: Seq<char>, j: int)
    requires
        0 <= j <= s.len(),
        forall|k: int| j <= k < s.len() ==> is_white_space(#[trigger] s[k]),
        j == 0 || !is_white_space(s[j - 1]),
    ensures
        trim_end_seq(s) == s.subrange(0, j),
    decreases s.len() - j,
{
    if j == s.len() {
        assert(s.subrange(0, j) =~= s);
    } else {
        let t = s.drop_last();
        assert(is_white_space(s[s.len() - 1]));
        assert forall|k: int| j <= k < t.len() implies is_white_space(#[trigger] t[k]) by {
            assert(t[k] == s[k]);
        }
        lemma_trim_end(t, j);
        assert(t.subrange(0, j) =~= s.subrange(0, j));
    }
}

/// The canonical id of a provider name (see `canonical_provider_spec`).
pub fn canonical_provider_id(provider: &str) -> (r: String)
    ensures
        r@ == canonical_provider_spec(provider@),
{
    let n = provider.unicode_len();
    let mut i: usize = 0;
    while i < n && char_is_whitespace(provider.get_char(i))
        invariant
            n == provider@.len(),
            i <= n,
            forall|k: int| 0 <= k < i ==> is_white_space(#[trigger] provider@[k]),
        decreases n - i,
    {
        i = i + 1;
    }
    let mut j: usize = n;
    while j > i && char_is_whitespace(provider.get_char(j - 1))
        invariant
            n == provider@.len(),
            i <= j <= n,
            forall|k: int| j <= k < n ==> is_white_space(#[trigger] provider@[k]),
        decreases j - i,
    {
        j = j - 1;
    }
    let ghost s = provider@;
    proof {
        lemma_trim_start(s, i as int);
        let t = s.subrange(i as int, n as int);
        assert forall|k: int| j - i <= k < t.len() implies is_white_space(#[trigger] t[k]) by {
            assert(t[k] == s[k + i]);
        }
        if j > i {
            assert(t[j - i - 1] == s[j - 1]);
        }
        lemma_trim_end(t, j - i);
        assert(t.subrange(0, j - i) =~= s.subrange(i as int, j as int));
    }
    let mut lowered = String::new();
    let mut k: usize = i;
    while k < j
        invariant
            n == provider@.len(),
            i <= k <= j <= n,
            lowered@ =~= lower_seq(provider@.subrange(i as int, k as int)),
        decreases j - k,
    {
        let c = char_to_ascii_lowercase(provider.get_char(k));
        push_char(&mut lowered, c);
        k = k + 1;
        assert(lower_seq(provider@.subrange(i as int, k as int)) =~= lower_seq(
            provider@.subrange(i as int, k - 1),
        ).push(c));
    }
    assert(lowered@ == lower_seq(trim_seq(provider@)));
    let openai_codex = String::from_str("openai-codex");
    let xai_auth = String::from_str("xai-auth");
    if lowered == openai_codex {
        String::from_str("openai")
    } else if lowered == xai_auth {
        String::from_str("xai")
    } else if k == i {
        String::from_str("unknown")
    } else {
        lowered
    }
}

/// A model name without its leading `[tag] ` prefix (see `unprefixed_spec`).
pub fn unprefixed_model_name(model: &str) -> (r: &str)
    ensures
        r@ == unprefixed_spec(model@),
{
    let n = model.unicode_len();
    if n == 0 || model.get_char(0) != '[' {
        return model;
    }
    let mut i: usize = 1;
    while i < n - 1
        invariant
            n == model@.len(),
            n >= 1,
            model@[0] == '[',
            1 <= i,
            i <= n,
            find_close_from(model@, 1) == find_close_from(model@, i as int),
        decreases n - i,
    {
        if model.get_char(i) == ']' && model.get_char(i + 1) == ' ' {
            assert(find_close_from(model@, i as int) == i);
            return model.substring_char(i + 2, n);
        }
        i = i + 1;
    }
    model
}

proof fn lemma_trim_start_noop(s: Seq<char>)
    requires
        s.len() == 0 || !is_white_space(s[0]),
    ensures
        trim_start_seq(s) == s,
{
}

proof fn lemma_trim_end_noop(s: Seq<char>)
    requires
        s.len() == 0 || !is_white_space(s.last()),
    ensures
        trim_end_seq(s) == s,
{
}

proof fn lemma_trim_ends(s: Seq<char>)
    ensures
        trim_seq(s).len() == 0 || (!is_white_space(trim_seq(s)[0]) && !is_white_space(
            trim_seq(s).last(),
        )),
{
    lemma_trim_start_ends(s);
    lemma_trim_end_ends(trim_start_seq(s));
}

proof fn lemma_trim_start_ends(s: Seq<char>)
    ensures
        trim_start_seq(s).len() == 0 || !is_white_space(trim_start_seq(s)[0]),
    decreases s.len(),
{
    if s.len() > 0 && is_white_space(s[0]) {
        lemma_trim_start_ends(s.drop_first());
    }
}

proof fn lemma_trim_end_ends(s: Seq<char>)
    requires
        s.len() == 0 || !is_white_space(s[0]),
    ensures
        trim_end_seq(s).len() == 0 || (!is_white_space(trim_end_seq(s)[0]) && !is_white_space(
            trim_end_seq(s).last(),
        )),
    decreases s.len(),
{
    if s.len() > 0 && is_white_space(s.last()) {
        if s.len() > 1 {
            assert(s.drop_last()[0] == s[0]);
        }
        lemma_trim_end_ends(s.drop_last());
    }
}

proof fn lemma_lower_keeps_white_space(c: char)
    ensures
        is_white_space(ascii_lower(c)) == is_white_space(c),
{
}

proof fn lemma_lower_idempotent(s: Seq<char>)
    ensures
        lower_seq(lower_seq(s)) == lower_seq(s),
{
    assert(lower_seq(lower_seq(s)) =~= lower_seq(s));
}

/// Law: a canonical provider id is its own canonical id, so providers
/// regrouped by canonical id keep their groups.
pub proof fn law_canonical_provider_idempotent(provider: Seq<char>)
    ensures
        canonical_provider_spec(canonical_provider_spec(provider)) == canonical_provider_spec(
            provider,
        ),
{
    reveal_strlit("openai-codex");
    reveal_strlit("xai-auth");
    reveal_strlit("openai");
    reveal_strlit("xai");
    reveal_strlit("unknown");
    let r = canonical_provider_spec(provider);
    let t = trim_seq(provider);
    let p = lower_seq(t);
    lemma_trim_ends(provider);
    if p.len() > 0 {
        lemma_lower_keeps_white_space(t[0]);
        lemma_lower_keeps_white_space(t.last());
        assert(p[0] == ascii_lower(t[0]));
        assert(p.last() == ascii_lower(t.last()));
    }
    lemma_trim_start_noop(r);
    lemma_trim_end_noop(r);
    assert(trim_seq(r) == r);
    if r == p {
        lemma_lower_idempotent(t);
    } else {
        assert(lower_seq(r) =~= r);
    }
}

proof fn lemma_find_close_at(s: Seq<char>, from: int, j: int)
    requires
        0 <= from <= j,
        j + 1 < s.len(),
        s[j] == ']',
        s[j + 1] == ' ',
        forall|i: int| from <= i < j ==> !(#[trigger] s[i] == ']' && s[i + 1] == ' '),
    ensures
        find_close_from(s, from) == j,
    decreases j - from,
{
    if from < j {
        lemma_find_close_at(s, from + 1, j);
    }
}

/// Law: a name `[tag] model`, whose tag holds no `] `, loses exactly its
/// `[tag] ` prefix, whatever the tag's length; the model part may itself
/// hold brackets.
pub proof fn law_unprefixed_strips_any_tag(tag: Seq<char>, model: Seq<char>)
    requires
        forall|i: int| 0 <= i < tag.len() - 1 ==> !(#[trigger] tag[i] == ']' && tag[i + 1] == ' '),
    ensures
        unprefixed_spec(seq!['['] + tag + seq![']', ' '] + model) == model,
{
    let s = seq!['['] + tag + seq![']', ' '] + model;
    let j: int = tag.len() as int + 1;
    assert(s[j] == ']' && s[j + 1] == ' ');
    assert forall|i: int| 1 <= i < j implies !(#[trigger] s[i] == ']' && s[i + 1] == ' ') by {
        assert(s[i] == tag[i - 1]);
        if i + 1 < j {
            assert(s[i + 1] == tag[i]);
        } else {
            assert(s[i + 1] == ']');
        }
    }
    lemma_find_close_at(s, 1, j);
    assert(s.subrange(j + 2, s.len() as int) =~= model);
}

/// Law: a name that does not start with `[`, or holds no `] ` after its
/// first character, is left as it is.
pub proof fn law_unprefixed_keeps_untagged(name: Seq<char>)
    requires
        name.len() == 0 || name[0] != '[' || forall|i: int|
            1 <= i < name.len() - 1 ==> !(#[trigger] name[i] == ']' && name[i + 1] == ' '),
    ensures
        unprefixed_spec(name) == name,
{
    if name.len() > 0 && name[0] == '[' {
        lemma_find_close_none(name, 1);
    }
}

proof fn lemma_find_close_none(s: Seq<char>, from: int)
    requires
        0 <= from,
        forall|i: int| from <= i < s.len() - 1 ==> !(#[trigger] s[i] == ']' && s[i + 1] == ' '),
    ensures
        find_close_from(s, from) == -1,
    decreases s.len() - from,
{
    if from + 1 < s.len() {
        lemma_find_close_none(s, from + 1);
    }
}

/// Law: a canonical provider id holds no ASCII upper-case letter, and,
/// but for the fixed ids `openai`, `xai` and `unknown`, it is the trimmed
/// name with each letter `A`..=`Z` replaced by its lower-case letter and
/// every other character kept.
pub proof fn law_canonical_provider_lower_case(provider: Seq<char>)
    ensures
        forall|i: int|
            0 <= i < canonical_provider_spec(provider).len() ==> !('A' <= #[trigger] canonical_provider_spec(
                provider,
            )[i] && canonical_provider_spec(provider)[i] <= 'Z'),
        canonical_provider_spec(provider) == "openai"@ || canonical_provider_spec(provider) == "xai"@
            || canonical_provider_spec(provider) == "unknown"@ || {
            let t = trim_seq(provider);
            let r = canonical_provider_spec(provider);
            &&& r.len() == t.len()
            &&& forall|i: int|
                0 <= i < t.len() ==> if 'A' <= #[trigger] t[i] && t[i] <= 'Z' {
                    r[i] as int == t[i] as int + 32
                } else {
                    r[i] == t[i]
                }
        },
{
    reveal_strlit("openai-codex");
    reveal_strlit("xai-auth");
    reveal_strlit("openai");
    reveal_strlit("xai");
    reveal_strlit("unknown");
    let r = canonical_provider_spec(provider);
    let t = trim_seq(provider);
    let p = lower_seq(t);
    assert forall|i: int| 0 <= i < p.len() implies !('A' <= #[trigger] p[i] && p[i] <= 'Z') by {
        assert(p[i] == ascii_lower(t[i]));
        if 'A' <= t[i] && t[i] <= 'Z' {
            assert(p[i] as int == t[i] as int + 32);
        }
    }
    assert forall|i: int| 0 <= i < t.len() implies if 'A' <= #[trigger] t[i] && t[i] <= 'Z' {
        p[i] as int == t[i] as int + 32
    } else {
        p[i] == t[i]
    } by {
        assert(p[i] == ascii_lower(t[i]));
    }
    if r != p {
        assert forall|i: int| 0 <= i < r.len() implies !('A' <= #[trigger] r[i] && r[i] <= 'Z') by {
        }
    }
}

} // verus!
