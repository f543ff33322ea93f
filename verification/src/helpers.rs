//! Failure strategy and shared helpers: template substitution and the
//! cartesian product of parameter values.
use vstd::prelude::*;

use crate::order::{lemma_lex_irreflexive, lemma_sorted_is_sorted_elements, sort_keys, sorted_elements, strictly_sorted, views};
use crate::strmap::StringMap;
use crate::text::{decimal, decimal_string, replace_all, replaced};

verus! {

broadcast use vstd::string::group_string_axioms;

/// How a pattern reacts when a step reports failure.
#[derive(Debug, Clone, Copy, PartialEq, Eq, Structural)]
pub enum FailureStrategy {
    /// Continue with the remaining steps; the pattern returns the per-step
    /// results. The default.
    Continue,
    /// Abort on the first failing step with `Error::PatternStopped`.
    FailFast,
}

impl Default for FailureStrategy {
    fn default() -> (r: Self)
        ensures
            r == FailureStrategy::Continue,
    {
        FailureStrategy::Continue
    }
}

/// The wire name of a strategy.
pub open spec fn wire_of(s: FailureStrategy) -> Seq<char> {
    match s {
        FailureStrategy::Continue => "continue"@,
        FailureStrategy::FailFast => "fail_fast"@,
    }
}

/// The strategy a wire name stands for: `""` and `"continue"` mean
/// `Continue`, `"fail_fast"` means `FailFast`; nothing else is one.
pub open spec fn parse_wire(w: Seq<char>) -> Option<FailureStrategy> {
    if w == ""@ || w == "continue"@ {
        Some(FailureStrategy::Continue)
    } else if w == "fail_fast"@ {
        Some(FailureStrategy::FailFast)
    } else {
        None
    }
}

impl FailureStrategy {
    /// The wire name: `"continue"` or `"fail_fast"`.
    pub fn wire_name(&self) -> (r: &'static str)
        ensures
            r@ == wire_of(*self),
    {
        match self {
            FailureStrategy::Continue => "continue",
            FailureStrategy::FailFast => "fail_fast",
        }
    }

    /// Parses a wire name (see [`parse_wire`]); anything else is rejected
    /// with the message the deserializer reports.
    pub fn from_wire(s: &str) -> (r: Result<Self, String>)
        ensures
            match parse_wire(s@) {
                Some(x) => r == Ok::<Self, String>(x),
                None => r matches Err(m) && m@ == "unknown failure_strategy '"@ + s@
                    + "', expected 'continue' or 'fail_fast'"@,
            },
    {
        proof {
            lemma_wire_names_differ();
        }
        if crate::text::str_eq(s, "") || crate::text::str_eq(s, "continue") {
            Ok(FailureStrategy::Continue)
        } else if crate::text::str_eq(s, "fail_fast") {
            Ok(FailureStrategy::FailFast)
        } else {
            let mut m = "unknown failure_strategy '".to_string();
            m.append(s);
            m.append("', expected 'continue' or 'fail_fast'");
            Err(m)
        }
    }
}

proof fn lemma_wire_names_differ()
    ensures
        "fail_fast"@ != "continue"@,
        "fail_fast"@ != ""@,
{
    reveal_strlit("");
    reveal_strlit("continue");
    reveal_strlit("fail_fast");
    assert("fail_fast"@[0] != "continue"@[0]);
    assert("fail_fast"@.len() != ""@.len());
}

/// Parsing a strategy's wire name gives the strategy back.
pub proof fn lemma_wire_round_trip(s: FailureStrategy)
    ensures
        parse_wire(wire_of(s)) == Some(s),
{
    lemma_wire_names_differ();
}

/// The placeholder `{{.key}}`.
pub open spec fn dotted_placeholder(key: Seq<char>) -> Seq<char> {
    "{{."@ + key + "}}"@
}

/// The placeholder `{{key}}`.
pub open spec fn plain_placeholder(key: Seq<char>) -> Seq<char> {
    "{{"@ + key + "}}"@
}

/// `s` after substituting each parameter in turn: first `{{.key}}`, then
/// `{{key}}`, both by the value.
pub open spec fn with_params(s: Seq<char>, pairs: Seq<(String, String)>) -> Seq<char>
    decreases pairs.len(),
{
    if pairs.len() == 0 {
        s
    } else {
        let (k, v) = pairs.last();
        let t = with_params(s, pairs.drop_last());
        replaced(replaced(t, dotted_placeholder(k@), v@), plain_placeholder(k@), v@)
    }
}

/// The result of `substitute_template`: `{{item}}` becomes `item`, then
/// `{{index}}` becomes the decimal `index`, then each parameter, in the
/// order of `pairs`, replaces `{{.key}}` and `{{key}}`.
pub open spec fn substituted(tmpl: Seq<char>, item: Seq<char>, index: nat, pairs: Seq<(String, String)>) -> Seq<char> {
    with_params(replaced(replaced(tmpl, "{{item}}"@, item), "{{index}}"@, decimal(index)), pairs)
}

proof fn lemma_replaced_absent(s: Seq<char>, pat: Seq<char>, rep: Seq<char>)
    requires
        pat.len() > 0,
        !s.contains(pat[0]),
    ensures
        replaced(s, pat, rep) == s,
    decreases s.len(),
{
    if s.len() > 0 {
        if pat.len() <= s.len() && s.take(pat.len() as int) == pat {
            assert(s.take(pat.len() as int)[0] == s[0]);
            assert(s.contains(s[0]));
        }
        assert forall|c: char| s.skip(1).contains(c) implies s.contains(c) by {
            let k = choose|k: int| 0 <= k < s.skip(1).len() && s.skip(1)[k] == c;
            assert(s[k + 1] == c);
        }
        lemma_replaced_absent(s.skip(1), pat, rep);
        assert(s =~= seq![s[0]] + s.skip(1));
    }
}

proof fn lemma_with_params_absent(s: Seq<char>, pairs: Seq<(String, String)>)
    requires
        !s.contains('{'),
    ensures
        with_params(s, pairs) == s,
    decreases pairs.len(),
{
    if pairs.len() > 0 {
        lemma_with_params_absent(s, pairs.drop_last());
        let (k, v) = pairs.last();
        reveal_strlit("{{.");
        reveal_strlit("{{");
        assert(dotted_placeholder(k@)[0] == '{');
        assert(plain_placeholder(k@)[0] == '{');
        lemma_replaced_absent(s, dotted_placeholder(k@), v@);
        lemma_replaced_absent(s, plain_placeholder(k@), v@);
    }
}

/// A template without `{` has no placeholder: it comes back unchanged,
/// whatever the item, index and parameters.
pub proof fn lemma_template_without_braces_unchanged(tmpl: Seq<char>, item: Seq<char>, index: nat, pairs: Seq<(String, String)>)
    requires
        !tmpl.contains('{'),
    ensures
        substituted(tmpl, item, index, pairs) == tmpl,
{
    reveal_strlit("{{item}}");
    reveal_strlit("{{index}}");
    assert("{{item}}"@[0] == '{');
    assert("{{index}}"@[0] == '{');
    lemma_replaced_absent(tmpl, "{{item}}"@, item);
    lemma_replaced_absent(tmpl, "{{index}}"@, decimal(index));
    lemma_with_params_absent(tmpl, pairs);
}

/// A key that placeholders can hold unambiguously: no `{`, `}` or `.`.
pub open spec fn plain_key(k: Seq<char>) -> bool {
    !k.contains('{') && !k.contains('}') && !k.contains('.')
}

/// The placeholder of `key` in either form: `{{.key}}` when `dotted`,
/// `{{key}}` otherwise.
pub open spec fn placeholder_form(key: Seq<char>, dotted: bool) -> Seq<char> {
    if dotted {
        dotted_placeholder(key)
    } else {
        plain_placeholder(key)
    }
}

/// The template made of the placeholders of the entries picked by `ids`,
/// one after the other: `(a, dotted)` stands for the placeholder of
/// `pairs[a]`'s key in the form `dotted` says.
pub open spec fn placeholders_for(pairs: Seq<(String, String)>, ids: Seq<(int, bool)>) -> Seq<char>
    decreases ids.len(),
{
    if ids.len() == 0 {
        seq![]
    } else {
        placeholder_form(pairs[ids[0].0].0@, ids[0].1) + placeholders_for(pairs, ids.skip(1))
    }
}

/// The values of the entries picked by `ids`, one after the other.
pub open spec fn values_for(pairs: Seq<(String, String)>, ids: Seq<(int, bool)>) -> Seq<char>
    decreases ids.len(),
{
    if ids.len() == 0 {
        seq![]
    } else {
        pairs[ids[0].0].1@ + values_for(pairs, ids.skip(1))
    }
}

/// Whether a placeholder of entry `id` in form `dotted` has been replaced
/// once the entries before `i` were substituted, and, when `half`, the
/// dotted placeholders of entry `i` too.
spec fn replaced_yet(id: int, dotted: bool, i: int, half: bool) -> bool {
    id < i || (id == i && half && dotted)
}

/// The template part-way through the substitution (see `replaced_yet`).
spec fn partly_substituted(pairs: Seq<(String, String)>, ids: Seq<(int, bool)>, i: int, half: bool) -> Seq<char>
    decreases ids.len(),
{
    if ids.len() == 0 {
        seq![]
    } else {
        (if replaced_yet(ids[0].0, ids[0].1, i, half) {
            pairs[ids[0].0].1@
        } else {
            placeholder_form(pairs[ids[0].0].0@, ids[0].1)
        }) + partly_substituted(pairs, ids.skip(1), i, half)
    }
}

proof fn lemma_no_brace_tail(a: Seq<char>)
    requires
        !a.contains('{'),
        a.len() > 0,
    ensures
        !a.skip(1).contains('{'),
        a[0] != '{',
{
    assert(a.contains(a[0]));
    if a.skip(1).contains('{') {
        let k = choose|k: int| 0 <= k < a.skip(1).len() && a.skip(1)[k] == '{';
        assert(a[k + 1] == '{');
        assert(a.contains('{'));
    }
}

/// Text without `{` is passed over by the substitution of a pattern that
/// starts with `{`.
proof fn lemma_replaced_passes_text(a: Seq<char>, b: Seq<char>, pat: Seq<char>, rep: Seq<char>)
    requires
        !a.contains('{'),
        pat.len() > 0,
        pat[0] == '{',
    ensures
        replaced(a + b, pat, rep) == a + replaced(b, pat, rep),
    decreases a.len(),
{
    if a.len() > 0 {
        let s = a + b;
        lemma_no_brace_tail(a);
        assert(s[0] == a[0]);
        if pat.len() <= s.len() && s.take(pat.len() as int) == pat {
            assert(s.take(pat.len() as int)[0] == s[0]);
        }
        assert(s.skip(1) =~= a.skip(1) + b);
        lemma_replaced_passes_text(a.skip(1), b, pat, rep);
        assert(seq![a[0]] + (a.skip(1) + replaced(b, pat, rep)) =~= a + replaced(b, pat, rep));
    } else {
        assert(a + b =~= b);
    }
}

/// A placeholder is replaced where the pattern is that very placeholder.
proof fn lemma_replaced_takes_placeholder(pat: Seq<char>, b: Seq<char>, rep: Seq<char>)
    requires
        pat.len() > 0,
    ensures
        replaced(pat + b, pat, rep) == rep + replaced(b, pat, rep),
{
    assert((pat + b).take(pat.len() as int) =~= pat);
    assert((pat + b).skip(pat.len() as int) =~= b);
}

/// The characters of a placeholder of a plain key `k`: `{{`, then `.` when
/// dotted, then `k`, then `}}`.
proof fn lemma_placeholder_chars(k: Seq<char>, dotted: bool)
    requires
        plain_key(k),
    ensures
        ({
            let p = placeholder_form(k, dotted);
            let off: int = if dotted { 3 } else { 2 };
            &&& p.len() == k.len() + off + 2
            &&& p[0] == '{'
            &&& p[1] == '{'
            &&& forall|i: int| 0 <= i < k.len() ==> p[i + off] == #[trigger] k[i]
            &&& p[k.len() + off] == '}'
            &&& p[k.len() + off + 1] == '}'
            &&& !p.skip(2).contains('{')
            &&& (p[2] == '.' <==> dotted)
        }),
{
    reveal_strlit("{{");
    reveal_strlit("{{.");
    reveal_strlit("}}");
    let p = placeholder_form(k, dotted);
    let off: int = if dotted { 3 } else { 2 };
    assert forall|i: int| 0 <= i < k.len() implies p[i + off] == #[trigger] k[i] by {}
    if p.skip(2).contains('{') {
        let x = choose|x: int| 0 <= x < p.skip(2).len() && p.skip(2)[x] == '{';
        if 2 + x >= off && 2 + x - off < k.len() {
            assert(p[2 + x] == k[2 + x - off]);
            assert(k.contains(k[2 + x - off]));
        }
    }
    if !dotted && k.len() > 0 {
        assert(p[2] == k[0]);
        assert(k.contains(k[0]));
    }
}

/// Where `s` differs from the pattern at some position the pattern covers,
/// no occurrence starts at the front of `s`.
proof fn lemma_replaced_no_match_at_front(s: Seq<char>, pat: Seq<char>, rep: Seq<char>, j: int)
    requires
        0 <= j < pat.len(),
        j < s.len(),
        s[j] != pat[j],
    ensures
        replaced(s, pat, rep) == seq![s[0]] + replaced(s.skip(1), pat, rep),
{
    if pat.len() <= s.len() {
        assert(s.take(pat.len() as int)[j] == s[j]);
    }
}

proof fn lemma_split_front_two(p: Seq<char>, t: Seq<char>)
    requires
        p.len() >= 2,
    ensures
        seq![p[0]] + (seq![p[1]] + (p.skip(2) + t)) == p + t,
{
    assert(seq![p[0]] + (seq![p[1]] + (p.skip(2) + t)) =~= p + t);
}

/// The substitution of a pattern starting with `{{` passes over a
/// placeholder `p` that differs from the pattern at position `j` (no other
/// `{` follows its opening `{{`).
proof fn lemma_replaced_passes_placeholder(p: Seq<char>, b: Seq<char>, pat: Seq<char>, rep: Seq<char>, j: int)
    requires
        p.len() >= 3,
        p[0] == '{',
        p[1] == '{',
        !p.skip(2).contains('{'),
        pat.len() >= 2,
        pat[0] == '{',
        pat[1] == '{',
        0 <= j < pat.len(),
        j < p.len(),
        pat[j] != p[j],
    ensures
        replaced(p + b, pat, rep) == p + replaced(b, pat, rep),
{
    let s = p + b;
    let s1 = s.skip(1);
    assert(s[j] == p[j]);
    lemma_replaced_no_match_at_front(s, pat, rep, j);
    assert(p.skip(2)[0] == p[2]);
    assert(p.skip(2).contains(p[2]));
    assert(s1[1] == p[2]);
    lemma_replaced_no_match_at_front(s1, pat, rep, 1);
    assert(s1.skip(1) =~= p.skip(2) + b);
    lemma_replaced_passes_text(p.skip(2), b, pat, rep);
    assert(s[0] == p[0] && s1[0] == p[1]);
    lemma_split_front_two(p, replaced(b, pat, rep));
}

/// Placeholders of two different plain keys, in the same form, differ at
/// some position.
proof fn lemma_placeholders_differ(k0: Seq<char>, k: Seq<char>, dotted: bool) -> (j: int)
    requires
        plain_key(k0),
        plain_key(k),
        k0 != k,
    ensures
        0 <= j < placeholder_form(k0, dotted).len(),
        j < placeholder_form(k, dotted).len(),
        placeholder_form(k0, dotted)[j] != placeholder_form(k, dotted)[j],
{
    lemma_placeholder_chars(k0, dotted);
    lemma_placeholder_chars(k, dotted);
    let off: int = if dotted { 3 } else { 2 };
    let p0 = placeholder_form(k0, dotted);
    let p = placeholder_form(k, dotted);
    if k0.len() == k.len() {
        if forall|x: int| 0 <= x < k.len() ==> k0[x] == k[x] {
            assert(k0 =~= k);
        }
        let x = choose|x: int| 0 <= x < k.len() && k0[x] != k[x];
        assert(p0[x + off] == k0[x]);
        assert(p[x + off] == k[x]);
        x + off
    } else if k0.len() < k.len() {
        let x = k0.len() as int;
        assert(p[x + off] == k[x]);
        assert(k.contains(k[x]));
        x + off
    } else {
        let x = k.len() as int;
        assert(p0[x + off] == k0[x]);
        assert(k0.contains(k0[x]));
        x + off
    }
}

/// The substitution of a placeholder of plain key `k0` in form `d0` passes
/// over a placeholder of plain key `k` in form `d` unless they are the same.
proof fn lemma_other_placeholder_passed(k0: Seq<char>, d0: bool, k: Seq<char>, d: bool, b: Seq<char>, rep: Seq<char>)
    requires
        plain_key(k0),
        plain_key(k),
        k0 != k || d0 != d,
    ensures
        replaced(placeholder_form(k, d) + b, placeholder_form(k0, d0), rep) == placeholder_form(k, d) + replaced(
            b,
            placeholder_form(k0, d0),
            rep,
        ),
{
    lemma_placeholder_chars(k0, d0);
    lemma_placeholder_chars(k, d);
    let j = if d0 != d {
        2
    } else {
        lemma_placeholders_differ(k0, k, d)
    };
    lemma_replaced_passes_placeholder(placeholder_form(k, d), b, placeholder_form(k0, d0), rep, j);
}

/// The entries' keys are plain and distinct, their values hold no `{`, and
/// `ids` picks entries.
pub open spec fn plain_entries(pairs: Seq<(String, String)>, ids: Seq<(int, bool)>) -> bool {
    &&& forall|a: int| 0 <= a < pairs.len() ==> plain_key(#[trigger] pairs[a].0@) && !pairs[a].1@.contains('{')
    &&& forall|a: int, b: int| 0 <= a < b < pairs.len() ==> #[trigger] pairs[a].0@ != #[trigger] pairs[b].0@
    &&& forall|x: int| 0 <= x < ids.len() ==> 0 <= #[trigger] ids[x].0 < pairs.len()
}

proof fn lemma_plain_entries_rest(pairs: Seq<(String, String)>, ids: Seq<(int, bool)>)
    requires
        plain_entries(pairs, ids),
        ids.len() > 0,
    ensures
        plain_entries(pairs, ids.skip(1)),
        plain_key(pairs[ids[0].0].0@),
        !pairs[ids[0].0].1@.contains('{'),
{
    let rest = ids.skip(1);
    assert forall|x: int| 0 <= x < rest.len() implies 0 <= #[trigger] rest[x].0 < pairs.len() by {
        assert(rest[x] == ids[x + 1]);
    }
    assert(0 <= ids[0].0 < pairs.len());
    assert(plain_key(pairs[ids[0].0].0@));
}

/// Substituting entry `i`'s value for its placeholders in form `d0`, at
/// stage `half` of entry `i`, moves the template one stage on.
proof fn lemma_substitution_step(pairs: Seq<(String, String)>, ids: Seq<(int, bool)>, i: int, d0: bool)
    requires
        plain_entries(pairs, ids),
        0 <= i < pairs.len(),
    ensures
        replaced(partly_substituted(pairs, ids, i, !d0), placeholder_form(pairs[i].0@, d0), pairs[i].1@) == if d0 {
            partly_substituted(pairs, ids, i, true)
        } else {
            partly_substituted(pairs, ids, i + 1, false)
        },
    decreases ids.len(),
{
    let k0 = pairs[i].0@;
    let v = pairs[i].1@;
    let pat = placeholder_form(k0, d0);
    assert(plain_key(pairs[i].0@));
    lemma_placeholder_chars(k0, d0);
    if ids.len() == 0 {
        assert(replaced(seq![], pat, v) =~= seq![]);
    } else {
        let rest = ids.skip(1);
        lemma_plain_entries_rest(pairs, ids);
        lemma_substitution_step(pairs, rest, i, d0);
        let (id, d) = ids[0];
        let tail = partly_substituted(pairs, rest, i, !d0);
        if replaced_yet(id, d, i, !d0) {
            lemma_replaced_passes_text(pairs[id].1@, tail, pat, v);
        } else if id == i && d == d0 {
            lemma_replaced_takes_placeholder(pat, tail, v);
        } else {
            if id != i {
                assert(pairs[id].0@ != k0);
            }
            lemma_other_placeholder_passed(k0, d0, pairs[id].0@, d, tail, v);
        }
    }
}

/// The substitution of a placeholder whose key no entry has leaves a
/// template of entry placeholders as it is.
proof fn lemma_foreign_placeholder_passes(pairs: Seq<(String, String)>, ids: Seq<(int, bool)>, k0: Seq<char>, v: Seq<char>)
    requires
        plain_entries(pairs, ids),
        plain_key(k0),
        forall|a: int| 0 <= a < pairs.len() ==> #[trigger] pairs[a].0@ != k0,
    ensures
        replaced(placeholders_for(pairs, ids), plain_placeholder(k0), v) == placeholders_for(pairs, ids),
    decreases ids.len(),
{
    let pat = plain_placeholder(k0);
    lemma_placeholder_chars(k0, false);
    if ids.len() == 0 {
        assert(replaced(seq![], pat, v) =~= seq![]);
    } else {
        let rest = ids.skip(1);
        lemma_plain_entries_rest(pairs, ids);
        lemma_foreign_placeholder_passes(pairs, rest, k0, v);
        let (id, d) = ids[0];
        assert(pairs[id].0@ != k0);
        lemma_other_placeholder_passed(k0, false, pairs[id].0@, d, placeholders_for(pairs, rest), v);
    }
}

proof fn lemma_partly_ends(pairs: Seq<(String, String)>, ids: Seq<(int, bool)>)
    requires
        plain_entries(pairs, ids),
    ensures
        partly_substituted(pairs, ids, 0, false) == placeholders_for(pairs, ids),
        partly_substituted(pairs, ids, pairs.len() as int, false) == values_for(pairs, ids),
    decreases ids.len(),
{
    if ids.len() > 0 {
        lemma_plain_entries_rest(pairs, ids);
        lemma_partly_ends(pairs, ids.skip(1));
    }
}

proof fn lemma_with_params_prefix(pairs: Seq<(String, String)>, ids: Seq<(int, bool)>, i: int)
    requires
        plain_entries(pairs, ids),
        0 <= i <= pairs.len(),
    ensures
        with_params(placeholders_for(pairs, ids), pairs.take(i)) == partly_substituted(pairs, ids, i, false),
    decreases i,
{
    if i > 0 {
        lemma_with_params_prefix(pairs, ids, i - 1);
        let ps = pairs.take(i);
        assert(ps.drop_last() =~= pairs.take(i - 1));
        assert(ps.last() == pairs[i - 1]);
        lemma_substitution_step(pairs, ids, i - 1, true);
        lemma_substitution_step(pairs, ids, i - 1, false);
    } else {
        lemma_partly_ends(pairs, ids);
        assert(pairs.take(0).len() == 0);
    }
}

/// Every parameter is substituted, in both placeholder forms: a template
/// made of placeholders `{{key}}` and `{{.key}}` of any entries, in any
/// order and with repeats, becomes the same entries' values one after the
/// other, provided the keys are distinct and hold no `{`, `}` or `.`, and
/// the values hold no `{`.
pub proof fn lemma_placeholders_become_values(pairs: Seq<(String, String)>, ids: Seq<(int, bool)>)
    requires
        plain_entries(pairs, ids),
    ensures
        with_params(placeholders_for(pairs, ids), pairs) == values_for(pairs, ids),
{
    lemma_partly_ends(pairs, ids);
    lemma_with_params_prefix(pairs, ids, pairs.len() as int);
    assert(pairs.take(pairs.len() as int) =~= pairs);
}

/// What `substitute_template` makes of a template of parameter
/// placeholders: the parameters' values one after the other, whatever the
/// item and index, when no key is `item` or `index`.
pub proof fn lemma_substituted_placeholders(item: Seq<char>, index: nat, pairs: Seq<(String, String)>, ids: Seq<(int, bool)>)
    requires
        plain_entries(pairs, ids),
        forall|a: int| 0 <= a < pairs.len() ==> #[trigger] pairs[a].0@ != "item"@ && pairs[a].0@ != "index"@,
    ensures
        substituted(placeholders_for(pairs, ids), item, index, pairs) == values_for(pairs, ids),
{
    reveal_strlit("{{item}}");
    reveal_strlit("{{index}}");
    reveal_strlit("item");
    reveal_strlit("index");
    reveal_strlit("{{");
    reveal_strlit("}}");
    assert(plain_placeholder("item"@) =~= "{{item}}"@);
    assert(plain_placeholder("index"@) =~= "{{index}}"@);
    assert(plain_key("item"@)) by {
        if "item"@.contains('{') || "item"@.contains('}') || "item"@.contains('.') {
            let x = choose|x: int| 0 <= x < 4 && ("item"@[x] == '{' || "item"@[x] == '}' || "item"@[x] == '.');
        }
    }
    assert(plain_key("index"@)) by {
        if "index"@.contains('{') || "index"@.contains('}') || "index"@.contains('.') {
            let x = choose|x: int| 0 <= x < 5 && ("index"@[x] == '{' || "index"@[x] == '}' || "index"@[x] == '.');
        }
    }
    lemma_foreign_placeholder_passes(pairs, ids, "item"@, item);
    lemma_foreign_placeholder_passes(pairs, ids, "index"@, decimal(index));
    lemma_placeholders_become_values(pairs, ids);
}

fn placeholder(open: &str, key: &str) -> (r: String)
    requires
        open@.len() > 0,
    ensures
        r@ == open@ + key@ + "}}"@,
        r@.len() > 0,
{
    let mut s = open.to_string();
    s.append(key);
    s.append("}}");
    s
}

/// Replaces template variables in `tmpl`: `{{item}}` by `item`,
/// `{{index}}` by `index`, and for each parameter `{{.name}}` and
/// `{{name}}` by its value. Unknown placeholders are left as they are.
pub fn substitute_template(tmpl: &str, item: &str, index: usize, params: &StringMap<String>) -> (r: String)
    ensures
        r@ == substituted(tmpl@, item@, index as nat, params.pairs()),
        forall|ids: Seq<(int, bool)>|
            #![trigger placeholders_for(params.pairs(), ids)]
            tmpl@ == placeholders_for(params.pairs(), ids) && plain_entries(params.pairs(), ids) && (forall|a: int|
                0 <= a < params.pairs().len() ==> #[trigger] params.pairs()[a].0@ != "item"@ && params.pairs()[a].0@
                    != "index"@) ==> r@ == values_for(params.pairs(), ids),
{
    proof {
        assert forall|ids: Seq<(int, bool)>|
            #![trigger placeholders_for(params.pairs(), ids)]
            tmpl@ == placeholders_for(params.pairs(), ids) && plain_entries(params.pairs(), ids) && (forall|a: int|
                0 <= a < params.pairs().len() ==> #[trigger] params.pairs()[a].0@ != "item"@ && params.pairs()[a].0@
                    != "index"@) implies substituted(tmpl@, item@, index as nat, params.pairs()) == values_for(params.pairs(), ids) by {
            lemma_substituted_placeholders(item@, index as nat, params.pairs(), ids);
        }
    }
    proof {
        reveal_strlit("{{item}}");
        reveal_strlit("{{index}}");
        reveal_strlit("{{.");
        reveal_strlit("{{");
    }
    let out0 = replace_all(tmpl, "{{item}}", item);
    let idx = decimal_string(index);
    let mut out = replace_all(out0.as_str(), "{{index}}", idx.as_str());
    let ghost start = out@;
    let n = params.len();
    let mut i: usize = 0;
    while i < n
        invariant
            n == params.pairs().len(),
            i <= n,
            "{{."@.len() > 0,
            "{{"@.len() > 0,
            out@ == with_params(start, params.pairs().take(i as int)),
        decreases n - i,
    {
        let key = params.key_at(i);
        let value = params.value_at(i);
        let dotted = placeholder("{{.", key.as_str());
        let plain = placeholder("{{", key.as_str());
        let step = replace_all(out.as_str(), dotted.as_str(), value.as_str());
        out = replace_all(step.as_str(), plain.as_str(), value.as_str());
        proof {
            let ps = params.pairs().take(i + 1);
            assert(ps.drop_last() =~= params.pairs().take(i as int));
            assert(ps.last() == params.pairs()[i as int]);
        }
        i += 1;
    }
    assert(params.pairs().take(n as int) =~= params.pairs());
    out
}


/// Each tail with `h` put in front of it.
pub open spec fn prefixed<T>(h: T, tails: Seq<Seq<T>>) -> Seq<Seq<T>> {
    tails.map_values(|t: Seq<T>| seq![h] + t)
}

/// For each head in order, every tail with that head in front.
pub open spec fn prepend_each<T>(heads: Seq<T>, tails: Seq<Seq<T>>) -> Seq<Seq<T>>
    decreases heads.len(),
{
    if heads.len() == 0 {
        seq![]
    } else {
        prepend_each(heads.drop_last(), tails) + prefixed(heads.last(), tails)
    }
}

/// The cartesian product of `choices`: every way to pick one element from
/// each list, with the first list varying slowest.
pub open spec fn product<T>(choices: Seq<Seq<T>>) -> Seq<Seq<T>>
    decreases choices.len(),
{
    if choices.len() == 0 {
        seq![seq![]]
    } else {
        prepend_each(choices[0], product(choices.drop_first()))
    }
}

/// The product of the lengths of `choices`.
pub open spec fn product_size<T>(choices: Seq<Seq<T>>) -> nat
    decreases choices.len(),
{
    if choices.len() == 0 {
        1
    } else {
        choices[0].len() * product_size(choices.drop_first())
    }
}

/// The views of a list of string lists.
pub open spec fn deep_views(s: Seq<Vec<String>>) -> Seq<Seq<Seq<char>>> {
    s.map_values(|t: Vec<String>| views(t@))
}

/// The keys of `params`, in ascending order.
pub open spec fn parameter_keys(params: Map<Seq<char>, Vec<String>>) -> Seq<Seq<char>> {
    sorted_elements(params.dom())
}

/// The value lists of `params`, in ascending key order.
pub open spec fn parameter_choices(params: Map<Seq<char>, Vec<String>>) -> Seq<Seq<Seq<char>>> {
    parameter_keys(params).map_values(|k: Seq<char>| views(params[k]@))
}

/// Every combination of parameter values, one value per key, keys in
/// ascending order, the first key varying slowest. No parameters give no
/// combinations.
pub open spec fn parameter_table(params: Map<Seq<char>, Vec<String>>) -> Seq<Seq<Seq<char>>> {
    if params.dom().len() == 0 {
        seq![]
    } else {
        product(parameter_choices(params))
    }
}

/// `combo` assigns `row[i]` to the `i`-th of `keys`, with its keys in that order.
pub open spec fn assigns(combo: StringMap<String>, keys: Seq<Seq<char>>, row: Seq<Seq<char>>) -> bool {
    &&& combo.keys() == keys
    &&& forall|i: int| 0 <= i < keys.len() ==> combo@[keys[i]]@ == #[trigger] row[i]
}

proof fn lemma_prepend_each_len<T>(heads: Seq<T>, tails: Seq<Seq<T>>)
    ensures
        prepend_each(heads, tails).len() == heads.len() * tails.len(),
    decreases heads.len(),
{
    if heads.len() > 0 {
        lemma_prepend_each_len(heads.drop_last(), tails);
        let h = heads.len() as int;
        let t = tails.len() as int;
        assert((h - 1) * t + t == h * t) by (nonlinear_arith);
    }
}

proof fn lemma_prepend_each_index<T>(heads: Seq<T>, tails: Seq<Seq<T>>, j: int, k: int)
    requires
        0 <= j < heads.len(),
        0 <= k < tails.len(),
    ensures
        0 <= j * tails.len() + k < prepend_each(heads, tails).len(),
        prepend_each(heads, tails)[j * tails.len() + k] == seq![heads[j]] + tails[k],
    decreases heads.len(),
{
    lemma_prepend_each_len(heads, tails);
    lemma_prepend_each_len(heads.drop_last(), tails);
    let t = tails.len() as int;
    let h = heads.len() as int;
    assert(j * t + k < h * t) by (nonlinear_arith)
        requires
            0 <= j < h,
            0 <= k < t,
    ;
    assert(0 <= j * t) by (nonlinear_arith)
        requires
            0 <= j,
            0 <= t,
    ;
    if j < h - 1 {
        lemma_prepend_each_index(heads.drop_last(), tails, j, k);
        assert(j * t + k < (h - 1) * t) by (nonlinear_arith)
            requires
                0 <= j < h - 1,
                0 <= k < t,
        ;
    } else {
        assert((h - 1) * t == j * t);
    }
}

/// The cartesian product has one entry per way of picking.
pub proof fn lemma_product_size<T>(choices: Seq<Seq<T>>)
    ensures
        product(choices).len() == product_size(choices),
    decreases choices.len(),
{
    if choices.len() > 0 {
        lemma_product_size(choices.drop_first());
        lemma_prepend_each_len(choices[0], product(choices.drop_first()));
    }
}

/// Each entry of the cartesian product picks, for every list, one of its
/// elements.
pub proof fn lemma_product_picks<T>(choices: Seq<Seq<T>>, c: int)
    requires
        0 <= c < product(choices).len(),
    ensures
        product(choices)[c].len() == choices.len(),
        forall|i: int| 0 <= i < choices.len() ==> choices[i].contains(#[trigger] product(choices)[c][i]),
    decreases choices.len(),
{
    if choices.len() > 0 {
        let rest = product(choices.drop_first());
        let heads = choices[0];
        lemma_prepend_each_len(heads, rest);
        let t = rest.len() as int;
        assert(t > 0) by {
            assert(heads.len() * t > 0);
            if t <= 0 {
                assert(heads.len() * t <= 0) by (nonlinear_arith)
                    requires
                        t <= 0,
                        heads.len() >= 0,
                ;
            }
        }
        let j = c / t;
        let k = c % t;
        assert(c == j * t + k && 0 <= k < t) by (nonlinear_arith)
            requires
                t > 0,
                j == c / t,
                k == c % t,
        ;
        assert(0 <= j < heads.len()) by (nonlinear_arith)
            requires
                t > 0,
                0 <= c < heads.len() * t,
                j == c / t,
        ;
        lemma_prepend_each_index(heads, rest, j, k);
        lemma_product_picks(choices.drop_first(), k);
        let row = product(choices)[c];
        assert(row == seq![heads[j]] + rest[k]);
        assert forall|i: int| 0 <= i < choices.len() implies choices[i].contains(#[trigger] row[i]) by {
            if i == 0 {
                assert(row[0] == heads[j]);
            } else {
                assert(row[i] == rest[k][i - 1]);
                assert(choices.drop_first()[i - 1] == choices[i]);
                assert(choices.drop_first()[i - 1].contains(rest[k][i - 1]));
            }
        }
    }
}

/// The combinations depend only on the contents of the parameter map: two
/// maps with the same keys and value lists give the same combinations in
/// the same order, however their entries were inserted.
pub proof fn lemma_table_depends_on_contents(a: &StringMap<Vec<String>>, b: &StringMap<Vec<String>>)
    requires
        a@ == b@,
    ensures
        parameter_table(a@) == parameter_table(b@),
        parameter_keys(a@) == parameter_keys(b@),
{
}

/// A copy of a list of strings.
fn copy_strings(v: &Vec<String>) -> (r: Vec<String>)
    ensures
        r@ == v@,
{
    let mut out: Vec<String> = Vec::new();
    let mut i: usize = 0;
    while i < v.len()
        invariant
            i <= v.len(),
            out@ == v@.take(i as int),
        decreases v.len() - i,
    {
        out.push(v[i].clone());
        assert(out@ =~= v@.take(i + 1));
        i += 1;
    }
    assert(out@ =~= v@);
    out
}

/// `h` followed by the strings of `tail`.
fn prepend_row(h: &String, tail: &Vec<String>) -> (r: Vec<String>)
    ensures
        views(r@) == seq![h@] + views(tail@),
{
    let mut row: Vec<String> = Vec::new();
    row.push(h.clone());
    let mut i: usize = 0;
    while i < tail.len()
        invariant
            i <= tail.len(),
            views(row@) == seq![h@] + views(tail@).take(i as int),
        decreases tail.len() - i,
    {
        let ghost prev = row@;
        let x = tail[i].clone();
        row.push(x);
        assert(row@ == prev.push(x));
        assert(views(row@) =~= views(prev).push(x@));
        assert(views(tail@).take(i + 1) =~= views(tail@).take(i as int).push(x@));
        assert(views(row@) =~= seq![h@] + views(tail@).take(i + 1));
        i += 1;
    }
    assert(views(tail@).take(tail.len() as int) =~= views(tail@));
    row
}

/// Every row of `tails` with each of `heads` in front, heads varying slowest.
fn prepend_all(heads: &Vec<String>, tails: &Vec<Vec<String>>) -> (r: Vec<Vec<String>>)
    ensures
        deep_views(r@) == prepend_each(views(heads@), deep_views(tails@)),
{
    let ghost hv = views(heads@);
    let ghost tv = deep_views(tails@);
    let mut out: Vec<Vec<String>> = Vec::new();
    let mut j: usize = 0;
    assert(deep_views(out@) =~= prepend_each(hv.take(0), tv));
    while j < heads.len()
        invariant
            j <= heads.len(),
            hv == views(heads@),
            tv == deep_views(tails@),
            deep_views(out@) == prepend_each(hv.take(j as int), tv),
        decreases heads.len() - j,
    {
        let ghost base = deep_views(out@);
        let mut k: usize = 0;
        assert(base + prefixed(hv[j as int], tv.take(0)) =~= base);
        while k < tails.len()
            invariant
                j < heads.len(),
                k <= tails.len(),
                hv == views(heads@),
                tv == deep_views(tails@),
                deep_views(out@) == base + prefixed(hv[j as int], tv.take(k as int)),
            decreases tails.len() - k,
        {
            let row = prepend_row(&heads[j], &tails[k]);
            let ghost prev = out@;
            out.push(row);
            assert(out@ == prev.push(row));
            assert(deep_views(out@) =~= deep_views(prev).push(views(row@)));
            assert(tv.take(k + 1) =~= tv.take(k as int).push(tv[k as int]));
            assert(prefixed(hv[j as int], tv.take(k + 1)) =~= prefixed(hv[j as int], tv.take(k as int)).push(seq![hv[j as int]] + tv[k as int]));
            assert(deep_views(out@) =~= base + prefixed(hv[j as int], tv.take(k + 1)));
            k += 1;
        }
        assert(tv.take(tails.len() as int) =~= tv);
        assert(hv.take(j + 1).drop_last() =~= hv.take(j as int));
        assert(hv.take(j + 1).last() == hv[j as int]);
        j += 1;
    }
    assert(hv.take(heads.len() as int) =~= hv);
    out
}

/// The map assigning `row[i]` to `keys[i]`, keys in that order.
fn assign_row(keys: &Vec<String>, row: &Vec<String>) -> (m: StringMap<String>)
    requires
        keys.len() == row.len(),
        strictly_sorted(views(keys@)),
    ensures
        assigns(m, views(keys@), views(row@)),
{
    let ghost kv = views(keys@);
    let mut m: StringMap<String> = StringMap::new();
    let mut i: usize = 0;
    while i < keys.len()
        invariant
            i <= keys.len(),
            keys.len() == row.len(),
            kv == views(keys@),
            strictly_sorted(kv),
            m.keys() == kv.take(i as int),
            forall|j: int| 0 <= j < i ==> m@[kv[j]]@ == #[trigger] views(row@)[j],
        decreases keys.len() - i,
    {
        proof {
            m.lemma_dom();
            if m@.contains_key(kv[i as int]) {
                let j = choose|j: int| 0 <= j < m.keys().len() && m.keys()[j] == kv[i as int];
                assert(kv[j] == kv[i as int]);
                lemma_lex_irreflexive(kv[j]);
            }
        }
        let ghost before = m@;
        proof {
            m.lemma_dom();
            assert forall|j: int| 0 <= j < i implies before.contains_key(#[trigger] kv[j]) by {
                assert(kv.take(i as int)[j] == kv[j]);
            }
        }
        m.insert(keys[i].clone(), row[i].clone());
        proof {
            assert(kv.take(i + 1) =~= kv.take(i as int).push(kv[i as int]));
            assert forall|j: int| 0 <= j < i + 1 implies m@[kv[j]]@ == #[trigger] views(row@)[j] by {
                if j < i {
                    assert(kv[j] != kv[i as int]) by {
                        lemma_lex_irreflexive(kv[j]);
                    }
                }
            }
        }
        i += 1;
    }
    assert(kv.take(keys.len() as int) =~= kv);
    m
}

/// Every combination of parameter values: one map per combination, keys
/// in ascending order, the first key varying slowest. No parameters give
/// no combinations; a key with no values gives none either.
pub fn generate_parameter_combinations(params: &StringMap<Vec<String>>) -> (r: Vec<StringMap<String>>)
    ensures
        r.len() == parameter_table(params@).len(),
        params@.dom().len() > 0 ==> strictly_sorted(parameter_keys(params@)) && parameter_keys(params@).to_set()
            == params@.dom(),
        forall|c: int| 0 <= c < r.len() ==> assigns(#[trigger] r@[c], parameter_keys(params@), parameter_table(params@)[c]),
{
    let n = params.len();
    proof {
        params.lemma_len();
    }
    if n == 0 {
        return Vec::new();
    }
    // The keys, in entry order, then sorted.
    let mut keys: Vec<String> = Vec::new();
    let mut i: usize = 0;
    while i < n
        invariant
            n == params.pairs().len(),
            i <= n,
            views(keys@) == params.keys().take(i as int),
        decreases n - i,
    {
        let ghost prev = keys@;
        let k = params.key_at(i).clone();
        keys.push(k);
        assert(keys@ == prev.push(k));
        assert(views(keys@) =~= views(prev).push(k@));
        assert(params.keys()[i as int] == params.pairs()[i as int].0@);
        assert(views(keys@) =~= params.keys().take(i + 1));
        i += 1;
    }
    assert(views(keys@) =~= params.keys());
    let sorted = sort_keys(&keys);
    let ghost ks = views(sorted@);
    proof {
        params.lemma_dom();
        lemma_sorted_is_sorted_elements(ks);
        assert(ks == parameter_keys(params@));
    }
    // The value lists, in sorted key order.
    let mut choices: Vec<Vec<String>> = Vec::new();
    let mut d: usize = 0;
    while d < n
        invariant
            n == sorted.len(),
            d <= n,
            ks == views(sorted@),
            ks == parameter_keys(params@),
            params@.dom() == ks.to_set(),
            deep_views(choices@) == parameter_choices(params@).take(d as int),
        decreases n - d,
    {
        assert(params@.contains_key(ks[d as int])) by {
            assert(ks.to_set().contains(ks[d as int]));
        }
        let ghost prev = choices@;
        match params.get(sorted[d].as_str()) {
            Some(v) => {
                let copy = copy_strings(v);
                choices.push(copy);
                assert(choices@ == prev.push(copy));
                assert(deep_views(choices@) =~= deep_views(prev).push(views(copy@)));
                assert(views(copy@) == parameter_choices(params@)[d as int]);
            },
            None => {},
        }
        assert(deep_views(choices@) =~= parameter_choices(params@).take(d + 1));
        d += 1;
    }
    let ghost cv = parameter_choices(params@);
    assert(deep_views(choices@) =~= cv);
    // The product, built from the last key back to the first.
    let mut acc: Vec<Vec<String>> = Vec::new();
    let empty_row: Vec<String> = Vec::new();
    assert(views(empty_row@) =~= Seq::<Seq<char>>::empty());
    acc.push(empty_row);
    assert(cv.len() == n);
    assert(cv.skip(n as int) =~= Seq::<Seq<Seq<char>>>::empty());
    assert(deep_views(acc@) =~= seq![Seq::<Seq<char>>::empty()]);
    assert(deep_views(acc@) =~= product(cv.skip(n as int)));
    let mut d: usize = n;
    while d > 0
        invariant
            d <= n,
            n == choices.len(),
            deep_views(choices@) == cv,
            deep_views(acc@) == product(cv.skip(d as int)),
        decreases d,
    {
        d -= 1;
        assert(cv.skip(d as int).drop_first() =~= cv.skip(d + 1));
        assert(cv.skip(d as int)[0] == cv[d as int]);
        acc = prepend_all(&choices[d], &acc);
    }
    assert(cv.skip(0) =~= cv);
    proof {
        assert(params@.dom().len() > 0);
    }
    let ghost table = parameter_table(params@);
    assert(deep_views(acc@) == table);
    // One map per row.
    let mut out: Vec<StringMap<String>> = Vec::new();
    let mut c: usize = 0;
    while c < acc.len()
        invariant
            c <= acc.len(),
            deep_views(acc@) == table,
            ks == views(sorted@),
            ks == parameter_keys(params@),
            strictly_sorted(ks),
            cv == parameter_choices(params@),
            table == product(cv),
            cv.len() == sorted.len(),
            out.len() == c,
            forall|j: int| 0 <= j < c ==> assigns(#[trigger] out@[j], ks, table[j]),
        decreases acc.len() - c,
    {
        proof {
            lemma_product_picks(cv, c as int);
        }
        let m = assign_row(&sorted, &acc[c]);
        out.push(m);
        c += 1;
    }
    out
}

} // verus!
