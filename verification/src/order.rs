//! Lexicographic order on strings, by code point, and sorting of key lists.
use vstd::prelude::*;

use crate::text::to_chars;

verus! {

broadcast use vstd::string::group_string_axioms;

/// `a` sorts strictly before `b`: comparing code points from the front,
/// the first difference decides, and a proper prefix comes first. This is
/// the order of `String`'s `Ord` (UTF-8 byte order equals code point order).
pub open spec fn lex_lt(a: Seq<char>, b: Seq<char>) -> bool
    decreases a.len(),
{
    if a.len() == 0 {
        b.len() > 0
    } else if b.len() == 0 {
        false
    } else if a[0] != b[0] {
        (a[0] as int) < (b[0] as int)
    } else {
        lex_lt(a.drop_first(), b.drop_first())
    }
}

/// Every element sorts strictly before every later one.
pub open spec fn strictly_sorted(s: Seq<Seq<char>>) -> bool {
    forall|i: int, j: int| 0 <= i < j < s.len() ==> lex_lt(#[trigger] s[i], #[trigger] s[j])
}

/// The elements of `d` in ascending order.
pub open spec fn sorted_elements(d: Set<Seq<char>>) -> Seq<Seq<char>> {
    choose|s: Seq<Seq<char>>| strictly_sorted(s) && s.to_set() == d
}

/// No string sorts before itself.
pub proof fn lemma_lex_irreflexive(a: Seq<char>)
    ensures
        !lex_lt(a, a),
    decreases a.len(),
{
    if a.len() > 0 {
        lemma_lex_irreflexive(a.drop_first());
    }
}

/// `lex_lt` is transitive.
pub proof fn lemma_lex_transitive(a: Seq<char>, b: Seq<char>, c: Seq<char>)
    requires
        lex_lt(a, b),
        lex_lt(b, c),
    ensures
        lex_lt(a, c),
    decreases a.len(),
{
    if a.len() > 0 && b.len() > 0 && c.len() > 0 && a[0] == b[0] && b[0] == c[0] {
        lemma_lex_transitive(a.drop_first(), b.drop_first(), c.drop_first());
    }
}

/// Of two different strings, one sorts before the other.
pub proof fn lemma_lex_total(a: Seq<char>, b: Seq<char>)
    requires
        a != b,
    ensures
        lex_lt(a, b) || lex_lt(b, a),
    decreases a.len(),
{
    if a.len() > 0 && b.len() > 0 && a[0] != b[0] {
        assert((a[0] as int) != (b[0] as int));
    } else if a.len() > 0 && b.len() > 0 && a[0] == b[0] {
        if a.drop_first() == b.drop_first() {
            assert(a =~= seq![a[0]] + a.drop_first());
            assert(b =~= seq![b[0]] + b.drop_first());
        }
        lemma_lex_total(a.drop_first(), b.drop_first());
    } else if a.len() == 0 && b.len() == 0 {
        assert(a =~= b);
    }
}

/// Two strictly sorted sequences with the same elements are equal.
pub proof fn lemma_sorted_unique(s: Seq<Seq<char>>, t: Seq<Seq<char>>)
    requires
        strictly_sorted(s),
        strictly_sorted(t),
        s.to_set() == t.to_set(),
    ensures
        s == t,
    decreases s.len(),
{
    if s.len() == 0 {
        if t.len() > 0 {
            assert(t.to_set().contains(t[0]));
        }
        assert(t.len() == 0);
        assert(s =~= t);
    } else {
        assert(s.to_set().contains(s[0]));
        assert(t.len() > 0) by {
            if t.len() == 0 {
                assert(t =~= Seq::<Seq<char>>::empty());
                assert(!t.to_set().contains(s[0]));
            }
        }
        // The least elements agree.
        assert(s[0] == t[0]) by {
            assert(t.to_set().contains(s[0]));
            let j = choose|j: int| 0 <= j < t.len() && t[j] == s[0];
            assert(s.to_set().contains(t[0]));
            let i = choose|i: int| 0 <= i < s.len() && s[i] == t[0];
            if s[0] != t[0] {
                assert(j > 0);
                assert(i > 0);
                assert(lex_lt(t[0], t[j]));
                assert(lex_lt(s[0], s[i]));
                lemma_lex_transitive(s[0], t[0], s[0]);
                lemma_lex_irreflexive(s[0]);
            }
        }
        let s1 = s.drop_first();
        let t1 = t.drop_first();
        assert(strictly_sorted(s1)) by {
            assert forall|i: int, j: int| 0 <= i < j < s1.len() implies lex_lt(#[trigger] s1[i], #[trigger] s1[j]) by {
                assert(s1[i] == s[i + 1] && s1[j] == s[j + 1]);
            }
        }
        assert(strictly_sorted(t1)) by {
            assert forall|i: int, j: int| 0 <= i < j < t1.len() implies lex_lt(#[trigger] t1[i], #[trigger] t1[j]) by {
                assert(t1[i] == t[i + 1] && t1[j] == t[j + 1]);
            }
        }
        assert(s1.to_set() =~= t1.to_set()) by {
            assert forall|x: Seq<char>| s1.to_set().contains(x) implies t1.to_set().contains(x) by {
                let i = choose|i: int| 0 <= i < s1.len() && s1[i] == x;
                assert(s[i + 1] == x);
                assert(lex_lt(s[0], x));
                assert(t.to_set().contains(x));
                let j = choose|j: int| 0 <= j < t.len() && t[j] == x;
                if j == 0 {
                    lemma_lex_irreflexive(x);
                }
                assert(t1[j - 1] == x);
            }
            assert forall|x: Seq<char>| t1.to_set().contains(x) implies s1.to_set().contains(x) by {
                let j = choose|j: int| 0 <= j < t1.len() && t1[j] == x;
                assert(t[j + 1] == x);
                assert(lex_lt(t[0], x));
                assert(s.to_set().contains(x));
                let i = choose|i: int| 0 <= i < s.len() && s[i] == x;
                if i == 0 {
                    lemma_lex_irreflexive(x);
                }
                assert(s1[i - 1] == x);
            }
        }
        lemma_sorted_unique(s1, t1);
        assert(s =~= seq![s[0]] + s1);
        assert(t =~= seq![t[0]] + t1);
    }
}

/// A strictly sorted sequence is the ascending order of its elements.
pub proof fn lemma_sorted_is_sorted_elements(s: Seq<Seq<char>>)
    requires
        strictly_sorted(s),
    ensures
        sorted_elements(s.to_set()) == s,
{
    let t = sorted_elements(s.to_set());
    assert(strictly_sorted(t) && t.to_set() == s.to_set());
    lemma_sorted_unique(s, t);
}

/// `lex_lt(a, b)` for two strings.
pub fn str_lt(a: &str, b: &str) -> (r: bool)
    ensures
        r == lex_lt(a@, b@),
{
    let x = to_chars(a);
    let y = to_chars(b);
    let mut i: usize = 0;
    assert(x@.skip(0) =~= x@ && y@.skip(0) =~= y@);
    while i < x.len() && i < y.len()
        invariant
            x@ == a@,
            y@ == b@,
            i <= x.len(),
            i <= y.len(),
            lex_lt(a@, b@) == lex_lt(x@.skip(i as int), y@.skip(i as int)),
        decreases x.len() - i,
    {
        let ghost xs = x@.skip(i as int);
        let ghost ys = y@.skip(i as int);
        assert(xs[0] == x@[i as int] && ys[0] == y@[i as int]);
        if x[i] != y[i] {
            return x[i] < y[i];
        }
        assert(xs.drop_first() =~= x@.skip(i + 1));
        assert(ys.drop_first() =~= y@.skip(i + 1));
        i += 1;
    }
    i == x.len() && i < y.len()
}

/// The position in `sorted` before which `key` belongs: the first element
/// that `key` sorts before, or the end.
fn insertion_point(sorted: &Vec<String>, key: &str) -> (r: usize)
    ensures
        r <= sorted.len(),
        forall|j: int| 0 <= j < r ==> !lex_lt(key@, #[trigger] sorted@[j]@),
        r < sorted.len() ==> lex_lt(key@, sorted@[r as int]@),
{
    let mut i: usize = 0;
    while i < sorted.len()
        invariant
            i <= sorted.len(),
            forall|j: int| 0 <= j < i ==> !lex_lt(key@, #[trigger] sorted@[j]@),
        decreases sorted.len() - i,
    {
        if str_lt(key, sorted[i].as_str()) {
            return i;
        }
        i += 1;
    }
    i
}

/// The views of a list of strings.
pub open spec fn views(s: Seq<String>) -> Seq<Seq<char>> {
    s.map_values(|x: String| x@)
}

/// The strings of `keys` (which hold no duplicates) in ascending order.
pub fn sort_keys(keys: &Vec<String>) -> (r: Vec<String>)
    requires
        views(keys@).no_duplicates(),
    ensures
        strictly_sorted(views(r@)),
        views(r@).to_set() == views(keys@).to_set(),
        r.len() == keys.len(),
{
    let mut out: Vec<String> = Vec::new();
    let mut i: usize = 0;
    while i < keys.len()
        invariant
            i <= keys.len(),
            views(keys@).no_duplicates(),
            strictly_sorted(views(out@)),
            views(out@).to_set() == views(keys@).take(i as int).to_set(),
            out.len() == i,
        decreases keys.len() - i,
    {
        let key = keys[i].clone();
        let p = insertion_point(&out, key.as_str());
        let ghost before = views(out@);
        let ghost k = key@;
        proof {
            // `key` is new: the keys hold no duplicates.
            assert(!before.to_set().contains(k)) by {
                if before.to_set().contains(k) {
                    assert(views(keys@).take(i as int).to_set().contains(k));
                    let j = choose|j: int| 0 <= j < i && views(keys@).take(i as int)[j] == k;
                    assert(views(keys@)[j] == views(keys@)[i as int]);
                }
            }
        }
        out.insert(p, key);
        proof {
            let after = views(out@);
            assert(after =~= before.insert(p as int, k));
            assert forall|a: int, b: int| 0 <= a < b < after.len() implies lex_lt(#[trigger] after[a], #[trigger] after[b]) by {
                if b < p {
                    assert(after[a] == before[a] && after[b] == before[b]);
                } else if b == p {
                    assert(after[a] == before[a]);
                    assert(!lex_lt(k, before[a]));
                    assert(before.to_set().contains(before[a]));
                    lemma_lex_total(k, before[a]);
                } else if a < p {
                    assert(after[b] == before[b - 1]);
                    assert(after[a] == before[a]);
                    if a < b - 1 {
                    } else {
                        assert(a == b - 1);
                        assert(false);
                    }
                } else if a == p {
                    assert(after[b] == before[b - 1]);
                    assert(lex_lt(k, before[p as int]));
                    if b - 1 > p {
                        lemma_lex_transitive(k, before[p as int], before[b - 1]);
                    }
                } else {
                    assert(after[a] == before[a - 1] && after[b] == before[b - 1]);
                }
            }
            let ks = views(keys@);
            assert(ks.take(i + 1) =~= ks.take(i as int).push(k));
            assert(after.to_set() =~= before.to_set().insert(k)) by {
                assert forall|x: Seq<char>| after.to_set().contains(x) implies before.to_set().insert(k).contains(x) by {
                    let j = choose|j: int| 0 <= j < after.len() && after[j] == x;
                    if j < p {
                        assert(before[j] == x);
                    } else if j > p {
                        assert(before[j - 1] == x);
                    }
                }
                assert forall|x: Seq<char>| before.to_set().insert(k).contains(x) implies after.to_set().contains(x) by {
                    if x == k {
                        assert(after[p as int] == k);
                    } else {
                        let j = choose|j: int| 0 <= j < before.len() && before[j] == x;
                        if j < p {
                            assert(after[j] == x);
                        } else {
                            assert(after[j + 1] == x);
                        }
                    }
                }
            }
            let pre = ks.take(i as int);
            assert(pre.push(k).to_set() =~= pre.to_set().insert(k)) by {
                assert forall|x: Seq<char>| pre.push(k).to_set().contains(x) implies pre.to_set().insert(k).contains(x) by {
                    let j = choose|j: int| 0 <= j < pre.push(k).len() && pre.push(k)[j] == x;
                    if j < pre.len() {
                        assert(pre[j] == x);
                    }
                }
                assert forall|x: Seq<char>| pre.to_set().insert(k).contains(x) implies pre.push(k).to_set().contains(x) by {
                    if x == k {
                        assert(pre.push(k)[pre.len() as int] == k);
                    } else {
                        let j = choose|j: int| 0 <= j < pre.len() && pre[j] == x;
                        assert(pre.push(k)[j] == x);
                    }
                }
            }
        }
        i += 1;
    }
    assert(views(keys@).take(keys.len() as int) =~= views(keys@));
    out
}

} // verus!
