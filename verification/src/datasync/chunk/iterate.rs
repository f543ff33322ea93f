//! When a partition loop pauses between partitions.
use vstd::prelude::*;

use std::time::Duration;

use crate::duration::{duration_nanos, nanos_in};

verus! {

/// A loop over `count` partitions pauses after the one at `index` when it
/// is not the last, the pause is not zero, and there is something to
/// pause with.
pub open spec fn pauses_after(index: int, count: int, sleep_nanos: u128, has_sleeper: bool) -> bool {
    index < count - 1 && sleep_nanos != 0 && has_sleeper
}

/// Whether to sleep for `sleep` after the partition at `index` of `count`,
/// given whether a sleeper was supplied.
pub fn sleeps_after(index: usize, count: usize, sleep: &Duration, has_sleeper: bool) -> (r: bool)
    ensures
        r == pauses_after(index as int, count as int, nanos_in(*sleep), has_sleeper),
{
    let nanos = duration_nanos(sleep);
    (index as u128) + 1 < (count as u128) && nanos != 0 && has_sleeper
}

/// Over a whole loop of `count` partitions the pauses number `count - 1`
/// when the pause is not zero and a sleeper is there, none otherwise.
pub proof fn lemma_pause_count(count: nat, sleep_nanos: u128, has_sleeper: bool)
    requires
        count > 0,
    ensures
        Seq::new(count, |i: int| i).filter(|i: int| pauses_after(i, count as int, sleep_nanos, has_sleeper)).len() == (
        if sleep_nanos != 0 && has_sleeper {
            count - 1
        } else {
            0
        }),
    decreases count,
{
    let f = |i: int| pauses_after(i, count as int, sleep_nanos, has_sleeper);
    let s = Seq::new(count, |i: int| i);
    if sleep_nanos != 0 && has_sleeper {
        let front = Seq::new((count - 1) as nat, |i: int| i);
        assert(s =~= front.push((count - 1) as int));
        assert(front.filter(f) =~= front) by {
            lemma_filter_all(front, f);
        }
        reveal(Seq::filter);
        assert(s.drop_last() =~= front);
        assert(!f(s.last()));
        assert(s.filter(f) == front.filter(f));
    } else {
        lemma_filter_none(s, f);
    }
}

proof fn lemma_filter_all(s: Seq<int>, f: spec_fn(int) -> bool)
    requires
        forall|i: int| 0 <= i < s.len() ==> f(#[trigger] s[i]),
    ensures
        s.filter(f) == s,
    decreases s.len(),
{
    reveal(Seq::filter);
    if s.len() > 0 {
        lemma_filter_all(s.drop_last(), f);
        assert(s =~= s.drop_last().push(s.last()));
    } else {
        assert(s.filter(f) =~= s);
    }
}

proof fn lemma_filter_none(s: Seq<int>, f: spec_fn(int) -> bool)
    requires
        forall|i: int| 0 <= i < s.len() ==> !f(#[trigger] s[i]),
    ensures
        s.filter(f).len() == 0,
    decreases s.len(),
{
    reveal(Seq::filter);
    if s.len() > 0 {
        lemma_filter_none(s.drop_last(), f);
    }
}

} // verus!
