//! Mappers that turn fetched records into sink records.
use vstd::prelude::*;

use std::marker::PhantomData;

use crate::datasync::result::MapResult;
use crate::text::{decimal, push_decimal};
use vstd::string::to_string_from_display_ensures;

verus! {

broadcast use vstd::string::group_string_axioms;

/// A mapper that reports, besides the mapped records, how many records it
/// skipped and why.
pub trait DetailedMapper<T, U> {
    /// Maps `records`, keeping the ones that map and a reason for each
    /// one that does not.
    fn map_detailed(&self, records: Vec<T>) -> MapResult<U>;
}

/// The mapper that passes records through unchanged.
#[derive(Debug)]
pub struct IdentityMapper<T> {
    _marker: PhantomData<T>,
}

impl<T> IdentityMapper<T> {
    /// The identity mapper.
    pub fn new() -> (r: Self) {
        IdentityMapper { _marker: PhantomData }
    }

    /// Returns `records` as they are.
    pub fn map_records(&self, records: Vec<T>) -> (r: Vec<T>)
        ensures
            r == records,
    {
        records
    }
}

/// A mapper built from a per-record function; a record whose function call
/// fails is skipped, with the failure as the reason.
#[verifier::reject_recursive_types(T)]
#[verifier::reject_recursive_types(U)]
#[verifier::reject_recursive_types(E)]
pub struct RecordMapper<T, U, F: Fn(&T) -> Result<U, E>, E> {
    name: String,
    func: F,
    _marker: PhantomData<(T, U, E)>,
}

/// The values of the successful outcomes, in order.
pub open spec fn kept<U, E>(outs: Seq<Result<U, E>>) -> Seq<U>
    decreases outs.len(),
{
    if outs.len() == 0 {
        seq![]
    } else {
        match outs.last() {
            Ok(u) => kept(outs.drop_last()).push(u),
            Err(_) => kept(outs.drop_last()),
        }
    }
}

/// The positions of the failed outcomes, in order.
pub open spec fn failed_positions<U, E>(outs: Seq<Result<U, E>>) -> Seq<int>
    decreases outs.len(),
{
    if outs.len() == 0 {
        seq![]
    } else {
        match outs.last() {
            Ok(_) => failed_positions(outs.drop_last()),
            Err(_) => failed_positions(outs.drop_last()).push(outs.len() - 1),
        }
    }
}

/// Every outcome is either kept or skipped: the kept values and the
/// skipped positions together number the outcomes.
pub proof fn lemma_kept_and_skipped<U, E>(outs: Seq<Result<U, E>>)
    ensures
        kept(outs).len() + failed_positions(outs).len() == outs.len(),
        forall|k: int| 0 <= k < failed_positions(outs).len() ==> 0 <= #[trigger] failed_positions(outs)[k] < outs.len()
            && outs[failed_positions(outs)[k]] is Err,
    decreases outs.len(),
{
    if outs.len() > 0 {
        let pre = outs.drop_last();
        lemma_kept_and_skipped(pre);
        assert forall|k: int| 0 <= k < failed_positions(outs).len() implies 0 <= #[trigger] failed_positions(outs)[k]
            < outs.len() && outs[failed_positions(outs)[k]] is Err by {
            if k < failed_positions(pre).len() {
                assert(failed_positions(outs)[k] == failed_positions(pre)[k]);
                assert(pre[failed_positions(pre)[k]] == outs[failed_positions(pre)[k]]);
            }
        }
    }
}

/// `text` is the skip reason for record `i` that failed with `e`:
/// `record {i}: ` followed by `e`'s `Display` text.
pub open spec fn reason_for<E: std::fmt::Display>(text: Seq<char>, i: int, e: E) -> bool {
    exists|d: String| #[trigger] to_string_from_display_ensures::<E>(&e, d) && text == "record "@ + decimal(i as nat) + ": "@ + d@
}

/// The failure of a failed outcome.
pub open spec fn failure_of<U, E>(r: Result<U, E>) -> E {
    r->Err_0
}

impl<T, U, F: Fn(&T) -> Result<U, E>, E> RecordMapper<T, U, F, E> {
    #[verifier::type_invariant]
    closed spec fn total_func(self) -> bool {
        forall|t: &T| call_requires(self.func, (t,))
    }

    /// The mapper's name.
    pub closed spec fn spec_name(&self) -> Seq<char> {
        self.name@
    }

    /// The per-record function.
    pub closed spec fn func(&self) -> F {
        self.func
    }

    /// A mapper named `name` applying `func` to each record.
    pub fn new(name: &str, func: F) -> (r: Self)
        requires
            forall|t: &T| call_requires(func, (t,)),
        ensures
            r.spec_name() == name@,
            r.func() == func,
    {
        RecordMapper { name: name.to_string(), func, _marker: PhantomData }
    }

    /// The mapper's name.
    pub fn name(&self) -> (r: &str)
        ensures
            r@ == self.spec_name(),
    {
        self.name.as_str()
    }
}

impl<T, U, F: Fn(&T) -> Result<U, E>, E: std::fmt::Display> DetailedMapper<T, U> for RecordMapper<T, U, F, E> {
    /// Applies the function to each record in order: the mapped values are
    /// kept in order, and each failure counts as a skip with the reason
    /// `record {i}: {failure}`.
    fn map_detailed(&self, records: Vec<T>) -> (r: MapResult<U>)
        ensures
            exists|outs: Seq<Result<U, E>>| {
                &&& outs.len() == records.len()
                &&& forall|i: int| 0 <= i < records.len() ==> call_ensures(self.func(), (&records@[i],), #[trigger] outs[i])
                &&& r.records@ == kept(outs)
                &&& r.skipped == failed_positions(outs).len()
                &&& r.skip_reasons@.len() == failed_positions(outs).len()
                &&& forall|k: int| 0 <= k < r.skip_reasons@.len() ==> reason_for(
                    #[trigger] r.skip_reasons@[k]@,
                    failed_positions(outs)[k],
                    failure_of(outs[failed_positions(outs)[k]]),
                )
            },
    {
        proof {
            use_type_invariant(self);
        }
        let mut out: Vec<U> = Vec::new();
        let mut skipped: usize = 0;
        let mut reasons: Vec<String> = Vec::new();
        let ghost mut outs: Seq<Result<U, E>> = Seq::empty();
        let mut i: usize = 0;
        while i < records.len()
            invariant
                i <= records.len(),
                forall|t: &T| call_requires(self.func, (t,)),
                outs.len() == i,
                forall|j: int| 0 <= j < i ==> call_ensures(self.func, (&records@[j],), #[trigger] outs[j]),
                out@ == kept(outs),
                skipped == failed_positions(outs).len(),
                skipped <= i,
                reasons@.len() == failed_positions(outs).len(),
                forall|k: int| 0 <= k < reasons@.len() ==> reason_for(
                    #[trigger] reasons@[k]@,
                    failed_positions(outs)[k],
                    failure_of(outs[failed_positions(outs)[k]]),
                ),
            decreases records.len() - i,
        {
            let res = (self.func)(&records[i]);
            let ghost prev = outs;
            proof {
                outs = outs.push(res);
                assert(outs.drop_last() =~= prev);
                lemma_kept_and_skipped(prev);
                assert forall|k: int| 0 <= k < failed_positions(prev).len() implies failed_positions(outs)[k]
                    == failed_positions(prev)[k] && #[trigger] outs[failed_positions(prev)[k]] == prev[failed_positions(prev)[k]] by {}
            }
            match res {
                Ok(u) => {
                    out.push(u);
                },
                Err(e) => {
                    skipped = skipped + 1;
                    let mut m = "record ".to_string();
                    push_decimal(&mut m, i);
                    m.append(": ");
                    let d = e.to_string();
                    m.append(d.as_str());
                    proof {
                        assert(m@ == "record "@ + decimal(i as nat) + ": "@ + d@);
                        assert(failure_of(outs[i as int]) == e);
                        assert(reason_for(m@, i as int, e));
                    }
                    reasons.push(m);
                },
            }
            proof {
                assert forall|j: int| 0 <= j < i + 1 implies call_ensures(self.func, (&records@[j],), #[trigger] outs[j]) by {
                    if j < i {
                        assert(outs[j] == prev[j]);
                    }
                }
            }
            i += 1;
        }
        MapResult { records: out, skipped, skip_reasons: reasons }
    }
}

} // verus!
