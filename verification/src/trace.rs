//! How the fields of a value are traced.
use crate::trace_derive::{derives, law_masked_fields, law_unmasked_fields, Data, Field, TracePlan};
use vstd::prelude::*;

verus! {

/// Tells whether a value named the pointers in it.
#[derive(Clone, Copy, Debug, PartialEq, Eq, Structural)]
pub enum TraceType {
    /// It did not: all of it has to be scanned.
    Conservative,
    /// It did: only what it named has to be looked at.
    Custom,
}

/// The trait used by the collector to determine how an object's fields should
/// be traced.
pub trait Trace {
    /// Puts the pointers in the object on the stack, or asks for it to be
    /// scanned.
    fn trace(&self, stack: &mut Vec<usize>) -> (r: TraceType)
        default_ensures
            r == TraceType::Conservative,
            final(stack)@ == old(stack)@,
    {
        TraceType::Conservative
    }
}

/// Traces an object whose pointers are known: first those in its unmasked
/// fields, then those that its masked fields were unmasked to.
pub fn trace_fields(unmasked: &[usize], masked: &[usize], stack: &mut Vec<usize>) -> (r: TraceType)
    ensures
        r == TraceType::Custom,
        final(stack)@ == old(stack)@ + unmasked@ + masked@,
{
    let mut i: usize = 0;
    while i < unmasked.len()
        invariant
            i <= unmasked@.len(),
            stack@ == old(stack)@ + unmasked@.take(i as int),
        decreases unmasked@.len() - i,
    {
        stack.push(unmasked[i]);
        proof {
            assert(unmasked@.take(i + 1) =~= unmasked@.take(i as int).push(unmasked@[i as int]));
        }
        i = i + 1;
    }
    proof {
        assert(unmasked@.take(i as int) =~= unmasked@);
    }
    let mut j: usize = 0;
    while j < masked.len()
        invariant
            j <= masked@.len(),
            stack@ == old(stack)@ + unmasked@ + masked@.take(j as int),
        decreases masked@.len() - j,
    {
        stack.push(masked[j]);
        proof {
            assert(masked@.take(j + 1) =~= masked@.take(j as int).push(masked@[j as int]));
        }
        j = j + 1;
    }
    proof {
        assert(masked@.take(j as int) =~= masked@);
    }
    TraceType::Custom
}

/// All fields that a plan traces are among the first `n`.
pub open spec fn is_plan_for(plan: TracePlan, n: int) -> bool {
    &&& forall|k: int|
        0 <= k < plan.unmasked_view().len() ==> 0 <= #[trigger] plan.unmasked_view()[k] < n
    &&& forall|k: int|
        0 <= k < plan.masked_view().len() ==> 0 <= (#[trigger] plan.masked_view()[k]).0 < n
}

/// Traces an object by the plan that was derived for its type. `values` are the
/// pointers in its fields, one for each, unmasked where the plan says so.
pub fn trace_by_plan(plan: &TracePlan, values: &[usize], stack: &mut Vec<usize>) -> (r: TraceType)
    requires
        is_plan_for(*plan, values@.len() as int),
    ensures
        r == TraceType::Custom,
        final(stack)@ == old(stack)@ + plan.unmasked_view().map_values(|i: int| values@[i])
            + plan.masked_view().map_values(|m: (int, Seq<char>)| values@[m.0]),
        final(stack)@ == old(stack)@ + Seq::new(
            plan.unmasked@.len(),
            |k: int| values@[plan.unmasked@[k] as int],
        ) + Seq::new(plan.masked@.len(), |k: int| values@[plan.masked@[k].0 as int]),
{
    let mut unmasked: Vec<usize> = Vec::new();
    let mut i: usize = 0;
    while i < plan.unmasked.len()
        invariant
            i <= plan.unmasked@.len(),
            is_plan_for(*plan, values@.len() as int),
            unmasked@.len() == i,
            forall|k: int| 0 <= k < i ==> unmasked@[k] == values@[#[trigger] plan.unmasked_view()[k]],
        decreases plan.unmasked@.len() - i,
    {
        proof {
            assert(plan.unmasked_view()[i as int] == plan.unmasked@[i as int]);
        }
        unmasked.push(values[plan.unmasked[i]]);
        i = i + 1;
    }
    let mut masked: Vec<usize> = Vec::new();
    let mut j: usize = 0;
    while j < plan.masked.len()
        invariant
            j <= plan.masked@.len(),
            is_plan_for(*plan, values@.len() as int),
            masked@.len() == j,
            forall|k: int| 0 <= k < j ==> masked@[k] == values@[(#[trigger] plan.masked_view()[k]).0],
        decreases plan.masked@.len() - j,
    {
        proof {
            assert(plan.masked_view()[j as int].0 == plan.masked@[j as int].0);
        }
        masked.push(values[plan.masked[j].0]);
        j = j + 1;
    }
    proof {
        assert(unmasked@ =~= plan.unmasked_view().map_values(|i: int| values@[i]));
        assert(masked@ =~= plan.masked_view().map_values(|m: (int, Seq<char>)| values@[m.0]));
        assert forall|k: int| 0 <= k < unmasked@.len() implies unmasked@[k]
            == values@[#[trigger] plan.unmasked@[k] as int] by {
            assert(plan.unmasked_view()[k] == plan.unmasked@[k]);
        }
        assert forall|k: int| 0 <= k < masked@.len() implies masked@[k] == values@[(
        #[trigger] plan.masked@[k]).0 as int] by {
            assert(plan.masked_view()[k].0 == plan.masked@[k].0);
        }
        assert(unmasked@ =~= Seq::new(
            plan.unmasked@.len(),
            |k: int| values@[plan.unmasked@[k] as int],
        ));
        assert(masked@ =~= Seq::new(
            plan.masked@.len(),
            |k: int| values@[plan.masked@[k].0 as int],
        ));
    }
    trace_fields(unmasked.as_slice(), masked.as_slice(), stack)
}

/// The plan that is derived for a struct only names fields that it has.
pub proof fn law_derived_plan_fits(
    fields: Vec<Field>,
    is_path: Seq<bool>,
    plan: TracePlan,
)
    requires
        derives(Data::Struct(fields), is_path, Ok(plan)),
    ensures
        is_plan_for(plan, fields@.len() as int),
{
    let n = fields@.len() as int;
    law_unmasked_fields(fields@, is_path, n);
    law_masked_fields(fields@, is_path, n);
    assert forall|k: int| 0 <= k < plan.unmasked_view().len() implies 0
        <= #[trigger] plan.unmasked_view()[k] < n by {
        assert(plan.unmasked_view().contains(plan.unmasked_view()[k]));
    }
    assert forall|k: int| 0 <= k < plan.masked_view().len() implies 0 <= (
    #[trigger] plan.masked_view()[k]).0 < n by {
        assert(plan.masked_view().contains(plan.masked_view()[k]));
    }
}

/// A plan is one for objects with `n` fields exactly when all fields that it names
/// are among them.
pub proof fn law_plan_names_fields(plan: TracePlan, n: int)
    ensures
        is_plan_for(plan, n) <==> {
            &&& forall|k: int| 0 <= k < plan.unmasked@.len() ==> #[trigger] plan.unmasked@[k] < n
            &&& forall|k: int| 0 <= k < plan.masked@.len() ==> (#[trigger] plan.masked@[k]).0 < n
        },
{
    assert(plan.unmasked_view().len() == plan.unmasked@.len());
    assert(plan.masked_view().len() == plan.masked@.len());
    if is_plan_for(plan, n) {
        assert forall|k: int| 0 <= k < plan.unmasked@.len() implies #[trigger] plan.unmasked@[k]
            < n by {
            assert(plan.unmasked_view()[k] < n);
        }
        assert forall|k: int| 0 <= k < plan.masked@.len() implies (#[trigger] plan.masked@[k]).0
            < n by {
            assert(plan.masked_view()[k].0 < n);
        }
    }
    if {
        &&& forall|k: int| 0 <= k < plan.unmasked@.len() ==> #[trigger] plan.unmasked@[k] < n
        &&& forall|k: int| 0 <= k < plan.masked@.len() ==> (#[trigger] plan.masked@[k]).0 < n
    } {
        assert forall|k: int| 0 <= k < plan.unmasked_view().len() implies 0
            <= #[trigger] plan.unmasked_view()[k] < n by {
            assert(plan.unmasked@[k] < n);
        }
        assert forall|k: int| 0 <= k < plan.masked_view().len() implies 0 <= (
        #[trigger] plan.masked_view()[k]).0 < n by {
            assert(plan.masked@[k].0 < n);
        }
    }
}

} // verus!
