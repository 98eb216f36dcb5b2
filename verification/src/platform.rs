//! Where the roots are: the stack of the current thread and the statics.
use crate::layout::{lemma_round_up, round_up};
use crate::model::WORD_SIZE;
use vstd::prelude::*;

verus! {

/// A call of the thread library on the way to the start of the stack.
#[derive(Clone, Copy, Debug, PartialEq, Eq, Structural)]
pub enum StackQuery {
    /// Initialize the attributes.
    InitAttributes,
    /// Get the attributes of the current thread.
    GetAttributes,
    /// Destroy the attributes.
    DestroyAttributes,
    /// Get the address and the size of the stack from the attributes.
    GetStack,
}

/// What follows on such a call.
#[derive(Clone, Copy, Debug, PartialEq, Eq, Structural)]
pub enum StackStep {
    /// Another call.
    Query(StackQuery),
    /// The result: the address where the stack starts, if there is one.
    Found(Option<u64>),
    /// The call must not fail, but did.
    Failed,
}

/// What follows when a call returned `status`.
pub open spec fn step_after(query: StackQuery, status: i32, address: u64, size: u64) -> StackStep {
    match query {
        StackQuery::InitAttributes => if status == 0 {
            StackStep::Query(StackQuery::GetAttributes)
        } else {
            StackStep::Failed
        },
        StackQuery::GetAttributes => if status == 0 {
            StackStep::Query(StackQuery::GetStack)
        } else {
            StackStep::Query(StackQuery::DestroyAttributes)
        },
        StackQuery::DestroyAttributes => if status == 0 {
            StackStep::Found(None)
        } else {
            StackStep::Failed
        },
        StackQuery::GetStack => if status == 0 {
            StackStep::Found(Some((address + size) as u64))
        } else {
            StackStep::Failed
        },
    }
}

/// Attempts to get the starting address of the stack, one call at a time. It is
/// considered the top-of-stack value during stack root scanning. `address` and
/// `size` are those of the stack, once they are known: it grows down from their
/// sum. If the attributes of the thread cannot be had, there is no result.
pub fn get_stack_start(query: StackQuery, status: i32, address: u64, size: u64) -> (r: StackStep)
    requires
        query == StackQuery::GetStack && status == 0 ==> address + size <= u64::MAX,
    ensures
        r == step_after(query, status, address, size),
{
    match query {
        StackQuery::InitAttributes => if status == 0 {
            StackStep::Query(StackQuery::GetAttributes)
        } else {
            StackStep::Failed
        },
        StackQuery::GetAttributes => if status == 0 {
            StackStep::Query(StackQuery::GetStack)
        } else {
            StackStep::Query(StackQuery::DestroyAttributes)
        },
        StackQuery::DestroyAttributes => if status == 0 {
            StackStep::Found(None)
        } else {
            StackStep::Failed
        },
        StackQuery::GetStack => if status == 0 {
            StackStep::Found(Some(address + size))
        } else {
            StackStep::Failed
        },
    }
}

/// The range of addresses of the words in the data segment: from the first
/// word that starts in it up to its end.
pub fn get_data_segment_range(data_start: u64, end: u64) -> (r: (u64, u64))
    requires
        data_start <= u64::MAX - (WORD_SIZE - 1),
    ensures
        r.0 == round_up(data_start as int, WORD_SIZE as int),
        r.0 % 8 == 0,
        data_start <= r.0 < data_start + 8,
        r.1 == end,
{
    let over = data_start % WORD_SIZE;
    proof {
        lemma_round_up(data_start as int, WORD_SIZE as int);
    }
    if over == 0 {
        (data_start, end)
    } else {
        (data_start + (WORD_SIZE - over), end)
    }
}

/// However the calls turn out, the query ends: no call is made twice.
pub proof fn law_stack_query_ends(query: StackQuery, status: i32, address: u64, size: u64)
    ensures
        step_after(query, status, address, size) matches StackStep::Query(next) ==> query_rank(next)
            < query_rank(query),
{
}

/// How many calls can still follow on a call.
pub open spec fn query_rank(query: StackQuery) -> nat {
    match query {
        StackQuery::InitAttributes => 2,
        StackQuery::GetAttributes => 1,
        _ => 0,
    }
}

/// The stack starts at the sum of its address and its size, and is found exactly
/// when all calls succeed. There is no result exactly when the attributes of the
/// thread could not be had but could be destroyed. Every other failure is one.
pub proof fn law_stack_query(query: StackQuery, status: i32, address: u64, size: u64)
    requires
        address + size <= u64::MAX,
    ensures
        ({
            let step = step_after(query, status, address, size);
            &&& forall|start: u64|
                step == StackStep::Found(Some(start)) <==> query == StackQuery::GetStack && status
                    == 0 && start == address + size
            &&& step == StackStep::Found(None::<u64>) <==> query == StackQuery::DestroyAttributes
                && status == 0
            &&& step == StackStep::Failed <==> query != StackQuery::GetAttributes && status != 0
            &&& step == StackStep::Query(StackQuery::GetAttributes) <==> query
                == StackQuery::InitAttributes && status == 0
            &&& step == StackStep::Query(StackQuery::GetStack) <==> query
                == StackQuery::GetAttributes && status == 0
            &&& step == StackStep::Query(StackQuery::DestroyAttributes) <==> query
                == StackQuery::GetAttributes && status != 0
        }),
{
}

} // verus!
