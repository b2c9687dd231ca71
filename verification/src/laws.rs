//! What the calls of the library do, stated of their arguments, of the calls that they make on
//! their endpoints and of their results alone.
//!
//! Each law takes a call by its arguments and its result. What is said of an endpoint is said
//! of its history: of the events that the call adds to it, and of the order they have.

use vstd::prelude::*;

use crate::endpoint::{SinkCall, SinkEvent, SourceEvent};
use crate::pipe::Delivery;

pub mod accounts;
pub mod build_log;
pub mod descriptors;
pub mod endpoints;
pub mod frames;
pub mod metadata;
pub mod startup;
pub mod tee;

verus! {

/// What was added to an account between two looks at it.
pub open spec fn added<T>(before: Seq<T>, after: Seq<T>) -> Seq<T> {
    after.skip(before.len() as int)
}

/// A read that did not fail.
pub open spec fn succeeded<X>(event: SourceEvent<X>) -> bool {
    match event {
        SourceEvent::Opened { .. } => false,
        SourceEvent::Read { outcome, .. } => outcome is Ok,
        SourceEvent::ReadExact { outcome, .. } => outcome is Ok,
    }
}

/// These calls begin with those by which these deliveries are made, one after the other: a
/// write of the payload, and a flush. All of these succeed.
pub open spec fn delivers<X>(calls: Seq<SinkEvent<X>>, deliveries: Seq<Delivery>) -> bool {
    &&& calls.len() >= 2 * deliveries.len()
    &&& forall|i: int|
        #![trigger deliveries[i]]
        0 <= i < deliveries.len() ==> {
            &&& calls[2 * i] == (SinkEvent::<X> {
                call: SinkCall::Write(deliveries[i].payload),
                outcome: Ok(()),
            })
            &&& calls[2 * i + 1] == (SinkEvent::<X> { call: SinkCall::Flush, outcome: Ok(()) })
        }
}

/// The calls behind these deliveries are those of one more, which fails: the write fails, or
/// the flush behind a write that succeeds.
pub open spec fn delivery_fails<X>(
    calls: Seq<SinkEvent<X>>,
    deliveries: Seq<Delivery>,
    failed: Delivery,
    error: X,
) -> bool {
    let n = 2 * deliveries.len() as int;
    ||| {
        &&& calls.len() == n + 1
        &&& calls[n] == (SinkEvent { call: SinkCall::Write(failed.payload), outcome: Err(error) })
    }
    ||| {
        &&& calls.len() == n + 2
        &&& calls[n] == (SinkEvent::<X> {
            call: SinkCall::Write(failed.payload),
            outcome: Ok(()),
        })
        &&& calls[n + 1] == (SinkEvent { call: SinkCall::Flush, outcome: Err(error) })
    }
}

/// No call on the sink failed.
pub open spec fn all_taken<X>(calls: Seq<SinkEvent<X>>) -> bool {
    forall|i: int| 0 <= i < calls.len() ==> (#[trigger] calls[i]).outcome is Ok
}

/// The last call on the sink failed with this error, and no other: it was a write of this
/// payload, or the flush behind one.
pub open spec fn last_fails<X>(calls: Seq<SinkEvent<X>>, payload: Seq<u8>, error: X) -> bool {
    let last = calls.len() - 1;
    &&& last >= 0
    &&& all_taken(calls.drop_last())
    &&& calls[last].outcome == Err::<(), X>(error)
    &&& {
        ||| calls[last].call == SinkCall::Write(payload)
        ||| last >= 1 && calls[last].call == SinkCall::Flush && calls[last - 1].call
            == SinkCall::Write(payload)
    }
}

/// What comes behind a known front is what was added to it.
pub proof fn lemma_added<T>(before: Seq<T>, more: Seq<T>)
    ensures
        added(before, before + more) == more,
        before.is_prefix_of(before + more),
{
    assert(added(before, before + more) =~= more);
}

} // verus!
