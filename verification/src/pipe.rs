//! The live log pipe: routes what a worker sends to standard output and standard error.

use vstd::prelude::*;

use crate::endpoint;
use crate::endpoint::{deliver, ByteSink, SinkEvent};
use crate::log_tee::LogStream;

pub mod contract;
pub mod descriptor;
pub mod frames;
pub mod metadata;

verus! {

/// The longest chunk or frame that the receiver accepts.
pub const MAX_FRAME_BYTES: usize = 64 * 1024;

/// What a copy routed.
#[derive(Debug, Clone, Copy, PartialEq, Eq, Structural)]
pub struct CopyStats {
    pub frames: u64,
    pub bytes: u64,
}

impl Default for CopyStats {
    fn default() -> (stats: CopyStats)
        ensures
            stats.frames == 0,
            stats.bytes == 0,
    {
        CopyStats { frames: 0, bytes: 0 }
    }
}

/// A count that stops at its maximum.
pub open spec fn saturated(count: nat) -> u64 {
    if count > u64::MAX {
        u64::MAX
    } else {
        count as u64
    }
}

impl CopyStats {
    /// Counts one more unit of this many bytes. A count that is at its maximum stays there.
    pub fn count(&mut self, bytes: usize)
        ensures
            final(self).frames == saturated((old(self).frames + 1) as nat),
            final(self).bytes == saturated((old(self).bytes + bytes) as nat),
    {
        self.frames = self.frames.saturating_add(1);
        self.bytes = self.bytes.saturating_add(bytes as u64);
    }
}

/// Bytes for one of the two output streams.
pub struct Delivery {
    pub stream: LogStream,
    pub payload: Seq<u8>,
}

/// The bytes of these deliveries that go to one stream, in order.
pub open spec fn routed(deliveries: Seq<Delivery>, stream: LogStream) -> Seq<u8>
    decreases deliveries.len(),
{
    if deliveries.len() == 0 {
        Seq::empty()
    } else {
        let before = routed(deliveries.drop_last(), stream);
        if deliveries.last().stream == stream {
            before + deliveries.last().payload
        } else {
            before
        }
    }
}

/// The calls on the sink of one stream by which a delivery is made.
pub open spec fn routing_of<X>(delivery: Delivery, stream: LogStream) -> Seq<SinkEvent<X>> {
    if delivery.stream == stream {
        endpoint::all_accepted(endpoint::delivery_calls(delivery.payload))
    } else {
        Seq::empty()
    }
}

/// The calls on the sink of one stream in a delivery that fails.
pub open spec fn failed_routing_of<X>(
    delivery: Delivery,
    stream: LogStream,
    step: int,
    error: X,
) -> Seq<SinkEvent<X>> {
    if delivery.stream == stream {
        endpoint::failed_at(endpoint::delivery_calls(delivery.payload), step, error)
    } else {
        Seq::empty()
    }
}

/// The calls on the sink of one stream by which these deliveries are made.
pub open spec fn routing<X>(deliveries: Seq<Delivery>, stream: LogStream) -> Seq<SinkEvent<X>>
    decreases deliveries.len(),
{
    if deliveries.len() == 0 {
        Seq::empty()
    } else {
        routing(deliveries.drop_last(), stream) + routing_of(deliveries.last(), stream)
    }
}

/// The bytes of these deliveries, for whichever stream.
pub open spec fn total_bytes(deliveries: Seq<Delivery>) -> nat
    decreases deliveries.len(),
{
    if deliveries.len() == 0 {
        0
    } else {
        total_bytes(deliveries.drop_last()) + deliveries.last().payload.len()
    }
}

/// The payloads of these deliveries, one after the other.
pub open spec fn payloads(deliveries: Seq<Delivery>) -> Seq<u8>
    decreases deliveries.len(),
{
    if deliveries.len() == 0 {
        Seq::empty()
    } else {
        payloads(deliveries.drop_last()) + deliveries.last().payload
    }
}

/// What is counted of these deliveries.
pub open spec fn stats_of(deliveries: Seq<Delivery>) -> CopyStats {
    CopyStats {
        frames: saturated(deliveries.len()),
        bytes: saturated(total_bytes(deliveries)),
    }
}

/// Writes the payload to the sink of its stream and flushes that sink. The other sink is
/// left alone.
pub fn route<X, O: ByteSink<X>, E: ByteSink<X>>(
    stdout: &mut O,
    stderr: &mut E,
    stream: LogStream,
    payload: &[u8],
) -> (result: Result<(), X>)
    ensures
        ({
            let delivery = Delivery { stream, payload: payload@ };
            match result {
                Ok(_) => {
                    &&& final(stdout).history() == old(stdout).history() + routing_of(
                        delivery,
                        LogStream::Stdout,
                    )
                    &&& final(stderr).history() == old(stderr).history() + routing_of(
                        delivery,
                        LogStream::Stderr,
                    )
                },
                Err(error) => exists|step: int|
                    {
                        &&& 0 <= step < 2
                        &&& final(stdout).history() == old(stdout).history()
                            + #[trigger] failed_routing_of(delivery, LogStream::Stdout, step, error)
                        &&& final(stderr).history() == old(stderr).history() + failed_routing_of(
                            delivery,
                            LogStream::Stderr,
                            step,
                            error,
                        )
                    },
            }
        }),
{
    let ghost out = stdout.history();
    let ghost err = stderr.history();
    let ghost delivery = Delivery { stream, payload: payload@ };
    let ghost calls = endpoint::delivery_calls(payload@);
    let result = match stream {
        LogStream::Stdout => deliver(stdout, payload),
        LogStream::Stderr => deliver(stderr, payload),
    };
    proof {
        assert(out + Seq::<SinkEvent<X>>::empty() =~= out);
        assert(err + Seq::<SinkEvent<X>>::empty() =~= err);
        if result is Err {
            let error = result->Err_0;
            let step = match stream {
                LogStream::Stdout => choose|step: int|
                    0 <= step < 2 && stdout.history() == out + #[trigger] endpoint::failed_at(
                        calls,
                        step,
                        error,
                    ),
                LogStream::Stderr => choose|step: int|
                    0 <= step < 2 && stderr.history() == err + #[trigger] endpoint::failed_at(
                        calls,
                        step,
                        error,
                    ),
            };
            assert(stdout.history() == out + failed_routing_of(
                delivery,
                LogStream::Stdout,
                step,
                error,
            ));
        }
    }
    result
}

/// A sink that gets these deliveries accepts their bytes, and no others.
pub proof fn law_routing_hands_over_payloads<X>(deliveries: Seq<Delivery>, stream: LogStream)
    ensures
        endpoint::accepted(routing::<X>(deliveries, stream)) == routed(deliveries, stream),
    decreases deliveries.len(),
{
    if deliveries.len() > 0 {
        let payload = deliveries.last().payload;
        law_routing_hands_over_payloads::<X>(deliveries.drop_last(), stream);
        endpoint::lemma_delivery_accepted::<X>(payload);
        endpoint::lemma_accepted_append(
            routing::<X>(deliveries.drop_last(), stream),
            routing_of(deliveries.last(), stream),
        );
        assert(endpoint::accepted(routing::<X>(deliveries, stream)) =~= routed(deliveries, stream));
    }
}

/// The payload of the first delivery comes first.
pub proof fn lemma_first_payload(first: Delivery, deliveries: Seq<Delivery>)
    ensures
        payloads(seq![first] + deliveries) == first.payload + payloads(deliveries),
    decreases deliveries.len(),
{
    let all = seq![first] + deliveries;
    if deliveries.len() == 0 {
        assert(all.drop_last() =~= deliveries);
        assert(payloads(all) =~= first.payload + payloads(deliveries));
    } else {
        lemma_first_payload(first, deliveries.drop_last());
        assert(all.drop_last() =~= seq![first] + deliveries.drop_last());
        assert(payloads(all) =~= first.payload + payloads(deliveries));
    }
}

/// Every byte goes to exactly one of the two streams.
pub proof fn law_each_byte_goes_to_one_stream(deliveries: Seq<Delivery>)
    ensures
        routed(deliveries, LogStream::Stdout).len() + routed(deliveries, LogStream::Stderr).len()
            == total_bytes(deliveries),
    decreases deliveries.len(),
{
    if deliveries.len() > 0 {
        law_each_byte_goes_to_one_stream(deliveries.drop_last());
    }
}

} // verus!
