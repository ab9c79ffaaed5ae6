//! Getting everything out of a session.
//!
//! After a write a session holds its frames back until it is asked for output,
//! and it goes on answering until it names the time at which it wants to be
//! woken.

use std::time::Instant;

use str0m::net::Transmit;
use vstd::prelude::*;

use crate::peer_connection::rtc::{RtcEvent, RtcEventView, RtcOutput, RtcOutputView, Session, Step};

verus! {

/// Outputs after which a drain of a session gives up. A session runs dry long
/// before.
pub const DRAIN_LIMIT: u64 = u64::MAX;

/// Every step asked the session for output.
pub open spec fn only_polls(steps: Seq<Step>) -> bool {
    forall|i: int| 0 <= i < steps.len() ==> #[trigger] steps[i] is Polled
}

/// The session has nothing more to say.
pub open spec fn is_dry(output: RtcOutputView) -> bool {
    output is Timeout || output is Failed
}

/// The session was asked for output until it had nothing more to say.
pub open spec fn is_drain(steps: Seq<Step>) -> bool {
    &&& only_polls(steps)
    &&& 0 < steps.len() <= DRAIN_LIMIT
    &&& forall|i: int| 0 <= i < steps.len() - 1 ==> !is_dry((#[trigger] steps[i])->output)
    &&& is_dry(steps.last()->output) || steps.len() == DRAIN_LIMIT
}

/// The session was asked for output until it had no datagram to send.
pub open spec fn is_transmit_drain(steps: Seq<Step>) -> bool {
    &&& only_polls(steps)
    &&& 0 < steps.len() <= DRAIN_LIMIT
    &&& forall|i: int| 0 <= i < steps.len() - 1 ==> (#[trigger] steps[i])->output is Transmit
    &&& !(steps.last()->output is Transmit) || steps.len() == DRAIN_LIMIT
}

/// A drain. If it brought no datagram and the session asked to be woken at some
/// time, that time is handed in at once, and the datagrams that this sets free are
/// drained.
pub open spec fn is_flush_split(steps: Seq<Step>, n: int) -> bool {
    &&& 0 < n <= steps.len()
    &&& is_drain(steps.take(n))
    &&& match steps[n - 1]->output {
        RtcOutputView::Timeout(at) => if sent_in(steps.take(n)).len() == 0 {
            &&& n < steps.len()
            &&& steps[n] is TimedOut
            &&& steps[n]->TimedOut_at == at
            &&& is_transmit_drain(steps.skip(n + 1))
        } else {
            n == steps.len()
        },
        _ => n == steps.len(),
    }
}

/// Steps that flush a session.
pub open spec fn is_flush(steps: Seq<Step>) -> bool {
    exists|n: int| is_flush_split(steps, n)
}

/// A flush hands a time in only if the session had no datagram ready before.
pub proof fn law_flush_waits_after_output(steps: Seq<Step>, i: int)
    requires
        is_flush(steps),
        0 <= i < steps.len(),
        steps[i] is TimedOut,
    ensures
        sent_in(steps.take(i)).len() == 0,
{
    let n = choose|n: int| is_flush_split(steps, n);
    if i < n {
        assert(steps.take(n)[i] is Polled);
    } else if i > n {
        assert(steps.skip(n + 1)[i - n - 1] is Polled);
    }
}

/// The datagrams that the session asked to be sent in these steps.
pub open spec fn sent_in(steps: Seq<Step>) -> Seq<Transmit>
    decreases steps.len(),
{
    if steps.len() == 0 {
        Seq::empty()
    } else {
        match steps.last() {
            Step::Polled { output: RtcOutputView::Transmit(transmit) } => sent_in(
                steps.drop_last(),
            ).push(transmit),
            _ => sent_in(steps.drop_last()),
        }
    }
}

/// The events that the session reported in these steps.
pub open spec fn events_in(steps: Seq<Step>) -> Seq<RtcEventView>
    decreases steps.len(),
{
    if steps.len() == 0 {
        Seq::empty()
    } else {
        match steps.last() {
            Step::Polled { output: RtcOutputView::Event(event) } => events_in(
                steps.drop_last(),
            ).push(event),
            _ => events_in(steps.drop_last()),
        }
    }
}

pub(crate) proof fn lemma_sent_in_add(a: Seq<Step>, b: Seq<Step>)
    ensures
        sent_in(a + b) == sent_in(a) + sent_in(b),
    decreases b.len(),
{
    if b.len() == 0 {
        assert(a + b =~= a);
    } else {
        assert((a + b).drop_last() =~= a + b.drop_last());
        lemma_sent_in_add(a, b.drop_last());
    }
}

pub(crate) proof fn lemma_events_in_add(a: Seq<Step>, b: Seq<Step>)
    ensures
        events_in(a + b) == events_in(a) + events_in(b),
    decreases b.len(),
{
    if b.len() == 0 {
        assert(a + b =~= a);
    } else {
        assert((a + b).drop_last() =~= a + b.drop_last());
        lemma_events_in_add(a, b.drop_last());
    }
}

/// What each event of a sequence says.
pub open spec fn event_views(events: Seq<RtcEvent>) -> Seq<RtcEventView> {
    events.map_values(|event: RtcEvent| event@)
}

pub(crate) proof fn lemma_event_views_push(events: Seq<RtcEvent>, event: RtcEvent)
    ensures
        event_views(events.push(event)) == event_views(events).push(event@),
{
    assert(event_views(events.push(event)) =~= event_views(events).push(event@));
}

/// Asks a session for output until it has nothing more to say. Datagrams go to
/// `sent` and events to `events`; a time to be woken at is handed back.
pub(crate) fn drain(
    session: &mut Session,
    sent: &mut Vec<Transmit>,
    events: &mut Vec<RtcEvent>,
) -> (wake: (Option<Instant>, Ghost<Seq<Step>>))
    ensures
        is_drain(wake.1@),
        final(session).trace() == old(session).trace() + wake.1@,
        final(sent)@ == old(sent)@ + sent_in(wake.1@),
        event_views(final(events)@) == event_views(old(events)@) + events_in(wake.1@),
        match wake.0 {
            Some(at) => wake.1@.last()->output == RtcOutputView::Timeout(at),
            None => !(wake.1@.last()->output is Timeout),
        },
{
    let ghost mut steps: Seq<Step> = Seq::empty();
    let mut left: u64 = DRAIN_LIMIT;
    assert(old(session).trace() + steps =~= old(session).trace());
    while left > 0
        invariant
            steps.len() == DRAIN_LIMIT - left,
            only_polls(steps),
            forall|i: int| 0 <= i < steps.len() ==> !is_dry((#[trigger] steps[i])->output),
            session.trace() == old(session).trace() + steps,
            sent@ == old(sent)@ + sent_in(steps),
            event_views(events@) == event_views(old(events)@) + events_in(steps),
        decreases left,
    {
        let output = session.poll_output();
        let ghost step = Step::Polled { output: output@ };
        proof {
            assert(steps.push(step).drop_last() =~= steps);
            steps = steps.push(step);
            assert(session.trace() =~= old(session).trace() + steps);
        }
        left = left - 1;
        match output {
            RtcOutput::Transmit(transmit) => {
                sent.push(transmit);
            },
            RtcOutput::Event(event) => {
                proof {
                    lemma_event_views_push(events@, event);
                }
                events.push(event);
            },
            RtcOutput::Timeout(at) => {
                return (Some(at), Ghost(steps));
            },
            RtcOutput::Failed(_) => {
                return (None, Ghost(steps));
            },
        }
    }
    (None, Ghost(steps))
}

/// Asks a session for output until it has no datagram to send. Datagrams go to
/// `sent`, and an event that ends the drain to `events`.
fn drain_transmits(
    session: &mut Session,
    sent: &mut Vec<Transmit>,
    events: &mut Vec<RtcEvent>,
) -> (steps: Ghost<Seq<Step>>)
    ensures
        is_transmit_drain(steps@),
        final(session).trace() == old(session).trace() + steps@,
        final(sent)@ == old(sent)@ + sent_in(steps@),
        event_views(final(events)@) == event_views(old(events)@) + events_in(steps@),
{
    let ghost mut steps: Seq<Step> = Seq::empty();
    let mut left: u64 = DRAIN_LIMIT;
    assert(old(session).trace() + steps =~= old(session).trace());
    while left > 0
        invariant
            steps.len() == DRAIN_LIMIT - left,
            only_polls(steps),
            forall|i: int| 0 <= i < steps.len() ==> (#[trigger] steps[i])->output is Transmit,
            session.trace() == old(session).trace() + steps,
            sent@ == old(sent)@ + sent_in(steps),
            event_views(events@) == event_views(old(events)@) + events_in(steps),
        decreases left,
    {
        let output = session.poll_output();
        let ghost step = Step::Polled { output: output@ };
        proof {
            assert(steps.push(step).drop_last() =~= steps);
            steps = steps.push(step);
            assert(session.trace() =~= old(session).trace() + steps);
        }
        left = left - 1;
        match output {
            RtcOutput::Transmit(transmit) => {
                sent.push(transmit);
            },
            RtcOutput::Event(event) => {
                proof {
                    lemma_event_views_push(events@, event);
                }
                events.push(event);
                return Ghost(steps);
            },
            _ => {
                return Ghost(steps);
            },
        }
    }
    Ghost(steps)
}

/// Flushes a session: after a write, the session holds frames back until it is
/// asked for output. Everything that is ready is drained. If no datagram is, the
/// session is told the next time it wants to be woken at, so that it lets go of
/// what it buffers.
pub(crate) fn flush(
    session: &mut Session,
    sent: &mut Vec<Transmit>,
    events: &mut Vec<RtcEvent>,
) -> (steps: Ghost<Seq<Step>>)
    ensures
        is_flush(steps@),
        final(session).trace() == old(session).trace() + steps@,
        final(sent)@ == old(sent)@ + sent_in(steps@),
        event_views(final(events)@) == event_views(old(events)@) + events_in(steps@),
{
    let before = sent.len();
    let (wake, Ghost(first)) = drain(session, sent, events);
    let wake = if sent.len() == before {
        wake
    } else {
        None
    };
    match wake {
        Some(at) => {
            let outcome = session.timeout(at);
            let ghost told = session.trace().last();
            let Ghost(rest) = drain_transmits(session, sent, events);
            let ghost steps = first.push(told) + rest;
            proof {
                lemma_sent_in_add(first.push(told), rest);
                lemma_events_in_add(first.push(told), rest);
                assert(first.push(told).drop_last() =~= first);
                assert(session.trace() =~= old(session).trace() + steps);
                assert(steps.take(first.len() as int) =~= first);
                assert(steps.skip(first.len() as int + 1) =~= rest);
                assert(is_flush_split(steps, first.len() as int));
                assert(sent@ =~= old(sent)@ + sent_in(steps));
                assert(event_views(events@) =~= event_views(old(events)@) + events_in(steps));
            }
            Ghost(steps)
        },
        None => {
            proof {
                assert(first.take(first.len() as int) =~= first);
                assert(is_flush_split(first, first.len() as int));
            }
            Ghost(first)
        },
    }
}

} // verus!
