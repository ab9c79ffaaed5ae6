//! What each operation of the native manager brings about.
//!
//! The effects are told by what can be seen from outside: the calls that a session got,
//! what was queued, sent, signaled and delivered, and who is woken.

use std::time::Instant;

use str0m::channel::ChannelId;
use str0m::net::Transmit;
use vstd::prelude::*;

use crate::addr::key_less;
use crate::net::SocketAddr;
use crate::peer_connection::error::{ConnectErrorView, PeerErrorView};
use crate::peer_connection::flush::{
    events_in, is_drain, is_flush, is_flush_split, is_transmit_drain, sent_in,
};
use crate::peer_connection::model::{
    answer_outcome, answer_result, candidate_outcome, closed, event_outcome, is_opening, is_send,
    offer_handled, offer_outcome, opened, send_outcome, unconnected_send_outcome, ManagerView,
    PeerView,
};
use crate::peer_connection::rtc::{
    candidate_error, data_only, is_answer, is_host_address, is_offer, names_host, IceState,
    RtcEventView, RtcOutputView, Step, WriteOutcomeView,
};
use crate::peer_connection::ConnectionState;
use crate::signaling::{SignalingEnvelopeView, SignalingMsgView};

verus! {

// ---------------------------------------------------------------------------
// What can be seen of a session
// ---------------------------------------------------------------------------

/// The datagram that a session asked to be sent in a step.
pub open spec fn transmitted(step: Step) -> Option<Transmit> {
    match step {
        Step::Polled { output: RtcOutputView::Transmit(transmit) } => Some(transmit),
        _ => None,
    }
}

/// The datagrams that a session asked to be sent, first to last.
pub open spec fn transmits(steps: Seq<Step>) -> Seq<Transmit> {
    steps.filter_map(|step: Step| transmitted(step))
}

/// The event that a session reported in a step.
pub open spec fn reported(step: Step) -> Option<RtcEventView> {
    match step {
        Step::Polled { output: RtcOutputView::Event(event) } => Some(event),
        _ => None,
    }
}

/// The events that a session reported, first to last.
pub open spec fn reports(steps: Seq<Step>) -> Seq<RtcEventView> {
    steps.filter_map(|step: Step| reported(step))
}

/// The channel and the bytes that were written to it in a step.
pub open spec fn written(step: Step) -> Option<(ChannelId, Seq<u8>)> {
    match step {
        Step::Written { channel, data, .. } => Some((channel, data)),
        _ => None,
    }
}

/// What was written to the channels of a session, first to last.
pub open spec fn writes(steps: Seq<Step>) -> Seq<(ChannelId, Seq<u8>)> {
    steps.filter_map(|step: Step| written(step))
}

proof fn lemma_filter_map_add<A, B>(a: Seq<A>, b: Seq<A>, f: spec_fn(A) -> Option<B>)
    ensures
        (a + b).filter_map(f) == a.filter_map(f) + b.filter_map(f),
    decreases b.len(),
{
    if b.len() == 0 {
        assert(a + b =~= a);
        assert(a.filter_map(f) + b.filter_map(f) =~= a.filter_map(f));
    } else {
        assert((a + b).drop_last() =~= a + b.drop_last());
        lemma_filter_map_add(a, b.drop_last(), f);
        assert((a + b).filter_map(f) =~= a.filter_map(f) + b.filter_map(f));
    }
}

proof fn lemma_filter_map_none<A, B>(a: Seq<A>, f: spec_fn(A) -> Option<B>)
    requires
        forall|i: int| 0 <= i < a.len() ==> f(#[trigger] a[i]) is None,
    ensures
        a.filter_map(f) == Seq::<B>::empty(),
    decreases a.len(),
{
    if a.len() > 0 {
        assert forall|i: int| 0 <= i < a.drop_last().len() implies f(
            #[trigger] a.drop_last()[i],
        ) is None by {
            assert(a.drop_last()[i] == a[i]);
        }
        lemma_filter_map_none(a.drop_last(), f);
        assert(f(a[a.len() - 1]) is None);
    }
}

/// Steps that follow each other are seen one after the other.
pub proof fn law_observations_add(first: Seq<Step>, second: Seq<Step>)
    ensures
        transmits(first + second) == transmits(first) + transmits(second),
        reports(first + second) == reports(first) + reports(second),
        writes(first + second) == writes(first) + writes(second),
{
    lemma_filter_map_add(first, second, |step: Step| transmitted(step));
    lemma_filter_map_add(first, second, |step: Step| reported(step));
    lemma_filter_map_add(first, second, |step: Step| written(step));
}

/// Every datagram that a session asks to be sent goes out, and every event that it
/// reports is handled, each once and in order.
pub proof fn law_output_is_kept(steps: Seq<Step>)
    ensures
        sent_in(steps) == transmits(steps),
        events_in(steps) == reports(steps),
    decreases steps.len(),
{
    if steps.len() > 0 {
        law_output_is_kept(steps.drop_last());
        assert(sent_in(steps) =~= transmits(steps));
        assert(events_in(steps) =~= reports(steps));
    } else {
        assert(sent_in(steps) =~= transmits(steps));
        assert(events_in(steps) =~= reports(steps));
    }
}

/// A session is asked for output until it names a time to be woken at, or fails; it is
/// never left with output that it has ready.
pub proof fn law_drain_runs_dry(steps: Seq<Step>)
    requires
        is_drain(steps),
        steps.len() < 0xFFFF_FFFF_FFFF_FFFF,
    ensures
        steps.len() > 0,
        forall|i: int| 0 <= i < steps.len() ==> #[trigger] steps[i] is Polled,
        steps.last()->output is Timeout || steps.last()->output is Failed,
        forall|i: int|
            0 <= i < steps.len() - 1 ==> (#[trigger] steps[i])->output is Transmit
                || steps[i]->output is Event,
{
    assert(steps[steps.len() - 1] is Polled);
    assert forall|i: int| 0 <= i < steps.len() - 1 implies (#[trigger] steps[i])->output is Transmit
        || steps[i]->output is Event by {
        assert(steps[i] is Polled);
    }
}

/// A flush asks a session for output until it has none ready. If no datagram came of it
/// and the session named a time to be woken at, that time is handed in, and the
/// datagrams that this sets free are taken. Nothing is written to a channel.
pub proof fn law_flush_runs_dry(steps: Seq<Step>)
    requires
        is_flush(steps),
        steps.len() < 0xFFFF_FFFF_FFFF_FFFF,
    ensures
        writes(steps).len() == 0,
        exists|n: int|
            0 < n <= steps.len() && (#[trigger] steps[n - 1] is Polled) && (match steps[n
                - 1]->output {
                RtcOutputView::Timeout(at) => if transmits(steps.take(n)).len() > 0 {
                    n == steps.len()
                } else {
                    &&& n + 1 < steps.len()
                    &&& steps[n] is TimedOut
                    &&& steps[n]->TimedOut_at == at
                    &&& steps.last() is Polled
                    &&& !(steps.last()->output is Transmit)
                    &&& forall|i: int|
                        n < i < steps.len() - 1 ==> (#[trigger] steps[i]) is Polled
                            && steps[i]->output is Transmit
                },
                RtcOutputView::Failed(_) => n == steps.len(),
                _ => false,
            }),
{
    let n = choose|n: int| is_flush_split(steps, n);
    let first = steps.take(n);
    lemma_flush_writes_nothing(steps);
    law_drain_runs_dry(first);
    law_output_is_kept(first);
    assert(first.last() == steps[n - 1]);
    assert(first[n - 1] is Polled);
    assert(steps[n - 1] is Polled);
    if steps[n - 1]->output is Timeout && transmits(first).len() == 0 {
        let rest = steps.skip(n + 1);
        assert(is_transmit_drain(rest));
        assert(rest[rest.len() - 1] is Polled);
        assert(rest.last() == steps.last());
        assert forall|i: int| n < i < steps.len() - 1 implies (#[trigger] steps[i]) is Polled
            && steps[i]->output is Transmit by {
            assert(rest[i - n - 1] == steps[i]);
            assert(rest[i - n - 1] is Polled);
        }
    }
}

proof fn lemma_flush_writes_nothing(steps: Seq<Step>)
    requires
        is_flush(steps),
    ensures
        writes(steps) == Seq::<(ChannelId, Seq<u8>)>::empty(),
        forall|i: int| 0 <= i < steps.len() ==> #[trigger] written(steps[i]) is None,
{
    let n = choose|n: int| is_flush_split(steps, n);
    assert forall|i: int| 0 <= i < steps.len() implies #[trigger] written(steps[i]) is None by {
        if i < n {
            assert(steps.take(n)[i] is Polled);
        } else if i > n {
            assert(steps.skip(n + 1)[i - n - 1] is Polled);
        }
    }
    lemma_filter_map_none(steps, |step: Step| written(step));
}

// ---------------------------------------------------------------------------
// Signaling
// ---------------------------------------------------------------------------

/// A candidate that is accepted has reached the session that it belongs to: the calls on
/// that session grow by exactly one, the adding of that candidate, and nothing else
/// changes. It is accepted exactly if it can be read and names the current session of the
/// peer; a candidate that is not changes nothing.
pub proof fn law_candidate_reaches_session<S, W>(
    pre: ManagerView<S, W>,
    peer: Seq<u8>,
    session_id: u64,
    candidate: Seq<char>,
)
    ensures
        ({
            let (post, result) = candidate_outcome(pre, peer, session_id, candidate);
            &&& result is Ok <==> {
                &&& pre.peers.dom().contains(peer)
                &&& pre.peers[peer].session_id == session_id
                &&& candidate_error(candidate) is None
            }
            &&& result is Ok ==> {
                &&& post.peers.dom() == pre.peers.dom()
                &&& post.peers[peer].trace.drop_last() == pre.peers[peer].trace
                &&& post.peers[peer].trace.last() == (Step::RemoteCandidate { text: candidate })
                &&& post.peers[peer].trace.len() == pre.peers[peer].trace.len() + 1
                &&& post.peers[peer] == (PeerView {
                    trace: post.peers[peer].trace,
                    ..pre.peers[peer]
                })
                &&& post == (ManagerView { peers: post.peers, ..pre })
            }
            &&& result is Err ==> post == pre
            &&& !pre.peers.dom().contains(peer) ==> result == Err::<(), _>(
                PeerErrorView::NoConnectionForCandidate,
            )
            &&& pre.peers.dom().contains(peer) && pre.peers[peer].session_id != session_id
                ==> result == Err::<(), _>(PeerErrorView::SessionMismatch)
        }),
        pre.peers.dom().contains(peer) && pre.peers[peer].session_id == session_id ==> (
        candidate_error(candidate) matches Some(why) ==> candidate_outcome(
            pre,
            peer,
            session_id,
            candidate,
        ).1 == Err::<(), _>(PeerErrorView::InvalidCandidate(why))),
{
    let (post, result) = candidate_outcome(pre, peer, session_id, candidate);
    if result is Ok {
        assert(post.peers.dom() =~= pre.peers.dom());
        assert(post.peers[peer].trace.drop_last() =~= pre.peers[peer].trace);
    }
}

/// Candidates that arrive one after the other all reach the session, in the order of
/// arrival.
pub proof fn law_candidates_accumulate<S, W>(
    pre: ManagerView<S, W>,
    peer: Seq<u8>,
    session_id: u64,
    first: Seq<char>,
    second: Seq<char>,
)
    requires
        pre.peers.dom().contains(peer),
        pre.peers[peer].session_id == session_id,
        candidate_error(first) is None,
        candidate_error(second) is None,
    ensures
        ({
            let between = candidate_outcome(pre, peer, session_id, first).0;
            let post = candidate_outcome(between, peer, session_id, second).0;
            post.peers[peer].trace == pre.peers[peer].trace + seq![
                Step::RemoteCandidate { text: first },
                Step::RemoteCandidate { text: second },
            ]
        }),
{
    let between = candidate_outcome(pre, peer, session_id, first).0;
    let post = candidate_outcome(between, peer, session_id, second).0;
    assert(post.peers[peer].trace =~= pre.peers[peer].trace + seq![
        Step::RemoteCandidate { text: first },
        Step::RemoteCandidate { text: second },
    ]);
}

/// An answer is set against the offer that awaits it, in the session that it names, and
/// what the session says of it is the result. The offer awaits no other answer then, and
/// the rest of the connection is as it was.
pub proof fn law_answer_reaches_session<S, W>(
    pre: ManagerView<S, W>,
    peer: Seq<u8>,
    session_id: u64,
    sdp: Seq<char>,
    post: ManagerView<S, W>,
    result: Result<(), PeerErrorView>,
)
    requires
        answer_outcome(pre, peer, session_id, sdp, post, result),
        pre.peers.dom().contains(peer),
        pre.peers[peer].session_id == session_id,
        pre.peers[peer].pending_offer is Some,
    ensures
        post == (ManagerView { peers: post.peers, ..pre }),
        post.peers.dom() == pre.peers.dom(),
        post.peers[peer] == (PeerView {
            pending_offer: None,
            trace: post.peers[peer].trace,
            ..pre.peers[peer]
        }),
        !is_answer(sdp) ==> {
            &&& result matches Err(PeerErrorView::InvalidAnswer(_))
            &&& post.peers[peer].trace == pre.peers[peer].trace
        },
        is_answer(sdp) ==> {
            &&& post.peers[peer].trace.drop_last() == pre.peers[peer].trace
            &&& post.peers[peer].trace.len() == pre.peers[peer].trace.len() + 1
            &&& post.peers[peer].trace.last() is AnswerAccepted
            &&& post.peers[peer].trace.last()->AnswerAccepted_offer
                == pre.peers[peer].pending_offer->0
            &&& post.peers[peer].trace.last()->answer == sdp
            &&& match post.peers[peer].trace.last()->AnswerAccepted_outcome {
                Ok(_) => result is Ok,
                Err(why) => result == Err::<(), _>(PeerErrorView::AnswerRefused(why)),
            }
        },
{
    assert(post.peers.dom() =~= pre.peers.dom());
    if is_answer(sdp) {
        let offer = pre.peers[peer].pending_offer->0;
        let outcome = choose|outcome: Result<(), Seq<char>>|
            post == (ManagerView {
                peers: pre.peers.insert(
                    peer,
                    PeerView {
                        pending_offer: None,
                        trace: pre.peers[peer].trace.push(
                            Step::AnswerAccepted { offer, answer: sdp, outcome },
                        ),
                        ..pre.peers[peer]
                    },
                ),
                ..pre
            }) && result == #[trigger] answer_result(outcome);
        assert(post.peers[peer].trace.drop_last() =~= pre.peers[peer].trace);
    }
}

/// An answer that no connection, or no offer of the session that it names, awaits changes
/// nothing, and says why.
pub proof fn law_stray_answer_changes_nothing<S, W>(
    pre: ManagerView<S, W>,
    peer: Seq<u8>,
    session_id: u64,
    sdp: Seq<char>,
    post: ManagerView<S, W>,
    result: Result<(), PeerErrorView>,
)
    requires
        answer_outcome(pre, peer, session_id, sdp, post, result),
        !pre.peers.dom().contains(peer) || pre.peers[peer].session_id != session_id
            || pre.peers[peer].pending_offer is None,
    ensures
        post == pre,
        !pre.peers.dom().contains(peer) ==> result == Err::<(), _>(
            PeerErrorView::NoConnectionForAnswer,
        ),
        pre.peers.dom().contains(peer) && pre.peers[peer].session_id != session_id ==> result
            == Err::<(), _>(PeerErrorView::SessionMismatch),
        pre.peers.dom().contains(peer) && pre.peers[peer].session_id == session_id ==> result
            == Err::<(), _>(PeerErrorView::NoPendingOffer),
{
}

/// A close request ends the session that it names, and only that one: afterwards there is
/// no connection to the peer if it named the current session, and everything is as it was
/// if it did not.
pub proof fn law_close_ends_named_session<S, W>(
    pre: ManagerView<S, W>,
    peer: Seq<u8>,
    session_id: u64,
    other: Seq<u8>,
)
    ensures
        ({
            let post = closed(pre, peer, session_id);
            let named = pre.peers.dom().contains(peer) && pre.peers[peer].session_id == session_id;
            &&& post.peers.dom().contains(peer) <==> pre.peers.dom().contains(peer) && !named
            &&& !named ==> post == pre
            &&& other != peer ==> {
                &&& post.peers.dom().contains(other) == pre.peers.dom().contains(other)
                &&& post.peers[other] == pre.peers[other]
            }
            &&& post == (ManagerView { peers: post.peers, ..pre })
        }),
{
}

/// While both sides offer, the one whose key is not the smaller keeps its own attempt,
/// and the offer of the other changes nothing.
pub proof fn law_offer_ignored_by_greater_key<S, W, E, F: Fn() -> Result<(S, SocketAddr), E>>(
    pre: ManagerView<S, W>,
    peer: Seq<u8>,
    session_id: u64,
    sdp: Seq<char>,
    at: Instant,
    bind: F,
    post: ManagerView<S, W>,
    result: Result<(), ConnectErrorView<E>>,
)
    requires
        offer_handled(pre, peer, session_id, sdp, at, bind, post, result),
        pre.peers.dom().contains(peer),
        pre.peers[peer].state == ConnectionState::Connecting,
        !key_less(pre.my_id, peer),
    ensures
        post == pre,
        result is Ok,
{
}

/// An offer that is not ignored is handed, as it came, to a new session with a socket of
/// its own, and what that session answers is sent back, in the session that the offer
/// named. The connection then waits for its channel, and takes the place of any other to
/// the peer.
pub proof fn law_accepted_offer_is_answered<S, W, E, F: Fn() -> Result<(S, SocketAddr), E>>(
    pre: ManagerView<S, W>,
    peer: Seq<u8>,
    session_id: u64,
    sdp: Seq<char>,
    at: Instant,
    bind: F,
    post: ManagerView<S, W>,
    result: Result<(), ConnectErrorView<E>>,
)
    requires
        offer_handled(pre, peer, session_id, sdp, at, bind, post, result),
        !pre.peers.dom().contains(peer) || pre.peers[peer].state != ConnectionState::Connecting
            || key_less(pre.my_id, peer),
        result is Ok,
    ensures
        is_offer(sdp),
        post.peers.dom() == pre.peers.dom().insert(peer),
        post.peers[peer].session_id == session_id,
        post.peers[peer].state == ConnectionState::Connecting,
        post.peers[peer].channel is None,
        post.peers[peer].waker is None,
        post.peers[peer].pending_sends.len() == 0,
        post.peers[peer].pending_offer is None,
        post.peers[peer].outbox.len() == 0,
        post.peers[peer].deferred.len() == 0,
        post.peers[peer].trace.last() is OfferAccepted,
        post.peers[peer].trace.last()->OfferAccepted_offer == sdp,
        post.peers[peer].trace.last()->OfferAccepted_outcome is Ok,
        post.signaling == pre.signaling.push(
            SignalingEnvelopeView {
                peer,
                msg: SignalingMsgView::Answer {
                    session_id,
                    sdp: post.peers[peer].trace.last()->OfferAccepted_outcome->Ok_0,
                },
            },
        ),
        exists|bound: Result<(S, SocketAddr), E>|
            {
                &&& #[trigger] bind.ensures((), bound)
                &&& bound is Ok
                &&& post.peers[peer].socket == bound->Ok_0.0
                &&& post.peers[peer].trace[0] == (Step::Built { ice_lite: false, at })
                &&& if is_host_address(bound->Ok_0.1@) {
                    &&& post.peers[peer].trace.len() == 3
                    &&& post.peers[peer].trace[1] == (Step::LocalCandidate {
                        addr: bound->Ok_0.1@,
                    })
                } else {
                    post.peers[peer].trace.len() == 2
                }
            },
        post == (ManagerView { peers: post.peers, signaling: post.signaling, ..pre }),
{
    let bound = choose|bound: Result<(S, SocketAddr), E>| #[trigger]
        bind.ensures((), bound) && offer_outcome(
            pre,
            peer,
            session_id,
            sdp,
            at,
            bound,
            post,
            result,
        );
    assert(post.peers.dom() =~= pre.peers.dom().insert(peer));
}

/// An offer that fails is not answered, and sets no connection up. An open connection to
/// the peer stays; an attempt of ours that yielded to the offer is gone. The error says
/// which it was: no socket, no offer, an offer of media, or a refusal.
pub proof fn law_failed_offer_sets_nothing_up<S, W, E, F: Fn() -> Result<(S, SocketAddr), E>>(
    pre: ManagerView<S, W>,
    peer: Seq<u8>,
    session_id: u64,
    sdp: Seq<char>,
    at: Instant,
    bind: F,
    post: ManagerView<S, W>,
    result: Result<(), ConnectErrorView<E>>,
)
    requires
        offer_handled(pre, peer, session_id, sdp, at, bind, post, result),
        result is Err,
    ensures
        post == (ManagerView { peers: post.peers, ..pre }),
        post.peers == if pre.peers.dom().contains(peer) && pre.peers[peer].state
            == ConnectionState::Connecting {
            pre.peers.remove(peer)
        } else {
            pre.peers
        },
        match result {
            Err(ConnectErrorView::Bind(e)) => bind.ensures((), Err(e)),
            Err(ConnectErrorView::Peer(PeerErrorView::InvalidOffer(_))) => !is_offer(sdp),
            Err(ConnectErrorView::Peer(PeerErrorView::MediaOffered)) => is_offer(sdp)
                && !data_only(sdp),
            Err(ConnectErrorView::Peer(PeerErrorView::OfferRefused(_))) => is_offer(sdp)
                && data_only(sdp),
            _ => false,
        },
{
    let bound = choose|bound: Result<(S, SocketAddr), E>| #[trigger]
        bind.ensures((), bound) && offer_outcome(
            pre,
            peer,
            session_id,
            sdp,
            at,
            bound,
            post,
            result,
        );
}

// ---------------------------------------------------------------------------
// Sending
// ---------------------------------------------------------------------------

/// Over a connection, a datagram is written as it is to the channel in use, once, and
/// what the channel says of it is the result. If the channel took it the session is
/// flushed. What the session wants sent goes to the outbox, and its events wait for the
/// next poll.
pub proof fn law_send_writes_to_channel<S, W, E, F: Fn() -> Result<(S, SocketAddr), E>>(
    pre: ManagerView<S, W>,
    peer: Seq<u8>,
    data: Seq<u8>,
    waker: W,
    at: Instant,
    bind: F,
    post: ManagerView<S, W>,
    result: Result<(), ConnectErrorView<E>>,
)
    requires
        send_outcome(pre, peer, data, waker, at, bind, post, result),
        pre.peers.dom().contains(peer),
        pre.peers[peer].state == ConnectionState::Connected,
        pre.peers[peer].channel is Some,
    ensures
        post == (ManagerView { peers: post.peers, ..pre }),
        post.peers.dom() == pre.peers.dom(),
        post.peers[peer] == (PeerView {
            trace: post.peers[peer].trace,
            outbox: post.peers[peer].outbox,
            deferred: post.peers[peer].deferred,
            ..pre.peers[peer]
        }),
        ({
            let before = pre.peers[peer].trace;
            let after = post.peers[peer].trace;
            let steps = after.skip(before.len() as int);
            &&& before.len() < after.len()
            &&& after.take(before.len() as int) == before
            &&& steps[0] is Written
            &&& steps[0]->channel == pre.peers[peer].channel->0
            &&& steps[0]->binary
            &&& steps[0]->Written_data == data
            &&& writes(after) == writes(before).push((pre.peers[peer].channel->0, data))
            &&& match steps[0]->Written_outcome {
                WriteOutcomeView::Missing => steps.len() == 1 && result == Err::<(), _>(
                    ConnectErrorView::<E>::Peer(PeerErrorView::ChannelNotFound),
                ),
                WriteOutcomeView::Accepted(_) => result is Ok && is_flush(steps.skip(1)),
                WriteOutcomeView::Failed(why) => steps.len() == 1 && result == Err::<(), _>(
                    ConnectErrorView::<E>::Peer(PeerErrorView::WriteFailed(why)),
                ),
            }
            &&& post.peers[peer].outbox == pre.peers[peer].outbox + transmits(steps)
            &&& post.peers[peer].deferred == pre.peers[peer].deferred + reports(steps)
        }),
{
    let channel = pre.peers[peer].channel->0;
    let before = pre.peers[peer].trace;
    let after = post.peers[peer].trace;
    let (steps, outcome) = choose|steps: Seq<Step>, outcome: WriteOutcomeView|
        #[trigger] is_send(steps, channel, data, outcome) && after == before + steps
            && post.peers[peer].outbox == pre.peers[peer].outbox + sent_in(steps)
            && post.peers[peer].deferred == pre.peers[peer].deferred + events_in(steps)
            && (match outcome {
            WriteOutcomeView::Missing => result == Err::<(), _>(
                ConnectErrorView::<E>::Peer(PeerErrorView::ChannelNotFound),
            ),
            WriteOutcomeView::Accepted(_) => result is Ok,
            WriteOutcomeView::Failed(why) => result == Err::<(), _>(
                ConnectErrorView::<E>::Peer(PeerErrorView::WriteFailed(why)),
            ),
        });
    assert(post.peers.dom() =~= pre.peers.dom());
    assert(after.skip(before.len() as int) =~= steps);
    assert(after.take(before.len() as int) =~= before);
    law_output_is_kept(steps);
    law_observations_add(before, steps);
    let rest = steps.skip(1);
    assert(steps =~= seq![steps[0]] + rest);
    law_observations_add(seq![steps[0]], rest);
    assert(seq![steps[0]].drop_last() =~= Seq::empty());
    assert(writes(Seq::<Step>::empty()) =~= Seq::empty());
    assert(writes(seq![steps[0]]) =~= seq![(channel, data)]);
    if result is Ok {
        lemma_flush_writes_nothing(rest);
    } else {
        assert(rest =~= Seq::empty());
        assert(writes(rest) =~= Seq::empty());
    }
    assert(writes(after) =~= writes(before).push((channel, data)));
}

/// A connected peer without a channel takes no datagram, and nothing changes.
pub proof fn law_send_needs_channel<S, W, E, F: Fn() -> Result<(S, SocketAddr), E>>(
    pre: ManagerView<S, W>,
    peer: Seq<u8>,
    data: Seq<u8>,
    waker: W,
    at: Instant,
    bind: F,
    post: ManagerView<S, W>,
    result: Result<(), ConnectErrorView<E>>,
)
    requires
        send_outcome(pre, peer, data, waker, at, bind, post, result),
        pre.peers.dom().contains(peer),
        pre.peers[peer].state == ConnectionState::Connected,
        pre.peers[peer].channel is None,
    ensures
        post == pre,
        result == Err::<(), _>(ConnectErrorView::<E>::Peer(PeerErrorView::NoDataChannel)),
{
}

/// While a connection is being set up, a datagram waits behind those that wait already,
/// and its sender is the one to be woken. Nothing else changes, and the sender is told to
/// wait.
pub proof fn law_send_waits_for_connection<S, W, E, F: Fn() -> Result<(S, SocketAddr), E>>(
    pre: ManagerView<S, W>,
    peer: Seq<u8>,
    data: Seq<u8>,
    waker: W,
    at: Instant,
    bind: F,
    post: ManagerView<S, W>,
    result: Result<(), ConnectErrorView<E>>,
)
    requires
        send_outcome(pre, peer, data, waker, at, bind, post, result),
        pre.peers.dom().contains(peer),
        pre.peers[peer].state == ConnectionState::Connecting,
    ensures
        result == Err::<(), _>(ConnectErrorView::<E>::Peer(PeerErrorView::WouldBlock)),
        post.peers.dom() == pre.peers.dom(),
        post.peers[peer].pending_sends == pre.peers[peer].pending_sends.push(data),
        post.peers[peer].waker == Some(waker),
        post.peers[peer] == (PeerView {
            pending_sends: post.peers[peer].pending_sends,
            waker: post.peers[peer].waker,
            ..pre.peers[peer]
        }),
        post == (ManagerView { peers: post.peers, ..pre }),
{
    assert(post.peers.dom() =~= pre.peers.dom());
}

/// A datagram to a peer without a connection, or with a closed one, starts a new session:
/// a socket is bound, a channel without order and retransmits is offered in a session id
/// that is used up by it, and the datagram waits for the answer with its sender. Without a
/// socket there is no connection, and the id is used up all the same.
pub proof fn law_send_starts_session<S, W, E, F: Fn() -> Result<(S, SocketAddr), E>>(
    pre: ManagerView<S, W>,
    peer: Seq<u8>,
    data: Seq<u8>,
    waker: W,
    at: Instant,
    bind: F,
    post: ManagerView<S, W>,
    result: Result<(), ConnectErrorView<E>>,
)
    requires
        send_outcome(pre, peer, data, waker, at, bind, post, result),
        !pre.peers.dom().contains(peer) || pre.peers[peer].state == ConnectionState::Closed,
    ensures
        post.next_session_id == (pre.next_session_id + 1) % 0x1_0000_0000_0000_0000,
        post.my_id == pre.my_id,
        post.datagrams == pre.datagrams,
        post.woken == pre.woken,
        exists|bound: Result<(S, SocketAddr), E>| #[trigger]
            bind.ensures((), bound) && (match bound {
                Err(e) => {
                    &&& result == Err::<(), _>(ConnectErrorView::Bind(e))
                    &&& post.peers == pre.peers.remove(peer)
                    &&& post.signaling == pre.signaling
                },
                Ok((socket, addr)) => {
                    let connection = post.peers[peer];
                    &&& result == Err::<(), _>(
                        ConnectErrorView::<E>::Peer(PeerErrorView::WouldBlock),
                    )
                    &&& post.peers == pre.peers.insert(peer, connection)
                    &&& connection.socket == socket
                    &&& connection.session_id == pre.next_session_id
                    &&& connection.state == ConnectionState::Connecting
                    &&& connection.channel is None
                    &&& connection.waker == Some(waker)
                    &&& connection.pending_sends == seq![data]
                    &&& connection.outbox.len() == 0
                    &&& connection.deferred.len() == 0
                    &&& connection.pending_offer is Some
                    &&& connection.trace[0] == (Step::Built { ice_lite: false, at })
                    &&& connection.trace.last() == (Step::Offered {
                        label: "iroh-quic"@,
                        ordered: false,
                        max_retransmits: 0,
                        sdp: connection.pending_offer->0,
                    })
                    &&& if is_host_address(addr@) {
                        &&& connection.trace.len() == 3
                        &&& connection.trace[1] == (Step::LocalCandidate { addr: addr@ })
                        &&& names_host(connection.pending_offer->0, addr@)
                    } else {
                        connection.trace.len() == 2
                    }
                    &&& post.signaling == pre.signaling.push(
                        SignalingEnvelopeView {
                            peer,
                            msg: SignalingMsgView::Offer {
                                session_id: pre.next_session_id,
                                sdp: connection.pending_offer->0,
                            },
                        },
                    )
                },
            }),
{
    let bound = choose|bound: Result<(S, SocketAddr), E>| #[trigger]
        bind.ensures((), bound) && unconnected_send_outcome(
            pre,
            peer,
            data,
            waker,
            at,
            bound,
            post,
            result,
        );
    if bound is Ok {
        assert(post.peers =~= pre.peers.insert(peer, post.peers[peer]));
        assert(post.peers[peer].pending_sends =~= seq![data]);
    }
}

// ---------------------------------------------------------------------------
// Events
// ---------------------------------------------------------------------------

/// When the channel in use of a peer is closed, the connection is closed and has no
/// channel; what is queued, sent and signaled is as it was. The closing of any other
/// channel changes nothing.
pub proof fn law_closed_channel_ends_connection<S, W>(
    pre: ManagerView<S, W>,
    peer: Seq<u8>,
    channel: ChannelId,
    post: ManagerView<S, W>,
)
    requires
        event_outcome(pre, peer, RtcEventView::ChannelClose(channel), post),
    ensures
        pre.peers.dom().contains(peer) && pre.peers[peer].channel == Some(channel) ==> {
            &&& post.peers.dom() == pre.peers.dom()
            &&& post.peers[peer].state == ConnectionState::Closed
            &&& post.peers[peer].channel is None
            &&& post.peers[peer] == (PeerView {
                state: post.peers[peer].state,
                channel: post.peers[peer].channel,
                ..pre.peers[peer]
            })
            &&& post == (ManagerView { peers: post.peers, ..pre })
        },
        !pre.peers.dom().contains(peer) || pre.peers[peer].channel != Some(channel) ==> post
            == pre,
{
    if pre.peers.dom().contains(peer) && pre.peers[peer].channel == Some(channel) {
        assert(post.peers.dom() =~= pre.peers.dom());
    }
}

/// Once the channel in use of a peer was closed, or the peer was lost, the next datagram
/// to it is not written to the old session: it waits for a new one, with an id of its own,
/// or a socket could not be bound.
pub proof fn law_send_after_loss_reconnects<S, W, E, F: Fn() -> Result<(S, SocketAddr), E>>(
    pre: ManagerView<S, W>,
    peer: Seq<u8>,
    event: RtcEventView,
    between: ManagerView<S, W>,
    data: Seq<u8>,
    waker: W,
    at: Instant,
    bind: F,
    post: ManagerView<S, W>,
    result: Result<(), ConnectErrorView<E>>,
)
    requires
        pre.peers.dom().contains(peer),
        event == RtcEventView::Ice(IceState::Disconnected) || (event matches
            RtcEventView::ChannelClose(channel) && pre.peers[peer].channel == Some(channel)),
        event_outcome(pre, peer, event, between),
        send_outcome(between, peer, data, waker, at, bind, post, result),
    ensures
        between.peers[peer].state == ConnectionState::Closed,
        result is Err,
        post.peers.dom().contains(peer) ==> {
            &&& result == Err::<(), _>(ConnectErrorView::<E>::Peer(PeerErrorView::WouldBlock))
            &&& post.peers[peer].state == ConnectionState::Connecting
            &&& post.peers[peer].session_id == pre.next_session_id
            &&& post.peers[peer].pending_sends == seq![data]
            &&& post.signaling.len() == pre.signaling.len() + 1
            &&& post.signaling.last().peer == peer
            &&& post.signaling.last().msg is Offer
        },
        !post.peers.dom().contains(peer) ==> result matches Err(ConnectErrorView::Bind(_)),
{
    law_send_starts_session(between, peer, data, waker, at, bind, post, result);
}

/// A peer that can no longer be reached is closed, and the sender that waits for it is
/// woken, once; no other ICE state changes anything.
pub proof fn law_lost_peer_is_closed<S, W>(
    pre: ManagerView<S, W>,
    peer: Seq<u8>,
    state: IceState,
    post: ManagerView<S, W>,
)
    requires
        event_outcome(pre, peer, RtcEventView::Ice(state), post),
    ensures
        state == IceState::Disconnected && pre.peers.dom().contains(peer) ==> {
            &&& post.peers.dom() == pre.peers.dom()
            &&& post.peers[peer].state == ConnectionState::Closed
            &&& post.peers[peer].waker is None
            &&& post.peers[peer] == (PeerView {
                state: post.peers[peer].state,
                waker: None,
                ..pre.peers[peer]
            })
            &&& match pre.peers[peer].waker {
                Some(waker) => post.woken == pre.woken.push(waker),
                None => post.woken == pre.woken,
            }
            &&& post == (ManagerView { peers: post.peers, woken: post.woken, ..pre })
        },
        state != IceState::Disconnected || !pre.peers.dom().contains(peer) ==> post == pre,
{
    if state == IceState::Disconnected && pre.peers.dom().contains(peer) {
        assert(post.peers.dom() =~= pre.peers.dom());
    }
}

/// Data that arrives is delivered as it is, with the peer that it came from, behind what
/// was delivered before; the connections are as they were.
pub proof fn law_data_is_delivered<S, W>(
    pre: ManagerView<S, W>,
    peer: Seq<u8>,
    data: Seq<u8>,
    post: ManagerView<S, W>,
)
    requires
        event_outcome(pre, peer, RtcEventView::ChannelData(data), post),
    ensures
        post.datagrams.len() == pre.datagrams.len() + 1,
        post.datagrams.drop_last() == pre.datagrams,
        post.datagrams.last() == (peer, data),
        post == (ManagerView { datagrams: post.datagrams, ..pre }),
{
    assert(post.datagrams.drop_last() =~= pre.datagrams);
}

/// When the channel of a peer opens, the connection is connected over it. What waited is
/// written to it, once and in order, and nothing waits any more; then the session is
/// flushed. The sender that waited is woken, once.
pub proof fn law_open_channel_connects<S, W>(
    pre: ManagerView<S, W>,
    peer: Seq<u8>,
    channel: ChannelId,
    label: Seq<char>,
    post: ManagerView<S, W>,
)
    requires
        event_outcome(pre, peer, RtcEventView::ChannelOpen(channel, label), post),
        pre.peers.dom().contains(peer),
    ensures
        post.peers.dom() == pre.peers.dom(),
        post.peers[peer].state == ConnectionState::Connected,
        post.peers[peer].channel == Some(channel),
        post.peers[peer].waker is None,
        post.peers[peer].pending_sends.len() == 0,
        post.peers[peer].session_id == pre.peers[peer].session_id,
        post.peers[peer].socket == pre.peers[peer].socket,
        post.peers[peer].pending_offer == pre.peers[peer].pending_offer,
        match pre.peers[peer].waker {
            Some(waker) => post.woken == pre.woken.push(waker),
            None => post.woken == pre.woken,
        },
        ({
            let before = pre.peers[peer].trace;
            let after = post.peers[peer].trace;
            let steps = after.skip(before.len() as int);
            let waited = pre.peers[peer].pending_sends;
            &&& before.len() + waited.len() < after.len()
            &&& after.take(before.len() as int) == before
            &&& forall|i: int|
                0 <= i < waited.len() ==> (#[trigger] steps[i]) is Written && steps[i]->channel
                    == channel && steps[i]->binary && steps[i]->Written_data == waited[i]
            &&& writes(after) == writes(before) + waited.map_values(
                |data: Seq<u8>| (channel, data),
            )
            &&& is_flush(steps.skip(waited.len() as int))
            &&& post.peers[peer].outbox == pre.peers[peer].outbox + transmits(steps)
            &&& post.peers[peer].deferred == pre.peers[peer].deferred + reports(steps)
        }),
        post == (ManagerView { peers: post.peers, woken: post.woken, ..pre }),
{
    let waited = pre.peers[peer].pending_sends;
    let before = pre.peers[peer].trace;
    let after = post.peers[peer].trace;
    let steps = choose|steps: Seq<Step>|
        #[trigger] is_opening(steps, channel, waited) && post == opened(pre, peer, channel, steps);
    let n = waited.len() as int;
    let first = steps.take(n);
    let rest = steps.skip(n);
    assert(post.peers.dom() =~= pre.peers.dom());
    assert(after.skip(before.len() as int) =~= steps);
    assert(after.take(before.len() as int) =~= before);
    assert(steps =~= first + rest);
    law_output_is_kept(steps);
    law_observations_add(before, steps);
    law_observations_add(first, rest);
    lemma_flush_writes_nothing(rest);
    assert forall|i: int| 0 <= i < n implies (#[trigger] steps[i]) is Written && steps[i]->channel
        == channel && steps[i]->binary && steps[i]->Written_data == waited[i] by {
        assert(first[i] == steps[i]);
        assert(first[i] is Written);
    }
    let split = choose|k: int| is_flush_split(rest, k);
    assert(rest.len() > 0);
    lemma_writes_of_queue(first, channel, waited);
    assert(writes(after) =~= writes(before) + waited.map_values(|data: Seq<u8>| (channel, data)));
}

proof fn lemma_writes_of_queue(steps: Seq<Step>, channel: ChannelId, waited: Seq<Seq<u8>>)
    requires
        steps.len() == waited.len(),
        forall|i: int|
            0 <= i < steps.len() ==> (#[trigger] steps[i]) is Written && steps[i]->channel
                == channel && steps[i]->Written_data == waited[i],
    ensures
        writes(steps) == waited.map_values(|data: Seq<u8>| (channel, data)),
    decreases steps.len(),
{
    let mapped = waited.map_values(|data: Seq<u8>| (channel, data));
    if steps.len() == 0 {
        assert(writes(steps) =~= mapped);
    } else {
        let fewer = steps.drop_last();
        assert forall|i: int| 0 <= i < fewer.len() implies (#[trigger] fewer[i]) is Written
            && fewer[i]->channel == channel && fewer[i]->Written_data
            == waited.drop_last()[i] by {
            assert(fewer[i] == steps[i]);
        }
        lemma_writes_of_queue(fewer, channel, waited.drop_last());
        let last = steps[steps.len() - 1];
        assert(last is Written);
        assert(written(last) == Some((channel, waited.last())));
        assert(mapped =~= waited.drop_last().map_values(|data: Seq<u8>| (channel, data)) + seq![
            (channel, waited.last()),
        ]);
    }
}

/// Events of a peer without a connection change nothing, but for data, which is
/// delivered; and so do events that mean nothing here.
pub proof fn law_stray_event_changes_nothing<S, W>(
    pre: ManagerView<S, W>,
    peer: Seq<u8>,
    event: RtcEventView,
    post: ManagerView<S, W>,
)
    requires
        event_outcome(pre, peer, event, post),
        !(event is ChannelData),
        !pre.peers.dom().contains(peer) || event is Other,
    ensures
        post == pre,
{
}

} // verus!
