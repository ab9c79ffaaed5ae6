//! The WebRTC transport: datagrams over data channels.
//!
//! The transport carries QUIC datagrams over unreliable, unordered data channels.
//! QUIC sees to reliability and order, so a data channel is a plain pipe for
//! datagrams. How signaling messages travel is up to the caller.

pub mod browser;
pub mod promises;
pub mod recv;
pub mod send;

use std::time::Instant;

use vstd::prelude::*;

use crate::addr::{
    derived_public_key, to_custom_addr, CustomAddr, EndpointId, SecretKey, WEBRTC_TRANSPORT_ID,
};
use crate::config::WebRtcConfig;
use crate::net::SocketAddr;
use crate::peer_connection::effects::law_candidate_reaches_session;
use crate::peer_connection::error::{
    connect_result, peer_result, ConnectError, ConnectErrorView, PeerError, PeerErrorView,
};
use crate::peer_connection::laws::law_network_change_wakes;
use crate::peer_connection::model::{
    answer_outcome, candidate_outcome, closed, envelope_views, network_changed, offer_handled,
    ManagerView, PeerView,
};
use crate::peer_connection::native::PeerConnectionManager;
use crate::peer_connection::rtc::Step;
use crate::signaling::{SignalingEnvelope, SignalingEnvelopeView, SignalingMsg, SignalingMsgView};

verus! {

/// Capacity of the channel that hands received datagrams to the endpoint.
pub const DATAGRAM_CHANNEL_CAP: usize = 512;

/// Capacity of the channel that hands control messages to the endpoint.
pub const CONTROL_CHANNEL_CAP: usize = 16;

// ---------------------------------------------------------------------------
// Binding
// ---------------------------------------------------------------------------

/// A message to a bound endpoint, outside of signaling.
#[derive(Debug, Clone, Copy, PartialEq, Eq, Structural)]
pub enum Control {
    /// The network changed. A major change is one of the local address or link, and
    /// tears active peers down; a minor one only hastens peers that wait for a
    /// retry.
    NetworkChange {
        /// Whether the local address or link changed.
        major: bool,
    },
}

/// The transport was bound before.
#[derive(Debug, Clone, Copy, PartialEq, Eq, Structural)]
pub struct AlreadyBound;

impl AlreadyBound {
    /// The error in words.
    pub fn message(&self) -> (text: String)
        ensures
            text@ == "WebRtcTransport already bound"@,
    {
        "WebRtcTransport already bound".to_owned()
    }
}

/// WebRTC transport factory. `C` are the ends of the signaling and control channels
/// that the endpoint takes over when it is bound.
pub struct WebRtcTransport<C> {
    secret_key: SecretKey,
    config: WebRtcConfig,
    channels: Option<C>,
}

impl<C> WebRtcTransport<C> {
    /// The identity of the endpoint.
    pub closed spec fn id(&self) -> Seq<u8> {
        derived_public_key(self.secret_key@)
    }

    /// The configuration.
    pub closed spec fn configured(&self) -> WebRtcConfig {
        self.config
    }

    /// The channel ends that no endpoint took over yet.
    pub closed spec fn unbound(&self) -> Option<C> {
        self.channels
    }

    /// Creates a transport factory with the channel ends that its endpoint will use.
    pub fn new(secret_key: SecretKey, config: WebRtcConfig, channels: C) -> (transport: Self)
        ensures
            transport.id() == derived_public_key(secret_key@),
            transport.configured() == config,
            transport.unbound() == Some(channels),
    {
        WebRtcTransport { secret_key, config, channels: Some(channels) }
    }

    /// The configuration.
    pub fn config(&self) -> (config: &WebRtcConfig)
        ensures
            *config == self.configured(),
    {
        &self.config
    }

    /// Creates an endpoint that uses channels of the caller's own.
    pub fn bind_with_signaling<S, W>(&self) -> (endpoint: WebRtcEndpoint<S, W>)
        ensures
            endpoint.wf(),
            endpoint.id() == self.id(),
            endpoint.manager@ == fresh_manager::<S, W>(self.id()),
    {
        let my_id = self.secret_key.public();
        WebRtcEndpoint { my_id, manager: PeerConnectionManager::new(my_id) }
    }

    /// Binds the transport: an endpoint takes the channel ends over. A second bind
    /// fails.
    pub fn bind<S, W>(&mut self) -> (bound: Result<(WebRtcEndpoint<S, W>, C), AlreadyBound>)
        ensures
            final(self).id() == old(self).id(),
            final(self).configured() == old(self).configured(),
            final(self).unbound() is None,
            match bound {
                Ok((endpoint, channels)) => {
                    &&& old(self).unbound() == Some(channels)
                    &&& endpoint.wf()
                    &&& endpoint.id() == old(self).id()
                    &&& endpoint.manager@ == fresh_manager::<S, W>(old(self).id())
                },
                Err(_) => old(self).unbound() is None,
            },
    {
        match self.channels.take() {
            Some(channels) => {
                let endpoint = self.bind_with_signaling();
                Ok((endpoint, channels))
            },
            None => Err(AlreadyBound),
        }
    }

    /// What to tell the bound endpoint of a change of the network. Before the
    /// transport is bound there is no endpoint to tell, and the change is ignored.
    pub fn on_network_change(&self, major: bool) -> (control: Option<Control>)
        ensures
            control == if self.unbound() is None {
                Some(Control::NetworkChange { major })
            } else {
                None
            },
    {
        if self.channels.is_none() {
            Some(Control::NetworkChange { major })
        } else {
            None
        }
    }
}

/// A manager without connections.
pub open spec fn fresh_manager<S, W>(id: Seq<u8>) -> ManagerView<S, W> {
    ManagerView {
        my_id: id,
        peers: Map::empty(),
        next_session_id: 0,
        signaling: Seq::empty(),
        datagrams: Seq::empty(),
        woken: Seq::empty(),
    }
}

// ---------------------------------------------------------------------------
// The endpoint
// ---------------------------------------------------------------------------

/// A bound endpoint.
pub struct WebRtcEndpoint<S, W> {
    /// The identity of the endpoint.
    pub my_id: EndpointId,
    /// The connections to peers.
    pub manager: PeerConnectionManager<S, W>,
}

/// What handling a signaling message does.
pub open spec fn signaling_handled<S, W, E, F: Fn() -> Result<(S, SocketAddr), E>>(
    pre: ManagerView<S, W>,
    envelope: SignalingEnvelopeView,
    at: Instant,
    bind: F,
    post: ManagerView<S, W>,
    result: Result<(), ConnectErrorView<E>>,
) -> bool {
    match envelope.msg {
        SignalingMsgView::Offer { session_id, sdp } => offer_handled(
            pre,
            envelope.peer,
            session_id,
            sdp,
            at,
            bind,
            post,
            result,
        ),
        SignalingMsgView::Answer { session_id, sdp } => exists|refused: Result<(), PeerErrorView>|
            {
                &&& #[trigger] answer_outcome(pre, envelope.peer, session_id, sdp, post, refused)
                &&& result == lifted::<E>(refused)
            },
        SignalingMsgView::IceCandidate { session_id, candidate, .. } => {
            let (after, refused) = candidate_outcome(pre, envelope.peer, session_id, candidate);
            post == after && result == lifted::<E>(refused)
        },
        SignalingMsgView::Close { session_id } => {
            post == closed(pre, envelope.peer, session_id) && result is Ok
        },
    }
}

/// What handling signaling messages one after the other does, and how each ended.
pub open spec fn signaling_processed<S, W, E, F: Fn() -> Result<(S, SocketAddr), E>>(
    pre: ManagerView<S, W>,
    envelopes: Seq<SignalingEnvelopeView>,
    at: Instant,
    bind: F,
    post: ManagerView<S, W>,
    results: Seq<Result<(), ConnectErrorView<E>>>,
) -> bool
    decreases envelopes.len(),
{
    if envelopes.len() == 0 {
        post == pre && results.len() == 0
    } else {
        exists|between: ManagerView<S, W>|
            {
                &&& results.len() == envelopes.len()
                &&& signaling_processed(
                    pre,
                    envelopes.drop_last(),
                    at,
                    bind,
                    between,
                    results.drop_last(),
                )
                &&& #[trigger] signaling_handled(
                    between,
                    envelopes.last(),
                    at,
                    bind,
                    post,
                    results.last(),
                )
            }
    }
}

/// What each result of a sequence says.
pub open spec fn result_views<E>(results: Seq<Result<(), ConnectError<E>>>) -> Seq<
    Result<(), ConnectErrorView<E>>,
> {
    results.map_values(|result: Result<(), ConnectError<E>>| connect_result(result))
}

/// What a control message does to a manager.
pub open spec fn control_outcome<S, W>(
    pre: ManagerView<S, W>,
    control: Control,
    post: ManagerView<S, W>,
) -> bool {
    match control {
        Control::NetworkChange { major } => network_changed(pre, major, post),
    }
}

/// Control messages were handled one after the other.
pub open spec fn controlled<S, W>(
    pre: ManagerView<S, W>,
    controls: Seq<Control>,
    post: ManagerView<S, W>,
) -> bool
    decreases controls.len(),
{
    if controls.len() == 0 {
        post == pre
    } else {
        exists|between: ManagerView<S, W>|
            {
                &&& controlled(pre, controls.drop_last(), between)
                &&& #[trigger] control_outcome(between, controls.last(), post)
            }
    }
}

/// A refusal of the manager, where binding a socket might have failed too.
pub open spec fn lifted<E>(result: Result<(), PeerErrorView>) -> Result<(), ConnectErrorView<E>> {
    match result {
        Ok(_) => Ok(()),
        Err(e) => Err(ConnectErrorView::Peer(e)),
    }
}

fn lift<E>(result: Result<(), PeerError>) -> (lifted_result: Result<(), ConnectError<E>>)
    ensures
        connect_result(lifted_result) == lifted::<E>(peer_result(result)),
{
    match result {
        Ok(_) => Ok(()),
        Err(e) => Err(ConnectError::Peer(e)),
    }
}

impl<S, W> WebRtcEndpoint<S, W> {
    /// The identity of the endpoint.
    pub open spec fn id(&self) -> Seq<u8> {
        self.my_id@
    }

    /// The endpoint is consistent.
    pub open spec fn wf(&self) -> bool {
        self.manager.wf() && self.manager@.my_id == self.my_id@
    }

    /// The addresses at which the endpoint can be reached: its own, by its key.
    pub fn local_addrs(&self) -> (addrs: Vec<CustomAddr>)
        ensures
            addrs.len() == 1,
            addrs[0].id == WEBRTC_TRANSPORT_ID,
            addrs[0].data@ == self.id(),
    {
        let mut addrs: Vec<CustomAddr> = Vec::new();
        addrs.push(to_custom_addr(self.my_id));
        addrs
    }

    /// Handles a signaling message.
    pub fn handle_signaling<E, F: Fn() -> Result<(S, SocketAddr), E>>(
        &mut self,
        envelope: &SignalingEnvelope,
        now: Instant,
        bind: &F,
    ) -> (result: Result<(), ConnectError<E>>)
        requires
            old(self).wf(),
            bind.requires(()),
        ensures
            final(self).wf(),
            final(self).id() == old(self).id(),
            signaling_handled(
                old(self).manager@,
                envelope@,
                now,
                *bind,
                final(self).manager@,
                connect_result(result),
            ),
    {
        let peer = envelope.peer;
        match &envelope.msg {
            SignalingMsg::Offer { session_id, sdp } => self.manager.handle_offer(
                peer,
                *session_id,
                sdp.as_str(),
                now,
                bind,
            ),
            SignalingMsg::Answer { session_id, sdp } => {
                let result = self.manager.handle_answer(peer, *session_id, sdp.as_str());
                proof {
                    let msg = envelope@.msg;
                    assert(answer_outcome(
                        old(self).manager@,
                        envelope@.peer,
                        msg->Answer_session_id,
                        msg->Answer_sdp,
                        self.manager@,
                        peer_result(result),
                    ));
                }
                lift(result)
            },
            SignalingMsg::IceCandidate { session_id, candidate, sdp_mid } => {
                let mid = match sdp_mid {
                    Some(mid) => Some(mid.as_str()),
                    None => None,
                };
                let result = self.manager.handle_ice_candidate(
                    peer,
                    *session_id,
                    candidate.as_str(),
                    mid,
                );
                lift(result)
            },
            SignalingMsg::Close { session_id } => {
                self.manager.handle_close(peer, *session_id);
                Ok(())
            },
        }
    }

    /// Handles the signaling messages that came in, first to last. The results are in
    /// the same order; a message that is refused does not stop the others.
    pub fn process_signaling<E, F: Fn() -> Result<(S, SocketAddr), E>>(
        &mut self,
        envelopes: &Vec<SignalingEnvelope>,
        now: Instant,
        bind: &F,
    ) -> (results: Vec<Result<(), ConnectError<E>>>)
        requires
            old(self).wf(),
            bind.requires(()),
        ensures
            final(self).wf(),
            final(self).id() == old(self).id(),
            signaling_processed(
                old(self).manager@,
                envelope_views(envelopes@),
                now,
                *bind,
                final(self).manager@,
                result_views(results@),
            ),
    {
        let ghost views = envelope_views(envelopes@);
        let mut results: Vec<Result<(), ConnectError<E>>> = Vec::new();
        let mut i: usize = 0;
        proof {
            assert(views.take(0) =~= Seq::empty());
            assert(result_views(results@) =~= Seq::empty());
        }
        while i < envelopes.len()
            invariant
                i <= envelopes.len(),
                results.len() == i,
                views == envelope_views(envelopes@),
                self.wf(),
                self.id() == old(self).id(),
                bind.requires(()),
                signaling_processed(
                    old(self).manager@,
                    views.take(i as int),
                    now,
                    *bind,
                    self.manager@,
                    result_views(results@),
                ),
            decreases envelopes.len() - i,
        {
            let ghost between = self.manager@;
            let ghost before = results@;
            let result = self.handle_signaling(&envelopes[i], now, bind);
            let ghost said = connect_result(result);
            results.push(result);
            proof {
                let next = views.take(i as int + 1);
                assert(next.drop_last() =~= views.take(i as int));
                assert(next.last() == envelopes[i as int]@);
                assert(result_views(results@) =~= result_views(before).push(said));
                assert(result_views(results@).drop_last() =~= result_views(before));
                assert(signaling_handled(
                    between,
                    next.last(),
                    now,
                    *bind,
                    self.manager@,
                    result_views(results@).last(),
                ));
            }
            i = i + 1;
        }
        assert(views.take(i as int) =~= views);
        results
    }

    /// Handles what came in since the last poll: first the signaling messages, then the
    /// control messages. The connections are driven after that.
    pub fn process_inbound<E, F: Fn() -> Result<(S, SocketAddr), E>>(
        &mut self,
        envelopes: &Vec<SignalingEnvelope>,
        controls: &Vec<Control>,
        now: Instant,
        bind: &F,
    ) -> (results: Vec<Result<(), ConnectError<E>>>)
        requires
            old(self).wf(),
            bind.requires(()),
        ensures
            final(self).wf(),
            final(self).id() == old(self).id(),
            exists|signaled: ManagerView<S, W>|
                {
                    &&& #[trigger] signaling_processed(
                        old(self).manager@,
                        envelope_views(envelopes@),
                        now,
                        *bind,
                        signaled,
                        result_views(results@),
                    )
                    &&& controlled(signaled, controls@, final(self).manager@)
                },
    {
        let results = self.process_signaling(envelopes, now, bind);
        let ghost signaled = self.manager@;
        let mut i: usize = 0;
        assert(controls@.take(0) =~= Seq::empty());
        while i < controls.len()
            invariant
                i <= controls.len(),
                self.wf(),
                self.id() == old(self).id(),
                controlled(signaled, controls@.take(i as int), self.manager@),
            decreases controls.len() - i,
        {
            let ghost between = self.manager@;
            self.process_control(controls[i]);
            proof {
                let next = controls@.take(i as int + 1);
                assert(next.drop_last() =~= controls@.take(i as int));
                assert(controlled(signaled, next.drop_last(), between));
                assert(control_outcome(between, next.last(), self.manager@));
            }
            i = i + 1;
        }
        assert(controls@.take(i as int) =~= controls@);
        results
    }

    /// Handles a control message.
    pub fn process_control(&mut self, control: Control)
        requires
            old(self).wf(),
        ensures
            final(self).wf(),
            final(self).id() == old(self).id(),
            control_outcome(old(self).manager@, control, final(self).manager@),
    {
        match control {
            Control::NetworkChange { major } => {
                self.manager.on_network_change(major);
            },
        }
    }
}

/// Each signaling message is handled as what it is, for the peer that sent it and with the
/// session that it names, and the sender of a refused one is told why.
pub proof fn law_signaling_is_dispatched<S, W, E, F: Fn() -> Result<(S, SocketAddr), E>>(
    pre: ManagerView<S, W>,
    peer: Seq<u8>,
    session_id: u64,
    text: Seq<char>,
    sdp_mid: Option<Seq<char>>,
    at: Instant,
    bind: F,
    post: ManagerView<S, W>,
    result: Result<(), ConnectErrorView<E>>,
)
    ensures
        signaling_handled(
            pre,
            SignalingEnvelopeView { peer, msg: SignalingMsgView::Offer { session_id, sdp: text } },
            at,
            bind,
            post,
            result,
        ) ==> offer_handled(pre, peer, session_id, text, at, bind, post, result),
        signaling_handled(
            pre,
            SignalingEnvelopeView { peer, msg: SignalingMsgView::Answer { session_id, sdp: text } },
            at,
            bind,
            post,
            result,
        ) ==> match result {
            Ok(_) => answer_outcome(pre, peer, session_id, text, post, Ok(())),
            Err(ConnectErrorView::Peer(why)) => answer_outcome(
                pre,
                peer,
                session_id,
                text,
                post,
                Err(why),
            ),
            Err(ConnectErrorView::Bind(_)) => false,
        },
        signaling_handled(
            pre,
            SignalingEnvelopeView {
                peer,
                msg: SignalingMsgView::IceCandidate { session_id, candidate: text, sdp_mid },
            },
            at,
            bind,
            post,
            result,
        ) ==> {
            &&& post == candidate_outcome(pre, peer, session_id, text).0
            &&& match result {
                Ok(_) => candidate_outcome(pre, peer, session_id, text).1 is Ok,
                Err(ConnectErrorView::Peer(why)) => candidate_outcome(
                    pre,
                    peer,
                    session_id,
                    text,
                ).1 == Err::<(), _>(why),
                Err(ConnectErrorView::Bind(_)) => false,
            }
        },
        signaling_handled(
            pre,
            SignalingEnvelopeView { peer, msg: SignalingMsgView::Close { session_id } },
            at,
            bind,
            post,
            result,
        ) ==> post == closed(pre, peer, session_id) && result is Ok,
{
}

/// A candidate that is signaled and not refused is found in the calls made on the session
/// that it names, behind all others.
pub proof fn law_signaled_candidate_reaches_session<S, W, E, F: Fn() -> Result<
    (S, SocketAddr),
    E,
>>(
    pre: ManagerView<S, W>,
    peer: Seq<u8>,
    session_id: u64,
    candidate: Seq<char>,
    sdp_mid: Option<Seq<char>>,
    at: Instant,
    bind: F,
    post: ManagerView<S, W>,
    result: Result<(), ConnectErrorView<E>>,
)
    requires
        signaling_handled(
            pre,
            SignalingEnvelopeView {
                peer,
                msg: SignalingMsgView::IceCandidate { session_id, candidate, sdp_mid },
            },
            at,
            bind,
            post,
            result,
        ),
    ensures
        result is Ok ==> {
            &&& post.peers.dom().contains(peer)
            &&& post.peers[peer].session_id == session_id
            &&& post.peers[peer].trace == pre.peers[peer].trace.push(
                Step::RemoteCandidate { text: candidate },
            )
        },
        result is Err ==> post == pre,
{
    law_candidate_reaches_session(pre, peer, session_id, candidate);
    if result is Ok {
        let trace = post.peers[peer].trace;
        assert(trace =~= trace.drop_last().push(trace.last()));
    }
}

/// Signaling messages are handled one after the other, all of them, whatever became of
/// those before: handling some and then others is handling them all.
pub proof fn law_signaling_in_order<S, W, E, F: Fn() -> Result<(S, SocketAddr), E>>(
    pre: ManagerView<S, W>,
    first: Seq<SignalingEnvelopeView>,
    second: Seq<SignalingEnvelopeView>,
    at: Instant,
    bind: F,
    post: ManagerView<S, W>,
    results: Seq<Result<(), ConnectErrorView<E>>>,
)
    requires
        signaling_processed(pre, first + second, at, bind, post, results),
    ensures
        results.len() == first.len() + second.len(),
        exists|between: ManagerView<S, W>|
            {
                &&& #[trigger] signaling_processed(
                    pre,
                    first,
                    at,
                    bind,
                    between,
                    results.take(first.len() as int),
                )
                &&& signaling_processed(
                    between,
                    second,
                    at,
                    bind,
                    post,
                    results.skip(first.len() as int),
                )
            },
    decreases second.len(),
{
    let n = first.len() as int;
    if second.len() == 0 {
        assert(first + second =~= first);
        lemma_result_for_each(pre, first, at, bind, post, results);
        assert(results.take(n) =~= results);
        assert(results.skip(n) =~= Seq::empty());
        assert(signaling_processed(pre, first, at, bind, post, results.take(n)));
        assert(signaling_processed(post, second, at, bind, post, results.skip(n)));
    } else {
        let all = first + second;
        assert(all.drop_last() =~= first + second.drop_last());
        let last = choose|last: ManagerView<S, W>|
            {
                &&& results.len() == all.len()
                &&& signaling_processed(
                    pre,
                    all.drop_last(),
                    at,
                    bind,
                    last,
                    results.drop_last(),
                )
                &&& #[trigger] signaling_handled(
                    last,
                    all.last(),
                    at,
                    bind,
                    post,
                    results.last(),
                )
            };
        law_signaling_in_order(pre, first, second.drop_last(), at, bind, last, results.drop_last());
        let between = choose|between: ManagerView<S, W>|
            {
                &&& #[trigger] signaling_processed(
                    pre,
                    first,
                    at,
                    bind,
                    between,
                    results.drop_last().take(n),
                )
                &&& signaling_processed(
                    between,
                    second.drop_last(),
                    at,
                    bind,
                    last,
                    results.drop_last().skip(n),
                )
            };
        assert(results.drop_last().take(n) =~= results.take(n));
        assert(results.drop_last().skip(n) =~= results.skip(n).drop_last());
        assert(results.skip(n).last() == results.last());
        assert(second.last() == all.last());
        assert(signaling_handled(last, second.last(), at, bind, post, results.skip(n).last()));
        assert(signaling_processed(between, second, at, bind, post, results.skip(n)));
    }
}

proof fn lemma_result_for_each<S, W, E, F: Fn() -> Result<(S, SocketAddr), E>>(
    pre: ManagerView<S, W>,
    envelopes: Seq<SignalingEnvelopeView>,
    at: Instant,
    bind: F,
    post: ManagerView<S, W>,
    results: Seq<Result<(), ConnectErrorView<E>>>,
)
    requires
        signaling_processed(pre, envelopes, at, bind, post, results),
    ensures
        results.len() == envelopes.len(),
{
}

/// A single signaling message is handled once, and has one result.
pub proof fn law_signaling_of_one<S, W, E, F: Fn() -> Result<(S, SocketAddr), E>>(
    pre: ManagerView<S, W>,
    envelope: SignalingEnvelopeView,
    at: Instant,
    bind: F,
    post: ManagerView<S, W>,
    results: Seq<Result<(), ConnectErrorView<E>>>,
)
    requires
        signaling_processed(pre, seq![envelope], at, bind, post, results),
    ensures
        results.len() == 1,
        signaling_handled(pre, envelope, at, bind, post, results[0]),
{
    let all = seq![envelope];
    assert(all.drop_last() =~= Seq::empty());
    let between = choose|between: ManagerView<S, W>|
        {
            &&& results.len() == all.len()
            &&& signaling_processed(pre, all.drop_last(), at, bind, between, results.drop_last())
            &&& #[trigger] signaling_handled(
                between,
                all.last(),
                at,
                bind,
                post,
                results.last(),
            )
        };
    assert(between == pre);
}

/// If any of the control messages tells of a major change of the network, no connection
/// from before it is left; if none does, nothing changes.
pub proof fn law_controls_tear_down<S, W>(
    pre: ManagerView<S, W>,
    controls: Seq<Control>,
    post: ManagerView<S, W>,
)
    requires
        controlled(pre, controls, post),
    ensures
        controls.contains(Control::NetworkChange { major: true }) ==> post.peers == Map::<
            Seq<u8>,
            PeerView<S, W>,
        >::empty(),
        !controls.contains(Control::NetworkChange { major: true }) ==> post == pre,
        post.my_id == pre.my_id,
        post.next_session_id == pre.next_session_id,
        post.signaling == pre.signaling,
        post.datagrams == pre.datagrams,
    decreases controls.len(),
{
    if controls.len() > 0 {
        let fewer = controls.drop_last();
        let last = controls[controls.len() - 1];
        let between = choose|between: ManagerView<S, W>|
            {
                &&& controlled(pre, fewer, between)
                &&& #[trigger] control_outcome(between, controls.last(), post)
            };
        law_controls_tear_down(pre, fewer, between);
        let major = Control::NetworkChange { major: true };
        if last == major {
            assert(controls.contains(major));
            law_network_change_wakes(between, post, Seq::empty());
        } else {
            if fewer.contains(major) {
                let i = choose|i: int| 0 <= i < fewer.len() && fewer[i] == major;
                assert(controls[i] == major);
            }
            if controls.contains(major) {
                let i = choose|i: int| 0 <= i < controls.len() && controls[i] == major;
                assert(fewer[i] == major);
            }
        }
    }
}

} // verus!
