//! What holds of peer connection management as a whole.

use std::time::Instant;

use str0m::channel::ChannelId;
use vstd::prelude::*;

use crate::addr::law_key_order_total;
use crate::net::{SocketAddr, SocketAddrView};
use crate::peer_connection::error::{ConnectErrorView, PeerErrorView};
use crate::peer_connection::model::{
    all_driven, all_events, answer_outcome, candidate_outcome, closed, collides,
    connected_send_outcome, dropped, event_outcome, events_handled, following_id, fresh_manager,
    has_offered, id_spent, initiated, is_opening, is_order, is_round, network_changed,
    offer_outcome, opened, poll_outcome, queued, torn_down, unconnected_send_outcome, waiting,
    yields, ManagerView, PacketView, PeerView,
};
use crate::peer_connection::native::PeerConnectionManager;
use crate::peer_connection::rtc::{RtcEventView, Step};
use crate::peer_connection::ConnectionState;

verus! {

/// The session id after `n` more sessions.
pub open spec fn nth_id(start: u64, n: nat) -> u64
    decreases n,
{
    if n == 0 {
        start
    } else {
        following_id(nth_id(start, (n - 1) as nat))
    }
}

/// Session ids count up from the first one, and start over at zero once all are
/// used up.
pub proof fn law_nth_session_id(start: u64, n: nat)
    ensures
        nth_id(start, n) == (start + n) % 0x1_0000_0000_0000_0000,
    decreases n,
{
    if n > 0 {
        law_nth_session_id(start, (n - 1) as nat);
    }
}

/// Session ids do not repeat, unless as many sessions are initiated in between as
/// there are ids.
pub proof fn law_session_ids_unique(start: u64, i: nat, j: nat)
    requires
        i < j,
        j - i <= u64::MAX,
    ensures
        nth_id(start, i) != nth_id(start, j),
{
    law_nth_session_id(start, i);
    law_nth_session_id(start, j);
}

/// A manager after `n` session ids were handed out.
pub open spec fn ids_spent<S, W>(m: ManagerView<S, W>, n: nat) -> ManagerView<S, W>
    decreases n,
{
    if n == 0 {
        m
    } else {
        id_spent(ids_spent(m, (n - 1) as nat))
    }
}

/// Handing out session ids moves the counter on, one by one, and changes nothing
/// else. A new manager starts at zero.
pub proof fn law_handing_out_ids<S, W>(m: ManagerView<S, W>, n: nat)
    ensures
        ids_spent(m, n) == (ManagerView { next_session_id: nth_id(m.next_session_id, n), ..m }),
        ids_spent(m, n).next_session_id == (m.next_session_id + n) % 0x1_0000_0000_0000_0000,
    decreases n,
{
    law_nth_session_id(m.next_session_id, n);
    if n > 0 {
        law_handing_out_ids(m, (n - 1) as nat);
    }
}

/// The session ids that `n` calls in a row hand out, first to last.
pub open spec fn handed_out<S, W>(m: ManagerView<S, W>, n: nat) -> Seq<u64> {
    Seq::new(n, |k: int| ids_spent(m, k as nat).next_session_id)
}

/// Session ids count up from the one that is due, and no id is handed out twice within
/// as many calls as there are ids.
pub proof fn law_handed_out_ids_differ<S, W>(m: ManagerView<S, W>, n: nat)
    ensures
        forall|k: int|
            0 <= k < n ==> #[trigger] handed_out(m, n)[k] == (m.next_session_id + k)
                % 0x1_0000_0000_0000_0000,
        n <= 0x1_0000_0000_0000_0000 ==> handed_out(m, n).no_duplicates(),
{
    let ids = handed_out(m, n);
    assert forall|k: int| 0 <= k < n implies #[trigger] ids[k] == (m.next_session_id + k)
        % 0x1_0000_0000_0000_0000 by {
        law_handing_out_ids(m, k as nat);
    }
    if n <= 0x1_0000_0000_0000_0000 {
        assert forall|i: int, j: int|
            0 <= i < n && 0 <= j < n && i != j implies ids[i] != ids[j] by {
            let (low, high) = if i < j {
                (i, j)
            } else {
                (j, i)
            };
            law_handing_out_ids(m, low as nat);
            law_handing_out_ids(m, high as nat);
            law_session_ids_unique(m.next_session_id, low as nat, high as nat);
        }
    }
}

/// A new manager hands out the session ids from zero on: the one that follows `k`
/// others is `k`, until all are used up. Nothing but the counter changes.
pub proof fn law_ids_of_new_manager<S, W>(my_id: Seq<u8>, n: nat)
    ensures
        forall|k: int|
            0 <= k < n ==> #[trigger] handed_out(fresh_manager::<S, W>(my_id), n)[k] == k
                % 0x1_0000_0000_0000_0000,
        n <= 0x1_0000_0000_0000_0000 ==> handed_out(
            fresh_manager::<S, W>(my_id),
            n,
        ).no_duplicates(),
        ids_spent(fresh_manager::<S, W>(my_id), n) == (ManagerView {
            next_session_id: (n % 0x1_0000_0000_0000_0000) as u64,
            ..fresh_manager::<S, W>(my_id)
        }),
{
    law_handed_out_ids_differ(fresh_manager::<S, W>(my_id), n);
    law_handing_out_ids(fresh_manager::<S, W>(my_id), n);
}

/// A connection that is initiated gets the id that is handed out next. Whatever comes
/// from a peer hands out none.
pub proof fn law_only_initiating_takes_ids<S, W, E>(
    pre: ManagerView<S, W>,
    peer: Seq<u8>,
    session_id: u64,
    text: Seq<char>,
    at: Instant,
    socket: S,
    addr: SocketAddrView,
    bound: Result<(S, SocketAddr), E>,
    event: RtcEventView,
    post: ManagerView<S, W>,
    offer_result: Result<(), ConnectErrorView<E>>,
    answer_result: Result<(), PeerErrorView>,
)
    ensures
        ({
            let after = initiated(pre, peer, at, socket, addr, text);
            &&& after.peers[peer].session_id == pre.next_session_id
            &&& after.next_session_id == id_spent(pre).next_session_id
        }),
        offer_outcome(pre, peer, session_id, text, at, bound, post, offer_result)
            ==> post.next_session_id == pre.next_session_id,
        answer_outcome(pre, peer, session_id, text, post, answer_result) ==> post.next_session_id
            == pre.next_session_id,
        candidate_outcome(pre, peer, session_id, text).0.next_session_id == pre.next_session_id,
        closed(pre, peer, session_id).next_session_id == pre.next_session_id,
        event_outcome(pre, peer, event, post) ==> post.next_session_id == pre.next_session_id,
{
}

/// When two peers offer to each other at once, exactly one of them yields.
pub proof fn law_glare_resolved(a: Seq<u8>, b: Seq<u8>)
    requires
        a.len() == b.len(),
        a != b,
    ensures
        yields(a, b) != yields(b, a),
{
    law_key_order_total(a, b);
}

/// A connection that is initiated after another was dropped runs in a new
/// session.
pub proof fn law_reconnect_uses_new_session<S, W>(
    m: ManagerView<S, W>,
    peer: Seq<u8>,
    at1: Instant,
    socket1: S,
    addr1: SocketAddrView,
    sdp1: Seq<char>,
    at2: Instant,
    socket2: S,
    addr2: SocketAddrView,
    sdp2: Seq<char>,
)
    ensures
        initiated(m, peer, at1, socket1, addr1, sdp1).peers[peer].session_id != initiated(
            dropped(initiated(m, peer, at1, socket1, addr1, sdp1), peer),
            peer,
            at2,
            socket2,
            addr2,
            sdp2,
        ).peers[peer].session_id,
{
}

/// A connected peer has its data channel, and nothing is queued for it: the queue
/// was written to the channel when it opened.
pub proof fn law_connected_has_channel<S, W>(manager: PeerConnectionManager<S, W>, peer: Seq<u8>)
    requires
        manager.wf(),
        manager@.peers.dom().contains(peer),
        manager@.peers[peer].state == ConnectionState::Connected,
    ensures
        manager@.peers[peer].channel is Some,
        manager@.peers[peer].pending_sends.len() == 0,
{
    manager.lemma_wf_peer(peer);
}

/// An offer that awaits its answer is one that the session of the peer made, so an
/// answer is never set against an offer of another session.
pub proof fn law_pending_offer_is_own<S, W>(
    manager: PeerConnectionManager<S, W>,
    peer: Seq<u8>,
    sdp: Seq<char>,
)
    requires
        manager.wf(),
        manager@.peers.dom().contains(peer),
        manager@.peers[peer].pending_offer == Some(sdp),
    ensures
        has_offered(manager@.peers[peer].trace, sdp),
{
    manager.lemma_wf_peer(peer);
}

/// A manager after some datagrams were queued for a peer, each with its sender.
pub open spec fn all_queued<S, W>(
    m: ManagerView<S, W>,
    peer: Seq<u8>,
    sends: Seq<(Seq<u8>, W)>,
) -> ManagerView<S, W>
    decreases sends.len(),
{
    if sends.len() == 0 {
        m
    } else {
        queued(all_queued(m, peer, sends.drop_last()), peer, sends.last().0, sends.last().1)
    }
}

/// Datagrams that are sent while a connection is being set up wait in the order in
/// which they were sent, behind those that waited already.
pub proof fn law_queue_keeps_order<S, W>(
    m: ManagerView<S, W>,
    peer: Seq<u8>,
    sends: Seq<(Seq<u8>, W)>,
)
    requires
        collides(m, peer),
    ensures
        collides(all_queued(m, peer, sends), peer),
        all_queued(m, peer, sends).peers[peer].pending_sends == m.peers[peer].pending_sends
            + sends.map_values(|send: (Seq<u8>, W)| send.0),
    decreases sends.len(),
{
    let datas = sends.map_values(|send: (Seq<u8>, W)| send.0);
    if sends.len() == 0 {
        assert(m.peers[peer].pending_sends + datas =~= m.peers[peer].pending_sends);
    } else {
        law_queue_keeps_order(m, peer, sends.drop_last());
        let before = sends.drop_last().map_values(|send: (Seq<u8>, W)| send.0);
        assert(m.peers[peer].pending_sends + datas =~= (m.peers[peer].pending_sends + before).push(
            sends.last().0,
        ));
    }
}

/// When the channel of a peer opens, each datagram that waited is written to it,
/// once and in the order in which they waited, before anything else is done with
/// the session, and the sender that waits is woken.
pub proof fn law_open_writes_queue<S, W>(
    pre: ManagerView<S, W>,
    peer: Seq<u8>,
    channel: ChannelId,
    label: Seq<char>,
    post: ManagerView<S, W>,
    i: int,
)
    requires
        event_outcome(pre, peer, RtcEventView::ChannelOpen(channel, label), post),
        pre.peers.dom().contains(peer),
        0 <= i < pre.peers[peer].pending_sends.len(),
    ensures
        ({
            let step = post.peers[peer].trace[pre.peers[peer].trace.len() + i];
            &&& step is Written
            &&& step->channel == channel
            &&& step->Written_data == pre.peers[peer].pending_sends[i]
        }),
        post.peers[peer].state == ConnectionState::Connected,
        post.peers[peer].channel == Some(channel),
        post.peers[peer].pending_sends.len() == 0,
        post.peers[peer].waker is None,
        pre.peers[peer].waker matches Some(waker) ==> post.woken == pre.woken.push(waker),
{
    let pending = pre.peers[peer].pending_sends;
    let steps = choose|steps: Seq<Step>|
        #[trigger] is_opening(steps, channel, pending) && post == opened(
            pre,
            peer,
            channel,
            steps,
        );
    let n = pending.len() as int;
    assert(steps.take(n)[i] == steps[i]);
    assert(post.peers[peer].trace[pre.peers[peer].trace.len() + i] == steps[i]);
}

/// The connections to peers other than one are as they were.
pub open spec fn others_kept<S, W>(
    pre: ManagerView<S, W>,
    post: ManagerView<S, W>,
    peer: Seq<u8>,
) -> bool {
    &&& post.my_id == pre.my_id
    &&& forall|other: Seq<u8>|
        #![trigger post.peers.dom().contains(other)]
        #![trigger pre.peers.dom().contains(other)]
        other != peer ==> {
            &&& post.peers.dom().contains(other) == pre.peers.dom().contains(other)
            &&& post.peers[other] == pre.peers[other]
        }
}

/// A signaling message from one peer leaves the connections to the others alone.
pub proof fn law_signaling_keeps_others<S, W, E>(
    pre: ManagerView<S, W>,
    peer: Seq<u8>,
    session_id: u64,
    text: Seq<char>,
    at: Instant,
    bound: Result<(S, SocketAddr), E>,
    post: ManagerView<S, W>,
    offer_result: Result<(), ConnectErrorView<E>>,
    answer_result: Result<(), PeerErrorView>,
)
    ensures
        offer_outcome(pre, peer, session_id, text, at, bound, post, offer_result) ==> others_kept(
            pre,
            post,
            peer,
        ),
        answer_outcome(pre, peer, session_id, text, post, answer_result) ==> others_kept(
            pre,
            post,
            peer,
        ),
        others_kept(pre, candidate_outcome(pre, peer, session_id, text).0, peer),
        others_kept(pre, closed(pre, peer, session_id), peer),
{
}

/// A send to one peer leaves the connections to the others alone.
pub proof fn law_send_keeps_others<S, W, E>(
    pre: ManagerView<S, W>,
    peer: Seq<u8>,
    data: Seq<u8>,
    waker: W,
    at: Instant,
    bound: Result<(S, SocketAddr), E>,
    post: ManagerView<S, W>,
    unconnected_result: Result<(), ConnectErrorView<E>>,
    connected_result: Result<(), PeerErrorView>,
)
    ensures
        unconnected_send_outcome(pre, peer, data, waker, at, bound, post, unconnected_result)
            ==> others_kept(pre, post, peer),
        connected_send_outcome(pre, peer, data, post, connected_result) ==> others_kept(
            pre,
            post,
            peer,
        ),
        others_kept(pre, queued(pre, peer, data, waker), peer),
{
}

/// An event of one peer's session leaves the connections to the others alone.
pub proof fn law_event_keeps_others<S, W>(
    pre: ManagerView<S, W>,
    peer: Seq<u8>,
    event: RtcEventView,
    post: ManagerView<S, W>,
)
    requires
        event_outcome(pre, peer, event, post),
    ensures
        others_kept(pre, post, peer),
{
}

/// An offer is answered at most once: whatever became of the first answer, a second
/// one finds nothing that awaits it.
pub proof fn law_offer_answered_once<S, W>(
    pre: ManagerView<S, W>,
    peer: Seq<u8>,
    session_id: u64,
    first: Seq<char>,
    between: ManagerView<S, W>,
    first_result: Result<(), PeerErrorView>,
    second: Seq<char>,
    post: ManagerView<S, W>,
    second_result: Result<(), PeerErrorView>,
)
    requires
        pre.peers.dom().contains(peer),
        pre.peers[peer].session_id == session_id,
        answer_outcome(pre, peer, session_id, first, between, first_result),
        answer_outcome(between, peer, session_id, second, post, second_result),
    ensures
        second_result == Err::<(), PeerErrorView>(PeerErrorView::NoPendingOffer),
        post == between,
{
}

/// After a major change of the network no connection is left, and every sender that
/// waited for one is woken. Those that were to be woken before still are.
pub proof fn law_network_change_wakes<S, W>(
    pre: ManagerView<S, W>,
    post: ManagerView<S, W>,
    peer: Seq<u8>,
)
    requires
        network_changed(pre, true, post),
    ensures
        post.peers == Map::<Seq<u8>, PeerView<S, W>>::empty(),
        pre.woken.is_prefix_of(post.woken),
        pre.peers.dom().contains(peer) ==> (pre.peers[peer].waker matches Some(waker)
            ==> post.woken.contains(waker)),
        forall|k: int|
            pre.woken.len() <= k < post.woken.len() ==> exists|waited: Seq<u8>| #[trigger]
                pre.peers.dom().contains(waited) && pre.peers[waited].waker == Some(
                    #[trigger] post.woken[k],
                ),
        post == (ManagerView { peers: post.peers, woken: post.woken, ..pre }),
{
    let order = choose|order: Seq<Seq<u8>>| #[trigger]
        is_order(pre, order) && post == torn_down(pre, order);
    assert forall|k: int| pre.woken.len() <= k < post.woken.len() implies exists|waited: Seq<u8>|
        #[trigger]
        pre.peers.dom().contains(waited) && pre.peers[waited].waker == Some(
            #[trigger] post.woken[k],
        ) by {
        let i = lemma_waiting_waits(pre, order, k - pre.woken.len());
        assert(order.contains(order[i]));
        assert(pre.peers.dom().contains(order[i]));
    }
    if pre.peers.dom().contains(peer) {
        assert(order.contains(peer));
        let i = choose|i: int| 0 <= i < order.len() && order[i] == peer;
        if let Some(waker) = pre.peers[peer].waker {
            lemma_waiting_holds(pre, order, i);
            let k = choose|k: int|
                0 <= k < waiting(pre, order).len() && waiting(pre, order)[k] == waker;
            assert(post.woken[pre.woken.len() + k] == waker);
        }
    }
}

proof fn lemma_waiting_holds<S, W>(m: ManagerView<S, W>, order: Seq<Seq<u8>>, i: int)
    requires
        0 <= i < order.len(),
        m.peers[order[i]].waker is Some,
    ensures
        waiting(m, order).contains(m.peers[order[i]].waker->0),
    decreases order.len(),
{
    let waker = m.peers[order[i]].waker->0;
    let earlier = waiting(m, order.drop_last());
    if i == order.len() - 1 {
        assert(waiting(m, order)[earlier.len() as int] == waker);
    } else {
        lemma_waiting_holds(m, order.drop_last(), i);
        let k = choose|k: int| 0 <= k < earlier.len() && earlier[k] == waker;
        assert(waiting(m, order)[k] == waker);
    }
}

proof fn lemma_waiting_waits<S, W>(m: ManagerView<S, W>, order: Seq<Seq<u8>>, k: int) -> (i: int)
    requires
        0 <= k < waiting(m, order).len(),
    ensures
        0 <= i < order.len(),
        m.peers[order[i]].waker == Some(waiting(m, order)[k]),
    decreases order.len(),
{
    let earlier = waiting(m, order.drop_last());
    if k < earlier.len() {
        let i = lemma_waiting_waits(m, order.drop_last(), k);
        i
    } else {
        order.len() - 1
    }
}

/// A close request that was handled once changes nothing when it comes again.
pub proof fn law_close_idempotent<S, W>(m: ManagerView<S, W>, peer: Seq<u8>, session_id: u64)
    ensures
        closed(closed(m, peer, session_id), peer, session_id) == closed(m, peer, session_id),
{
}

/// A close request for another session changes nothing.
pub proof fn law_stale_close_ignored<S, W>(m: ManagerView<S, W>, peer: Seq<u8>, session_id: u64)
    requires
        m.peers.dom().contains(peer),
        m.peers[peer].session_id != session_id,
    ensures
        closed(m, peer, session_id) == m,
{
}

/// The data that events bring is delivered once and in order, behind what was
/// delivered before.
pub proof fn law_events_keep_datagrams<S, W>(
    pre: ManagerView<S, W>,
    events: Seq<(Seq<u8>, RtcEventView)>,
    post: ManagerView<S, W>,
)
    requires
        events_handled(pre, events, post),
    ensures
        post.datagrams == pre.datagrams + delivered(events),
    decreases events.len(),
{
    if events.len() == 0 {
        assert(pre.datagrams + delivered(events) =~= pre.datagrams);
    } else {
        let between = choose|between: ManagerView<S, W>|
            events_handled(pre, events.drop_last(), between) && #[trigger] event_outcome(
                between,
                events.last().0,
                events.last().1,
                post,
            );
        law_events_keep_datagrams(pre, events.drop_last(), between);
        assert(post.datagrams =~= pre.datagrams + delivered(events));
    }
}

/// The datagrams that some events bring, each with the peer that it came from.
pub open spec fn delivered(events: Seq<(Seq<u8>, RtcEventView)>) -> Seq<(Seq<u8>, Seq<u8>)>
    decreases events.len(),
{
    if events.len() == 0 {
        Seq::empty()
    } else {
        match events.last().1 {
            RtcEventView::ChannelData(data) => delivered(events.drop_last()).push(
                (events.last().0, data),
            ),
            _ => delivered(events.drop_last()),
        }
    }
}

proof fn lemma_driving_keeps_identity<S, W>(
    m: ManagerView<S, W>,
    order: Seq<Seq<u8>>,
    log: Seq<Seq<Step>>,
)
    ensures
        all_driven(m, order, log).my_id == m.my_id,
        all_driven(m, order, log).next_session_id == m.next_session_id,
        all_driven(m, order, log).signaling == m.signaling,
    decreases order.len(),
{
    if order.len() > 0 {
        lemma_driving_keeps_identity(m, order.drop_last(), log.drop_last());
    }
}

proof fn lemma_events_keep_identity<S, W>(
    pre: ManagerView<S, W>,
    events: Seq<(Seq<u8>, RtcEventView)>,
    post: ManagerView<S, W>,
)
    requires
        events_handled(pre, events, post),
    ensures
        post.my_id == pre.my_id,
        post.next_session_id == pre.next_session_id,
        post.signaling == pre.signaling,
    decreases events.len(),
{
    if events.len() > 0 {
        let between = choose|between: ManagerView<S, W>|
            events_handled(pre, events.drop_last(), between) && #[trigger] event_outcome(
                between,
                events.last().0,
                events.last().1,
                post,
            );
        lemma_events_keep_identity(pre, events.drop_last(), between);
    }
}

/// A poll neither signals nor initiates: the identity, the session ids and the
/// signaling messages to be sent are as they were.
pub proof fn law_poll_keeps_identity<S, W>(
    pre: ManagerView<S, W>,
    at: Instant,
    packets: Seq<PacketView>,
    post: ManagerView<S, W>,
)
    requires
        poll_outcome(pre, at, packets, post),
    ensures
        post.my_id == pre.my_id,
        post.next_session_id == pre.next_session_id,
        post.signaling == pre.signaling,
{
    let (order, log) = choose|order: Seq<Seq<u8>>, log: Seq<Seq<Step>>|
        {
            &&& #[trigger] is_round(pre, order, log, at, packets)
            &&& events_handled(all_driven(pre, order, log), all_events(pre, order, log), post)
        };
    lemma_driving_keeps_identity(pre, order, log);
    lemma_events_keep_identity(
        all_driven(pre, order, log),
        all_events(pre, order, log),
        post,
    );
}

} // verus!
