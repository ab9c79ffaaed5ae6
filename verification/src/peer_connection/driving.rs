//! What a poll of the native manager brings about.

use std::time::Instant;

use vstd::prelude::*;

use crate::peer_connection::effects::{
    law_observations_add, law_open_channel_connects, law_output_is_kept, reports, transmits,
};
use crate::peer_connection::laws::{delivered, law_events_keep_datagrams};
use crate::peer_connection::model::{
    all_driven, all_events, driven, event_outcome, events_after, events_handled, is_round,
    packets_for, poll_outcome, tagged, ManagerView, PacketView, PeerView,
};
use crate::peer_connection::rtc::{RtcEventView, Step};

verus! {

/// The data that an event brings.
pub open spec fn brought(event: RtcEventView) -> Option<Seq<u8>> {
    match event {
        RtcEventView::ChannelData(data) => Some(data),
        _ => None,
    }
}

/// The data that events bring, first to last.
pub open spec fn data_of(events: Seq<RtcEventView>) -> Seq<Seq<u8>> {
    events.filter_map(|event: RtcEventView| brought(event))
}

/// A connection went on from where it was: its session, socket and the steps taken so far
/// are kept, what the session wanted sent since went to the outbox, and what it reported
/// since waits to be handled.
pub open spec fn went_on<S, W>(before: PeerView<S, W>, after: PeerView<S, W>) -> bool {
    let n = before.trace.len() as int;
    &&& n <= after.trace.len()
    &&& after.trace.take(n) == before.trace
    &&& after.outbox == before.outbox + transmits(after.trace.skip(n))
    &&& after.deferred == before.deferred + reports(after.trace.skip(n))
    &&& after.session_id == before.session_id
    &&& after.socket == before.socket
}

proof fn lemma_went_on_still<S, W>(before: PeerView<S, W>, after: PeerView<S, W>)
    requires
        after.trace == before.trace,
        after.outbox == before.outbox,
        after.deferred == before.deferred,
        after.session_id == before.session_id,
        after.socket == before.socket,
    ensures
        went_on(before, after),
{
    let n = before.trace.len() as int;
    let none = after.trace.skip(n);
    assert(none =~= Seq::empty());
    assert(after.trace.take(n) =~= before.trace);
    assert(transmits(none) =~= Seq::empty());
    assert(reports(none) =~= Seq::empty());
    assert(before.outbox + transmits(none) =~= before.outbox);
    assert(before.deferred + reports(none) =~= before.deferred);
}

proof fn lemma_went_on_twice<S, W>(a: PeerView<S, W>, b: PeerView<S, W>, c: PeerView<S, W>)
    requires
        went_on(a, b),
        went_on(b, c),
    ensures
        went_on(a, c),
{
    let n = a.trace.len() as int;
    let k = b.trace.len() as int;
    let first = b.trace.skip(n);
    let second = c.trace.skip(k);
    assert(c.trace.take(n) =~= c.trace.take(k).take(n));
    assert(b.trace.take(n) =~= a.trace);
    assert(c.trace.skip(n) =~= first + second) by {
        assert(c.trace =~= c.trace.take(k) + second);
    }
    law_observations_add(first, second);
    assert(c.outbox =~= a.outbox + transmits(c.trace.skip(n)));
    assert(c.deferred =~= a.deferred + reports(c.trace.skip(n)));
}

proof fn lemma_event_goes_on<S, W>(
    pre: ManagerView<S, W>,
    peer: Seq<u8>,
    event: RtcEventView,
    post: ManagerView<S, W>,
    p: Seq<u8>,
)
    requires
        event_outcome(pre, peer, event, post),
    ensures
        post.peers.dom() == pre.peers.dom(),
        pre.peers.dom().contains(p) ==> went_on(pre.peers[p], post.peers[p]),
{
    assert(post.peers.dom() =~= pre.peers.dom());
    if pre.peers.dom().contains(p) {
        if p == peer && event is ChannelOpen {
            law_open_channel_connects(
                pre,
                peer,
                event->ChannelOpen_0,
                event->ChannelOpen_1,
                post,
            );
        } else {
            lemma_went_on_still(pre.peers[p], post.peers[p]);
        }
    }
}

proof fn lemma_events_go_on<S, W>(
    pre: ManagerView<S, W>,
    events: Seq<(Seq<u8>, RtcEventView)>,
    post: ManagerView<S, W>,
    p: Seq<u8>,
)
    requires
        events_handled(pre, events, post),
    ensures
        post.peers.dom() == pre.peers.dom(),
        pre.peers.dom().contains(p) ==> went_on(pre.peers[p], post.peers[p]),
    decreases events.len(),
{
    if events.len() == 0 {
        if pre.peers.dom().contains(p) {
            lemma_went_on_still(pre.peers[p], post.peers[p]);
        }
    } else {
        let between = choose|between: ManagerView<S, W>|
            events_handled(pre, events.drop_last(), between) && #[trigger] event_outcome(
                between,
                events.last().0,
                events.last().1,
                post,
            );
        lemma_events_go_on(pre, events.drop_last(), between, p);
        lemma_event_goes_on(between, events.last().0, events.last().1, post, p);
        if pre.peers.dom().contains(p) {
            lemma_went_on_twice(pre.peers[p], between.peers[p], post.peers[p]);
        }
    }
}

proof fn lemma_driven_once<S, W>(
    m: ManagerView<S, W>,
    order: Seq<Seq<u8>>,
    log: Seq<Seq<Step>>,
    i: int,
)
    requires
        order.no_duplicates(),
        log.len() == order.len(),
        forall|k: int| 0 <= k < order.len() ==> m.peers.dom().contains(#[trigger] order[k]),
        0 <= i < order.len(),
    ensures
        all_driven(m, order, log).peers.dom() == m.peers.dom(),
        all_driven(m, order, log).peers[order[i]] == driven(m.peers[order[i]], log[i]),
        all_driven(m, order, log).datagrams == m.datagrams,
    decreases order.len(),
{
    lemma_driving_keeps(m, order, log);
    if i < order.len() - 1 {
        let fewer = order.drop_last();
        assert forall|k: int| 0 <= k < fewer.len() implies m.peers.dom().contains(
            #[trigger] fewer[k],
        ) by {
            assert(fewer[k] == order[k]);
        }
        assert(fewer.no_duplicates());
        lemma_driven_once(m, fewer, log.drop_last(), i);
        assert(fewer[i] == order[i]);
        assert(order[i] != order[order.len() - 1]);
    }
}

proof fn lemma_driving_keeps<S, W>(m: ManagerView<S, W>, order: Seq<Seq<u8>>, log: Seq<Seq<Step>>)
    requires
        forall|k: int| 0 <= k < order.len() ==> m.peers.dom().contains(#[trigger] order[k]),
    ensures
        all_driven(m, order, log).peers.dom() == m.peers.dom(),
        all_driven(m, order, log).datagrams == m.datagrams,
    decreases order.len(),
{
    if order.len() > 0 {
        let fewer = order.drop_last();
        assert forall|k: int| 0 <= k < fewer.len() implies m.peers.dom().contains(
            #[trigger] fewer[k],
        ) by {
            assert(fewer[k] == order[k]);
        }
        lemma_driving_keeps(m, fewer, log.drop_last());
        assert(m.peers.dom().contains(order[order.len() - 1]));
        assert(all_driven(m, order, log).peers.dom() =~= m.peers.dom());
    }
}

proof fn lemma_packets_filtered(packets: Seq<PacketView>, peer: Seq<u8>)
    ensures
        packets_for(packets, peer) == packets.filter(|packet: PacketView| packet.peer == peer),
    decreases packets.len(),
{
    reveal(Seq::filter);
    if packets.len() > 0 {
        lemma_packets_filtered(packets.drop_last(), peer);
    } else {
        assert(packets_for(packets, peer) =~= packets);
    }
}

proof fn lemma_round<S, W>(
    pre: ManagerView<S, W>,
    at: Instant,
    packets: Seq<PacketView>,
    post: ManagerView<S, W>,
    peer: Seq<u8>,
) -> (found: (Seq<Seq<u8>>, Seq<Seq<Step>>, int))
    requires
        poll_outcome(pre, at, packets, post),
        pre.peers.dom().contains(peer),
    ensures
        is_round(pre, found.0, found.1, at, packets),
        events_handled(
            all_driven(pre, found.0, found.1),
            all_events(pre, found.0, found.1),
            post,
        ),
        0 <= found.2 < found.0.len(),
        found.0[found.2] == peer,
        all_driven(pre, found.0, found.1).datagrams == pre.datagrams,
        all_driven(pre, found.0, found.1).peers.dom() == pre.peers.dom(),
        all_driven(pre, found.0, found.1).peers[peer] == driven(
            pre.peers[peer],
            found.1[found.2],
        ),
        forall|k: int| 0 <= k < found.0.len() ==> pre.peers.dom().contains(#[trigger] found.0[k]),
{
    let (order, log) = choose|order: Seq<Seq<u8>>, log: Seq<Seq<Step>>|
        {
            &&& #[trigger] is_round(pre, order, log, at, packets)
            &&& events_handled(all_driven(pre, order, log), all_events(pre, order, log), post)
        };
    assert(order.contains(peer));
    let i = choose|i: int| 0 <= i < order.len() && order[i] == peer;
    assert forall|k: int| 0 <= k < order.len() implies pre.peers.dom().contains(
        #[trigger] order[k],
    ) by {
        assert(order.contains(order[k]));
    }
    lemma_driven_once(pre, order, log, i);
    (order, log, i)
}

/// A poll hands every session the packets that arrived on the socket of its peer, each
/// once and in the order of arrival, and no others; then it tells the session the time,
/// and asks it for output until it has none ready. It neither adds nor drops a connection.
pub proof fn law_poll_feeds_every_session<S, W>(
    pre: ManagerView<S, W>,
    at: Instant,
    packets: Seq<PacketView>,
    post: ManagerView<S, W>,
    peer: Seq<u8>,
)
    requires
        poll_outcome(pre, at, packets, post),
        pre.peers.dom().contains(peer),
    ensures
        post.peers.dom() == pre.peers.dom(),
        post.peers[peer].session_id == pre.peers[peer].session_id,
        post.peers[peer].socket == pre.peers[peer].socket,
        ({
            let before = pre.peers[peer].trace;
            let after = post.peers[peer].trace;
            let steps = after.skip(before.len() as int);
            let own = packets.filter(|packet: PacketView| packet.peer == peer);
            &&& before.len() + own.len() + 1 < after.len()
            &&& after.take(before.len() as int) == before
            &&& forall|i: int|
                0 <= i < own.len() ==> {
                    &&& #[trigger] steps[i] is Received
                    &&& steps[i]->Received_at == at
                    &&& steps[i]->source == own[i].source
                    &&& steps[i]->local == own[i].local
                    &&& steps[i]->Received_data == own[i].data
                }
            &&& steps[own.len() as int] is TimedOut
            &&& steps[own.len() as int]->TimedOut_at == at
            &&& steps[own.len() as int + 1] is Polled
            &&& post.peers[peer].outbox == pre.peers[peer].outbox + transmits(steps)
        }),
{
    let (order, log, i) = lemma_round(pre, at, packets, post, peer);
    let start = all_driven(pre, order, log);
    let drive = log[i];
    let before = pre.peers[peer].trace;
    let after = post.peers[peer].trace;
    let own = packets.filter(|packet: PacketView| packet.peer == peer);
    lemma_packets_filtered(packets, peer);
    lemma_events_go_on(start, all_events(pre, order, log), post, peer);
    let n = own.len() as int;
    let middle = start.peers[peer].trace;
    let steps = after.skip(before.len() as int);
    assert(middle == before + drive);
    assert(after.take(middle.len() as int) == middle);
    let later = after.skip(middle.len() as int);
    assert(after =~= middle + later);
    assert(steps =~= drive + later);
    assert(after.take(before.len() as int) =~= before);
    law_observations_add(drive, later);
    law_output_is_kept(drive);
    assert forall|k: int| 0 <= k < n implies {
        &&& #[trigger] steps[k] is Received
        &&& steps[k]->Received_at == at
        &&& steps[k]->source == own[k].source
        &&& steps[k]->local == own[k].local
        &&& steps[k]->Received_data == own[k].data
    } by {
        assert(drive.take(n)[k] == steps[k]);
        assert(drive.take(n)[k] is Received);
    }
    assert(steps[n] == drive[n]);
    let drained = drive.skip(n + 1);
    assert(drained[0] is Polled);
    assert(steps[n + 1] == drained[0]);
    assert(post.peers[peer].outbox =~= pre.peers[peer].outbox + transmits(steps));
}

proof fn lemma_delivered_add(
    a: Seq<(Seq<u8>, RtcEventView)>,
    b: Seq<(Seq<u8>, RtcEventView)>,
)
    ensures
        delivered(a + b) == delivered(a) + delivered(b),
    decreases b.len(),
{
    if b.len() == 0 {
        assert(a + b =~= a);
        assert(delivered(a) + delivered(b) =~= delivered(a));
    } else {
        assert((a + b).drop_last() =~= a + b.drop_last());
        lemma_delivered_add(a, b.drop_last());
        assert(delivered(a + b) =~= delivered(a) + delivered(b));
    }
}

proof fn lemma_delivered_tagged(
    from: Seq<u8>,
    events: Seq<RtcEventView>,
    peer: Seq<u8>,
)
    ensures
        delivered(tagged(from, events)).filter(
            |datagram: (Seq<u8>, Seq<u8>)| datagram.0 == peer,
        ) == if from == peer {
            data_of(events).map_values(|data: Seq<u8>| (peer, data))
        } else {
            Seq::empty()
        },
    decreases events.len(),
{
    reveal(Seq::filter);
    let all = tagged(from, events);
    let out = delivered(all).filter(|datagram: (Seq<u8>, Seq<u8>)| datagram.0 == peer);
    if events.len() == 0 {
        assert(data_of(events) =~= Seq::empty());
        assert(out =~= Seq::empty());
        assert(data_of(events).map_values(|data: Seq<u8>| (peer, data)) =~= Seq::empty());
    } else {
        lemma_delivered_tagged(from, events.drop_last(), peer);
        assert(all.drop_last() =~= tagged(from, events.drop_last()));
        assert(all.last() == (from, events.last()));
        let fewer = delivered(all.drop_last());
        let few = data_of(events.drop_last());
        if let RtcEventView::ChannelData(data) = events.last() {
            assert(delivered(all) == fewer.push((from, data)));
            assert(delivered(all).drop_last() =~= fewer);
            assert(data_of(events) == few + seq![data]);
            assert(data_of(events).map_values(|data: Seq<u8>| (peer, data)) =~= few.map_values(
                |data: Seq<u8>| (peer, data),
            ).push((peer, data)));
        } else {
            assert(delivered(all) == fewer);
            assert(data_of(events) == few);
        }
    }
}

proof fn lemma_delivered_of_peer<S, W>(
    m: ManagerView<S, W>,
    order: Seq<Seq<u8>>,
    log: Seq<Seq<Step>>,
    i: int,
    peer: Seq<u8>,
)
    requires
        order.no_duplicates(),
        log.len() == order.len(),
        0 <= i < order.len() ==> order[i] == peer,
        !(0 <= i < order.len()) ==> !order.contains(peer),
    ensures
        delivered(all_events(m, order, log)).filter(
            |datagram: (Seq<u8>, Seq<u8>)| datagram.0 == peer,
        ) == if 0 <= i < order.len() {
            data_of(events_after(m.peers[peer], log[i])).map_values(|data: Seq<u8>| (peer, data))
        } else {
            Seq::empty()
        },
    decreases order.len(),
{
    let is_own = |datagram: (Seq<u8>, Seq<u8>)| datagram.0 == peer;
    if order.len() == 0 {
        reveal(Seq::filter);
        assert(delivered(all_events(m, order, log)).filter(is_own) =~= Seq::empty());
    } else {
        let fewer = order.drop_last();
        let last = order[order.len() - 1];
        assert(fewer.no_duplicates());
        let j = if i == order.len() - 1 {
            -1
        } else {
            i
        };
        if fewer.contains(peer) {
            let k = choose|k: int| 0 <= k < fewer.len() && fewer[k] == peer;
            assert(order[k] == peer);
            assert(order.contains(peer));
            assert(k == i);
        }
        if 0 <= j < fewer.len() {
            assert(fewer[j] == order[j]);
            assert(last != peer);
        }
        if last == peer {
            assert(order.contains(peer));
            assert(i == order.len() - 1);
        }
        lemma_delivered_of_peer(m, fewer, log.drop_last(), j, peer);
        let own = events_after(m.peers[last], log.last());
        lemma_delivered_add(all_events(m, fewer, log.drop_last()), tagged(last, own));
        lemma_delivered_tagged(last, own, peer);
        let early = delivered(all_events(m, fewer, log.drop_last()));
        let late = delivered(tagged(last, own));
        Seq::filter_distributes_over_add(early, late, is_own);
        assert(early.filter(is_own) + late.filter(is_own) =~= delivered(
            all_events(m, order, log),
        ).filter(is_own));
        assert(delivered(all_events(m, order, log)).filter(is_own) =~= if 0 <= i < order.len() {
            data_of(events_after(m.peers[peer], log[i])).map_values(|data: Seq<u8>| (peer, data))
        } else {
            Seq::empty()
        });
    }
}

/// A poll delivers all data that a session has reported by the time it has no output
/// ready, also what it reported before the poll and was left over: each once, in order,
/// with the peer that it came from. What the session reports after that, while it is
/// flushed, is left over for the next poll.
pub proof fn law_poll_delivers_data<S, W>(
    pre: ManagerView<S, W>,
    at: Instant,
    packets: Seq<PacketView>,
    post: ManagerView<S, W>,
    peer: Seq<u8>,
)
    requires
        poll_outcome(pre, at, packets, post),
        pre.peers.dom().contains(peer),
    ensures
        pre.datagrams.len() <= post.datagrams.len(),
        post.datagrams.take(pre.datagrams.len() as int) == pre.datagrams,
        ({
            let before = pre.peers[peer].trace;
            let steps = post.peers[peer].trace.skip(before.len() as int);
            exists|n: int|
                {
                    let handled = pre.peers[peer].deferred + reports(#[trigger] steps.take(n));
                    &&& 0 < n <= steps.len()
                    &&& steps[n - 1] is Polled
                    &&& n < 0xFFFF_FFFF_FFFF_FFFF ==> steps[n - 1]->output is Timeout || steps[n
                        - 1]->output is Failed
                    &&& post.datagrams.skip(pre.datagrams.len() as int).filter(
                        |datagram: (Seq<u8>, Seq<u8>)| datagram.0 == peer,
                    ) == data_of(handled).map_values(|data: Seq<u8>| (peer, data))
                    &&& post.peers[peer].deferred == reports(steps.skip(n))
                }
        }),
{
    let (order, log, i) = lemma_round(pre, at, packets, post, peer);
    let start = all_driven(pre, order, log);
    let events = all_events(pre, order, log);
    let drive = log[i];
    let before = pre.peers[peer].trace;
    let after = post.peers[peer].trace;
    lemma_events_go_on(start, events, post, peer);
    law_events_keep_datagrams(start, events, post);
    lemma_delivered_of_peer(pre, order, log, i, peer);
    law_output_is_kept(drive);
    let middle = start.peers[peer].trace;
    let steps = after.skip(before.len() as int);
    let later = after.skip(middle.len() as int);
    let n = drive.len() as int;
    assert(middle == before + drive);
    assert(after.take(middle.len() as int) == middle);
    assert(after =~= middle + later);
    assert(steps =~= drive + later);
    assert(steps.take(n) =~= drive);
    assert(steps.skip(n) =~= later);
    assert(post.datagrams.take(pre.datagrams.len() as int) =~= pre.datagrams);
    assert(post.datagrams.skip(pre.datagrams.len() as int) =~= delivered(events));
    let k = packets_for(packets, peer).len() as int;
    let drained = drive.skip(k + 1);
    assert(drained[drained.len() - 1] is Polled);
    assert(drained.last() == steps[n - 1]);
    assert(post.peers[peer].deferred =~= reports(later));
    assert(data_of(pre.peers[peer].deferred + reports(steps.take(n))) == data_of(
        events_after(pre.peers[peer], drive),
    ));
}

/// Events are handled one after the other, all of them: handling some and then others is
/// handling them all.
pub proof fn law_events_in_order<S, W>(
    pre: ManagerView<S, W>,
    first: Seq<(Seq<u8>, RtcEventView)>,
    second: Seq<(Seq<u8>, RtcEventView)>,
    post: ManagerView<S, W>,
)
    requires
        events_handled(pre, first + second, post),
    ensures
        exists|between: ManagerView<S, W>| #[trigger]
            events_handled(pre, first, between) && events_handled(between, second, post),
    decreases second.len(),
{
    if second.len() == 0 {
        assert(first + second =~= first);
        assert(events_handled(post, second, post));
    } else {
        let all = first + second;
        assert(all.drop_last() =~= first + second.drop_last());
        let last = choose|last: ManagerView<S, W>|
            events_handled(pre, all.drop_last(), last) && #[trigger] event_outcome(
                last,
                all.last().0,
                all.last().1,
                post,
            );
        law_events_in_order(pre, first, second.drop_last(), last);
        let between = choose|between: ManagerView<S, W>| #[trigger]
            events_handled(pre, first, between) && events_handled(
                between,
                second.drop_last(),
                last,
            );
        assert(second.last() == all.last());
        assert(event_outcome(last, second.last().0, second.last().1, post));
        assert(events_handled(between, second, post));
    }
}

/// A single event is handled once.
pub proof fn law_event_of_one<S, W>(
    pre: ManagerView<S, W>,
    peer: Seq<u8>,
    event: RtcEventView,
    post: ManagerView<S, W>,
)
    requires
        events_handled(pre, seq![(peer, event)], post),
    ensures
        event_outcome(pre, peer, event, post),
{
    let all = seq![(peer, event)];
    assert(all.drop_last() =~= Seq::empty());
    let between = choose|between: ManagerView<S, W>|
        events_handled(pre, all.drop_last(), between) && #[trigger] event_outcome(
            between,
            all.last().0,
            all.last().1,
            post,
        );
    assert(between == pre);
}

proof fn lemma_events_of_peer<S, W>(
    m: ManagerView<S, W>,
    order: Seq<Seq<u8>>,
    log: Seq<Seq<Step>>,
    i: int,
    peer: Seq<u8>,
)
    requires
        order.no_duplicates(),
        log.len() == order.len(),
        0 <= i < order.len() ==> order[i] == peer,
        !(0 <= i < order.len()) ==> !order.contains(peer),
    ensures
        all_events(m, order, log).filter(|event: (Seq<u8>, RtcEventView)| event.0 == peer)
            == if 0 <= i < order.len() {
            tagged(peer, events_after(m.peers[peer], log[i]))
        } else {
            Seq::empty()
        },
    decreases order.len(),
{
    let is_own = |event: (Seq<u8>, RtcEventView)| event.0 == peer;
    if order.len() == 0 {
        reveal(Seq::filter);
        assert(all_events(m, order, log).filter(is_own) =~= Seq::empty());
    } else {
        let fewer = order.drop_last();
        let last = order[order.len() - 1];
        assert(fewer.no_duplicates());
        let j = if i == order.len() - 1 {
            -1
        } else {
            i
        };
        if fewer.contains(peer) {
            let k = choose|k: int| 0 <= k < fewer.len() && fewer[k] == peer;
            assert(order[k] == peer);
            assert(order.contains(peer));
            assert(k == i);
        }
        if 0 <= j < fewer.len() {
            assert(fewer[j] == order[j]);
            assert(last != peer);
        }
        if last == peer {
            assert(order.contains(peer));
            assert(i == order.len() - 1);
        }
        lemma_events_of_peer(m, fewer, log.drop_last(), j, peer);
        let early = all_events(m, fewer, log.drop_last());
        let late = tagged(last, events_after(m.peers[last], log.last()));
        Seq::filter_distributes_over_add(early, late, is_own);
        lemma_tagged_of_peer(last, events_after(m.peers[last], log.last()), peer);
        assert(all_events(m, order, log).filter(is_own) =~= if 0 <= i < order.len() {
            tagged(peer, events_after(m.peers[peer], log[i]))
        } else {
            Seq::empty()
        });
    }
}

proof fn lemma_tagged_of_peer(from: Seq<u8>, events: Seq<RtcEventView>, peer: Seq<u8>)
    ensures
        tagged(from, events).filter(|event: (Seq<u8>, RtcEventView)| event.0 == peer) == if from
            == peer {
            tagged(from, events)
        } else {
            Seq::empty()
        },
    decreases events.len(),
{
    reveal(Seq::filter);
    let all = tagged(from, events);
    let own = all.filter(|event: (Seq<u8>, RtcEventView)| event.0 == peer);
    if events.len() == 0 {
        assert(own =~= Seq::empty());
        assert(all =~= Seq::empty());
    } else {
        lemma_tagged_of_peer(from, events.drop_last(), peer);
        assert(all.drop_last() =~= tagged(from, events.drop_last()));
        if from == peer {
            assert(own =~= all);
        }
    }
}

/// A poll handles every event that a session has reported by the time it has no output
/// ready, what was left over first, each once and in order. The connection is then as it
/// was before the poll, but for the calls made on its session and the datagrams to be
/// sent.
#[verifier::rlimit(40)]
#[verifier::spinoff_prover]
pub proof fn law_poll_handles_every_event<S, W>(
    pre: ManagerView<S, W>,
    at: Instant,
    packets: Seq<PacketView>,
    post: ManagerView<S, W>,
    peer: Seq<u8>,
)
    requires
        poll_outcome(pre, at, packets, post),
        pre.peers.dom().contains(peer),
    ensures
        exists|start: ManagerView<S, W>, events: Seq<(Seq<u8>, RtcEventView)>|
            {
                let before = pre.peers[peer];
                let fed = start.peers[peer];
                let steps = fed.trace.skip(before.trace.len() as int);
                &&& #[trigger] events_handled(start, events, post)
                &&& start.peers.dom() == pre.peers.dom()
                &&& before.trace.len() < fed.trace.len()
                &&& fed.trace.take(before.trace.len() as int) == before.trace
                &&& fed.trace.last() is Polled
                &&& forall|i: int|
                    packets.filter(|packet: PacketView| packet.peer == peer).len() < i
                        < steps.len() ==> #[trigger] steps[i] is Polled
                &&& steps.len() < 0xFFFF_FFFF_FFFF_FFFF ==> fed.trace.last()->output is Timeout
                    || fed.trace.last()->output is Failed
                &&& fed == (PeerView {
                    trace: fed.trace,
                    outbox: before.outbox + transmits(steps),
                    deferred: Seq::empty(),
                    ..before
                })
                &&& events.filter(|event: (Seq<u8>, RtcEventView)| event.0 == peer) == (
                before.deferred + reports(steps)).map_values(|event: RtcEventView| (peer, event))
            },
{
    let (order, log, i) = lemma_round(pre, at, packets, post, peer);
    let start = all_driven(pre, order, log);
    let events = all_events(pre, order, log);
    let before = pre.peers[peer];
    let fed = start.peers[peer];
    let drive = log[i];
    lemma_events_of_peer(pre, order, log, i, peer);
    law_output_is_kept(drive);
    let steps = fed.trace.skip(before.trace.len() as int);
    assert(steps =~= drive);
    assert(fed.trace.take(before.trace.len() as int) =~= before.trace);
    let k = packets_for(packets, peer).len() as int;
    let drained = drive.skip(k + 1);
    assert(drained[drained.len() - 1] is Polled);
    assert(drained.last() == fed.trace.last());
    lemma_packets_filtered(packets, peer);
    assert forall|j: int| k < j < steps.len() implies #[trigger] steps[j] is Polled by {
        assert(drained[j - k - 1] is Polled);
    }
    assert(tagged(peer, events_after(before, drive)) =~= (before.deferred + reports(
        steps,
    )).map_values(|event: RtcEventView| (peer, event)));
    assert(events_handled(start, events, post));
}

} // verus!
