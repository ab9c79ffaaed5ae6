//! Sending datagrams over connections of the browser.

use vstd::prelude::*;

use crate::addr::{parse_endpoint_id, parsed_key, AddrError, CustomAddr, EndpointId};
use crate::peer_connection::browser::{
    send_outcome, BrowserPeerView, BrowserView, PeerConnectionManager,
};
use crate::peer_connection::browser_effects::{
    law_browser_send_goes_out, law_browser_send_starts_session, law_browser_send_waits,
};
use crate::peer_connection::error::{connect_result, ConnectError, ConnectErrorView, PeerError};
use crate::peer_connection::ConnectionState;
use crate::transport::send::{
    is_cut, law_transmit_is_cut_to_size, segments, size_of_segments, stop_after, QueuedPolicy,
    SendError, SendPoll, SendPollView,
};

verus! {

/// What sending segments one after the other does, and how it ends.
pub open spec fn browser_segments_sent<
    P,
    C,
    W: Clone,
    E,
    F: Fn(EndpointId, u64) -> Result<(P, C), E>,
>(
    pre: BrowserView<P, C, W>,
    peer: EndpointId,
    pieces: Seq<Seq<u8>>,
    waker: W,
    create: F,
    policy: QueuedPolicy,
    post: BrowserView<P, C, W>,
    outcome: SendPollView<E>,
) -> bool
    decreases pieces.len(),
{
    if pieces.len() == 0 {
        post == pre && outcome == SendPollView::<E>::Ready
    } else {
        exists|clone: W, between: BrowserView<P, C, W>, result: Result<(), ConnectErrorView<E>>|
            {
                &&& cloned(waker, clone)
                &&& #[trigger] send_outcome(pre, peer, pieces[0], clone, create, between, result)
                &&& match stop_after(policy, result) {
                    Some(stop) => post == between && outcome == stop,
                    None => browser_segments_sent(
                        between,
                        peer,
                        pieces.drop_first(),
                        waker,
                        create,
                        policy,
                        post,
                        outcome,
                    ),
                }
            }
    }
}

proof fn lemma_segment_sent<P, C, W: Clone, E, F: Fn(EndpointId, u64) -> Result<(P, C), E>>(
    pre: BrowserView<P, C, W>,
    peer: EndpointId,
    pieces: Seq<Seq<u8>>,
    waker: W,
    create: F,
    policy: QueuedPolicy,
    clone: W,
    between: BrowserView<P, C, W>,
    result: Result<(), ConnectErrorView<E>>,
)
    requires
        pieces.len() > 0,
        cloned(waker, clone),
        send_outcome(pre, peer, pieces[0], clone, create, between, result),
    ensures
        stop_after(policy, result) matches Some(stop) ==> browser_segments_sent(
            pre,
            peer,
            pieces,
            waker,
            create,
            policy,
            between,
            stop,
        ),
        stop_after(policy, result) is None ==> forall|
            post: BrowserView<P, C, W>,
            outcome: SendPollView<E>,
        |
            #[trigger] browser_segments_sent(
                between,
                peer,
                pieces.drop_first(),
                waker,
                create,
                policy,
                post,
                outcome,
            ) ==> browser_segments_sent(pre, peer, pieces, waker, create, policy, post, outcome),
{
}

/// Sends the segments of a transmit to a peer, one after the other.
///
/// Without a segment size the contents are one segment; there has to be something
/// to send then.
pub fn poll_send<P, C, W: Clone, E, F: Fn(EndpointId, u64) -> Result<(P, C), E>>(
    manager: &mut PeerConnectionManager<P, C, W>,
    dst: &CustomAddr,
    contents: &[u8],
    segment_size: Option<usize>,
    waker: &W,
    create: &F,
    policy: QueuedPolicy,
) -> (outcome: SendPoll<E>)
    requires
        old(manager).wf(),
        forall|peer: EndpointId, session_id: u64| #[trigger] create.requires((peer, session_id)),
        segment_size matches Some(size) ==> size > 0,
        segment_size is None ==> contents.len() > 0,
    ensures
        final(manager).wf(),
        final(manager).configured() == old(manager).configured(),
        match parsed_key(dst.id, dst.data@) {
            Err(e) => final(manager)@ == old(manager)@ && outcome@ == SendPollView::<E>::BadAddr(e),
            Ok(key) => exists|peer: EndpointId|
                peer@ == key && #[trigger] browser_segments_sent(
                    old(manager)@,
                    peer,
                    segments(contents@, size_of_segments(contents@, segment_size)),
                    *waker,
                    *create,
                    policy,
                    final(manager)@,
                    outcome@,
                ),
        },
        parsed_key(dst.id, dst.data@) matches Ok(key) ==> exists|
            peer: EndpointId,
            pieces: Seq<Seq<u8>>,
        |
            peer@ == key && is_cut(pieces, contents@, segment_size)
                && #[trigger] browser_segments_sent(
                old(manager)@,
                peer,
                pieces,
                *waker,
                *create,
                policy,
                final(manager)@,
                outcome@,
            ),
{
    let peer_id = match parse_endpoint_id(dst) {
        Ok(peer_id) => peer_id,
        Err(e) => {
            return SendPoll::Failed(SendError::Addr(e));
        },
    };
    let size = match segment_size {
        Some(size) => size,
        None => contents.len(),
    };
    let ghost pre = manager@;
    let ghost all = segments(contents@, size as nat);
    let mut offset: usize = 0;
    proof {
        law_transmit_is_cut_to_size(contents@, segment_size);
    }
    assert(contents@.skip(0) =~= contents@);
    while offset < contents.len()
        invariant
            offset <= contents@.len(),
            size > 0,
            manager.wf(),
            manager.configured() == old(manager).configured(),
            forall|peer: EndpointId, session_id: u64| #[trigger]
                create.requires((peer, session_id)),
            pre == old(manager)@,
            parsed_key(dst.id, dst.data@) == Ok::<Seq<u8>, AddrError>(peer_id@),
            size == size_of_segments(contents@, segment_size),
            all == segments(contents@, size as nat),
            is_cut(all, contents@, segment_size),
            forall|post: BrowserView<P, C, W>, outcome: SendPollView<E>|
                #[trigger] browser_segments_sent(
                    manager@,
                    peer_id,
                    segments(contents@.skip(offset as int), size as nat),
                    *waker,
                    *create,
                    policy,
                    post,
                    outcome,
                ) ==> browser_segments_sent(
                    pre,
                    peer_id,
                    all,
                    *waker,
                    *create,
                    policy,
                    post,
                    outcome,
                ),
        decreases contents.len() - offset,
    {
        let ghost here = contents@.skip(offset as int);
        let ghost pieces = segments(here, size as nat);
        let ghost before = manager@;
        let end = if contents.len() - offset <= size {
            contents.len()
        } else {
            offset + size
        };
        let chunk = vstd::slice::slice_subrange(contents, offset, end);
        proof {
            if contents.len() - offset <= size {
                assert(chunk@ =~= here);
            } else {
                assert(chunk@ =~= here.take(size as int));
            }
            assert(pieces[0] == chunk@);
        }
        let clone = waker.clone();
        let ghost given = clone;
        let result = manager.send(peer_id, chunk, clone, create);
        let ghost said = connect_result(result);
        proof {
            lemma_segment_sent(
                before,
                peer_id,
                pieces,
                *waker,
                *create,
                policy,
                given,
                manager@,
                said,
            );
            if contents.len() - offset <= size {
                assert(contents@.skip(end as int) =~= Seq::empty());
            } else {
                assert(contents@.skip(end as int) =~= here.skip(size as int));
            }
            assert(pieces.drop_first() =~= segments(contents@.skip(end as int), size as nat));
        }
        match result {
            Ok(_) => {},
            Err(ConnectError::Peer(PeerError::WouldBlock)) => match policy {
                QueuedPolicy::Accept => {},
                QueuedPolicy::Wait => {
                    return SendPoll::Pending;
                },
            },
            Err(e) => {
                return SendPoll::Failed(SendError::Connect(e));
            },
        }
        offset = end;
    }
    proof {
        let left = segments(contents@.skip(offset as int), size as nat);
        assert(left.len() == 0);
        assert(browser_segments_sent(
            manager@,
            peer_id,
            left,
            *waker,
            *create,
            policy,
            manager@,
            SendPollView::<E>::Ready,
        ));
    }
    SendPoll::Ready
}

proof fn lemma_first_sent<P, C, W: Clone, E, F: Fn(EndpointId, u64) -> Result<(P, C), E>>(
    pre: BrowserView<P, C, W>,
    peer: EndpointId,
    pieces: Seq<Seq<u8>>,
    waker: W,
    create: F,
    policy: QueuedPolicy,
    post: BrowserView<P, C, W>,
    outcome: SendPollView<E>,
) -> (first: (W, BrowserView<P, C, W>, Result<(), ConnectErrorView<E>>))
    requires
        pieces.len() > 0,
        browser_segments_sent(pre, peer, pieces, waker, create, policy, post, outcome),
    ensures
        cloned(waker, first.0),
        send_outcome(pre, peer, pieces[0], first.0, create, first.1, first.2),
        match stop_after(policy, first.2) {
            Some(stop) => post == first.1 && outcome == stop,
            None => browser_segments_sent(
                first.1,
                peer,
                pieces.drop_first(),
                waker,
                create,
                policy,
                post,
                outcome,
            ),
        },
{
    choose|clone: W, between: BrowserView<P, C, W>, result: Result<(), ConnectErrorView<E>>|
        {
            &&& cloned(waker, clone)
            &&& #[trigger] send_outcome(pre, peer, pieces[0], clone, create, between, result)
            &&& match stop_after(policy, result) {
                Some(stop) => post == between && outcome == stop,
                None => browser_segments_sent(
                    between,
                    peer,
                    pieces.drop_first(),
                    waker,
                    create,
                    policy,
                    post,
                    outcome,
                ),
            }
        }
}

proof fn lemma_connected_transmit<P, C, W: Clone, E, F: Fn(EndpointId, u64) -> Result<(P, C), E>>(
    pre: BrowserView<P, C, W>,
    peer: EndpointId,
    pieces: Seq<Seq<u8>>,
    waker: W,
    create: F,
    policy: QueuedPolicy,
    post: BrowserView<P, C, W>,
    outcome: SendPollView<E>,
)
    requires
        browser_segments_sent(pre, peer, pieces, waker, create, policy, post, outcome),
        pre.peers.dom().contains(peer@),
        pre.peers[peer@].state == ConnectionState::Connected,
        pre.peers[peer@].channel is Some,
    ensures
        outcome is Ready,
        post.peers[peer@].outbox == pre.peers[peer@].outbox + pieces,
        post.peers[peer@] == (BrowserPeerView {
            outbox: post.peers[peer@].outbox,
            ..pre.peers[peer@]
        }),
        post.peers.dom() == pre.peers.dom(),
        post == (BrowserView { peers: post.peers, ..pre }),
    decreases pieces.len(),
{
    let before = pre.peers[peer@].outbox;
    if pieces.len() == 0 {
        assert(before + pieces =~= before);
    } else {
        let (clone, between, result) = lemma_first_sent(
            pre,
            peer,
            pieces,
            waker,
            create,
            policy,
            post,
            outcome,
        );
        law_browser_send_goes_out(pre, peer, pieces[0], clone, create, between, result);
        let rest = pieces.drop_first();
        lemma_connected_transmit(between, peer, rest, waker, create, policy, post, outcome);
        assert(before.push(pieces[0]) + rest =~= before + pieces);
    }
}

/// Over a connection with a channel, a transmit goes out piece by piece: without a segment
/// size as one datagram, with a size as segments of that size, in order and behind what is
/// on its way already.
pub proof fn law_browser_transmit_goes_out<
    P,
    C,
    W: Clone,
    E,
    F: Fn(EndpointId, u64) -> Result<(P, C), E>,
>(
    pre: BrowserView<P, C, W>,
    peer: EndpointId,
    contents: Seq<u8>,
    segment_size: Option<usize>,
    waker: W,
    create: F,
    policy: QueuedPolicy,
    post: BrowserView<P, C, W>,
    outcome: SendPollView<E>,
)
    requires
        segment_size matches Some(size) ==> size > 0,
        segment_size is None ==> contents.len() > 0,
        browser_segments_sent(
            pre,
            peer,
            segments(contents, size_of_segments(contents, segment_size)),
            waker,
            create,
            policy,
            post,
            outcome,
        ),
        pre.peers.dom().contains(peer@),
        pre.peers[peer@].state == ConnectionState::Connected,
        pre.peers[peer@].channel is Some,
    ensures
        outcome is Ready,
        segment_size is None ==> post.peers[peer@].outbox == pre.peers[peer@].outbox.push(contents),
        exists|pieces: Seq<Seq<u8>>| #[trigger]
            is_cut(pieces, contents, segment_size) && post.peers[peer@].outbox
                == pre.peers[peer@].outbox + pieces,
        post.peers[peer@] == (BrowserPeerView {
            outbox: post.peers[peer@].outbox,
            ..pre.peers[peer@]
        }),
        post.peers.dom() == pre.peers.dom(),
        post == (BrowserView { peers: post.peers, ..pre }),
{
    let pieces = segments(contents, size_of_segments(contents, segment_size));
    law_transmit_is_cut_to_size(contents, segment_size);
    lemma_connected_transmit(pre, peer, pieces, waker, create, policy, post, outcome);
    if segment_size is None {
        let before = pre.peers[peer@].outbox;
        assert(before + pieces =~= before.push(contents));
    }
}

proof fn lemma_waiting_transmit<P, C, W: Clone, E, F: Fn(EndpointId, u64) -> Result<(P, C), E>>(
    pre: BrowserView<P, C, W>,
    peer: EndpointId,
    pieces: Seq<Seq<u8>>,
    waker: W,
    create: F,
    policy: QueuedPolicy,
    post: BrowserView<P, C, W>,
    outcome: SendPollView<E>,
)
    requires
        browser_segments_sent(pre, peer, pieces, waker, create, policy, post, outcome),
        pre.peers.dom().contains(peer@),
        pre.peers[peer@].state == ConnectionState::Connecting,
    ensures
        match policy {
            QueuedPolicy::Accept => {
                &&& outcome is Ready
                &&& post.peers[peer@].pending_sends == pre.peers[peer@].pending_sends + pieces
            },
            QueuedPolicy::Wait => if pieces.len() == 0 {
                outcome is Ready && post == pre
            } else {
                &&& outcome is Pending
                &&& post.peers[peer@].pending_sends == pre.peers[peer@].pending_sends.push(
                    pieces[0],
                )
            },
        },
        pieces.len() > 0 ==> (post.peers[peer@].waker matches Some(kept) && cloned(waker, kept)),
        post.peers[peer@] == (BrowserPeerView {
            pending_sends: post.peers[peer@].pending_sends,
            waker: post.peers[peer@].waker,
            ..pre.peers[peer@]
        }),
        post.peers.dom() == pre.peers.dom(),
        post == (BrowserView { peers: post.peers, ..pre }),
    decreases pieces.len(),
{
    let before = pre.peers[peer@].pending_sends;
    if pieces.len() == 0 {
        assert(before + pieces =~= before);
    } else {
        let (clone, between, result) = lemma_first_sent(
            pre,
            peer,
            pieces,
            waker,
            create,
            policy,
            post,
            outcome,
        );
        law_browser_send_waits(pre, peer, pieces[0], clone, create, between, result);
        if policy == QueuedPolicy::Accept {
            let rest = pieces.drop_first();
            lemma_waiting_transmit(between, peer, rest, waker, create, policy, post, outcome);
            assert(before.push(pieces[0]) + rest =~= before + pieces);
        }
    }
}

/// While a connection is being set up, or if a new one has to be, the segments of a
/// transmit wait for it in order, all of them if they count as sent, else the first; and
/// the sender is kept to be woken.
pub proof fn law_browser_transmit_waits<
    P,
    C,
    W: Clone,
    E,
    F: Fn(EndpointId, u64) -> Result<(P, C), E>,
>(
    pre: BrowserView<P, C, W>,
    peer: EndpointId,
    contents: Seq<u8>,
    segment_size: Option<usize>,
    waker: W,
    create: F,
    policy: QueuedPolicy,
    post: BrowserView<P, C, W>,
    outcome: SendPollView<E>,
)
    requires
        segment_size matches Some(size) ==> size > 0,
        contents.len() > 0,
        browser_segments_sent(
            pre,
            peer,
            segments(contents, size_of_segments(contents, segment_size)),
            waker,
            create,
            policy,
            post,
            outcome,
        ),
        !pre.peers.dom().contains(peer@) || pre.peers[peer@].state != ConnectionState::Connected,
    ensures
        ({
            let waits = pre.peers.dom().contains(peer@) && pre.peers[peer@].state
                == ConnectionState::Connecting;
            let before = if waits {
                pre.peers[peer@].pending_sends
            } else {
                Seq::empty()
            };
            &&& !post.peers.dom().contains(peer@) ==> {
                &&& !waits
                &&& outcome matches SendPollView::Failed(ConnectErrorView::Bind(_))
            }
            &&& post.peers.dom().contains(peer@) ==> {
                &&& match policy {
                    QueuedPolicy::Accept => outcome is Ready,
                    QueuedPolicy::Wait => outcome is Pending,
                }
                &&& post.peers[peer@].state == ConnectionState::Connecting
                &&& post.peers[peer@].session_id == if waits {
                    pre.peers[peer@].session_id
                } else {
                    pre.next_session_id
                }
                &&& post.peers[peer@].waker matches Some(kept)
                &&& cloned(waker, kept)
                &&& exists|pieces: Seq<Seq<u8>>| #[trigger]
                    is_cut(pieces, contents, segment_size) && post.peers[peer@].pending_sends
                        == before + match policy {
                        QueuedPolicy::Accept => pieces,
                        QueuedPolicy::Wait => pieces.take(1),
                    }
            }
            &&& !waits ==> post.next_session_id == (pre.next_session_id + 1)
                % 0x1_0000_0000_0000_0000
            &&& waits ==> post.next_session_id == pre.next_session_id
        }),
{
    let pieces = segments(contents, size_of_segments(contents, segment_size));
    law_transmit_is_cut_to_size(contents, segment_size);
    assert(pieces.len() > 0);
    let waits = pre.peers.dom().contains(peer@) && pre.peers[peer@].state
        == ConnectionState::Connecting;
    if waits {
        lemma_waiting_transmit(pre, peer, pieces, waker, create, policy, post, outcome);
        let before = pre.peers[peer@].pending_sends;
        assert(before.push(pieces[0]) =~= before + pieces.take(1));
    } else {
        let (clone, between, result) = lemma_first_sent(
            pre,
            peer,
            pieces,
            waker,
            create,
            policy,
            post,
            outcome,
        );
        law_browser_send_starts_session(pre, peer, pieces[0], clone, create, between, result);
        let none = Seq::<Seq<u8>>::empty();
        assert(none + pieces =~= pieces);
        assert(none + pieces.take(1) =~= seq![pieces[0]]);
        if between.peers.dom().contains(peer@) {
            if policy == QueuedPolicy::Accept {
                let rest = pieces.drop_first();
                lemma_waiting_transmit(between, peer, rest, waker, create, policy, post, outcome);
                assert(seq![pieces[0]] + rest =~= pieces);
                if rest.len() == 0 {
                    assert(post == between);
                }
            }
        }
    }
}

} // verus!
