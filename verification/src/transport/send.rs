//! Sending datagrams.
//!
//! The QUIC stack may hand several datagrams over at once, as segments of one
//! size. Each segment is sent on its own.

use std::time::Instant;

use str0m::channel::ChannelId;
use vstd::prelude::*;

use crate::addr::{parse_endpoint_id, parsed_key, AddrError, CustomAddr};
use crate::net::SocketAddr;
use crate::peer_connection::effects::{
    law_send_starts_session, law_send_waits_for_connection, law_send_writes_to_channel, writes,
};
use crate::peer_connection::error::{
    connect_result, ConnectError, ConnectErrorView, PeerError, PeerErrorView,
};
use crate::peer_connection::model::{send_outcome, ManagerView, PeerView};
use crate::peer_connection::native::PeerConnectionManager;
use crate::peer_connection::ConnectionState;

verus! {

/// What becomes of a transmit when a segment was queued because the connection is
/// not ready.
#[derive(Debug, Clone, Copy, PartialEq, Eq, Structural)]
pub enum QueuedPolicy {
    /// The segment counts as sent. QUIC then keeps track of what it sent to validate
    /// the path, and recognises the response whenever it comes.
    Accept,
    /// The transmit waits, and is tried again when the sender is woken.
    Wait,
}

/// Why a transmit failed.
#[derive(Debug, PartialEq, Eq)]
pub enum SendError<E> {
    /// The destination is no WebRTC peer.
    Addr(AddrError),
    /// The connection failed.
    Connect(ConnectError<E>),
}

/// How a transmit ends.
#[derive(Debug, PartialEq, Eq)]
pub enum SendPoll<E> {
    /// Every segment was sent or queued.
    Ready,
    /// A segment was queued, and the transmit has to be tried again.
    Pending,
    /// The transmit failed.
    Failed(SendError<E>),
}

/// What a [`SendPoll`] says.
#[verifier::ext_equal]
pub enum SendPollView<E> {
    Ready,
    Pending,
    BadAddr(AddrError),
    Failed(ConnectErrorView<E>),
}

impl<E> SendPoll<E> {
    /// What the outcome says.
    pub open spec fn view(&self) -> SendPollView<E> {
        match *self {
            SendPoll::Ready => SendPollView::Ready,
            SendPoll::Pending => SendPollView::Pending,
            SendPoll::Failed(SendError::Addr(e)) => SendPollView::BadAddr(e),
            SendPoll::Failed(SendError::Connect(ConnectError::Bind(e))) => SendPollView::Failed(
                ConnectErrorView::Bind(e),
            ),
            SendPoll::Failed(SendError::Connect(ConnectError::Peer(e))) => SendPollView::Failed(
                ConnectErrorView::Peer(e@),
            ),
        }
    }
}

/// The segments of a transmit: pieces of one size, the last perhaps shorter.
pub open spec fn segments(contents: Seq<u8>, size: nat) -> Seq<Seq<u8>>
    decreases contents.len(),
{
    if contents.len() == 0 || size == 0 {
        Seq::empty()
    } else if contents.len() <= size {
        seq![contents]
    } else {
        seq![contents.take(size as int)] + segments(contents.skip(size as int), size)
    }
}

/// The size of the segments of a transmit: the whole is one segment, unless a size
/// is given.
pub open spec fn size_of_segments(contents: Seq<u8>, segment_size: Option<usize>) -> nat {
    match segment_size {
        Some(size) => size as nat,
        None => contents.len(),
    }
}

/// Pieces put together.
pub open spec fn concatenated(pieces: Seq<Seq<u8>>) -> Seq<u8>
    decreases pieces.len(),
{
    if pieces.len() == 0 {
        Seq::empty()
    } else {
        pieces[0] + concatenated(pieces.drop_first())
    }
}

/// Nothing is lost or added by splitting a transmit, and no segment is empty or
/// longer than asked for.
pub proof fn law_segments_cover(contents: Seq<u8>, size: nat)
    requires
        size > 0,
    ensures
        concatenated(segments(contents, size)) == contents,
        forall|i: int|
            0 <= i < segments(contents, size).len() ==> 0 < (#[trigger] segments(
                contents,
                size,
            )[i]).len() <= size,
    decreases contents.len(),
{
    let pieces = segments(contents, size);
    if contents.len() == 0 {
        assert(concatenated(pieces) =~= contents);
    } else if contents.len() <= size {
        assert(pieces.drop_first() =~= Seq::empty());
        assert(concatenated(pieces.drop_first()) =~= Seq::empty());
        assert(concatenated(pieces) =~= contents);
    } else {
        let rest = contents.skip(size as int);
        law_segments_cover(rest, size);
        assert(pieces.drop_first() =~= segments(rest, size));
        assert(concatenated(pieces) =~= contents);
        assert forall|i: int| 0 <= i < pieces.len() implies 0 < (#[trigger] pieces[i]).len()
            <= size by {
            if i > 0 {
                assert(pieces[i] == segments(rest, size)[i - 1]);
            }
        }
    }
}

/// Pieces that a transmit is cut into. Without a size there is one piece, the whole
/// transmit. With a size every piece has exactly that size, but for the last, which is
/// what is left over; put together they are the transmit.
pub open spec fn is_cut(
    pieces: Seq<Seq<u8>>,
    contents: Seq<u8>,
    segment_size: Option<usize>,
) -> bool {
    match segment_size {
        None => pieces == seq![contents],
        Some(size) => {
            &&& forall|i: int| 0 <= i < pieces.len() - 1 ==> (#[trigger] pieces[i]).len() == size
            &&& pieces.len() > 0 ==> 0 < pieces.last().len() <= size
            &&& concatenated(pieces) == contents
        },
    }
}

/// A transmit without a segment size is sent as exactly one datagram, which equals its
/// contents. With a size, every segment but the last has exactly that size, and the
/// segments are the contents in order.
pub proof fn law_transmit_is_cut_to_size(contents: Seq<u8>, segment_size: Option<usize>)
    requires
        segment_size matches Some(size) ==> size > 0,
        segment_size is None ==> contents.len() > 0,
    ensures
        is_cut(
            segments(contents, size_of_segments(contents, segment_size)),
            contents,
            segment_size,
        ),
        segment_size is None ==> segments(contents, size_of_segments(contents, segment_size))
            == seq![contents],
        segment_size matches Some(size) ==> forall|i: int|
            0 <= i < segments(contents, size as nat).len() ==> #[trigger] segments(
                contents,
                size as nat,
            )[i] == contents.subrange(
                i * size,
                if (i + 1) * size < contents.len() {
                    (i + 1) * size
                } else {
                    contents.len() as int
                },
            ),
{
    if let Some(size) = segment_size {
        lemma_segments_sized(contents, size as nat);
        law_segments_cover(contents, size as nat);
    }
}

proof fn lemma_segments_sized(contents: Seq<u8>, size: nat)
    requires
        size > 0,
    ensures
        forall|i: int|
            0 <= i < segments(contents, size).len() - 1 ==> (#[trigger] segments(
                contents,
                size,
            )[i]).len() == size,
        forall|i: int|
            0 <= i < segments(contents, size).len() ==> {
                &&& #[trigger] segments(contents, size)[i] == contents.subrange(
                    i * size,
                    if (i + 1) * size < contents.len() {
                        (i + 1) * size
                    } else {
                        contents.len() as int
                    },
                )
                &&& 0 <= i * size < contents.len()
            },
    decreases contents.len(),
{
    let pieces = segments(contents, size);
    if contents.len() == 0 {
    } else if contents.len() <= size {
        assert(contents.subrange(0, contents.len() as int) =~= contents);
        assert((0 + 1) * size == size) by (nonlinear_arith);
        assert(0 * size == 0) by (nonlinear_arith);
    } else {
        let rest = contents.skip(size as int);
        let tail = segments(rest, size);
        lemma_segments_sized(rest, size);
        assert(tail.len() > 0);
        assert forall|i: int| 0 <= i < pieces.len() - 1 implies (#[trigger] pieces[i]).len()
            == size by {
            if i > 0 {
                assert(pieces[i] == tail[i - 1]);
            }
        }
        assert forall|i: int| 0 <= i < pieces.len() implies {
            &&& #[trigger] pieces[i] == contents.subrange(
                i * size,
                if (i + 1) * size < contents.len() {
                    (i + 1) * size
                } else {
                    contents.len() as int
                },
            )
            &&& 0 <= i * size < contents.len()
        } by {
            if i == 0 {
                assert((0 + 1) * size == size) by (nonlinear_arith);
                assert(0 * size == 0) by (nonlinear_arith);
                assert(contents.take(size as int) =~= contents.subrange(0, size as int));
            } else {
                assert(pieces[i] == tail[i - 1]);
                assert((i - 1) * size == i * size - size) by (nonlinear_arith);
                assert((i - 1 + 1) * size == i * size) by (nonlinear_arith);
                assert((i + 1) * size == i * size + size) by (nonlinear_arith);
                assert(0 <= i * size - size);
                assert(pieces[i] =~= contents.subrange(
                    i * size,
                    if (i + 1) * size < contents.len() {
                        (i + 1) * size
                    } else {
                        contents.len() as int
                    },
                ));
            }
        }
    }
}

/// How a transmit ends after sending a segment gave a result; `None` if it goes on.
pub open spec fn stop_after<E>(
    policy: QueuedPolicy,
    result: Result<(), ConnectErrorView<E>>,
) -> Option<SendPollView<E>> {
    match result {
        Ok(_) => None,
        Err(ConnectErrorView::Peer(PeerErrorView::WouldBlock)) => match policy {
            QueuedPolicy::Accept => None,
            QueuedPolicy::Wait => Some(SendPollView::Pending),
        },
        Err(e) => Some(SendPollView::Failed(e)),
    }
}

/// A transmit goes on after a segment that was sent, and after one that was queued if that
/// counts as sent. It is pending after one that was queued if it does not, and fails with
/// the error of a segment that failed.
pub proof fn law_transmit_stops_at_failure<E>(
    policy: QueuedPolicy,
    result: Result<(), ConnectErrorView<E>>,
)
    ensures
        result is Ok ==> stop_after(policy, result) is None,
        result == Err::<(), _>(ConnectErrorView::<E>::Peer(PeerErrorView::WouldBlock)) ==> (
        stop_after(policy, result) == if policy == QueuedPolicy::Accept {
            None
        } else {
            Some(SendPollView::<E>::Pending)
        }),
        result matches Err(e) ==> (e != ConnectErrorView::<E>::Peer(PeerErrorView::WouldBlock)
            ==> stop_after(policy, result) == Some(SendPollView::Failed(e))),
{
}

/// What sending segments one after the other does, and how it ends.
pub open spec fn segments_sent<S, W: Clone, E, F: Fn() -> Result<(S, SocketAddr), E>>(
    pre: ManagerView<S, W>,
    peer: Seq<u8>,
    pieces: Seq<Seq<u8>>,
    waker: W,
    at: Instant,
    bind: F,
    policy: QueuedPolicy,
    post: ManagerView<S, W>,
    outcome: SendPollView<E>,
) -> bool
    decreases pieces.len(),
{
    if pieces.len() == 0 {
        post == pre && outcome == SendPollView::<E>::Ready
    } else {
        exists|clone: W, between: ManagerView<S, W>, result: Result<(), ConnectErrorView<E>>|
            {
                &&& cloned(waker, clone)
                &&& #[trigger] send_outcome(pre, peer, pieces[0], clone, at, bind, between, result)
                &&& match stop_after(policy, result) {
                    Some(stop) => post == between && outcome == stop,
                    None => segments_sent(
                        between,
                        peer,
                        pieces.drop_first(),
                        waker,
                        at,
                        bind,
                        policy,
                        post,
                        outcome,
                    ),
                }
            }
    }
}

/// A transmit whose queued segments count as sent never has to be tried again.
pub proof fn law_accept_never_pends<S, W: Clone, E, F: Fn() -> Result<(S, SocketAddr), E>>(
    pre: ManagerView<S, W>,
    peer: Seq<u8>,
    pieces: Seq<Seq<u8>>,
    waker: W,
    at: Instant,
    bind: F,
    post: ManagerView<S, W>,
    outcome: SendPollView<E>,
)
    requires
        segments_sent(pre, peer, pieces, waker, at, bind, QueuedPolicy::Accept, post, outcome),
    ensures
        outcome !is Pending,
    decreases pieces.len(),
{
    if pieces.len() > 0 {
        let (clone, between, result) = choose|
            clone: W,
            between: ManagerView<S, W>,
            result: Result<(), ConnectErrorView<E>>,
        |
            {
                &&& cloned(waker, clone)
                &&& #[trigger] send_outcome(pre, peer, pieces[0], clone, at, bind, between, result)
                &&& match stop_after(QueuedPolicy::Accept, result) {
                    Some(stop) => post == between && outcome == stop,
                    None => segments_sent(
                        between,
                        peer,
                        pieces.drop_first(),
                        waker,
                        at,
                        bind,
                        QueuedPolicy::Accept,
                        post,
                        outcome,
                    ),
                }
            };
        if stop_after(QueuedPolicy::Accept, result) is None {
            law_accept_never_pends(
                between,
                peer,
                pieces.drop_first(),
                waker,
                at,
                bind,
                post,
                outcome,
            );
        }
    }
}

proof fn lemma_segment_sent<S, W: Clone, E, F: Fn() -> Result<(S, SocketAddr), E>>(
    pre: ManagerView<S, W>,
    peer: Seq<u8>,
    pieces: Seq<Seq<u8>>,
    waker: W,
    at: Instant,
    bind: F,
    policy: QueuedPolicy,
    clone: W,
    between: ManagerView<S, W>,
    result: Result<(), ConnectErrorView<E>>,
)
    requires
        pieces.len() > 0,
        cloned(waker, clone),
        send_outcome(pre, peer, pieces[0], clone, at, bind, between, result),
    ensures
        stop_after(policy, result) matches Some(stop) ==> segments_sent(
            pre,
            peer,
            pieces,
            waker,
            at,
            bind,
            policy,
            between,
            stop,
        ),
        stop_after(policy, result) is None ==> forall|
            post: ManagerView<S, W>,
            outcome: SendPollView<E>,
        |
            #[trigger] segments_sent(
                between,
                peer,
                pieces.drop_first(),
                waker,
                at,
                bind,
                policy,
                post,
                outcome,
            ) ==> segments_sent(pre, peer, pieces, waker, at, bind, policy, post, outcome),
{
}

/// Sends the segments of a transmit to a peer, one after the other.
///
/// Without a segment size the contents are one segment; there has to be something
/// to send then.
pub fn poll_send<S, W: Clone, E, F: Fn() -> Result<(S, SocketAddr), E>>(
    manager: &mut PeerConnectionManager<S, W>,
    dst: &CustomAddr,
    contents: &[u8],
    segment_size: Option<usize>,
    waker: &W,
    now: Instant,
    bind: &F,
    policy: QueuedPolicy,
) -> (outcome: SendPoll<E>)
    requires
        old(manager).wf(),
        bind.requires(()),
        segment_size matches Some(size) ==> size > 0,
        segment_size is None ==> contents.len() > 0,
    ensures
        final(manager).wf(),
        match parsed_key(dst.id, dst.data@) {
            Err(e) => final(manager)@ == old(manager)@ && outcome@ == SendPollView::<E>::BadAddr(e),
            Ok(peer) => segments_sent(
                old(manager)@,
                peer,
                segments(contents@, size_of_segments(contents@, segment_size)),
                *waker,
                now,
                *bind,
                policy,
                final(manager)@,
                outcome@,
            ),
        },
        parsed_key(dst.id, dst.data@) matches Ok(peer) ==> exists|pieces: Seq<Seq<u8>>|
            #[trigger] is_cut(pieces, contents@, segment_size) && segments_sent(
                old(manager)@,
                peer,
                pieces,
                *waker,
                now,
                *bind,
                policy,
                final(manager)@,
                outcome@,
            ),
{
    let peer_id = match parse_endpoint_id(dst) {
        Ok(peer_id) => peer_id,
        Err(e) => {
            return SendPoll::Failed(SendError::Addr(e));
        },
    };
    let size = match segment_size {
        Some(size) => size,
        None => contents.len(),
    };
    let ghost pre = manager@;
    let ghost all = segments(contents@, size as nat);
    let mut offset: usize = 0;
    proof {
        law_transmit_is_cut_to_size(contents@, segment_size);
    }
    assert(contents@.skip(0) =~= contents@);
    while offset < contents.len()
        invariant
            offset <= contents@.len(),
            size > 0,
            manager.wf(),
            bind.requires(()),
            pre == old(manager)@,
            parsed_key(dst.id, dst.data@) == Ok::<Seq<u8>, AddrError>(peer_id@),
            size == size_of_segments(contents@, segment_size),
            all == segments(contents@, size as nat),
            is_cut(all, contents@, segment_size),
            forall|post: ManagerView<S, W>, outcome: SendPollView<E>|
                #[trigger] segments_sent(
                    manager@,
                    peer_id@,
                    segments(contents@.skip(offset as int), size as nat),
                    *waker,
                    now,
                    *bind,
                    policy,
                    post,
                    outcome,
                ) ==> segments_sent(
                    pre,
                    peer_id@,
                    all,
                    *waker,
                    now,
                    *bind,
                    policy,
                    post,
                    outcome,
                ),
        decreases contents.len() - offset,
    {
        let ghost here = contents@.skip(offset as int);
        let ghost pieces = segments(here, size as nat);
        let ghost before = manager@;
        let end = if contents.len() - offset <= size {
            contents.len()
        } else {
            offset + size
        };
        let chunk = vstd::slice::slice_subrange(contents, offset, end);
        proof {
            if contents.len() - offset <= size {
                assert(chunk@ =~= here);
            } else {
                assert(chunk@ =~= here.take(size as int));
            }
            assert(pieces[0] == chunk@);
        }
        let clone = waker.clone();
        let ghost given = clone;
        let result = manager.send(peer_id, chunk, clone, now, bind);
        let ghost said = connect_result(result);
        proof {
            lemma_segment_sent(
                before,
                peer_id@,
                pieces,
                *waker,
                now,
                *bind,
                policy,
                given,
                manager@,
                said,
            );
            if contents.len() - offset <= size {
                assert(contents@.skip(end as int) =~= Seq::empty());
                assert(pieces.drop_first() =~= segments(contents@.skip(end as int), size as nat));
            } else {
                assert(contents@.skip(end as int) =~= here.skip(size as int));
                assert(pieces.drop_first() =~= segments(contents@.skip(end as int), size as nat));
            }
        }
        match result {
            Ok(_) => {},
            Err(ConnectError::Peer(PeerError::WouldBlock)) => match policy {
                QueuedPolicy::Accept => {},
                QueuedPolicy::Wait => {
                    return SendPoll::Pending;
                },
            },
            Err(e) => {
                return SendPoll::Failed(SendError::Connect(e));
            },
        }
        offset = end;
    }
    proof {
        let left = segments(contents@.skip(offset as int), size as nat);
        assert(left.len() == 0);
        assert(segments_sent(
            manager@,
            peer_id@,
            left,
            *waker,
            now,
            *bind,
            policy,
            manager@,
            SendPollView::<E>::Ready,
        ));
    }
    SendPoll::Ready
}

/// The pieces that were handed to a channel.
pub open spec fn handed_to(channel: ChannelId, pieces: Seq<Seq<u8>>) -> Seq<(ChannelId, Seq<u8>)> {
    pieces.map_values(|piece: Seq<u8>| (channel, piece))
}

proof fn lemma_first_sent<S, W: Clone, E, F: Fn() -> Result<(S, SocketAddr), E>>(
    pre: ManagerView<S, W>,
    peer: Seq<u8>,
    pieces: Seq<Seq<u8>>,
    waker: W,
    at: Instant,
    bind: F,
    policy: QueuedPolicy,
    post: ManagerView<S, W>,
    outcome: SendPollView<E>,
) -> (first: (W, ManagerView<S, W>, Result<(), ConnectErrorView<E>>))
    requires
        pieces.len() > 0,
        segments_sent(pre, peer, pieces, waker, at, bind, policy, post, outcome),
    ensures
        cloned(waker, first.0),
        send_outcome(pre, peer, pieces[0], first.0, at, bind, first.1, first.2),
        match stop_after(policy, first.2) {
            Some(stop) => post == first.1 && outcome == stop,
            None => segments_sent(
                first.1,
                peer,
                pieces.drop_first(),
                waker,
                at,
                bind,
                policy,
                post,
                outcome,
            ),
        },
{
    choose|clone: W, between: ManagerView<S, W>, result: Result<(), ConnectErrorView<E>>|
        {
            &&& cloned(waker, clone)
            &&& #[trigger] send_outcome(pre, peer, pieces[0], clone, at, bind, between, result)
            &&& match stop_after(policy, result) {
                Some(stop) => post == between && outcome == stop,
                None => segments_sent(
                    between,
                    peer,
                    pieces.drop_first(),
                    waker,
                    at,
                    bind,
                    policy,
                    post,
                    outcome,
                ),
            }
        }
}

proof fn lemma_connected_transmit<S, W: Clone, E, F: Fn() -> Result<(S, SocketAddr), E>>(
    pre: ManagerView<S, W>,
    peer: Seq<u8>,
    pieces: Seq<Seq<u8>>,
    waker: W,
    at: Instant,
    bind: F,
    policy: QueuedPolicy,
    post: ManagerView<S, W>,
    outcome: SendPollView<E>,
) -> (m: int)
    requires
        segments_sent(pre, peer, pieces, waker, at, bind, policy, post, outcome),
        pre.peers.dom().contains(peer),
        pre.peers[peer].state == ConnectionState::Connected,
        pre.peers[peer].channel is Some,
    ensures
        0 <= m <= pieces.len(),
        writes(post.peers[peer].trace) == writes(pre.peers[peer].trace) + handed_to(
            pre.peers[peer].channel->0,
            pieces.take(m),
        ),
        match outcome {
            SendPollView::Ready => m == pieces.len(),
            SendPollView::Failed(_) => m > 0,
            _ => false,
        },
        post.peers[peer] == (PeerView {
            trace: post.peers[peer].trace,
            outbox: post.peers[peer].outbox,
            deferred: post.peers[peer].deferred,
            ..pre.peers[peer]
        }),
        post == (ManagerView { peers: post.peers, ..pre }),
        post.peers.dom() == pre.peers.dom(),
    decreases pieces.len(),
{
    let channel = pre.peers[peer].channel->0;
    let before = writes(pre.peers[peer].trace);
    if pieces.len() == 0 {
        assert(before + handed_to(channel, pieces.take(0)) =~= before);
        0
    } else {
        let (clone, between, result) = lemma_first_sent(
            pre,
            peer,
            pieces,
            waker,
            at,
            bind,
            policy,
            post,
            outcome,
        );
        law_send_writes_to_channel(pre, peer, pieces[0], clone, at, bind, between, result);
        if stop_after(policy, result) is Some {
            assert(before.push((channel, pieces[0])) =~= before + handed_to(
                channel,
                pieces.take(1),
            ));
            1
        } else {
            let rest = pieces.drop_first();
            let m = lemma_connected_transmit(
                between,
                peer,
                rest,
                waker,
                at,
                bind,
                policy,
                post,
                outcome,
            );
            assert(before.push((channel, pieces[0])) + handed_to(channel, rest.take(m)) =~= before
                + handed_to(channel, pieces.take(m + 1)));
            m + 1
        }
    }
}

/// Over a connection, a transmit is written to the channel in use piece by piece: without
/// a segment size as one datagram, with a size as segments of that size. If it is ready
/// every piece was written, once and in order; if it failed, those up to the one that
/// failed. It never has to be tried again.
pub proof fn law_transmit_is_written<S, W: Clone, E, F: Fn() -> Result<(S, SocketAddr), E>>(
    pre: ManagerView<S, W>,
    peer: Seq<u8>,
    contents: Seq<u8>,
    segment_size: Option<usize>,
    waker: W,
    at: Instant,
    bind: F,
    policy: QueuedPolicy,
    post: ManagerView<S, W>,
    outcome: SendPollView<E>,
)
    requires
        segment_size matches Some(size) ==> size > 0,
        segment_size is None ==> contents.len() > 0,
        segments_sent(
            pre,
            peer,
            segments(contents, size_of_segments(contents, segment_size)),
            waker,
            at,
            bind,
            policy,
            post,
            outcome,
        ),
        pre.peers.dom().contains(peer),
        pre.peers[peer].state == ConnectionState::Connected,
        pre.peers[peer].channel is Some,
    ensures
        outcome is Ready || outcome is Failed,
        segment_size is None ==> writes(post.peers[peer].trace) == writes(
            pre.peers[peer].trace,
        ).push((pre.peers[peer].channel->0, contents)),
        exists|pieces: Seq<Seq<u8>>, m: int|
            {
                &&& is_cut(pieces, contents, segment_size)
                &&& 0 <= m <= pieces.len()
                &&& outcome is Ready ==> m == pieces.len()
                &&& outcome is Failed ==> m > 0
                &&& writes(post.peers[peer].trace) == writes(pre.peers[peer].trace)
                    + #[trigger] handed_to(pre.peers[peer].channel->0, pieces.take(m))
            },
        post.peers[peer].channel == pre.peers[peer].channel,
        post.peers[peer].state == ConnectionState::Connected,
        post.peers[peer].session_id == pre.peers[peer].session_id,
        post == (ManagerView { peers: post.peers, ..pre }),
        post.peers.dom() == pre.peers.dom(),
{
    let pieces = segments(contents, size_of_segments(contents, segment_size));
    law_transmit_is_cut_to_size(contents, segment_size);
    let m = lemma_connected_transmit(pre, peer, pieces, waker, at, bind, policy, post, outcome);
    let channel = pre.peers[peer].channel->0;
    let before = writes(pre.peers[peer].trace);
    assert(writes(post.peers[peer].trace) == before + handed_to(channel, pieces.take(m)));
    if segment_size is None {
        assert(m == 1);
        assert(before + handed_to(channel, pieces.take(1)) =~= before.push((channel, contents)));
    }
}

proof fn lemma_waiting_transmit<S, W: Clone, E, F: Fn() -> Result<(S, SocketAddr), E>>(
    pre: ManagerView<S, W>,
    peer: Seq<u8>,
    pieces: Seq<Seq<u8>>,
    waker: W,
    at: Instant,
    bind: F,
    policy: QueuedPolicy,
    post: ManagerView<S, W>,
    outcome: SendPollView<E>,
)
    requires
        segments_sent(pre, peer, pieces, waker, at, bind, policy, post, outcome),
        pre.peers.dom().contains(peer),
        pre.peers[peer].state == ConnectionState::Connecting,
    ensures
        match policy {
            QueuedPolicy::Accept => {
                &&& outcome is Ready
                &&& post.peers[peer].pending_sends == pre.peers[peer].pending_sends + pieces
            },
            QueuedPolicy::Wait => if pieces.len() == 0 {
                outcome is Ready && post == pre
            } else {
                &&& outcome is Pending
                &&& post.peers[peer].pending_sends == pre.peers[peer].pending_sends.push(
                    pieces[0],
                )
            },
        },
        pieces.len() > 0 ==> (post.peers[peer].waker matches Some(kept) && cloned(waker, kept)),
        post.peers[peer] == (PeerView {
            pending_sends: post.peers[peer].pending_sends,
            waker: post.peers[peer].waker,
            ..pre.peers[peer]
        }),
        post == (ManagerView { peers: post.peers, ..pre }),
        post.peers.dom() == pre.peers.dom(),
    decreases pieces.len(),
{
    let before = pre.peers[peer].pending_sends;
    if pieces.len() == 0 {
        assert(before + pieces =~= before);
    } else {
        let (clone, between, result) = lemma_first_sent(
            pre,
            peer,
            pieces,
            waker,
            at,
            bind,
            policy,
            post,
            outcome,
        );
        law_send_waits_for_connection(pre, peer, pieces[0], clone, at, bind, between, result);
        if policy == QueuedPolicy::Accept {
            let rest = pieces.drop_first();
            lemma_waiting_transmit(between, peer, rest, waker, at, bind, policy, post, outcome);
            assert(before.push(pieces[0]) + rest =~= before + pieces);
        }
    }
}

/// While a connection is being set up, a transmit whose queued segments count as sent is
/// ready, and all its segments wait in order. One that waits is pending with its first
/// segment, and is tried again. Either way the sender is kept to be woken.
pub proof fn law_transmit_waits_for_connection<
    S,
    W: Clone,
    E,
    F: Fn() -> Result<(S, SocketAddr), E>,
>(
    pre: ManagerView<S, W>,
    peer: Seq<u8>,
    contents: Seq<u8>,
    segment_size: Option<usize>,
    waker: W,
    at: Instant,
    bind: F,
    policy: QueuedPolicy,
    post: ManagerView<S, W>,
    outcome: SendPollView<E>,
)
    requires
        segment_size matches Some(size) ==> size > 0,
        contents.len() > 0,
        segments_sent(
            pre,
            peer,
            segments(contents, size_of_segments(contents, segment_size)),
            waker,
            at,
            bind,
            policy,
            post,
            outcome,
        ),
        pre.peers.dom().contains(peer),
        pre.peers[peer].state == ConnectionState::Connecting,
    ensures
        exists|pieces: Seq<Seq<u8>>| #[trigger]
            is_cut(pieces, contents, segment_size) && post.peers[peer].pending_sends
                == pre.peers[peer].pending_sends + match policy {
                QueuedPolicy::Accept => pieces,
                QueuedPolicy::Wait => pieces.take(1),
            },
        segment_size is None ==> post.peers[peer].pending_sends
            == pre.peers[peer].pending_sends.push(contents),
        match policy {
            QueuedPolicy::Accept => outcome is Ready,
            QueuedPolicy::Wait => outcome is Pending,
        },
        post.peers[peer].waker matches Some(kept) && cloned(waker, kept),
        post.peers[peer].state == ConnectionState::Connecting,
        post.peers[peer].trace == pre.peers[peer].trace,
        post.peers.dom() == pre.peers.dom(),
        post.signaling == pre.signaling,
{
    let pieces = segments(contents, size_of_segments(contents, segment_size));
    law_transmit_is_cut_to_size(contents, segment_size);
    lemma_waiting_transmit(pre, peer, pieces, waker, at, bind, policy, post, outcome);
    assert(pieces.len() > 0);
    let before = pre.peers[peer].pending_sends;
    if policy == QueuedPolicy::Wait {
        assert(before.push(pieces[0]) =~= before + pieces.take(1));
    }
    if segment_size is None {
        assert(before + pieces =~= before.push(contents));
    }
}

/// A transmit to a peer without a connection, or with a closed one, starts one session,
/// however many segments it has. The segments wait for it in order, as the policy says. If
/// no socket can be bound the transmit fails.
pub proof fn law_transmit_starts_session<S, W: Clone, E, F: Fn() -> Result<(S, SocketAddr), E>>(
    pre: ManagerView<S, W>,
    peer: Seq<u8>,
    contents: Seq<u8>,
    segment_size: Option<usize>,
    waker: W,
    at: Instant,
    bind: F,
    policy: QueuedPolicy,
    post: ManagerView<S, W>,
    outcome: SendPollView<E>,
)
    requires
        segment_size matches Some(size) ==> size > 0,
        contents.len() > 0,
        segments_sent(
            pre,
            peer,
            segments(contents, size_of_segments(contents, segment_size)),
            waker,
            at,
            bind,
            policy,
            post,
            outcome,
        ),
        !pre.peers.dom().contains(peer) || pre.peers[peer].state == ConnectionState::Closed,
    ensures
        post.next_session_id == (pre.next_session_id + 1) % 0x1_0000_0000_0000_0000,
        !post.peers.dom().contains(peer) ==> {
            &&& outcome matches SendPollView::Failed(ConnectErrorView::Bind(e))
            &&& bind.ensures((), Err(e))
            &&& post.signaling == pre.signaling
        },
        post.peers.dom().contains(peer) ==> {
            &&& match policy {
                QueuedPolicy::Accept => outcome is Ready,
                QueuedPolicy::Wait => outcome is Pending,
            }
            &&& post.peers[peer].session_id == pre.next_session_id
            &&& post.peers[peer].state == ConnectionState::Connecting
            &&& post.peers[peer].waker matches Some(kept)
            &&& cloned(waker, kept)
            &&& post.signaling.len() == pre.signaling.len() + 1
            &&& post.signaling.drop_last() == pre.signaling
            &&& post.signaling.last().peer == peer
            &&& post.signaling.last().msg is Offer
            &&& exists|pieces: Seq<Seq<u8>>| #[trigger]
                is_cut(pieces, contents, segment_size) && post.peers[peer].pending_sends
                    == match policy {
                    QueuedPolicy::Accept => pieces,
                    QueuedPolicy::Wait => pieces.take(1),
                }
        },
{
    let pieces = segments(contents, size_of_segments(contents, segment_size));
    law_transmit_is_cut_to_size(contents, segment_size);
    assert(pieces.len() > 0);
    let (clone, between, result) = lemma_first_sent(
        pre,
        peer,
        pieces,
        waker,
        at,
        bind,
        policy,
        post,
        outcome,
    );
    law_send_starts_session(pre, peer, pieces[0], clone, at, bind, between, result);
    if between.peers.dom().contains(peer) {
        assert(between.signaling.drop_last() =~= pre.signaling);
        if policy == QueuedPolicy::Accept {
            let rest = pieces.drop_first();
            lemma_waiting_transmit(between, peer, rest, waker, at, bind, policy, post, outcome);
            assert(seq![pieces[0]] + rest =~= pieces);
            if rest.len() == 0 {
                assert(post == between);
            }
        } else {
            assert(seq![pieces[0]] =~= pieces.take(1));
        }
    }
}

} // verus!
