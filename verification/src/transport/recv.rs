//! Handing received datagrams out.
//!
//! The QUIC stack polls with a number of buffers. Datagrams that arrived fill one
//! buffer each, until the buffers or the datagrams run out.

use bytes::Bytes;
use vstd::prelude::*;

use crate::addr::{to_custom_addr, CustomAddr, EndpointId, WEBRTC_TRANSPORT_ID};
use crate::payload::{buffer_as_slice, buffer_contents};

verus! {

/// What the queue of received datagrams answers.
pub enum RecvEvent {
    /// A datagram arrived from a peer.
    Datagram(EndpointId, Bytes),
    /// No datagram will arrive any more.
    Closed,
    /// No datagram is there now.
    Idle,
}

/// What a [`RecvEvent`] says.
#[verifier::ext_equal]
pub enum RecvEventView {
    Datagram(Seq<u8>, Seq<u8>),
    Closed,
    Idle,
}

impl RecvEvent {
    /// What the event says.
    pub open spec fn view(&self) -> RecvEventView {
        match self {
            RecvEvent::Datagram(from, data) => RecvEventView::Datagram(
                from@,
                buffer_contents(*data),
            ),
            RecvEvent::Closed => RecvEventView::Closed,
            RecvEvent::Idle => RecvEventView::Idle,
        }
    }
}

/// How a poll ends.
#[derive(Debug, Clone, Copy, PartialEq, Eq, Structural)]
pub enum RecvOutcome {
    /// This many buffers were filled.
    Ready(usize),
    /// Nothing was received.
    Pending,
    /// No datagram will arrive any more.
    Closed,
}

/// A buffer that was filled.
pub struct FilledSlot {
    /// Length of the datagram, which is also the stride of the buffer: it holds
    /// one datagram.
    pub len: usize,
    /// The address of the peer that it came from.
    pub source: CustomAddr,
}

/// What to do next in a poll.
pub enum RecvStep {
    /// A buffer was filled; go on with the next one if there is one.
    Filled(FilledSlot),
    /// The poll ends.
    Done(RecvOutcome),
}

/// What is said of a buffer that was filled.
#[verifier::ext_equal]
pub struct FilledView {
    pub len: nat,
    pub transport: u64,
    pub source: Seq<u8>,
}

/// What a [`RecvStep`] says.
#[verifier::ext_equal]
pub enum RecvStepView {
    Filled(FilledView),
    Done(RecvOutcome),
}

impl RecvStep {
    /// What the step says.
    pub open spec fn view(&self) -> RecvStepView {
        match self {
            RecvStep::Filled(slot) => RecvStepView::Filled(
                FilledView {
                    len: slot.len as nat,
                    transport: slot.source.id,
                    source: slot.source.data@,
                },
            ),
            RecvStep::Done(outcome) => RecvStepView::Done(*outcome),
        }
    }
}

/// A poll in progress.
pub struct RecvPoll {
    slots: usize,
    filled: usize,
}

/// How a poll ends after some buffers were filled.
pub open spec fn outcome_of(filled: nat) -> RecvOutcome {
    if filled > 0 {
        RecvOutcome::Ready(filled as usize)
    } else {
        RecvOutcome::Pending
    }
}

/// What is said of a buffer that took a datagram of a peer.
pub open spec fn filled_by(from: Seq<u8>, data: Seq<u8>) -> FilledView {
    FilledView { len: data.len(), transport: WEBRTC_TRANSPORT_ID, source: from }
}

/// A buffer that took a datagram: it begins with it.
pub open spec fn holding(buf: Seq<u8>, data: Seq<u8>) -> Seq<u8> {
    data + buf.skip(data.len() as int)
}

/// What an answer of the queue does, after some buffers were filled: how many are
/// filled then, what the next buffer holds, and what to do next.
pub open spec fn stepped(filled: nat, event: RecvEventView, buf: Seq<u8>) -> (
    nat,
    Seq<u8>,
    RecvStepView,
) {
    match event {
        RecvEventView::Datagram(from, data) => if data.len() <= buf.len() {
            (filled + 1, holding(buf, data), RecvStepView::Filled(filled_by(from, data)))
        } else {
            (filled, buf, RecvStepView::Done(outcome_of(filled)))
        },
        RecvEventView::Closed => (filled, buf, RecvStepView::Done(RecvOutcome::Closed)),
        RecvEventView::Idle => (filled, buf, RecvStepView::Done(outcome_of(filled))),
    }
}

impl RecvPoll {
    /// The number of buffers.
    pub closed spec fn slots(&self) -> nat {
        self.slots as nat
    }

    /// The number of buffers that were filled.
    pub closed spec fn filled(&self) -> nat {
        self.filled as nat
    }

    /// No more buffers were filled than there are.
    pub closed spec fn wf(&self) -> bool {
        self.filled <= self.slots
    }

    /// Starts a poll with this many buffers. Without a buffer there is nothing to do:
    /// the poll is over before the connections are driven.
    pub fn start(slots: usize) -> (poll: Result<RecvPoll, RecvOutcome>)
        ensures
            match poll {
                Ok(poll) => {
                    &&& slots > 0
                    &&& poll.wf()
                    &&& poll.slots() == slots
                    &&& poll.filled() == 0
                },
                Err(outcome) => slots == 0 && outcome == RecvOutcome::Ready(0),
            },
    {
        if slots == 0 {
            Err(RecvOutcome::Ready(0))
        } else {
            Ok(RecvPoll { slots, filled: 0 })
        }
    }

    /// Which buffer is filled next; `None` if all are filled.
    pub fn next_slot(&self) -> (slot: Option<usize>)
        requires
            self.wf(),
        ensures
            match slot {
                Some(slot) => slot == self.filled() && slot < self.slots(),
                None => self.filled() == self.slots(),
            },
    {
        if self.filled < self.slots {
            Some(self.filled)
        } else {
            None
        }
    }

    /// How the poll ends once all buffers are filled.
    pub fn finish(&self) -> (outcome: RecvOutcome)
        requires
            self.wf(),
        ensures
            outcome == outcome_of(self.filled()),
    {
        if self.filled > 0 {
            RecvOutcome::Ready(self.filled)
        } else {
            RecvOutcome::Pending
        }
    }

    /// Takes what the queue answered, with the buffer that is filled next.
    ///
    /// A datagram that does not fit its buffer is dropped, and the poll ends with
    /// what was filled before.
    pub fn step(&mut self, event: RecvEvent, buf: &mut [u8]) -> (step: RecvStep)
        requires
            old(self).wf(),
            old(self).filled() < old(self).slots(),
        ensures
            final(self).wf(),
            final(self).slots() == old(self).slots(),
            final(buf)@.len() == old(buf)@.len(),
            (final(self).filled(), final(buf)@, step@) == stepped(
                old(self).filled(),
                event@,
                old(buf)@,
            ),
    {
        match event {
            RecvEvent::Datagram(from, data) => {
                let bytes = buffer_as_slice(&data);
                if buf.len() < bytes.len() {
                    return RecvStep::Done(self.finish());
                }
                copy_into(buf, bytes);
                self.filled = self.filled + 1;
                RecvStep::Filled(FilledSlot { len: bytes.len(), source: to_custom_addr(from) })
            },
            RecvEvent::Closed => RecvStep::Done(RecvOutcome::Closed),
            RecvEvent::Idle => RecvStep::Done(self.finish()),
        }
    }
}

impl RecvOutcome {
    /// What a poll that found the queue closed is told.
    pub fn closed_message() -> (text: String)
        ensures
            text@ == "datagram channel closed"@,
    {
        "datagram channel closed".to_owned()
    }
}

/// Copies a datagram to the front of a buffer.
fn copy_into(buf: &mut [u8], data: &[u8])
    requires
        data@.len() <= old(buf)@.len(),
    ensures
        final(buf)@ == holding(old(buf)@, data@),
{
    let mut i: usize = 0;
    while i < data.len()
        invariant
            i <= data@.len(),
            data@.len() <= buf@.len(),
            buf@.len() == old(buf)@.len(),
            forall|j: int| 0 <= j < i ==> buf@[j] == data@[j],
            forall|j: int| i <= j < buf@.len() ==> buf@[j] == old(buf)@[j],
        decreases data.len() - i,
    {
        buf[i] = data[i];
        i = i + 1;
    }
    assert(buf@ =~= holding(old(buf)@, data@));
}

// ---------------------------------------------------------------------------
// A whole poll
// ---------------------------------------------------------------------------

/// A datagram in the queue, with the peer that it came from.
#[verifier::ext_equal]
pub struct QueuedView {
    pub from: Seq<u8>,
    pub data: Seq<u8>,
}

/// What the queue answers: the datagram that came first, if there is one.
pub open spec fn queue_answer(queue: Seq<QueuedView>, closed: bool) -> RecvEventView {
    if queue.len() > 0 {
        RecvEventView::Datagram(queue[0].from, queue[0].data)
    } else if closed {
        RecvEventView::Closed
    } else {
        RecvEventView::Idle
    }
}

/// The queue once it has answered.
pub open spec fn queue_rest(queue: Seq<QueuedView>) -> Seq<QueuedView> {
    if queue.len() > 0 {
        queue.drop_first()
    } else {
        queue
    }
}

/// How a poll ended: what the buffers hold, what is said of those that were filled,
/// what is left in the queue, and the outcome.
#[verifier::ext_equal]
pub struct PollView {
    pub bufs: Seq<Seq<u8>>,
    pub filled: Seq<FilledView>,
    pub left: Seq<QueuedView>,
    pub outcome: RecvOutcome,
}

/// A poll that goes on once `filled` buffers were filled: as long as there is a next
/// buffer, the queue is asked, and its answer is taken.
pub open spec fn poll_run(
    bufs: Seq<Seq<u8>>,
    filled: nat,
    queue: Seq<QueuedView>,
    closed: bool,
) -> PollView
    decreases bufs.len() - filled,
{
    if filled >= bufs.len() {
        PollView { bufs, filled: Seq::empty(), left: queue, outcome: outcome_of(filled) }
    } else {
        let (count, contents, step) = stepped(
            filled,
            queue_answer(queue, closed),
            bufs[filled as int],
        );
        let after = bufs.update(filled as int, contents);
        match step {
            RecvStepView::Filled(slot) => {
                let rest = poll_run(after, filled + 1, queue_rest(queue), closed);
                PollView { filled: seq![slot] + rest.filled, ..rest }
            },
            RecvStepView::Done(outcome) => PollView {
                bufs: after,
                filled: Seq::empty(),
                left: queue_rest(queue),
                outcome,
            },
        }
    }
}

/// The first `n` datagrams of a queue each fit their buffer, which are those from
/// `start` on.
pub open spec fn fit(bufs: Seq<Seq<u8>>, start: nat, queue: Seq<QueuedView>, n: nat) -> bool {
    forall|i: int| 0 <= i < n ==> (#[trigger] queue[i]).data.len() <= bufs[start + i].len()
}

/// The buffers after the first `n` datagrams of a queue filled one each, from `start`
/// on.
pub open spec fn bufs_after(
    bufs: Seq<Seq<u8>>,
    start: nat,
    queue: Seq<QueuedView>,
    n: nat,
) -> Seq<Seq<u8>> {
    Seq::new(
        bufs.len(),
        |i: int|
            if start <= i < start + n {
                holding(bufs[i], queue[i - start].data)
            } else {
                bufs[i]
            },
    )
}

/// What is said of the buffers that the first `n` datagrams of a queue filled.
pub open spec fn slots_after(queue: Seq<QueuedView>, n: nat) -> Seq<FilledView> {
    Seq::new(n, |i: int| filled_by(queue[i].from, queue[i].data))
}

proof fn lemma_poll_fills(
    bufs: Seq<Seq<u8>>,
    start: nat,
    queue: Seq<QueuedView>,
    closed: bool,
    n: nat,
)
    requires
        n <= queue.len(),
        start + n <= bufs.len(),
        fit(bufs, start, queue, n),
    ensures
        poll_run(bufs, start, queue, closed) == ({
            let rest = poll_run(
                bufs_after(bufs, start, queue, n),
                start + n,
                queue.skip(n as int),
                closed,
            );
            PollView { filled: slots_after(queue, n) + rest.filled, ..rest }
        }),
    decreases n,
{
    let filled = bufs_after(bufs, start, queue, n);
    let rest = poll_run(filled, start + n, queue.skip(n as int), closed);
    if n == 0 {
        assert(filled =~= bufs);
        assert(queue.skip(0) =~= queue);
        assert(slots_after(queue, 0) + rest.filled =~= rest.filled);
    } else {
        assert(queue[0].data.len() <= bufs[start as int].len());
        let less = (n - 1) as nat;
        let after = bufs.update(start as int, holding(bufs[start as int], queue[0].data));
        let tail = queue.drop_first();
        assert forall|i: int| 0 <= i < less implies (#[trigger] tail[i]).data.len() <= after[start
            + 1 + i].len() by {
            assert(tail[i] == queue[i + 1]);
        }
        lemma_poll_fills(after, start + 1, tail, closed, less);
        assert(bufs_after(after, start + 1, tail, less) =~= filled);
        assert(tail.skip(less as int) =~= queue.skip(n as int));
        let first = filled_by(queue[0].from, queue[0].data);
        assert(seq![first] + (slots_after(tail, less) + rest.filled) =~= slots_after(queue, n)
            + rest.filled);
    }
}

/// Datagrams that fit fill the buffers from the first on, one each and in the order in
/// which they arrived, until the buffers or the datagrams run out. No other datagram
/// is taken, and no other buffer is touched. A poll that ran out of datagrams tells
/// whether the queue is closed.
pub proof fn law_poll_fills_in_order(bufs: Seq<Seq<u8>>, queue: Seq<QueuedView>, closed: bool)
    requires
        bufs.len() > 0,
        forall|i: int|
            0 <= i < queue.len() && i < bufs.len() ==> (#[trigger] queue[i]).data.len()
                <= bufs[i].len(),
    ensures
        ({
            let n = if queue.len() < bufs.len() {
                queue.len()
            } else {
                bufs.len()
            };
            poll_run(bufs, 0, queue, closed) == (PollView {
                bufs: bufs_after(bufs, 0, queue, n),
                filled: slots_after(queue, n),
                left: queue.skip(n as int),
                outcome: if queue.len() < bufs.len() && closed {
                    RecvOutcome::Closed
                } else {
                    outcome_of(n)
                },
            })
        }),
{
    let n = if queue.len() < bufs.len() {
        queue.len()
    } else {
        bufs.len()
    };
    lemma_poll_fills(bufs, 0, queue, closed, n);
    let filled = bufs_after(bufs, 0, queue, n);
    let left = queue.skip(n as int);
    assert(slots_after(queue, n) + Seq::empty() =~= slots_after(queue, n));
    if n < bufs.len() {
        assert(filled.update(n as int, filled[n as int]) =~= filled);
    }
}

/// The first datagram that does not fit its buffer ends the poll. Those before it fill
/// one buffer each; it is dropped itself, and what came after it stays in the queue.
pub proof fn law_poll_ends_at_oversized(
    bufs: Seq<Seq<u8>>,
    queue: Seq<QueuedView>,
    closed: bool,
    n: nat,
)
    requires
        n < bufs.len(),
        n < queue.len(),
        fit(bufs, 0, queue, n),
        queue[n as int].data.len() > bufs[n as int].len(),
    ensures
        poll_run(bufs, 0, queue, closed) == (PollView {
            bufs: bufs_after(bufs, 0, queue, n),
            filled: slots_after(queue, n),
            left: queue.skip(n as int + 1),
            outcome: outcome_of(n),
        }),
{
    lemma_poll_fills(bufs, 0, queue, closed, n);
    let filled = bufs_after(bufs, 0, queue, n);
    let left = queue.skip(n as int);
    assert(left[0] == queue[n as int]);
    assert(left.drop_first() =~= queue.skip(n as int + 1));
    assert(filled.update(n as int, filled[n as int]) =~= filled);
    assert(slots_after(queue, n) + Seq::empty() =~= slots_after(queue, n));
}

/// A datagram that fits its buffer is copied to the front of it, and the rest of the
/// buffer is left alone; its length and the address of its sender are told. One that does
/// not fit, an empty queue and a closed one leave the buffer alone and end the poll: with
/// the buffers that are filled if there are any, as pending if there are none, and as
/// closed if the queue is.
pub proof fn law_step_copies_datagram(
    filled: nat,
    from: Seq<u8>,
    data: Seq<u8>,
    buf: Seq<u8>,
)
    requires
        filled <= usize::MAX,
    ensures
        ({
            let ended = RecvStepView::Done(
                if filled == 0 {
                    RecvOutcome::Pending
                } else {
                    RecvOutcome::Ready(filled as usize)
                },
            );
            let (count, contents, step) = stepped(
                filled,
                RecvEventView::Datagram(from, data),
                buf,
            );
            &&& data.len() <= buf.len() ==> {
                &&& count == filled + 1
                &&& contents.len() == buf.len()
                &&& contents.take(data.len() as int) == data
                &&& contents.skip(data.len() as int) == buf.skip(data.len() as int)
                &&& step matches RecvStepView::Filled(slot)
                &&& slot.len == data.len()
                &&& slot.transport == WEBRTC_TRANSPORT_ID
                &&& slot.source == from
            }
            &&& data.len() > buf.len() ==> {
                &&& count == filled
                &&& contents == buf
                &&& step == ended
            }
            &&& stepped(filled, RecvEventView::Idle, buf) == (filled, buf, ended)
            &&& stepped(filled, RecvEventView::Closed, buf) == (
                filled,
                buf,
                RecvStepView::Done(RecvOutcome::Closed),
            )
        }),
{
    if data.len() <= buf.len() {
        let contents = stepped(filled, RecvEventView::Datagram(from, data), buf).1;
        assert(contents.take(data.len() as int) =~= data);
        assert(contents.skip(data.len() as int) =~= buf.skip(data.len() as int));
    }
}

/// Of a queue of datagrams that fit, a poll takes as many as there are buffers and leaves
/// the others. Each buffer begins with its datagram, whose length and sender are told in
/// the same place; buffers without a datagram are left alone. The poll is ready with as
/// many as it took, pending if it took none, and closed if it found the queue so.
pub proof fn law_poll_hands_datagrams_out(
    bufs: Seq<Seq<u8>>,
    queue: Seq<QueuedView>,
    closed: bool,
)
    requires
        0 < bufs.len() <= usize::MAX,
        forall|i: int|
            0 <= i < queue.len() && i < bufs.len() ==> (#[trigger] queue[i]).data.len()
                <= bufs[i].len(),
    ensures
        ({
            let n = if queue.len() < bufs.len() {
                queue.len() as int
            } else {
                bufs.len() as int
            };
            let end = poll_run(bufs, 0, queue, closed);
            &&& end.left == queue.skip(n)
            &&& end.filled.len() == n
            &&& end.bufs.len() == bufs.len()
            &&& forall|i: int|
                0 <= i < n ==> {
                    let data = queue[i].data;
                    &&& (#[trigger] end.bufs[i]).len() == bufs[i].len()
                    &&& end.bufs[i].take(data.len() as int) == data
                    &&& end.bufs[i].skip(data.len() as int) == bufs[i].skip(data.len() as int)
                    &&& end.filled[i].len == data.len()
                    &&& end.filled[i].transport == WEBRTC_TRANSPORT_ID
                    &&& end.filled[i].source == queue[i].from
                }
            &&& forall|i: int| n <= i < bufs.len() ==> #[trigger] end.bufs[i] == bufs[i]
            &&& end.outcome == if queue.len() < bufs.len() && closed {
                RecvOutcome::Closed
            } else if queue.len() == 0 {
                RecvOutcome::Pending
            } else {
                RecvOutcome::Ready(n as usize)
            }
        }),
{
    law_poll_fills_in_order(bufs, queue, closed);
    let n = if queue.len() < bufs.len() {
        queue.len() as int
    } else {
        bufs.len() as int
    };
    let end = poll_run(bufs, 0, queue, closed);
    assert forall|i: int| 0 <= i < n implies {
        let data = queue[i].data;
        &&& (#[trigger] end.bufs[i]).len() == bufs[i].len()
        &&& end.bufs[i].take(data.len() as int) == data
        &&& end.bufs[i].skip(data.len() as int) == bufs[i].skip(data.len() as int)
        &&& end.filled[i].len == data.len()
        &&& end.filled[i].transport == WEBRTC_TRANSPORT_ID
        &&& end.filled[i].source == queue[i].from
    } by {
        let data = queue[i].data;
        assert(end.bufs[i] == holding(bufs[i], data));
        assert(end.bufs[i].take(data.len() as int) =~= data);
        assert(end.bufs[i].skip(data.len() as int) =~= bufs[i].skip(data.len() as int));
    }
}

} // verus!
