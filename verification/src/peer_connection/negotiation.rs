//! Negotiation with the browser's promises.
//!
//! The browser sets descriptions and creates offers and answers asynchronously.
//! Each negotiation is a chain of such steps; what comes next is decided here, from
//! how the last step ended.

use vstd::prelude::*;

use crate::addr::EndpointId;
use crate::peer_connection::browser::{
    buffer_opened, candidate_view, candidate_views, CandidateBuffer, CandidateBufferView,
};
use crate::signaling::{SignalingEnvelope, SignalingEnvelopeView, SignalingMsg, SignalingMsgView};

verus! {

/// What is negotiated.
#[derive(Debug, Clone, Copy, PartialEq, Eq, Structural)]
pub enum Task {
    /// Make an offer.
    Offer,
    /// Answer the offer of the peer.
    Answer,
    /// Take the answer of the peer to our offer.
    TakeAnswer,
}

/// How a step ended.
pub enum Outcome {
    /// The browser did what it was asked.
    Done,
    /// The browser created a description with this text.
    Created(String),
    /// The browser failed, or created a description without text.
    Failed,
}

/// What an [`Outcome`] says.
#[verifier::ext_equal]
pub enum OutcomeView {
    Done,
    Created(Seq<char>),
    Failed,
}

impl Outcome {
    /// What the outcome says.
    pub open spec fn view(&self) -> OutcomeView {
        match self {
            Outcome::Done => OutcomeView::Done,
            Outcome::Created(sdp) => OutcomeView::Created(sdp@),
            Outcome::Failed => OutcomeView::Failed,
        }
    }
}

/// What to do next.
pub enum Action {
    /// Set the remote description to the offer or answer with this text.
    SetRemote(String),
    /// Add a remote candidate.
    AddCandidate(String, Option<String>),
    /// Create an offer or answer.
    Create,
    /// Set the local description to the offer or answer with this text.
    SetLocal(String),
    /// Send a signaling message. Nothing comes after.
    Send(SignalingEnvelope),
    /// Nothing any more.
    Stop,
}

/// What an [`Action`] says.
#[verifier::ext_equal]
pub enum ActionView {
    SetRemote(Seq<char>),
    AddCandidate(Seq<char>, Option<Seq<char>>),
    Create,
    SetLocal(Seq<char>),
    Send(SignalingEnvelopeView),
    Stop,
}

impl Action {
    /// What the action says.
    pub open spec fn view(&self) -> ActionView {
        match self {
            Action::SetRemote(sdp) => ActionView::SetRemote(sdp@),
            Action::AddCandidate(candidate, sdp_mid) => {
                let (candidate, sdp_mid) = candidate_view((*candidate, *sdp_mid));
                ActionView::AddCandidate(candidate, sdp_mid)
            },
            Action::Create => ActionView::Create,
            Action::SetLocal(sdp) => ActionView::SetLocal(sdp@),
            Action::Send(envelope) => ActionView::Send(envelope@),
            Action::Stop => ActionView::Stop,
        }
    }
}

/// Which step the browser is at.
enum Phase {
    SettingRemote,
    Adding(Vec<(String, Option<String>)>),
    Creating,
    SettingLocal(String),
    Over,
}

/// What is known of the step that the browser is at.
#[verifier::ext_equal]
pub enum PhaseView {
    /// The remote description is being set.
    SettingRemote,
    /// A remote candidate is being added, and these are left.
    Adding(Seq<(Seq<char>, Option<Seq<char>>)>),
    /// An offer or answer is being created.
    Creating,
    /// The local description is being set to this text.
    SettingLocal(Seq<char>),
    /// The negotiation is over.
    Over,
}

/// A negotiation in progress.
pub struct Negotiation {
    task: Task,
    peer: EndpointId,
    session_id: u64,
    phase: Phase,
}

/// What is known of a [`Negotiation`].
#[verifier::ext_equal]
pub struct NegotiationView {
    /// What is negotiated.
    pub task: Task,
    /// With whom.
    pub peer: Seq<u8>,
    /// In which session.
    pub session_id: u64,
    /// Which step the browser is at.
    pub phase: PhaseView,
}

/// The message that carries what was negotiated.
pub open spec fn result_message(
    negotiation: NegotiationView,
    sdp: Seq<char>,
) -> SignalingEnvelopeView {
    let session_id = negotiation.session_id;
    SignalingEnvelopeView {
        peer: negotiation.peer,
        msg: if negotiation.task == Task::Offer {
            SignalingMsgView::Offer { session_id, sdp }
        } else {
            SignalingMsgView::Answer { session_id, sdp }
        },
    }
}

/// A negotiation at another step.
pub open spec fn at_phase(negotiation: NegotiationView, phase: PhaseView) -> NegotiationView {
    NegotiationView { phase, ..negotiation }
}

/// What comes after the remote description was set, with the candidates that are
/// left to be added: each of them, then the answer, if one is to be made.
pub open spec fn with_candidates(
    negotiation: NegotiationView,
    left: Seq<(Seq<char>, Option<Seq<char>>)>,
) -> (NegotiationView, ActionView) {
    if left.len() > 0 {
        (
            at_phase(negotiation, PhaseView::Adding(left.drop_first())),
            ActionView::AddCandidate(left[0].0, left[0].1),
        )
    } else if negotiation.task == Task::Answer {
        (at_phase(negotiation, PhaseView::Creating), ActionView::Create)
    } else {
        (at_phase(negotiation, PhaseView::Over), ActionView::Stop)
    }
}

/// What comes after a step, given how it ended. A candidate that could not be added
/// is passed over; any other failure ends the negotiation.
pub open spec fn next_step(
    negotiation: NegotiationView,
    buffer: CandidateBufferView,
    outcome: OutcomeView,
) -> (NegotiationView, CandidateBufferView, ActionView) {
    let over = (at_phase(negotiation, PhaseView::Over), buffer, ActionView::Stop);
    match negotiation.phase {
        PhaseView::SettingRemote => if outcome is Done {
            let (opened, held) = buffer_opened(buffer);
            let (next, action) = with_candidates(negotiation, held);
            (next, opened, action)
        } else {
            over
        },
        PhaseView::Adding(left) => {
            let (next, action) = with_candidates(negotiation, left);
            (next, buffer, action)
        },
        PhaseView::Creating => match outcome {
            OutcomeView::Created(sdp) => (
                at_phase(negotiation, PhaseView::SettingLocal(sdp)),
                buffer,
                ActionView::SetLocal(sdp),
            ),
            _ => over,
        },
        PhaseView::SettingLocal(sdp) => if outcome is Done {
            (
                at_phase(negotiation, PhaseView::Over),
                buffer,
                ActionView::Send(result_message(negotiation, sdp)),
            )
        } else {
            over
        },
        PhaseView::Over => over,
    }
}

impl Negotiation {
    /// What is known of the negotiation.
    pub closed spec fn view(&self) -> NegotiationView {
        NegotiationView {
            task: self.task,
            peer: self.peer@,
            session_id: self.session_id,
            phase: match self.phase {
                Phase::SettingRemote => PhaseView::SettingRemote,
                Phase::Adding(left) => PhaseView::Adding(candidate_views(left@)),
                Phase::Creating => PhaseView::Creating,
                Phase::SettingLocal(sdp) => PhaseView::SettingLocal(sdp@),
                Phase::Over => PhaseView::Over,
            },
        }
    }

    /// Starts to make an offer.
    pub fn offer(peer: EndpointId, session_id: u64) -> (started: (Negotiation, Action))
        ensures
            started.0@ == (NegotiationView {
                task: Task::Offer,
                peer: peer@,
                session_id,
                phase: PhaseView::Creating,
            }),
            started.1@ == ActionView::Create,
    {
        (
            Negotiation { task: Task::Offer, peer, session_id, phase: Phase::Creating },
            Action::Create,
        )
    }

    /// Starts to answer the offer of a peer.
    pub fn answer(peer: EndpointId, session_id: u64, sdp: &str) -> (started: (Negotiation, Action))
        ensures
            started.0@ == (NegotiationView {
                task: Task::Answer,
                peer: peer@,
                session_id,
                phase: PhaseView::SettingRemote,
            }),
            started.1@ == ActionView::SetRemote(sdp@),
    {
        (
            Negotiation { task: Task::Answer, peer, session_id, phase: Phase::SettingRemote },
            Action::SetRemote(sdp.to_owned()),
        )
    }

    /// Starts to take the answer of a peer.
    pub fn take_answer(peer: EndpointId, session_id: u64, sdp: &str) -> (started: (
        Negotiation,
        Action,
    ))
        ensures
            started.0@ == (NegotiationView {
                task: Task::TakeAnswer,
                peer: peer@,
                session_id,
                phase: PhaseView::SettingRemote,
            }),
            started.1@ == ActionView::SetRemote(sdp@),
    {
        (
            Negotiation { task: Task::TakeAnswer, peer, session_id, phase: Phase::SettingRemote },
            Action::SetRemote(sdp.to_owned()),
        )
    }

    /// Goes on to the next candidate, or past the last one.
    fn go_on(&mut self, candidates: Vec<(String, Option<String>)>) -> (action: Action)
        ensures
            (final(self)@, action@) == with_candidates(old(self)@, candidate_views(candidates@)),
    {
        let mut candidates = candidates;
        let ghost left = candidate_views(candidates@);
        if candidates.len() > 0 {
            let (candidate, sdp_mid) = candidates.remove(0);
            proof {
                assert(candidate_views(candidates@) =~= left.drop_first());
                assert(left[0] == candidate_view((candidate, sdp_mid)));
            }
            self.phase = Phase::Adding(candidates);
            Action::AddCandidate(candidate, sdp_mid)
        } else if self.task == Task::Answer {
            self.phase = Phase::Creating;
            Action::Create
        } else {
            self.phase = Phase::Over;
            Action::Stop
        }
    }

    /// Takes how the last step ended, and says what comes next. `buffer` holds the
    /// candidates of the peer back until the remote description is set.
    pub fn step(&mut self, buffer: &mut CandidateBuffer, outcome: Outcome) -> (action: Action)
        ensures
            (final(self)@, final(buffer)@, action@) == next_step(
                old(self)@,
                old(buffer)@,
                outcome@,
            ),
    {
        let mut phase = Phase::Over;
        std::mem::swap(&mut phase, &mut self.phase);
        match phase {
            Phase::SettingRemote => match outcome {
                Outcome::Done => {
                    let held = buffer.open();
                    self.go_on(held)
                },
                _ => Action::Stop,
            },
            Phase::Adding(left) => self.go_on(left),
            Phase::Creating => match outcome {
                Outcome::Created(sdp) => {
                    self.phase = Phase::SettingLocal(sdp.clone());
                    Action::SetLocal(sdp)
                },
                _ => Action::Stop,
            },
            Phase::SettingLocal(sdp) => match outcome {
                Outcome::Done => {
                    let session_id = self.session_id;
                    let msg = if self.task == Task::Offer {
                        SignalingMsg::Offer { session_id, sdp }
                    } else {
                        SignalingMsg::Answer { session_id, sdp }
                    };
                    Action::Send(SignalingEnvelope { peer: self.peer, msg })
                },
                _ => Action::Stop,
            },
            Phase::Over => Action::Stop,
        }
    }
}

/// The actions that a negotiation takes as its steps end one after the other.
pub open spec fn actions(
    negotiation: NegotiationView,
    buffer: CandidateBufferView,
    outcomes: Seq<OutcomeView>,
) -> Seq<ActionView>
    decreases outcomes.len(),
{
    if outcomes.len() == 0 {
        Seq::empty()
    } else {
        let (next, next_buffer, action) = next_step(negotiation, buffer, outcomes[0]);
        seq![action] + actions(next, next_buffer, outcomes.drop_first())
    }
}

/// The actions that add candidates.
pub open spec fn additions(candidates: Seq<(Seq<char>, Option<Seq<char>>)>) -> Seq<ActionView> {
    candidates.map_values(
        |candidate: (Seq<char>, Option<Seq<char>>)| ActionView::AddCandidate(
            candidate.0,
            candidate.1,
        ),
    )
}

/// A negotiation that is over stays over: nothing is done or sent any more.
pub proof fn law_over_is_final(
    negotiation: NegotiationView,
    buffer: CandidateBufferView,
    outcome: OutcomeView,
)
    requires
        negotiation.phase is Over,
    ensures
        next_step(negotiation, buffer, outcome) == (negotiation, buffer, ActionView::Stop),
{
}

/// When a negotiation sends its result it is over, so a result is sent once at most.
pub proof fn law_result_sent_once(
    negotiation: NegotiationView,
    buffer: CandidateBufferView,
    outcome: OutcomeView,
)
    requires
        next_step(negotiation, buffer, outcome).2 is Send,
    ensures
        next_step(negotiation, buffer, outcome).0.phase is Over,
        negotiation.phase is SettingLocal,
        outcome is Done,
{
}

proof fn lemma_adding_run(
    negotiation: NegotiationView,
    buffer: CandidateBufferView,
    left: Seq<(Seq<char>, Option<Seq<char>>)>,
    added: Seq<OutcomeView>,
    sdp: Seq<char>,
)
    requires
        negotiation.task == Task::Answer,
        negotiation.phase == PhaseView::Adding(left),
        added.len() == left.len() + 1,
    ensures
        actions(negotiation, buffer, added + seq![OutcomeView::Created(sdp), OutcomeView::Done])
            == additions(left) + seq![
            ActionView::Create,
            ActionView::SetLocal(sdp),
            ActionView::Send(result_message(negotiation, sdp)),
        ],
    decreases left.len(),
{
    let last = seq![OutcomeView::Created(sdp), OutcomeView::Done];
    let outcomes = added + last;
    let (next, next_buffer, action) = next_step(negotiation, buffer, outcomes[0]);
    assert(outcomes.drop_first() =~= added.drop_first() + last);
    if left.len() > 0 {
        lemma_adding_run(next, buffer, left.drop_first(), added.drop_first(), sdp);
        assert(seq![action] + additions(left.drop_first()) =~= additions(left));
        assert(actions(negotiation, buffer, outcomes) =~= additions(left) + seq![
            ActionView::Create,
            ActionView::SetLocal(sdp),
            ActionView::Send(result_message(negotiation, sdp)),
        ]);
    } else {
        assert(added.drop_first() + last =~= last);
        lemma_creating_run(next, buffer, sdp);
        assert(actions(negotiation, buffer, outcomes) =~= additions(left) + seq![
            ActionView::Create,
            ActionView::SetLocal(sdp),
            ActionView::Send(result_message(negotiation, sdp)),
        ]);
    }
}

proof fn lemma_creating_run(
    negotiation: NegotiationView,
    buffer: CandidateBufferView,
    sdp: Seq<char>,
)
    requires
        negotiation.phase is Creating,
    ensures
        actions(negotiation, buffer, seq![OutcomeView::Created(sdp), OutcomeView::Done]) == seq![
            ActionView::SetLocal(sdp),
            ActionView::Send(result_message(negotiation, sdp)),
        ],
{
    let outcomes = seq![OutcomeView::Created(sdp), OutcomeView::Done];
    let (local, _, _) = next_step(negotiation, buffer, outcomes[0]);
    let rest = outcomes.drop_first();
    assert(rest =~= seq![OutcomeView::Done]);
    let (over, _, _) = next_step(local, buffer, rest[0]);
    assert(rest.drop_first() =~= Seq::empty());
    assert(actions(over, buffer, rest.drop_first()) =~= Seq::empty());
    assert(actions(local, buffer, rest) =~= seq![
        ActionView::Send(result_message(negotiation, sdp)),
    ]);
    assert(actions(negotiation, buffer, outcomes) =~= seq![
        ActionView::SetLocal(sdp),
        ActionView::Send(result_message(negotiation, sdp)),
    ]);
}

/// Answering an offer adds every candidate that was held back, in order, whether or
/// not each is accepted, before the answer is created, and then sends the answer in
/// the session of the offer.
pub proof fn law_answer_run(
    peer: Seq<u8>,
    session_id: u64,
    buffer: CandidateBufferView,
    added: Seq<OutcomeView>,
    sdp: Seq<char>,
)
    requires
        added.len() == buffer.pending.len(),
    ensures
        actions(
            NegotiationView {
                task: Task::Answer,
                peer,
                session_id,
                phase: PhaseView::SettingRemote,
            },
            buffer,
            seq![OutcomeView::Done] + added + seq![OutcomeView::Created(sdp), OutcomeView::Done],
        ) == additions(buffer.pending) + seq![
            ActionView::Create,
            ActionView::SetLocal(sdp),
            ActionView::Send(
                SignalingEnvelopeView { peer, msg: SignalingMsgView::Answer { session_id, sdp } },
            ),
        ],
{
    let start = NegotiationView {
        task: Task::Answer,
        peer,
        session_id,
        phase: PhaseView::SettingRemote,
    };
    let last = seq![OutcomeView::Created(sdp), OutcomeView::Done];
    let outcomes = seq![OutcomeView::Done] + added + last;
    let (next, opened, action) = next_step(start, buffer, outcomes[0]);
    assert(outcomes.drop_first() =~= added + last);
    let end = seq![
        ActionView::Create,
        ActionView::SetLocal(sdp),
        ActionView::Send(result_message(start, sdp)),
    ];
    if buffer.pending.len() > 0 {
        lemma_adding_run(next, opened, buffer.pending.drop_first(), added, sdp);
        assert(seq![action] + additions(buffer.pending.drop_first()) =~= additions(buffer.pending));
    } else {
        assert(added + last =~= last);
        lemma_creating_run(next, opened, sdp);
    }
    assert(actions(start, buffer, outcomes) =~= additions(buffer.pending) + end);
}

/// A negotiation and its buffer after its steps ended one after the other.
pub open spec fn run(
    negotiation: NegotiationView,
    buffer: CandidateBufferView,
    outcomes: Seq<OutcomeView>,
) -> (NegotiationView, CandidateBufferView)
    decreases outcomes.len(),
{
    if outcomes.len() == 0 {
        (negotiation, buffer)
    } else {
        let (next, next_buffer, _) = next_step(negotiation, buffer, outcomes[0]);
        run(next, next_buffer, outcomes.drop_first())
    }
}

proof fn lemma_actions_add(
    negotiation: NegotiationView,
    buffer: CandidateBufferView,
    first: Seq<OutcomeView>,
    second: Seq<OutcomeView>,
)
    ensures
        actions(negotiation, buffer, first).len() == first.len(),
        actions(negotiation, buffer, first + second) == actions(negotiation, buffer, first)
            + actions(
            run(negotiation, buffer, first).0,
            run(negotiation, buffer, first).1,
            second,
        ),
        run(negotiation, buffer, first + second) == run(
            run(negotiation, buffer, first).0,
            run(negotiation, buffer, first).1,
            second,
        ),
    decreases first.len(),
{
    let state = run(negotiation, buffer, first);
    let then = actions(state.0, state.1, second);
    if first.len() == 0 {
        assert(first + second =~= second);
        assert(actions(negotiation, buffer, first) + then =~= then);
    } else {
        let (next, next_buffer, action) = next_step(negotiation, buffer, first[0]);
        assert((first + second).drop_first() =~= first.drop_first() + second);
        lemma_actions_add(next, next_buffer, first.drop_first(), second);
        let rest = actions(next, next_buffer, first.drop_first());
        assert(seq![action] + (rest + then) =~= (seq![action] + rest) + then);
    }
}

proof fn lemma_adding(
    negotiation: NegotiationView,
    buffer: CandidateBufferView,
    left: Seq<(Seq<char>, Option<Seq<char>>)>,
    added: Seq<OutcomeView>,
)
    requires
        negotiation.phase == PhaseView::Adding(left),
        added.len() == left.len(),
    ensures
        forall|i: int|
            0 <= i < left.len() ==> #[trigger] actions(negotiation, buffer, added)[i]
                == ActionView::AddCandidate(left[i].0, left[i].1),
        run(negotiation, buffer, added) == (
            NegotiationView { phase: PhaseView::Adding(Seq::empty()), ..negotiation },
            buffer,
        ),
    decreases left.len(),
{
    let all = actions(negotiation, buffer, added);
    if left.len() == 0 {
        assert(left =~= Seq::empty());
    } else {
        let (next, next_buffer, action) = next_step(negotiation, buffer, added[0]);
        lemma_adding(next, buffer, left.drop_first(), added.drop_first());
        let rest = actions(next, next_buffer, added.drop_first());
        lemma_actions_add(next, next_buffer, added.drop_first(), Seq::empty());
        assert forall|i: int| 0 <= i < left.len() implies #[trigger] all[i]
            == ActionView::AddCandidate(left[i].0, left[i].1) by {
            if i > 0 {
                assert(all[i] == rest[i - 1]);
                assert(left.drop_first()[i - 1] == left[i]);
            }
        }
    }
}

proof fn lemma_held_added(
    start: NegotiationView,
    buffer: CandidateBufferView,
    added: Seq<OutcomeView>,
)
    requires
        start.phase is SettingRemote,
        buffer.pending.len() > 0,
        added.len() + 1 == buffer.pending.len(),
    ensures
        ({
            let outcomes = seq![OutcomeView::Done] + added;
            &&& actions(start, buffer, outcomes).len() == buffer.pending.len()
            &&& forall|i: int|
                0 <= i < buffer.pending.len() ==> #[trigger] actions(start, buffer, outcomes)[i]
                    == ActionView::AddCandidate(buffer.pending[i].0, buffer.pending[i].1)
            &&& run(start, buffer, outcomes) == (
                NegotiationView { phase: PhaseView::Adding(Seq::empty()), ..start },
                CandidateBufferView { description_set: true, pending: Seq::empty() },
            )
        }),
{
    let outcomes = seq![OutcomeView::Done] + added;
    let held = buffer.pending;
    let (next, opened, action) = next_step(start, buffer, OutcomeView::Done);
    assert(outcomes.drop_first() =~= added);
    lemma_adding(next, opened, held.drop_first(), added);
    lemma_actions_add(next, opened, added, Seq::empty());
    let all = actions(start, buffer, outcomes);
    let rest = actions(next, opened, added);
    assert forall|i: int| 0 <= i < held.len() implies #[trigger] all[i]
        == ActionView::AddCandidate(held[i].0, held[i].1) by {
        if i > 0 {
            assert(all[i] == rest[i - 1]);
            assert(held.drop_first()[i - 1] == held[i]);
        }
    }
}

/// Taking an answer adds every candidate that was held back, once each and in the order
/// of arrival, whether or not each is accepted, and then stops: nothing is created or
/// sent. From then on candidates are added as they arrive.
pub proof fn law_take_answer_run(
    peer: Seq<u8>,
    session_id: u64,
    buffer: CandidateBufferView,
    added: Seq<OutcomeView>,
)
    requires
        added.len() == buffer.pending.len(),
    ensures
        ({
            let start = NegotiationView {
                task: Task::TakeAnswer,
                peer,
                session_id,
                phase: PhaseView::SettingRemote,
            };
            let outcomes = seq![OutcomeView::Done] + added;
            let done = actions(start, buffer, outcomes);
            &&& done.len() == buffer.pending.len() + 1
            &&& forall|i: int|
                0 <= i < buffer.pending.len() ==> #[trigger] done[i] == ActionView::AddCandidate(
                    buffer.pending[i].0,
                    buffer.pending[i].1,
                )
            &&& done[buffer.pending.len() as int] == ActionView::Stop
            &&& run(start, buffer, outcomes).0.phase is Over
            &&& run(start, buffer, outcomes).1.description_set
            &&& run(start, buffer, outcomes).1.pending.len() == 0
        }),
{
    let start = NegotiationView {
        task: Task::TakeAnswer,
        peer,
        session_id,
        phase: PhaseView::SettingRemote,
    };
    let outcomes = seq![OutcomeView::Done] + added;
    if added.len() == 0 {
        assert(outcomes.drop_first() =~= Seq::empty());
        let (next, opened, _) = next_step(start, buffer, OutcomeView::Done);
        assert(actions(next, opened, outcomes.drop_first()) =~= Seq::empty());
        assert(run(next, opened, outcomes.drop_first()) == (next, opened));
    } else {
        let front = seq![OutcomeView::Done] + added.drop_last();
        let last = seq![added.last()];
        assert(outcomes =~= front + last);
        lemma_held_added(start, buffer, added.drop_last());
        lemma_actions_add(start, buffer, front, last);
        let (next, opened) = run(start, buffer, front);
        assert(last.drop_first() =~= Seq::empty());
        let (over, end, _) = next_step(next, opened, last[0]);
        assert(actions(over, end, last.drop_first()) =~= Seq::empty());
        assert(run(over, end, last.drop_first()) == (over, end));
        assert(actions(next, opened, last) =~= seq![ActionView::Stop]);
    }
}

/// Answering an offer adds every candidate that was held back, once each and in the
/// order of arrival, before the answer is asked for. The answer that the browser creates
/// is the one that is set and sent, to the peer and in the session of the offer.
pub proof fn law_answer_adds_then_answers(
    peer: Seq<u8>,
    session_id: u64,
    buffer: CandidateBufferView,
    added: Seq<OutcomeView>,
    sdp: Seq<char>,
)
    requires
        added.len() == buffer.pending.len(),
    ensures
        ({
            let start = NegotiationView {
                task: Task::Answer,
                peer,
                session_id,
                phase: PhaseView::SettingRemote,
            };
            let outcomes = seq![OutcomeView::Done] + added + seq![
                OutcomeView::Created(sdp),
                OutcomeView::Done,
            ];
            let done = actions(start, buffer, outcomes);
            let n = buffer.pending.len() as int;
            &&& done.len() == n + 3
            &&& forall|i: int|
                0 <= i < n ==> #[trigger] done[i] == ActionView::AddCandidate(
                    buffer.pending[i].0,
                    buffer.pending[i].1,
                )
            &&& done[n] == ActionView::Create
            &&& done[n + 1] == ActionView::SetLocal(sdp)
            &&& done[n + 2] == ActionView::Send(
                SignalingEnvelopeView { peer, msg: SignalingMsgView::Answer { session_id, sdp } },
            )
            &&& run(start, buffer, outcomes).0.phase is Over
            &&& run(start, buffer, outcomes).1.description_set
            &&& run(start, buffer, outcomes).1.pending.len() == 0
        }),
{
    let start = NegotiationView {
        task: Task::Answer,
        peer,
        session_id,
        phase: PhaseView::SettingRemote,
    };
    let end = seq![OutcomeView::Created(sdp), OutcomeView::Done];
    let early = seq![OutcomeView::Done] + added;
    let outcomes = early + end;
    law_answer_run(peer, session_id, buffer, added, sdp);
    lemma_actions_add(start, buffer, early, end);
    if added.len() == 0 {
        assert(early.drop_first() =~= Seq::empty());
        let (next, opened, _) = next_step(start, buffer, OutcomeView::Done);
        assert(run(next, opened, early.drop_first()) == (next, opened));
    } else {
        let front = seq![OutcomeView::Done] + added.drop_last();
        let last = seq![added.last()];
        assert(early =~= front + last);
        lemma_held_added(start, buffer, added.drop_last());
        lemma_actions_add(start, buffer, front, last);
        let (next, opened) = run(start, buffer, front);
        assert(last.drop_first() =~= Seq::empty());
        let (creating, after, _) = next_step(next, opened, last[0]);
        assert(run(creating, after, last.drop_first()) == (creating, after));
    }
    let (creating, after) = run(start, buffer, early);
    assert(creating == at_phase(start, PhaseView::Creating));
    let (local, _, _) = next_step(creating, after, end[0]);
    let rest = end.drop_first();
    let (over, _, _) = next_step(local, after, rest[0]);
    assert(rest.drop_first() =~= Seq::empty());
    assert(run(over, after, rest.drop_first()) == (over, after));
    assert(run(local, after, rest) == (over, after));
}

/// An offer that the browser creates is the one that is set and sent, to the peer and in
/// the session that it was made for, and only once it is set.
pub proof fn law_offer_run(
    peer: Seq<u8>,
    session_id: u64,
    buffer: CandidateBufferView,
    sdp: Seq<char>,
)
    ensures
        ({
            let start = NegotiationView {
                task: Task::Offer,
                peer,
                session_id,
                phase: PhaseView::Creating,
            };
            let outcomes = seq![OutcomeView::Created(sdp), OutcomeView::Done];
            &&& actions(start, buffer, outcomes) == seq![
                ActionView::SetLocal(sdp),
                ActionView::Send(
                    SignalingEnvelopeView {
                        peer,
                        msg: SignalingMsgView::Offer { session_id, sdp },
                    },
                ),
            ]
            &&& run(start, buffer, outcomes).0.phase is Over
            &&& run(start, buffer, outcomes).1 == buffer
        }),
{
    let start = NegotiationView {
        task: Task::Offer,
        peer,
        session_id,
        phase: PhaseView::Creating,
    };
    let outcomes = seq![OutcomeView::Created(sdp), OutcomeView::Done];
    lemma_creating_run(start, buffer, sdp);
    let (local, _, _) = next_step(start, buffer, outcomes[0]);
    let rest = outcomes.drop_first();
    let (over, _, _) = next_step(local, buffer, rest[0]);
    assert(rest.drop_first() =~= Seq::empty());
    assert(run(over, buffer, rest.drop_first()) == (over, buffer));
    assert(run(local, buffer, rest) == (over, buffer));
}

/// A description that could not be set, or was not created, ends the negotiation: nothing
/// is sent then or later, and candidates that are held back stay so.
pub proof fn law_failure_ends_negotiation(
    negotiation: NegotiationView,
    buffer: CandidateBufferView,
    outcome: OutcomeView,
    later: Seq<OutcomeView>,
)
    requires
        match negotiation.phase {
            PhaseView::SettingRemote => !(outcome is Done),
            PhaseView::SettingLocal(_) => !(outcome is Done),
            PhaseView::Creating => !(outcome is Created),
            PhaseView::Adding(_) => false,
            PhaseView::Over => true,
        },
    ensures
        forall|i: int|
            0 <= i <= later.len() ==> #[trigger] actions(
                negotiation,
                buffer,
                seq![outcome] + later,
            )[i] == ActionView::Stop,
        run(negotiation, buffer, seq![outcome] + later).1 == buffer,
    decreases later.len(),
{
    let outcomes = seq![outcome] + later;
    let (over, after, _) = next_step(negotiation, buffer, outcome);
    assert(outcomes.drop_first() =~= later);
    let all = actions(negotiation, buffer, outcomes);
    let rest = actions(over, after, later);
    if later.len() > 0 {
        assert(seq![later[0]] + later.drop_first() =~= later);
        law_failure_ends_negotiation(over, after, later[0], later.drop_first());
    } else {
        assert(run(over, after, later) == (over, after));
    }
    assert(run(negotiation, buffer, outcomes) == run(over, after, later));
    assert forall|i: int| 0 <= i <= later.len() implies #[trigger] all[i]
        == ActionView::Stop by {
        if i > 0 {
            lemma_actions_add(over, after, later, Seq::empty());
            assert(all[i] == rest[i - 1]);
        }
    }
}

/// An offer starts with the making of a description; an answer, and the taking of one, with
/// the setting of the description that came.
pub proof fn law_start_calls(
    peer: EndpointId,
    session_id: u64,
    sdp: &str,
    offering: (Negotiation, Action),
    answering: (Negotiation, Action),
    taking: (Negotiation, Action),
)
    requires
        call_ensures(Negotiation::offer, (peer, session_id), offering),
        call_ensures(Negotiation::answer, (peer, session_id, sdp), answering),
        call_ensures(Negotiation::take_answer, (peer, session_id, sdp), taking),
    ensures
        offering.1@ == ActionView::Create,
        offering.0@ == (NegotiationView {
            task: Task::Offer,
            peer: peer@,
            session_id,
            phase: PhaseView::Creating,
        }),
        answering.1@ == ActionView::SetRemote(sdp@),
        answering.0@ == (NegotiationView {
            task: Task::Answer,
            peer: peer@,
            session_id,
            phase: PhaseView::SettingRemote,
        }),
        taking.1@ == ActionView::SetRemote(sdp@),
        taking.0@ == (NegotiationView {
            task: Task::TakeAnswer,
            peer: peer@,
            session_id,
            phase: PhaseView::SettingRemote,
        }),
{
}

/// A step takes the first of the actions that are due, and leaves the others due.
pub proof fn law_step_call(
    negotiation: &mut Negotiation,
    buffer: &mut CandidateBuffer,
    outcome: Outcome,
    action: Action,
    later: Seq<OutcomeView>,
)
    requires
        call_ensures(Negotiation::step, (negotiation, buffer, outcome), action),
    ensures
        actions(old(negotiation)@, old(buffer)@, seq![outcome@] + later) == seq![action@]
            + actions(final(negotiation)@, final(buffer)@, later),
        run(old(negotiation)@, old(buffer)@, seq![outcome@] + later) == run(
            final(negotiation)@,
            final(buffer)@,
            later,
        ),
        final(negotiation)@.peer == old(negotiation)@.peer,
        final(negotiation)@.session_id == old(negotiation)@.session_id,
        final(negotiation)@.task == old(negotiation)@.task,
{
    let outcomes = seq![outcome@] + later;
    assert(outcomes[0] == outcome@);
    assert(outcomes.drop_first() =~= later);
}

/// Once the description that came is set, the candidates that were held back are added one
/// after the other, none left out; only then the negotiation goes on. That one could not
/// be added keeps the next from nothing.
pub proof fn law_step_adds_held_candidates(
    negotiation: &mut Negotiation,
    buffer: &mut CandidateBuffer,
    outcome: Outcome,
    action: Action,
)
    requires
        call_ensures(Negotiation::step, (negotiation, buffer, outcome), action),
        old(negotiation)@.phase is Adding || (old(negotiation)@.phase is SettingRemote && outcome@
            is Done),
    ensures
        ({
            let due = match old(negotiation)@.phase {
                PhaseView::Adding(left) => left,
                _ => old(buffer)@.pending,
            };
            &&& due.len() > 0 ==> {
                &&& action@ == ActionView::AddCandidate(due[0].0, due[0].1)
                &&& final(negotiation)@.phase is Adding
                &&& final(negotiation)@.phase->Adding_0.len() == due.len() - 1
                &&& forall|i: int|
                    0 <= i < due.len() - 1 ==> #[trigger] final(negotiation)@.phase->Adding_0[i]
                        == due[i + 1]
            }
            &&& due.len() == 0 && old(negotiation)@.task == Task::TakeAnswer ==> {
                &&& action@ == ActionView::Stop
                &&& final(negotiation)@.phase is Over
            }
            &&& due.len() == 0 && old(negotiation)@.task == Task::Answer ==> {
                &&& action@ == ActionView::Create
                &&& final(negotiation)@.phase is Creating
            }
            &&& old(negotiation)@.phase is SettingRemote ==> {
                &&& final(buffer)@.description_set
                &&& final(buffer)@.pending.len() == 0
            }
            &&& old(negotiation)@.phase is Adding ==> final(buffer)@ == old(buffer)@
        }),
{
}

} // verus!
