//! One WebRTC session of the `str0m` crate.
//!
//! `str0m` is sans-I/O: it is handed input and asked for output, and performs no
//! I/O itself. What a session answers depends on randomness and on the handshake
//! with the remote side, so nothing is claimed of its answers. Instead, every
//! [`Session`] carries a ghost record of the calls that were made on it and of what
//! each of them returned. The record can only grow by the methods of this module, one
//! entry for each call.

use std::time::Instant;

use str0m::change::{SdpAnswer, SdpOffer, SdpPendingOffer};
use str0m::channel::{ChannelConfig, ChannelId, Reliability};
use str0m::net::{Protocol, Receive, Transmit};
use str0m::{Candidate, Event, IceConnectionState, Input, Output, Rtc};
use vstd::prelude::*;

use crate::net::{SocketAddr, SocketAddrView};
use crate::text::{
    begins_with, characters, decimal, finds_line, has_line, law_line_opens_anywhere, occurs_in,
    opens_line, split_lines, stands_at,
};

verus! {

/// A point in time.
#[verifier::external_type_specification]
#[verifier::external_body]
pub struct ExInstant(std::time::Instant);

/// A WebRTC session.
#[verifier::external_type_specification]
#[verifier::external_body]
pub struct ExRtc(str0m::Rtc);

/// An ICE candidate.
#[verifier::external_type_specification]
#[verifier::external_body]
pub struct ExCandidate(str0m::Candidate);

/// A parsed SDP offer.
#[verifier::external_type_specification]
#[verifier::external_body]
pub struct ExSdpOffer(str0m::change::SdpOffer);

/// A parsed SDP answer.
#[verifier::external_type_specification]
#[verifier::external_body]
pub struct ExSdpAnswer(str0m::change::SdpAnswer);

/// An offer that awaits its answer.
#[verifier::external_type_specification]
#[verifier::external_body]
pub struct ExSdpPendingOffer(str0m::change::SdpPendingOffer);

/// Names a data channel within its session.
#[verifier::external_type_specification]
#[verifier::external_body]
pub struct ExChannelId(str0m::channel::ChannelId);

/// Something that happened in a session.
#[verifier::external_type_specification]
#[verifier::external_body]
pub struct ExEvent(str0m::Event);

/// A datagram that the session wants sent.
#[verifier::external_type_specification]
#[verifier::external_body]
pub struct ExTransmit(str0m::net::Transmit);

/// Whether `str0m` reads a text as an SDP offer.
pub uninterp spec fn is_offer(sdp: Seq<char>) -> bool;

/// Whether `str0m` reads a text as an SDP answer.
pub uninterp spec fn is_answer(sdp: Seq<char>) -> bool;

/// What a text that is no ICE candidate is told by `str0m`; `None` if it is one.
pub uninterp spec fn candidate_error(text: Seq<char>) -> Option<Seq<char>>;

/// Whether `str0m` takes an address as that of a local interface: an IPv4
/// address that is not link-local, broadcast, multicast or unspecified, or an
/// IPv6 address that is not multicast or unspecified.
pub open spec fn is_host_address(addr: SocketAddrView) -> bool {
    match addr {
        SocketAddrView::V4 { octets, .. } => {
            &&& !(octets[0] == 169 && octets[1] == 254)
            &&& octets != seq![255u8, 255, 255, 255]
            &&& !(224 <= octets[0] <= 239)
            &&& octets != seq![0u8, 0, 0, 0]
        },
        SocketAddrView::V6 { octets, .. } => {
            &&& octets[0] != 255
            &&& octets != Seq::new(16, |i: int| 0u8)
        },
    }
}

/// An IPv4 address in dotted decimal.
pub open spec fn dotted(octets: Seq<u8>) -> Seq<char> {
    decimal(octets[0] as nat) + "."@ + decimal(octets[1] as nat) + "."@ + decimal(octets[2] as nat)
        + "."@ + decimal(octets[3] as nat)
}

/// A line of an SDP that names a host candidate at an address. Of an IPv6 address,
/// whose text takes longer to say, only the port is said.
pub open spec fn is_host_line(line: Seq<char>, addr: SocketAddrView) -> bool {
    &&& begins_with(line, "a=candidate:"@)
    &&& match addr {
        SocketAddrView::V4 { octets, port } => occurs_in(
            line,
            " "@ + dotted(octets) + " "@ + decimal(port as nat) + " typ host"@,
        ),
        SocketAddrView::V6 { port, .. } => occurs_in(
            line,
            " "@ + decimal(port as nat) + " typ host"@,
        ),
    }
}

/// An SDP names a host candidate at an address.
pub open spec fn names_host(sdp: Seq<char>, addr: SocketAddrView) -> bool {
    exists|i: int|
        0 <= i < split_lines(sdp).len() && is_host_line(#[trigger] split_lines(sdp)[i], addr)
}

/// An SDP describes neither audio nor video: no media section for either begins on
/// any of its lines.
pub open spec fn data_only(sdp: Seq<char>) -> bool {
    !has_line(sdp, "m=audio"@) && !has_line(sdp, "m=video"@)
}

/// Whether an SDP describes neither audio nor video.
pub fn is_data_only(sdp: &str) -> (data: bool)
    ensures
        data == data_only(sdp@),
{
    let text = characters(sdp);
    !finds_line(&text, &characters("m=audio")) && !finds_line(&text, &characters("m=video"))
}

/// How far a session is with finding a way to the remote side.
#[derive(Clone, Copy, Debug, PartialEq, Eq, Structural)]
pub enum IceState {
    /// Addresses are being gathered.
    New,
    /// Pairs of addresses are being tried, and none has worked yet.
    Checking,
    /// A pair of addresses works, and better ones are still looked for.
    Connected,
    /// A pair of addresses works, and the search has ended.
    Completed,
    /// The remote side can no longer be reached.
    Disconnected,
}

/// An event of a session.
pub enum RtcEvent {
    /// The search for a way to the remote side came to this point.
    Ice(IceState),
    /// A data channel with this label is ready for use.
    ChannelOpen(ChannelId, String),
    /// A message arrived on a data channel.
    ChannelData(Vec<u8>),
    /// A data channel was closed.
    ChannelClose(ChannelId),
    /// Anything else.
    Other,
}

/// What an [`RtcEvent`] says.
#[verifier::ext_equal]
pub enum RtcEventView {
    Ice(IceState),
    ChannelOpen(ChannelId, Seq<char>),
    ChannelData(Seq<u8>),
    ChannelClose(ChannelId),
    Other,
}

impl RtcEvent {
    /// What the event says.
    pub open spec fn view(&self) -> RtcEventView {
        match self {
            RtcEvent::Ice(state) => RtcEventView::Ice(*state),
            RtcEvent::ChannelOpen(id, label) => RtcEventView::ChannelOpen(*id, label@),
            RtcEvent::ChannelData(data) => RtcEventView::ChannelData(data@),
            RtcEvent::ChannelClose(id) => RtcEventView::ChannelClose(*id),
            RtcEvent::Other => RtcEventView::Other,
        }
    }
}

/// An event as the session reported it, with what is read off it.
struct Report {
    inner: Event,
    said: Ghost<RtcEventView>,
}

impl Report {
    /// What the event says.
    spec fn view(&self) -> RtcEventView {
        self.said@
    }

    /// Takes a `str0m::Event` apart. Claimed: what is handed out is what the event
    /// says. A change of the ICE state is handed out as the state of the same name, the
    /// opening and the closing of a channel with the channel, data without the
    /// channel that it came on, and every event of another variant as
    /// [`RtcEvent::Other`].
    #[verifier::external_body]
    fn read(self) -> (event: RtcEvent)
        ensures
            event@ == self@,
    {
        match self.inner {
            Event::IceConnectionStateChange(state) => RtcEvent::Ice(match state {
                IceConnectionState::New => IceState::New,
                IceConnectionState::Checking => IceState::Checking,
                IceConnectionState::Connected => IceState::Connected,
                IceConnectionState::Completed => IceState::Completed,
                IceConnectionState::Disconnected => IceState::Disconnected,
            }),
            Event::ChannelOpen(id, label) => RtcEvent::ChannelOpen(id, label),
            Event::ChannelData(message) => RtcEvent::ChannelData(message.data),
            Event::ChannelClose(id) => RtcEvent::ChannelClose(id),
            _ => RtcEvent::Other,
        }
    }
}

/// What a session hands out when it is polled, its event not yet read.
enum Polled {
    Timeout(Instant),
    Transmit(Transmit),
    Event(Report),
    Failed(String),
}

impl Polled {
    spec fn view(&self) -> RtcOutputView {
        match self {
            Polled::Timeout(at) => RtcOutputView::Timeout(*at),
            Polled::Transmit(transmit) => RtcOutputView::Transmit(*transmit),
            Polled::Event(report) => RtcOutputView::Event(report@),
            Polled::Failed(error) => RtcOutputView::Failed(error@),
        }
    }
}

/// What a session answers when it is asked for output.
pub enum RtcOutput {
    /// Nothing to do until this time.
    Timeout(Instant),
    /// A datagram to be sent.
    Transmit(Transmit),
    /// Something happened.
    Event(RtcEvent),
    /// The session failed.
    Failed(String),
}

/// What an [`RtcOutput`] says.
#[verifier::ext_equal]
pub enum RtcOutputView {
    Timeout(Instant),
    Transmit(Transmit),
    Event(RtcEventView),
    Failed(Seq<char>),
}

impl RtcOutput {
    /// What the output says.
    pub open spec fn view(&self) -> RtcOutputView {
        match self {
            RtcOutput::Timeout(at) => RtcOutputView::Timeout(*at),
            RtcOutput::Transmit(transmit) => RtcOutputView::Transmit(*transmit),
            RtcOutput::Event(event) => RtcOutputView::Event(event@),
            RtcOutput::Failed(error) => RtcOutputView::Failed(error@),
        }
    }
}

/// How a write to a data channel ended.
pub enum WriteOutcome {
    /// The session has no open channel of that name.
    Missing,
    /// The channel was asked; `false` if its buffer had no room.
    Accepted(bool),
    /// The write failed.
    Failed(String),
}

/// What a [`WriteOutcome`] says.
#[verifier::ext_equal]
pub enum WriteOutcomeView {
    Missing,
    Accepted(bool),
    Failed(Seq<char>),
}

impl WriteOutcome {
    /// What the outcome says.
    pub open spec fn view(&self) -> WriteOutcomeView {
        match self {
            WriteOutcome::Missing => WriteOutcomeView::Missing,
            WriteOutcome::Accepted(written) => WriteOutcomeView::Accepted(*written),
            WriteOutcome::Failed(error) => WriteOutcomeView::Failed(error@),
        }
    }
}

/// Outcome of a call that answers with a text.
pub open spec fn text_outcome(outcome: Result<String, String>) -> Result<Seq<char>, Seq<char>> {
    match outcome {
        Ok(text) => Ok(text@),
        Err(error) => Err(error@),
    }
}

/// Outcome of a call that answers with nothing.
pub open spec fn unit_outcome(outcome: Result<(), String>) -> Result<(), Seq<char>> {
    match outcome {
        Ok(_) => Ok(()),
        Err(error) => Err(error@),
    }
}

/// One call on a session: what was handed to it and what came back.
#[allow(inconsistent_fields)]
#[verifier::ext_equal]
pub enum Step {
    /// The session was built.
    Built { ice_lite: bool, at: Instant },
    /// A host candidate for a local address was added.
    LocalCandidate { addr: SocketAddrView },
    /// A data channel was added and an offer created.
    Offered { label: Seq<char>, ordered: bool, max_retransmits: u16, sdp: Seq<char> },
    /// A remote offer was accepted, or refused.
    OfferAccepted { offer: Seq<char>, outcome: Result<Seq<char>, Seq<char>> },
    /// The answer to an offer of ours was accepted, or refused.
    AnswerAccepted { offer: Seq<char>, answer: Seq<char>, outcome: Result<(), Seq<char>> },
    /// A remote candidate was added.
    RemoteCandidate { text: Seq<char> },
    /// A message was written to a data channel.
    Written { channel: ChannelId, binary: bool, data: Seq<u8>, outcome: WriteOutcomeView },
    /// A datagram was handed in.
    Received {
        at: Instant,
        source: SocketAddrView,
        local: SocketAddrView,
        data: Seq<u8>,
        outcome: Result<(), Seq<char>>,
    },
    /// The session was told the time.
    TimedOut { at: Instant, outcome: Result<(), Seq<char>> },
    /// The session was asked for output.
    Polled { output: RtcOutputView },
}

/// A host candidate.
pub struct LocalCandidate {
    inner: Candidate,
    addr: Ghost<SocketAddrView>,
}

impl LocalCandidate {
    /// The address that the candidate is for.
    pub closed spec fn addr(&self) -> SocketAddrView {
        self.addr@
    }

    /// Calls `str0m::Candidate::host` for UDP. Claimed: it succeeds on the
    /// addresses that `is_host_address` describes, and on no others.
    #[verifier::external_body]
    pub(crate) fn udp_host(addr: &SocketAddr) -> (candidate: Option<LocalCandidate>)
        ensures
            candidate is Some <==> is_host_address(addr@),
            candidate matches Some(candidate) ==> candidate.addr() == addr@,
    {
        let host = match *addr {
            SocketAddr::V4 { octets, port } => Candidate::host((octets, port).into(), "udp"),
            SocketAddr::V6 { octets, port } => Candidate::host((octets, port).into(), "udp"),
        };
        host.ok().map(|inner| LocalCandidate { inner, addr: Ghost(addr@) })
    }
}

/// A candidate of the remote side.
pub struct RemoteCandidate {
    inner: Candidate,
    text: Ghost<Seq<char>>,
}

impl RemoteCandidate {
    /// The text that the candidate was read from.
    pub closed spec fn text(&self) -> Seq<char> {
        self.text@
    }

    /// Calls `str0m::Candidate::from_sdp_string`. Claimed: whether a text is a
    /// candidate, and what is said of one that is not, depends on the text alone.
    #[verifier::external_body]
    pub(crate) fn parse(text: &str) -> (candidate: Result<RemoteCandidate, String>)
        ensures
            match candidate {
                Ok(candidate) => candidate_error(text@) is None && candidate.text() == text@,
                Err(error) => candidate_error(text@) == Some(error@),
            },
    {
        match Candidate::from_sdp_string(text) {
            Ok(inner) => Ok(RemoteCandidate { inner, text: Ghost(text@) }),
            Err(error) => Err(error.to_string()),
        }
    }
}

/// An offer of the remote side.
pub struct RemoteOffer {
    inner: SdpOffer,
    text: Ghost<Seq<char>>,
}

impl RemoteOffer {
    /// The text that the offer was read from.
    pub closed spec fn text(&self) -> Seq<char> {
        self.text@
    }

    /// Calls `str0m::change::SdpOffer::from_sdp_string`. Claimed: whether a text
    /// is an offer depends on the text alone. Nothing is claimed of what is said of
    /// one that is not: it tells where in memory the text stands.
    #[verifier::external_body]
    pub(crate) fn parse(sdp: &str) -> (offer: Result<RemoteOffer, String>)
        ensures
            match offer {
                Ok(offer) => is_offer(sdp@) && offer.text() == sdp@,
                Err(_) => !is_offer(sdp@),
            },
    {
        match SdpOffer::from_sdp_string(sdp) {
            Ok(inner) => Ok(RemoteOffer { inner, text: Ghost(sdp@) }),
            Err(error) => Err(error.to_string()),
        }
    }
}

/// An answer of the remote side.
pub struct RemoteAnswer {
    inner: SdpAnswer,
    text: Ghost<Seq<char>>,
}

impl RemoteAnswer {
    /// The text that the answer was read from.
    pub closed spec fn text(&self) -> Seq<char> {
        self.text@
    }

    /// Calls `str0m::change::SdpAnswer::from_sdp_string`. Claimed: whether a text
    /// is an answer depends on the text alone. Nothing is claimed of what is said of
    /// one that is not: it tells where in memory the text stands.
    #[verifier::external_body]
    pub(crate) fn parse(sdp: &str) -> (answer: Result<RemoteAnswer, String>)
        ensures
            match answer {
                Ok(answer) => is_answer(sdp@) && answer.text() == sdp@,
                Err(_) => !is_answer(sdp@),
            },
    {
        match SdpAnswer::from_sdp_string(sdp) {
            Ok(inner) => Ok(RemoteAnswer { inner, text: Ghost(sdp@) }),
            Err(error) => Err(error.to_string()),
        }
    }
}

/// An offer of ours that awaits its answer.
pub struct PendingOffer {
    inner: SdpPendingOffer,
    sdp: Ghost<Seq<char>>,
}

impl PendingOffer {
    /// The text of the offer.
    pub closed spec fn sdp(&self) -> Seq<char> {
        self.sdp@
    }
}

/// A session together with the record of the calls made on it.
pub struct Session {
    rtc: Rtc,
    trace: Ghost<Seq<Step>>,
}

/// No description of the remote side was accepted, and no channel offered, in
/// these calls.
pub open spec fn undescribed(trace: Seq<Step>) -> bool {
    forall|i: int|
        0 <= i < trace.len() ==> #[trigger] trace[i] is Built || trace[i] is LocalCandidate
}

/// One of these calls created the offer with this text.
pub open spec fn made_offer(trace: Seq<Step>, sdp: Seq<char>) -> bool {
    exists|i: int|
        0 <= i < trace.len() && (#[trigger] trace[i] matches Step::Offered { sdp: made, .. }
            && made == sdp)
}

impl Session {
    /// The calls made on the session, first to last.
    pub closed spec fn trace(&self) -> Seq<Step> {
        self.trace@
    }

    /// Calls `str0m::Rtc::builder`, `clear_codecs`, `set_ice_lite` and `build`, so
    /// that the session carries data channels and no media. Nothing is claimed of the
    /// session but that this is the first call on it.
    #[verifier::external_body]
    pub(crate) fn build(ice_lite: bool, at: Instant) -> (session: Session)
        ensures
            session.trace() == seq![Step::Built { ice_lite, at }],
    {
        let rtc = Rtc::builder().clear_codecs().set_ice_lite(ice_lite).build(at);
        Session { rtc, trace: Ghost(seq![Step::Built { ice_lite, at }]) }
    }

    /// Calls `str0m::Rtc::add_local_candidate`. Recorded: the candidate's
    /// address.
    #[verifier::external_body]
    pub(crate) fn add_local_candidate(&mut self, candidate: LocalCandidate)
        ensures
            final(self).trace() == old(self).trace().push(
                Step::LocalCandidate { addr: candidate.addr() },
            ),
    {
        self.rtc.add_local_candidate(candidate.inner);
    }

    /// Calls `str0m`'s `SdpApi::add_channel_with_config` and `SdpApi::apply`, and
    /// writes the offer out with `SdpOffer::to_sdp_string`. Claimed: as long as
    /// no description was accepted or offered, the first channel requires
    /// negotiation, so there is an offer, and it names each local candidate that was
    /// added. Nothing else is claimed of its text, which holds random credentials.
    /// Recorded: the configuration of the channel and the text of the offer, to which
    /// the pending offer belongs.
    #[verifier::external_body]
    pub(crate) fn offer_channel(
        &mut self,
        label: &str,
        ordered: bool,
        max_retransmits: u16,
    ) -> (offer: (String, PendingOffer))
        requires
            undescribed(old(self).trace()),
        ensures
            offer.1.sdp() == offer.0@,
            forall|addr: SocketAddrView|
                old(self).trace().contains(Step::LocalCandidate { addr }) ==> #[trigger] names_host(
                    offer.0@,
                    addr,
                ),
            final(self).trace() == old(self).trace().push(
                Step::Offered { label: label@, ordered, max_retransmits, sdp: offer.0@ },
            ),
    {
        let reliability = Reliability::MaxRetransmits { retransmits: max_retransmits };
        let label = label.to_string();
        let mut changes = self.rtc.sdp_api();
        changes.add_channel_with_config(
            ChannelConfig { label, ordered, reliability, ..Default::default() },
        );
        let (offer, inner) = changes.apply().expect("a first channel requires negotiation");
        let sdp = offer.to_sdp_string();
        let pending = PendingOffer { inner, sdp: Ghost(sdp@) };
        (sdp, pending)
    }

    /// Calls `str0m`'s `SdpApi::accept_offer` and writes the answer out with
    /// `SdpAnswer::to_sdp_string`. An offer of audio or video is left out: while
    /// `str0m` applies its sections, it asserts that they claim no payload type twice.
    /// So is a session that has taken a description before. Recorded: the offer and the
    /// outcome, of which nothing is claimed.
    #[verifier::external_body]
    pub(crate) fn accept_offer(&mut self, offer: RemoteOffer) -> (outcome: Result<String, String>)
        requires
            undescribed(old(self).trace()),
            data_only(offer.text()),
        ensures
            final(self).trace() == old(self).trace().push(
                Step::OfferAccepted { offer: offer.text(), outcome: text_outcome(outcome) },
            ),
    {
        match self.rtc.sdp_api().accept_offer(offer.inner) {
            Ok(answer) => Ok(answer.to_sdp_string()),
            Err(error) => Err(error.to_string()),
        }
    }

    /// Calls `str0m`'s `SdpApi::accept_answer`, which takes an offer of the same
    /// session only. Recorded: the offer and the answer, and the outcome, of which
    /// nothing is claimed.
    #[verifier::external_body]
    pub(crate) fn accept_answer(
        &mut self,
        pending: PendingOffer,
        answer: RemoteAnswer,
    ) -> (outcome: Result<(), String>)
        requires
            made_offer(old(self).trace(), pending.sdp()),
        ensures
            final(self).trace() == old(self).trace().push(
                Step::AnswerAccepted {
                    offer: pending.sdp(),
                    answer: answer.text(),
                    outcome: unit_outcome(outcome),
                },
            ),
    {
        match self.rtc.sdp_api().accept_answer(pending.inner, answer.inner) {
            Ok(done) => Ok(done),
            Err(error) => Err(error.to_string()),
        }
    }

    /// Calls `str0m::Rtc::add_remote_candidate`. Recorded: the candidate's text.
    #[verifier::external_body]
    pub(crate) fn add_remote_candidate(&mut self, candidate: RemoteCandidate)
        ensures
            final(self).trace() == old(self).trace().push(
                Step::RemoteCandidate { text: candidate.text() },
            ),
    {
        self.rtc.add_remote_candidate(candidate.inner);
    }

    /// Calls `str0m::Rtc::channel` and, on the channel found,
    /// `str0m::channel::Channel::write`. Recorded: the channel, the data and the
    /// outcome, of which nothing is claimed.
    #[verifier::external_body]
    pub(crate) fn write(
        &mut self,
        channel: ChannelId,
        binary: bool,
        data: &[u8],
    ) -> (outcome: WriteOutcome)
        ensures
            final(self).trace() == old(self).trace().push(
                Step::Written { channel, binary, data: data@, outcome: outcome@ },
            ),
    {
        match self.rtc.channel(channel).map(|mut found| found.write(binary, data)) {
            None => WriteOutcome::Missing,
            Some(Ok(written)) => WriteOutcome::Accepted(written),
            Some(Err(error)) => WriteOutcome::Failed(error.to_string()),
        }
    }

    /// Calls `str0m::net::Receive::new` for UDP and, on a datagram that it
    /// recognises, `str0m::Rtc::handle_input`. Recorded: the time, the addresses,
    /// the datagram and the outcome, of which nothing is claimed.
    #[verifier::external_body]
    pub(crate) fn receive(
        &mut self,
        at: Instant,
        source: &SocketAddr,
        local: &SocketAddr,
        data: &[u8],
    ) -> (outcome: Result<(), String>)
        ensures
            final(self).trace() == old(self).trace().push(
                Step::Received {
                    at,
                    source: source@,
                    local: local@,
                    data: data@,
                    outcome: unit_outcome(outcome),
                },
            ),
    {
        let source = match *source {
            SocketAddr::V4 { octets, port } => (octets, port).into(),
            SocketAddr::V6 { octets, port } => (octets, port).into(),
        };
        let local = match *local {
            SocketAddr::V4 { octets, port } => (octets, port).into(),
            SocketAddr::V6 { octets, port } => (octets, port).into(),
        };
        let packet = Receive::new(Protocol::Udp, source, local, data);
        let packet = packet.map_err(|error| error.to_string())?;
        self.rtc.handle_input(Input::Receive(at, packet)).map_err(|error| error.to_string())
    }

    /// Calls `str0m::Rtc::handle_input` with the time. Recorded: the time and the
    /// outcome, of which nothing is claimed.
    #[verifier::external_body]
    pub(crate) fn timeout(&mut self, at: Instant) -> (outcome: Result<(), String>)
        ensures
            final(self).trace() == old(self).trace().push(
                Step::TimedOut { at, outcome: unit_outcome(outcome) },
            ),
    {
        self.rtc.handle_input(Input::Timeout(at)).map_err(|error| error.to_string())
    }

    /// Calls `str0m::Rtc::poll_output`. Recorded: the output, of which nothing is
    /// claimed.
    #[verifier::external_body]
    fn poll_raw(&mut self) -> (polled: Polled)
        ensures
            final(self).trace() == old(self).trace().push(Step::Polled { output: polled@ }),
    {
        match self.rtc.poll_output() {
            Ok(Output::Timeout(at)) => Polled::Timeout(at),
            Ok(Output::Transmit(transmit)) => Polled::Transmit(transmit),
            Ok(Output::Event(inner)) => Polled::Event(Report { inner, said: Ghost(arbitrary()) }),
            Err(error) => Polled::Failed(error.to_string()),
        }
    }

    /// Asks the session for output.
    pub(crate) fn poll_output(&mut self) -> (output: RtcOutput)
        ensures
            final(self).trace() == old(self).trace().push(Step::Polled { output: output@ }),
    {
        match self.poll_raw() {
            Polled::Timeout(at) => RtcOutput::Timeout(at),
            Polled::Transmit(transmit) => RtcOutput::Transmit(transmit),
            Polled::Event(report) => RtcOutput::Event(report.read()),
            Polled::Failed(error) => RtcOutput::Failed(error),
        }
    }
}

/// Compares two `str0m::channel::ChannelId`s with `==`. Claimed: the ids are
/// equal exactly if they are the same value, which is what the derived `==`
/// says.
#[verifier::external_body]
pub(crate) fn same_channel(a: &ChannelId, b: &ChannelId) -> (same: bool)
    ensures
        same == (*a == *b),
{
    a == b
}

/// An SDP in which a line begins a section of audio or video, the first line or any other,
/// is not for data only; one in which neither is named is.
pub proof fn law_media_sections_are_found(before: Seq<char>, after: Seq<char>)
    ensures
        !data_only("m=audio"@ + after),
        !data_only("m=video"@ + after),
        !data_only(before.push('\n') + "m=audio"@ + after),
        !data_only(before.push('\n') + "m=video"@ + after),
        !occurs_in(before, "m=audio"@) && !occurs_in(before, "m=video"@) ==> data_only(before),
{
    law_line_opens_anywhere(before, "m=audio"@, after);
    law_line_opens_anywhere(before, "m=video"@, after);
    if has_line(before, "m=audio"@) {
        let i = choose|i: int| opens_line(before, "m=audio"@, i);
        assert(stands_at(before, "m=audio"@, i));
    }
    if has_line(before, "m=video"@) {
        let i = choose|i: int| opens_line(before, "m=video"@, i);
        assert(stands_at(before, "m=video"@, i));
    }
}

} // verus!
