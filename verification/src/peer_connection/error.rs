//! Errors of peer connection management.

use vstd::prelude::*;
use vstd::string::*;

verus! {

/// Why the manager could not do what it was asked.
#[derive(Debug, PartialEq, Eq)]
pub enum PeerError {
    /// The connection is not ready; the data is queued and the sender is woken
    /// when something changes.
    WouldBlock,
    /// An answer came from a peer that nothing was offered to.
    NoConnectionForAnswer,
    /// A candidate came from a peer that there is no connection to.
    NoConnectionForCandidate,
    /// The message belongs to another session with the peer.
    SessionMismatch,
    /// The session has no offer that awaits an answer.
    NoPendingOffer,
    /// The offer is no SDP.
    InvalidOffer(String),
    /// The offer is for audio or video, and connections carry data only.
    MediaOffered,
    /// The session refused the offer.
    OfferRefused(String),
    /// The answer is no SDP.
    InvalidAnswer(String),
    /// The session refused the answer.
    AnswerRefused(String),
    /// The candidate is none.
    InvalidCandidate(String),
    /// The peer is connected but has no data channel.
    NoDataChannel,
    /// The session does not know the data channel.
    ChannelNotFound,
    /// The data channel did not take the data.
    WriteFailed(String),
}

/// What a [`PeerError`] says.
#[verifier::ext_equal]
pub enum PeerErrorView {
    WouldBlock,
    NoConnectionForAnswer,
    NoConnectionForCandidate,
    SessionMismatch,
    NoPendingOffer,
    InvalidOffer(Seq<char>),
    MediaOffered,
    OfferRefused(Seq<char>),
    InvalidAnswer(Seq<char>),
    AnswerRefused(Seq<char>),
    InvalidCandidate(Seq<char>),
    NoDataChannel,
    ChannelNotFound,
    WriteFailed(Seq<char>),
}

impl PeerError {
    /// What the error says.
    pub open spec fn view(&self) -> PeerErrorView {
        match self {
            PeerError::WouldBlock => PeerErrorView::WouldBlock,
            PeerError::NoConnectionForAnswer => PeerErrorView::NoConnectionForAnswer,
            PeerError::NoConnectionForCandidate => PeerErrorView::NoConnectionForCandidate,
            PeerError::SessionMismatch => PeerErrorView::SessionMismatch,
            PeerError::NoPendingOffer => PeerErrorView::NoPendingOffer,
            PeerError::InvalidOffer(e) => PeerErrorView::InvalidOffer(e@),
            PeerError::MediaOffered => PeerErrorView::MediaOffered,
            PeerError::OfferRefused(e) => PeerErrorView::OfferRefused(e@),
            PeerError::InvalidAnswer(e) => PeerErrorView::InvalidAnswer(e@),
            PeerError::AnswerRefused(e) => PeerErrorView::AnswerRefused(e@),
            PeerError::InvalidCandidate(e) => PeerErrorView::InvalidCandidate(e@),
            PeerError::NoDataChannel => PeerErrorView::NoDataChannel,
            PeerError::ChannelNotFound => PeerErrorView::ChannelNotFound,
            PeerError::WriteFailed(e) => PeerErrorView::WriteFailed(e@),
        }
    }
}

/// Why a connection could not be set up or used: binding a socket failed, or the
/// manager refused.
#[derive(Debug, PartialEq, Eq)]
pub enum ConnectError<E> {
    /// Binding a socket failed.
    Bind(E),
    /// The manager refused.
    Peer(PeerError),
}

/// What a [`ConnectError`] says.
#[verifier::ext_equal]
pub enum ConnectErrorView<E> {
    Bind(E),
    Peer(PeerErrorView),
}

/// What the result of handling a signaling message says.
pub open spec fn peer_result(result: Result<(), PeerError>) -> Result<(), PeerErrorView> {
    match result {
        Ok(_) => Ok(()),
        Err(e) => Err(e@),
    }
}

/// What the result of an operation that may bind a socket says.
pub open spec fn connect_result<E>(result: Result<(), ConnectError<E>>) -> Result<
    (),
    ConnectErrorView<E>,
> {
    match result {
        Ok(_) => Ok(()),
        Err(ConnectError::Bind(e)) => Err(ConnectErrorView::Bind(e)),
        Err(ConnectError::Peer(e)) => Err(ConnectErrorView::Peer(e@)),
    }
}

impl PeerErrorView {
    /// The error in words.
    pub open spec fn text(self) -> Seq<char> {
        match self {
            PeerErrorView::WouldBlock => "operation would block"@,
            PeerErrorView::NoConnectionForAnswer => "no pending connection for answer"@,
            PeerErrorView::NoConnectionForCandidate => "no connection for ICE candidate"@,
            PeerErrorView::SessionMismatch => "session_id mismatch"@,
            PeerErrorView::NoPendingOffer => "no pending offer for answer"@,
            PeerErrorView::InvalidOffer(e) => "invalid SDP offer: "@ + e,
            PeerErrorView::MediaOffered => "offer is for media"@,
            PeerErrorView::OfferRefused(e) => "failed to accept offer: "@ + e,
            PeerErrorView::InvalidAnswer(e) => "invalid SDP answer: "@ + e,
            PeerErrorView::AnswerRefused(e) => "failed to accept answer: "@ + e,
            PeerErrorView::InvalidCandidate(e) => "invalid ICE candidate: "@ + e,
            PeerErrorView::NoDataChannel => "connected but no DataChannel"@,
            PeerErrorView::ChannelNotFound => "DataChannel not found"@,
            PeerErrorView::WriteFailed(e) => "DataChannel write failed: "@ + e,
        }
    }
}

fn with_detail(what: &str, detail: &String) -> (text: String)
    ensures
        text@ == what@ + detail@,
{
    let mut text = what.to_owned();
    text.append(detail.as_str());
    text
}

impl PeerError {
    /// The error in words.
    pub fn message(&self) -> (text: String)
        ensures
            text@ == self@.text(),
    {
        match self {
            PeerError::WouldBlock => "operation would block".to_owned(),
            PeerError::NoConnectionForAnswer => "no pending connection for answer".to_owned(),
            PeerError::NoConnectionForCandidate => "no connection for ICE candidate".to_owned(),
            PeerError::SessionMismatch => "session_id mismatch".to_owned(),
            PeerError::NoPendingOffer => "no pending offer for answer".to_owned(),
            PeerError::InvalidOffer(e) => with_detail("invalid SDP offer: ", e),
            PeerError::MediaOffered => "offer is for media".to_owned(),
            PeerError::OfferRefused(e) => with_detail("failed to accept offer: ", e),
            PeerError::InvalidAnswer(e) => with_detail("invalid SDP answer: ", e),
            PeerError::AnswerRefused(e) => with_detail("failed to accept answer: ", e),
            PeerError::InvalidCandidate(e) => with_detail("invalid ICE candidate: ", e),
            PeerError::NoDataChannel => "connected but no DataChannel".to_owned(),
            PeerError::ChannelNotFound => "DataChannel not found".to_owned(),
            PeerError::WriteFailed(e) => with_detail("DataChannel write failed: ", e),
        }
    }
}

/// What is known of the cause of an error is told in full, behind words that do not depend
/// on it.
pub proof fn law_error_tells_cause(why: Seq<char>)
    ensures
        PeerErrorView::InvalidOffer(why).text() == PeerErrorView::InvalidOffer(Seq::empty()).text()
            + why,
        PeerErrorView::OfferRefused(why).text() == PeerErrorView::OfferRefused(Seq::empty()).text()
            + why,
        PeerErrorView::InvalidAnswer(why).text() == PeerErrorView::InvalidAnswer(
            Seq::empty(),
        ).text() + why,
        PeerErrorView::AnswerRefused(why).text() == PeerErrorView::AnswerRefused(
            Seq::empty(),
        ).text() + why,
        PeerErrorView::InvalidCandidate(why).text() == PeerErrorView::InvalidCandidate(
            Seq::empty(),
        ).text() + why,
        PeerErrorView::WriteFailed(why).text() == PeerErrorView::WriteFailed(Seq::empty()).text()
            + why,
{
    let none = Seq::<char>::empty();
    assert("invalid SDP offer: "@ + none =~= "invalid SDP offer: "@);
    assert("failed to accept offer: "@ + none =~= "failed to accept offer: "@);
    assert("invalid SDP answer: "@ + none =~= "invalid SDP answer: "@);
    assert("failed to accept answer: "@ + none =~= "failed to accept answer: "@);
    assert("invalid ICE candidate: "@ + none =~= "invalid ICE candidate: "@);
    assert("DataChannel write failed: "@ + none =~= "DataChannel write failed: "@);
}

/// Each error says in its own words what went wrong, and then why, where that is known.
pub proof fn law_error_message_call(error: &PeerError, text: String)
    requires
        call_ensures(PeerError::message, (error,), text),
    ensures
        match error {
            PeerError::WouldBlock => text@ == "operation would block"@,
            PeerError::NoConnectionForAnswer => text@ == "no pending connection for answer"@,
            PeerError::NoConnectionForCandidate => text@ == "no connection for ICE candidate"@,
            PeerError::SessionMismatch => text@ == "session_id mismatch"@,
            PeerError::NoPendingOffer => text@ == "no pending offer for answer"@,
            PeerError::InvalidOffer(why) => text@ == "invalid SDP offer: "@ + why@,
            PeerError::MediaOffered => text@ == "offer is for media"@,
            PeerError::OfferRefused(why) => text@ == "failed to accept offer: "@ + why@,
            PeerError::InvalidAnswer(why) => text@ == "invalid SDP answer: "@ + why@,
            PeerError::AnswerRefused(why) => text@ == "failed to accept answer: "@ + why@,
            PeerError::InvalidCandidate(why) => text@ == "invalid ICE candidate: "@ + why@,
            PeerError::NoDataChannel => text@ == "connected but no DataChannel"@,
            PeerError::ChannelNotFound => text@ == "DataChannel not found"@,
            PeerError::WriteFailed(why) => text@ == "DataChannel write failed: "@ + why@,
        },
{
}

} // verus!
