//! The signaling connections to peers.
//!
//! At most one connection to each peer is kept. If both sides dial at once, both
//! settle on the same connection.

use vstd::prelude::*;

use crate::addr::{key_less, law_key_order_total, EndpointId};
use crate::table::PeerTable;

verus! {

/// A connection, and which side dialed it; `H` is what keeps it going.
pub struct Held<H> {
    /// What keeps the connection going.
    pub handle: H,
    /// Whether it was dialed from here.
    pub outbound: bool,
}

/// The connection to each peer.
pub struct Registry<H> {
    my_id: EndpointId,
    peers: PeerTable<Held<H>>,
}

/// What is known of a [`Registry`].
#[verifier::ext_equal]
pub struct RegistryView<H> {
    /// The local identity.
    pub my_id: Seq<u8>,
    /// The connection to each peer.
    pub peers: Map<Seq<u8>, Held<H>>,
}

/// What became of a new connection.
pub enum Registration<H> {
    /// It is the connection to the peer now, in place of another if there was one.
    Installed(Option<H>),
    /// There is a connection to the peer that is preferred.
    Duplicate(H),
}

/// How an attempt to queue a message for a connection ended.
#[derive(Clone, Copy, PartialEq, Eq, Structural)]
pub enum TrySend {
    /// The message is queued.
    Sent,
    /// The connection is gone.
    Closed,
    /// The queue is full.
    Full,
}

/// What to do after an attempt to queue a message.
#[derive(Debug, Clone, Copy, PartialEq, Eq, Structural)]
pub enum AfterSend {
    /// Nothing; the message is on its way.
    Done,
    /// Dial the peer once more, and send the message over the new connection.
    Redial,
    /// Nothing; the message is dropped.
    Dropped,
}

/// A new connection to a peer takes the place of another. One that the same side
/// dialed always does. If both sides dialed, the connection that the side with the
/// lower key dialed is preferred.
pub open spec fn replaces(
    my_id: Seq<u8>,
    peer: Seq<u8>,
    held_outbound: bool,
    outbound: bool,
) -> bool {
    ||| held_outbound == outbound
    ||| if outbound {
        key_less(my_id, peer)
    } else {
        key_less(peer, my_id)
    }
}

/// A new connection to a peer is kept.
pub open spec fn keeps_new<H>(registry: RegistryView<H>, peer: Seq<u8>, outbound: bool) -> bool {
    !registry.peers.dom().contains(peer) || replaces(
        registry.my_id,
        peer,
        registry.peers[peer].outbound,
        outbound,
    )
}

/// What becomes of a registry and of a new connection to a peer.
pub open spec fn registered<H>(
    registry: RegistryView<H>,
    peer: Seq<u8>,
    handle: H,
    outbound: bool,
) -> (RegistryView<H>, Registration<H>) {
    if keeps_new(registry, peer, outbound) {
        (
            RegistryView {
                peers: registry.peers.insert(peer, Held { handle, outbound }),
                ..registry
            },
            Registration::Installed(
                if registry.peers.dom().contains(peer) {
                    Some(registry.peers[peer].handle)
                } else {
                    None
                },
            ),
        )
    } else {
        (registry, Registration::Duplicate(handle))
    }
}

/// A registry without the connection to a peer.
pub open spec fn evicted<H>(registry: RegistryView<H>, peer: Seq<u8>) -> RegistryView<H> {
    RegistryView { peers: registry.peers.remove(peer), ..registry }
}

impl<H> Registry<H> {
    /// What is known of the registry.
    pub closed spec fn view(&self) -> RegistryView<H> {
        RegistryView { my_id: self.my_id@, peers: self.peers@ }
    }

    /// The registry is consistent.
    pub closed spec fn wf(&self) -> bool {
        self.peers.wf()
    }

    /// A registry without connections.
    pub fn new(my_id: EndpointId) -> (registry: Self)
        ensures
            registry.wf(),
            registry@ == (RegistryView::<H> { my_id: my_id@, peers: Map::empty() }),
    {
        Registry { my_id, peers: PeerTable::new() }
    }

    /// The connection to a peer; without one the peer has to be dialed.
    pub fn get(&self, peer: &EndpointId) -> (handle: Option<&H>)
        requires
            self.wf(),
        ensures
            match handle {
                Some(handle) => {
                    &&& self@.peers.dom().contains(peer@)
                    &&& *handle == self@.peers[peer@].handle
                },
                None => !self@.peers.dom().contains(peer@),
            },
    {
        match self.peers.get(peer) {
            Some(held) => Some(&held.handle),
            None => None,
        }
    }

    /// Registers a new connection to a peer, which was dialed if `outbound`.
    pub fn register(&mut self, peer: EndpointId, handle: H, outbound: bool) -> (registration:
        Registration<H>)
        requires
            old(self).wf(),
        ensures
            final(self).wf(),
            (final(self)@, registration) == registered(old(self)@, peer@, handle, outbound),
    {
        let keep_new = match self.peers.get(&peer) {
            Some(held) => if held.outbound == outbound {
                true
            } else if outbound {
                self.my_id.less_than(&peer)
            } else {
                peer.less_than(&self.my_id)
            },
            None => true,
        };
        if keep_new {
            let held = Held { handle, outbound };
            let displaced = self.peers.remove(&peer);
            self.peers.insert(peer, held);
            assert(old(self)@.peers.remove(peer@).insert(peer@, held) =~= old(self)@.peers.insert(
                peer@,
                held,
            ));
            match displaced {
                Some(displaced) => Registration::Installed(Some(displaced.handle)),
                None => Registration::Installed(None),
            }
        } else {
            Registration::Duplicate(handle)
        }
    }

    /// Forgets the connection to a peer, because its stream ended.
    pub fn evict(&mut self, peer: &EndpointId) -> (handle: Option<H>)
        requires
            old(self).wf(),
        ensures
            final(self).wf(),
            final(self)@ == evicted(old(self)@, peer@),
            handle == if old(self)@.peers.dom().contains(peer@) {
                Some(old(self)@.peers[peer@].handle)
            } else {
                None
            },
    {
        match self.peers.remove(peer) {
            Some(held) => Some(held.handle),
            None => None,
        }
    }

    /// Decides what to do after an attempt to queue a message for a peer. A connection
    /// that is gone is forgotten.
    pub fn after_try_send(&mut self, peer: &EndpointId, outcome: TrySend) -> (next: AfterSend)
        requires
            old(self).wf(),
        ensures
            final(self).wf(),
            match outcome {
                TrySend::Sent => next == AfterSend::Done && final(self)@ == old(self)@,
                TrySend::Closed => {
                    &&& next == AfterSend::Redial
                    &&& final(self)@ == evicted(old(self)@, peer@)
                },
                TrySend::Full => next == AfterSend::Dropped && final(self)@ == old(self)@,
            },
    {
        match outcome {
            TrySend::Sent => AfterSend::Done,
            TrySend::Closed => {
                let _ = self.evict(peer);
                AfterSend::Redial
            },
            TrySend::Full => AfterSend::Dropped,
        }
    }
}

/// If two endpoints dial each other at once, both prefer the same of the two
/// connections, that of the lower key: what is outbound for the one is inbound for
/// the other.
pub proof fn law_dial_glare_agreed(a: Seq<u8>, b: Seq<u8>)
    requires
        a.len() == b.len(),
        a != b,
    ensures
        replaces(a, b, false, true) == key_less(a, b),
        replaces(b, a, true, false) == key_less(a, b),
        replaces(a, b, true, false) == key_less(b, a),
        replaces(b, a, false, true) == key_less(b, a),
        replaces(a, b, false, true) != replaces(a, b, true, false),
{
    law_key_order_total(a, b);
}

/// A new connection takes the place of one that the same side dialed before.
pub proof fn law_redial_replaces<H>(
    registry: RegistryView<H>,
    peer: Seq<u8>,
    handle: H,
    outbound: bool,
)
    requires
        registry.peers.dom().contains(peer),
        registry.peers[peer].outbound == outbound,
    ensures
        registered(registry, peer, handle, outbound) == (
            RegistryView {
                peers: registry.peers.insert(peer, Held { handle, outbound }),
                ..registry
            },
            Registration::Installed(Some(registry.peers[peer].handle)),
        ),
{
}

/// Whichever of two colliding connections an endpoint registers first, it ends up
/// with the same one: the one that it dialed if its key is the lower, else the one
/// that it accepted.
pub proof fn law_registration_order_irrelevant<H>(
    registry: RegistryView<H>,
    peer: Seq<u8>,
    dialed: H,
    accepted: H,
)
    requires
        !registry.peers.dom().contains(peer),
        registry.my_id.len() == peer.len(),
        registry.my_id != peer,
    ensures
        ({
            let dialed_first = registered(
                registered(registry, peer, dialed, true).0,
                peer,
                accepted,
                false,
            ).0;
            let accepted_first = registered(
                registered(registry, peer, accepted, false).0,
                peer,
                dialed,
                true,
            ).0;
            &&& dialed_first == accepted_first
            &&& dialed_first.peers[peer].handle == if key_less(registry.my_id, peer) {
                dialed
            } else {
                accepted
            }
        }),
{
    law_key_order_total(registry.my_id, peer);
    let dialed_first = registered(
        registered(registry, peer, dialed, true).0,
        peer,
        accepted,
        false,
    );
    let accepted_first = registered(
        registered(registry, peer, accepted, false).0,
        peer,
        dialed,
        true,
    );
    assert(dialed_first.0 =~= accepted_first.0);
}

/// A connection to a peer that there was none to is kept, and displaces nothing. Whatever
/// becomes of a new connection, the handle of the one that is not kept is handed back, and
/// the connections to other peers stay.
pub proof fn law_registration_keeps_one<H>(
    registry: RegistryView<H>,
    peer: Seq<u8>,
    handle: H,
    outbound: bool,
    other: Seq<u8>,
)
    ensures
        ({
            let (after, registration) = registered(registry, peer, handle, outbound);
            &&& after.my_id == registry.my_id
            &&& after.peers.dom() == registry.peers.dom().insert(peer)
            &&& !registry.peers.dom().contains(peer) ==> {
                &&& registration == Registration::<H>::Installed(None)
                &&& after.peers[peer].handle == handle
                &&& after.peers[peer].outbound == outbound
            }
            &&& registry.peers.dom().contains(peer) ==> match registration {
                Registration::Installed(displaced) => {
                    &&& displaced == Some(registry.peers[peer].handle)
                    &&& after.peers[peer].handle == handle
                    &&& after.peers[peer].outbound == outbound
                },
                Registration::Duplicate(refused) => {
                    &&& refused == handle
                    &&& after.peers[peer] == registry.peers[peer]
                    &&& registry.peers[peer].outbound != outbound
                },
            }
            &&& other != peer ==> after.peers[other] == registry.peers[other]
        }),
{
    let (after, registration) = registered(registry, peer, handle, outbound);
    assert(after.peers.dom() =~= registry.peers.dom().insert(peer));
}

/// Of a connection that an endpoint dialed and one that it accepted from the same peer, it
/// keeps the one that the side with the lower key dialed.
pub proof fn law_lower_key_dials<H>(
    registry: RegistryView<H>,
    peer: Seq<u8>,
    handle: H,
    outbound: bool,
)
    requires
        registry.peers.dom().contains(peer),
        registry.peers[peer].outbound != outbound,
        registry.my_id.len() == peer.len(),
        registry.my_id != peer,
    ensures
        ({
            let kept = registered(registry, peer, handle, outbound).0.peers[peer];
            &&& kept.outbound <==> key_less(registry.my_id, peer)
            &&& kept.handle == if kept.outbound == outbound {
                handle
            } else {
                registry.peers[peer].handle
            }
        }),
{
    law_key_order_total(registry.my_id, peer);
}

/// Forgetting the connection to a peer leaves the others alone, and a new one to the peer
/// is kept whichever side dialed it.
pub proof fn law_evicted_peer_can_be_dialed<H>(
    registry: RegistryView<H>,
    peer: Seq<u8>,
    handle: H,
    outbound: bool,
    other: Seq<u8>,
)
    ensures
        evicted(registry, peer).my_id == registry.my_id,
        !evicted(registry, peer).peers.dom().contains(peer),
        other != peer ==> {
            &&& evicted(registry, peer).peers.dom().contains(other)
                == registry.peers.dom().contains(other)
            &&& evicted(registry, peer).peers[other] == registry.peers[other]
        },
        registered(evicted(registry, peer), peer, handle, outbound).1 == Registration::<
            H,
        >::Installed(None),
        registered(evicted(registry, peer), peer, handle, outbound).0.peers[peer].handle == handle,
{
}

} // verus!
