//! Endpoint identities and their encoding as WebRTC transport addresses.
//!
//! A WebRTC address is tagged with [`WEBRTC_TRANSPORT_ID`] and carries the
//! peer's 32-byte public key verbatim, so an endpoint can present a WebRTC path
//! without any side table.

use vstd::prelude::*;

verus! {

/// Transport ID for WebRTC: ASCII for "WRT".
pub const WEBRTC_TRANSPORT_ID: u64 = 0x575254;

/// Length of a public or secret key.
pub const KEY_LENGTH: usize = 32;

/// Whether `bytes` are the encoding of an Ed25519 curve point, as
/// `iroh_base::PublicKey::from_bytes` decides it.
pub uninterp spec fn is_public_key(bytes: Seq<u8>) -> bool;

/// The public key that belongs to a secret key, as
/// `iroh_base::SecretKey::public` derives it.
pub uninterp spec fn derived_public_key(secret: Seq<u8>) -> Seq<u8>;

/// Error of `iroh_base` for bytes that are no key.
#[verifier::external_type_specification]
#[verifier::external_body]
pub struct ExKeyParsingError(iroh_base::KeyParsingError);

/// Calls `iroh_base::PublicKey::from_bytes` and reads the key back with
/// `as_bytes`. Claimed: whether the call succeeds depends on the bytes alone,
/// and a key that is accepted keeps its bytes.
#[verifier::external_body]
fn checked_public_key(bytes: &[u8; 32]) -> (key: Result<[u8; 32], iroh_base::KeyParsingError>)
    ensures
        key is Ok <==> is_public_key(bytes@),
        key matches Ok(k) ==> k@ == bytes@,
{
    iroh_base::PublicKey::from_bytes(bytes).map(|key| *key.as_bytes())
}

/// Calls `iroh_base::SecretKey::public` on the secret key with these bytes.
/// Claimed: the public key depends on the secret bytes alone, and its bytes are
/// accepted by `iroh_base::PublicKey::from_bytes`, which never fails for bytes
/// that a public key returned.
#[verifier::external_body]
fn public_key_of(secret: &[u8; 32]) -> (key: [u8; 32])
    ensures
        key@ == derived_public_key(secret@),
        is_public_key(key@),
{
    *iroh_base::SecretKey::from_bytes(secret).public().as_bytes()
}

/// `a` and `b` agree before position `i` and differ there.
pub open spec fn first_difference(a: Seq<u8>, b: Seq<u8>, i: int) -> bool {
    &&& 0 <= i < a.len()
    &&& i < b.len()
    &&& a[i] != b[i]
    &&& forall|j: int| 0 <= j < i ==> a[j] == b[j]
}

/// `a` comes before `b` in the lexicographic order of byte strings of one
/// length.
pub open spec fn key_less(a: Seq<u8>, b: Seq<u8>) -> bool {
    exists|i: int| #[trigger] first_difference(a, b, i) && a[i] < b[i]
}

/// The identity of an endpoint: the bytes of its public key.
#[derive(Debug, Clone, Copy, PartialEq, Eq, Hash, PartialOrd, Ord)]
pub struct EndpointId {
    bytes: [u8; 32],
}

impl EndpointId {
    /// The bytes of the key.
    pub closed spec fn view(&self) -> Seq<u8> {
        self.bytes@
    }

    #[verifier::type_invariant]
    spec fn holds_public_key(self) -> bool {
        is_public_key(self.bytes@)
    }

    /// The identity whose public key has these bytes; `None` if they are no
    /// public key.
    pub fn from_bytes(bytes: &[u8; 32]) -> (id: Option<EndpointId>)
        ensures
            id is Some <==> is_public_key(bytes@),
            id matches Some(id) ==> id@ == bytes@,
    {
        match checked_public_key(bytes) {
            Ok(key) => Some(EndpointId { bytes: key }),
            Err(_) => None,
        }
    }

    /// The bytes of the key.
    pub fn as_bytes(&self) -> (bytes: &[u8; 32])
        ensures
            bytes@ == self@,
            is_public_key(bytes@),
    {
        proof {
            use_type_invariant(self);
        }
        &self.bytes
    }

    /// Whether both identities have the same key.
    pub fn same(&self, other: &EndpointId) -> (same: bool)
        ensures
            same == (self@ == other@),
    {
        let mut i: usize = 0;
        while i < 32
            invariant
                i <= 32,
                forall|j: int| 0 <= j < i ==> self@[j] == other@[j],
            decreases 32 - i,
        {
            if self.bytes[i] != other.bytes[i] {
                assert(self@[i as int] != other@[i as int]);
                return false;
            }
            i = i + 1;
        }
        assert(self@ =~= other@);
        true
    }

    /// Whether this identity comes before `other`, byte by byte.
    pub fn less_than(&self, other: &EndpointId) -> (less: bool)
        ensures
            less == key_less(self@, other@),
    {
        let mut i: usize = 0;
        while i < 32
            invariant
                i <= 32,
                forall|j: int| 0 <= j < i ==> self@[j] == other@[j],
            decreases 32 - i,
        {
            if self.bytes[i] != other.bytes[i] {
                assert(first_difference(self@, other@, i as int));
                return self.bytes[i] < other.bytes[i];
            }
            i = i + 1;
        }
        false
    }
}

/// Of two different keys of one length exactly one comes first.
pub proof fn law_key_order_total(a: Seq<u8>, b: Seq<u8>)
    requires
        a.len() == b.len(),
        a != b,
    ensures
        key_less(a, b) != key_less(b, a),
{
    if forall|i: int| 0 <= i < a.len() ==> a[i] == b[i] {
        assert(a =~= b);
    }
    let i = choose|i: int| 0 <= i < a.len() && a[i] != b[i];
    let d = lemma_first_difference(a, b, i);
    assert(first_difference(b, a, d));
    if key_less(a, b) {
        let k = choose|k: int| #[trigger] first_difference(a, b, k) && a[k] < b[k];
        assert(k == d);
    }
    if key_less(b, a) {
        let k = choose|k: int| #[trigger] first_difference(b, a, k) && b[k] < a[k];
        assert(k == d);
    }
}

/// No key comes before itself.
pub proof fn law_key_order_irreflexive(a: Seq<u8>)
    ensures
        !key_less(a, a),
{
}

/// The order of keys is transitive.
pub proof fn law_key_order_transitive(a: Seq<u8>, b: Seq<u8>, c: Seq<u8>)
    requires
        key_less(a, b),
        key_less(b, c),
        a.len() == c.len(),
    ensures
        key_less(a, c),
{
    let i = choose|i: int| #[trigger] first_difference(a, b, i) && a[i] < b[i];
    let j = choose|j: int| #[trigger] first_difference(b, c, j) && b[j] < c[j];
    let k = if i < j { i } else { j };
    assert(first_difference(a, c, k));
}

proof fn lemma_first_difference(a: Seq<u8>, b: Seq<u8>, i: int) -> (d: int)
    requires
        a.len() == b.len(),
        0 <= i < a.len(),
        a[i] != b[i],
    ensures
        first_difference(a, b, d),
    decreases i,
{
    if forall|j: int| 0 <= j < i ==> a[j] == b[j] {
        i
    } else {
        let j = choose|j: int| 0 <= j < i && a[j] != b[j];
        lemma_first_difference(a, b, j)
    }
}

/// The secret key of an endpoint.
#[derive(Clone, Copy)]
pub struct SecretKey {
    bytes: [u8; 32],
}

impl SecretKey {
    /// The bytes of the key.
    pub closed spec fn view(&self) -> Seq<u8> {
        self.bytes@
    }

    /// The secret key with these bytes.
    pub fn from_bytes(bytes: &[u8; 32]) -> (key: SecretKey)
        ensures
            key@ == bytes@,
    {
        SecretKey { bytes: *bytes }
    }

    /// The identity of the endpoint that holds this key.
    pub fn public(&self) -> (id: EndpointId)
        ensures
            id@ == derived_public_key(self@),
            is_public_key(id@),
    {
        let bytes = public_key_of(&self.bytes);
        EndpointId { bytes }
    }
}

/// An address of a custom transport: a transport ID and opaque data.
#[derive(Debug, Clone, PartialEq, Eq)]
pub struct CustomAddr {
    /// The transport that the address belongs to.
    pub id: u64,
    /// What the transport needs to reach the peer.
    pub data: Vec<u8>,
}

/// Why an address names no WebRTC peer.
#[derive(Debug, Clone, Copy, PartialEq, Eq, Structural)]
pub enum AddrError {
    /// The transport ID is not [`WEBRTC_TRANSPORT_ID`].
    NotWebRtc,
    /// The data is not 32 bytes long.
    WrongKeyLength,
    /// The data is not a public key.
    BadPublicKey,
}

impl AddrError {
    /// The error in words.
    pub open spec fn text(self) -> Seq<char> {
        match self {
            AddrError::NotWebRtc => "not a WebRTC transport address"@,
            AddrError::WrongKeyLength => "invalid WebRTC address: wrong key length"@,
            AddrError::BadPublicKey => "invalid WebRTC address: bad public key"@,
        }
    }

    /// The error in words.
    pub fn message(&self) -> (text: String)
        ensures
            text@ == self.text(),
    {
        match self {
            AddrError::NotWebRtc => "not a WebRTC transport address".to_owned(),
            AddrError::WrongKeyLength => "invalid WebRTC address: wrong key length".to_owned(),
            AddrError::BadPublicKey => "invalid WebRTC address: bad public key".to_owned(),
        }
    }
}

/// The key that an address with this ID and data names.
pub open spec fn parsed_key(id: u64, data: Seq<u8>) -> Result<Seq<u8>, AddrError> {
    if id != WEBRTC_TRANSPORT_ID {
        Err(AddrError::NotWebRtc)
    } else if data.len() != KEY_LENGTH {
        Err(AddrError::WrongKeyLength)
    } else if !is_public_key(data) {
        Err(AddrError::BadPublicKey)
    } else {
        Ok(data)
    }
}

/// Converts an endpoint's identity into its WebRTC address.
pub fn to_custom_addr(endpoint: EndpointId) -> (addr: CustomAddr)
    ensures
        addr.id == WEBRTC_TRANSPORT_ID,
        addr.data@ == endpoint@,
        parsed_key(addr.id, addr.data@) == Ok::<Seq<u8>, AddrError>(endpoint@),
{
    let bytes = endpoint.as_bytes();
    let data = vstd::slice::slice_to_vec(bytes.as_slice());
    CustomAddr { id: WEBRTC_TRANSPORT_ID, data }
}

/// Reads the endpoint's identity off a WebRTC address.
pub fn parse_endpoint_id(addr: &CustomAddr) -> (id: Result<EndpointId, AddrError>)
    ensures
        match id {
            Ok(id) => parsed_key(addr.id, addr.data@) == Ok::<Seq<u8>, AddrError>(id@),
            Err(e) => parsed_key(addr.id, addr.data@) == Err::<Seq<u8>, AddrError>(e),
        },
{
    if addr.id != WEBRTC_TRANSPORT_ID {
        return Err(AddrError::NotWebRtc);
    }
    if addr.data.len() != KEY_LENGTH {
        return Err(AddrError::WrongKeyLength);
    }
    let mut key: [u8; 32] = [0;32];
    let mut i: usize = 0;
    while i < 32
        invariant
            i <= 32,
            addr.data@.len() == 32,
            forall|j: int| 0 <= j < i ==> key@[j] == addr.data@[j],
        decreases 32 - i,
    {
        key[i] = addr.data[i];
        i = i + 1;
    }
    assert(key@ =~= addr.data@);
    match EndpointId::from_bytes(&key) {
        Some(id) => Ok(id),
        None => Err(AddrError::BadPublicKey),
    }
}

/// Whether an address belongs to this transport.
pub fn is_valid_send_addr(addr: &CustomAddr) -> (valid: bool)
    ensures
        valid == (addr.id == WEBRTC_TRANSPORT_ID),
{
    addr.id == WEBRTC_TRANSPORT_ID
}

/// The address of an endpoint leads back to it, whatever its key.
pub proof fn law_address_round_trip(key: Seq<u8>)
    requires
        key.len() == KEY_LENGTH,
        is_public_key(key),
    ensures
        parsed_key(WEBRTC_TRANSPORT_ID, key) == Ok::<Seq<u8>, AddrError>(key),
{
}

/// Two addresses that name the same peer are the same address.
pub proof fn law_address_unique(id1: u64, data1: Seq<u8>, id2: u64, data2: Seq<u8>)
    requires
        parsed_key(id1, data1) is Ok,
        parsed_key(id1, data1) == parsed_key(id2, data2),
    ensures
        id1 == id2,
        data1 == data2,
{
}

/// Keys are ordered by the first byte in which they differ, whatever comes after it.
pub proof fn law_key_order_is_lexicographic(
    common: Seq<u8>,
    low: u8,
    high: u8,
    rest_of_low: Seq<u8>,
    rest_of_high: Seq<u8>,
)
    requires
        low < high,
    ensures
        key_less(common.push(low) + rest_of_low, common.push(high) + rest_of_high),
        !key_less(common.push(high) + rest_of_high, common.push(low) + rest_of_low),
{
    let a = common.push(low) + rest_of_low;
    let b = common.push(high) + rest_of_high;
    let i = common.len() as int;
    assert(first_difference(a, b, i));
    if key_less(b, a) {
        let k = choose|k: int| #[trigger] first_difference(b, a, k) && b[k] < a[k];
        if k < i {
            assert(a[k] == common[k] && b[k] == common[k]);
        } else if k > i {
            assert(b[i] == a[i]);
        }
    }
}

/// An address names the peer whose key it carries, exactly if it belongs to this
/// transport and carries 32 bytes that are a public key. Of what is wrong with it the
/// first is told.
pub proof fn law_address_names_key(id: u64, data: Seq<u8>)
    ensures
        parsed_key(id, data) is Ok <==> id == 0x575254 && data.len() == 32 && is_public_key(data),
        parsed_key(id, data) matches Ok(key) ==> key == data,
        id != 0x575254 ==> parsed_key(id, data) == Err::<Seq<u8>, _>(AddrError::NotWebRtc),
        id == 0x575254 && data.len() != 32 ==> parsed_key(id, data) == Err::<Seq<u8>, _>(
            AddrError::WrongKeyLength,
        ),
        id == 0x575254 && data.len() == 32 && !is_public_key(data) ==> parsed_key(id, data)
            == Err::<Seq<u8>, _>(AddrError::BadPublicKey),
{
}

/// What an address names is what was put into it: an address that was made for an endpoint
/// is read back as that endpoint, and one that is read names the key that it carries.
pub proof fn law_address_calls(
    endpoint: EndpointId,
    made: CustomAddr,
    addr: &CustomAddr,
    read: Result<EndpointId, AddrError>,
    valid: bool,
)
    requires
        call_ensures(to_custom_addr, (endpoint,), made),
        call_ensures(parse_endpoint_id, (addr,), read),
        call_ensures(is_valid_send_addr, (addr,), valid),
    ensures
        made.id == 0x575254,
        made.data@ == endpoint@,
        addr.id == made.id && addr.data@ == made.data@ ==> read is Ok && read->Ok_0@ == endpoint@,
        valid <==> addr.id == 0x575254,
        match read {
            Ok(id) => valid && addr.data@.len() == 32 && id@ == addr.data@,
            Err(AddrError::NotWebRtc) => !valid,
            Err(AddrError::WrongKeyLength) => valid && addr.data@.len() != 32,
            Err(AddrError::BadPublicKey) => valid && addr.data@.len() == 32 && !is_public_key(
                addr.data@,
            ),
        },
{
    law_address_names_key(addr.id, addr.data@);
}

/// Each error of an address says in its own words what is wrong with it.
pub proof fn law_addr_error_message_call(error: &AddrError, text: String)
    requires
        call_ensures(AddrError::message, (error,), text),
    ensures
        match error {
            AddrError::NotWebRtc => text@ == "not a WebRTC transport address"@,
            AddrError::WrongKeyLength => text@ == "invalid WebRTC address: wrong key length"@,
            AddrError::BadPublicKey => text@ == "invalid WebRTC address: bad public key"@,
        },
{
}

/// Keys are compared byte by byte: the smaller one has the smaller byte where they first
/// differ.
pub proof fn law_key_order_call(a: &EndpointId, b: &EndpointId, less: bool, i: int)
    requires
        call_ensures(EndpointId::less_than, (a, b), less),
        a@.len() == b@.len(),
        0 <= i < a@.len(),
        a@[i] != b@[i],
        forall|j: int| 0 <= j < i ==> a@[j] == b@[j],
    ensures
        less <==> a@[i] < b@[i],
{
    let common = a@.take(i);
    let rest_of_a = a@.skip(i + 1);
    let rest_of_b = b@.skip(i + 1);
    assert(a@ =~= common.push(a@[i]) + rest_of_a);
    assert(b@ =~= common.push(b@[i]) + rest_of_b);
    if a@[i] < b@[i] {
        law_key_order_is_lexicographic(common, a@[i], b@[i], rest_of_a, rest_of_b);
    } else {
        law_key_order_is_lexicographic(common, b@[i], a@[i], rest_of_b, rest_of_a);
    }
}

} // verus!
