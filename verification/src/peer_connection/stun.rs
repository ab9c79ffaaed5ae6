//! Minimal STUN binding requests and responses.
//!
//! Only what is needed to ask a public STUN server for the mapped address of a
//! socket. Public servers do not protect their responses with a message
//! integrity attribute.

use vstd::prelude::*;

use crate::net::{SocketAddr, SocketAddrView};

verus! {

/// XOR-MAPPED-ADDRESS attribute type.
pub const XOR_MAPPED_ADDRESS: u16 = 0x0020;

/// MAPPED-ADDRESS attribute type, sent by older servers.
pub const MAPPED_ADDRESS: u16 = 0x0001;

/// Size of a STUN header.
pub const HEADER_SIZE: usize = 20;

/// STUN magic cookie.
pub open spec fn magic_cookie() -> Seq<u8> {
    seq![0x21u8, 0x12, 0xA4, 0x42]
}

/// The number that two bytes stand for, the more significant first.
pub open spec fn be16(high: u8, low: u8) -> u16 {
    (high * 256 + low) as u16
}

/// The two bytes of a number, the more significant first.
pub open spec fn be16_bytes(n: u16) -> Seq<u8> {
    seq![(n / 256) as u8, (n % 256) as u8]
}

/// A binding request without attributes.
pub open spec fn binding_request(transaction_id: Seq<u8>) -> Seq<u8> {
    seq![0x00u8, 0x01, 0x00, 0x00] + magic_cookie() + transaction_id
}

/// An attribute of a STUN message.
#[verifier::ext_equal]
pub struct Attribute {
    /// Its type.
    pub kind: u16,
    /// Its value, without padding.
    pub value: Seq<u8>,
}

/// A length rounded up to a multiple of four.
pub open spec fn padded(len: int) -> int {
    (len + 3) / 4 * 4
}

/// The attributes that `bytes` hold, up to the first that does not fit.
pub open spec fn attributes(bytes: Seq<u8>) -> Seq<Attribute>
    decreases bytes.len(),
{
    if bytes.len() < 4 {
        Seq::empty()
    } else {
        let len = be16(bytes[2], bytes[3]) as int;
        if 4 + len > bytes.len() {
            Seq::empty()
        } else {
            let attribute = Attribute {
                kind: be16(bytes[0], bytes[1]),
                value: bytes.subrange(4, 4 + len),
            };
            let next = 4 + padded(len);
            if next > bytes.len() {
                seq![attribute]
            } else {
                seq![attribute] + attributes(bytes.skip(next))
            }
        }
    }
}

/// The address that the value of an XOR-MAPPED-ADDRESS attribute stands for. The
/// port is masked with the front of the cookie, and the address with the cookie
/// and the transaction ID.
pub open spec fn xor_mapped_address(value: Seq<u8>, transaction_id: Seq<u8>) -> Option<
    SocketAddrView,
> {
    let mask = magic_cookie() + transaction_id;
    if value.len() < 4 {
        None
    } else {
        let port = be16(value[2], value[3]) ^ 0x2112;
        if value[1] == 0x01 && value.len() >= 8 {
            Some(
                SocketAddrView::V4 {
                    octets: Seq::new(4, |i: int| value[4 + i] ^ mask[i]),
                    port,
                },
            )
        } else if value[1] == 0x02 && value.len() >= 20 {
            Some(
                SocketAddrView::V6 {
                    octets: Seq::new(16, |i: int| value[4 + i] ^ mask[i]),
                    port,
                },
            )
        } else {
            None
        }
    }
}

/// The address that the value of a MAPPED-ADDRESS attribute stands for.
pub open spec fn mapped_address(value: Seq<u8>) -> Option<SocketAddrView> {
    if value.len() < 4 {
        None
    } else {
        let port = be16(value[2], value[3]);
        if value[1] == 0x01 && value.len() >= 8 {
            Some(SocketAddrView::V4 { octets: value.subrange(4, 8), port })
        } else if value[1] == 0x02 && value.len() >= 20 {
            Some(SocketAddrView::V6 { octets: value.subrange(4, 20), port })
        } else {
            None
        }
    }
}

/// The address in the first XOR-MAPPED-ADDRESS attribute that holds one.
pub open spec fn first_xor_mapped(
    attributes: Seq<Attribute>,
    transaction_id: Seq<u8>,
) -> Option<SocketAddrView>
    decreases attributes.len(),
{
    if attributes.len() == 0 {
        None
    } else if attributes[0].kind == XOR_MAPPED_ADDRESS && xor_mapped_address(
        attributes[0].value,
        transaction_id,
    ) is Some {
        xor_mapped_address(attributes[0].value, transaction_id)
    } else {
        first_xor_mapped(attributes.drop_first(), transaction_id)
    }
}

/// The address in the first MAPPED-ADDRESS attribute that holds one.
pub open spec fn first_mapped(attributes: Seq<Attribute>) -> Option<SocketAddrView>
    decreases attributes.len(),
{
    if attributes.len() == 0 {
        None
    } else if attributes[0].kind == MAPPED_ADDRESS && mapped_address(
        attributes[0].value,
    ) is Some {
        mapped_address(attributes[0].value)
    } else {
        first_mapped(attributes.drop_first())
    }
}

/// `data` is a binding success response to the transaction, and long enough for
/// the attributes that it announces.
pub open spec fn is_response(data: Seq<u8>, transaction_id: Seq<u8>) -> bool {
    &&& data.len() >= HEADER_SIZE
    &&& data.subrange(0, 2) == seq![0x01u8, 0x01]
    &&& data.subrange(4, 8) == magic_cookie()
    &&& data.subrange(8, 20) == transaction_id
    &&& data.len() >= HEADER_SIZE + be16(data[2], data[3])
}

/// The attributes of a response.
pub open spec fn response_attributes(data: Seq<u8>) -> Seq<Attribute> {
    attributes(data.subrange(HEADER_SIZE as int, HEADER_SIZE + be16(data[2], data[3])))
}

/// The mapped address in a response: that of an XOR-MAPPED-ADDRESS attribute if
/// there is one, else that of a MAPPED-ADDRESS attribute.
pub open spec fn response_address(data: Seq<u8>, transaction_id: Seq<u8>) -> Option<
    SocketAddrView,
> {
    if !is_response(data, transaction_id) {
        None
    } else {
        match first_xor_mapped(response_attributes(data), transaction_id) {
            Some(addr) => Some(addr),
            None => first_mapped(response_attributes(data)),
        }
    }
}

/// What an optional address says.
pub open spec fn optional_addr(addr: Option<SocketAddr>) -> Option<SocketAddrView> {
    match addr {
        Some(addr) => Some(addr@),
        None => None,
    }
}

/// Builds a STUN binding request.
pub fn build_binding_request(transaction_id: &[u8; 12]) -> (request: Vec<u8>)
    ensures
        request@ == binding_request(transaction_id@),
        request.len() == HEADER_SIZE,
{
    let mut request: Vec<u8> = Vec::with_capacity(HEADER_SIZE);
    request.push(0x00);
    request.push(0x01);
    request.push(0x00);
    request.push(0x00);
    request.push(0x21);
    request.push(0x12);
    request.push(0xA4);
    request.push(0x42);
    request.extend_from_slice(transaction_id.as_slice());
    assert(request@ =~= binding_request(transaction_id@));
    request
}

/// Reads two bytes, the more significant first.
fn read_be16(high: u8, low: u8) -> (n: u16)
    ensures
        n == be16(high, low),
{
    high as u16 * 256 + low as u16
}

/// Decodes the value of an XOR-MAPPED-ADDRESS attribute.
pub fn decode_xor_mapped_address(value: &[u8], transaction_id: &[u8; 12]) -> (addr: Option<
    SocketAddr,
>)
    ensures
        optional_addr(addr) == xor_mapped_address(value@, transaction_id@),
{
    if value.len() < 4 {
        return None;
    }
    let family = value[1];
    let port = read_be16(value[2], value[3]) ^ 0x2112;
    if family == 0x01 {
        if value.len() < 8 {
            return None;
        }
        let octets = [value[4] ^ 0x21, value[5] ^ 0x12, value[6] ^ 0xA4, value[7] ^ 0x42];
        proof {
            let mask = magic_cookie() + transaction_id@;
            assert(octets@ =~= Seq::new(4, |i: int| value@[4 + i] ^ mask[i]));
        }
        Some(SocketAddr::V4 { octets, port })
    } else if family == 0x02 {
        if value.len() < 20 {
            return None;
        }
        let mut octets: [u8; 16] = [0;16];
        octets[0] = value[4] ^ 0x21;
        octets[1] = value[5] ^ 0x12;
        octets[2] = value[6] ^ 0xA4;
        octets[3] = value[7] ^ 0x42;
        let ghost mask = magic_cookie() + transaction_id@;
        let mut i: usize = 4;
        while i < 16
            invariant
                4 <= i <= 16,
                value.len() >= 20,
                mask == magic_cookie() + transaction_id@,
                forall|j: int| 0 <= j < i ==> octets@[j] == value@[4 + j] ^ mask[j],
            decreases 16 - i,
        {
            assert(mask[i as int] == transaction_id@[i - 4]);
            octets[i] = value[4 + i] ^ transaction_id[i - 4];
            i = i + 1;
        }
        assert(octets@ =~= Seq::new(16, |i: int| value@[4 + i] ^ mask[i]));
        Some(SocketAddr::V6 { octets, port })
    } else {
        None
    }
}

/// Decodes the value of a MAPPED-ADDRESS attribute.
pub fn decode_mapped_address(value: &[u8]) -> (addr: Option<SocketAddr>)
    ensures
        optional_addr(addr) == mapped_address(value@),
{
    if value.len() < 4 {
        return None;
    }
    let family = value[1];
    let port = read_be16(value[2], value[3]);
    if family == 0x01 {
        if value.len() < 8 {
            return None;
        }
        let octets = [value[4], value[5], value[6], value[7]];
        assert(octets@ =~= value@.subrange(4, 8));
        Some(SocketAddr::V4 { octets, port })
    } else if family == 0x02 {
        if value.len() < 20 {
            return None;
        }
        let mut octets: [u8; 16] = [0;16];
        let mut i: usize = 0;
        while i < 16
            invariant
                i <= 16,
                value.len() >= 20,
                forall|j: int| 0 <= j < i ==> octets@[j] == value@[4 + j],
            decreases 16 - i,
        {
            octets[i] = value[4 + i];
            i = i + 1;
        }
        assert(octets@ =~= value@.subrange(4, 20));
        Some(SocketAddr::V6 { octets, port })
    } else {
        None
    }
}

/// Whether `data` begins like a binding success response to the transaction.
fn has_response_header(data: &[u8], expected_tid: &[u8; 12]) -> (found: bool)
    requires
        data.len() >= HEADER_SIZE,
    ensures
        found == {
            &&& data@.subrange(0, 2) == seq![0x01u8, 0x01]
            &&& data@.subrange(4, 8) == magic_cookie()
            &&& data@.subrange(8, 20) == expected_tid@
        },
{
    let ghost kind = data@.subrange(0, 2);
    let ghost cookie = data@.subrange(4, 8);
    let ghost tid = data@.subrange(8, 20);
    if data[0] != 0x01 || data[1] != 0x01 {
        assert(kind[0] == data@[0] && kind[1] == data@[1]);
        return false;
    }
    assert(kind =~= seq![0x01u8, 0x01]);
    if data[4] != 0x21 || data[5] != 0x12 || data[6] != 0xA4 || data[7] != 0x42 {
        assert(cookie[0] == data@[4] && cookie[1] == data@[5]);
        assert(cookie[2] == data@[6] && cookie[3] == data@[7]);
        return false;
    }
    assert(cookie =~= magic_cookie());
    let mut i: usize = 0;
    while i < 12
        invariant
            i <= 12,
            data.len() >= 20,
            tid == data@.subrange(8, 20),
            forall|j: int| 0 <= j < i ==> data@[8 + j] == expected_tid@[j],
        decreases 12 - i,
    {
        if data[8 + i] != expected_tid[i] {
            assert(tid[i as int] == data@[8 + i]);
            return false;
        }
        i = i + 1;
    }
    assert(tid =~= expected_tid@);
    true
}

/// Parses a STUN binding success response and extracts the mapped address.
///
/// `None` if `data` is no response to the transaction, or holds no mapped
/// address.
pub fn parse_binding_response(data: &[u8], expected_tid: &[u8; 12]) -> (addr: Option<SocketAddr>)
    ensures
        optional_addr(addr) == response_address(data@, expected_tid@),
{
    if data.len() < HEADER_SIZE {
        return None;
    }
    if !has_response_header(data, expected_tid) {
        return None;
    }
    let msg_len = read_be16(data[2], data[3]) as usize;
    if data.len() < HEADER_SIZE + msg_len {
        return None;
    }
    let attrs = vstd::slice::slice_subrange(data, HEADER_SIZE, HEADER_SIZE + msg_len);
    let ghost all = attributes(attrs@);
    let mut mapped: Option<SocketAddr> = None;
    let mut offset: usize = 0;
    assert(attrs@.skip(0) =~= attrs@);
    while offset + 4 <= attrs.len()
        invariant
            offset <= attrs.len() + 65540,
            attrs.len() <= 65535,
            offset <= attrs.len() ==> {
                let rest = attributes(attrs@.skip(offset as int));
                &&& first_xor_mapped(all, expected_tid@) == first_xor_mapped(rest, expected_tid@)
                &&& first_mapped(all) == match mapped {
                    Some(addr) => Some(addr@),
                    None => first_mapped(rest),
                }
            },
            offset > attrs.len() ==> {
                &&& first_xor_mapped(all, expected_tid@) is None
                &&& first_mapped(all) == optional_addr(mapped)
            },
            all == attributes(attrs@),
            is_response(data@, expected_tid@),
            all == response_attributes(data@),
        ensures
            first_xor_mapped(all, expected_tid@) is None,
            first_mapped(all) == optional_addr(mapped),
        decreases attrs.len() + 65540 - offset,
    {
        let ghost here = attrs@.skip(offset as int);
        let attr_type = read_be16(attrs[offset], attrs[offset + 1]);
        let attr_len = read_be16(attrs[offset + 2], attrs[offset + 3]) as usize;
        if offset + 4 + attr_len > attrs.len() {
            break;
        }
        let attr_value = vstd::slice::slice_subrange(attrs, offset + 4, offset + 4 + attr_len);
        let ghost attribute = Attribute { kind: attr_type, value: attr_value@ };
        let ghost rest = attributes(here);
        proof {
            assert(here.subrange(4, 4 + attr_len) =~= attr_value@);
            assert(rest[0] == attribute);
        }
        if attr_type == XOR_MAPPED_ADDRESS {
            if let Some(addr) = decode_xor_mapped_address(attr_value, expected_tid) {
                return Some(addr);
            }
        } else if attr_type == MAPPED_ADDRESS && mapped.is_none() {
            mapped = decode_mapped_address(attr_value);
        }
        let padded_len = (attr_len + 3) / 4 * 4;
        proof {
            let next = 4 + padded_len;
            if next > here.len() {
                assert(rest.drop_first() =~= Seq::empty());
                assert(first_xor_mapped(rest.drop_first(), expected_tid@) is None);
                assert(first_mapped(rest.drop_first()) is None);
            } else {
                assert(here.skip(next as int) =~= attrs@.skip(offset + next));
                assert(rest.drop_first() =~= attributes(here.skip(next as int)));
            }
        }
        offset = offset + 4 + padded_len;
    }
    mapped
}

/// An address has as many octets as its family asks for.
pub open spec fn is_addr(addr: SocketAddrView) -> bool {
    match addr {
        SocketAddrView::V4 { octets, .. } => octets.len() == 4,
        SocketAddrView::V6 { octets, .. } => octets.len() == 16,
    }
}

/// How a server writes an address into a MAPPED-ADDRESS attribute.
pub open spec fn mapped_value(addr: SocketAddrView) -> Seq<u8> {
    match addr {
        SocketAddrView::V4 { octets, port } => seq![0x00u8, 0x01] + be16_bytes(port) + octets,
        SocketAddrView::V6 { octets, port } => seq![0x00u8, 0x02] + be16_bytes(port) + octets,
    }
}

/// An address with port and octets masked.
pub open spec fn masked(addr: SocketAddrView, transaction_id: Seq<u8>) -> SocketAddrView {
    let mask = seq![0x21u8, 0x12, 0xA4, 0x42] + transaction_id;
    match addr {
        SocketAddrView::V4 { octets, port } => SocketAddrView::V4 {
            octets: Seq::new(4, |i: int| octets[i] ^ mask[i]),
            port: port ^ 0x2112,
        },
        SocketAddrView::V6 { octets, port } => SocketAddrView::V6 {
            octets: Seq::new(16, |i: int| octets[i] ^ mask[i]),
            port: port ^ 0x2112,
        },
    }
}

/// How a server writes an attribute whose length is a multiple of four.
pub open spec fn attribute_bytes(kind: u16, value: Seq<u8>) -> Seq<u8> {
    be16_bytes(kind) + be16_bytes(value.len() as u16) + value
}

/// How a server writes a binding success response.
pub open spec fn response_bytes(transaction_id: Seq<u8>, attributes: Seq<u8>) -> Seq<u8> {
    seq![0x01u8, 0x01] + be16_bytes(attributes.len() as u16) + seq![0x21u8, 0x12, 0xA4, 0x42]
        + transaction_id + attributes
}

/// A number is read back from its bytes, the more significant of which stands first.
pub proof fn law_be16_round_trip(n: u16)
    ensures
        be16_bytes(n) == seq![(n / 256) as u8, (n % 256) as u8],
        be16(be16_bytes(n)[0], be16_bytes(n)[1]) == n,
{
}

proof fn lemma_unmask(a: u8, m: u8, p: u16)
    ensures
        (a ^ m) ^ m == a,
        (p ^ 0x2112) ^ 0x2112 == p,
{
    assert((a ^ m) ^ m == a) by (bit_vector);
    assert((p ^ 0x2112) ^ 0x2112 == p) by (bit_vector);
}

proof fn lemma_one_attribute(kind: u16, value: Seq<u8>)
    requires
        value.len() <= 20,
        value.len() % 4 == 0,
    ensures
        attributes(attribute_bytes(kind, value)) == seq![Attribute { kind, value }],
{
    let bytes = attribute_bytes(kind, value);
    law_be16_round_trip(kind);
    law_be16_round_trip(value.len() as u16);
    assert(bytes.subrange(4, 4 + value.len() as int) =~= value);
    assert(bytes.skip(4 + value.len() as int) =~= Seq::empty());
    assert(attributes(Seq::<u8>::empty()) =~= Seq::empty());
    assert(padded(value.len() as int) == value.len());
    assert(bytes.len() == 4 + value.len());
    assert(attributes(bytes) =~= seq![Attribute { kind, value }]);
}

proof fn lemma_response(transaction_id: Seq<u8>, attrs: Seq<u8>)
    requires
        transaction_id.len() == 12,
        attrs.len() <= 65535,
    ensures
        is_response(response_bytes(transaction_id, attrs), transaction_id),
        response_attributes(response_bytes(transaction_id, attrs)) == attributes(attrs),
{
    let data = response_bytes(transaction_id, attrs);
    law_be16_round_trip(attrs.len() as u16);
    assert(data.subrange(0, 2) =~= seq![0x01u8, 0x01]);
    assert(data.subrange(4, 8) =~= magic_cookie());
    assert(data.subrange(8, 20) =~= transaction_id);
    assert(data.subrange(20, 20 + attrs.len() as int) =~= attrs);
}

proof fn lemma_mapped_value(addr: SocketAddrView)
    requires
        is_addr(addr),
    ensures
        mapped_address(mapped_value(addr)) == Some(addr),
{
    let value = mapped_value(addr);
    match addr {
        SocketAddrView::V4 { octets, port } => {
            law_be16_round_trip(port);
            assert(value.subrange(4, 8) =~= octets);
        },
        SocketAddrView::V6 { octets, port } => {
            law_be16_round_trip(port);
            assert(value.subrange(4, 20) =~= octets);
        },
    }
}

proof fn lemma_xor_mapped_value(addr: SocketAddrView, transaction_id: Seq<u8>)
    requires
        is_addr(addr),
        transaction_id.len() == 12,
    ensures
        xor_mapped_address(mapped_value(masked(addr, transaction_id)), transaction_id) == Some(
            addr,
        ),
{
    let mask = magic_cookie() + transaction_id;
    let value = mapped_value(masked(addr, transaction_id));
    assert forall|a: u8, m: u8| #[trigger] ((a ^ m) ^ m) == a by {
        lemma_unmask(a, m, 0);
    }
    match addr {
        SocketAddrView::V4 { octets, port } => {
            lemma_unmask(0, 0, port);
            law_be16_round_trip(port ^ 0x2112);
            assert(Seq::new(4, |i: int| value[4 + i] ^ mask[i]) =~= octets);
        },
        SocketAddrView::V6 { octets, port } => {
            lemma_unmask(0, 0, port);
            law_be16_round_trip(port ^ 0x2112);
            assert(Seq::new(16, |i: int| value[4 + i] ^ mask[i]) =~= octets);
        },
    }
}

/// The address that a server puts into an XOR-MAPPED-ADDRESS attribute is the one
/// that is read from its response.
pub proof fn law_xor_mapped_round_trip(addr: SocketAddrView, transaction_id: Seq<u8>)
    requires
        is_addr(addr),
        transaction_id.len() == 12,
    ensures
        response_address(
            response_bytes(
                transaction_id,
                attribute_bytes(XOR_MAPPED_ADDRESS, mapped_value(masked(addr, transaction_id))),
            ),
            transaction_id,
        ) == Some(addr),
{
    let value = mapped_value(masked(addr, transaction_id));
    lemma_xor_mapped_value(addr, transaction_id);
    lemma_one_attribute(XOR_MAPPED_ADDRESS, value);
    lemma_response(transaction_id, attribute_bytes(XOR_MAPPED_ADDRESS, value));
}

/// The address that an older server puts into a MAPPED-ADDRESS attribute is read
/// from its response too.
pub proof fn law_mapped_round_trip(addr: SocketAddrView, transaction_id: Seq<u8>)
    requires
        is_addr(addr),
        transaction_id.len() == 12,
    ensures
        response_address(
            response_bytes(
                transaction_id,
                attribute_bytes(MAPPED_ADDRESS, mapped_value(addr)),
            ),
            transaction_id,
        ) == Some(addr),
{
    let value = mapped_value(addr);
    let attrs = seq![Attribute { kind: MAPPED_ADDRESS, value }];
    lemma_mapped_value(addr);
    lemma_one_attribute(MAPPED_ADDRESS, value);
    lemma_response(transaction_id, attribute_bytes(MAPPED_ADDRESS, value));
    assert(attrs.drop_first() =~= Seq::empty());
    assert(first_xor_mapped(attrs.drop_first(), transaction_id) is None);
    assert(first_xor_mapped(attrs, transaction_id) is None);
}

/// An attribute as a server writes it, padded to a multiple of four with whatever
/// bytes.
#[verifier::ext_equal]
pub struct WrittenAttribute {
    /// Its type.
    pub kind: u16,
    /// Its value.
    pub value: Seq<u8>,
    /// What fills it up.
    pub padding: Seq<u8>,
}

impl WrittenAttribute {
    /// The value is short enough for its length to be written, and no more is padded
    /// than has to be.
    pub open spec fn wf(self) -> bool {
        &&& self.value.len() <= 0xFFFF
        &&& self.padding.len() < 4
        &&& (self.value.len() + self.padding.len()) % 4 == 0
    }

    /// Type, length, value and padding.
    pub open spec fn bytes(self) -> Seq<u8> {
        seq![
            (self.kind / 256) as u8,
            (self.kind % 256) as u8,
            (self.value.len() / 256) as u8,
            (self.value.len() % 256) as u8,
        ] + self.value + self.padding
    }
}

/// Attributes one after the other.
pub open spec fn list_bytes(list: Seq<WrittenAttribute>) -> Seq<u8>
    decreases list.len(),
{
    if list.len() == 0 {
        Seq::empty()
    } else {
        list[0].bytes() + list_bytes(list.drop_first())
    }
}

spec fn as_read(list: Seq<WrittenAttribute>) -> Seq<Attribute> {
    list.map_values(
        |written: WrittenAttribute| Attribute { kind: written.kind, value: written.value },
    )
}

proof fn lemma_written_read(written: WrittenAttribute, rest: Seq<u8>)
    requires
        written.wf(),
    ensures
        attributes(written.bytes() + rest) == seq![
            Attribute { kind: written.kind, value: written.value },
        ] + attributes(rest),
{
    let bytes = written.bytes() + rest;
    let len = written.value.len() as int;
    assert(be16(bytes[0], bytes[1]) == written.kind);
    assert(be16(bytes[2], bytes[3]) == len);
    assert(bytes.subrange(4, 4 + len) =~= written.value);
    assert(padded(len) == len + written.padding.len());
    assert(bytes.skip(4 + padded(len)) =~= rest);
}

proof fn lemma_list_read(list: Seq<WrittenAttribute>, rest: Seq<u8>)
    requires
        forall|i: int| 0 <= i < list.len() ==> (#[trigger] list[i]).wf(),
    ensures
        attributes(list_bytes(list) + rest) == as_read(list) + attributes(rest),
    decreases list.len(),
{
    if list.len() == 0 {
        assert(list_bytes(list) + rest =~= rest);
        assert(as_read(list) + attributes(rest) =~= attributes(rest));
    } else {
        let tail = list.drop_first();
        assert forall|i: int| 0 <= i < tail.len() implies (#[trigger] tail[i]).wf() by {
            assert(tail[i] == list[i + 1]);
        }
        lemma_list_read(tail, rest);
        lemma_written_read(list[0], list_bytes(tail) + rest);
        assert(list_bytes(list) + rest =~= list[0].bytes() + (list_bytes(tail) + rest));
        let first = Attribute { kind: list[0].kind, value: list[0].value };
        assert(seq![first] + (as_read(tail) + attributes(rest)) =~= as_read(list) + attributes(
            rest,
        ));
    }
}

proof fn lemma_first_xor_past(before: Seq<Attribute>, after: Seq<Attribute>, tid: Seq<u8>)
    requires
        forall|i: int|
            0 <= i < before.len() ==> (#[trigger] before[i]).kind != 0x0020
                || before[i].value.len() < 8,
    ensures
        first_xor_mapped(before + after, tid) == first_xor_mapped(after, tid),
    decreases before.len(),
{
    if before.len() == 0 {
        assert(before + after =~= after);
    } else {
        let tail = before.drop_first();
        assert forall|i: int| 0 <= i < tail.len() implies (#[trigger] tail[i]).kind != 0x0020
            || tail[i].value.len() < 8 by {
            assert(tail[i] == before[i + 1]);
        }
        lemma_first_xor_past(tail, after, tid);
        assert((before + after).drop_first() =~= tail + after);
        assert(before[0].kind != 0x0020 || before[0].value.len() < 8);
    }
}

proof fn lemma_first_mapped_past(before: Seq<Attribute>, after: Seq<Attribute>)
    requires
        forall|i: int|
            0 <= i < before.len() ==> (#[trigger] before[i]).kind != 0x0001
                || before[i].value.len() < 8,
    ensures
        first_mapped(before + after) == first_mapped(after),
    decreases before.len(),
{
    if before.len() == 0 {
        assert(before + after =~= after);
    } else {
        let tail = before.drop_first();
        assert forall|i: int| 0 <= i < tail.len() implies (#[trigger] tail[i]).kind != 0x0001
            || tail[i].value.len() < 8 by {
            assert(tail[i] == before[i + 1]);
        }
        lemma_first_mapped_past(tail, after);
        assert((before + after).drop_first() =~= tail + after);
        assert(before[0].kind != 0x0001 || before[0].value.len() < 8);
    }
}

/// The address that is read is that of the first XOR-MAPPED-ADDRESS attribute that is
/// long enough for one, whatever attributes stand before it, a MAPPED-ADDRESS among
/// them, and whatever bytes come after it.
pub proof fn law_first_xor_mapped_is_read(
    before: Seq<WrittenAttribute>,
    addr: SocketAddrView,
    after: Seq<u8>,
    transaction_id: Seq<u8>,
)
    requires
        is_addr(addr),
        transaction_id.len() == 12,
        forall|i: int|
            0 <= i < before.len() ==> (#[trigger] before[i]).wf() && (before[i].kind != 0x0020
                || before[i].value.len() < 8),
        (list_bytes(before) + attribute_bytes(
            0x0020,
            mapped_value(masked(addr, transaction_id)),
        ) + after).len() <= 65535,
    ensures
        response_address(
            response_bytes(
                transaction_id,
                list_bytes(before) + attribute_bytes(
                    0x0020,
                    mapped_value(masked(addr, transaction_id)),
                ) + after,
            ),
            transaction_id,
        ) == Some(addr),
{
    let value = mapped_value(masked(addr, transaction_id));
    let ours = WrittenAttribute { kind: 0x0020, value, padding: Seq::empty() };
    let read = Attribute { kind: 0x0020, value };
    let attrs = list_bytes(before) + attribute_bytes(0x0020, value) + after;
    assert(ours.bytes() =~= attribute_bytes(0x0020, value));
    assert(attrs =~= list_bytes(before) + (ours.bytes() + after));
    lemma_list_read(before, ours.bytes() + after);
    lemma_written_read(ours, after);
    let rest = seq![read] + attributes(after);
    assert forall|i: int| 0 <= i < before.len() implies (#[trigger] as_read(before)[i]).kind
        != 0x0020 || as_read(before)[i].value.len() < 8 by {
        assert(before[i].kind != 0x0020 || before[i].value.len() < 8);
    }
    lemma_first_xor_past(as_read(before), rest, transaction_id);
    lemma_xor_mapped_value(addr, transaction_id);
    assert(rest[0] == read);
    lemma_response(transaction_id, attrs);
}

/// If no XOR-MAPPED-ADDRESS attribute is long enough for an address, the address that
/// is read is that of the first MAPPED-ADDRESS attribute that is, whatever other
/// attributes stand before and after it.
pub proof fn law_first_mapped_is_read(
    before: Seq<WrittenAttribute>,
    addr: SocketAddrView,
    after: Seq<WrittenAttribute>,
    transaction_id: Seq<u8>,
)
    requires
        is_addr(addr),
        transaction_id.len() == 12,
        forall|i: int|
            0 <= i < before.len() ==> (#[trigger] before[i]).wf() && ((before[i].kind != 0x0020
                && before[i].kind != 0x0001) || before[i].value.len() < 8),
        forall|i: int|
            0 <= i < after.len() ==> (#[trigger] after[i]).wf() && (after[i].kind != 0x0020
                || after[i].value.len() < 8),
        (list_bytes(before) + attribute_bytes(0x0001, mapped_value(addr)) + list_bytes(
            after,
        )).len() <= 65535,
    ensures
        response_address(
            response_bytes(
                transaction_id,
                list_bytes(before) + attribute_bytes(0x0001, mapped_value(addr)) + list_bytes(
                    after,
                ),
            ),
            transaction_id,
        ) == Some(addr),
{
    let value = mapped_value(addr);
    let ours = WrittenAttribute { kind: 0x0001, value, padding: Seq::empty() };
    let read = Attribute { kind: 0x0001, value };
    let attrs = list_bytes(before) + attribute_bytes(0x0001, value) + list_bytes(after);
    assert(ours.bytes() =~= attribute_bytes(0x0001, value));
    assert(attrs =~= list_bytes(before) + (ours.bytes() + list_bytes(after)));
    lemma_list_read(before, ours.bytes() + list_bytes(after));
    lemma_written_read(ours, list_bytes(after));
    lemma_list_read(after, Seq::empty());
    assert(list_bytes(after) + Seq::<u8>::empty() =~= list_bytes(after));
    assert(attributes(Seq::<u8>::empty()) =~= Seq::empty());
    assert(as_read(after) + Seq::empty() =~= as_read(after));
    let rest = seq![read] + as_read(after);
    let all = as_read(before) + rest;
    assert forall|i: int| 0 <= i < before.len() implies (#[trigger] as_read(before)[i]).kind
        != 0x0001 || as_read(before)[i].value.len() < 8 by {
        assert((before[i].kind != 0x0020 && before[i].kind != 0x0001) || before[i].value.len()
            < 8);
    }
    lemma_first_mapped_past(as_read(before), rest);
    assert forall|i: int| 0 <= i < all.len() implies (#[trigger] all[i]).kind != 0x0020
        || all[i].value.len() < 8 by {
        if i < before.len() {
            assert((before[i].kind != 0x0020 && before[i].kind != 0x0001) || before[i].value.len()
                < 8);
        } else if i > before.len() {
            let j = i - before.len() - 1;
            assert(after[j].kind != 0x0020 || after[j].value.len() < 8);
            assert(all[i] == as_read(after)[j]);
        }
    }
    lemma_first_xor_past(all, Seq::empty(), transaction_id);
    assert(all + Seq::empty() =~= all);
    assert(first_xor_mapped(Seq::empty(), transaction_id) is None);
    lemma_mapped_value(addr);
    assert(rest[0] == read);
    lemma_response(transaction_id, attrs);
}

/// A response that holds neither kind of address attribute, long enough for an address,
/// yields none.
pub proof fn law_no_address_is_made_up(list: Seq<WrittenAttribute>, transaction_id: Seq<u8>)
    requires
        transaction_id.len() == 12,
        forall|i: int|
            0 <= i < list.len() ==> (#[trigger] list[i]).wf() && ((list[i].kind != 0x0020
                && list[i].kind != 0x0001) || list[i].value.len() < 8),
        list_bytes(list).len() <= 65535,
    ensures
        response_address(
            response_bytes(transaction_id, list_bytes(list)),
            transaction_id,
        ) is None,
{
    lemma_list_read(list, Seq::empty());
    assert(list_bytes(list) + Seq::<u8>::empty() =~= list_bytes(list));
    assert(attributes(Seq::<u8>::empty()) =~= Seq::empty());
    let all = as_read(list);
    assert(all + Seq::empty() =~= all);
    assert forall|i: int| 0 <= i < all.len() implies ((#[trigger] all[i]).kind != 0x0020
        && all[i].kind != 0x0001) || all[i].value.len() < 8 by {
        assert((list[i].kind != 0x0020 && list[i].kind != 0x0001) || list[i].value.len() < 8);
    }
    lemma_first_xor_past(all, Seq::empty(), transaction_id);
    lemma_first_mapped_past(all, Seq::empty());
    assert(first_xor_mapped(Seq::empty(), transaction_id) is None);
    assert(first_mapped(Seq::empty()) is None);
    lemma_response(transaction_id, list_bytes(list));
}

/// An address is read only off a binding success response to the transaction that is
/// as long as it says.
pub proof fn law_only_own_responses_are_read(data: Seq<u8>, transaction_id: Seq<u8>)
    requires
        response_address(data, transaction_id) is Some,
    ensures
        data.len() >= 20,
        data[0] == 0x01 && data[1] == 0x01,
        data.len() >= 20 + data[2] * 256 + data[3],
        data[4] == 0x21 && data[5] == 0x12 && data[6] == 0xA4 && data[7] == 0x42,
        data.subrange(8, 20) == transaction_id,
{
    let kind = data.subrange(0, 2);
    let cookie = data.subrange(4, 8);
    assert(kind[0] == data[0] && kind[1] == data[1]);
    assert(cookie[0] == data[4] && cookie[1] == data[5]);
    assert(cookie[2] == data[6] && cookie[3] == data[7]);
}

/// A request is a header without attributes, which names the transaction.
pub proof fn law_request_names_transaction(transaction_id: Seq<u8>)
    requires
        transaction_id.len() == 12,
    ensures
        binding_request(transaction_id).len() == 20,
        binding_request(transaction_id).take(8) == seq![
            0x00u8,
            0x01,
            0x00,
            0x00,
            0x21,
            0x12,
            0xA4,
            0x42,
        ],
        binding_request(transaction_id).skip(8) == transaction_id,
{
}

/// A response to another transaction yields no address.
pub proof fn law_other_transaction_ignored(data: Seq<u8>, sent: Seq<u8>, other: Seq<u8>)
    requires
        response_address(data, sent) is Some,
        sent != other,
    ensures
        response_address(data, other) is None,
{
}

/// An address is read off the value of its attribute whatever the byte in front of its
/// family holds, and whatever follows the address.
pub proof fn law_address_value_is_read(
    reserved: u8,
    addr: SocketAddrView,
    extra: Seq<u8>,
    transaction_id: Seq<u8>,
)
    requires
        is_addr(addr),
        transaction_id.len() == 12,
    ensures
        mapped_address(seq![reserved] + mapped_value(addr).skip(1) + extra) == Some(addr),
        xor_mapped_address(
            seq![reserved] + mapped_value(masked(addr, transaction_id)).skip(1) + extra,
            transaction_id,
        ) == Some(addr),
{
    lemma_mapped_value(addr);
    lemma_xor_mapped_value(addr, transaction_id);
    let plain = mapped_value(addr);
    let value = seq![reserved] + plain.skip(1) + extra;
    let hidden = mapped_value(masked(addr, transaction_id));
    let other = seq![reserved] + hidden.skip(1) + extra;
    let mask = magic_cookie() + transaction_id;
    assert forall|i: int| 1 <= i < plain.len() implies #[trigger] value[i] == plain[i] by {}
    assert forall|i: int| 1 <= i < hidden.len() implies #[trigger] other[i] == hidden[i] by {}
    match addr {
        SocketAddrView::V4 { octets, port } => {
            assert(plain.len() == 8 && hidden.len() == 8);
            assert(value.subrange(4, 8) =~= plain.subrange(4, 8));
            assert(Seq::new(4, |i: int| other[4 + i] ^ mask[i]) =~= Seq::new(
                4,
                |i: int| hidden[4 + i] ^ mask[i],
            ));
        },
        SocketAddrView::V6 { octets, port } => {
            assert(plain.len() == 20 && hidden.len() == 20);
            assert(value.subrange(4, 20) =~= plain.subrange(4, 20));
            assert(Seq::new(16, |i: int| other[4 + i] ^ mask[i]) =~= Seq::new(
                16,
                |i: int| hidden[4 + i] ^ mask[i],
            ));
        },
    }
}

/// No address is read off a value that is too short for one, or whose family is neither
/// IPv4 nor IPv6.
pub proof fn law_other_values_hold_no_address(value: Seq<u8>, transaction_id: Seq<u8>)
    requires
        value.len() < 8 || (value[1] != 0x01 && value[1] != 0x02) || (value[1] == 0x02
            && value.len() < 20),
    ensures
        mapped_address(value) is None,
        xor_mapped_address(value, transaction_id) is None,
{
}

/// What is read off a response is what the first readable XOR-MAPPED-ADDRESS attribute
/// holds, padded or not, whatever attributes stand before it, whatever bytes come after it
/// in the message, and whatever follows the message.
pub proof fn law_first_readable_attribute_wins(
    before: Seq<WrittenAttribute>,
    ours: WrittenAttribute,
    after: Seq<u8>,
    trailing: Seq<u8>,
    transaction_id: Seq<u8>,
)
    requires
        transaction_id.len() == 12,
        ours.wf(),
        ours.kind == 0x0020,
        xor_mapped_address(ours.value, transaction_id) is Some,
        forall|i: int|
            0 <= i < before.len() ==> (#[trigger] before[i]).wf() && (before[i].kind != 0x0020
                || before[i].value.len() < 8),
        (list_bytes(before) + ours.bytes() + after).len() <= 65535,
    ensures
        response_address(
            response_bytes(transaction_id, list_bytes(before) + ours.bytes() + after) + trailing,
            transaction_id,
        ) == xor_mapped_address(ours.value, transaction_id),
{
    let read = Attribute { kind: 0x0020, value: ours.value };
    let attrs = list_bytes(before) + ours.bytes() + after;
    assert(attrs =~= list_bytes(before) + (ours.bytes() + after));
    lemma_list_read(before, ours.bytes() + after);
    lemma_written_read(ours, after);
    let rest = seq![read] + attributes(after);
    assert forall|i: int| 0 <= i < before.len() implies (#[trigger] as_read(before)[i]).kind
        != 0x0020 || as_read(before)[i].value.len() < 8 by {
        assert(before[i].kind != 0x0020 || before[i].value.len() < 8);
    }
    lemma_first_xor_past(as_read(before), rest, transaction_id);
    assert(rest[0] == read);
    let message = response_bytes(transaction_id, attrs);
    let data = message + trailing;
    lemma_response(transaction_id, attrs);
    assert(data.subrange(0, 2) =~= message.subrange(0, 2));
    assert(data.subrange(4, 8) =~= message.subrange(4, 8));
    assert(data.subrange(8, 20) =~= message.subrange(8, 20));
    let len = be16(message[2], message[3]) as int;
    assert(data.subrange(20, 20 + len) =~= message.subrange(20, 20 + len));
}

/// The address that a server wrote is the address that comes out of its response, whatever
/// other attributes stand before it and whatever follows it.
pub proof fn law_response_call(
    data: &[u8],
    expected_tid: &[u8; 12],
    addr: Option<SocketAddr>,
    before: Seq<WrittenAttribute>,
    written: SocketAddrView,
    after: Seq<u8>,
)
    requires
        call_ensures(parse_binding_response, (data, expected_tid), addr),
        is_addr(written),
        forall|i: int|
            0 <= i < before.len() ==> (#[trigger] before[i]).wf() && (before[i].kind != 0x0020
                || before[i].value.len() < 8),
        (list_bytes(before) + attribute_bytes(
            0x0020,
            mapped_value(masked(written, expected_tid@)),
        ) + after).len() <= 65535,
        data@ == response_bytes(
            expected_tid@,
            list_bytes(before) + attribute_bytes(
                0x0020,
                mapped_value(masked(written, expected_tid@)),
            ) + after,
        ),
    ensures
        addr is Some,
        addr->0@ == written,
{
    law_first_xor_mapped_is_read(before, written, after, expected_tid@);
}

/// The address that an older server wrote unmasked comes out of its response too, if no
/// masked one stands in it.
pub proof fn law_older_response_call(
    data: &[u8],
    expected_tid: &[u8; 12],
    addr: Option<SocketAddr>,
    before: Seq<WrittenAttribute>,
    written: SocketAddrView,
    after: Seq<WrittenAttribute>,
)
    requires
        call_ensures(parse_binding_response, (data, expected_tid), addr),
        is_addr(written),
        forall|i: int|
            0 <= i < before.len() ==> (#[trigger] before[i]).wf() && ((before[i].kind != 0x0020
                && before[i].kind != 0x0001) || before[i].value.len() < 8),
        forall|i: int|
            0 <= i < after.len() ==> (#[trigger] after[i]).wf() && (after[i].kind != 0x0020
                || after[i].value.len() < 8),
        (list_bytes(before) + attribute_bytes(0x0001, mapped_value(written)) + list_bytes(
            after,
        )).len() <= 65535,
        data@ == response_bytes(
            expected_tid@,
            list_bytes(before) + attribute_bytes(0x0001, mapped_value(written)) + list_bytes(
                after,
            ),
        ),
    ensures
        addr is Some,
        addr->0@ == written,
{
    law_first_mapped_is_read(before, written, after, expected_tid@);
}

/// An address comes only out of a success response to the request that was sent.
pub proof fn law_foreign_response_call(
    data: &[u8],
    expected_tid: &[u8; 12],
    addr: Option<SocketAddr>,
)
    requires
        call_ensures(parse_binding_response, (data, expected_tid), addr),
        addr is Some,
    ensures
        data@.len() >= 20 + data@[2] * 256 + data@[3],
        data@[0] == 0x01 && data@[1] == 0x01,
        data@[4] == 0x21 && data@[5] == 0x12 && data@[6] == 0xA4 && data@[7] == 0x42,
        data@.subrange(8, 20) == expected_tid@,
{
    law_only_own_responses_are_read(data@, expected_tid@);
}

/// A request names the transaction that it starts.
pub proof fn law_request_call(transaction_id: &[u8; 12], request: Vec<u8>)
    requires
        call_ensures(build_binding_request, (transaction_id,), request),
    ensures
        request@ == seq![0x00u8, 0x01, 0x00, 0x00, 0x21, 0x12, 0xA4, 0x42] + transaction_id@,
{
    law_request_names_transaction(transaction_id@);
    assert(request@ =~= request@.take(8) + request@.skip(8));
}

/// The values of both address attributes are read, whatever their reserved byte and
/// whatever follows them.
pub proof fn law_address_value_calls(
    value: &[u8],
    addr: Option<SocketAddr>,
    masked_value: &[u8],
    transaction_id: &[u8; 12],
    unmasked: Option<SocketAddr>,
    reserved: u8,
    written: SocketAddrView,
    extra: Seq<u8>,
)
    requires
        call_ensures(decode_mapped_address, (value,), addr),
        call_ensures(decode_xor_mapped_address, (masked_value, transaction_id), unmasked),
        is_addr(written),
        value@ == seq![reserved] + mapped_value(written).skip(1) + extra,
        masked_value@ == seq![reserved] + mapped_value(masked(written, transaction_id@)).skip(1)
            + extra,
    ensures
        addr is Some,
        addr->0@ == written,
        unmasked is Some,
        unmasked->0@ == written,
{
    law_address_value_is_read(reserved, written, extra, transaction_id@);
}

} // verus!
