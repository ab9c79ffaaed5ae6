//! The records that signaling messages are written as.
//!
//! A message is a postcard record: the number of its variant, the session it
//! belongs to, and what the variant carries. Numbers are written with variable
//! length, and texts with their length in front.

use vstd::prelude::*;
use vstd::utf8::{
    decode_utf8, encode_utf8, encode_utf8_decode_utf8, encode_utf8_valid_utf8, valid_utf8,
};

verus! {

/// A number in groups of seven bits, the least significant first. Each byte but the
/// last has its top bit set.
pub open spec fn varint(n: nat) -> Seq<u8>
    decreases n,
{
    if n < 128 {
        seq![n as u8]
    } else {
        seq![(n % 128 + 128) as u8] + varint(n / 128)
    }
}

/// The number up to `max` at the front of `data`, and what follows it; `None` if
/// there is none. `max` is the greatest number of some bits.
pub open spec fn varint_read(data: Seq<u8>, max: nat) -> Option<(nat, Seq<u8>)>
    decreases data.len(),
{
    if data.len() == 0 {
        None
    } else if data[0] < 128 {
        if data[0] > max {
            None
        } else {
            Some((data[0] as nat, data.drop_first()))
        }
    } else if max < 128 {
        None
    } else {
        match varint_read(data.drop_first(), max / 128) {
            Some((high, rest)) => Some(((data[0] - 128 + 128 * high) as nat, rest)),
            None => None,
        }
    }
}

/// A text: the length of its UTF-8 form, then that form.
pub open spec fn text_bytes(text: Seq<char>) -> Seq<u8> {
    varint(encode_utf8(text).len()) + encode_utf8(text)
}

/// The text at the front of `data`, and what follows it.
pub open spec fn text_at(data: Seq<u8>) -> Option<(Seq<char>, Seq<u8>)> {
    match varint_read(data, usize::MAX as nat) {
        Some((len, rest)) => if len <= rest.len() && valid_utf8(rest.take(len as int)) {
            Some((decode_utf8(rest.take(len as int)), rest.skip(len as int)))
        } else {
            None
        },
        None => None,
    }
}

/// An optional text: a zero if there is none, else a one and the text.
pub open spec fn optional_bytes(text: Option<Seq<char>>) -> Seq<u8> {
    match text {
        Some(text) => seq![1u8] + text_bytes(text),
        None => seq![0u8],
    }
}

/// The optional text at the front of `data`.
pub open spec fn optional_at(data: Seq<u8>) -> Option<Option<Seq<char>>> {
    if data.len() == 0 || data[0] > 1 {
        None
    } else if data[0] == 0 {
        Some(None)
    } else {
        match text_at(data.drop_first()) {
            Some((text, _)) => Some(Some(text)),
            None => None,
        }
    }
}

/// The bytes of a record of a variant number and a session.
pub open spec fn head_record(tag: u32, session_id: u64) -> Seq<u8> {
    varint(tag as nat) + varint(session_id as nat)
}

/// The bytes of a record that carries one text.
pub open spec fn text_record(tag: u32, session_id: u64, text: Seq<char>) -> Seq<u8> {
    head_record(tag, session_id) + text_bytes(text)
}

/// The bytes of a record that carries a text and perhaps another.
pub open spec fn pair_record(
    tag: u32,
    session_id: u64,
    text: Seq<char>,
    extra: Option<Seq<char>>,
) -> Seq<u8> {
    text_record(tag, session_id, text) + optional_bytes(extra)
}

/// The variant number and session at the front of `data`, and what follows them.
pub open spec fn head_at(data: Seq<u8>) -> Option<(u32, u64, Seq<u8>)> {
    match varint_read(data, u32::MAX as nat) {
        Some((tag, rest)) => match varint_read(rest, u64::MAX as nat) {
            Some((session_id, rest)) => Some((tag as u32, session_id as u64, rest)),
            None => None,
        },
        None => None,
    }
}

/// The variant number and session that are read off the front of `data`.
pub open spec fn head_read(data: Seq<u8>) -> Option<(u32, u64)> {
    match head_at(data) {
        Some((tag, session_id, _)) => Some((tag, session_id)),
        None => None,
    }
}

/// The record with one text that is read off the front of `data`.
pub open spec fn text_read(data: Seq<u8>) -> Option<(u32, u64, Seq<char>)> {
    match head_at(data) {
        Some((tag, session_id, rest)) => match text_at(rest) {
            Some((text, _)) => Some((tag, session_id, text)),
            None => None,
        },
        None => None,
    }
}

/// The record with a text and perhaps another that is read off the front of `data`.
pub open spec fn pair_read(data: Seq<u8>) -> Option<
    (u32, u64, Seq<char>, Option<Seq<char>>),
> {
    match head_at(data) {
        Some((tag, session_id, rest)) => match text_at(rest) {
            Some((text, rest)) => match optional_at(rest) {
                Some(extra) => Some((tag, session_id, text, extra)),
                None => None,
            },
            None => None,
        },
        None => None,
    }
}

/// A number is read back, whatever follows it.
pub proof fn law_varint_round_trip(n: nat, max: nat, rest: Seq<u8>)
    requires
        n <= max,
    ensures
        varint_read(varint(n) + rest, max) == Some((n, rest)),
    decreases n,
{
    let data = varint(n) + rest;
    if n < 128 {
        assert(data.drop_first() =~= rest);
    } else {
        law_varint_round_trip(n / 128, max / 128, rest);
        assert(data.drop_first() =~= varint(n / 128) + rest);
    }
}

/// A text is read back, whatever follows it.
pub proof fn law_text_round_trip(text: Seq<char>, rest: Seq<u8>)
    requires
        encode_utf8(text).len() <= usize::MAX,
    ensures
        text_at(text_bytes(text) + rest) == Some((text, rest)),
{
    let form = encode_utf8(text);
    encode_utf8_valid_utf8(text);
    encode_utf8_decode_utf8(text);
    law_varint_round_trip(form.len(), usize::MAX as nat, form + rest);
    assert(text_bytes(text) + rest =~= varint(form.len()) + (form + rest));
    assert((form + rest).take(form.len() as int) =~= form);
    assert((form + rest).skip(form.len() as int) =~= rest);
}

/// The head of a record is read back, whatever follows it.
pub proof fn law_head_round_trip(tag: u32, session_id: u64, rest: Seq<u8>)
    ensures
        head_at(head_record(tag, session_id) + rest) == Some((tag, session_id, rest)),
        head_read(head_record(tag, session_id) + rest) == Some((tag, session_id)),
{
    let tail = varint(session_id as nat) + rest;
    assert(head_record(tag, session_id) + rest =~= varint(tag as nat) + tail);
    law_varint_round_trip(tag as nat, u32::MAX as nat, tail);
    law_varint_round_trip(session_id as nat, u64::MAX as nat, rest);
}

/// A record with one text is read back, and so is its head.
pub proof fn law_text_record_round_trip(tag: u32, session_id: u64, text: Seq<char>)
    requires
        encode_utf8(text).len() <= usize::MAX,
    ensures
        text_read(text_record(tag, session_id, text)) == Some((tag, session_id, text)),
        head_read(text_record(tag, session_id, text)) == Some((tag, session_id)),
{
    law_head_round_trip(tag, session_id, text_bytes(text));
    law_text_round_trip(text, Seq::empty());
    assert(text_bytes(text) + Seq::<u8>::empty() =~= text_bytes(text));
}

/// A record with a text and perhaps another is read back, and so is its head.
pub proof fn law_pair_record_round_trip(
    tag: u32,
    session_id: u64,
    text: Seq<char>,
    extra: Option<Seq<char>>,
)
    requires
        encode_utf8(text).len() <= usize::MAX,
        extra matches Some(other) ==> encode_utf8(other).len() <= usize::MAX,
    ensures
        pair_read(pair_record(tag, session_id, text, extra)) == Some(
            (tag, session_id, text, extra),
        ),
        head_read(pair_record(tag, session_id, text, extra)) == Some((tag, session_id)),
{
    let tail = optional_bytes(extra);
    assert(pair_record(tag, session_id, text, extra) =~= head_record(tag, session_id) + (text_bytes(
        text,
    ) + tail));
    law_head_round_trip(tag, session_id, text_bytes(text) + tail);
    law_text_round_trip(text, tail);
    if let Some(other) = extra {
        law_text_round_trip(other, Seq::empty());
        assert(tail.drop_first() =~= text_bytes(other) + Seq::<u8>::empty());
    }
}

/// The characters of a text, if there is one.
pub open spec fn optional_text(text: Option<String>) -> Option<Seq<char>> {
    match text {
        Some(text) => Some(text@),
        None => None,
    }
}

/// What a record with one text says.
pub open spec fn text_record_view(record: Option<(u32, u64, String)>) -> Option<
    (u32, u64, Seq<char>),
> {
    match record {
        Some((tag, session_id, text)) => Some((tag, session_id, text@)),
        None => None,
    }
}

/// What a record with a text and perhaps another says.
pub open spec fn pair_record_view(
    record: Option<(u32, u64, String, Option<String>)>,
) -> Option<(u32, u64, Seq<char>, Option<Seq<char>>)> {
    match record {
        Some((tag, session_id, text, extra)) => Some(
            (tag, session_id, text@, optional_text(extra)),
        ),
        None => None,
    }
}

/// Calls `postcard::to_stdvec` on a variant number and a session. Claimed: each is
/// written as a number of variable length.
#[verifier::external_body]
pub(crate) fn write_head(tag: u32, session_id: u64) -> (bytes: Vec<u8>)
    ensures
        bytes@ == head_record(tag, session_id),
{
    postcard::to_stdvec(&(tag, session_id)).expect("integers always serialize")
}

/// Calls `postcard::to_stdvec` on a variant number, a session and a text.
/// Claimed: the numbers are of variable length, and the text is its UTF-8 form
/// behind the length of that form.
#[verifier::external_body]
pub(crate) fn write_text(tag: u32, session_id: u64, text: &String) -> (bytes: Vec<u8>)
    ensures
        bytes@ == text_record(tag, session_id, text@),
{
    postcard::to_stdvec(&(tag, session_id, text)).expect("text always serializes")
}

/// Calls `postcard::to_stdvec` on a variant number, a session, a text and an
/// optional text. Claimed: as for one text, and the optional text is behind a byte
/// that says whether there is one.
#[verifier::external_body]
pub(crate) fn write_pair(
    tag: u32,
    session_id: u64,
    text: &String,
    extra: &Option<String>,
) -> (bytes: Vec<u8>)
    ensures
        bytes@ == pair_record(tag, session_id, text@, optional_text(*extra)),
{
    postcard::to_stdvec(&(tag, session_id, text, extra)).expect("text always serializes")
}

/// Calls `postcard::from_bytes` for a variant number and a session. Claimed: they are
/// read off the front, and what follows them is ignored.
#[verifier::external_body]
pub(crate) fn read_head(data: &[u8]) -> (record: Option<(u32, u64)>)
    ensures
        record == head_read(data@),
{
    postcard::from_bytes(data).ok()
}

/// Calls `postcard::from_bytes` for a variant number, a session and a text.
/// Claimed: they are read off the front, and what follows them is ignored.
#[verifier::external_body]
pub(crate) fn read_text(data: &[u8]) -> (record: Option<(u32, u64, String)>)
    ensures
        text_record_view(record) == text_read(data@),
{
    postcard::from_bytes(data).ok()
}

/// Calls `postcard::from_bytes` for a variant number, a session, a text and an
/// optional text. Claimed: they are read off the front, and what follows them is
/// ignored.
#[verifier::external_body]
pub(crate) fn read_pair(data: &[u8]) -> (record: Option<(u32, u64, String, Option<String>)>)
    ensures
        pair_record_view(record) == pair_read(data@),
{
    postcard::from_bytes(data).ok()
}

} // verus!
