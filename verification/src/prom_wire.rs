//! Bytes that are read from the front, and the pieces that a protobuf message is made of.

use bytes::{Buf, Bytes};
use vstd::prelude::*;

verus! {

/// `bytes::Bytes`: a string of bytes that can be taken apart without copying.
#[verifier::external_type_specification]
#[verifier::external_body]
pub struct ExBytes(bytes::Bytes);

/// `prost::DecodeError`: why a piece of a message cannot be read.
#[verifier::external_type_specification]
#[verifier::external_body]
pub struct ExDecodeError(prost::DecodeError);

/// The bytes that a [`Bytes`] holds.
pub uninterp spec fn contents(b: Bytes) -> Seq<u8>;

/// `Bytes::new`: no bytes.
#[verifier::external_body]
pub(crate) fn bytes_new() -> (r: Bytes)
    ensures
        contents(r) == Seq::<u8>::empty(),
{
    Bytes::new()
}

/// `Bytes::from`, of a list: the bytes of the list.
#[verifier::external_body]
pub(crate) fn bytes_from(bytes: Vec<u8>) -> (r: Bytes)
    ensures
        contents(r) == bytes@,
{
    Bytes::from(bytes)
}

/// `Bytes::len`: how many bytes there are.
#[verifier::external_body]
pub(crate) fn bytes_len(b: &Bytes) -> (r: usize)
    ensures
        r == contents(*b).len(),
{
    b.len()
}

/// `Bytes::split_to`: takes bytes off the front. It panics where there are fewer.
#[verifier::external_body]
pub(crate) fn bytes_split_to(b: &mut Bytes, at: usize) -> (r: Bytes)
    requires
        at <= contents(*old(b)).len(),
    ensures
        contents(r) == contents(*old(b)).take(at as int),
        contents(*final(b)) == contents(*old(b)).skip(at as int),
{
    b.split_to(at)
}

/// `Bytes::to_vec`: the bytes as a list.
#[verifier::external_body]
pub(crate) fn bytes_to_vec(b: &Bytes) -> (r: Vec<u8>)
    ensures
        r@ == contents(*b),
{
    b.to_vec()
}

/// The number whose base-256 digits are the given bytes, least significant first.
pub open spec fn little_endian(s: Seq<u8>) -> nat
    decreases s.len(),
{
    if s.len() == 0 {
        0
    } else {
        s[0] as nat + 256 * little_endian(s.drop_first())
    }
}

/// `Buf::get_u64_le`: takes a number off the front. It panics where there are fewer than
/// eight bytes.
#[verifier::external_body]
pub(crate) fn bytes_get_u64_le(b: &mut Bytes) -> (r: u64)
    requires
        contents(*old(b)).len() >= 8,
    ensures
        r == little_endian(contents(*old(b)).take(8)),
        contents(*final(b)) == contents(*old(b)).skip(8),
{
    b.get_u64_le()
}

/// How a field of a message is laid out.
#[derive(Clone, Copy, Debug, PartialEq, Eq, Structural)]
pub enum WireType {
    Varint,
    SixtyFourBit,
    LengthDelimited,
    StartGroup,
    EndGroup,
    ThirtyTwoBit,
}

/// The number at the front of `s`, which starts at the given byte of a number, and how many
/// bytes it takes. Each byte but the last has its high bit set; the other bits are digits in
/// base 128, least significant first. A number takes at most ten bytes and fits in 64 bits.
pub open spec fn varint_from(s: Seq<u8>, at: nat) -> Option<(nat, nat)>
    decreases s.len(),
{
    if s.len() == 0 || at >= 10 {
        None
    } else if s[0] < 128 {
        if at == 9 && s[0] >= 2 {
            None
        } else {
            Some((s[0] as nat, 1))
        }
    } else {
        match varint_from(s.drop_first(), at + 1) {
            Some((value, len)) => Some(((s[0] - 128) as nat + 128 * value, len + 1)),
            None => None,
        }
    }
}

/// The number at the front of `s`, and what follows it.
pub open spec fn varint(s: Seq<u8>) -> Option<(nat, Seq<u8>)> {
    match varint_from(s, 0) {
        Some((value, len)) => Some((value, s.skip(len as int))),
        None => None,
    }
}

/// `prost::encoding::decode_varint`: takes a number off the front. What is left in the bytes
/// where there is none is not said.
#[verifier::external_body]
pub(crate) fn decode_varint(buf: &mut Bytes) -> (r: Result<u64, prost::DecodeError>)
    ensures
        r is Ok <==> varint(contents(*old(buf))) is Some,
        r is Ok ==> varint(contents(*old(buf))) == Some((r->Ok_0 as nat, contents(*final(buf)))),
{
    prost::encoding::decode_varint(buf)
}

/// The layout that a number stands for.
pub open spec fn wire_type(n: nat) -> Option<WireType> {
    if n == 0 {
        Some(WireType::Varint)
    } else if n == 1 {
        Some(WireType::SixtyFourBit)
    } else if n == 2 {
        Some(WireType::LengthDelimited)
    } else if n == 3 {
        Some(WireType::StartGroup)
    } else if n == 4 {
        Some(WireType::EndGroup)
    } else if n == 5 {
        Some(WireType::ThirtyTwoBit)
    } else {
        None
    }
}

/// The key at the front of `s`: the number of a field and its layout, and what follows it.
pub open spec fn key(s: Seq<u8>) -> Option<(u32, WireType, Seq<u8>)> {
    match varint(s) {
        Some((n, rest)) => if n > u32::MAX || n / 8 == 0 {
            None
        } else {
            match wire_type(n % 8) {
                Some(wire) => Some(((n / 8) as u32, wire, rest)),
                None => None,
            }
        },
        None => None,
    }
}

/// `prost::encoding::decode_key`: takes a key off the front. What is left in the bytes where
/// there is none is not said.
#[verifier::external_body]
pub(crate) fn decode_key(buf: &mut Bytes) -> (r: Result<(u32, WireType), prost::DecodeError>)
    ensures
        r is Ok <==> key(contents(*old(buf))) is Some,
        r is Ok ==> key(contents(*old(buf))) == Some((r->Ok_0.0, r->Ok_0.1, contents(*final(buf)))),
{
    let (tag, wire) = prost::encoding::decode_key(buf)?;
    let wire = match wire {
        prost::encoding::WireType::Varint => WireType::Varint,
        prost::encoding::WireType::SixtyFourBit => WireType::SixtyFourBit,
        prost::encoding::WireType::LengthDelimited => WireType::LengthDelimited,
        prost::encoding::WireType::StartGroup => WireType::StartGroup,
        prost::encoding::WireType::EndGroup => WireType::EndGroup,
        prost::encoding::WireType::ThirtyTwoBit => WireType::ThirtyTwoBit,
    };
    Ok((tag, wire))
}

/// The bytes behind a length, and what follows them.
pub open spec fn delimited(s: Seq<u8>) -> Option<(Seq<u8>, Seq<u8>)> {
    match varint(s) {
        Some((len, rest)) => if len <= rest.len() {
            Some((rest.take(len as int), rest.skip(len as int)))
        } else {
            None
        },
        None => None,
    }
}

/// What follows a group, whose start was read, in `s`.
pub uninterp spec fn group_rest(tag: u32, s: Seq<u8>) -> Option<Seq<u8>>;

/// What follows a field, whose key was read, in `s`.
pub open spec fn field_rest(wire: WireType, tag: u32, s: Seq<u8>) -> Option<Seq<u8>> {
    match wire {
        WireType::Varint => match varint(s) {
            Some((_, rest)) => Some(rest),
            None => None,
        },
        WireType::SixtyFourBit => if s.len() >= 8 {
            Some(s.skip(8))
        } else {
            None
        },
        WireType::LengthDelimited => match delimited(s) {
            Some((_, rest)) => Some(rest),
            None => None,
        },
        WireType::StartGroup => group_rest(tag, s),
        WireType::EndGroup => None,
        WireType::ThirtyTwoBit => if s.len() >= 4 {
            Some(s.skip(4))
        } else {
            None
        },
    }
}

/// `prost::encoding::skip_field`: takes a field off the front. What follows a group has a name
/// of its own; no more is said of it than that it is no longer than the bytes were. What is
/// left in the bytes where there is no such field is not said.
#[verifier::external_body]
pub(crate) fn skip_field(wire: WireType, tag: u32, buf: &mut Bytes) -> (r: Result<
    (),
    prost::DecodeError,
>)
    ensures
        r is Ok <==> field_rest(wire, tag, contents(*old(buf))) is Some,
        r is Ok && wire is StartGroup ==> group_rest(tag, contents(*old(buf))) == Some(
            contents(*final(buf)),
        ),
        r is Ok ==> field_rest(wire, tag, contents(*old(buf))) == Some(contents(*final(buf))),
        r is Ok ==> contents(*final(buf)).len() <= contents(*old(buf)).len(),
{
    let wire = match wire {
        WireType::Varint => prost::encoding::WireType::Varint,
        WireType::SixtyFourBit => prost::encoding::WireType::SixtyFourBit,
        WireType::LengthDelimited => prost::encoding::WireType::LengthDelimited,
        WireType::StartGroup => prost::encoding::WireType::StartGroup,
        WireType::EndGroup => prost::encoding::WireType::EndGroup,
        WireType::ThirtyTwoBit => prost::encoding::WireType::ThirtyTwoBit,
    };
    prost::encoding::skip_field(wire, tag, buf, Default::default())
}

/// A number takes at least one of the bytes, and no more than there are.
pub proof fn lemma_varint_from(s: Seq<u8>, at: nat)
    ensures
        varint_from(s, at) matches Some((value, len)) ==> 0 < len <= s.len(),
    decreases s.len(),
{
    if s.len() > 0 && at < 10 && s[0] >= 128 {
        lemma_varint_from(s.drop_first(), at + 1);
    }
}

/// What follows a number or a key is shorter than the bytes were.
pub proof fn lemma_rest_shorter(s: Seq<u8>)
    ensures
        varint(s) matches Some((_, rest)) ==> rest.len() < s.len(),
        key(s) matches Some((_, _, rest)) ==> rest.len() < s.len(),
{
    lemma_varint_from(s, 0);
}

} // verus!
