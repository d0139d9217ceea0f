//! The boundary to the off-the-shelf binary encoder (MessagePack via
//! `rmp_serde`). Each payload field is one complete MessagePack value; the
//! encodings of the three composite field shapes, and the decoder's outcome on
//! arbitrary bytes, are named, uninterpreted functions, and the trusted
//! wrappers below state how the encoder and decoder relate to those names.
//!
//! The encoder stores every string and list length in a 32-bit header field
//! (casting with `as u32`), so what it writes is the value's faithful encoding
//! only while those lengths fit. The `bounded_*` predicates state that margin
//! — every string under 2^30 characters (hence under 2^32 UTF-8 bytes), every
//! list under 2^32 elements — and the clauses that relate decoder to encoder
//! hold under them.

use vstd::prelude::*;

verus! {

use crate::errors::{DeserializationError, SerializationError};
use crate::state::{nested_views_of, pair_views_of, views_of};

/// The MessagePack encoding (array of str) of a list of strings, as produced
/// by `rmp_serde`'s encoder. A function of the strings alone.
pub uninterp spec fn mp_str_list(v: Seq<Seq<char>>) -> Seq<u8>;

/// The MessagePack encoding (array of 2-element arrays of str) of a list of
/// string pairs, as produced by `rmp_serde`'s encoder.
pub uninterp spec fn mp_pair_list(v: Seq<(Seq<char>, Seq<char>)>) -> Seq<u8>;

/// The MessagePack encoding (array of pairs of a str and an array of str) of a
/// list of keyed string lists, as produced by `rmp_serde`'s encoder.
pub uninterp spec fn mp_nested_list(v: Seq<(Seq<char>, Seq<Seq<char>>)>) -> Seq<u8>;

/// What `rmp_serde`'s decoder makes of the given bytes when asked for a list
/// of strings: the value and the number of bytes consumed, or nothing if it
/// fails. Decoding is deterministic: a function of the bytes alone.
pub uninterp spec fn mp_str_decode(s: Seq<u8>) -> Option<(Seq<Seq<char>>, int)>;

/// The decoder's outcome on the given bytes when asked for a list of string
/// pairs.
pub uninterp spec fn mp_pair_decode(s: Seq<u8>) -> Option<(Seq<(Seq<char>, Seq<char>)>, int)>;

/// The decoder's outcome on the given bytes when asked for a list of keyed
/// string lists.
pub uninterp spec fn mp_nested_decode(s: Seq<u8>) -> Option<
    (Seq<(Seq<char>, Seq<Seq<char>>)>, int),
>;

/// `p` is a proper prefix of `s`: the shape left behind when a complete
/// MessagePack value is truncated.
pub open spec fn strict_prefix_of(p: Seq<u8>, s: Seq<u8>) -> bool {
    p.len() < s.len() && p == s.subrange(0, p.len() as int)
}

/// The string's length fits the encoder's 32-bit headers: under 2^30
/// characters, so under 2^32 bytes of UTF-8.
pub open spec fn bounded_str(s: Seq<char>) -> bool {
    s.len() < 0x40000000
}

/// Every string in bounds and the list itself under 2^32 elements.
pub open spec fn bounded_str_list(v: Seq<Seq<char>>) -> bool {
    &&& v.len() < 0x100000000
    &&& forall|i: int| 0 <= i < v.len() ==> bounded_str(#[trigger] v[i])
}

/// Every name and payload in bounds and the list under 2^32 elements.
pub open spec fn bounded_pair_list(v: Seq<(Seq<char>, Seq<char>)>) -> bool {
    &&& v.len() < 0x100000000
    &&& forall|i: int|
        0 <= i < v.len() ==> bounded_str(#[trigger] v[i].0) && bounded_str(v[i].1)
}

/// Every key and value list in bounds and the entry list under 2^32 elements.
pub open spec fn bounded_nested_list(v: Seq<(Seq<char>, Seq<Seq<char>>)>) -> bool {
    &&& v.len() < 0x100000000
    &&& forall|i: int|
        0 <= i < v.len() ==> bounded_str(#[trigger] v[i].0) && bounded_str_list(v[i].1)
}

/// Relies on `rmp_serde::encode::write`: appends the MessagePack encoding of a
/// `Vec<String>` to the buffer; the bytes are a function of the strings alone.
/// The call cannot fail: `Vec<u8>`'s `Write` impl never errors, and the
/// `Serialize` impls of `Vec` and `String` never do either.
#[verifier::external_body]
pub(crate) fn write_str_list(out: &mut Vec<u8>, v: &Vec<String>) -> (r: Result<
    (),
    SerializationError,
>)
    ensures
        r is Ok,
        final(out)@ == old(out)@ + mp_str_list(views_of(v@)),
{
    match rmp_serde::encode::write(out, v) {
        Ok(()) => Ok(()),
        Err(_) => Err(SerializationError::EncodeFailed),
    }
}

/// Relies on `rmp_serde::encode::write`: appends the MessagePack encoding of a
/// `Vec<(String, String)>` to the buffer; a function of the pairs alone. The
/// call cannot fail, as for `write_str_list` (tuple `Serialize` impls never
/// error).
#[verifier::external_body]
pub(crate) fn write_pair_list(out: &mut Vec<u8>, v: &Vec<(String, String)>) -> (r: Result<
    (),
    SerializationError,
>)
    ensures
        r is Ok,
        final(out)@ == old(out)@ + mp_pair_list(pair_views_of(v@)),
{
    match rmp_serde::encode::write(out, v) {
        Ok(()) => Ok(()),
        Err(_) => Err(SerializationError::EncodeFailed),
    }
}

/// Relies on `rmp_serde::encode::write`: appends the MessagePack encoding of a
/// `Vec<(String, Vec<String>)>` to the buffer; a function of the entries
/// alone. The call cannot fail, as for `write_str_list`.
#[verifier::external_body]
pub(crate) fn write_nested_list(out: &mut Vec<u8>, v: &Vec<(String, Vec<String>)>) -> (r: Result<
    (),
    SerializationError,
>)
    ensures
        r is Ok,
        final(out)@ == old(out)@ + mp_nested_list(nested_views_of(v@)),
{
    match rmp_serde::encode::write(out, v) {
        Ok(()) => Ok(()),
        Err(_) => Err(SerializationError::EncodeFailed),
    }
}

/// Relies on `rmp_serde::decode::Deserializer` over a cursor: decoding is a
/// deterministic function of the remaining bytes (named `mp_str_decode`, the
/// value and the count of bytes consumed, counted by the cursor's position);
/// reading one MessagePack value consumes exactly that value's encoding and
/// never reads past it. For values within the encoder's 32-bit length headers,
/// decoding bytes the encoder produced yields the encoded value back, while a
/// proper prefix of such an encoding, with nothing after it, fails at the end
/// of input.
#[verifier::external_body]
pub(crate) fn read_str_list(bytes: &[u8], pos: usize) -> (r: Result<
    (Vec<String>, usize),
    DeserializationError,
>)
    requires
        pos <= bytes@.len(),
    ensures
        (r is Ok) == (mp_str_decode(bytes@.skip(pos as int)) is Some),
        r is Ok ==> views_of(r->Ok_0.0@) == mp_str_decode(bytes@.skip(pos as int))->Some_0.0
            && r->Ok_0.1 as int == mp_str_decode(bytes@.skip(pos as int))->Some_0.1,
        forall|v: Seq<Seq<char>>|
            bounded_str_list(v) && (#[trigger] mp_str_list(v)).is_prefix_of(
                bytes@.skip(pos as int),
            ) ==> r is Ok && views_of(r->Ok_0.0@) == v && r->Ok_0.1 == mp_str_list(v).len(),
        forall|v: Seq<Seq<char>>|
            bounded_str_list(v) && strict_prefix_of(
                bytes@.skip(pos as int),
                #[trigger] mp_str_list(v),
            ) ==> r is Err,
        pos == bytes@.len() ==> r is Err,
        r is Ok ==> 0 < r->Ok_0.1 <= bytes@.len() - pos,
        r is Err ==> r->Err_0 == DeserializationError::DecodeFailed,
{
    let mut de = rmp_serde::decode::Deserializer::new(std::io::Cursor::new(&bytes[pos..]));
    match <Vec<String> as serde::Deserialize>::deserialize(&mut de) {
        Ok(v) => Ok((v, de.position() as usize)),
        Err(_) => Err(DeserializationError::DecodeFailed),
    }
}

/// Relies on `rmp_serde::decode::Deserializer` over a cursor, as
/// `read_str_list` does, for a list of string pairs.
#[verifier::external_body]
pub(crate) fn read_pair_list(bytes: &[u8], pos: usize) -> (r: Result<
    (Vec<(String, String)>, usize),
    DeserializationError,
>)
    requires
        pos <= bytes@.len(),
    ensures
        (r is Ok) == (mp_pair_decode(bytes@.skip(pos as int)) is Some),
        r is Ok ==> pair_views_of(r->Ok_0.0@) == mp_pair_decode(bytes@.skip(pos as int))->Some_0.0
            && r->Ok_0.1 as int == mp_pair_decode(bytes@.skip(pos as int))->Some_0.1,
        forall|v: Seq<(Seq<char>, Seq<char>)>|
            bounded_pair_list(v) && (#[trigger] mp_pair_list(v)).is_prefix_of(
                bytes@.skip(pos as int),
            ) ==> r is Ok && pair_views_of(r->Ok_0.0@) == v && r->Ok_0.1 == mp_pair_list(v).len(),
        forall|v: Seq<(Seq<char>, Seq<char>)>|
            bounded_pair_list(v) && strict_prefix_of(
                bytes@.skip(pos as int),
                #[trigger] mp_pair_list(v),
            ) ==> r is Err,
        pos == bytes@.len() ==> r is Err,
        r is Ok ==> 0 < r->Ok_0.1 <= bytes@.len() - pos,
        r is Err ==> r->Err_0 == DeserializationError::DecodeFailed,
{
    let mut de = rmp_serde::decode::Deserializer::new(std::io::Cursor::new(&bytes[pos..]));
    match <Vec<(String, String)> as serde::Deserialize>::deserialize(&mut de) {
        Ok(v) => Ok((v, de.position() as usize)),
        Err(_) => Err(DeserializationError::DecodeFailed),
    }
}

/// Relies on `rmp_serde::decode::Deserializer` over a cursor, as
/// `read_str_list` does, for a list of keyed string lists.
#[verifier::external_body]
pub(crate) fn read_nested_list(bytes: &[u8], pos: usize) -> (r: Result<
    (Vec<(String, Vec<String>)>, usize),
    DeserializationError,
>)
    requires
        pos <= bytes@.len(),
    ensures
        (r is Ok) == (mp_nested_decode(bytes@.skip(pos as int)) is Some),
        r is Ok ==> nested_views_of(r->Ok_0.0@) == mp_nested_decode(
            bytes@.skip(pos as int),
        )->Some_0.0 && r->Ok_0.1 as int == mp_nested_decode(bytes@.skip(pos as int))->Some_0.1,
        forall|v: Seq<(Seq<char>, Seq<Seq<char>>)>|
            bounded_nested_list(v) && (#[trigger] mp_nested_list(v)).is_prefix_of(
                bytes@.skip(pos as int),
            ) ==> r is Ok && nested_views_of(r->Ok_0.0@) == v && r->Ok_0.1 == mp_nested_list(
                v,
            ).len(),
        forall|v: Seq<(Seq<char>, Seq<Seq<char>>)>|
            bounded_nested_list(v) && strict_prefix_of(
                bytes@.skip(pos as int),
                #[trigger] mp_nested_list(v),
            ) ==> r is Err,
        pos == bytes@.len() ==> r is Err,
        r is Ok ==> 0 < r->Ok_0.1 <= bytes@.len() - pos,
        r is Err ==> r->Err_0 == DeserializationError::DecodeFailed,
{
    let mut de = rmp_serde::decode::Deserializer::new(std::io::Cursor::new(&bytes[pos..]));
    match <Vec<(String, Vec<String>)> as serde::Deserialize>::deserialize(&mut de) {
        Ok(v) => Ok((v, de.position() as usize)),
        Err(_) => Err(DeserializationError::DecodeFailed),
    }
}

} // verus!
