//! What holds of the object format: decoding undoes encoding, a short
//! payload is found out, and a header without its NUL byte is refused.

use crate::decimal::{
    decimal, is_digit, lemma_decimal_digits, lemma_decimal_len, lemma_parse_formatted,
};
use crate::error::Error;
use crate::objects::{
    body_limit, decode_spec, header, header_bound, header_name_spec, kind_name, kind_of_name,
    lemma_first_index_is, lemma_first_index_of, object_id, parse_header_spec, payload_spec,
    read_spec, serialized, stores, Header, Kind, ObjectView, Written, MAX_HEADER_LEN,
};
use crate::zlib::{inflated, prefix};
use vstd::prelude::*;

verus! {

/// A kind's name is four or six lower-case letters: no NUL and no space.
pub proof fn lemma_kind_name(kind: Kind)
    ensures
        4 <= kind_name(kind).len() <= 6,
        forall|i: int|
            0 <= i < kind_name(kind).len() ==> 0x61 <= #[trigger] kind_name(kind)[i] <= 0x7a,
        kind_of_name(kind_name(kind)) == Some(kind),
{
    assert(kind_name(Kind::Blob)[0] != kind_name(Kind::Tree)[0]);
    assert(kind_name(Kind::Blob).len() != kind_name(Kind::Commit).len());
    assert(kind_name(Kind::Tree).len() != kind_name(Kind::Commit).len());
}

/// A header is between 7 and 28 bytes long.
pub proof fn lemma_header_len(kind: Kind, size: u64)
    ensures
        7 <= header(kind, size as nat).len() <= 28,
        header(kind, size as nat).len() == kind_name(kind).len() + decimal(size as nat).len() + 2,
{
    lemma_kind_name(kind);
    lemma_decimal_digits(size as nat);
    lemma_decimal_len(size as nat);
}

/// Parsing finds a header that was written, whatever follows it.
pub proof fn lemma_header_parses(kind: Kind, size: u64, rest: Seq<u8>)
    ensures
        parse_header_spec(header(kind, size as nat) + rest) == Ok::<Header, Error>(
            Header { kind, size, len: header(kind, size as nat).len() as usize },
        ),
{
    let name = kind_name(kind);
    let digits = decimal(size as nat);
    let head = header(kind, size as nat);
    let data = head + rest;
    lemma_kind_name(kind);
    lemma_header_len(kind, size);
    lemma_decimal_digits(size as nat);
    let bound = header_bound(data);
    let space = name.len() as int;
    let nul = head.len() - 1;
    assert(nul < bound);
    assert forall|k: int| 0 <= k < nul implies data[k] != 0u8 by {
        if k < space {
            assert(data[k] == name[k]);
        } else if k == space {
            assert(data[k] == 0x20u8);
        } else {
            assert(data[k] == digits[k - space - 1]);
            assert(is_digit(digits[k - space - 1]));
        }
    }
    assert(data[nul] == 0u8);
    lemma_first_index_is(data, 0u8, 0, bound, nul);
    assert forall|k: int| 0 <= k < space implies data[k] != 0x20u8 by {
        assert(data[k] == name[k]);
    }
    assert(data[space] == 0x20u8);
    lemma_first_index_is(data, 0x20u8, 0, nul, space);
    assert(data.subrange(space + 1, nul) =~= digits);
    assert(data.subrange(0, space) =~= name);
    lemma_parse_formatted(size);
}

/// Decoding a serialized object gives its kind and declared size, and as
/// payload the written payload, cut off after the declared size.
pub proof fn lemma_decode_serialized(object: ObjectView)
    ensures
        decode_spec(serialized(object)) == Ok::<ObjectView, Error>(
            ObjectView {
                kind: object.kind,
                expected_size: object.expected_size,
                reader: prefix(object.reader, object.expected_size as nat),
            },
        ),
{
    let head = header(object.kind, object.expected_size as nat);
    lemma_header_parses(object.kind, object.expected_size, object.reader);
    lemma_header_len(object.kind, object.expected_size);
    assert(serialized(object).skip(head.len() as int) =~= object.reader);
}

/// Round trip: for any kind and payload, decoding the encoding of an object
/// whose declared size is its payload's length yields the same kind, the
/// same size and the same payload.
pub proof fn lemma_decode_round_trip(object: ObjectView)
    requires
        object.reader.len() == object.expected_size,
    ensures
        decode_spec(serialized(object)) == Ok::<ObjectView, Error>(object),
{
    lemma_decode_serialized(object);
}

/// Two objects with the same kind, declared size and payload have the same
/// digest: the digest is a function of the content alone.
pub proof fn lemma_same_content_same_id(a: ObjectView, b: ObjectView)
    requires
        a.kind == b.kind,
        a.expected_size == b.expected_size,
        a.reader == b.reader,
    ensures
        serialized(a) == serialized(b),
        object_id(a) == object_id(b),
{
}

/// Objects that differ, be it in one payload byte, have different
/// serialized forms, so their digests are digests of different inputs.
pub proof fn lemma_serialized_injective(a: ObjectView, b: ObjectView)
    requires
        a.reader.len() == a.expected_size,
        b.reader.len() == b.expected_size,
        serialized(a) == serialized(b),
    ensures
        a == b,
{
    lemma_decode_round_trip(a);
    lemma_decode_round_trip(b);
}

/// Size validation: where the header declares more bytes than the payload
/// that follows it holds, decoding succeeds and validating the payload
/// reports the mismatch, with the declared and the actual length.
pub proof fn lemma_short_payload_is_detected(kind: Kind, size: u64, payload: Seq<u8>)
    requires
        payload.len() < size,
    ensures
        decode_spec(header(kind, size as nat) + payload) matches Ok(object) && payload_spec(object)
            == Err::<Seq<u8>, Error>(
            Error::SizeMismatch { expected: size, actual: payload.len() as u64 },
        ),
{
    let object = ObjectView { kind, expected_size: size, reader: payload };
    lemma_decode_serialized(object);
}

/// Where the payload that follows the header is longer than declared, the
/// surplus is dropped without an error: validating then yields exactly the
/// declared number of bytes.
pub proof fn lemma_long_payload_is_cut(kind: Kind, size: u64, payload: Seq<u8>)
    requires
        payload.len() >= size,
    ensures
        decode_spec(header(kind, size as nat) + payload) matches Ok(object) && payload_spec(object)
            == Ok::<Seq<u8>, Error>(payload.take(size as int)),
{
    let object = ObjectView { kind, expected_size: size, reader: payload };
    lemma_decode_serialized(object);
    if payload.len() == size {
        assert(payload.take(size as int) =~= payload);
    }
}

/// Malformed header: bytes with no NUL among the first `MAX_HEADER_LEN`
/// are refused with `Format`, by the header parser and by the decoder.
pub proof fn lemma_missing_nul_is_format_error(data: Seq<u8>)
    requires
        forall|i: int| 0 <= i < data.len() && i < MAX_HEADER_LEN ==> data[i] != 0u8,
    ensures
        parse_header_spec(data) == Err::<Header, Error>(Error::Format),
        decode_spec(data) == Err::<ObjectView, Error>(Error::Format),
{
    let bound = header_bound(data);
    lemma_first_index_of(data, 0u8, 0, bound);
}

/// A header that is refused for its kind has a name in the kind's place,
/// and that name stands for no kind.
pub proof fn lemma_unsupported_kind_has_a_name(data: Seq<u8>)
    requires
        parse_header_spec(data) == Err::<Header, Error>(Error::UnsupportedKind),
    ensures
        header_name_spec(data) matches Some(name) && kind_of_name(name) is None,
{
}

/// The same for a stored object: if its decompressed stream has no NUL
/// among the first `MAX_HEADER_LEN` bytes, reading it fails with `Format`.
pub proof fn lemma_stored_without_nul_is_format_error(stored: Seq<u8>, head: Seq<u8>)
    requires
        inflated(stored, MAX_HEADER_LEN as nat) == Some(head),
        forall|i: int| 0 <= i < head.len() && i < MAX_HEADER_LEN ==> head[i] != 0u8,
    ensures
        read_spec(stored) == Err::<ObjectView, Error>(Error::Format),
{
    lemma_missing_nul_is_format_error(head);
}

/// Reading what was written for an object yields its kind and declared
/// size, and as payload the written payload, cut off after the declared
/// size.
pub proof fn lemma_read_stored(written: Written, object: ObjectView)
    requires
        stores(written, object),
        serialized(object).len() <= u64::MAX,
    ensures
        read_spec(written.data@) == Ok::<ObjectView, Error>(
            ObjectView {
                kind: object.kind,
                expected_size: object.expected_size,
                reader: prefix(object.reader, object.expected_size as nat),
            },
        ),
{
    let whole = serialized(object);
    let head = header(object.kind, object.expected_size as nat);
    lemma_header_len(object.kind, object.expected_size);
    let first = prefix(whole, MAX_HEADER_LEN as nat);
    assert(inflated(written.data@, MAX_HEADER_LEN as nat) == Some(first));
    assert(first =~= head + first.skip(head.len() as int));
    lemma_header_parses(object.kind, object.expected_size, first.skip(head.len() as int));
    let h = Header {
        kind: object.kind,
        size: object.expected_size,
        len: head.len() as usize,
    };
    assert(parse_header_spec(first) == Ok::<Header, Error>(h));
    let limit = body_limit(h);
    let data = prefix(whole, limit);
    assert(inflated(written.data@, limit) == Some(data));
    assert(data =~= head + data.skip(head.len() as int));
    lemma_header_parses(object.kind, object.expected_size, data.skip(head.len() as int));
    assert(prefix(data.skip(head.len() as int), object.expected_size as nat) =~= prefix(
        object.reader,
        object.expected_size as nat,
    )) by {
        assert(whole.skip(head.len() as int) =~= object.reader);
    }
}

/// Round trip through the store: reading what was written for an object
/// whose declared size is its payload's length yields the object.
pub proof fn lemma_read_written(written: Written, object: ObjectView)
    requires
        stores(written, object),
        object.reader.len() == object.expected_size,
        serialized(object).len() <= u64::MAX,
    ensures
        read_spec(written.data@) == Ok::<ObjectView, Error>(object),
{
    lemma_read_stored(written, object);
}

/// Size validation through the store: an object stored with a header that
/// declares more bytes than its payload holds is read, and validating its
/// payload reports the mismatch.
pub proof fn lemma_short_stored_payload_is_detected(written: Written, object: ObjectView)
    requires
        stores(written, object),
        object.reader.len() < object.expected_size,
        serialized(object).len() <= u64::MAX,
    ensures
        read_spec(written.data@) matches Ok(read) && payload_spec(read) == Err::<Seq<u8>, Error>(
            Error::SizeMismatch {
                expected: object.expected_size,
                actual: object.reader.len() as u64,
            },
        ),
{
    lemma_header_len(object.kind, object.expected_size);
    lemma_read_stored(written, object);
}

} // verus!
