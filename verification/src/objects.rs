//! The object format: a header line, a NUL byte, and the payload; and the
//! reader and writer that keep a stored object's digest tied to its content.

use crate::decimal::{decimal, format_u64, parse_decimal, parse_u64};
use crate::error::Error;
use crate::hash::{sha1_of, HashWriter};
use crate::zlib::{deflate, deflated, inflate, inflated, prefix};
use vstd::prelude::*;
use vstd::slice::{slice_subrange, slice_to_vec};
use vstd::utf8::{encode_utf8, is_ascii_chars_encode_utf8};

verus! {

/// The NUL byte that ends a header must lie among this many first bytes.
pub const MAX_HEADER_LEN: usize = 64;

/// What an object holds.
#[derive(Debug, Clone, Copy, PartialEq, Eq, Structural)]
pub enum Kind {
    Blob,
    Tree,
    Commit,
}

/// The name under which a kind appears in an object's header: the ASCII
/// bytes of `blob`, `tree` or `commit`.
pub open spec fn kind_name(kind: Kind) -> Seq<u8> {
    match kind {
        Kind::Blob => seq![0x62u8, 0x6cu8, 0x6fu8, 0x62u8],
        Kind::Tree => seq![0x74u8, 0x72u8, 0x65u8, 0x65u8],
        Kind::Commit => seq![0x63u8, 0x6fu8, 0x6du8, 0x6du8, 0x69u8, 0x74u8],
    }
}

/// The kind that a header name stands for, if any.
pub open spec fn kind_of_name(name: Seq<u8>) -> Option<Kind> {
    if name == kind_name(Kind::Blob) {
        Some(Kind::Blob)
    } else if name == kind_name(Kind::Tree) {
        Some(Kind::Tree)
    } else if name == kind_name(Kind::Commit) {
        Some(Kind::Commit)
    } else {
        None
    }
}

/// The header of an object: kind name, a space, the payload's length in
/// decimal, and a NUL byte.
pub open spec fn header(kind: Kind, size: nat) -> Seq<u8> {
    kind_name(kind) + seq![0x20u8] + decimal(size) + seq![0u8]
}

/// The first index in `from..to` at which `data` holds `byte`, or `to` if
/// there is none.
pub open spec fn first_index_of(data: Seq<u8>, byte: u8, from: int, to: int) -> int
    decreases to - from,
{
    if from >= to {
        to
    } else if data[from] == byte {
        from
    } else {
        first_index_of(data, byte, from + 1, to)
    }
}

/// A parsed header.
#[derive(Debug, Clone, Copy, PartialEq, Eq, Structural)]
pub struct Header {
    pub kind: Kind,
    /// The payload length that the header declares.
    pub size: u64,
    /// The header's own length, its NUL byte included.
    pub len: usize,
}

/// How many leading bytes of `data` are searched for the header's end.
pub open spec fn header_bound(data: Seq<u8>) -> int {
    if data.len() < MAX_HEADER_LEN {
        data.len() as int
    } else {
        MAX_HEADER_LEN as int
    }
}

/// What the start of `data` says as a header. The header runs up to the
/// first NUL byte, which must lie within the bound; it splits at its first
/// space into kind name and size; the size must be a decimal `u64`; and the
/// name must be a known kind. The first three failing give `Format`, the
/// last `UnsupportedKind`.
pub open spec fn parse_header_spec(data: Seq<u8>) -> Result<Header, Error> {
    let bound = header_bound(data);
    let nul = first_index_of(data, 0u8, 0, bound);
    let space = first_index_of(data, 0x20u8, 0, nul);
    if nul >= bound || space >= nul {
        Err(Error::Format)
    } else {
        match parse_decimal(data.subrange(space + 1, nul)) {
            None => Err(Error::Format),
            Some(size) => match kind_of_name(data.subrange(0, space)) {
                None => Err(Error::UnsupportedKind),
                Some(kind) => Ok(Header { kind, size, len: (nul + 1) as usize }),
            },
        }
    }
}

/// The name that stands in the kind's place of the header at the start of
/// `data`, be it a known kind or not: the bytes before the header's first
/// space. There is none where the header has no end within the bound or no
/// space.
pub open spec fn header_name_spec(data: Seq<u8>) -> Option<Seq<u8>> {
    let bound = header_bound(data);
    let nul = first_index_of(data, 0u8, 0, bound);
    let space = first_index_of(data, 0x20u8, 0, nul);
    if nul >= bound || space >= nul {
        None
    } else {
        Some(data.subrange(0, space))
    }
}

/// What naming the kind of a stored object gives, over the bounded
/// decompression of its header.
pub open spec fn read_name_spec(stored: Seq<u8>) -> Option<Seq<u8>> {
    match inflated(stored, MAX_HEADER_LEN as nat) {
        None => None,
        Some(head) => header_name_spec(head),
    }
}

/// An object as the contracts see it.
pub struct ObjectView {
    pub kind: Kind,
    pub expected_size: u64,
    pub reader: Seq<u8>,
}

/// An object: its kind, the payload length that its header declares, and
/// the payload bytes at hand. For an object made in memory the two agree;
/// for one read from the store, `reader` holds at most `expected_size` bytes
/// and fewer where the stored payload is short.
#[derive(Debug)]
pub struct Object {
    pub kind: Kind,
    pub expected_size: u64,
    pub reader: Vec<u8>,
}

impl View for Object {
    type V = ObjectView;

    open spec fn view(&self) -> ObjectView {
        ObjectView { kind: self.kind, expected_size: self.expected_size, reader: self.reader@ }
    }
}

/// The serialized form of an object: header, then payload.
pub open spec fn serialized(object: ObjectView) -> Seq<u8> {
    header(object.kind, object.expected_size as nat) + object.reader
}

/// The identity of an object: the digest of its serialized form.
pub open spec fn object_id(object: ObjectView) -> Seq<u8> {
    sha1_of(serialized(object))
}

/// What decoding `data` gives: the parsed header, and as payload the bytes
/// that follow it, cut off after the declared size.
pub open spec fn decode_spec(data: Seq<u8>) -> Result<ObjectView, Error> {
    match parse_header_spec(data) {
        Err(e) => Err(e),
        Ok(h) => Ok(
            ObjectView {
                kind: h.kind,
                expected_size: h.size,
                reader: prefix(data.skip(h.len as int), h.size as nat),
            },
        ),
    }
}

/// How many decompressed bytes hold the header and the declared payload.
pub open spec fn body_limit(h: Header) -> nat {
    if h.len + h.size > u64::MAX {
        u64::MAX as nat
    } else {
        (h.len + h.size) as nat
    }
}

/// What reading the header of a stored object gives, over the bounded
/// decompression that it makes.
pub open spec fn read_header_spec(stored: Seq<u8>) -> Result<Header, Error> {
    match inflated(stored, MAX_HEADER_LEN as nat) {
        None => Err(Error::Io),
        Some(head) => parse_header_spec(head),
    }
}

/// What reading a stored object gives, over the two bounded decompressions
/// that it makes: first of the header, then of header and payload.
pub open spec fn read_spec(stored: Seq<u8>) -> Result<ObjectView, Error> {
    match inflated(stored, MAX_HEADER_LEN as nat) {
        None => Err(Error::Io),
        Some(head) => match parse_header_spec(head) {
            Err(e) => Err(e),
            Ok(h) => match inflated(stored, body_limit(h)) {
                None => Err(Error::Io),
                Some(data) => decode_spec(data),
            },
        },
    }
}

/// What validating the payload of a read object gives.
pub open spec fn payload_spec(object: ObjectView) -> Result<Seq<u8>, Error> {
    if object.reader.len() == object.expected_size {
        Ok(object.reader)
    } else {
        Err(
            Error::SizeMismatch {
                expected: object.expected_size,
                actual: object.reader.len() as u64,
            },
        )
    }
}

/// The result of writing an object: its digest, and the compressed bytes to
/// put in the store under that digest.
#[derive(Debug)]
pub struct Written {
    pub hash: [u8; 20],
    pub data: Vec<u8>,
}

/// Whether `written` is a faithful stored form of `object`: named by the
/// object's digest, and decompressing to its serialized form.
pub open spec fn stores(written: Written, object: ObjectView) -> bool {
    &&& written.hash@ == object_id(object)
    &&& forall|limit: nat| #[trigger]
        inflated(written.data@, limit) == Some(prefix(serialized(object), limit))
}

/// Whether `out` is what writing `object` owes: where the serialized form
/// compresses, the object's digest with the compressed stream, which is then
/// a faithful stored form; and `Io` where compressing fails.
pub open spec fn written_for(out: Result<Written, Error>, object: ObjectView) -> bool {
    match deflated(serialized(object)) {
        Some(bytes) => {
            &&& out matches Ok(written)
            &&& written.hash@ == object_id(object)
            &&& written.data@ == bytes
            &&& stores(written, object)
        },
        None => out matches Err(e) && e == Error::Io,
    }
}

impl Kind {
    /// The header name of this kind, as bytes.
    pub fn name_bytes(&self) -> (name: Vec<u8>)
        ensures
            name@ == kind_name(*self),
    {
        match self {
            Kind::Blob => vec![0x62u8, 0x6cu8, 0x6fu8, 0x62u8],
            Kind::Tree => vec![0x74u8, 0x72u8, 0x65u8, 0x65u8],
            Kind::Commit => vec![0x63u8, 0x6fu8, 0x6du8, 0x6du8, 0x69u8, 0x74u8],
        }
    }

    /// The text that names a kind.
    pub open spec fn name_spec(self) -> Seq<char> {
        match self {
            Kind::Blob => "blob"@,
            Kind::Tree => "tree"@,
            Kind::Commit => "commit"@,
        }
    }

    /// The header name of this kind, as text: the same bytes as
    /// `name_bytes` gives.
    pub fn name(&self) -> (name: &'static str)
        ensures
            name@ == self.name_spec(),
            encode_utf8(name@) == kind_name(*self),
    {
        proof {
            reveal_strlit("blob");
            reveal_strlit("tree");
            reveal_strlit("commit");
            is_ascii_chars_encode_utf8(self.name_spec());
            assert(encode_utf8(self.name_spec()) =~= kind_name(*self));
        }
        match self {
            Kind::Blob => "blob",
            Kind::Tree => "tree",
            Kind::Commit => "commit",
        }
    }

    /// The kind that a header name stands for.
    pub fn from_name(name: &[u8]) -> (kind: Option<Kind>)
        ensures
            kind == kind_of_name(name@),
    {
        if bytes_equal(name, Kind::Blob.name_bytes().as_slice()) {
            Some(Kind::Blob)
        } else if bytes_equal(name, Kind::Tree.name_bytes().as_slice()) {
            Some(Kind::Tree)
        } else if bytes_equal(name, Kind::Commit.name_bytes().as_slice()) {
            Some(Kind::Commit)
        } else {
            None
        }
    }
}

/// Whether two byte strings are the same.
pub fn bytes_equal(a: &[u8], b: &[u8]) -> (same: bool)
    ensures
        same == (a@ == b@),
{
    if a.len() != b.len() {
        return false;
    }
    let mut i: usize = 0;
    while i < a.len()
        invariant
            a@.len() == b@.len(),
            0 <= i <= a@.len(),
            forall|k: int| 0 <= k < i ==> a@[k] == b@[k],
        decreases a.len() - i,
    {
        if a[i] != b[i] {
            return false;
        }
        i += 1;
    }
    assert(a@ =~= b@);
    true
}

/// The first index below `to` at which `data` holds `byte`, or `to`.
pub fn find_byte(data: &[u8], byte: u8, to: usize) -> (at: usize)
    requires
        to <= data@.len(),
    ensures
        at == first_index_of(data@, byte, 0, to as int),
        at <= to,
{
    let mut i: usize = 0;
    while i < to
        invariant
            0 <= i <= to <= data@.len(),
            first_index_of(data@, byte, 0, to as int) == first_index_of(
                data@,
                byte,
                i as int,
                to as int,
            ),
        decreases to - i,
    {
        if data[i] == byte {
            return i;
        }
        i += 1;
    }
    to
}

/// Where `first_index_of` lands: on the first occurrence, with none before.
pub proof fn lemma_first_index_of(data: Seq<u8>, byte: u8, from: int, to: int)
    requires
        0 <= from <= to <= data.len(),
    ensures
        from <= first_index_of(data, byte, from, to) <= to,
        forall|k: int| from <= k < first_index_of(data, byte, from, to) ==> data[k] != byte,
        first_index_of(data, byte, from, to) < to ==> data[first_index_of(data, byte, from, to)]
            == byte,
    decreases to - from,
{
    if from < to && data[from] != byte {
        lemma_first_index_of(data, byte, from + 1, to);
    }
}

/// An index that ends a run free of `byte`, and either holds `byte` or is
/// the end of the range, is what `first_index_of` finds.
pub proof fn lemma_first_index_is(data: Seq<u8>, byte: u8, from: int, to: int, at: int)
    requires
        0 <= from <= at <= to <= data.len(),
        forall|k: int| from <= k < at ==> data[k] != byte,
        at == to || data[at] == byte,
    ensures
        first_index_of(data, byte, from, to) == at,
    decreases at - from,
{
    if from < at {
        lemma_first_index_is(data, byte, from + 1, to, at);
    }
}

/// Writes the header of an object of the given kind and payload length.
pub fn encode_header(kind: Kind, size: u64) -> (out: Vec<u8>)
    ensures
        out@ == header(kind, size as nat),
{
    let mut out = kind.name_bytes();
    out.push(0x20u8);
    let digits = format_u64(size);
    out.extend_from_slice(digits.as_slice());
    out.push(0u8);
    assert(out@ =~= header(kind, size as nat));
    out
}

/// Reads the header at the start of `data`.
pub fn parse_header(data: &[u8]) -> (out: Result<Header, Error>)
    ensures
        out == parse_header_spec(data@),
{
    let bound = if data.len() < MAX_HEADER_LEN {
        data.len()
    } else {
        MAX_HEADER_LEN
    };
    let nul = find_byte(data, 0u8, bound);
    let space = find_byte(data, 0x20u8, nul);
    if nul >= bound || space >= nul {
        return Err(Error::Format);
    }
    match parse_u64(slice_subrange(data, space + 1, nul)) {
        None => Err(Error::Format),
        Some(size) => match Kind::from_name(slice_subrange(data, 0, space)) {
            None => Err(Error::UnsupportedKind),
            Some(kind) => Ok(Header { kind, size, len: nul + 1 }),
        },
    }
}

/// The name in the kind's place of a header, for telling what an unknown
/// kind was called.
pub fn header_name(data: &[u8]) -> (name: Option<Vec<u8>>)
    ensures
        match name {
            Some(bytes) => header_name_spec(data@) == Some(bytes@),
            None => header_name_spec(data@) is None,
        },
{
    let bound = if data.len() < MAX_HEADER_LEN {
        data.len()
    } else {
        MAX_HEADER_LEN
    };
    let nul = find_byte(data, 0u8, bound);
    let space = find_byte(data, 0x20u8, nul);
    if nul >= bound || space >= nul {
        None
    } else {
        Some(slice_to_vec(slice_subrange(data, 0, space)))
    }
}

impl Header {
    /// The name in the kind's place of a stored object's header.
    pub fn read_name(stored: &[u8]) -> (name: Option<Vec<u8>>)
        ensures
            match name {
                Some(bytes) => read_name_spec(stored@) == Some(bytes@),
                None => read_name_spec(stored@) is None,
            },
    {
        match inflate(stored, MAX_HEADER_LEN as u64) {
            Ok(head) => header_name(head.as_slice()),
            Err(_) => None,
        }
    }

    /// Reads the header of a stored object, decompressing no more than the
    /// header bound.
    pub fn read(stored: &[u8]) -> (out: Result<Header, Error>)
        ensures
            out == read_header_spec(stored@),
    {
        match inflate(stored, MAX_HEADER_LEN as u64) {
            Ok(head) => parse_header(head.as_slice()),
            Err(_) => Err(Error::Io),
        }
    }
}

impl Object {
    /// An object of the given kind whose payload is `payload`.
    pub fn new(kind: Kind, payload: Vec<u8>) -> (object: Object)
        ensures
            object@ == (ObjectView {
                kind,
                expected_size: payload@.len() as u64,
                reader: payload@,
            }),
            object@.expected_size == payload@.len(),
    {
        let expected_size = payload.len() as u64;
        Object { kind, expected_size, reader: payload }
    }

    /// The blob that holds a file's content.
    pub fn blob(content: Vec<u8>) -> (object: Object)
        ensures
            object@ == (ObjectView {
                kind: Kind::Blob,
                expected_size: content@.len() as u64,
                reader: content@,
            }),
            object@.expected_size == content@.len(),
    {
        Object::new(Kind::Blob, content)
    }

    /// The serialized form: header, then payload.
    pub fn encode(&self) -> (out: Vec<u8>)
        ensures
            out@ == serialized(self@),
    {
        let mut out = encode_header(self.kind, self.expected_size);
        out.extend_from_slice(self.reader.as_slice());
        assert(out@ =~= serialized(self@));
        out
    }

    /// Parses a serialized object. The payload is what follows the header,
    /// cut off after the declared size; a payload that is too short is kept
    /// as it is, for `payload` to report.
    pub fn decode(data: &[u8]) -> (out: Result<Object, Error>)
        ensures
            match out {
                Ok(object) => decode_spec(data@) == Ok::<ObjectView, Error>(object@),
                Err(e) => decode_spec(data@) == Err::<ObjectView, Error>(e),
            },
    {
        match parse_header(data) {
            Err(e) => Err(e),
            Ok(h) => {
                proof {
                    lemma_first_index_of(data@, 0u8, 0, header_bound(data@));
                }
                let rest = slice_subrange(data, h.len, data.len());
                assert(rest@ =~= data@.skip(h.len as int));
                let reader = if h.size < rest.len() as u64 {
                    let cut = slice_subrange(rest, 0, h.size as usize);
                    assert(cut@ =~= rest@.take(h.size as int));
                    slice_to_vec(cut)
                } else {
                    slice_to_vec(rest)
                };
                Ok(Object { kind: h.kind, expected_size: h.size, reader })
            },
        }
    }

    /// Hashes and compresses the serialized form. Every byte passes the
    /// hash before it is compressed, so the digest is that of the
    /// uncompressed header and payload.
    pub fn write(&self) -> (out: Result<Written, Error>)
        ensures
            written_for(out, self@),
    {
        let mut writer = HashWriter::new(Vec::new());
        let head = encode_header(self.kind, self.expected_size);
        // A buffer in memory takes all it is given, so neither write fails.
        match writer.write_all(head.as_slice()) {
            Ok(_) => {},
            Err(e) => {
                return Err(e);
            },
        }
        match writer.write_all(self.reader.as_slice()) {
            Ok(_) => {},
            Err(e) => {
                return Err(e);
            },
        }
        let (bytes, hash) = writer.finalize();
        assert(Seq::<u8>::empty() + head@ + self.reader@ =~= serialized(self@));
        let packed = deflate(bytes.as_slice());
        Written::seal(hash, packed)
    }

    /// Reads a stored object: decompresses its header, parses it, and then
    /// decompresses no more than the header and the declared payload.
    pub fn read(stored: &[u8]) -> (out: Result<Object, Error>)
        ensures
            match out {
                Ok(object) => read_spec(stored@) == Ok::<ObjectView, Error>(object@),
                Err(e) => read_spec(stored@) == Err::<ObjectView, Error>(e),
            },
    {
        let h = match Header::read(stored) {
            Ok(h) => h,
            Err(e) => {
                return Err(e);
            },
        };
        let limit = (h.len as u64).saturating_add(h.size);
        match inflate(stored, limit) {
            Ok(data) => Object::decode(data.as_slice()),
            Err(_) => Err(Error::Io),
        }
    }

    /// The payload, once it is known to have the declared length. A short
    /// payload tells of a damaged or cut-off object and is an error.
    pub fn payload(self) -> (out: Result<Vec<u8>, Error>)
        ensures
            match out {
                Ok(bytes) => payload_spec(self@) == Ok::<Seq<u8>, Error>(bytes@),
                Err(e) => payload_spec(self@) == Err::<Seq<u8>, Error>(e),
            },
    {
        let actual = self.reader.len() as u64;
        if actual == self.expected_size {
            Ok(self.reader)
        } else {
            Err(Error::SizeMismatch { expected: self.expected_size, actual })
        }
    }
}

impl Written {
    /// Joins a digest with the outcome of compressing the serialized form:
    /// the compressed bytes under that digest, or `Io` where compressing
    /// failed.
    pub fn seal(hash: [u8; 20], packed: Result<Vec<u8>, std::io::Error>) -> (out: Result<
        Written,
        Error,
    >)
        ensures
            match packed {
                Ok(data) => out matches Ok(written) && written.hash == hash && written.data
                    == data,
                Err(_) => out matches Err(e) && e == Error::Io,
            },
    {
        match packed {
            Ok(data) => Ok(Written { hash, data }),
            Err(_) => Err(Error::Io),
        }
    }
}

} // verus!
