use flate2::write::ZlibEncoder;
use flate2::Compression;
use objstore::error::Error;
use objstore::hash::to_hex;
use objstore::objects::{
    encode_header, header_name, parse_header, Header, Kind, Object, MAX_HEADER_LEN,
};
use std::io::Write;

fn compress(data: &[u8]) -> Vec<u8> {
    let mut encoder = ZlibEncoder::new(Vec::new(), Compression::default());
    encoder.write_all(data).unwrap();
    encoder.finish().unwrap()
}

#[test]
fn kind_names() {
    assert_eq!(Kind::Blob.name(), "blob");
    assert_eq!(Kind::Tree.name(), "tree");
    assert_eq!(Kind::Commit.name(), "commit");
    assert_eq!(Kind::Blob.name_bytes(), b"blob".to_vec());
    assert_eq!(Kind::Tree.name_bytes(), b"tree".to_vec());
    assert_eq!(Kind::Commit.name_bytes(), b"commit".to_vec());
    assert_eq!(Kind::from_name(b"blob"), Some(Kind::Blob));
    assert_eq!(Kind::from_name(b"tree"), Some(Kind::Tree));
    assert_eq!(Kind::from_name(b"commit"), Some(Kind::Commit));
    assert_eq!(Kind::from_name(b"tag"), None);
    assert_eq!(Kind::from_name(b"Blob"), None);
    assert_eq!(Kind::from_name(b""), None);
}

#[test]
fn header_is_kind_space_size_nul() {
    assert_eq!(encode_header(Kind::Blob, 6), b"blob 6\0".to_vec());
    assert_eq!(encode_header(Kind::Tree, 0), b"tree 0\0".to_vec());
    assert_eq!(encode_header(Kind::Commit, 1234), b"commit 1234\0".to_vec());
    assert_eq!(
        encode_header(Kind::Blob, u64::MAX),
        b"blob 18446744073709551615\0".to_vec()
    );
}

#[test]
fn encode_is_header_then_payload() {
    let object = Object::blob(b"hello\n".to_vec());
    assert_eq!(object.kind, Kind::Blob);
    assert_eq!(object.expected_size, 6);
    assert_eq!(object.encode(), b"blob 6\0hello\n".to_vec());
}

#[test]
fn decode_round_trip() {
    for kind in [Kind::Blob, Kind::Tree, Kind::Commit] {
        for payload in [&b""[..], &b"x"[..], &b"hello\n"[..], &b"with\0nul and space"[..]] {
            let object = Object::new(kind, payload.to_vec());
            let decoded = Object::decode(&object.encode()).unwrap();
            assert_eq!(decoded.kind, kind);
            assert_eq!(decoded.expected_size, payload.len() as u64);
            assert_eq!(decoded.reader, payload.to_vec());
        }
    }
}

#[test]
fn parse_header_gives_kind_size_and_length() {
    assert_eq!(
        parse_header(b"blob 6\0hello\n"),
        Ok(Header { kind: Kind::Blob, size: 6, len: 7 })
    );
    assert_eq!(
        parse_header(b"commit 007\0"),
        Ok(Header { kind: Kind::Commit, size: 7, len: 11 })
    );
}

#[test]
fn header_without_nul_is_format_error() {
    assert_eq!(parse_header(b""), Err(Error::Format));
    assert_eq!(parse_header(b"blob 6"), Err(Error::Format));
    assert_eq!(parse_header(b"blob 6hello"), Err(Error::Format));
    assert!(matches!(Object::decode(b"blob 6 hello"), Err(Error::Format)));
    let long = vec![b'a'; 1000];
    assert!(matches!(Object::decode(&long), Err(Error::Format)));
}

#[test]
fn nul_must_lie_within_the_header_bound() {
    // NUL at the last place within the bound: the header is read, and its
    // name is not a known kind.
    let mut inside = vec![b'k'; MAX_HEADER_LEN - 3];
    inside.extend_from_slice(b" 0\0");
    assert_eq!(inside.len(), MAX_HEADER_LEN);
    assert_eq!(parse_header(&inside), Err(Error::UnsupportedKind));
    // One byte further, and the header has no end.
    let mut outside = vec![b'k'; MAX_HEADER_LEN - 2];
    outside.extend_from_slice(b" 0\0");
    assert_eq!(parse_header(&outside), Err(Error::Format));
}

#[test]
fn header_without_space_is_format_error() {
    assert_eq!(parse_header(b"blob6\0hello\n"), Err(Error::Format));
    assert_eq!(parse_header(b"\0"), Err(Error::Format));
}

#[test]
fn size_must_be_a_decimal_u64() {
    assert_eq!(parse_header(b"blob \0"), Err(Error::Format));
    assert_eq!(parse_header(b"blob x\0"), Err(Error::Format));
    assert_eq!(parse_header(b"blob -1\0"), Err(Error::Format));
    assert_eq!(parse_header(b"blob +1\0"), Err(Error::Format));
    assert_eq!(parse_header(b"blob 1 2\0"), Err(Error::Format));
    assert_eq!(parse_header(b"blob 1.5\0"), Err(Error::Format));
    assert_eq!(parse_header(b"blob 18446744073709551616\0"), Err(Error::Format));
    assert_eq!(
        parse_header(b"blob 18446744073709551615\0"),
        Ok(Header { kind: Kind::Blob, size: u64::MAX, len: 26 })
    );
}

#[test]
fn unknown_kind_is_unsupported() {
    assert_eq!(parse_header(b"tag 3\0abc"), Err(Error::UnsupportedKind));
    assert_eq!(parse_header(b" 3\0abc"), Err(Error::UnsupportedKind));
    assert!(matches!(Object::decode(b"blub 3\0abc"), Err(Error::UnsupportedKind)));
    // A malformed size is reported before the kind is looked at.
    assert_eq!(parse_header(b"tag x\0abc"), Err(Error::Format));
}

#[test]
fn unknown_kind_can_be_named() {
    assert_eq!(header_name(b"tag 3\0abc"), Some(b"tag".to_vec()));
    assert_eq!(header_name(b"blob 6\0hello\n"), Some(b"blob".to_vec()));
    assert_eq!(header_name(b" 3\0"), Some(Vec::new()));
    assert_eq!(header_name(b"tag x y\0"), Some(b"tag".to_vec()));
    assert_eq!(header_name(b"tag\0"), None);
    assert_eq!(header_name(b"tag 3"), None);
    assert_eq!(header_name(b""), None);
    assert_eq!(Header::read_name(&compress(b"tag 1\0x")), Some(b"tag".to_vec()));
    assert_eq!(Header::read_name(&compress(b"tag1\0x")), None);
    assert_eq!(Header::read_name(b"this is not zlib"), None);
}

#[test]
fn long_payload_is_cut_to_declared_size() {
    let object = Object::decode(b"blob 3\0abcdef").unwrap();
    assert_eq!(object.expected_size, 3);
    assert_eq!(object.reader, b"abc".to_vec());
    assert_eq!(object.payload(), Ok(b"abc".to_vec()));
}

#[test]
fn short_payload_is_size_mismatch() {
    let object = Object::decode(b"blob 10\0abc").unwrap();
    assert_eq!(object.expected_size, 10);
    assert_eq!(object.reader, b"abc".to_vec());
    assert_eq!(
        object.payload(),
        Err(Error::SizeMismatch { expected: 10, actual: 3 })
    );
}

#[test]
fn size_validation_on_read() {
    // A stored object whose header claims more than its payload holds.
    let lying = Object { kind: Kind::Blob, expected_size: 9, reader: b"hello\n".to_vec() };
    let written = lying.write().unwrap();
    let read = Object::read(&written.data).unwrap();
    assert_eq!(read.kind, Kind::Blob);
    assert_eq!(read.expected_size, 9);
    assert_eq!(
        read.payload(),
        Err(Error::SizeMismatch { expected: 9, actual: 6 })
    );
    // One whose header claims less: the surplus is not read.
    let modest = Object { kind: Kind::Blob, expected_size: 2, reader: b"hello\n".to_vec() };
    let written = modest.write().unwrap();
    let read = Object::read(&written.data).unwrap();
    assert_eq!(read.payload(), Ok(b"he".to_vec()));
}

#[test]
fn write_gives_the_digest_of_header_and_payload() {
    let written = Object::blob(b"hello\n".to_vec()).write().unwrap();
    assert_eq!(to_hex(&written.hash), "ce013625030ba8dba906f756967f9e9ca394464a");
    let empty = Object::blob(Vec::new()).write().unwrap();
    assert_eq!(to_hex(&empty.hash), "e69de29bb2d1d6434b8b29ae775ad8c2e48c5391");
}

#[test]
fn write_compresses() {
    let payload = vec![b'a'; 10_000];
    let object = Object::blob(payload.clone());
    let written = object.write().unwrap();
    assert!(written.data.len() < 1000);
    assert_ne!(written.data, object.encode());
    let read = Object::read(&written.data).unwrap();
    assert_eq!(read.kind, Kind::Blob);
    assert_eq!(read.payload(), Ok(payload));
}

#[test]
fn write_gives_the_compressed_serialized_form() {
    for payload in [&b""[..], &b"hello\n"[..], &[0u8; 3000][..]] {
        let object = Object::new(Kind::Tree, payload.to_vec());
        let written = object.write().unwrap();
        assert_eq!(written.data, compress(&object.encode()));
        let again = object.write().unwrap();
        assert_eq!(written.data, again.data);
        assert_eq!(written.hash, again.hash);
    }
}

#[test]
fn digest_is_the_same_for_the_same_content() {
    let a = Object::new(Kind::Commit, b"same".to_vec()).write().unwrap();
    let b = Object::new(Kind::Commit, b"same".to_vec()).write().unwrap();
    assert_eq!(a.hash, b.hash);
    let other_payload = Object::new(Kind::Commit, b"samf".to_vec()).write().unwrap();
    assert_ne!(a.hash, other_payload.hash);
    let other_kind = Object::new(Kind::Tree, b"same".to_vec()).write().unwrap();
    assert_ne!(a.hash, other_kind.hash);
}

#[test]
fn read_round_trip() {
    for kind in [Kind::Blob, Kind::Tree, Kind::Commit] {
        let payload = b"some payload\0with a nul".to_vec();
        let written = Object::new(kind, payload.clone()).write().unwrap();
        let read = Object::read(&written.data).unwrap();
        assert_eq!(read.kind, kind);
        assert_eq!(read.expected_size, payload.len() as u64);
        assert_eq!(read.payload(), Ok(payload));
    }
}

#[test]
fn read_takes_what_another_writer_compressed() {
    let stored = compress(b"blob 6\0hello\n");
    let object = Object::read(&stored).unwrap();
    assert_eq!(object.kind, Kind::Blob);
    assert_eq!(object.expected_size, 6);
    assert_eq!(object.reader, b"hello\n".to_vec());
    assert_eq!(Header::read(&stored), Ok(Header { kind: Kind::Blob, size: 6, len: 7 }));
}

#[test]
fn read_with_the_largest_declared_size() {
    let stored = compress(b"blob 18446744073709551615\0abc");
    let object = Object::read(&stored).unwrap();
    assert_eq!(object.expected_size, u64::MAX);
    assert_eq!(object.reader, b"abc".to_vec());
    assert_eq!(
        object.payload(),
        Err(Error::SizeMismatch { expected: u64::MAX, actual: 3 })
    );
}

#[test]
fn read_reports_malformed_headers() {
    assert!(matches!(Object::read(&compress(b"blob 6")), Err(Error::Format)));
    assert!(matches!(Object::read(&compress(&vec![b'x'; 500])), Err(Error::Format)));
    assert!(matches!(Object::read(&compress(b"blob six\0hello\n")), Err(Error::Format)));
    assert!(matches!(Object::read(&compress(b"blob\0")), Err(Error::Format)));
    assert!(matches!(Object::read(&compress(b"tag 1\0x")), Err(Error::UnsupportedKind)));
    assert_eq!(Header::read(&compress(b"tag 1\0x")), Err(Error::UnsupportedKind));
}

#[test]
fn read_reports_damaged_streams() {
    assert!(matches!(Object::read(b"this is not zlib"), Err(Error::Io)));
    assert_eq!(Header::read(b"this is not zlib"), Err(Error::Io));
    let stored = compress(&Object::blob(vec![7u8; 5000]).encode());
    let cut = &stored[..stored.len() / 2];
    assert!(matches!(Object::read(cut), Err(Error::Io)));
}

#[test]
fn error_descriptions() {
    assert_eq!(Error::Format.describe(), "object file header is malformed");
    assert_eq!(
        Error::SizeMismatch { expected: 1, actual: 0 }.describe(),
        "object file was not the expected size"
    );
    assert_eq!(Error::EmptyTree.describe(), "asked to make tree object for empty tree");
    assert_eq!(
        Error::ModeRequired.describe(),
        "mode must be given without -p, and we don't support mode"
    );
}
