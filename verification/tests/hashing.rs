use objstore::decimal::{format_u64, parse_u64};
use objstore::error::Error;
use objstore::hash::{after_step, digest, to_hex, HashWriter, Limited, Sink};
use sha1::{Digest, Sha1};

#[test]
fn digest_of_known_inputs() {
    assert_eq!(to_hex(&digest(b"")), "da39a3ee5e6b4b0d3255bfef95601890afd80709");
    assert_eq!(to_hex(&digest(b"hello world")), "2aae6c35c94fcfb415dbe95f408b9ce91ee846ed");
    assert_eq!(to_hex(&digest(b"abc")), "a9993e364706816aba3e25717850c26c9cd0d89d");
}

#[test]
fn digest_agrees_with_the_hasher() {
    let data = b"The quick brown fox jumps over the lazy dog";
    let expected: [u8; 20] = Sha1::digest(data).into();
    assert_eq!(digest(data), expected);
}

#[test]
fn chunk_boundaries_do_not_matter() {
    let data = b"hello world, hello store";
    for at in 0..=data.len() {
        let mut writer = HashWriter::new(Vec::new());
        assert_eq!(writer.write(&data[..at]), Ok(at));
        assert_eq!(writer.write(&data[at..]), Ok(data.len() - at));
        let (sink, hash) = writer.finalize();
        assert_eq!(sink, data.to_vec());
        assert_eq!(hash, digest(data));
    }
}

#[test]
fn hash_writer_forwards_and_hashes() {
    let mut writer = HashWriter::new(Vec::new());
    assert_eq!(writer.write(b"blob 6\0"), Ok(7));
    assert_eq!(writer.write(b""), Ok(0));
    assert_eq!(writer.write(b"hel"), Ok(3));
    assert_eq!(writer.write_all(b"lo\n"), Ok(()));
    let (sink, hash) = writer.finalize();
    assert_eq!(sink, b"blob 6\0hello\n".to_vec());
    assert_eq!(to_hex(&hash), "ce013625030ba8dba906f756967f9e9ca394464a");
}

#[test]
fn hash_writer_hashes_only_what_is_written_through_it() {
    let writer = HashWriter::new(b"already there".to_vec());
    let (sink, hash) = writer.finalize();
    assert_eq!(sink, b"already there".to_vec());
    assert_eq!(to_hex(&hash), "da39a3ee5e6b4b0d3255bfef95601890afd80709");
}

#[test]
fn limited_sink_takes_what_fits() {
    let mut sink = Limited::new(5);
    assert_eq!(sink.accept(b"abc"), Ok(3));
    assert_eq!(sink.accept(b"defg"), Ok(2));
    assert_eq!(sink.accept(b"h"), Ok(0));
    assert_eq!(sink.accept(b""), Ok(0));
    assert_eq!(sink.into_bytes(), b"abcde".to_vec());
    let mut buffer: Vec<u8> = Vec::new();
    assert_eq!(buffer.accept(b"abc"), Ok(3));
    assert_eq!(buffer.accept(b"defg"), Ok(4));
    assert_eq!(buffer, b"abcdefg".to_vec());
}

#[test]
fn hash_writer_hashes_only_what_the_sink_took() {
    let mut writer = HashWriter::new(Limited::new(4));
    assert_eq!(writer.write(b"hello world"), Ok(4));
    assert_eq!(writer.write(b"o world"), Ok(0));
    let (sink, hash) = writer.finalize();
    assert_eq!(sink.into_bytes(), b"hell".to_vec());
    assert_eq!(hash, digest(b"hell"));
}

#[test]
fn hash_writer_stops_with_a_full_sink() {
    let mut writer = HashWriter::new(Limited::new(7));
    assert_eq!(writer.write_all(b"hel"), Ok(()));
    assert_eq!(writer.write_all(b"lo world"), Err(Error::Io));
    let (sink, hash) = writer.finalize();
    assert_eq!(sink.into_bytes(), b"hello w".to_vec());
    assert_eq!(hash, digest(b"hello w"));
}

#[test]
fn settle_feeds_the_hash_what_the_sink_took() {
    let mut writer = HashWriter::new(Vec::new());
    assert_eq!(writer.settle(b"hello", Ok(3)), Ok(3));
    assert_eq!(writer.settle(b"lo", Ok(0)), Ok(0));
    assert_eq!(writer.settle(b"lo", Ok(2)), Ok(2));
    let (sink, hash) = writer.finalize();
    assert!(sink.is_empty());
    assert_eq!(hash, digest(b"hello"));
}

#[test]
fn settle_hands_on_the_error_of_the_sink() {
    let mut writer = HashWriter::new(Vec::new());
    assert_eq!(writer.settle(b"hello", Err(Error::Io)), Err(Error::Io));
    assert_eq!(writer.settle(b"hello", Err(Error::Format)), Err(Error::Format));
    assert_eq!(writer.settle(b"hello", Err(Error::NotFound)), Err(Error::NotFound));
    let (_, hash) = writer.finalize();
    assert_eq!(hash, digest(b""));
}

#[test]
fn steps_of_a_write() {
    assert_eq!(after_step(0, Ok(5)), Ok(5));
    assert_eq!(after_step(7, Ok(1)), Ok(8));
    assert_eq!(after_step(7, Ok(0)), Err(Error::Io));
    assert_eq!(after_step(0, Ok(0)), Err(Error::Io));
    assert_eq!(after_step(7, Err(Error::Format)), Err(Error::Format));
    assert_eq!(after_step(7, Err(Error::Io)), Err(Error::Io));
}

#[test]
fn write_returns_the_answer_of_the_sink() {
    let mut writer = HashWriter::new(Limited::new(3));
    assert_eq!(writer.write(b"ab"), Ok(2));
    assert_eq!(writer.write(b"cd"), Ok(1));
    assert_eq!(writer.write(b"d"), Ok(0));
    let mut writer = HashWriter::new(Vec::new());
    assert_eq!(writer.write(b"abcd"), Ok(4));
}

#[test]
fn writing_nothing_succeeds_with_a_full_sink() {
    let mut writer = HashWriter::new(Limited::new(0));
    assert_eq!(writer.write_all(b""), Ok(()));
    assert_eq!(writer.write_all(b"x"), Err(Error::Io));
}

#[test]
fn hex_is_lower_case_two_digits_per_byte() {
    let mut bytes = [0u8; 20];
    bytes[0] = 0x00;
    bytes[1] = 0x0f;
    bytes[2] = 0xf0;
    bytes[3] = 0xab;
    bytes[4] = 0x9c;
    bytes[19] = 0xff;
    assert_eq!(to_hex(&bytes), "000ff0ab9c0000000000000000000000000000ff");
}

#[test]
fn decimal_formatting() {
    assert_eq!(format_u64(0), b"0".to_vec());
    assert_eq!(format_u64(9), b"9".to_vec());
    assert_eq!(format_u64(10), b"10".to_vec());
    assert_eq!(format_u64(1234567890), b"1234567890".to_vec());
    assert_eq!(format_u64(u64::MAX), b"18446744073709551615".to_vec());
}

#[test]
fn decimal_parsing() {
    assert_eq!(parse_u64(b"0"), Some(0));
    assert_eq!(parse_u64(b"42"), Some(42));
    assert_eq!(parse_u64(b"0042"), Some(42));
    assert_eq!(parse_u64(b"18446744073709551615"), Some(u64::MAX));
    assert_eq!(parse_u64(b"18446744073709551616"), None);
    assert_eq!(parse_u64(b"99999999999999999999999"), None);
    assert_eq!(parse_u64(b"000000000000000000000000000001"), Some(1));
    assert_eq!(parse_u64(b""), None);
    assert_eq!(parse_u64(b"+1"), None);
    assert_eq!(parse_u64(b"-1"), None);
    assert_eq!(parse_u64(b"1a"), None);
    assert_eq!(parse_u64(b" 1"), None);
    assert_eq!(parse_u64(b"999999999999999999999x"), None);
}

#[test]
fn decimal_round_trip() {
    for n in [0u64, 1, 9, 10, 99, 100, 65535, 4294967296, u64::MAX - 1, u64::MAX] {
        assert_eq!(parse_u64(&format_u64(n)), Some(n));
    }
}
