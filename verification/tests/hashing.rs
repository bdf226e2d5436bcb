use git_objects::compressor::Compressor;
use git_objects::error::Error;
use git_objects::hasher::{create_hash, create_hex_hash, to_hex};
use git_objects::text::{read_text, same_text};

#[test]
fn hex_hash_of_empty_input() {
    assert_eq!(create_hex_hash(b""), "da39a3ee5e6b4b0d3255bfef95601890afd80709");
}

#[test]
fn hex_hash_of_abc() {
    assert_eq!(create_hex_hash(b"abc"), "a9993e364706816aba3e25717850c26c9cd0d89d");
}

#[test]
fn raw_hash_has_twenty_bytes() {
    let digest = create_hash(b"abc");
    assert_eq!(digest.len(), 20);
    assert_eq!(digest[0], 0xa9);
    assert_eq!(digest[19], 0x9d);
}

#[test]
fn raw_hash_is_not_its_input() {
    let input = vec![7u8; 20];
    assert_ne!(create_hash(&input), input);
}

#[test]
fn hex_and_raw_hash_agree() {
    let digest = create_hash(b"some bytes");
    assert_eq!(to_hex(&digest), create_hex_hash(b"some bytes"));
}

#[test]
fn hash_is_deterministic() {
    assert_eq!(create_hex_hash(b"twice"), create_hex_hash(b"twice"));
    assert_ne!(create_hex_hash(b"twice"), create_hex_hash(b"thrice"));
}

#[test]
fn to_hex_writes_two_lowercase_digits_for_each_byte() {
    assert_eq!(to_hex(&[0x00, 0x0f, 0xa0, 0xff, 0x9b]), "000fa0ff9b");
    assert_eq!(to_hex(&[]), "");
}

#[test]
fn hex_reads_back_as_the_same_bytes() {
    let bytes: Vec<u8> = (0u8..=255).collect();
    let text = to_hex(&bytes);
    assert_eq!(text.len(), 512);
    assert_eq!(hex::decode(&text).unwrap(), bytes);
}

#[test]
fn compress_then_decompress_gives_the_input() {
    let input = b"blob 3\0hi\n".to_vec();
    let stream = Compressor::compress(&input).unwrap();
    assert_ne!(stream, input);
    assert_eq!(Compressor::decompress(&stream).unwrap(), input);
}

#[test]
fn compress_then_decompress_gives_the_empty_input() {
    let stream = Compressor::compress(b"").unwrap();
    assert!(!stream.is_empty());
    assert_eq!(Compressor::decompress(&stream).unwrap(), Vec::<u8>::new());
}

#[test]
fn compress_then_decompress_gives_a_long_input() {
    let mut input: Vec<u8> = Vec::new();
    for i in 0..100_000u32 {
        input.push((i % 251) as u8);
    }
    let stream = Compressor::compress(&input).unwrap();
    assert!(stream.len() < input.len());
    assert_eq!(Compressor::decompress(&stream).unwrap(), input);
}

#[test]
fn compress_makes_a_zlib_stream() {
    let stream = Compressor::compress(b"blob 3\0hi\n").unwrap();
    assert_eq!(stream[0], 0x78);
    assert_eq!(Compressor::decompress(&stream).unwrap(), b"blob 3\0hi\n".to_vec());
}

#[test]
fn decompress_reads_a_known_stream() {
    let stream = hex::decode("789c4bcac94f523066c8c8e4020011a302ce").unwrap();
    assert_eq!(Compressor::decompress(&stream).unwrap(), b"blob 3\0hi\n".to_vec());
}

#[test]
fn decompress_refuses_wrong_magic_bytes() {
    assert_eq!(Compressor::decompress(b"not a stream"), Err(Error::CorruptStream));
}

#[test]
fn decompress_refuses_a_truncated_stream() {
    let stream = Compressor::compress(b"some content that is cut off").unwrap();
    let cut = &stream[..stream.len() / 2];
    assert_eq!(Compressor::decompress(cut), Err(Error::CorruptStream));
}

#[test]
fn decompress_refuses_no_bytes() {
    assert_eq!(Compressor::decompress(b""), Err(Error::CorruptStream));
}

#[test]
fn outcome_of_the_encoder_is_mapped() {
    let failure = std::io::Error::new(std::io::ErrorKind::Other, "full");
    assert_eq!(Compressor::compressed(Err(failure)), Err(Error::Io));
    assert_eq!(Compressor::compressed(Ok(vec![1, 2])), Ok(vec![1, 2]));
}

#[test]
fn outcome_of_the_decoder_is_mapped() {
    let failure = std::io::Error::new(std::io::ErrorKind::InvalidInput, "corrupt");
    assert_eq!(Compressor::decompressed(Err(failure)), Err(Error::CorruptStream));
    assert_eq!(Compressor::decompressed(Ok(vec![3])), Ok(vec![3]));
}

#[test]
fn read_text_of_valid_bytes() {
    assert_eq!(read_text("héllo ✓".as_bytes()), "héllo ✓");
    assert_eq!(read_text(b""), "");
}

#[test]
fn read_text_replaces_invalid_bytes() {
    assert_eq!(read_text(&[b'a', 0xff, b'b']), "a\u{fffd}b");
}

#[test]
fn same_text_compares_texts() {
    assert!(same_text("blob", "blob"));
    assert!(!same_text("blob", "blo"));
    assert!(!same_text("blob", "bloc"));
    assert!(same_text("", ""));
}
