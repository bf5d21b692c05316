use memodocs::text::{bytes_eq, text_eq};
use memodocs::{decode_record, encode_record, Decoded, LoadError};

fn record(id: &str, payload: &str) -> Vec<u8> {
    let mut out = Vec::new();
    encode_record(id, payload, &mut out);
    out
}

#[test]
fn record_has_the_documented_layout() {
    assert_eq!(
        record("ab", "xyz"),
        vec![2, 0, 0, 0, 0, 0, 0, 0, b'a', b'b', 3, 0, 0, 0, 0, 0, 0, 0, b'x', b'y', b'z']
    );
}

#[test]
fn record_of_empty_texts_is_two_zero_lengths() {
    assert_eq!(record("", ""), vec![0u8; 16]);
}

#[test]
fn lengths_count_bytes_not_characters() {
    let bytes = record("\u{e9}", "\u{1f600}");
    assert_eq!(
        bytes,
        vec![2, 0, 0, 0, 0, 0, 0, 0, 0xc3, 0xa9, 4, 0, 0, 0, 0, 0, 0, 0, 0xf0, 0x9f, 0x98, 0x80]
    );
}

#[test]
fn length_is_written_least_significant_byte_first() {
    let payload = "p".repeat(0x0102);
    let bytes = record("i", &payload);
    assert_eq!(&bytes[9..17], &[0x02, 0x01, 0, 0, 0, 0, 0, 0]);
    assert_eq!(bytes.len(), 8 + 1 + 8 + 0x0102);
}

#[test]
fn encode_appends_to_what_is_there() {
    let mut out = vec![7u8, 7, 7];
    encode_record("a", "b", &mut out);
    assert_eq!(&out[..3], &[7, 7, 7]);
    assert_eq!(&out[3..], record("a", "b").as_slice());
}

#[test]
fn decode_reads_back_what_encode_wrote() {
    let mut bytes = record("doc1", "{'name': 'Alice'}");
    let size = bytes.len();
    bytes.extend_from_slice(&[9, 9, 9]);
    assert_eq!(
        decode_record(&bytes),
        Decoded::Record {
            id: "doc1".to_string(),
            payload: "{'name': 'Alice'}".to_string(),
            size
        }
    );
}

#[test]
fn decode_of_exact_bytes() {
    let bytes = [1, 0, 0, 0, 0, 0, 0, 0, b'k', 2, 0, 0, 0, 0, 0, 0, 0, b'v', b'w', 0xff];
    assert_eq!(
        decode_record(&bytes),
        Decoded::Record { id: "k".to_string(), payload: "vw".to_string(), size: 19 }
    );
}

#[test]
fn fewer_than_eight_bytes_end_the_stream() {
    for len in 0..8usize {
        let bytes = vec![0xffu8; len];
        assert_eq!(decode_record(&bytes), Decoded::End);
    }
}

#[test]
fn record_cut_anywhere_after_its_first_eight_bytes_is_an_io_error() {
    let bytes = record("ident", "payload");
    for keep in 8..bytes.len() {
        assert_eq!(decode_record(&bytes[..keep]), Decoded::Broken(LoadError::Io), "keep {}", keep);
    }
    for keep in 0..8 {
        assert_eq!(decode_record(&bytes[..keep]), Decoded::End, "keep {}", keep);
    }
}

#[test]
fn identifier_that_is_not_utf8_is_a_decode_error() {
    let bytes = [2, 0, 0, 0, 0, 0, 0, 0, 0xff, 0xfe, 1, 0, 0, 0, 0, 0, 0, 0, b'v'];
    assert_eq!(decode_record(&bytes), Decoded::Broken(LoadError::Decode));
}

#[test]
fn payload_that_is_not_utf8_is_a_decode_error() {
    let bytes = [1, 0, 0, 0, 0, 0, 0, 0, b'k', 2, 0, 0, 0, 0, 0, 0, 0, 0xc3, 0x28];
    assert_eq!(decode_record(&bytes), Decoded::Broken(LoadError::Decode));
}

#[test]
fn bad_identifier_is_reported_before_a_missing_payload() {
    let bytes = [2, 0, 0, 0, 0, 0, 0, 0, 0xc0, 0x80];
    assert_eq!(decode_record(&bytes), Decoded::Broken(LoadError::Decode));
    let bytes = [2, 0, 0, 0, 0, 0, 0, 0, 0xc0, 0x80, 5, 0, 0];
    assert_eq!(decode_record(&bytes), Decoded::Broken(LoadError::Decode));
}

#[test]
fn missing_payload_is_reported_before_a_bad_payload() {
    let bytes = [1, 0, 0, 0, 0, 0, 0, 0, b'k', 3, 0, 0, 0, 0, 0, 0, 0, 0xff, 0xff];
    assert_eq!(decode_record(&bytes), Decoded::Broken(LoadError::Io));
}

#[test]
fn length_beyond_the_bytes_is_an_io_error() {
    let mut bytes = vec![0xffu8; 8];
    bytes.extend_from_slice(b"abc");
    assert_eq!(decode_record(&bytes), Decoded::Broken(LoadError::Io));
    let mut bytes = vec![1, 0, 0, 0, 0, 0, 0, 0, b'k'];
    bytes.extend_from_slice(&[0xff; 8]);
    bytes.extend_from_slice(b"abc");
    assert_eq!(decode_record(&bytes), Decoded::Broken(LoadError::Io));
    let bytes = [4, 0, 0, 0, 0, 0, 0, 0, b'a', b'b', b'c'];
    assert_eq!(decode_record(&bytes), Decoded::Broken(LoadError::Io));
}

fn with_payload(payload: &[u8]) -> Vec<u8> {
    let mut bytes = vec![1, 0, 0, 0, 0, 0, 0, 0, b'k'];
    bytes.extend_from_slice(&(payload.len() as u64).to_le_bytes());
    bytes.extend_from_slice(payload);
    bytes
}

#[test]
fn ill_formed_sequences_are_not_utf8() {
    let ill_formed: [&[u8]; 10] = [
        &[0x80],
        &[0xc3],
        &[0xc0, 0x80],
        &[0xc1, 0xbf],
        &[0xe0, 0x80, 0x80],
        &[0xed, 0xa0, 0x80],
        &[0xed, 0xbf, 0xbf],
        &[0xf0, 0x80, 0x80, 0x80],
        &[0xf4, 0x90, 0x80, 0x80],
        &[0xf8, 0x88, 0x80, 0x80, 0x80],
    ];
    for payload in ill_formed {
        assert_eq!(
            decode_record(&with_payload(payload)),
            Decoded::Broken(LoadError::Decode),
            "{:?}",
            payload
        );
    }
}

#[test]
fn sequences_at_the_edges_of_the_ranges_are_utf8() {
    let well_formed: [(&[u8], &str); 7] = [
        (&[0x7f], "\u{7f}"),
        (&[0xc2, 0x80], "\u{80}"),
        (&[0xe0, 0xa0, 0x80], "\u{800}"),
        (&[0xed, 0x9f, 0xbf], "\u{d7ff}"),
        (&[0xee, 0x80, 0x80], "\u{e000}"),
        (&[0xf0, 0x90, 0x80, 0x80], "\u{10000}"),
        (&[0xf4, 0x8f, 0xbf, 0xbf], "\u{10ffff}"),
    ];
    for (payload, expected) in well_formed {
        assert_eq!(
            decode_record(&with_payload(payload)),
            Decoded::Record {
                id: "k".to_string(),
                payload: expected.to_string(),
                size: 17 + payload.len()
            }
        );
    }
}

#[test]
fn bytes_are_equal_when_each_is() {
    assert!(bytes_eq(&[], &[]));
    assert!(bytes_eq(&[1, 2, 3], &[1, 2, 3]));
    assert!(!bytes_eq(&[1, 2, 3], &[1, 2]));
    assert!(!bytes_eq(&[1, 2], &[1, 2, 3]));
    assert!(!bytes_eq(&[1, 2, 3], &[1, 2, 4]));
    assert!(!bytes_eq(&[0, 2, 3], &[1, 2, 3]));
}

#[test]
fn texts_are_equal_when_their_characters_are() {
    assert!(text_eq("", ""));
    assert!(text_eq("doc1", "doc1"));
    assert!(text_eq("\u{e9}t\u{e9}", "\u{e9}t\u{e9}"));
    assert!(!text_eq("doc1", "doc2"));
    assert!(!text_eq("doc", "doc1"));
    assert!(!text_eq("e\u{301}", "\u{e9}"));
}
