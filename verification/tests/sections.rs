//! Section-level pieces: the endian codec, the label checksum, the sorted
//! key machinery, and the formatting-tag lexer's lossless round trip.

use msbt::{Encoding, Endianness};
use msbt::endian::{get16, get32, put16, put32};
use msbt::section::lbl1::{check_utf8, checksum, sort_keys};
use msbt::section::txt2::{parse_elements, write_element, TextElement};

#[test]
fn endian_round_trips() {
    let mut b = Vec::new();
    put16(&mut b, Endianness::Big, 0x1234);
    put16(&mut b, Endianness::Little, 0x1234);
    put32(&mut b, Endianness::Big, 0xDEAD_BEEF);
    put32(&mut b, Endianness::Little, 0xDEAD_BEEF);
    assert_eq!(b, vec![0x12, 0x34, 0x34, 0x12, 0xDE, 0xAD, 0xBE, 0xEF, 0xEF, 0xBE, 0xAD, 0xDE]);
    assert_eq!(get16(&b, 0, Endianness::Big), 0x1234);
    assert_eq!(get16(&b, 2, Endianness::Little), 0x1234);
    assert_eq!(get32(&b, 4, Endianness::Big), 0xDEAD_BEEF);
    assert_eq!(get32(&b, 8, Endianness::Little), 0xDEAD_BEEF);
}

#[test]
fn checksum_is_the_pinned_hash() {
    // hash folds h * 0x492 + byte in 32-bit arithmetic, then mod buckets.
    assert_eq!(checksum(&b"A".to_vec(), 2), 1); // 65 % 2
    assert_eq!(checksum(&b"B".to_vec(), 1), 0);
    // "AB": (65 * 0x492 + 66) = 76116; 76116 % 5 = 1
    assert_eq!(checksum(&b"AB".to_vec(), 5), 1);
    assert_eq!(checksum(&Vec::new(), 7), 0);
}

#[test]
fn keys_sort_ascending() {
    let sorted = sort_keys(&vec![9, 1, 5, 1, 3]);
    assert_eq!(sorted, vec![1, 1, 3, 5, 9]);
}

#[test]
fn utf8_checker() {
    assert!(check_utf8(&b"plain".to_vec()));
    assert!(check_utf8(&vec![0xC3, 0xA9])); // two-byte sequence
    assert!(check_utf8(&vec![0xE2, 0x82, 0xAC])); // three-byte sequence
    assert!(check_utf8(&vec![0xF0, 0x9F, 0x98, 0x80])); // four-byte sequence
    assert!(!check_utf8(&vec![0xFF]));
    assert!(!check_utf8(&vec![0xC3])); // truncated
    assert!(!check_utf8(&vec![0xED, 0xA0, 0x80])); // surrogate
}

fn encode_all(els: &[TextElement], enc: Encoding, e: Endianness) -> Vec<u8> {
    let mut out = Vec::new();
    for el in els {
        write_element(el, &mut out, enc, e);
    }
    out
}

#[test]
fn lexer_splits_directives_and_literals_utf16() {
    // "AB", then an opening directive with a 2-byte parameter block, then a
    // closing directive, all as UTF-16 little-endian code units.
    let bytes = vec![
        0x41, 0x00, 0x42, 0x00, // literal "AB"
        0x0E, 0x00, 0x01, 0x00, 0x02, 0x00, 0x02, 0x00, 0xAA, 0xBB, // directive
        0x0F, 0x00, 0x03, 0x00, 0x04, 0x00, // close
    ];
    let els = parse_elements(&bytes, 0, bytes.len(), Encoding::Utf16, Endianness::Little);
    assert_eq!(els.len(), 3);
    assert!(matches!(&els[0], TextElement::Literal(b) if *b == vec![0x41, 0x00, 0x42, 0x00]));
    assert!(matches!(
        &els[1],
        TextElement::Directive { group: 1, kind: 2, params } if *params == vec![0xAA, 0xBB]
    ));
    assert!(matches!(&els[2], TextElement::Close { group: 3, kind: 4 }));
    // Lossless: re-encoding reproduces the exact original bytes.
    assert_eq!(encode_all(&els, Encoding::Utf16, Endianness::Little), bytes);
}

#[test]
fn lexer_is_total_and_lossless_on_malformed_tails() {
    // A marker whose record does not fit falls back to literal text, and an
    // odd trailing byte stays in the literal run.
    let cases: Vec<Vec<u8>> = vec![
        vec![0x0E, 0x00, 0x01], // truncated directive
        vec![0x0F, 0x00], // truncated close
        vec![0x41, 0x00, 0x42], // odd tail
        vec![],
        vec![0x0E, 0x00, 0x01, 0x00, 0x02, 0x00, 0xFF, 0xFF, 0x00], // huge param length
    ];
    for bytes in cases {
        let els = parse_elements(&bytes, 0, bytes.len(), Encoding::Utf16, Endianness::Little);
        assert_eq!(encode_all(&els, Encoding::Utf16, Endianness::Little), bytes);
    }
}

#[test]
fn lexer_utf8_markers_are_single_bytes() {
    let bytes = vec![
        b'h', b'i', // literal
        0x0E, 0x00, 0x01, 0x00, 0x02, 0x00, 0x01, 0x7F, // directive, 1 param byte
        0x0F, 0x00, 0x05, 0x00, 0x06, // close
        b'!',
    ];
    let els = parse_elements(&bytes, 0, bytes.len(), Encoding::Utf8, Endianness::Big);
    assert_eq!(els.len(), 4);
    assert!(matches!(
        &els[1],
        TextElement::Directive { group: 1, kind: 2, params } if *params == vec![0x7F]
    ));
    assert_eq!(encode_all(&els, Encoding::Utf8, Endianness::Big), bytes);
}
