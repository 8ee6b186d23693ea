//! Whole-container scenarios: parsing, serialization, round trips, and the
//! derived-field refresh.

use msbt::{Error, Msbt};
use msbt::{Encoding, Endianness};

fn header_le(encoding: u8, section_count: u16, file_size: u32) -> Vec<u8> {
    let mut b = Vec::new();
    b.extend_from_slice(b"MsgStdBn");
    b.extend_from_slice(&[0xFF, 0xFE]);
    b.extend_from_slice(&0u16.to_le_bytes());
    b.push(encoding);
    b.push(0);
    b.extend_from_slice(&section_count.to_le_bytes());
    b.extend_from_slice(&0u16.to_le_bytes());
    b.extend_from_slice(&file_size.to_le_bytes());
    b.extend_from_slice(&[0u8; 10]);
    b
}

#[test]
fn scenario_big_endian_empty_container() {
    // Big-endian BOM, UTF-16 selector, zero sections.
    let mut b = Vec::new();
    b.extend_from_slice(b"MsgStdBn");
    b.extend_from_slice(&[0xFE, 0xFF]);
    b.extend_from_slice(&0u16.to_be_bytes());
    b.push(0x01);
    b.push(0);
    b.extend_from_slice(&0u16.to_be_bytes());
    b.extend_from_slice(&0u16.to_be_bytes());
    b.extend_from_slice(&32u32.to_be_bytes());
    b.extend_from_slice(&[0u8; 10]);
    let m = Msbt::from_bytes(b.clone()).unwrap();
    assert_eq!(m.header().section_count(), 0);
    assert_eq!(m.header().encoding(), Encoding::Utf16);
    assert_eq!(m.header().endianness(), Endianness::Big);
    assert!(m.section_order().is_empty());
    assert_eq!(m.calc_size(), 32);
    // File size is the header size only, and the round trip is byte-exact.
    assert_eq!(m.write_to(), b);
}

#[test]
fn scenario_unknown_tag_is_fatal() {
    let mut b = header_le(0x00, 1, 0);
    b.extend_from_slice(b"XYZ1");
    b.extend_from_slice(&[0u8; 12]);
    let r = Msbt::from_bytes(b);
    assert_eq!(r.unwrap_err(), Error::InvalidSection(b'X', b'Y', b'Z', b'1'));
}

fn label_file_le() -> Vec<u8> {
    // One LBL1 with one bucket holding "B" (index 0) and "A" (index 1).
    let mut b = header_le(0x00, 1, 80);
    b.extend_from_slice(b"LBL1");
    b.extend_from_slice(&24u32.to_le_bytes());
    b.extend_from_slice(&[0u8; 8]);
    b.extend_from_slice(&1u32.to_le_bytes()); // bucket count
    b.extend_from_slice(&2u32.to_le_bytes()); // bucket label count
    b.extend_from_slice(&12u32.to_le_bytes()); // bucket offset
    b.push(1);
    b.push(b'B');
    b.extend_from_slice(&0u32.to_le_bytes());
    b.push(1);
    b.push(b'A');
    b.extend_from_slice(&1u32.to_le_bytes());
    // 32 + 16 + 24 = 72; pad to 80
    b.extend_from_slice(&[0u8; 8]);
    b
}

#[test]
fn scenario_label_table_checksum_sorted_emission() {
    let m = Msbt::from_bytes(label_file_le()).unwrap();
    let l = m.lbl1().unwrap();
    assert_eq!(l.labels().len(), 2);
    assert_eq!(l.labels()[0].name, b"B".to_vec());
    assert_eq!(l.labels()[1].name, b"A".to_vec());
    // Sum of bucket counts equals the number of labels.
    let total: u64 = l.groups().iter().map(|g| g.label_count as u64).sum();
    assert_eq!(total, 2);
    let out = m.write_to();
    // Both labels hash to the single bucket; ties break by index, so the
    // emission order is (len=1, 'B', index 0), then (len=1, 'A', index 1),
    // and the bucket list is re-emitted unchanged with its count of 2.
    let payload = &out[48..72];
    assert_eq!(&payload[0..4], &1u32.to_le_bytes());
    assert_eq!(&payload[4..8], &2u32.to_le_bytes());
    assert_eq!(&payload[8..12], &12u32.to_le_bytes());
    assert_eq!(payload[12], 1);
    assert_eq!(payload[13], b'B');
    assert_eq!(&payload[14..18], &0u32.to_le_bytes());
    assert_eq!(payload[18], 1);
    assert_eq!(payload[19], b'A');
    assert_eq!(&payload[20..24], &1u32.to_le_bytes());
    // Unmodified round trip is byte-identical.
    assert_eq!(out, label_file_le());
}

#[test]
fn scenario_string_table_two_empty_entries() {
    // TXT2 with two empty entries: offsets are both the baseline 12 and the
    // payload is exactly the baseline.
    let mut b = header_le(0x00, 1, 64);
    b.extend_from_slice(b"TXT2");
    b.extend_from_slice(&12u32.to_le_bytes());
    b.extend_from_slice(&[0u8; 8]);
    b.extend_from_slice(&2u32.to_le_bytes());
    b.extend_from_slice(&12u32.to_le_bytes());
    b.extend_from_slice(&12u32.to_le_bytes());
    // 32 + 16 + 12 = 60; pad to 64
    b.extend_from_slice(&[0u8; 4]);
    let m = Msbt::from_bytes(b.clone()).unwrap();
    let t = m.txt2().unwrap();
    assert_eq!(t.values().len(), 2);
    assert!(t.values()[0].is_empty());
    assert!(t.values()[1].is_empty());
    let out = m.write_to();
    assert_eq!(&out[48..52], &2u32.to_le_bytes());
    assert_eq!(&out[52..56], &12u32.to_le_bytes());
    assert_eq!(&out[56..60], &12u32.to_le_bytes());
    assert_eq!(out, b);
}

#[test]
fn global_ids_reordered_ascending_on_write() {
    // File order (index, id): (5, 300), then (7, 100). The in-memory table
    // orders by id, so the write emits (7, 100) first.
    let mut b = header_le(0x00, 1, 0);
    b.extend_from_slice(b"NLI1");
    b.extend_from_slice(&20u32.to_le_bytes());
    b.extend_from_slice(&[0u8; 8]);
    b.extend_from_slice(&2u32.to_le_bytes());
    b.extend_from_slice(&5u32.to_le_bytes());
    b.extend_from_slice(&300u32.to_le_bytes());
    b.extend_from_slice(&7u32.to_le_bytes());
    b.extend_from_slice(&100u32.to_le_bytes());
    // 32 + 16 + 20 = 68; pad to 80
    b.extend_from_slice(&[0u8; 12]);
    let m = Msbt::from_bytes(b).unwrap();
    let n = m.nli1().unwrap();
    assert_eq!(n.global_ids().as_slice(), &[(100, 7), (300, 5)]);
    let out = m.write_to();
    let payload = &out[48..68];
    assert_eq!(&payload[0..4], &2u32.to_le_bytes());
    assert_eq!(&payload[4..8], &7u32.to_le_bytes());
    assert_eq!(&payload[8..12], &100u32.to_le_bytes());
    assert_eq!(&payload[12..16], &5u32.to_le_bytes());
    assert_eq!(&payload[16..20], &300u32.to_le_bytes());
}

#[test]
fn alignment_and_pad_byte() {
    // A section whose payload ends unaligned is padded to the next 16-byte
    // file offset with the container's pad byte.
    let mut b = header_le(0x00, 1, 64);
    b.extend_from_slice(b"ATO1");
    b.extend_from_slice(&3u32.to_le_bytes());
    b.extend_from_slice(&[0u8; 8]);
    b.extend_from_slice(&[9, 8, 7]);
    b.extend_from_slice(&[0xAB; 13]);
    let m = Msbt::from_bytes(b.clone()).unwrap();
    assert_eq!(m.pad_byte, 0xAB);
    let out = m.write_to();
    assert_eq!(out.len() % 16, 0);
    assert_eq!(&out[51..64], &[0xAB; 13][..]);
    assert_eq!(out, b);
}

#[test]
fn derived_fields_refresh_after_mutation() {
    // Rename a label, then release through update: the label section's size
    // and the header's section count are recomputed from content.
    let mut m = Msbt::from_bytes(label_file_le()).unwrap();
    if let Some(l) = m.lbl1.as_mut() {
        l.labels[0].name = b"LONGER".to_vec();
    }
    m.update();
    let l = m.lbl1().unwrap();
    // payload: 4 + 8 + (5 + 6) + (5 + 1) = 29
    assert_eq!(l.section.size, 29);
    assert_eq!(m.header().section_count() as usize, m.section_order().len());
    // The refreshed container re-parses to the same content.
    let out = m.write_to();
    let m2 = Msbt::from_bytes(out).unwrap();
    assert_eq!(m2.lbl1().unwrap().labels()[0].name, b"LONGER".to_vec());
    assert_eq!(m2.lbl1().unwrap().labels()[1].name, b"A".to_vec());
}

#[test]
fn bucket_boundaries_regenerated_on_update() {
    // Two buckets: "B" (66) hashes to bucket 0, "A" (65) to bucket 1.
    // Renaming "A" to "D" (68) moves it to bucket 0; update regenerates
    // the bucket counts while keeping the stored metadata offsets.
    let mut b = header_le(0x00, 1, 0);
    b.extend_from_slice(b"LBL1");
    b.extend_from_slice(&32u32.to_le_bytes());
    b.extend_from_slice(&[0u8; 8]);
    b.extend_from_slice(&2u32.to_le_bytes());
    b.extend_from_slice(&1u32.to_le_bytes());
    b.extend_from_slice(&20u32.to_le_bytes());
    b.extend_from_slice(&1u32.to_le_bytes());
    b.extend_from_slice(&26u32.to_le_bytes());
    b.push(1);
    b.push(b'B');
    b.extend_from_slice(&0u32.to_le_bytes());
    b.push(1);
    b.push(b'A');
    b.extend_from_slice(&1u32.to_le_bytes());
    let mut m = Msbt::from_bytes(b).unwrap();
    if let Some(l) = m.lbl1.as_mut() {
        l.labels[1].name = b"D".to_vec();
    }
    m.update();
    let l = m.lbl1().unwrap();
    assert_eq!(l.groups()[0].label_count, 2);
    assert_eq!(l.groups()[1].label_count, 0);
    assert_eq!(l.groups()[0].offset, 20);
    assert_eq!(l.groups()[1].offset, 26);
}

#[test]
fn reparse_fixpoint_on_built_container() {
    let m = Msbt::from_bytes(label_file_le()).unwrap();
    let once = m.write_to();
    let m2 = Msbt::from_bytes(once.clone()).unwrap();
    let twice = m2.write_to();
    assert_eq!(once, twice);
    assert_eq!(m2.section_order().as_slice(), m.section_order().as_slice());
    assert_eq!(m2.header().endianness(), m.header().endianness());
    assert_eq!(m2.header().encoding(), m.header().encoding());
}

#[test]
fn scoped_rename_bundles_edit_and_refresh() {
    let mut m = Msbt::from_bytes(label_file_le()).unwrap();
    assert!(m.set_label_name(0, b"LONGER".to_vec()));
    let l = m.lbl1().unwrap();
    assert_eq!(l.labels()[0].name, b"LONGER".to_vec());
    // payload: 4 + 8 + (5 + 6) + (5 + 1) = 29, refreshed in the same call
    assert_eq!(l.section.size, 29);
    assert_eq!(m.header().section_count() as usize, m.section_order().len());
    // Out-of-range index and oversized names are refused without any change.
    assert!(!m.set_label_name(9, b"X".to_vec()));
    assert!(!m.set_label_name(0, vec![b'x'; 300]));
    assert_eq!(m.lbl1().unwrap().labels()[0].name, b"LONGER".to_vec());
}

#[test]
fn structural_check_guards_serialization() {
    let mut m = Msbt::from_bytes(label_file_le()).unwrap();
    assert!(m.check_wf());
    // A tag left in the order list without its section is inconsistent.
    m.lbl1 = None;
    assert!(!m.check_wf());
}

#[test]
fn structural_check_rejects_oversized_label_name() {
    let mut m = Msbt::from_bytes(label_file_le()).unwrap();
    if let Some(l) = m.lbl1.as_mut() {
        l.labels[0].name = vec![b'x'; 300];
    }
    assert!(!m.check_wf());
}

#[test]
fn error_truncated_input() {
    assert_eq!(Msbt::from_bytes(b"MsgStd".to_vec()).unwrap_err(), Error::Eof);
}

#[test]
fn error_bad_magic() {
    let mut b = header_le(0x00, 0, 32);
    b[0] = b'X';
    assert_eq!(Msbt::from_bytes(b).unwrap_err(), Error::InvalidMagic);
}

#[test]
fn error_bad_bom() {
    let mut b = header_le(0x00, 0, 32);
    b[8] = 0x00;
    b[9] = 0x00;
    assert_eq!(Msbt::from_bytes(b).unwrap_err(), Error::InvalidBom);
}

#[test]
fn error_bad_encoding() {
    let mut b = header_le(0x00, 0, 32);
    b[12] = 0x7F;
    assert_eq!(Msbt::from_bytes(b).unwrap_err(), Error::InvalidEncoding(0x7F));
}

#[test]
fn error_label_index_out_of_range() {
    let mut b = header_le(0x00, 1, 0);
    b.extend_from_slice(b"LBL1");
    b.extend_from_slice(&18u32.to_le_bytes());
    b.extend_from_slice(&[0u8; 8]);
    b.extend_from_slice(&1u32.to_le_bytes());
    b.extend_from_slice(&1u32.to_le_bytes());
    b.extend_from_slice(&12u32.to_le_bytes());
    b.push(1);
    b.push(b'A');
    b.extend_from_slice(&9u32.to_le_bytes()); // only one label: index 9 bad
    assert_eq!(Msbt::from_bytes(b).unwrap_err(), Error::InvalidLabelIndex);
}

#[test]
fn error_label_index_duplicated() {
    let mut b = header_le(0x00, 1, 0);
    b.extend_from_slice(b"LBL1");
    b.extend_from_slice(&24u32.to_le_bytes());
    b.extend_from_slice(&[0u8; 8]);
    b.extend_from_slice(&1u32.to_le_bytes());
    b.extend_from_slice(&2u32.to_le_bytes());
    b.extend_from_slice(&12u32.to_le_bytes());
    for _ in 0..2 {
        b.push(1);
        b.push(b'A');
        b.extend_from_slice(&0u32.to_le_bytes());
    }
    assert_eq!(Msbt::from_bytes(b).unwrap_err(), Error::InvalidLabelIndex);
}

#[test]
fn error_label_name_not_utf8() {
    let mut b = header_le(0x00, 1, 0);
    b.extend_from_slice(b"LBL1");
    b.extend_from_slice(&18u32.to_le_bytes());
    b.extend_from_slice(&[0u8; 8]);
    b.extend_from_slice(&1u32.to_le_bytes());
    b.extend_from_slice(&1u32.to_le_bytes());
    b.extend_from_slice(&12u32.to_le_bytes());
    b.push(1);
    b.push(0xFF);
    b.extend_from_slice(&0u32.to_le_bytes());
    assert_eq!(Msbt::from_bytes(b).unwrap_err(), Error::InvalidUtf8);
}

#[test]
fn error_string_offsets_decreasing() {
    let mut b = header_le(0x00, 1, 0);
    b.extend_from_slice(b"TXT2");
    b.extend_from_slice(&12u32.to_le_bytes());
    b.extend_from_slice(&[0u8; 8]);
    b.extend_from_slice(&2u32.to_le_bytes());
    b.extend_from_slice(&14u32.to_le_bytes());
    b.extend_from_slice(&12u32.to_le_bytes()); // decreasing
    assert_eq!(Msbt::from_bytes(b).unwrap_err(), Error::InvalidStringOffsets);
}

#[test]
fn error_oversized_id_count() {
    let mut b = header_le(0x00, 1, 0);
    b.extend_from_slice(b"NLI1");
    b.extend_from_slice(&4u32.to_le_bytes());
    b.extend_from_slice(&[0u8; 8]);
    b.extend_from_slice(&0xFFFF_FFFFu32.to_le_bytes());
    assert_eq!(Msbt::from_bytes(b).unwrap_err(), Error::TooLarge);
}

#[test]
fn trailing_short_garbage_is_tolerated() {
    // Fewer than 4 bytes after the last section end the parse quietly.
    let mut b = header_le(0x00, 0, 32);
    b.extend_from_slice(&[1, 2]);
    let m = Msbt::from_bytes(b).unwrap();
    assert!(m.section_order().is_empty());
}
