use sound_tool::pck::{PckError, PckFileEntry, PckHeader, PckString};

fn entry(id: u32, align: u32, length: u32, offset: u32) -> PckFileEntry {
    PckFileEntry { id, padding_block_size: align, length, offset, language_id: 0 }
}

fn header(strings: Vec<(u32, &str)>, bnk: Vec<PckFileEntry>, wem: Vec<PckFileEntry>, ext: Vec<u32>) -> PckHeader {
    PckHeader {
        header_length: 0,
        version: 1,
        string_table: strings
            .into_iter()
            .map(|(index, v)| PckString { index, value: v.to_string() })
            .collect(),
        bnk_entries: bnk,
        wem_entries: wem,
        external_entries: ext,
    }
}

#[test]
fn alignment_derivation_places_entries_by_stored_offset() {
    // One one-letter string, no bank entries, two audio entries and two
    // trailing words put the data start at 100.
    let h = header(
        vec![(0, "a")],
        vec![],
        vec![entry(1, 16, 10, 500), entry(2, 1, 5, 200)],
        vec![0, 0],
    );
    assert_eq!(h.language_size(), Some(16));
    assert_eq!(h.header_size(), Some(92));
    assert_eq!(h.get_data_offset_start(), Some(100));
    let positions = h.calculate_file_positions().unwrap();
    assert_eq!(positions, vec![112, 100]);
    let r1 = h.wem_reader(0).unwrap();
    assert_eq!(r1.start_pos, 112);
    assert_eq!(r1.length, 10);
    assert_eq!(r1.start_pos + r1.length as u64, 122);
    let r2 = h.wem_reader(1).unwrap();
    assert_eq!(r2.start_pos, 100);
    assert!(h.wem_reader(2).is_none());
    assert!(h.bnk_reader(0).is_none());
}

#[test]
fn equal_offsets_keep_bank_entries_first() {
    let h = header(vec![], vec![entry(7, 0, 3, 0)], vec![entry(8, 4, 2, 0)], vec![]);
    let start = h.get_data_offset_start().unwrap() as u64;
    assert_eq!(start, 8 + 20 + 4 + 24 + 24);
    let positions = h.calculate_file_positions().unwrap();
    assert_eq!(positions[0], start);
    // 83 rounded up to a multiple of 4.
    assert_eq!(positions[1], 84);
    assert_eq!(h.bnk_reader(0).unwrap().start_pos, start);
}

#[test]
fn header_write_then_parse_gives_same_tables() {
    let h = header(
        vec![(3, "sfx"), (9, "日本")],
        vec![entry(1, 16, 4, 0)],
        vec![entry(2, 16, 8, 16), entry(3, 1, 2, 32)],
        vec![42],
    );
    let bytes = h.write_to().unwrap();
    assert_eq!(&bytes[0..4], b"AKPK");
    let header_size = h.header_size().unwrap();
    assert_eq!(u32::from_le_bytes(bytes[4..8].try_into().unwrap()), header_size);
    assert_eq!(bytes.len() as u32, header_size + 8);
    let back = PckHeader::from_reader(&bytes).unwrap();
    assert_eq!(back.version, 1);
    assert_eq!(back.header_length, header_size);
    assert_eq!(back.string_table.len(), 2);
    assert_eq!(back.string_table[0].index, 3);
    assert_eq!(back.string_table[0].value, "sfx");
    assert_eq!(back.string_table[1].value, "日本");
    assert_eq!(back.bnk_entries, h.bnk_entries);
    assert_eq!(back.wem_entries, h.wem_entries);
    assert_eq!(back.external_entries, vec![42]);
}

#[test]
fn language_size_counts_utf16_and_terminator() {
    let h = header(vec![(0, "sfx")], vec![], vec![], vec![7]);
    assert_eq!(h.language_size(), Some(20));
    assert_eq!(h.bnk_table_size(), Some(4));
    assert_eq!(h.wem_table_size(), Some(4));
    assert_eq!(h.external_entries_size(), Some(4));
    let bytes = h.write_to().unwrap();
    // count, one directory record, then "sfx" in UTF-16 and a zero unit.
    assert_eq!(&bytes[28..32], &1u32.to_le_bytes());
    assert_eq!(&bytes[32..36], &12u32.to_le_bytes());
    assert_eq!(&bytes[40..48], &[b's', 0, b'f', 0, b'x', 0, 0, 0]);
}

#[test]
fn reader_reads_entry_bytes() {
    let h = header(vec![], vec![], vec![entry(5, 1, 3, 0)], vec![]);
    let mut bytes = h.write_to().unwrap();
    bytes.extend([9, 8, 7, 6]);
    let parsed = PckHeader::from_reader(&bytes).unwrap();
    let rd = parsed.wem_reader(0).unwrap();
    assert_eq!(rd.read_from(&bytes), vec![9, 8, 7]);
    assert_eq!(rd.read_from(&bytes[..bytes.len() - 2]), vec![9, 8]);
}

#[test]
fn bad_magic_and_truncation() {
    assert_eq!(
        PckHeader::from_reader(b"RIFF0000000000000000000000000000").unwrap_err(),
        PckError::InvalidMagic(u32::from_le_bytes(*b"RIFF"))
    );
    assert_eq!(PckHeader::from_reader(b"AKPK").unwrap_err(), PckError::UnexpectedEof);
    assert_eq!(PckHeader::from_reader(b"AK").unwrap_err(), PckError::UnexpectedEof);
}

#[test]
fn unpaired_surrogate_is_invalid_string() {
    let h = header(vec![(0, "a")], vec![], vec![], vec![]);
    let mut bytes = h.write_to().unwrap();
    // Replace the unit of "a" with a lone high surrogate.
    bytes[40] = 0x00;
    bytes[41] = 0xD8;
    assert_eq!(PckHeader::from_reader(&bytes).unwrap_err(), PckError::InvalidString);
}
