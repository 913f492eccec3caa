use sound_tool::bnk::{Bnk, BnkError, DidxEntry, HircEntry, Section, SectionPayload};

fn le(v: u32) -> Vec<u8> {
    v.to_le_bytes().to_vec()
}

fn sample_bank() -> Bnk {
    let didx = vec![
        DidxEntry { id: 100, offset: 0, length: 3 },
        DidxEntry { id: 200, offset: 16, length: 2 },
    ];
    let hirc = vec![HircEntry { type_id: 2, length: 6, id: 77, data: vec![9, 8] }];
    Bnk {
        sections: vec![
            Section {
                magic: *b"BKHD",
                section_length: 12,
                payload: SectionPayload::Bkhd { version: 145, id: 5, unknown: vec![1, 2, 3, 4] },
            },
            Section {
                magic: *b"DIDX",
                section_length: 24,
                payload: SectionPayload::Didx { entries: didx },
            },
            Section {
                magic: *b"DATA",
                section_length: 18,
                payload: SectionPayload::Data { data_list: vec![vec![1, 2, 3], vec![4, 5]] },
            },
            Section {
                magic: *b"HIRC",
                section_length: 15,
                payload: SectionPayload::Hirc { entries: hirc },
            },
            Section {
                magic: *b"STID",
                section_length: 2,
                payload: SectionPayload::Unk { data: vec![7, 7] },
            },
        ],
    }
}

#[test]
fn bank_write_then_parse_gives_same_sections() {
    let bank = sample_bank();
    let bytes = bank.write_to().unwrap();
    let back = Bnk::from_reader(&bytes).unwrap();
    assert_eq!(back.sections.len(), 5);
    assert_eq!(&back.sections[0].magic, b"BKHD");
    match &back.sections[0].payload {
        SectionPayload::Bkhd { version, id, unknown } => {
            assert_eq!(*version, 145);
            assert_eq!(*id, 5);
            assert_eq!(unknown, &vec![1, 2, 3, 4]);
        }
        other => panic!("unexpected {:?}", other),
    }
    match &back.sections[1].payload {
        SectionPayload::Didx { entries } => {
            assert_eq!(entries.len(), 2);
            assert_eq!(entries[1], DidxEntry { id: 200, offset: 16, length: 2 });
        }
        other => panic!("unexpected {:?}", other),
    }
    match &back.sections[2].payload {
        SectionPayload::Data { data_list } => {
            assert_eq!(data_list, &vec![vec![1, 2, 3], vec![4, 5]]);
        }
        other => panic!("unexpected {:?}", other),
    }
    match &back.sections[3].payload {
        SectionPayload::Hirc { entries } => {
            assert_eq!(entries.len(), 1);
            assert_eq!(entries[0].type_id, 2);
            assert_eq!(entries[0].id, 77);
            assert_eq!(entries[0].data, vec![9, 8]);
        }
        other => panic!("unexpected {:?}", other),
    }
    match &back.sections[4].payload {
        SectionPayload::Unk { data } => assert_eq!(data, &vec![7, 7]),
        other => panic!("unexpected {:?}", other),
    }
    assert_eq!(back.write_to().unwrap(), bytes);
}

#[test]
fn data_blobs_are_written_at_their_offsets() {
    let bytes = sample_bank().write_to().unwrap();
    // BKHD: 8 + 12, DIDX: 8 + 24, DATA header at 52, body at 60.
    assert_eq!(&bytes[52..56], b"DATA");
    assert_eq!(&bytes[60..63], &[1, 2, 3]);
    assert_eq!(&bytes[63..76], &[0u8; 13]);
    assert_eq!(&bytes[76..78], &[4, 5]);
    // The next section starts after the declared length.
    assert_eq!(&bytes[78..82], b"HIRC");
}

#[test]
fn data_before_index_is_missing_index() {
    let mut input = b"DATA".to_vec();
    input.extend(le(4));
    input.extend([1, 2, 3, 4]);
    assert_eq!(Bnk::from_reader(&input).unwrap_err(), BnkError::MissingDidx);
    let bank = Bnk {
        sections: vec![Section {
            magic: *b"DATA",
            section_length: 1,
            payload: SectionPayload::Data { data_list: vec![vec![1]] },
        }],
    };
    assert_eq!(bank.write_to().unwrap_err(), BnkError::MissingDidx);
}

#[test]
fn short_tail_ends_the_stream() {
    let mut input = b"STID".to_vec();
    input.extend(le(1));
    input.push(9);
    input.extend([1, 2, 3]);
    let bank = Bnk::from_reader(&input).unwrap();
    assert_eq!(bank.sections.len(), 1);
    assert!(Bnk::from_reader(&[]).unwrap().sections.is_empty());
}

#[test]
fn truncated_sections_are_errors() {
    let mut input = b"BKHD".to_vec();
    input.extend(le(12));
    input.extend([0, 0, 0]);
    assert_eq!(Bnk::from_reader(&input).unwrap_err(), BnkError::UnexpectedEof);
    let mut short = b"BKHD".to_vec();
    short.extend(le(4));
    short.extend([0, 0, 0, 0]);
    assert_eq!(Bnk::from_reader(&short).unwrap_err(), BnkError::BadLength);
    let mut hirc = b"HIRC".to_vec();
    hirc.extend(le(13));
    hirc.extend(le(1));
    hirc.push(1);
    hirc.extend(le(3));
    hirc.extend(le(5));
    assert_eq!(Bnk::from_reader(&hirc).unwrap_err(), BnkError::BadLength);
}

#[test]
fn data_outside_input_is_eof() {
    let mut input = b"DIDX".to_vec();
    input.extend(le(12));
    input.extend(le(1));
    input.extend(le(0));
    input.extend(le(10));
    input.extend(b"DATA");
    input.extend(le(10));
    input.extend([1, 2, 3]);
    assert_eq!(Bnk::from_reader(&input).unwrap_err(), BnkError::UnexpectedEof);
}

#[test]
fn more_blobs_than_entries_is_rejected() {
    let bank = Bnk {
        sections: vec![
            Section::new(SectionPayload::Didx { entries: vec![DidxEntry { id: 1, offset: 0, length: 1 }] }),
            Section::new(SectionPayload::Data { data_list: vec![vec![1], vec![2]] }),
        ],
    };
    assert_eq!(bank.write_to().unwrap_err(), BnkError::EntryCountMismatch);
}

#[test]
fn section_new_frames_index_and_data() {
    let didx = Section::new(SectionPayload::Didx {
        entries: vec![DidxEntry { id: 1, offset: 0, length: 4 }, DidxEntry { id: 2, offset: 4, length: 6 }],
    });
    assert_eq!(&didx.magic, b"DIDX");
    assert_eq!(didx.section_length, 24);
    let data = Section::new(SectionPayload::Data { data_list: vec![vec![0; 4], vec![0; 6], vec![]] });
    assert_eq!(&data.magic, b"DATA");
    assert_eq!(data.section_length, 10);
}
