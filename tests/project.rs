use sound_tool::bnk::{Bnk, DidxEntry, Section, SectionPayload};
use sound_tool::names::{parse_wem_name, IdOrIndex};
use sound_tool::pck::{PckFileEntry, PckHeader};
use sound_tool::project::{
    assemble_bank, loose_table, pck_dump_plan, relayout_pck, split_bank, ProjectError,
    SoundToolProject, WemAsset,
};

fn bank_with_blobs() -> Bnk {
    Bnk {
        sections: vec![
            Section {
                magic: *b"BKHD",
                section_length: 8,
                payload: SectionPayload::Bkhd { version: 1, id: 2, unknown: vec![] },
            },
            Section::new(SectionPayload::Didx {
                entries: vec![
                    DidxEntry { id: 11, offset: 0, length: 2 },
                    DidxEntry { id: 22, offset: 2, length: 3 },
                ],
            }),
            Section::new(SectionPayload::Data { data_list: vec![vec![1, 2], vec![3, 4, 5]] }),
            Section {
                magic: *b"STID",
                section_length: 1,
                payload: SectionPayload::Unk { data: vec![0] },
            },
        ],
    }
}

fn assets_of(files: &[sound_tool::project::LooseFile]) -> Vec<WemAsset> {
    files
        .iter()
        .map(|f| {
            let (index, id) = parse_wem_name(&f.name).unwrap();
            WemAsset { index, id, data: f.data.clone() }
        })
        .collect()
}

#[test]
fn split_bank_names_blobs_and_keeps_other_sections() {
    let (files, manifest) = split_bank(bank_with_blobs()).unwrap();
    assert_eq!(files.len(), 2);
    assert_eq!(files[0].name, "[000]11.wem");
    assert_eq!(files[0].data, vec![1, 2]);
    assert_eq!(files[1].name, "[001]22.wem");
    assert_eq!(files[1].data, vec![3, 4, 5]);
    assert_eq!(manifest.sections.len(), 2);
    assert_eq!(&manifest.sections[0].magic, b"BKHD");
    assert_eq!(&manifest.sections[1].magic, b"STID");
}

#[test]
fn split_bank_needs_index_before_data() {
    let bank = Bnk {
        sections: vec![Section::new(SectionPayload::Data { data_list: vec![vec![1]] })],
    };
    assert_eq!(split_bank(bank).unwrap_err(), ProjectError::MissingDidx);
}

#[test]
fn assemble_bank_sorts_by_index_and_packs() {
    let skeleton = Bnk {
        sections: vec![Section {
            magic: *b"BKHD",
            section_length: 8,
            payload: SectionPayload::Bkhd { version: 1, id: 2, unknown: vec![] },
        }],
    };
    let assets = vec![
        WemAsset { index: 2, id: 30, data: vec![7; 4] },
        WemAsset { index: 0, id: 10, data: vec![5; 3] },
        WemAsset { index: 1, id: 20, data: vec![6; 1] },
    ];
    let bank = assemble_bank(skeleton, assets).unwrap();
    assert_eq!(bank.sections.len(), 3);
    match &bank.sections[1].payload {
        SectionPayload::Didx { entries } => {
            assert_eq!(
                entries,
                &vec![
                    DidxEntry { id: 10, offset: 0, length: 3 },
                    DidxEntry { id: 20, offset: 3, length: 1 },
                    DidxEntry { id: 30, offset: 4, length: 4 },
                ]
            );
        }
        other => panic!("unexpected {:?}", other),
    }
    assert_eq!(bank.sections[1].section_length, 36);
    assert_eq!(bank.sections[2].section_length, 8);
    match &bank.sections[2].payload {
        SectionPayload::Data { data_list } => {
            assert_eq!(data_list, &vec![vec![5; 3], vec![6; 1], vec![7; 4]]);
        }
        other => panic!("unexpected {:?}", other),
    }
}

#[test]
fn assemble_bank_needs_a_header_section() {
    let skeleton = Bnk { sections: vec![] };
    assert_eq!(assemble_bank(skeleton, vec![]).unwrap_err(), ProjectError::NoHeaderSection);
}

#[test]
fn unedited_bank_repack_reproduces_assets() {
    let bytes = bank_with_blobs().write_to().unwrap();
    let parsed = Bnk::from_reader(&bytes).unwrap();
    let (files, manifest) = split_bank(parsed).unwrap();
    let repacked = assemble_bank(manifest, assets_of(&files)).unwrap();
    let new_bytes = repacked.write_to().unwrap();
    let (files_again, manifest_again) = split_bank(Bnk::from_reader(&new_bytes).unwrap()).unwrap();
    assert_eq!(files_again.len(), files.len());
    for (a, b) in files.iter().zip(files_again.iter()) {
        assert_eq!(a.name, b.name);
        assert_eq!(a.data, b.data);
    }
    assert_eq!(manifest_again.sections.len(), 2);
}

#[test]
fn replaced_bank_asset_takes_new_bytes() {
    let (files, manifest) = split_bank(bank_with_blobs()).unwrap();
    let keys = vec![IdOrIndex::Index(1)];
    let mut assets = assets_of(&files);
    for a in assets.iter_mut() {
        if let Some((_, _)) = sound_tool::names::choose_replacement(&keys, a.index, a.id) {
            a.data = vec![9; 6];
        }
    }
    let bytes = assemble_bank(manifest, assets).unwrap().write_to().unwrap();
    let (again, _) = split_bank(Bnk::from_reader(&bytes).unwrap()).unwrap();
    assert_eq!(again[0].data, vec![1, 2]);
    assert_eq!(again[1].name, "[001]22.wem");
    assert_eq!(again[1].data, vec![9; 6]);
}

fn entry(id: u32, align: u32, length: u32, offset: u32) -> PckFileEntry {
    PckFileEntry { id, padding_block_size: align, length, offset, language_id: 0 }
}

fn package() -> PckHeader {
    PckHeader {
        header_length: 0,
        version: 1,
        string_table: vec![],
        bnk_entries: vec![],
        wem_entries: vec![entry(10, 16, 5, 0), entry(20, 16, 5, 16), entry(30, 1, 3, 32)],
        external_entries: vec![],
    }
}

#[test]
fn missing_loose_assets_are_dropped() {
    let stems = vec!["[000]10".to_string(), "[002]30".to_string()];
    let sizes = vec![7, 9];
    let table = loose_table(&stems, &sizes, &vec![], &vec![]).unwrap();
    let (h, dropped) = relayout_pck(package(), &table).unwrap();
    assert_eq!(dropped, vec![20]);
    assert_eq!(h.wem_entries.len(), 2);
    let start = h.get_data_offset_start().unwrap();
    assert_eq!(start, 8 + 20 + 4 + 4 + 44);
    // 80 is a multiple of 16; the next entry needs no alignment.
    assert_eq!(h.wem_entries[0], entry(10, 16, 7, 80));
    assert_eq!(h.wem_entries[1], entry(30, 1, 9, 87));
}

#[test]
fn package_offsets_round_up_to_alignment() {
    let stems = vec!["[000]10".to_string(), "[001]20".to_string(), "[002]30".to_string()];
    let sizes = vec![5, 5, 3];
    let table = loose_table(&stems, &sizes, &vec![], &vec![]).unwrap();
    let (h, dropped) = relayout_pck(package(), &table).unwrap();
    assert!(dropped.is_empty());
    let start = h.get_data_offset_start().unwrap();
    assert_eq!(start, 8 + 20 + 4 + 4 + 64);
    assert_eq!(h.wem_entries[0].offset, 112);
    assert_eq!(h.wem_entries[1].offset, 128);
    assert_eq!(h.wem_entries[2].offset, 133);
    let positions = h.calculate_file_positions().unwrap();
    assert_eq!(positions, vec![112, 128, 133]);
}

#[test]
fn replacement_sizes_are_used() {
    let stems = vec!["[000]10".to_string(), "[001]20".to_string(), "[002]30".to_string()];
    let sizes = vec![5, 5, 3];
    let keys = vec![IdOrIndex::Id(20), IdOrIndex::Index(1)];
    let key_sizes = vec![100, 50];
    let table = loose_table(&stems, &sizes, &keys, &key_sizes).unwrap();
    let (h, _) = relayout_pck(package(), &table).unwrap();
    assert_eq!(h.wem_entries[1].length, 50);
}

#[test]
fn bad_loose_names_fail_the_table() {
    let stems = vec!["[000]10".to_string(), "notes".to_string()];
    let sizes = vec![1, 1];
    assert_eq!(loose_table(&stems, &sizes, &vec![], &vec![]).unwrap_err(), ProjectError::BadWemName);
}

#[test]
fn package_dump_plan_names_and_locates_assets() {
    let h = package();
    let plan = pck_dump_plan(&h).unwrap();
    assert_eq!(plan.len(), 3);
    assert_eq!(plan[0].name, "[000]10.wem");
    assert_eq!(plan[2].name, "[002]30.wem");
    let start = h.get_data_offset_start().unwrap() as u64;
    assert_eq!(start, 100);
    assert_eq!(plan[0].reader.start_pos, 112);
    assert_eq!(plan[1].reader.start_pos, 128);
    assert_eq!(plan[2].reader.start_pos, 133);
    assert_eq!(plan[2].reader.length, 3);
}

#[test]
fn project_path_is_set() {
    let mut p = SoundToolProject::new_bnk("a.bnk".to_string(), String::new());
    p.set_project_path("dir/a.bnk.project".to_string());
    match p {
        SoundToolProject::Bnk(b) => {
            assert_eq!(b.metadata_file, "bank.json");
            assert_eq!(b.project_path, "dir/a.bnk.project");
            assert_eq!(b.source_file_name, "a.bnk");
        }
        SoundToolProject::Pck(_) => panic!("wrong kind"),
    }
}

#[test]
fn unedited_package_repack_reproduces_assets() {
    // A package whose audio data lies at its derived positions.
    let h = package();
    let mut bytes = h.write_to().unwrap();
    let assets: Vec<Vec<u8>> = vec![vec![1; 5], vec![2; 5], vec![3; 3]];
    let plan = pck_dump_plan(&h).unwrap();
    for (item, data) in plan.iter().zip(assets.iter()) {
        bytes.resize(item.reader.start_pos as usize, 0);
        bytes.extend_from_slice(data);
    }
    // Unpack.
    let parsed = PckHeader::from_reader(&bytes).unwrap();
    let files: Vec<(String, Vec<u8>)> = pck_dump_plan(&parsed)
        .unwrap()
        .into_iter()
        .map(|item| (item.name, item.reader.read_from(&bytes)))
        .collect();
    assert_eq!(files[1].1, vec![2; 5]);
    // Repack without replacements.
    let stems: Vec<String> = files.iter().map(|(n, _)| n.trim_end_matches(".wem").to_string()).collect();
    let sizes: Vec<u64> = files.iter().map(|(_, d)| d.len() as u64).collect();
    let table = loose_table(&stems, &sizes, &vec![], &vec![]).unwrap();
    let (header, dropped) = relayout_pck(parsed, &table).unwrap();
    assert!(dropped.is_empty());
    let mut out = header.write_to().unwrap();
    for (entry, (_, data)) in header.wem_entries.iter().zip(files.iter()) {
        out.resize(entry.offset as usize, 0);
        out.extend_from_slice(data);
    }
    // Unpack again.
    let again = PckHeader::from_reader(&out).unwrap();
    let files_again: Vec<(String, Vec<u8>)> = pck_dump_plan(&again)
        .unwrap()
        .into_iter()
        .map(|item| (item.name, item.reader.read_from(&out)))
        .collect();
    assert_eq!(files_again, files);
}
