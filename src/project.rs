//! Unpacking containers into loose assets and a manifest, and assembling
//! them back with recomputed offsets.
use vstd::prelude::*;
use vstd::string::StringExecFns;

use crate::bnk::{
    bank_bytes, last_didx, parse_bank, tag_data, tag_didx, total_len, views, Bnk, DidxEntry,
    PayloadView, Section, SectionPayload, SectionView,
};
use crate::bnk_roundtrip::{bank_consistent, blobs_fit, lemma_bank_round_trip, section_consistent};
use crate::names::{
    choose_replacement, lemma_wem_name_round_trip, parse_wem_name, replacement_for, trimmed,
    wem_file_name, wem_file_name_of, wem_name_fields, IdOrIndex,
};
use crate::order::{is_key_order, key_before, key_order};
use crate::pck::{
    align_up, data_start_of, derived_positions, header_fits, layout_overflows, PckFileEntry,
    PckFileReader, PckHeader, PckView,
};
use indexmap::IndexMap;
use vstd::utf8::encode_utf8;

verus! {

/// Errors of unpacking and repacking.
#[derive(Debug, Clone, Copy, PartialEq, Eq, Structural)]
pub enum ProjectError {
    /// A loose asset's name does not follow the naming convention.
    BadWemName,
    /// A DATA section came before any DIDX section.
    MissingDidx,
    /// The bank manifest has no header section to insert the index after.
    NoHeaderSection,
    /// An offset or a length would not fit its `u32` field.
    TooLarge,
}

/// One loose audio asset: its order index, its id and its bytes.
#[derive(Debug, Clone)]
pub struct WemAsset {
    pub index: u32,
    pub id: u32,
    pub data: Vec<u8>,
}

pub struct WemAssetView {
    pub index: u32,
    pub id: u32,
    pub data: Seq<u8>,
}

impl View for WemAsset {
    type V = WemAssetView;

    open spec fn view(&self) -> WemAssetView {
        WemAssetView { index: self.index, id: self.id, data: self.data@ }
    }
}

/// A file to write when unpacking: its name and its bytes.
#[derive(Debug, Clone)]
pub struct LooseFile {
    pub name: String,
    pub data: Vec<u8>,
}

pub open spec fn asset_views(assets: Seq<WemAsset>) -> Seq<WemAssetView> {
    assets.map_values(|a: WemAsset| a@)
}

pub open spec fn asset_indices(assets: Seq<WemAssetView>) -> Seq<u32> {
    assets.map_values(|a: WemAssetView| a.index)
}

/// The assets' bytes in `order`.
pub open spec fn ordered_blobs(assets: Seq<WemAssetView>, order: Seq<usize>) -> Seq<Seq<u8>> {
    Seq::new(order.len(), |k: int| assets[order[k] as int].data)
}

/// A tightly packed index over the assets in `order`: each offset is the sum
/// of the lengths before it.
pub open spec fn packed_index(assets: Seq<WemAssetView>, order: Seq<usize>) -> Seq<DidxEntry> {
    Seq::new(
        order.len(),
        |k: int|
            DidxEntry {
                id: assets[order[k] as int].id,
                offset: total_len(ordered_blobs(assets, order).take(k)) as u32,
                length: assets[order[k] as int].data.len() as u32,
            },
    )
}

/// The manifest's sections with the packed index and the data inserted right
/// after the first section.
pub open spec fn repacked_sections(
    skeleton: Seq<SectionView>,
    assets: Seq<WemAssetView>,
    order: Seq<usize>,
) -> Seq<SectionView> {
    skeleton.insert(
        1,
        SectionView {
            magic: tag_didx(),
            section_length: (12 * order.len()) as u32,
            payload: PayloadView::Didx { entries: packed_index(assets, order) },
        },
    ).insert(
        2,
        SectionView {
            magic: tag_data(),
            section_length: total_len(ordered_blobs(assets, order)) as u32,
            payload: PayloadView::Data { data_list: ordered_blobs(assets, order) },
        },
    )
}

/// Whether the packed index over the assets in `order` fits its fields.
pub open spec fn packing_fits(assets: Seq<WemAssetView>, order: Seq<usize>) -> bool {
    12 * order.len() <= u32::MAX && total_len(ordered_blobs(assets, order)) <= u32::MAX
}

proof fn lemma_total_len_take(blobs: Seq<Seq<u8>>, k: int)
    requires
        0 <= k < blobs.len(),
    ensures
        total_len(blobs.take(k + 1)) == total_len(blobs.take(k)) + blobs[k].len(),
        0 <= total_len(blobs.take(k)),
{
    assert(blobs.take(k + 1).drop_last() =~= blobs.take(k));
    lemma_total_len_nonneg(blobs.take(k));
}

proof fn lemma_total_len_nonneg(blobs: Seq<Seq<u8>>)
    ensures
        0 <= total_len(blobs),
    decreases blobs.len(),
{
    if blobs.len() > 0 {
        lemma_total_len_nonneg(blobs.drop_last());
    }
}

proof fn lemma_total_len_monotone(blobs: Seq<Seq<u8>>, k: int)
    requires
        0 <= k <= blobs.len(),
    ensures
        total_len(blobs.take(k)) <= total_len(blobs),
    decreases blobs.len() - k,
{
    if k < blobs.len() {
        lemma_total_len_take(blobs, k);
        lemma_total_len_monotone(blobs, k + 1);
    } else {
        assert(blobs.take(k) =~= blobs);
    }
}

/// Assembles a bank from its manifest and its loose assets: the assets are
/// sorted by order index (stably), packed without gaps, and the index and data
/// sections go right after the header section.
pub fn assemble_bank(skeleton: Bnk, assets: Vec<WemAsset>) -> (r: Result<Bnk, ProjectError>)
    ensures
        ({
            let av = asset_views(assets@);
            match r {
                Ok(b) => skeleton@.len() >= 1 && exists|order: Seq<usize>|
                    is_key_order(asset_indices(av), order) && packing_fits(av, order) && b@
                        == repacked_sections(skeleton@, av, order),
                Err(e) => (e == ProjectError::NoHeaderSection && skeleton@.len() == 0) || (e
                    == ProjectError::TooLarge && exists|order: Seq<usize>|
                    is_key_order(asset_indices(av), order) && !packing_fits(av, order)),
            }
        }),
{
    let ghost av = asset_views(assets@);
    if skeleton.sections.len() == 0 {
        return Err(ProjectError::NoHeaderSection);
    }
    let mut indices: Vec<u32> = Vec::new();
    let mut i: usize = 0;
    while i < assets.len()
        invariant
            av == asset_views(assets@),
            i <= assets@.len(),
            indices@ == asset_indices(av).take(i as int),
        decreases assets@.len() - i,
    {
        indices.push(assets[i].index);
        i = i + 1;
        assert(indices@ =~= asset_indices(av).take(i as int));
    }
    assert(indices@ =~= asset_indices(av));
    let order = key_order(&indices);
    let ghost blobs = ordered_blobs(av, order@);
    let n = order.len();
    if n as u64 > u32::MAX as u64 / 12 {
        assert(!packing_fits(av, order@));
        return Err(ProjectError::TooLarge);
    }
    let mut entries: Vec<DidxEntry> = Vec::new();
    let mut data_list: Vec<Vec<u8>> = Vec::new();
    let mut offset: u64 = 0;
    let mut k: usize = 0;
    while k < n
        invariant
            av == asset_views(assets@),
            is_key_order(asset_indices(av), order@),
            blobs == ordered_blobs(av, order@),
            n == order@.len(),
            12 * n <= u32::MAX,
            k <= n,
            offset == total_len(blobs.take(k as int)),
            offset <= u32::MAX,
            entries@ == packed_index(av, order@).take(k as int),
            data_list@.map_values(|d: Vec<u8>| d@) == blobs.take(k as int),
        decreases n - k,
    {
        let a = &assets[order[k]];
        assert(av[order@[k as int] as int] == assets@[order@[k as int] as int]@);
        proof {
            lemma_total_len_take(blobs, k as int);
        }
        if a.data.len() as u64 > u32::MAX as u64 - offset {
            proof {
                lemma_total_len_monotone(blobs, k + 1);
            }
            assert(is_key_order(asset_indices(av), order@) && !packing_fits(av, order@));
            return Err(ProjectError::TooLarge);
        }
        entries.push(DidxEntry { id: a.id, offset: offset as u32, length: a.data.len() as u32 });
        let blob = a.data.clone();
        assert(blob@ =~= a.data@);
        let ghost before = data_list@;
        data_list.push(blob);
        assert(data_list@.map_values(|d: Vec<u8>| d@) =~= blobs.take(k + 1)) by {
            assert(before.map_values(|d: Vec<u8>| d@) =~= blobs.take(k as int));
        }
        offset = offset + a.data.len() as u64;
        k = k + 1;
        assert(entries@ =~= packed_index(av, order@).take(k as int));
    }
    assert(blobs.take(n as int) =~= blobs);
    assert(entries@ =~= packed_index(av, order@));
    let didx = Section::new(SectionPayload::Didx { entries });
    let data = Section::new(SectionPayload::Data { data_list });
    let mut sections = skeleton.sections;
    let ghost sk = views(sections@);
    sections.insert(1, didx);
    sections.insert(2, data);
    let b = Bnk { sections };
    assert(b@ =~= repacked_sections(sk, av, order@));
    assert(is_key_order(asset_indices(av), order@) && packing_fits(av, order@) && b@
        == repacked_sections(sk, av, order@));
    Ok(b)
}

/// The loose files that one section gives, given the sections before it: a
/// DATA section gives one file per blob that the last index names, and needs
/// an index before it.
pub open spec fn section_files(prior: Seq<SectionView>, s: SectionView) -> Option<
    Seq<(Seq<char>, Seq<u8>)>,
> {
    match s.payload {
        PayloadView::Data { data_list } => match last_didx(prior) {
            None => None,
            Some(es) => Some(
                Seq::new(
                    if data_list.len() < es.len() { data_list.len() } else { es.len() },
                    |j: int| (wem_file_name_of(j as nat, es[j].id as nat, es.len()), data_list[j]),
                ),
            ),
        },
        _ => Some(Seq::empty()),
    }
}

/// The loose files of a bank, section after section.
pub open spec fn dump_files(secs: Seq<SectionView>) -> Option<Seq<(Seq<char>, Seq<u8>)>>
    decreases secs.len(),
{
    if secs.len() == 0 {
        Some(Seq::empty())
    } else {
        match dump_files(secs.drop_last()) {
            None => None,
            Some(f) => match section_files(secs.drop_last(), secs.last()) {
                None => None,
                Some(g) => Some(f + g),
            },
        }
    }
}

pub open spec fn holds_blobs(s: SectionView) -> bool {
    s.payload is Didx || s.payload is Data
}

/// The sections of a bank without its index and data sections.
pub open spec fn manifest_of(secs: Seq<SectionView>) -> Seq<SectionView>
    decreases secs.len(),
{
    if secs.len() == 0 {
        Seq::empty()
    } else if holds_blobs(secs.last()) {
        manifest_of(secs.drop_last())
    } else {
        manifest_of(secs.drop_last()).push(secs.last())
    }
}

pub open spec fn file_views(files: Seq<LooseFile>) -> Seq<(Seq<char>, Seq<u8>)> {
    files.map_values(|f: LooseFile| (f.name@, f.data@))
}

proof fn lemma_dump_error_persists(secs: Seq<SectionView>, k: int)
    requires
        0 <= k <= secs.len(),
        dump_files(secs.take(k)) is None,
    ensures
        dump_files(secs) is None,
    decreases secs.len() - k,
{
    if k < secs.len() {
        assert(secs.take(k + 1).drop_last() =~= secs.take(k));
        lemma_dump_error_persists(secs, k + 1);
    } else {
        assert(secs.take(k) =~= secs);
    }
}

/// Splits a bank into its loose files, named by order index and id, and the
/// manifest that remains without the index and data sections.
pub fn split_bank(bank: Bnk) -> (r: Result<(Vec<LooseFile>, Bnk), ProjectError>)
    ensures
        match r {
            Ok((files, manifest)) => dump_files(bank@) == Some(file_views(files@)) && manifest@
                == manifest_of(bank@),
            Err(e) => e == ProjectError::MissingDidx && dump_files(bank@) is None,
        },
{
    let ghost all = bank@;
    let mut rest = bank.sections;
    let mut files: Vec<LooseFile> = Vec::new();
    let mut kept: Vec<Section> = Vec::new();
    let mut didx: Option<Vec<DidxEntry>> = None;
    let ghost mut i: int = 0;
    assert(all.take(0) =~= Seq::<SectionView>::empty());
    assert(views(kept@) =~= Seq::<SectionView>::empty());
    assert(file_views(files@) =~= Seq::<(Seq<char>, Seq<u8>)>::empty());
    while rest.len() > 0
        invariant
            all == bank@,
            0 <= i <= all.len(),
            rest@.len() + i == all.len(),
            forall|k: int| 0 <= k < rest@.len() ==> #[trigger] rest@[k]@ == all[i + k],
            dump_files(all.take(i as int)) == Some(file_views(files@)),
            views(kept@) == manifest_of(all.take(i as int)),
            match didx {
                None => last_didx(all.take(i as int)) is None,
                Some(es) => last_didx(all.take(i as int)) == Some(es@),
            },
        decreases rest@.len(),
    {
        let ghost prior = all.take(i as int);
        let ghost old_rest = rest@;
        assert(old_rest[0]@ == all[i + 0]);
        let s = rest.remove(0);
        assert forall|k: int| 0 <= k < rest@.len() implies #[trigger] rest@[k]@ == all[(i + 1) + k] by {
            assert(old_rest[k + 1]@ == all[i + (k + 1)]);
        }
        assert(all.take(i + 1).drop_last() =~= prior);
        assert(all.take(i + 1).last() == s@);
        let ghost sv = s@;
        let Section { magic, section_length, payload } = s;
        match payload {
            SectionPayload::Didx { entries } => {
                didx = Some(entries);
                assert(file_views(files@) + Seq::<(Seq<char>, Seq<u8>)>::empty() =~= file_views(files@));
            },
            SectionPayload::Data { data_list } => {
                assert(sv.payload == PayloadView::Data { data_list: data_list@.map_values(|d: Vec<u8>| d@) });
                let es = match &didx {
                    Some(es) => es,
                    None => {
                        assert(section_files(prior, sv) is None);
                        assert(dump_files(all.take(i + 1)) is None);
                        proof {
                            lemma_dump_error_persists(all, i + 1);
                        }
                        return Err(ProjectError::MissingDidx);
                    },
                };
                let ghost dl = data_list@.map_values(|d: Vec<u8>| d@);
                let count = if data_list.len() < es.len() { data_list.len() } else { es.len() };
                let ghost before = file_views(files@);
                let ghost g = Seq::new(
                    count as nat,
                    |j: int| (wem_file_name_of(j as nat, es@[j].id as nat, es@.len()), dl[j]),
                );
                let mut blobs = data_list;
                assert forall|k: int| 0 <= k < blobs@.len() implies #[trigger] blobs@[k]@ == dl[0 + k] by {}
                let mut j: usize = 0;
                while j < count
                    invariant
                        count <= es@.len(),
                        count <= dl.len(),
                        j <= count,
                        blobs@.len() == dl.len() - j,
                        forall|k: int| 0 <= k < blobs@.len() ==> #[trigger] blobs@[k]@ == dl[j + k],
                        g == Seq::new(
                            count as nat,
                            |j: int| (wem_file_name_of(j as nat, es@[j].id as nat, es@.len()), dl[j]),
                        ),
                        file_views(files@) == before + g.take(j as int),
                    decreases count - j,
                {
                    let ghost bv = blobs@;
                    assert(bv[0]@ == dl[j + 0]);
                    let data = blobs.remove(0);
                    assert forall|k: int| 0 <= k < blobs@.len() implies #[trigger] blobs@[k]@ == dl[(j + 1) + k] by {
                        assert(bv[k + 1]@ == dl[j + (k + 1)]);
                    }
                    let name = wem_file_name(j as u64, es[j].id, es.len() as u64);
                    let ghost files_before = files@;
                    let f = LooseFile { name, data };
                    assert((f.name@, f.data@) == g[j as int]);
                    files.push(f);
                    assert(file_views(files@) =~= file_views(files_before).push((f.name@, f.data@)));
                    j = j + 1;
                    assert(file_views(files@) =~= before + g.take(j as int));
                }
                assert(g.take(count as int) =~= g);
            },
            other => {
                let ghost kept_before = kept@;
                kept.push(Section { magic, section_length, payload: other });
                assert(views(kept@) =~= views(kept_before).push(sv));
                assert(file_views(files@) + Seq::<(Seq<char>, Seq<u8>)>::empty() =~= file_views(files@));
            },
        }
        proof {
            i = i + 1;
        }
    }
    assert(all.take(i as int) =~= all) by {
        assert(views(rest@).len() == 0);
    }
    Ok((files, Bnk { sections: kept }))
}

#[verifier::external_type_specification]
#[verifier::external_body]
#[verifier::reject_recursive_types(K)]
#[verifier::reject_recursive_types(V)]
#[verifier::reject_recursive_types(S)]
pub struct ExIndexMap<K, V, S>(IndexMap<K, V, S>);

/// A table of loose assets keyed by id: order index and size.
pub type LooseMap = IndexMap<u32, (u32, u32)>;

/// What a table of loose assets holds: for each id, the order index and the
/// size of the bytes to write.
pub uninterp spec fn loose_entries(m: LooseMap) -> Map<u32, (u32, u32)>;

/// Relies on `IndexMap::new`: a map with no entries.
#[verifier::external_body]
fn loose_map_new() -> (r: LooseMap)
    ensures
        loose_entries(r).dom() == Set::<u32>::empty(),
{
    IndexMap::new()
}

/// Relies on `IndexMap::insert`: afterwards the key maps to the new value, and
/// the other keys keep theirs.
#[verifier::external_body]
fn loose_map_insert(m: &mut LooseMap, id: u32, v: (u32, u32))
    ensures
        loose_entries(*final(m)) == loose_entries(*old(m)).insert(id, v),
{
    m.insert(id, v);
}

/// Relies on `IndexMap::get`: the value stored for the key, if there is one.
#[verifier::external_body]
fn loose_map_get(m: &LooseMap, id: u32) -> (r: Option<(u32, u32)>)
    ensures
        r is Some <==> loose_entries(*m).dom().contains(id),
        r is Some ==> r->0 == loose_entries(*m)[id],
{
    m.get(&id).copied()
}

/// The table of loose assets read from the first `n` files: each file's name
/// gives its order index and id, and its size is that of the replacement it
/// takes, else its own. A later file with the same id takes the id's place.
pub open spec fn loose_map_of(
    stems: Seq<Seq<char>>,
    sizes: Seq<u64>,
    keys: Seq<IdOrIndex>,
    key_sizes: Seq<u64>,
    n: int,
) -> Result<Map<u32, (u32, u32)>, ProjectError>
    decreases n,
{
    if n <= 0 {
        Ok(Map::empty())
    } else {
        match loose_map_of(stems, sizes, keys, key_sizes, n - 1) {
            Err(e) => Err(e),
            Ok(m) => match wem_name_fields(encode_utf8(trimmed(stems[n - 1]))) {
                None => Err(ProjectError::BadWemName),
                Some((idx, id)) => {
                    let size = match replacement_for(keys, idx, id) {
                        Some((j, _)) => key_sizes[j],
                        None => sizes[n - 1],
                    };
                    if size > u32::MAX {
                        Err(ProjectError::TooLarge)
                    } else {
                        Ok(m.insert(id, (idx, size as u32)))
                    }
                },
            },
        }
    }
}

proof fn lemma_loose_error_persists(
    stems: Seq<Seq<char>>,
    sizes: Seq<u64>,
    keys: Seq<IdOrIndex>,
    key_sizes: Seq<u64>,
    k: int,
    n: int,
)
    requires
        0 <= k <= n,
        loose_map_of(stems, sizes, keys, key_sizes, k) is Err,
    ensures
        loose_map_of(stems, sizes, keys, key_sizes, n) == loose_map_of(stems, sizes, keys, key_sizes, k),
    decreases n - k,
{
    if k < n {
        lemma_loose_error_persists(stems, sizes, keys, key_sizes, k, n - 1);
    }
}

/// Builds the table of a package project's loose assets from their file
/// stems and sizes, and the keys and sizes of the replacement files.
pub fn loose_table(
    stems: &Vec<String>,
    sizes: &Vec<u64>,
    keys: &Vec<IdOrIndex>,
    key_sizes: &Vec<u64>,
) -> (r: Result<LooseMap, ProjectError>)
    requires
        stems@.len() == sizes@.len(),
        keys@.len() == key_sizes@.len(),
    ensures
        ({
            let sv = stems@.map_values(|s: String| s@);
            match r {
                Ok(m) => loose_map_of(sv, sizes@, keys@, key_sizes@, sv.len() as int) == Ok::<
                    _,
                    ProjectError,
                >(loose_entries(m)),
                Err(e) => loose_map_of(sv, sizes@, keys@, key_sizes@, sv.len() as int) == Err::<
                    Map<u32, (u32, u32)>,
                    _,
                >(e),
            }
        }),
{
    let ghost sv = stems@.map_values(|s: String| s@);
    let mut m = loose_map_new();
    assert(loose_entries(m) =~= Map::<u32, (u32, u32)>::empty());
    let mut i: usize = 0;
    while i < stems.len()
        invariant
            sv == stems@.map_values(|s: String| s@),
            stems@.len() == sizes@.len(),
            keys@.len() == key_sizes@.len(),
            i <= stems@.len(),
            loose_map_of(sv, sizes@, keys@, key_sizes@, i as int) == Ok::<_, ProjectError>(
                loose_entries(m),
            ),
        decreases stems@.len() - i,
    {
        assert(sv[i as int] == stems@[i as int]@);
        let (idx, id) = match parse_wem_name(stems[i].as_str()) {
            Some(f) => f,
            None => {
                proof {
                    lemma_loose_error_persists(sv, sizes@, keys@, key_sizes@, i + 1, sv.len() as int);
                }
                return Err(ProjectError::BadWemName);
            },
        };
        let size = match choose_replacement(keys, idx, id) {
            Some((j, _)) => key_sizes[j],
            None => sizes[i],
        };
        if size > u32::MAX as u64 {
            proof {
                lemma_loose_error_persists(sv, sizes@, keys@, key_sizes@, i + 1, sv.len() as int);
            }
            return Err(ProjectError::TooLarge);
        }
        loose_map_insert(&mut m, id, (idx, size as u32));
        i = i + 1;
    }
    Ok(m)
}

/// The audio entries that have a loose asset, in table order.
pub open spec fn kept_entries(wem: Seq<PckFileEntry>, m: Map<u32, (u32, u32)>) -> Seq<PckFileEntry>
    decreases wem.len(),
{
    if wem.len() == 0 {
        Seq::empty()
    } else if m.dom().contains(wem.last().id) {
        kept_entries(wem.drop_last(), m).push(wem.last())
    } else {
        kept_entries(wem.drop_last(), m)
    }
}

/// The ids of the audio entries that have no loose asset, in table order.
pub open spec fn dropped_ids(wem: Seq<PckFileEntry>, m: Map<u32, (u32, u32)>) -> Seq<u32>
    decreases wem.len(),
{
    if wem.len() == 0 {
        Seq::empty()
    } else if m.dom().contains(wem.last().id) {
        dropped_ids(wem.drop_last(), m)
    } else {
        dropped_ids(wem.drop_last(), m).push(wem.last().id)
    }
}

/// The cursor after laying out the first `k` kept entries from `start`, each
/// at the cursor rounded up to its alignment, with its asset's size.
pub open spec fn relay_cursor(
    kept: Seq<PckFileEntry>,
    m: Map<u32, (u32, u32)>,
    start: int,
    k: int,
) -> int
    decreases k,
{
    if k <= 0 {
        start
    } else {
        align_up(relay_cursor(kept, m, start, k - 1), kept[k - 1].padding_block_size as int)
            + m[kept[k - 1].id].1
    }
}

pub open spec fn relay_at(kept: Seq<PckFileEntry>, m: Map<u32, (u32, u32)>, start: int, k: int) -> int {
    align_up(relay_cursor(kept, m, start, k), kept[k].padding_block_size as int)
}

/// The kept entries with their new offsets and lengths.
pub open spec fn relaid(kept: Seq<PckFileEntry>, m: Map<u32, (u32, u32)>, start: int) -> Seq<PckFileEntry> {
    Seq::new(
        kept.len(),
        |k: int|
            PckFileEntry {
                offset: relay_at(kept, m, start, k) as u32,
                length: m[kept[k].id].1,
                ..kept[k]
            },
    )
}

/// Whether every new offset fits in its `u32` field.
pub open spec fn relay_fits(kept: Seq<PckFileEntry>, m: Map<u32, (u32, u32)>, start: int) -> bool {
    forall|k: int| 0 <= k < kept.len() ==> #[trigger] relay_at(kept, m, start, k) <= u32::MAX
}

/// `v` with `wem` as its audio table.
pub open spec fn with_wem(v: PckView, wem: Seq<PckFileEntry>) -> PckView {
    PckView { wem, ..v }
}

proof fn lemma_kept_have_assets(wem: Seq<PckFileEntry>, m: Map<u32, (u32, u32)>)
    ensures
        forall|j: int|
            0 <= j < kept_entries(wem, m).len() ==> m.dom().contains(
                #[trigger] kept_entries(wem, m)[j].id,
            ),
    decreases wem.len(),
{
    if wem.len() > 0 {
        lemma_kept_have_assets(wem.drop_last(), m);
        let prev = kept_entries(wem.drop_last(), m);
        if m.dom().contains(wem.last().id) {
            assert forall|j: int| 0 <= j < prev.len() + 1 implies m.dom().contains(
                #[trigger] prev.push(wem.last())[j].id,
            ) by {
                if j < prev.len() {
                    assert(prev.push(wem.last())[j] == prev[j]);
                }
            }
        }
    }
}

proof fn lemma_kept_dropped_len(wem: Seq<PckFileEntry>, m: Map<u32, (u32, u32)>)
    ensures
        kept_entries(wem, m).len() + dropped_ids(wem, m).len() == wem.len(),
    decreases wem.len(),
{
    if wem.len() > 0 {
        lemma_kept_dropped_len(wem.drop_last(), m);
    }
}

/// Re-lays the audio table of a package for repacking: entries without a
/// loose asset are dropped (their ids are returned, in table order), and the
/// others are placed one after another in table order from the data start,
/// each rounded up to its alignment, with its asset's size as length.
pub fn relayout_pck(header: PckHeader, loose: &LooseMap) -> (r: Result<
    (PckHeader, Vec<u32>),
    ProjectError,
>)
    ensures
        ({
            let m = loose_entries(*loose);
            let kept = kept_entries(header@.wem, m);
            let trimmed_view = with_wem(header@, kept);
            match r {
                Ok((h, dropped)) => header_fits(trimmed_view) && relay_fits(
                    kept,
                    m,
                    data_start_of(trimmed_view),
                ) && h@ == with_wem(header@, relaid(kept, m, data_start_of(trimmed_view)))
                    && dropped@ == dropped_ids(header@.wem, m) && h@.wem.len() + dropped@.len()
                    == header@.wem.len(),
                Err(e) => e == ProjectError::TooLarge && (!header_fits(trimmed_view) || !relay_fits(
                    kept,
                    m,
                    data_start_of(trimmed_view),
                )),
            }
        }),
{
    let ghost m = loose_entries(*loose);
    let ghost old_view = header@;
    let mut h = header;
    let mut kept: Vec<PckFileEntry> = Vec::new();
    let mut dropped: Vec<u32> = Vec::new();
    let mut i: usize = 0;
    while i < h.wem_entries.len()
        invariant
            old_view == h@,
            m == loose_entries(*loose),
            i <= h.wem_entries@.len(),
            kept@ == kept_entries(h.wem_entries@.take(i as int), m),
            dropped@ == dropped_ids(h.wem_entries@.take(i as int), m),
        decreases h.wem_entries@.len() - i,
    {
        let e = h.wem_entries[i];
        assert(h.wem_entries@.take(i + 1).drop_last() =~= h.wem_entries@.take(i as int));
        assert(h.wem_entries@.take(i + 1).last() == e);
        match loose_map_get(loose, e.id) {
            Some(_) => kept.push(e),
            None => dropped.push(e.id),
        }
        i = i + 1;
    }
    assert(h.wem_entries@.take(i as int) =~= h.wem_entries@);
    proof {
        lemma_kept_dropped_len(old_view.wem, m);
        lemma_kept_have_assets(old_view.wem, m);
    }
    let ghost kv = kept@;
    h.wem_entries = kept;
    assert(h@ == with_wem(old_view, kv));
    let start = match h.get_data_offset_start() {
        Some(s) => s,
        None => {
            assert(!header_fits(with_wem(old_view, kv)));
            return Err(ProjectError::TooLarge);
        },
    };
    let ghost st = start as int;
    let mut cur: u64 = start as u64;
    let mut k: usize = 0;
    while k < h.wem_entries.len()
        invariant
            m == loose_entries(*loose),
            old_view == header@,
            h@ == with_wem(old_view, h.wem_entries@),
            h.wem_entries@.len() == kv.len(),
            kv == kept_entries(old_view.wem, m),
            st == data_start_of(with_wem(old_view, kv)),
            k <= kv.len(),
            forall|j: int| 0 <= j < kv.len() ==> m.dom().contains(#[trigger] kv[j].id),
            forall|j: int| 0 <= j < k ==> #[trigger] relay_at(kv, m, st, j) <= u32::MAX,
            forall|j: int| 0 <= j < k ==> h.wem_entries@[j] == #[trigger] relaid(kv, m, st)[j],
            forall|j: int| k <= j < kv.len() ==> h.wem_entries@[j] == #[trigger] kv[j],
            cur == relay_cursor(kv, m, st, k as int),
            cur <= u32::MAX as u64 * 2,
        decreases kv.len() - k,
    {
        let e = h.wem_entries[k];
        assert(e == kv[k as int]);
        assert(m.dom().contains(kv[k as int].id));
        let (_, size) = loose_map_get(loose, e.id).unwrap();
        let a = e.padding_block_size as u64;
        let mut at = cur;
        if a > 1 && cur % a != 0 {
            at = cur + (a - cur % a);
        }
        assert(at == relay_at(kv, m, st, k as int));
        if at > u32::MAX as u64 {
            assert(!relay_fits(kv, m, st));
            return Err(ProjectError::TooLarge);
        }
        let ne = PckFileEntry { offset: at as u32, length: size, ..e };
        h.wem_entries.set(k, ne);
        cur = at + size as u64;
        k = k + 1;
    }
    assert(h.wem_entries@ =~= relaid(kv, m, st));
    Ok((h, dropped))
}

/// One audio entry of a package to unpack: the loose file's name and where
/// its bytes lie in the package.
#[derive(Debug, Clone)]
pub struct PckDumpItem {
    pub name: String,
    pub reader: PckFileReader,
}

/// The loose files of a package's audio entries, in table order: each named
/// by its table position and id, read from its derived position. `None` where
/// the header has no layout.
pub fn pck_dump_plan(h: &PckHeader) -> (r: Option<Vec<PckDumpItem>>)
    ensures
        match r {
            Some(items) => items@.len() == h@.wem.len() && exists|p: Seq<u64>|
                derived_positions(h@, p) && forall|i: int|
                    0 <= i < items@.len() ==> (#[trigger] items@[i]).name@ == wem_file_name_of(
                        i as nat,
                        h@.wem[i].id as nat,
                        h@.wem.len(),
                    ) && items@[i].reader.start_pos == p[h@.bnk.len() + i]
                        && items@[i].reader.length == h@.wem[i].length,
            None => layout_overflows(h@),
        },
{
    let positions = match h.calculate_file_positions() {
        Some(p) => p,
        None => {
            return None;
        },
    };
    assert(derived_positions(h@, positions@));
    let nb = h.bnk_entries.len();
    let n = h.wem_entries.len();
    let total = positions.len();
    let mut items: Vec<PckDumpItem> = Vec::new();
    let mut i: usize = 0;
    while i < n
        invariant
            n == h@.wem.len(),
            nb == h@.bnk.len(),
            positions@.len() == nb + n,
            total == nb + n,
            i <= n,
            items@.len() == i,
            forall|j: int|
                0 <= j < i ==> (#[trigger] items@[j]).name@ == wem_file_name_of(
                    j as nat,
                    h@.wem[j].id as nat,
                    h@.wem.len(),
                ) && items@[j].reader.start_pos == positions@[nb + j]
                    && items@[j].reader.length == h@.wem[j].length,
        decreases n - i,
    {
        let e = &h.wem_entries[i];
        let name = wem_file_name(i as u64, e.id, n as u64);
        let reader = PckFileReader::new(e, positions[nb + i]);
        items.push(PckDumpItem { name, reader });
        i = i + 1;
    }
    Some(items)
}

/// A project unpacked from a sound bank.
#[derive(Debug, Clone)]
pub struct BnkProject {
    pub metadata_file: String,
    pub source_file_name: String,
    pub project_path: String,
}

/// A project unpacked from a package.
#[derive(Debug, Clone)]
pub struct PckProject {
    pub metadata_file: String,
    pub source_file_name: String,
    pub project_path: String,
}

/// An unpacked project of either container kind.
#[derive(Debug, Clone)]
pub enum SoundToolProject {
    Bnk(BnkProject),
    Pck(PckProject),
}

impl SoundToolProject {
    /// The project of a bank unpacked from `source_file_name` into
    /// `project_path`; its manifest is `bank.json`.
    pub fn new_bnk(source_file_name: String, project_path: String) -> (r: SoundToolProject)
        ensures
            r matches SoundToolProject::Bnk(p) && p.metadata_file@ == "bank.json"@
                && p.source_file_name == source_file_name && p.project_path == project_path,
    {
        SoundToolProject::Bnk(
            BnkProject {
                metadata_file: String::from_str("bank.json"),
                source_file_name,
                project_path,
            },
        )
    }

    /// The project of a package unpacked from `source_file_name` into
    /// `project_path`; its manifest is `pck.json`.
    pub fn new_pck(source_file_name: String, project_path: String) -> (r: SoundToolProject)
        ensures
            r matches SoundToolProject::Pck(p) && p.metadata_file@ == "pck.json"@
                && p.source_file_name == source_file_name && p.project_path == project_path,
    {
        SoundToolProject::Pck(
            PckProject {
                metadata_file: String::from_str("pck.json"),
                source_file_name,
                project_path,
            },
        )
    }

    /// Points the project at the directory it was loaded from.
    pub fn set_project_path(&mut self, project_path: String)
        ensures
            match (*old(self), *final(self)) {
                (SoundToolProject::Bnk(a), SoundToolProject::Bnk(b)) => b.project_path == project_path
                    && b.metadata_file == a.metadata_file && b.source_file_name == a.source_file_name,
                (SoundToolProject::Pck(a), SoundToolProject::Pck(b)) => b.project_path == project_path
                    && b.metadata_file == a.metadata_file && b.source_file_name == a.source_file_name,
                _ => false,
            },
    {
        match self {
            SoundToolProject::Bnk(p) => {
                p.project_path = project_path;
            },
            SoundToolProject::Pck(p) => {
                p.project_path = project_path;
            },
        }
    }
}

proof fn lemma_no_blob_sections(secs: Seq<SectionView>)
    requires
        forall|i: int| 0 <= i < secs.len() ==> !holds_blobs(#[trigger] secs[i]),
    ensures
        dump_files(secs) == Some(Seq::<(Seq<char>, Seq<u8>)>::empty()),
        manifest_of(secs) == secs,
        last_didx(secs) is None,
    decreases secs.len(),
{
    if secs.len() > 0 {
        let prev = secs.drop_last();
        assert forall|i: int| 0 <= i < prev.len() implies !holds_blobs(#[trigger] prev[i]) by {
            assert(prev[i] == secs[i]);
        }
        lemma_no_blob_sections(prev);
        assert(!holds_blobs(secs[secs.len() - 1]));
        assert(Seq::<(Seq<char>, Seq<u8>)>::empty() + Seq::<(Seq<char>, Seq<u8>)>::empty()
            =~= Seq::<(Seq<char>, Seq<u8>)>::empty());
        assert(prev.push(secs.last()) =~= secs);
    }
}

proof fn lemma_append_no_blobs(x: Seq<SectionView>, y: Seq<SectionView>)
    requires
        forall|i: int| 0 <= i < y.len() ==> !holds_blobs(#[trigger] y[i]),
        dump_files(x) is Some,
    ensures
        dump_files(x + y) == dump_files(x),
        manifest_of(x + y) == manifest_of(x) + y,
    decreases y.len(),
{
    if y.len() == 0 {
        assert(x + y =~= x);
        assert(manifest_of(x) + y =~= manifest_of(x));
    } else {
        let prev = y.drop_last();
        assert forall|i: int| 0 <= i < prev.len() implies !holds_blobs(#[trigger] prev[i]) by {
            assert(prev[i] == y[i]);
        }
        lemma_append_no_blobs(x, prev);
        assert((x + y).drop_last() =~= x + prev);
        assert((x + y).last() == y.last());
        assert(!holds_blobs(y[y.len() - 1]));
        let f = dump_files(x)->0;
        assert(f + Seq::<(Seq<char>, Seq<u8>)>::empty() =~= f);
        assert(manifest_of(x) + prev.push(y.last()) =~= (manifest_of(x) + prev).push(y.last()));
        assert(prev.push(y.last()) =~= y);
    }
}

/// Splitting a bank assembled from a manifest without index or data sections
/// gives each asset's bytes back in order-index order, named by its position
/// and its id, and gives the manifest back unchanged.
pub proof fn lemma_split_after_assemble(
    skeleton: Seq<SectionView>,
    assets: Seq<WemAssetView>,
    order: Seq<usize>,
)
    requires
        skeleton.len() >= 1,
        forall|i: int| 0 <= i < skeleton.len() ==> !holds_blobs(#[trigger] skeleton[i]),
        is_key_order(asset_indices(assets), order),
    ensures
        dump_files(repacked_sections(skeleton, assets, order)) == Some(
            Seq::new(
                order.len(),
                |k: int|
                    (
                        wem_file_name_of(k as nat, assets[order[k] as int].id as nat, order.len()),
                        assets[order[k] as int].data,
                    ),
            ),
        ),
        manifest_of(repacked_sections(skeleton, assets, order)) == skeleton,
{
    let r = repacked_sections(skeleton, assets, order);
    let d = r[1];
    let a = r[2];
    let head = seq![skeleton[0], d, a];
    let tail = skeleton.subrange(1, skeleton.len() as int);
    assert(r =~= head + tail);
    assert forall|i: int| 0 <= i < tail.len() implies !holds_blobs(#[trigger] tail[i]) by {
        assert(tail[i] == skeleton[i + 1]);
    }
    assert(!holds_blobs(skeleton[0]));
    let s0 = seq![skeleton[0]];
    assert(s0.drop_last() =~= Seq::<SectionView>::empty());
    assert(head.drop_last() =~= seq![skeleton[0], d]);
    assert(seq![skeleton[0], d].drop_last() =~= s0);
    assert(s0.last() == skeleton[0]);
    assert(head.last() == a);
    assert(seq![skeleton[0], d].last() == d);
    assert(d.payload is Didx);
    assert(a.payload is Data);
    assert(last_didx(s0) is None);
    assert(dump_files(Seq::<SectionView>::empty()) == Some(Seq::<(Seq<char>, Seq<u8>)>::empty()));
    assert(section_files(Seq::<SectionView>::empty(), skeleton[0]) == Some(
        Seq::<(Seq<char>, Seq<u8>)>::empty(),
    ));
    assert(dump_files(s0) == Some(Seq::<(Seq<char>, Seq<u8>)>::empty())) by {
        assert(Seq::<(Seq<char>, Seq<u8>)>::empty() + Seq::<(Seq<char>, Seq<u8>)>::empty()
            =~= Seq::<(Seq<char>, Seq<u8>)>::empty());
    }
    assert(dump_files(seq![skeleton[0], d]) == Some(Seq::<(Seq<char>, Seq<u8>)>::empty())) by {
        assert(Seq::<(Seq<char>, Seq<u8>)>::empty() + Seq::<(Seq<char>, Seq<u8>)>::empty()
            =~= Seq::<(Seq<char>, Seq<u8>)>::empty());
    }
    let es = packed_index(assets, order);
    assert(last_didx(seq![skeleton[0], d]) == Some(es));
    let files = Seq::new(
        order.len(),
        |k: int|
            (
                wem_file_name_of(k as nat, assets[order[k] as int].id as nat, order.len()),
                assets[order[k] as int].data,
            ),
    );
    assert(section_files(seq![skeleton[0], d], a) == Some(files)) by {
        assert(Seq::new(
            order.len(),
            |j: int| (wem_file_name_of(j as nat, es[j].id as nat, es.len()), ordered_blobs(assets, order)[j]),
        ) =~= files);
    }
    assert(Seq::<(Seq<char>, Seq<u8>)>::empty() + files =~= files);
    assert(dump_files(head) == Some(files));
    assert(manifest_of(s0) =~= s0) by {
        assert(manifest_of(Seq::<SectionView>::empty()) =~= Seq::<SectionView>::empty());
    }
    assert(manifest_of(seq![skeleton[0], d]) == s0);
    assert(manifest_of(head) == s0);
    lemma_append_no_blobs(head, tail);
    assert(s0 + tail =~= skeleton);
}

proof fn lemma_total_len_between(blobs: Seq<Seq<u8>>, a: int, b: int)
    requires
        0 <= a <= b <= blobs.len(),
    ensures
        0 <= total_len(blobs.take(a)) <= total_len(blobs.take(b)),
{
    lemma_total_len_monotone(blobs.take(b), a);
    assert(blobs.take(b).take(a) =~= blobs.take(a));
    lemma_total_len_nonneg(blobs.take(a));
}

/// The packed index places each blob inside the data body, without overlap.
proof fn lemma_packed_fits(assets: Seq<WemAssetView>, order: Seq<usize>)
    requires
        is_key_order(asset_indices(assets), order),
        packing_fits(assets, order),
    ensures
        blobs_fit(
            packed_index(assets, order),
            ordered_blobs(assets, order),
            total_len(ordered_blobs(assets, order)),
        ),
{
    let blobs = ordered_blobs(assets, order);
    let es = packed_index(assets, order);
    let n = order.len() as int;
    assert(blobs.take(n) =~= blobs);
    assert forall|i: int| 0 <= i < n implies (#[trigger] blobs[i]).len() == es[i].length
        && es[i].offset + es[i].length <= total_len(blobs) by {
        lemma_total_len_take(blobs, i);
        lemma_total_len_between(blobs, i + 1, n);
    }
    assert forall|i: int, j: int|
        0 <= i < j < n implies #[trigger] es[i].offset + es[i].length <= #[trigger] es[j].offset
        || es[j].offset + es[j].length <= es[i].offset by {
        lemma_total_len_take(blobs, i);
        lemma_total_len_take(blobs, j);
        lemma_total_len_between(blobs, i + 1, j);
        lemma_total_len_between(blobs, j + 1, n);
    }
}

/// A bank assembled from a consistent manifest without index or data sections
/// is consistent.
proof fn lemma_repacked_consistent(
    skeleton: Seq<SectionView>,
    assets: Seq<WemAssetView>,
    order: Seq<usize>,
)
    requires
        skeleton.len() >= 1,
        forall|i: int|
            0 <= i < skeleton.len() ==> !holds_blobs(#[trigger] skeleton[i])
                && section_consistent(Seq::empty(), skeleton[i]),
        is_key_order(asset_indices(assets), order),
        packing_fits(assets, order),
    ensures
        bank_consistent(repacked_sections(skeleton, assets, order)),
{
    let r = repacked_sections(skeleton, assets, order);
    lemma_packed_fits(assets, order);
    assert forall|k: int| 0 <= k < r.len() implies #[trigger] section_consistent(r.take(k), r[k]) by {
        if k == 2 {
            assert(r.take(2) =~= seq![skeleton[0], r[1]]);
            assert(seq![skeleton[0], r[1]].drop_last() =~= seq![skeleton[0]]);
            assert(seq![skeleton[0], r[1]].last() == r[1]);
            assert(last_didx(r.take(2)) == Some(packed_index(assets, order)));
        } else if k != 1 {
            let j = if k == 0 { 0 } else { k - 2 };
            assert(r[k] == skeleton[j]);
            assert(section_consistent(Seq::empty(), skeleton[j]));
        }
    }
}

/// Writing a bank assembled from a consistent manifest, parsing the bytes and
/// splitting the result gives each asset's bytes back in order-index order,
/// named by its position and its id, and gives the manifest back.
pub proof fn lemma_repack_then_split(
    skeleton: Seq<SectionView>,
    assets: Seq<WemAssetView>,
    order: Seq<usize>,
)
    requires
        skeleton.len() >= 1,
        forall|i: int|
            0 <= i < skeleton.len() ==> !holds_blobs(#[trigger] skeleton[i])
                && section_consistent(Seq::empty(), skeleton[i]),
        is_key_order(asset_indices(assets), order),
        packing_fits(assets, order),
        bank_bytes(repacked_sections(skeleton, assets, order)) is Ok,
    ensures
        ({
            let parsed = parse_bank(bank_bytes(repacked_sections(skeleton, assets, order))->Ok_0);
            &&& parsed == Ok::<_, crate::bnk::BnkError>(repacked_sections(skeleton, assets, order))
            &&& dump_files(parsed->Ok_0) == Some(
                Seq::new(
                    order.len(),
                    |k: int|
                        (
                            wem_file_name_of(k as nat, assets[order[k] as int].id as nat, order.len()),
                            assets[order[k] as int].data,
                        ),
                ),
            )
            &&& manifest_of(parsed->Ok_0) == skeleton
        }),
{
    lemma_repacked_consistent(skeleton, assets, order);
    lemma_bank_round_trip(repacked_sections(skeleton, assets, order));
    lemma_split_after_assemble(skeleton, assets, order);
}

/// The assets that loose files describe: the order index and id that each
/// file's name states, and its bytes.
pub open spec fn assets_of_files(files: Seq<(Seq<char>, Seq<u8>)>) -> Seq<WemAssetView> {
    Seq::new(
        files.len(),
        |j: int|
            {
                let fields = wem_name_fields(encode_utf8(files[j].0))->0;
                WemAssetView { index: fields.0, id: fields.1, data: files[j].1 }
            },
    )
}

/// A bank laid out as unpacking expects: a header section, the index, the
/// data, then sections without blobs.
pub open spec fn standard_bank(secs: Seq<SectionView>) -> bool {
    &&& secs.len() >= 3
    &&& !holds_blobs(secs[0])
    &&& secs[1].payload is Didx
    &&& secs[2].payload is Data
    &&& forall|i: int| 3 <= i < secs.len() ==> !holds_blobs(#[trigger] secs[i])
}

/// A stable order of positions whose keys are the positions themselves is the
/// identity.
proof fn lemma_identity_order(keys: Seq<u32>, order: Seq<usize>)
    requires
        is_key_order(keys, order),
        forall|j: int| 0 <= j < keys.len() ==> #[trigger] keys[j] == j,
    ensures
        forall|k: int| 0 <= k < order.len() ==> #[trigger] order[k] == k,
{
    let n = order.len() as int;
    assert forall|i: int, j: int| 0 <= i < j < n implies order[i] < order[j] by {
        assert(key_before(keys, order[i] as int, order[j] as int));
    }
    assert forall|k: int| 0 <= k < n implies #[trigger] order[k] == k by {
        lemma_order_bounds(order, n, k);
    }
}

proof fn lemma_order_bounds(order: Seq<usize>, n: int, k: int)
    requires
        order.len() == n,
        0 <= k < n,
        forall|i: int| 0 <= i < n ==> #[trigger] order[i] < n,
        forall|i: int, j: int| 0 <= i < j < n ==> order[i] < order[j],
    ensures
        order[k] == k,
{
    lemma_order_low(order, n, k);
    lemma_order_high(order, n, k);
}

proof fn lemma_order_low(order: Seq<usize>, n: int, k: int)
    requires
        order.len() == n,
        0 <= k < n,
        forall|i: int, j: int| 0 <= i < j < n ==> order[i] < order[j],
    ensures
        order[k] >= k,
    decreases k,
{
    if k > 0 {
        lemma_order_low(order, n, k - 1);
    }
}

proof fn lemma_order_high(order: Seq<usize>, n: int, k: int)
    requires
        order.len() == n,
        0 <= k < n,
        forall|i: int| 0 <= i < n ==> #[trigger] order[i] < n,
        forall|i: int, j: int| 0 <= i < j < n ==> order[i] < order[j],
    ensures
        order[k] <= k,
    decreases n - k,
{
    if k < n - 1 {
        lemma_order_high(order, n, k + 1);
    }
}

/// Dumping a bank laid out as unpacking expects, repacking the loose files
/// unedited, and dumping the result gives the same loose files, with the same
/// names and bytes, and the same manifest. The repacked bank must fit its
/// `u32` length fields and the writer's positions.
pub proof fn lemma_unedited_repack(secs: Seq<SectionView>, order: Seq<usize>)
    requires
        bank_consistent(secs),
        standard_bank(secs),
        is_key_order(asset_indices(assets_of_files(dump_files(secs)->0)), order),
        packing_fits(assets_of_files(dump_files(secs)->0), order),
        bank_bytes(repacked_sections(manifest_of(secs), assets_of_files(dump_files(secs)->0), order)) is Ok,
    ensures
        dump_files(secs) is Some,
        parse_bank(
            bank_bytes(
                repacked_sections(manifest_of(secs), assets_of_files(dump_files(secs)->0), order),
            )->Ok_0,
        ) matches Ok(again) && dump_files(again) == dump_files(secs) && manifest_of(again)
            == manifest_of(secs),
{
    let head = secs.take(3);
    let tail = secs.subrange(3, secs.len() as int);
    assert(secs =~= head + tail);
    assert forall|i: int| 0 <= i < tail.len() implies !holds_blobs(#[trigger] tail[i]) by {
        assert(tail[i] == secs[i + 3]);
    }
    let s0 = secs[0];
    let d = secs[1];
    let a = secs[2];
    let es = d.payload->Didx_entries;
    let blobs = a.payload->data_list;
    assert(section_consistent(secs.take(1), d));
    assert(section_consistent(secs.take(2), a));
    assert(secs.take(2) =~= seq![s0, d]);
    assert(head =~= seq![s0, d, a]);
    let one = seq![s0];
    assert(seq![s0, d].drop_last() =~= one);
    assert(seq![s0, d].last() == d);
    assert(one.drop_last() =~= Seq::<SectionView>::empty());
    assert(one.last() == s0);
    assert(head.drop_last() =~= seq![s0, d]);
    assert(head.last() == a);
    assert(last_didx(seq![s0, d]) == Some(es));
    let n = es.len();
    assert(blobs.len() == n);
    let files = Seq::new(n, |j: int| (wem_file_name_of(j as nat, es[j].id as nat, n), blobs[j]));
    let empty = Seq::<(Seq<char>, Seq<u8>)>::empty();
    assert(empty + empty =~= empty);
    assert(dump_files(Seq::<SectionView>::empty()) == Some(empty));
    assert(dump_files(one) == Some(empty));
    assert(dump_files(seq![s0, d]) == Some(empty));
    assert(section_files(seq![s0, d], a) == Some(files));
    assert(empty + files =~= files);
    assert(dump_files(head) == Some(files));
    assert(manifest_of(Seq::<SectionView>::empty()) =~= Seq::<SectionView>::empty());
    assert(manifest_of(one) =~= one);
    assert(manifest_of(seq![s0, d]) == one);
    assert(manifest_of(head) == one);
    lemma_append_no_blobs(head, tail);
    let manifest = one + tail;
    assert(dump_files(secs) == Some(files));
    assert(manifest_of(secs) == manifest);
    let assets = assets_of_files(files);
    assert(d.section_length == 12 * n);
    assert forall|j: int| 0 <= j < n implies #[trigger] assets[j] == (WemAssetView {
        index: j as u32,
        id: es[j].id,
        data: blobs[j],
    }) by {
        lemma_wem_name_round_trip(j as u32, es[j].id, n);
    }
    lemma_identity_order(asset_indices(assets), order);
    assert forall|i: int| 0 <= i < manifest.len() implies !holds_blobs(#[trigger] manifest[i])
        && section_consistent(Seq::empty(), manifest[i]) by {
        if i == 0 {
            assert(section_consistent(secs.take(0), secs[0]));
        } else {
            assert(manifest[i] == secs[i + 2]);
            assert(section_consistent(secs.take(i + 2), secs[i + 2]));
        }
    }
    lemma_repack_then_split(manifest, assets, order);
    let again_files = Seq::new(
        order.len(),
        |k: int|
            (
                wem_file_name_of(k as nat, assets[order[k] as int].id as nat, order.len()),
                assets[order[k] as int].data,
            ),
    );
    assert(again_files =~= files);
}

} // verus!
