//! Writing a package header and parsing the bytes gives its tables back.
use vstd::prelude::*;

use crate::bytes::{
    holds_at, lemma_holds_split, lemma_holds_u32, lemma_u16_le_bytes, lemma_u32_le_bytes,
    u16_le_bytes, u32_at, u32_le_bytes,
};
use crate::pck::{
    external_size_of, file_entries_bytes, file_entry_at, file_entry_bytes, header_bytes,
    header_fits, header_size_of, language_size_of, lemma_strings_size_monotone,
    lemma_units_bytes_len, parse_pck, string_at, string_bytes, string_dir, string_size,
    strings_data, strings_from, strings_size, tables_at, tag_akpk, u16_at, units_at, units_bytes,
    utf16_decoded, utf16_encoded, wem_table_size_of, bnk_table_size_of, words_bytes, PckFileEntry,
    PckStringView, PckView,
};

verus! {

/// Whether each string's UTF-16 form has no zero unit and decodes back to it.
pub open spec fn strings_survive(strings: Seq<PckStringView>) -> bool {
    forall|i: int|
        0 <= i < strings.len() ==> !utf16_encoded((#[trigger] strings[i]).value).contains(0u16)
            && utf16_decoded(utf16_encoded(strings[i].value)) == Some(strings[i].value)
}

proof fn lemma_units_layout(units: Seq<u16>)
    ensures
        units_bytes(units).len() == 2 * units.len(),
        forall|j: int|
            0 <= j < units.len() ==> #[trigger] units_bytes(units).subrange(2 * j, 2 * j + 2)
                == u16_le_bytes(units[j]),
    decreases units.len(),
{
    lemma_units_bytes_len(units);
    if units.len() > 0 {
        let n = units.len() - 1;
        let prev = units.drop_last();
        lemma_units_layout(prev);
        lemma_units_bytes_len(prev);
        lemma_u16_le_bytes(units.last());
        let all = units_bytes(units);
        assert forall|j: int| 0 <= j < units.len() implies #[trigger] all.subrange(2 * j, 2 * j + 2)
            == u16_le_bytes(units[j]) by {
            if j < n {
                assert(all.subrange(2 * j, 2 * j + 2) =~= units_bytes(prev).subrange(2 * j, 2 * j + 2));
                assert(prev[j] == units[j]);
            } else {
                assert(all.subrange(2 * j, 2 * j + 2) =~= u16_le_bytes(units.last()));
            }
        }
    }
}

proof fn lemma_units_suffix(buf: Seq<u8>, p: int, units: Seq<u16>, j: int)
    requires
        0 <= j <= units.len(),
        0 <= p,
        holds_at(buf, p, units_bytes(units)),
        buf.subrange(p + 2 * units.len(), p + 2 * units.len() + 2) == seq![0u8, 0u8],
        p + 2 * units.len() + 2 <= buf.len(),
        !units.contains(0u16),
    ensures
        units_at(buf, p + 2 * j) == Some(units.subrange(j, units.len() as int)),
    decreases units.len() - j,
{
    lemma_units_layout(units);
    let n = units.len() as int;
    if j == n {
        assert(u16_at(buf, p + 2 * n) == 0);
        assert(units.subrange(n, n) =~= Seq::<u16>::empty());
    } else {
        lemma_units_suffix(buf, p, units, j + 1);
        assert(buf.subrange(p + 2 * j, p + 2 * j + 2) =~= units_bytes(units).subrange(2 * j, 2 * j + 2));
        assert(units_bytes(units).subrange(2 * j, 2 * j + 2) == u16_le_bytes(units[j]));
        lemma_u16_le_bytes(units[j]);
        assert(u16_at(buf, p + 2 * j) == units[j]);
        assert(units[j] != 0u16);
        assert(seq![units[j]] + units.subrange(j + 1, n) =~= units.subrange(j, n));
    }
}

proof fn lemma_units_back(buf: Seq<u8>, p: int, units: Seq<u16>)
    requires
        holds_at(buf, p, units_bytes(units) + seq![0u8, 0u8]),
        !units.contains(0u16),
    ensures
        units_at(buf, p) == Some(units),
{
    lemma_units_layout(units);
    lemma_holds_split(buf, p, units_bytes(units), seq![0u8, 0u8]);
    lemma_units_suffix(buf, p, units, 0);
    assert(units.subrange(0, units.len() as int) =~= units);
}

/// The offset that the directory record of string `j` holds.
pub open spec fn dir_offset(strings: Seq<PckStringView>, j: int) -> u32 {
    (4 + 8 * strings.len() + strings_size(strings.take(j))) as u32
}

proof fn lemma_dir_len(strings: Seq<PckStringView>, k: int)
    requires
        0 <= k,
    ensures
        string_dir(strings, k).len() == 8 * k,
    decreases k,
{
    if k > 0 {
        lemma_dir_len(strings, k - 1);
    }
}

proof fn lemma_dir_record(buf: Seq<u8>, p: int, strings: Seq<PckStringView>, k: int, j: int)
    requires
        0 <= j < k <= strings.len(),
        holds_at(buf, p, string_dir(strings, k)),
    ensures
        u32_at(buf, p + 8 * j) == dir_offset(strings, j),
        u32_at(buf, p + 8 * j + 4) == strings[j].index,
    decreases k,
{
    let off = dir_offset(strings, k - 1);
    let prev = string_dir(strings, k - 1);
    lemma_dir_len(strings, k - 1);
    assert(string_dir(strings, k) == prev + u32_le_bytes(off) + u32_le_bytes(strings[k - 1].index));
    lemma_holds_split(buf, p, prev + u32_le_bytes(off), u32_le_bytes(strings[k - 1].index));
    lemma_holds_split(buf, p, prev, u32_le_bytes(off));
    if j == k - 1 {
        lemma_u32_le_bytes(off);
        lemma_holds_u32(buf, p + prev.len(), off);
        lemma_holds_u32(buf, p + prev.len() + 4, strings[k - 1].index);
    } else {
        lemma_dir_record(buf, p, strings, k - 1, j);
    }
}

proof fn lemma_data_back(buf: Seq<u8>, p: int, strings: Seq<PckStringView>)
    requires
        holds_at(buf, p, strings_data(strings)),
    ensures
        strings_data(strings).len() == strings_size(strings),
        forall|j: int|
            0 <= j < strings.len() ==> holds_at(
                buf,
                p + strings_size(strings.take(j)),
                string_bytes((#[trigger] strings[j]).value),
            ),
    decreases strings.len(),
{
    if strings.len() > 0 {
        let n = strings.len() - 1;
        let prev = strings.drop_last();
        lemma_holds_split(buf, p, strings_data(prev), string_bytes(strings.last().value));
        lemma_data_back(buf, p, prev);
        lemma_units_bytes_len(utf16_encoded(strings.last().value));
        assert(strings.take(n) =~= prev);
        assert forall|j: int| 0 <= j < strings.len() implies holds_at(
            buf,
            p + strings_size(strings.take(j)),
            string_bytes((#[trigger] strings[j]).value),
        ) by {
            if j < n {
                assert(prev[j] == strings[j]);
                assert(prev.take(j) =~= strings.take(j));
            }
        }
    }
}

proof fn lemma_strings_back(buf: Seq<u8>, strings: Seq<PckStringView>, k: int)
    requires
        0 <= k <= strings.len(),
        strings_survive(strings),
        4 + 8 * strings.len() + strings_size(strings) <= u32::MAX,
        holds_at(buf, 32, string_dir(strings, strings.len() as int)),
        forall|j: int|
            0 <= j < strings.len() ==> holds_at(
                buf,
                32 + 8 * strings.len() + strings_size(strings.take(j)),
                string_bytes((#[trigger] strings[j]).value),
            ),
    ensures
        strings_from(buf, k as nat) == Ok::<_, crate::pck::PckError>(strings.take(k)),
    decreases k,
{
    if k == 0 {
        assert(strings.take(0) =~= Seq::<PckStringView>::empty());
    } else {
        let j = k - 1;
        lemma_strings_back(buf, strings, j);
        let s = strings[j];
        lemma_strings_size_monotone(strings, j);
        lemma_dir_record(buf, 32, strings, strings.len() as int, j);
        assert(u32_at(buf, 32 + 8 * j) == dir_offset(strings, j));
        let at = 28 + u32_at(buf, 32 + 8 * j);
        assert(at == 32 + 8 * strings.len() + strings_size(strings.take(j)));
        assert(holds_at(buf, at, string_bytes(s.value)));
        lemma_units_back(buf, at, utf16_encoded(s.value));
        assert(string_at(buf, at) == Ok::<_, crate::pck::PckError>(s.value));
        assert(strings.take(j).push(PckStringView { index: s.index, value: s.value }) =~= strings.take(k));
    }
}

proof fn lemma_entries_back(buf: Seq<u8>, p: int, es: Seq<PckFileEntry>)
    requires
        holds_at(buf, p, file_entries_bytes(es)),
    ensures
        file_entries_bytes(es).len() == 20 * es.len(),
        forall|i: int| 0 <= i < es.len() ==> #[trigger] file_entry_at(buf, p + 20 * i) == es[i],
    decreases es.len(),
{
    if es.len() > 0 {
        let n = es.len() - 1;
        let e = es.last();
        lemma_holds_split(buf, p, file_entries_bytes(es.drop_last()), file_entry_bytes(e));
        lemma_entries_back(buf, p, es.drop_last());
        let q = p + 20 * n;
        let a = u32_le_bytes(e.id);
        let b = u32_le_bytes(e.padding_block_size);
        let c = u32_le_bytes(e.length);
        let d = u32_le_bytes(e.offset);
        let f = u32_le_bytes(e.language_id);
        lemma_holds_split(buf, q, a + b + c + d, f);
        lemma_holds_split(buf, q, a + b + c, d);
        lemma_holds_split(buf, q, a + b, c);
        lemma_holds_split(buf, q, a, b);
        lemma_u32_le_bytes(e.id);
        lemma_u32_le_bytes(e.padding_block_size);
        lemma_u32_le_bytes(e.length);
        lemma_u32_le_bytes(e.offset);
        lemma_holds_u32(buf, q, e.id);
        lemma_holds_u32(buf, q + 4, e.padding_block_size);
        lemma_holds_u32(buf, q + 8, e.length);
        lemma_holds_u32(buf, q + 12, e.offset);
        lemma_holds_u32(buf, q + 16, e.language_id);
        assert forall|i: int| 0 <= i < es.len() implies #[trigger] file_entry_at(buf, p + 20 * i) == es[i] by {
            if i < n {
                assert(es.drop_last()[i] == es[i]);
            }
        }
    }
}

proof fn lemma_words_back(buf: Seq<u8>, p: int, ws: Seq<u32>)
    requires
        holds_at(buf, p, words_bytes(ws)),
    ensures
        words_bytes(ws).len() == 4 * ws.len(),
        forall|i: int| 0 <= i < ws.len() ==> #[trigger] u32_at(buf, p + 4 * i) == ws[i],
    decreases ws.len(),
{
    if ws.len() > 0 {
        let n = ws.len() - 1;
        lemma_holds_split(buf, p, words_bytes(ws.drop_last()), u32_le_bytes(ws.last()));
        lemma_words_back(buf, p, ws.drop_last());
        lemma_holds_u32(buf, p + 4 * n, ws.last());
        assert forall|i: int| 0 <= i < ws.len() implies #[trigger] u32_at(buf, p + 4 * i) == ws[i] by {
            if i < n {
                assert(ws.drop_last()[i] == ws[i]);
            }
        }
    }
}

/// Where each part of a written header lies.
#[verifier::rlimit(60)]
proof fn lemma_header_layout(v: PckView, buf: Seq<u8>)
    requires
        holds_at(buf, 0, header_bytes(v)),
    ensures
        ({
            let n = v.strings.len() as int;
            let bnk_at = 32 + 8 * n + strings_size(v.strings);
            let wem_at = bnk_at + 4 + 20 * v.bnk.len();
            let ext_at = wem_at + 4 + 20 * v.wem.len();
            &&& holds_at(buf, 0, tag_akpk())
            &&& holds_at(buf, 4, u32_le_bytes(header_size_of(v) as u32))
            &&& holds_at(buf, 8, u32_le_bytes(v.version))
            &&& holds_at(buf, 12, u32_le_bytes(language_size_of(v) as u32))
            &&& holds_at(buf, 24, u32_le_bytes(external_size_of(v) as u32))
            &&& holds_at(buf, 28, u32_le_bytes(n as u32))
            &&& holds_at(buf, 32, string_dir(v.strings, n))
            &&& holds_at(buf, 32 + 8 * n, strings_data(v.strings))
            &&& holds_at(buf, bnk_at, u32_le_bytes(v.bnk.len() as u32))
            &&& holds_at(buf, bnk_at + 4, file_entries_bytes(v.bnk))
            &&& holds_at(buf, wem_at, u32_le_bytes(v.wem.len() as u32))
            &&& holds_at(buf, wem_at + 4, file_entries_bytes(v.wem))
            &&& holds_at(buf, ext_at, words_bytes(v.external))
        }),
{
    let strings = v.strings;
    let n = strings.len() as int;
    let x1 = tag_akpk() + u32_le_bytes(header_size_of(v) as u32);
    let x2 = x1 + u32_le_bytes(v.version);
    let x3 = x2 + u32_le_bytes(language_size_of(v) as u32);
    let x4 = x3 + u32_le_bytes(bnk_table_size_of(v) as u32);
    let x5 = x4 + u32_le_bytes(wem_table_size_of(v) as u32);
    let x6 = x5 + u32_le_bytes(external_size_of(v) as u32);
    let x7 = x6 + u32_le_bytes(n as u32);
    let x8 = x7 + string_dir(strings, n);
    let x9 = x8 + strings_data(strings);
    let x10 = x9 + u32_le_bytes(v.bnk.len() as u32);
    let x11 = x10 + file_entries_bytes(v.bnk);
    let x12 = x11 + u32_le_bytes(v.wem.len() as u32);
    let x13 = x12 + file_entries_bytes(v.wem);
    assert(header_bytes(v) == x13 + words_bytes(v.external));
    lemma_holds_split(buf, 0, x13, words_bytes(v.external));
    lemma_holds_split(buf, 0, x12, file_entries_bytes(v.wem));
    lemma_holds_split(buf, 0, x11, u32_le_bytes(v.wem.len() as u32));
    lemma_holds_split(buf, 0, x10, file_entries_bytes(v.bnk));
    lemma_holds_split(buf, 0, x9, u32_le_bytes(v.bnk.len() as u32));
    lemma_holds_split(buf, 0, x8, strings_data(strings));
    lemma_holds_split(buf, 0, x7, string_dir(strings, n));
    lemma_holds_split(buf, 0, x6, u32_le_bytes(n as u32));
    lemma_holds_split(buf, 0, x5, u32_le_bytes(external_size_of(v) as u32));
    lemma_holds_split(buf, 0, x4, u32_le_bytes(wem_table_size_of(v) as u32));
    lemma_holds_split(buf, 0, x3, u32_le_bytes(bnk_table_size_of(v) as u32));
    lemma_holds_split(buf, 0, x2, u32_le_bytes(language_size_of(v) as u32));
    lemma_holds_split(buf, 0, x1, u32_le_bytes(v.version));
    lemma_holds_split(buf, 0, tag_akpk(), u32_le_bytes(header_size_of(v) as u32));
    lemma_dir_len(strings, n);
    lemma_data_back(buf, 32 + 8 * n, strings);
    lemma_entries_back(buf, x9.len() + 4int, v.bnk);
    lemma_entries_back(buf, x11.len() + 4int, v.wem);
}

/// The tables after the string region of a written header read back.
proof fn lemma_tables_back(v: PckView, buf: Seq<u8>)
    requires
        header_fits(v),
        holds_at(buf, 0, header_bytes(v)),
    ensures
        tables_at(
            buf,
            32 + 8 * v.strings.len() + strings_size(v.strings),
            external_size_of(v) as u32,
        ) == Ok::<_, crate::pck::PckError>((v.bnk, v.wem, v.external)),
{
    lemma_header_layout(v, buf);
    let n = v.strings.len() as int;
    let bnk_at = 32 + 8 * n + strings_size(v.strings);
    let wem_at = bnk_at + 4 + 20 * v.bnk.len();
    let ext_at = wem_at + 4 + 20 * v.wem.len();
    lemma_entries_back(buf, bnk_at + 4, v.bnk);
    lemma_entries_back(buf, wem_at + 4, v.wem);
    lemma_words_back(buf, ext_at, v.external);
    lemma_holds_u32(buf, bnk_at, v.bnk.len() as u32);
    lemma_holds_u32(buf, wem_at, v.wem.len() as u32);
    assert((external_size_of(v) as u32) / 4 == v.external.len());
    assert(Seq::new(v.bnk.len(), |i: int| file_entry_at(buf, bnk_at + 4 + 20 * i)) =~= v.bnk);
    assert(Seq::new(v.wem.len(), |i: int| file_entry_at(buf, wem_at + 4 + 20 * i)) =~= v.wem);
    assert(Seq::new(v.external.len(), |i: int| u32_at(buf, ext_at + 4 * i)) =~= v.external);
}

/// The string region of a written header reads back.
#[verifier::rlimit(60)]
proof fn lemma_string_region_back(v: PckView, buf: Seq<u8>)
    requires
        header_fits(v),
        strings_survive(v.strings),
        holds_at(buf, 0, header_bytes(v)),
    ensures
        u32_at(buf, 28) == v.strings.len(),
        u32_at(buf, 12) == 4 + 8 * v.strings.len() + strings_size(v.strings),
        32 + 8 * v.strings.len() <= buf.len(),
        strings_from(buf, v.strings.len()) == Ok::<_, crate::pck::PckError>(v.strings),
{
    let strings = v.strings;
    let n = strings.len() as int;
    lemma_header_layout(v, buf);
    lemma_strings_size_monotone(strings, 0);
    assert(strings.take(0) =~= Seq::<PckStringView>::empty());
    lemma_holds_u32(buf, 12, language_size_of(v) as u32);
    lemma_holds_u32(buf, 28, n as u32);
    lemma_data_back(buf, 32 + 8 * n, strings);
    lemma_strings_back(buf, strings, n);
    assert(strings.take(n) =~= strings);
}

/// The fixed fields of a written header read back.
#[verifier::rlimit(60)]
proof fn lemma_fixed_back(v: PckView, buf: Seq<u8>)
    requires
        header_fits(v),
        holds_at(buf, 0, header_bytes(v)),
    ensures
        buf.len() >= 32,
        buf.subrange(0, 4) == tag_akpk(),
        u32_at(buf, 4) == header_size_of(v),
        u32_at(buf, 8) == v.version,
        u32_at(buf, 24) == external_size_of(v),
{
    lemma_header_layout(v, buf);
    lemma_holds_u32(buf, 4, header_size_of(v) as u32);
    lemma_holds_u32(buf, 8, v.version);
    lemma_holds_u32(buf, 24, external_size_of(v) as u32);
    lemma_holds_u32(buf, 28, v.strings.len() as u32);
}

/// Writing a package header and parsing the bytes, with anything after them,
/// gives its tables back; the header length read is the one computed from the
/// tables. The header must fit its `u32` fields, and each string must survive
/// UTF-16: its code units hold no zero unit and decode back to it.
#[verifier::rlimit(100)]
pub proof fn lemma_pck_round_trip(v: PckView, rest: Seq<u8>)
    requires
        header_fits(v),
        strings_survive(v.strings),
    ensures
        parse_pck(header_bytes(v) + rest) == Ok::<_, crate::pck::PckError>(
            PckView { header_length: header_size_of(v) as u32, ..v },
        ),
{
    let buf = header_bytes(v) + rest;
    lemma_prefix_holds(header_bytes(v), rest);
    lemma_fixed_back(v, buf);
    lemma_string_region_back(v, buf);
    lemma_tables_back(v, buf);
    let n = v.strings.len();
    assert(28 + u32_at(buf, 12) == 32 + 8 * n + strings_size(v.strings));
    assert(u32_at(buf, 24) == external_size_of(v) as u32);
    assert(strings_from(buf, u32_at(buf, 28) as nat) == Ok::<_, crate::pck::PckError>(v.strings));
}

proof fn lemma_prefix_holds(x: Seq<u8>, rest: Seq<u8>)
    ensures
        holds_at(x + rest, 0, x),
{
    assert((x + rest).subrange(0, x.len() as int) =~= x);
}

} // verus!
