//! The package container: a header with a UTF-16 string table, two tables of
//! file entries and an opaque list of words, followed by the data area.
use vstd::prelude::*;

use crate::bytes::{
    push_all, push_u16_le, push_u32_le, read_u16_le, read_u32_le, u16_le, u16_le_bytes, u32_at,
    u32_le_bytes,
};
use crate::order::{is_key_order, key_before, key_order};

verus! {

/// Errors of the package codec.
#[derive(Debug, Clone, Copy, PartialEq, Eq, Structural)]
pub enum PckError {
    /// The input ended inside a field or a record.
    UnexpectedEof,
    /// The stream does not start with the package tag; holds the first four
    /// bytes read as a little-endian word.
    InvalidMagic(u32),
    /// A string of the string table is not valid UTF-16.
    InvalidString,
    /// The header is larger than its `u32` length fields can state.
    TooLarge,
}

/// Which table a file entry belongs to.
#[derive(Debug, Clone, Copy, PartialEq, Eq, Hash, Structural)]
pub enum FileType {
    Bnk,
    Wem,
}

/// A fixed 20-byte record of a file table. `offset` is the stored one, which
/// may not match the layout once entries change.
#[derive(Debug, Clone, Copy, PartialEq, Eq, Structural)]
pub struct PckFileEntry {
    pub id: u32,
    pub padding_block_size: u32,
    pub length: u32,
    pub offset: u32,
    pub language_id: u32,
}

/// One string of the string table.
#[derive(Debug, Clone)]
pub struct PckString {
    pub index: u32,
    pub value: String,
}

/// The package header. The data positions of the entries are derived from
/// the tables when they are needed, never taken from the stored offsets.
#[derive(Debug, Clone)]
pub struct PckHeader {
    pub header_length: u32,
    pub version: u32,
    pub string_table: Vec<PckString>,
    pub bnk_entries: Vec<PckFileEntry>,
    pub wem_entries: Vec<PckFileEntry>,
    pub external_entries: Vec<u32>,
}

/// A bounded view of one entry's bytes: `length` bytes from `start_pos`.
#[derive(Debug, Clone, Copy, PartialEq, Eq, Structural)]
pub struct PckFileReader {
    pub start_pos: u64,
    pub length: u32,
}

pub struct PckStringView {
    pub index: u32,
    pub value: Seq<char>,
}

pub struct PckView {
    pub header_length: u32,
    pub version: u32,
    pub strings: Seq<PckStringView>,
    pub bnk: Seq<PckFileEntry>,
    pub wem: Seq<PckFileEntry>,
    pub external: Seq<u32>,
}

impl View for PckString {
    type V = PckStringView;

    open spec fn view(&self) -> PckStringView {
        PckStringView { index: self.index, value: self.value@ }
    }
}

impl View for PckHeader {
    type V = PckView;

    open spec fn view(&self) -> PckView {
        PckView {
            header_length: self.header_length,
            version: self.version,
            strings: self.string_table@.map_values(|s: PckString| s@),
            bnk: self.bnk_entries@,
            wem: self.wem_entries@,
            external: self.external_entries@,
        }
    }
}

/// What `String::from_utf16` makes of a sequence of code units.
pub uninterp spec fn utf16_decoded(units: Seq<u16>) -> Option<Seq<char>>;

/// What `str::encode_utf16` makes of a string.
pub uninterp spec fn utf16_encoded(s: Seq<char>) -> Seq<u16>;

/// Relies on `String::from_utf16`: decodes UTF-16 code units, and fails on
/// unpaired surrogates.
#[verifier::external_body]
fn decode_utf16(units: &[u16]) -> (r: Option<String>)
    ensures
        match r {
            Some(s) => utf16_decoded(units@) == Some(s@),
            None => utf16_decoded(units@) is None,
        },
{
    String::from_utf16(units).ok()
}

/// Relies on `str::encode_utf16`: the UTF-16 code units of `s`.
#[verifier::external_body]
fn encode_utf16(s: &str) -> (r: Vec<u16>)
    ensures
        r@ == utf16_encoded(s@),
{
    s.encode_utf16().collect()
}

pub open spec fn tag_akpk() -> Seq<u8> {
    seq![0x41u8, 0x4bu8, 0x50u8, 0x4bu8]
}

/// The `u16` stored at `pos`.
pub open spec fn u16_at(input: Seq<u8>, pos: int) -> u16 {
    u16_le(input.subrange(pos, pos + 2)) as u16
}

/// The file entry stored in the twenty bytes at `pos`.
pub open spec fn file_entry_at(input: Seq<u8>, pos: int) -> PckFileEntry {
    PckFileEntry {
        id: u32_at(input, pos),
        padding_block_size: u32_at(input, pos + 4),
        length: u32_at(input, pos + 8),
        offset: u32_at(input, pos + 12),
        language_id: u32_at(input, pos + 16),
    }
}

/// The code units from `pos` up to the first zero unit, if one is there.
pub open spec fn units_at(input: Seq<u8>, pos: int) -> Option<Seq<u16>>
    decreases input.len() - pos,
{
    if pos < 0 || pos + 2 > input.len() {
        None
    } else if u16_at(input, pos) == 0 {
        Some(Seq::empty())
    } else {
        match units_at(input, pos + 2) {
            None => None,
            Some(rest) => Some(seq![u16_at(input, pos)] + rest),
        }
    }
}

/// The zero-terminated UTF-16 string at `pos`.
pub open spec fn string_at(input: Seq<u8>, pos: int) -> Result<Seq<char>, PckError> {
    match units_at(input, pos) {
        None => Err(PckError::UnexpectedEof),
        Some(units) => match utf16_decoded(units) {
            None => Err(PckError::InvalidString),
            Some(s) => Ok(s),
        },
    }
}

/// The first `k` strings of the table whose count field is at 28: each
/// directory record holds the string's offset from the count field and its
/// ordinal.
pub open spec fn strings_from(input: Seq<u8>, k: nat) -> Result<Seq<PckStringView>, PckError>
    decreases k,
{
    if k == 0 {
        Ok(Seq::empty())
    } else {
        match strings_from(input, (k - 1) as nat) {
            Err(e) => Err(e),
            Ok(done) => {
                let rec = 32 + 8 * (k - 1);
                match string_at(input, 28 + u32_at(input, rec)) {
                    Err(e) => Err(e),
                    Ok(value) => Ok(done.push(PckStringView { index: u32_at(input, rec + 4), value })),
                }
            },
        }
    }
}

/// The tables that follow the string table, from `p` on.
pub open spec fn tables_at(input: Seq<u8>, p: int, ext_len: u32) -> Result<
    (Seq<PckFileEntry>, Seq<PckFileEntry>, Seq<u32>),
    PckError,
> {
    if p + 4 > input.len() {
        Err(PckError::UnexpectedEof)
    } else {
        let nb = u32_at(input, p);
        let q = p + 4 + 20 * nb;
        if q + 4 > input.len() {
            Err(PckError::UnexpectedEof)
        } else {
            let nw = u32_at(input, q);
            let r = q + 4 + 20 * nw;
            let ne = ext_len / 4;
            if r + 4 * ne > input.len() {
                Err(PckError::UnexpectedEof)
            } else {
                Ok(
                    (
                        Seq::new(nb as nat, |i: int| file_entry_at(input, p + 4 + 20 * i)),
                        Seq::new(nw as nat, |i: int| file_entry_at(input, q + 4 + 20 * i)),
                        Seq::new(ne as nat, |i: int| u32_at(input, r + 4 * i)),
                    ),
                )
            }
        }
    }
}

/// What a package stream's header holds.
pub open spec fn parse_pck(input: Seq<u8>) -> Result<PckView, PckError> {
    if input.len() < 4 {
        Err(PckError::UnexpectedEof)
    } else if input.subrange(0, 4) != tag_akpk() {
        Err(PckError::InvalidMagic(u32_at(input, 0)))
    } else if input.len() < 32 {
        Err(PckError::UnexpectedEof)
    } else {
        let count = u32_at(input, 28);
        if 32 + 8 * count > input.len() {
            Err(PckError::UnexpectedEof)
        } else {
            match strings_from(input, count as nat) {
                Err(e) => Err(e),
                Ok(strings) => match tables_at(input, 28 + u32_at(input, 12), u32_at(input, 24)) {
                    Err(e) => Err(e),
                    Ok((bnk, wem, external)) => Ok(
                        PckView {
                            header_length: u32_at(input, 4),
                            version: u32_at(input, 8),
                            strings,
                            bnk,
                            wem,
                            external,
                        },
                    ),
                },
            }
        }
    }
}

/// Reads the code units from `pos` up to the first zero unit.
fn read_units(input: &[u8], pos: usize) -> (r: Option<Vec<u16>>)
    ensures
        match r {
            Some(u) => units_at(input@, pos as int) == Some(u@),
            None => units_at(input@, pos as int) is None,
        },
{
    let mut units: Vec<u16> = Vec::new();
    let mut p: usize = pos;
    let n = input.len();
    loop
        invariant
            n == input@.len(),
            units_at(input@, pos as int) == match units_at(input@, p as int) {
                None => None,
                Some(rest) => Some(units@ + rest),
            },
        decreases input@.len() - p,
    {
        let u = match read_u16_le(input, p) {
            Some(u) => u,
            None => {
                return None;
            },
        };
        assert(u == u16_at(input@, p as int));
        if u == 0 {
            assert(units@ + Seq::<u16>::empty() =~= units@);
            return Some(units);
        }
        let ghost before = units@;
        units.push(u);
        assert forall|rest: Seq<u16>| #[trigger] (before + (seq![u] + rest)) =~= units@ + rest by {}
        p = p + 2;
    }
}

proof fn lemma_strings_error_persists(input: Seq<u8>, k: nat, m: nat)
    requires
        k <= m,
        strings_from(input, k) is Err,
    ensures
        strings_from(input, m) == strings_from(input, k),
    decreases m - k,
{
    if k < m {
        lemma_strings_error_persists(input, k, (m - 1) as nat);
    }
}

/// Reads the `count` strings of the string table.
fn read_strings(input: &[u8], count: u32) -> (r: Result<Vec<PckString>, PckError>)
    requires
        32 + 8 * count <= input.len(),
    ensures
        match r {
            Ok(v) => strings_from(input@, count as nat) == Ok::<_, PckError>(
                v@.map_values(|s: PckString| s@),
            ),
            Err(e) => strings_from(input@, count as nat) == Err::<Seq<PckStringView>, _>(e),
        },
{
    let mut table: Vec<PckString> = Vec::new();
    let mut k: u32 = 0;
    assert(table@.map_values(|s: PckString| s@) =~= Seq::<PckStringView>::empty());
    while k < count
        invariant
            32 + 8 * count <= input.len(),
            k <= count,
            strings_from(input@, k as nat) == Ok::<_, PckError>(
                table@.map_values(|s: PckString| s@),
            ),
        decreases count - k,
    {
        let rec = 32 + 8 * k as usize;
        let offset = read_u32_le(input, rec).unwrap();
        let index = read_u32_le(input, rec + 4).unwrap();
        if offset as u64 + 28 > input.len() as u64 {
            proof {
                lemma_strings_error_persists(input@, (k + 1) as nat, count as nat);
            }
            return Err(PckError::UnexpectedEof);
        }
        let units = match read_units(input, 28 + offset as usize) {
            Some(u) => u,
            None => {
                proof {
                    lemma_strings_error_persists(input@, (k + 1) as nat, count as nat);
                }
                return Err(PckError::UnexpectedEof);
            },
        };
        let value = match decode_utf16(units.as_slice()) {
            Some(v) => v,
            None => {
                proof {
                    lemma_strings_error_persists(input@, (k + 1) as nat, count as nat);
                }
                return Err(PckError::InvalidString);
            },
        };
        let ghost before = table@;
        table.push(PckString { index, value });
        assert(table@.map_values(|s: PckString| s@) =~= before.map_values(|s: PckString| s@).push(
            table@.last()@,
        ));
        k = k + 1;
    }
    Ok(table)
}

/// Reads `n` file entries from `at`.
fn read_file_entries(input: &[u8], at: usize, n: u32) -> (r: Vec<PckFileEntry>)
    requires
        at + 20 * n <= input.len(),
    ensures
        r@ == Seq::new(n as nat, |i: int| file_entry_at(input@, at + 20 * i)),
{
    let mut entries: Vec<PckFileEntry> = Vec::new();
    let mut i: u32 = 0;
    while i < n
        invariant
            at + 20 * n <= input.len(),
            i <= n,
            entries@.len() == i,
            forall|j: int| 0 <= j < i ==> #[trigger] entries@[j] == file_entry_at(input@, at + 20 * j),
        decreases n - i,
    {
        let e = at + 20 * i as usize;
        let id = read_u32_le(input, e).unwrap();
        let padding_block_size = read_u32_le(input, e + 4).unwrap();
        let length = read_u32_le(input, e + 8).unwrap();
        let offset = read_u32_le(input, e + 12).unwrap();
        let language_id = read_u32_le(input, e + 16).unwrap();
        entries.push(PckFileEntry { id, padding_block_size, length, offset, language_id });
        i = i + 1;
    }
    assert(entries@ =~= Seq::new(n as nat, |i: int| file_entry_at(input@, at + 20 * i)));
    entries
}

impl PckHeader {
    /// Parses the header of a package stream. After the string table the
    /// cursor moves to the end of the declared string region, whatever the
    /// strings took.
    pub fn from_reader(input: &[u8]) -> (r: Result<PckHeader, PckError>)
        ensures
            parse_pck(input@) == match r {
                Ok(h) => Ok(h@),
                Err(e) => Err(e),
            },
    {
        if input.len() < 4 {
            return Err(PckError::UnexpectedEof);
        }
        let ghost m = input@.subrange(0, 4);
        if !(input[0] == 0x41 && input[1] == 0x4b && input[2] == 0x50 && input[3] == 0x4b) {
            assert(m != tag_akpk()) by {
                if m == tag_akpk() {
                    assert(m[0] == 0x41 && m[1] == 0x4b && m[2] == 0x50 && m[3] == 0x4b);
                }
            }
            return Err(PckError::InvalidMagic(read_u32_le(input, 0).unwrap()));
        }
        assert(m =~= tag_akpk());
        if input.len() < 32 {
            return Err(PckError::UnexpectedEof);
        }
        let header_length = read_u32_le(input, 4).unwrap();
        let version = read_u32_le(input, 8).unwrap();
        let language_length = read_u32_le(input, 12).unwrap();
        let external_length = read_u32_le(input, 24).unwrap();
        let count = read_u32_le(input, 28).unwrap();
        if count as u64 * 8 > (input.len() - 32) as u64 {
            return Err(PckError::UnexpectedEof);
        }
        let string_table = read_strings(input, count)?;
        if language_length as u64 + 28 > input.len() as u64 {
            return Err(PckError::UnexpectedEof);
        }
        let p = 28 + language_length as usize;
        let nb = match read_u32_le(input, p) {
            Some(v) => v,
            None => {
                return Err(PckError::UnexpectedEof);
            },
        };
        if nb as u64 * 20 > (input.len() - p - 4) as u64 {
            return Err(PckError::UnexpectedEof);
        }
        let q = p + 4 + 20 * nb as usize;
        let nw = match read_u32_le(input, q) {
            Some(v) => v,
            None => {
                return Err(PckError::UnexpectedEof);
            },
        };
        if nw as u64 * 20 > (input.len() - q - 4) as u64 {
            return Err(PckError::UnexpectedEof);
        }
        let r = q + 4 + 20 * nw as usize;
        let ne = external_length / 4;
        if ne as u64 * 4 > (input.len() - r) as u64 {
            return Err(PckError::UnexpectedEof);
        }
        let bnk_entries = read_file_entries(input, p + 4, nb);
        let wem_entries = read_file_entries(input, q + 4, nw);
        let mut external_entries: Vec<u32> = Vec::new();
        let mut i: u32 = 0;
        while i < ne
            invariant
                r + 4 * ne <= input.len(),
                i <= ne,
                external_entries@.len() == i,
                forall|j: int| 0 <= j < i ==> #[trigger] external_entries@[j] == u32_at(input@, r + 4 * j),
            decreases ne - i,
        {
            external_entries.push(read_u32_le(input, r + 4 * i as usize).unwrap());
            i = i + 1;
        }
        assert(external_entries@ =~= Seq::new(ne as nat, |i: int| u32_at(input@, r + 4 * i)));
        Ok(PckHeader { header_length, version, string_table, bnk_entries, wem_entries, external_entries })
    }
}

/// The bytes that a string takes in the string table: its UTF-16 code units
/// and a zero terminator.
pub open spec fn string_size(s: Seq<char>) -> int {
    2 * utf16_encoded(s).len() as int + 2
}

pub open spec fn strings_size(strings: Seq<PckStringView>) -> int
    decreases strings.len(),
{
    if strings.len() == 0 {
        0
    } else {
        strings_size(strings.drop_last()) + string_size(strings.last().value)
    }
}

/// The size of the string region: count, directory records and strings.
pub open spec fn language_size_of(v: PckView) -> int {
    4 + 8 * v.strings.len() + strings_size(v.strings)
}

pub open spec fn bnk_table_size_of(v: PckView) -> int {
    4 + 20 * v.bnk.len() as int
}

pub open spec fn wem_table_size_of(v: PckView) -> int {
    4 + 20 * v.wem.len() as int
}

pub open spec fn external_size_of(v: PckView) -> int {
    4 * v.external.len() as int
}

/// The header length that the header's length field states: the version and
/// four region lengths, then the regions.
pub open spec fn header_size_of(v: PckView) -> int {
    20 + language_size_of(v) + bnk_table_size_of(v) + wem_table_size_of(v) + external_size_of(v)
}

/// Where the data area starts: after the tag, the length field and the header.
pub open spec fn data_start_of(v: PckView) -> int {
    header_size_of(v) + 8
}

/// Whether the header's sizes fit in the format's `u32` fields.
pub open spec fn header_fits(v: PckView) -> bool {
    data_start_of(v) <= u32::MAX
}

pub proof fn lemma_strings_size_monotone(strings: Seq<PckStringView>, k: int)
    requires
        0 <= k <= strings.len(),
    ensures
        0 <= strings_size(strings.take(k)) <= strings_size(strings),
    decreases strings.len(),
{
    if k < strings.len() {
        assert(strings.drop_last().take(k) =~= strings.take(k));
        lemma_strings_size_monotone(strings.drop_last(), k);
    } else {
        assert(strings.take(k) =~= strings);
        if strings.len() > 0 {
            lemma_strings_size_monotone(strings.drop_last(), k - 1);
            assert(strings.drop_last().take(k - 1) =~= strings.drop_last());
        }
    }
}

proof fn lemma_strings_size_prefix(strings: Seq<PckStringView>, k: int)
    requires
        0 <= k <= strings.len(),
    ensures
        8 * k + strings_size(strings.take(k)) <= 8 * strings.len() + strings_size(strings),
    decreases strings.len(),
{
    if k < strings.len() {
        assert(strings.drop_last().take(k) =~= strings.take(k));
        lemma_strings_size_prefix(strings.drop_last(), k);
    } else {
        assert(strings.take(k) =~= strings);
    }
}

/// `pos` rounded up to a multiple of `alignment`, where `alignment` is above one.
pub open spec fn align_up(pos: int, alignment: int) -> int {
    if alignment > 1 && pos % alignment != 0 {
        pos + (alignment - pos % alignment)
    } else {
        pos
    }
}

/// The stored offsets of `es`.
pub open spec fn stored_offsets(es: Seq<PckFileEntry>) -> Seq<u32> {
    es.map_values(|e: PckFileEntry| e.offset)
}

/// `order` lists the positions of `es` as they lie on disk: by stored
/// offset, then by table position (bank entries before audio entries).
pub open spec fn is_layout_order(es: Seq<PckFileEntry>, order: Seq<usize>) -> bool {
    is_key_order(stored_offsets(es), order)
}

/// The cursor after placing the first `k` entries of `order` from `start`:
/// each entry starts at the cursor rounded up to its alignment and moves the
/// cursor past its length.
pub open spec fn cursor_after(es: Seq<PckFileEntry>, order: Seq<usize>, start: int, k: int) -> int
    decreases k,
{
    if k <= 0 {
        start
    } else {
        align_up(
            cursor_after(es, order, start, k - 1),
            es[order[k - 1] as int].padding_block_size as int,
        ) + es[order[k - 1] as int].length
    }
}

/// Where the `k`-th entry of `order` is placed.
pub open spec fn placed_at(es: Seq<PckFileEntry>, order: Seq<usize>, start: int, k: int) -> int {
    align_up(cursor_after(es, order, start, k), es[order[k] as int].padding_block_size as int)
}

/// Positions in table order (bank entries, then audio entries) that the
/// layout in `order` gives.
pub open spec fn positions_follow(
    es: Seq<PckFileEntry>,
    order: Seq<usize>,
    start: int,
    positions: Seq<u64>,
) -> bool {
    &&& positions.len() == es.len()
    &&& forall|k: int|
        0 <= k < es.len() ==> positions[#[trigger] order[k] as int] == placed_at(es, order, start, k)
}

proof fn lemma_cursor_monotone(es: Seq<PckFileEntry>, order: Seq<usize>, start: int, k: int, m: int)
    requires
        0 <= k <= m <= es.len(),
        is_layout_order(es, order),
    ensures
        cursor_after(es, order, start, k) <= cursor_after(es, order, start, m),
        k < m ==> placed_at(es, order, start, k) <= cursor_after(es, order, start, m),
    decreases m - k,
{
    if k < m {
        lemma_cursor_monotone(es, order, start, k + 1, m);
        let c = cursor_after(es, order, start, k);
        let a = es[order[k] as int].padding_block_size as int;
        if a > 1 && c % a != 0 {
            assert(c % a < a) by {
                vstd::arithmetic::div_mod::lemma_mod_bound(c, a);
            }
        }
    }
}

impl PckHeader {
    /// The size of the string region, where it fits in a `u32`.
    pub fn language_size(&self) -> (r: Option<u32>)
        ensures
            match r {
                Some(n) => language_size_of(self@) <= u32::MAX && n == language_size_of(self@),
                None => language_size_of(self@) > u32::MAX,
            },
    {
        let ghost strings = self@.strings;
        let mut total: u64 = 4;
        let mut i: usize = 0;
        while i < self.string_table.len()
            invariant
                strings == self@.strings,
                strings.len() == self.string_table@.len(),
                i <= strings.len(),
                total == 4 + 8 * i + strings_size(strings.take(i as int)),
                total <= u32::MAX,
            decreases strings.len() - i,
        {
            assert(strings.take(i + 1).drop_last() =~= strings.take(i as int));
            assert(strings[i as int] == self.string_table@[i as int]@);
            let units = encode_utf16(self.string_table[i].value.as_str());
            if units.len() as u64 > u32::MAX as u64 || total + 8 + 2 * units.len() as u64 + 2
                > u32::MAX as u64 {
                proof {
                    lemma_strings_size_prefix(strings, i + 1);
                }
                return None;
            }
            total = total + 8 + 2 * units.len() as u64 + 2;
            i = i + 1;
        }
        assert(strings.take(i as int) =~= strings);
        Some(total as u32)
    }

    /// The size of the bank-entry table, where it fits in a `u32`.
    pub fn bnk_table_size(&self) -> (r: Option<u32>)
        ensures
            match r {
                Some(n) => n == bnk_table_size_of(self@),
                None => bnk_table_size_of(self@) > u32::MAX,
            },
    {
        if self.bnk_entries.len() as u64 > (u32::MAX as u64 - 4) / 20 {
            return None;
        }
        Some(4 + 20 * self.bnk_entries.len() as u32)
    }

    /// The size of the audio-entry table, where it fits in a `u32`.
    pub fn wem_table_size(&self) -> (r: Option<u32>)
        ensures
            match r {
                Some(n) => n == wem_table_size_of(self@),
                None => wem_table_size_of(self@) > u32::MAX,
            },
    {
        if self.wem_entries.len() as u64 > (u32::MAX as u64 - 4) / 20 {
            return None;
        }
        Some(4 + 20 * self.wem_entries.len() as u32)
    }

    /// The size of the trailing word list, where it fits in a `u32`.
    pub fn external_entries_size(&self) -> (r: Option<u32>)
        ensures
            match r {
                Some(n) => n == external_size_of(self@),
                None => external_size_of(self@) > u32::MAX,
            },
    {
        if self.external_entries.len() as u64 > u32::MAX as u64 / 4 {
            return None;
        }
        Some(4 * self.external_entries.len() as u32)
    }

    /// The header length, where the data start still fits in a `u32`.
    pub fn header_size(&self) -> (r: Option<u32>)
        ensures
            match r {
                Some(n) => header_fits(self@) && n == header_size_of(self@),
                None => !header_fits(self@),
            },
    {
        let l = self.language_size()?;
        let b = self.bnk_table_size()?;
        let w = self.wem_table_size()?;
        let e = self.external_entries_size()?;
        let total: u64 = 20 + l as u64 + b as u64 + w as u64 + e as u64;
        if total + 8 > u32::MAX as u64 {
            return None;
        }
        Some(total as u32)
    }

    /// Where the data area starts, where it fits in a `u32`.
    pub fn get_data_offset_start(&self) -> (r: Option<u32>)
        ensures
            match r {
                Some(n) => header_fits(self@) && n == data_start_of(self@),
                None => !header_fits(self@),
            },
    {
        let h = self.header_size()?;
        Some(h + 8)
    }

    /// The bank entries followed by the audio entries.
    pub fn all_entries(&self) -> (r: Vec<PckFileEntry>)
        ensures
            r@ == self@.bnk + self@.wem,
    {
        let mut all: Vec<PckFileEntry> = Vec::new();
        let mut i: usize = 0;
        while i < self.bnk_entries.len()
            invariant
                i <= self.bnk_entries@.len(),
                all@ == self.bnk_entries@.take(i as int),
            decreases self.bnk_entries@.len() - i,
        {
            all.push(self.bnk_entries[i]);
            i = i + 1;
            assert(all@ =~= self.bnk_entries@.take(i as int));
        }
        let mut j: usize = 0;
        while j < self.wem_entries.len()
            invariant
                i == self.bnk_entries@.len(),
                j <= self.wem_entries@.len(),
                all@ == self.bnk_entries@ + self.wem_entries@.take(j as int),
            decreases self.wem_entries@.len() - j,
        {
            assert(self.bnk_entries@.take(i as int) =~= self.bnk_entries@);
            all.push(self.wem_entries[j]);
            j = j + 1;
            assert(all@ =~= self.bnk_entries@ + self.wem_entries@.take(j as int));
        }
        assert(self.bnk_entries@.take(i as int) =~= self.bnk_entries@);
        assert(self.wem_entries@.take(j as int) =~= self.wem_entries@);
        all
    }

    /// Derives the true data positions of all entries, in table order (bank
    /// entries, then audio entries): the entries are laid out by stored offset
    /// from the data start, each rounded up to its alignment. `None` where the
    /// header does not fit its fields or a position would pass `u64::MAX`.
    pub fn calculate_file_positions(&self) -> (r: Option<Vec<u64>>)
        ensures
            ({
                let es = self@.bnk + self@.wem;
                match r {
                    Some(positions) => header_fits(self@) && positions@.len() == es.len() && exists|order: Seq<usize>|
                        is_layout_order(es, order) && positions_follow(
                            es,
                            order,
                            data_start_of(self@),
                            positions@,
                        ),
                    None => !header_fits(self@) || exists|order: Seq<usize>|
                        is_layout_order(es, order) && cursor_after(
                            es,
                            order,
                            data_start_of(self@),
                            es.len() as int,
                        ) > u64::MAX,
                }
            }),
    {
        let start = self.get_data_offset_start()?;
        let all = self.all_entries();
        let mut offsets: Vec<u32> = Vec::new();
        let mut i: usize = 0;
        while i < all.len()
            invariant
                i <= all@.len(),
                offsets@ == stored_offsets(all@).take(i as int),
            decreases all@.len() - i,
        {
            offsets.push(all[i].offset);
            i = i + 1;
            assert(offsets@ =~= stored_offsets(all@).take(i as int));
        }
        assert(offsets@ =~= stored_offsets(all@));
        let order = key_order(&offsets);
        let r = place_entries(&all, &order, start as u64);
        match &r {
            Some(positions) => {
                assert(is_layout_order(all@, order@) && positions_follow(
                    all@,
                    order@,
                    data_start_of(self@),
                    positions@,
                ));
            },
            None => {
                assert(is_layout_order(all@, order@) && cursor_after(
                    all@,
                    order@,
                    data_start_of(self@),
                    all@.len() as int,
                ) > u64::MAX);
            },
        }
        r
    }
}

/// Places the entries in `order` from `start`; the positions are in table
/// order. `None` where a position would pass `u64::MAX`.
#[verifier::rlimit(40)]
fn place_entries(all: &Vec<PckFileEntry>, order: &Vec<usize>, start: u64) -> (r: Option<Vec<u64>>)
    requires
        is_layout_order(all@, order@),
    ensures
        match r {
            Some(positions) => positions_follow(all@, order@, start as int, positions@),
            None => cursor_after(all@, order@, start as int, all@.len() as int) > u64::MAX,
        },
{
    let ghost es = all@;
    let ghost st = start as int;
    let mut positions: Vec<u64> = Vec::new();
    let mut n: usize = 0;
    while n < all.len()
        invariant
            n <= all@.len(),
            positions@.len() == n,
        decreases all@.len() - n,
    {
        positions.push(0);
        n = n + 1;
    }
    let mut cur: u64 = start;
    let mut k: usize = 0;
    while k < order.len()
        invariant
            es == all@,
            st == start,
            is_layout_order(es, order@),
            k <= es.len(),
            positions@.len() == es.len(),
            cur == cursor_after(es, order@, st, k as int),
            forall|i: int| 0 <= i < k ==> positions@[#[trigger] order@[i] as int] == placed_at(es, order@, st, i),
        decreases es.len() - k,
    {
        let e = all[order[k]];
        let a = e.padding_block_size as u64;
        let mut at = cur;
        if a > 1 && cur % a != 0 {
            if a - cur % a > u64::MAX - cur {
                proof {
                    lemma_cursor_monotone(es, order@, st, k as int, es.len() as int);
                }
                return None;
            }
            at = cur + (a - cur % a);
        }
        assert(at == placed_at(es, order@, st, k as int));
        if e.length as u64 > u64::MAX - at {
            proof {
                lemma_cursor_monotone(es, order@, st, (k + 1) as int, es.len() as int);
            }
            return None;
        }
        let ghost before = positions@;
        positions.set(order[k], at);
        assert forall|i: int| 0 <= i < k + 1 implies positions@[#[trigger] order@[i] as int] == placed_at(es, order@, st, i) by {
            if i < k {
                assert(order@[i] != order@[k as int]) by {
                    assert(key_before(stored_offsets(es), order@[i] as int, order@[k as int] as int));
                }
            }
        }
        cur = at + e.length as u64;
        k = k + 1;
    }
    Some(positions)
}

/// Whether `positions`, in table order, are the derived data positions of the
/// entries of `v`.
pub open spec fn derived_positions(v: PckView, positions: Seq<u64>) -> bool {
    header_fits(v) && exists|order: Seq<usize>|
        is_layout_order(v.bnk + v.wem, order) && positions_follow(
            v.bnk + v.wem,
            order,
            data_start_of(v),
            positions,
        )
}

/// Whether the header's sizes or the derived layout pass their limits.
pub open spec fn layout_overflows(v: PckView) -> bool {
    !header_fits(v) || exists|order: Seq<usize>|
        is_layout_order(v.bnk + v.wem, order) && cursor_after(
            v.bnk + v.wem,
            order,
            data_start_of(v),
            (v.bnk.len() + v.wem.len()) as int,
        ) > u64::MAX
}

impl PckFileReader {
    pub fn new(entry: &PckFileEntry, start_pos: u64) -> (r: PckFileReader)
        ensures
            r.start_pos == start_pos,
            r.length == entry.length,
    {
        PckFileReader { start_pos, length: entry.length }
    }

    /// The entry's bytes in `input`; fewer where `input` ends first.
    pub fn read_from(&self, input: &[u8]) -> (r: Vec<u8>)
        ensures
            ({
                let lo = if self.start_pos <= input@.len() { self.start_pos as int } else { input@.len() as int };
                let end = self.start_pos + self.length;
                let hi = if end <= input@.len() { end } else { input@.len() as int };
                r@ == input@.subrange(lo, hi)
            }),
    {
        let n = input.len() as u64;
        let lo: u64 = if self.start_pos <= n { self.start_pos } else { n };
        let rest = n - lo;
        let take: u64 = if (self.length as u64) < rest { self.length as u64 } else { rest };
        crate::bytes::read_bytes(input, lo as usize, take as usize).unwrap()
    }
}

impl PckHeader {
    /// A reader over the audio entry at `index`, starting at its derived
    /// position. `None` where there is no such entry or no layout.
    pub fn wem_reader(&self, index: usize) -> (r: Option<PckFileReader>)
        ensures
            match r {
                Some(rd) => index < self@.wem.len() && rd.length == self@.wem[index as int].length
                    && exists|p: Seq<u64>|
                    derived_positions(self@, p) && rd.start_pos == p[self@.bnk.len() + index],
                None => index >= self@.wem.len() || layout_overflows(self@),
            },
    {
        if index >= self.wem_entries.len() {
            return None;
        }
        let positions = match self.calculate_file_positions() {
            Some(p) => p,
            None => {
                return None;
            },
        };
        let total = positions.len();
        assert(self.bnk_entries@.len() + index < total);
        let at = self.bnk_entries.len() + index;
        let rd = PckFileReader::new(&self.wem_entries[index], positions[at]);
        assert(derived_positions(self@, positions@));
        Some(rd)
    }

    /// A reader over the bank entry at `index`, starting at its derived
    /// position. `None` where there is no such entry or no layout.
    pub fn bnk_reader(&self, index: usize) -> (r: Option<PckFileReader>)
        ensures
            match r {
                Some(rd) => index < self@.bnk.len() && rd.length == self@.bnk[index as int].length
                    && exists|p: Seq<u64>| derived_positions(self@, p) && rd.start_pos == p[index as int],
                None => index >= self@.bnk.len() || layout_overflows(self@),
            },
    {
        if index >= self.bnk_entries.len() {
            return None;
        }
        let positions = match self.calculate_file_positions() {
            Some(p) => p,
            None => {
                return None;
            },
        };
        let rd = PckFileReader::new(&self.bnk_entries[index], positions[index]);
        assert(derived_positions(self@, positions@));
        Some(rd)
    }
}

/// The little-endian bytes of `units`.
pub open spec fn units_bytes(units: Seq<u16>) -> Seq<u8>
    decreases units.len(),
{
    if units.len() == 0 {
        Seq::empty()
    } else {
        units_bytes(units.drop_last()) + u16_le_bytes(units.last())
    }
}

/// A string as stored: its UTF-16 code units and a zero terminator.
pub open spec fn string_bytes(s: Seq<char>) -> Seq<u8> {
    units_bytes(utf16_encoded(s)) + seq![0u8, 0u8]
}

/// The stored strings, one after another.
pub open spec fn strings_data(strings: Seq<PckStringView>) -> Seq<u8>
    decreases strings.len(),
{
    if strings.len() == 0 {
        Seq::empty()
    } else {
        strings_data(strings.drop_last()) + string_bytes(strings.last().value)
    }
}

/// The directory records of the first `k` strings: each string's offset from
/// the count field, then its ordinal.
pub open spec fn string_dir(strings: Seq<PckStringView>, k: int) -> Seq<u8>
    decreases k,
{
    if k <= 0 {
        Seq::empty()
    } else {
        string_dir(strings, k - 1) + u32_le_bytes(
            (4 + 8 * strings.len() + strings_size(strings.take(k - 1))) as u32,
        ) + u32_le_bytes(strings[k - 1].index)
    }
}

/// The twenty bytes of a file entry.
pub open spec fn file_entry_bytes(e: PckFileEntry) -> Seq<u8> {
    u32_le_bytes(e.id) + u32_le_bytes(e.padding_block_size) + u32_le_bytes(e.length)
        + u32_le_bytes(e.offset) + u32_le_bytes(e.language_id)
}

pub open spec fn file_entries_bytes(es: Seq<PckFileEntry>) -> Seq<u8>
    decreases es.len(),
{
    if es.len() == 0 {
        Seq::empty()
    } else {
        file_entries_bytes(es.drop_last()) + file_entry_bytes(es.last())
    }
}

pub open spec fn words_bytes(ws: Seq<u32>) -> Seq<u8>
    decreases ws.len(),
{
    if ws.len() == 0 {
        Seq::empty()
    } else {
        words_bytes(ws.drop_last()) + u32_le_bytes(ws.last())
    }
}

/// The bytes of a package header: the tag, the header length and the region
/// lengths computed from the tables, then the string table, the two entry
/// tables and the trailing words.
pub open spec fn header_bytes(v: PckView) -> Seq<u8> {
    tag_akpk() + u32_le_bytes(header_size_of(v) as u32) + u32_le_bytes(v.version) + u32_le_bytes(
        language_size_of(v) as u32,
    ) + u32_le_bytes(bnk_table_size_of(v) as u32) + u32_le_bytes(wem_table_size_of(v) as u32)
        + u32_le_bytes(external_size_of(v) as u32) + u32_le_bytes(v.strings.len() as u32)
        + string_dir(v.strings, v.strings.len() as int) + strings_data(v.strings) + u32_le_bytes(
        v.bnk.len() as u32,
    ) + file_entries_bytes(v.bnk) + u32_le_bytes(v.wem.len() as u32) + file_entries_bytes(v.wem)
        + words_bytes(v.external)
}

pub proof fn lemma_units_bytes_len(units: Seq<u16>)
    ensures
        units_bytes(units).len() == 2 * units.len(),
    decreases units.len(),
{
    if units.len() > 0 {
        lemma_units_bytes_len(units.drop_last());
    }
}

/// Appends the stored form of `units`.
fn push_units(out: &mut Vec<u8>, units: &Vec<u16>)
    ensures
        final(out)@ == old(out)@ + units_bytes(units@) + seq![0u8, 0u8],
{
    let mut i: usize = 0;
    while i < units.len()
        invariant
            i <= units@.len(),
            out@ == old(out)@ + units_bytes(units@.take(i as int)),
        decreases units@.len() - i,
    {
        assert(units@.take(i + 1).drop_last() =~= units@.take(i as int));
        push_u16_le(out, units[i]);
        i = i + 1;
        assert(out@ =~= old(out)@ + units_bytes(units@.take(i as int)));
    }
    assert(units@.take(i as int) =~= units@);
    out.push(0);
    out.push(0);
    assert(out@ =~= old(out)@ + units_bytes(units@) + seq![0u8, 0u8]);
}

/// Appends the stored form of `es`.
fn push_file_entries(out: &mut Vec<u8>, es: &Vec<PckFileEntry>)
    ensures
        final(out)@ == old(out)@ + file_entries_bytes(es@),
{
    let mut i: usize = 0;
    while i < es.len()
        invariant
            i <= es@.len(),
            out@ == old(out)@ + file_entries_bytes(es@.take(i as int)),
        decreases es@.len() - i,
    {
        assert(es@.take(i + 1).drop_last() =~= es@.take(i as int));
        let e = es[i];
        push_u32_le(out, e.id);
        push_u32_le(out, e.padding_block_size);
        push_u32_le(out, e.length);
        push_u32_le(out, e.offset);
        push_u32_le(out, e.language_id);
        i = i + 1;
        assert(out@ =~= old(out)@ + file_entries_bytes(es@.take(i as int)));
    }
    assert(es@.take(i as int) =~= es@);
}

/// The string region: count, directory records and strings.
fn string_table_bytes(table: &Vec<PckString>) -> (r: Vec<u8>)
    requires
        4 + 8 * table@.len() + strings_size(table@.map_values(|s: PckString| s@)) <= u32::MAX,
    ensures
        ({
            let strings = table@.map_values(|s: PckString| s@);
            r@ == u32_le_bytes(strings.len() as u32) + string_dir(strings, strings.len() as int)
                + strings_data(strings)
        }),
{
    let ghost strings = table@.map_values(|s: PckString| s@);
    let mut out: Vec<u8> = Vec::new();
    let n = table.len();
    push_u32_le(&mut out, n as u32);
    let ghost prefix = out@;
    let mut encoded: Vec<Vec<u16>> = Vec::new();
    proof {
        lemma_strings_size_monotone(strings, 0);
        assert(strings.take(0) =~= Seq::<PckStringView>::empty());
    }
    let mut offset: u64 = 4 + 8 * n as u64;
    let mut i: usize = 0;
    while i < n
        invariant
            strings == table@.map_values(|s: PckString| s@),
            n == strings.len(),
            4 + 8 * n + strings_size(strings) <= u32::MAX,
            i <= n,
            encoded@.len() == i,
            forall|j: int| 0 <= j < i ==> (#[trigger] encoded@[j])@ == utf16_encoded(strings[j].value),
            offset == 4 + 8 * n + strings_size(strings.take(i as int)),
            out@ == prefix + string_dir(strings, i as int),
        decreases n - i,
    {
        assert(strings.take(i + 1).drop_last() =~= strings.take(i as int));
        assert(strings[i as int] == table@[i as int]@);
        proof {
            lemma_strings_size_monotone(strings, i + 1);
        }
        let units = encode_utf16(table[i].value.as_str());
        push_u32_le(&mut out, offset as u32);
        push_u32_le(&mut out, table[i].index);
        assert(out@ =~= prefix + string_dir(strings, i + 1));
        offset = offset + 2 * units.len() as u64 + 2;
        encoded.push(units);
        i = i + 1;
    }
    let ghost dir = out@;
    let mut j: usize = 0;
    while j < n
        invariant
            n == strings.len(),
            encoded@.len() == n,
            forall|k: int| 0 <= k < n ==> (#[trigger] encoded@[k])@ == utf16_encoded(strings[k].value),
            j <= n,
            out@ == dir + strings_data(strings.take(j as int)),
        decreases n - j,
    {
        assert(strings.take(j + 1).drop_last() =~= strings.take(j as int));
        assert(encoded@[j as int]@ == utf16_encoded(strings[j as int].value));
        push_units(&mut out, &encoded[j]);
        j = j + 1;
        assert(out@ =~= dir + strings_data(strings.take(j as int)));
    }
    assert(strings.take(n as int) =~= strings);
    out
}

impl PckHeader {
    /// Writes the header. The length fields are computed from the tables;
    /// the stored `header_length` is not used. Fails with `TooLarge` where the
    /// sizes do not fit their `u32` fields.
    #[verifier::rlimit(40)]
    pub fn write_to(&self) -> (r: Result<Vec<u8>, PckError>)
        ensures
            match r {
                Ok(b) => header_fits(self@) && b@ == header_bytes(self@),
                Err(e) => !header_fits(self@) && e == PckError::TooLarge,
            },
    {
        let header_size = match self.header_size() {
            Some(h) => h,
            None => {
                return Err(PckError::TooLarge);
            },
        };
        let language_size = self.language_size().unwrap();
        let bnk_size = self.bnk_table_size().unwrap();
        let wem_size = self.wem_table_size().unwrap();
        let ext_size = self.external_entries_size().unwrap();
        let mut out: Vec<u8> = Vec::new();
        out.push(0x41);
        out.push(0x4b);
        out.push(0x50);
        out.push(0x4b);
        assert(out@ =~= tag_akpk());
        push_u32_le(&mut out, header_size);
        push_u32_le(&mut out, self.version);
        push_u32_le(&mut out, language_size);
        push_u32_le(&mut out, bnk_size);
        push_u32_le(&mut out, wem_size);
        push_u32_le(&mut out, ext_size);
        let ghost fixed = out@;
        let table = string_table_bytes(&self.string_table);
        push_all(&mut out, table.as_slice());
        let ghost strings = self@.strings;
        assert(out@ =~= fixed + u32_le_bytes(strings.len() as u32) + string_dir(
            strings,
            strings.len() as int,
        ) + strings_data(strings));
        push_u32_le(&mut out, self.bnk_entries.len() as u32);
        push_file_entries(&mut out, &self.bnk_entries);
        push_u32_le(&mut out, self.wem_entries.len() as u32);
        push_file_entries(&mut out, &self.wem_entries);
        let ghost tables = out@;
        let mut k: usize = 0;
        while k < self.external_entries.len()
            invariant
                k <= self.external_entries@.len(),
                out@ == tables + words_bytes(self.external_entries@.take(k as int)),
            decreases self.external_entries@.len() - k,
        {
            assert(self.external_entries@.take(k + 1).drop_last() =~= self.external_entries@.take(k as int));
            push_u32_le(&mut out, self.external_entries[k]);
            k = k + 1;
            assert(out@ =~= tables + words_bytes(self.external_entries@.take(k as int)));
        }
        assert(self.external_entries@.take(k as int) =~= self.external_entries@);
        assert(out@ =~= header_bytes(self@));
        Ok(out)
    }
}

} // verus!
