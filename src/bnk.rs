//! The sound-bank container: an ordered list of tagged, length-prefixed sections.
use vstd::prelude::*;

use crate::bytes::{push_all, push_u32_le, put_at, read_bytes, read_u32_le, u32_at, u32_le_bytes, write_at};

verus! {

/// Errors of the bank codec.
#[derive(Debug, Clone, Copy, PartialEq, Eq, Structural)]
pub enum BnkError {
    /// The input ended inside a field or a record.
    UnexpectedEof,
    /// A DATA section came before any DIDX section.
    MissingDidx,
    /// A header or hierarchy record declares a length shorter than its fixed fields.
    BadLength,
    /// A DATA section holds more blobs than the index before it has entries.
    EntryCountMismatch,
    /// A write position would not fit in `usize`.
    TooLarge,
}

/// One entry of the index section: where a blob lies relative to the start of
/// the data section's body.
#[derive(Debug, Clone, Copy, PartialEq, Eq, Structural)]
pub struct DidxEntry {
    pub id: u32,
    pub offset: u32,
    pub length: u32,
}

/// One record of the hierarchy section. `length` covers `id` and `data`.
#[derive(Debug, Clone)]
pub struct HircEntry {
    pub type_id: u8,
    pub length: u32,
    pub id: u32,
    pub data: Vec<u8>,
}

#[derive(Debug, Clone)]
pub enum SectionPayload {
    Bkhd { version: u32, id: u32, unknown: Vec<u8> },
    Didx { entries: Vec<DidxEntry> },
    Hirc { entries: Vec<HircEntry> },
    Data { data_list: Vec<Vec<u8>> },
    Unk { data: Vec<u8> },
}

#[derive(Debug, Clone)]
pub struct Section {
    pub magic: [u8; 4],
    pub section_length: u32,
    pub payload: SectionPayload,
}

#[derive(Debug, Clone)]
pub struct Bnk {
    pub sections: Vec<Section>,
}

pub struct HircView {
    pub type_id: u8,
    pub length: u32,
    pub id: u32,
    pub data: Seq<u8>,
}

pub enum PayloadView {
    Bkhd { version: u32, id: u32, unknown: Seq<u8> },
    Didx { entries: Seq<DidxEntry> },
    Hirc { entries: Seq<HircView> },
    Data { data_list: Seq<Seq<u8>> },
    Unk { data: Seq<u8> },
}

pub struct SectionView {
    pub magic: Seq<u8>,
    pub section_length: u32,
    pub payload: PayloadView,
}

impl View for HircEntry {
    type V = HircView;

    open spec fn view(&self) -> HircView {
        HircView { type_id: self.type_id, length: self.length, id: self.id, data: self.data@ }
    }
}

impl View for SectionPayload {
    type V = PayloadView;

    open spec fn view(&self) -> PayloadView {
        match self {
            SectionPayload::Bkhd { version, id, unknown } => PayloadView::Bkhd {
                version: *version,
                id: *id,
                unknown: unknown@,
            },
            SectionPayload::Didx { entries } => PayloadView::Didx { entries: entries@ },
            SectionPayload::Hirc { entries } => PayloadView::Hirc {
                entries: entries@.map_values(|e: HircEntry| e@),
            },
            SectionPayload::Data { data_list } => PayloadView::Data {
                data_list: data_list@.map_values(|d: Vec<u8>| d@),
            },
            SectionPayload::Unk { data } => PayloadView::Unk { data: data@ },
        }
    }
}

impl View for Section {
    type V = SectionView;

    open spec fn view(&self) -> SectionView {
        SectionView {
            magic: self.magic@,
            section_length: self.section_length,
            payload: self.payload@,
        }
    }
}

impl View for Bnk {
    type V = Seq<SectionView>;

    open spec fn view(&self) -> Seq<SectionView> {
        self.sections@.map_values(|s: Section| s@)
    }
}

pub open spec fn tag_bkhd() -> Seq<u8> {
    seq![0x42u8, 0x4bu8, 0x48u8, 0x44u8]
}

pub open spec fn tag_didx() -> Seq<u8> {
    seq![0x44u8, 0x49u8, 0x44u8, 0x58u8]
}

pub open spec fn tag_hirc() -> Seq<u8> {
    seq![0x48u8, 0x49u8, 0x52u8, 0x43u8]
}

pub open spec fn tag_data() -> Seq<u8> {
    seq![0x44u8, 0x41u8, 0x54u8, 0x41u8]
}

/// The entries of the last index section among `secs`.
pub open spec fn last_didx(secs: Seq<SectionView>) -> Option<Seq<DidxEntry>>
    decreases secs.len(),
{
    if secs.len() == 0 {
        None
    } else {
        match secs.last().payload {
            PayloadView::Didx { entries } => Some(entries),
            _ => last_didx(secs.drop_last()),
        }
    }
}

/// The index entry stored in the twelve bytes at `pos`.
pub open spec fn didx_entry_at(input: Seq<u8>, pos: int) -> DidxEntry {
    DidxEntry {
        id: u32_at(input, pos),
        offset: u32_at(input, pos + 4),
        length: u32_at(input, pos + 8),
    }
}

/// The hierarchy record at `pos`, and the position after it.
pub open spec fn parse_hirc_entry(input: Seq<u8>, pos: int) -> Result<(HircView, int), BnkError> {
    if pos + 9 > input.len() {
        Err(BnkError::UnexpectedEof)
    } else {
        let length = u32_at(input, pos + 1);
        if length < 4 {
            Err(BnkError::BadLength)
        } else if pos + 5 + length > input.len() {
            Err(BnkError::UnexpectedEof)
        } else {
            Ok(
                (
                    HircView {
                        type_id: input[pos],
                        length,
                        id: u32_at(input, pos + 5),
                        data: input.subrange(pos + 9, pos + 5 + length),
                    },
                    pos + 5 + length,
                ),
            )
        }
    }
}

/// `count` hierarchy records read one after another from `pos`.
pub open spec fn parse_hirc_entries(input: Seq<u8>, pos: int, count: nat) -> Result<
    (Seq<HircView>, int),
    BnkError,
>
    decreases count,
{
    if count == 0 {
        Ok((Seq::empty(), pos))
    } else {
        match parse_hirc_entries(input, pos, (count - 1) as nat) {
            Err(e) => Err(e),
            Ok((entries, p)) => match parse_hirc_entry(input, p) {
                Err(e) => Err(e),
                Ok((entry, q)) => Ok((entries.push(entry), q)),
            },
        }
    }
}

/// Whether every blob that `entries` locate relative to `body` lies inside `input`.
pub open spec fn blobs_in_input(input: Seq<u8>, body: int, entries: Seq<DidxEntry>) -> bool {
    forall|i: int|
        0 <= i < entries.len() ==> body + (#[trigger] entries[i]).offset + entries[i].length
            <= input.len()
}

/// The blobs that `entries` locate relative to `body`.
pub open spec fn blobs_at(input: Seq<u8>, body: int, entries: Seq<DidxEntry>) -> Seq<Seq<u8>> {
    Seq::new(
        entries.len(),
        |i: int|
            input.subrange(
                body + entries[i].offset,
                body + entries[i].offset + entries[i].length,
            ),
    )
}

/// The section at `pos`, given the sections before it, and the position of the
/// next one.
pub open spec fn parse_section(input: Seq<u8>, pos: int, prior: Seq<SectionView>) -> Result<
    (SectionView, int),
    BnkError,
> {
    if pos + 8 > input.len() {
        Err(BnkError::UnexpectedEof)
    } else {
        let magic = input.subrange(pos, pos + 4);
        let len = u32_at(input, pos + 4);
        let body = pos + 8;
        if magic == tag_data() {
            match last_didx(prior) {
                None => Err(BnkError::MissingDidx),
                Some(entries) => if blobs_in_input(input, body, entries) {
                    Ok(
                        (
                            SectionView {
                                magic,
                                section_length: len,
                                payload: PayloadView::Data {
                                    data_list: blobs_at(input, body, entries),
                                },
                            },
                            body + len,
                        ),
                    )
                } else {
                    Err(BnkError::UnexpectedEof)
                },
            }
        } else if magic == tag_bkhd() {
            if len < 8 {
                Err(BnkError::BadLength)
            } else if body + len > input.len() {
                Err(BnkError::UnexpectedEof)
            } else {
                Ok(
                    (
                        SectionView {
                            magic,
                            section_length: len,
                            payload: PayloadView::Bkhd {
                                version: u32_at(input, body),
                                id: u32_at(input, body + 4),
                                unknown: input.subrange(body + 8, body + len),
                            },
                        },
                        body + len,
                    ),
                )
            }
        } else if magic == tag_didx() {
            let n = len / 12;
            if body + 12 * n > input.len() {
                Err(BnkError::UnexpectedEof)
            } else {
                Ok(
                    (
                        SectionView {
                            magic,
                            section_length: len,
                            payload: PayloadView::Didx {
                                entries: Seq::new(
                                    n as nat,
                                    |i: int| didx_entry_at(input, body + 12 * i),
                                ),
                            },
                        },
                        body + 12 * n,
                    ),
                )
            }
        } else if magic == tag_hirc() {
            if body + 4 > input.len() {
                Err(BnkError::UnexpectedEof)
            } else {
                match parse_hirc_entries(input, body + 4, u32_at(input, body) as nat) {
                    Err(e) => Err(e),
                    Ok((entries, end)) => Ok(
                        (
                            SectionView {
                                magic,
                                section_length: len,
                                payload: PayloadView::Hirc { entries },
                            },
                            end,
                        ),
                    ),
                }
            }
        } else {
            if body + len > input.len() {
                Err(BnkError::UnexpectedEof)
            } else {
                Ok(
                    (
                        SectionView {
                            magic,
                            section_length: len,
                            payload: PayloadView::Unk { data: input.subrange(body, body + len) },
                        },
                        body + len,
                    ),
                )
            }
        }
    }
}

/// The sections read from `pos` on, after `acc`. Fewer than four bytes left
/// end the stream.
pub open spec fn parse_sections_from(input: Seq<u8>, pos: int, acc: Seq<SectionView>) -> Result<
    Seq<SectionView>,
    BnkError,
>
    decreases input.len() - pos,
{
    if pos < 0 || pos + 4 > input.len() {
        Ok(acc)
    } else {
        match parse_section(input, pos, acc) {
            Err(e) => Err(e),
            Ok((s, next)) => if pos < next <= input.len() {
                parse_sections_from(input, next, acc.push(s))
            } else {
                Ok(acc.push(s))
            },
        }
    }
}

/// What a bank stream holds.
pub open spec fn parse_bank(input: Seq<u8>) -> Result<Seq<SectionView>, BnkError> {
    parse_sections_from(input, 0, Seq::empty())
}

/// The views of `secs`.
pub open spec fn views(secs: Seq<Section>) -> Seq<SectionView> {
    secs.map_values(|s: Section| s@)
}

proof fn lemma_views_push(secs: Seq<Section>, s: Section)
    ensures
        views(secs.push(s)) == views(secs).push(s@),
{
    assert(views(secs.push(s)) =~= views(secs).push(s@));
}

/// The entries of the last index section among `prior`.
fn find_last_didx(prior: &Vec<Section>) -> (r: Option<&Vec<DidxEntry>>)
    ensures
        match r {
            None => last_didx(views(prior@)) is None,
            Some(es) => last_didx(views(prior@)) == Some(es@),
        },
{
    let mut i: usize = prior.len();
    assert(prior@.take(i as int) =~= prior@);
    while i > 0
        invariant
            i <= prior@.len(),
            last_didx(views(prior@)) == last_didx(views(prior@.take(i as int))),
        decreases i,
    {
        let ghost before = views(prior@.take(i as int));
        assert(before.drop_last() =~= views(prior@.take(i - 1)));
        assert(before.last() == prior@[i - 1]@);
        if let SectionPayload::Didx { entries } = &prior[i - 1].payload {
            return Some(entries);
        }
        i = i - 1;
    }
    assert(views(prior@.take(0)).len() == 0);
    None
}

proof fn lemma_hirc_error_persists(input: Seq<u8>, pos: int, k: nat, m: nat)
    requires
        k <= m,
        parse_hirc_entries(input, pos, k) is Err,
    ensures
        parse_hirc_entries(input, pos, m) == parse_hirc_entries(input, pos, k),
    decreases m - k,
{
    if k < m {
        lemma_hirc_error_persists(input, pos, k, (m - 1) as nat);
    }
}

/// Reads one hierarchy record at `pos`.
fn read_hirc_entry(input: &[u8], pos: usize) -> (r: Result<(HircEntry, usize), BnkError>)
    ensures
        match r {
            Ok((e, q)) => parse_hirc_entry(input@, pos as int) == Ok::<_, BnkError>((e@, q as int))
                && pos < q <= input@.len(),
            Err(err) => parse_hirc_entry(input@, pos as int) == Err::<(HircView, int), _>(err),
        },
{
    if pos > input.len() || input.len() - pos < 9 {
        return Err(BnkError::UnexpectedEof);
    }
    let length = read_u32_le(input, pos + 1).unwrap();
    let id = read_u32_le(input, pos + 5).unwrap();
    if length < 4 {
        return Err(BnkError::BadLength);
    }
    if length as usize > input.len() - pos - 5 {
        return Err(BnkError::UnexpectedEof);
    }
    let data = read_bytes(input, pos + 9, length as usize - 4).unwrap();
    Ok((HircEntry { type_id: input[pos], length, id, data }, pos + 5 + length as usize))
}

/// Reads `count` hierarchy records from `pos`.
fn read_hirc_entries(input: &[u8], pos: usize, count: u32) -> (r: Result<
    (Vec<HircEntry>, usize),
    BnkError,
>)
    requires
        pos <= input@.len(),
    ensures
        match r {
            Ok((es, q)) => parse_hirc_entries(input@, pos as int, count as nat) == Ok::<_, BnkError>(
                (es@.map_values(|e: HircEntry| e@), q as int),
            ) && pos <= q <= input@.len(),
            Err(err) => parse_hirc_entries(input@, pos as int, count as nat) == Err::<
                (Seq<HircView>, int),
                _,
            >(err),
        },
{
    let mut entries: Vec<HircEntry> = Vec::new();
    let mut p: usize = pos;
    let mut k: u32 = 0;
    assert(entries@.map_values(|e: HircEntry| e@) =~= Seq::<HircView>::empty());
    while k < count
        invariant
            k <= count,
            pos <= p <= input@.len(),
            parse_hirc_entries(input@, pos as int, k as nat) == Ok::<_, BnkError>(
                (entries@.map_values(|e: HircEntry| e@), p as int),
            ),
        decreases count - k,
    {
        let (e, q) = match read_hirc_entry(input, p) {
            Ok(v) => v,
            Err(err) => {
                proof {
                    lemma_hirc_error_persists(input@, pos as int, (k + 1) as nat, count as nat);
                }
                return Err(err);
            },
        };
        let ghost old_entries = entries@;
        entries.push(e);
        assert(entries@.map_values(|e: HircEntry| e@) =~= old_entries.map_values(
            |e: HircEntry| e@,
        ).push(e@));
        p = q;
        k = k + 1;
    }
    Ok((entries, p))
}

/// Reads the blobs that `entries` locate relative to `body`.
fn read_blobs(input: &[u8], body: usize, entries: &Vec<DidxEntry>) -> (r: Result<
    Vec<Vec<u8>>,
    BnkError,
>)
    requires
        body <= input@.len(),
    ensures
        match r {
            Ok(list) => blobs_in_input(input@, body as int, entries@) && list@.map_values(
                |d: Vec<u8>| d@,
            ) == blobs_at(input@, body as int, entries@),
            Err(e) => !blobs_in_input(input@, body as int, entries@) && e
                == BnkError::UnexpectedEof,
        },
{
    let mut list: Vec<Vec<u8>> = Vec::new();
    let mut i: usize = 0;
    while i < entries.len()
        invariant
            body <= input@.len(),
            i <= entries@.len(),
            list@.len() == i,
            forall|j: int| 0 <= j < i ==> body + (#[trigger] entries@[j]).offset + entries@[j].length <= input@.len(),
            forall|j: int| 0 <= j < i ==> (#[trigger] list@[j])@ == blobs_at(input@, body as int, entries@)[j],
        decreases entries@.len() - i,
    {
        let e = entries[i];
        if e.offset as usize > input.len() - body || e.length as usize > input.len() - body
            - e.offset as usize {
            assert(!(body + entries@[i as int].offset + entries@[i as int].length <= input@.len()));
            return Err(BnkError::UnexpectedEof);
        }
        let blob = read_bytes(input, body + e.offset as usize, e.length as usize).unwrap();
        list.push(blob);
        i = i + 1;
    }
    assert(list@.map_values(|d: Vec<u8>| d@) =~= blobs_at(input@, body as int, entries@));
    Ok(list)
}

/// Reads the section at `pos`; the position of the next one is `None` where it
/// lies past the end of `input`.
fn read_section(input: &[u8], pos: usize, prior: &Vec<Section>) -> (r: Result<
    (Section, Option<usize>),
    BnkError,
>)
    requires
        pos + 4 <= input@.len(),
    ensures
        match r {
            Ok((s, next)) => parse_section(input@, pos as int, views(prior@)) matches Ok((sv, n))
                && s@ == sv && match next {
                Some(q) => q == n && pos < q <= input@.len(),
                None => n > input@.len(),
            },
            Err(e) => parse_section(input@, pos as int, views(prior@)) == Err::<
                (SectionView, int),
                _,
            >(e),
        },
{
    if input.len() - pos < 8 {
        return Err(BnkError::UnexpectedEof);
    }
    let magic: [u8; 4] = [input[pos], input[pos + 1], input[pos + 2], input[pos + 3]];
    let len = read_u32_le(input, pos + 4).unwrap();
    let body = pos + 8;
    let rest = input.len() - body;
    let ghost m = input@.subrange(pos as int, pos + 4);
    assert(magic@ =~= m);
    let next = if len as usize > rest {
        None
    } else {
        Some(body + len as usize)
    };
    if magic[0] == 0x44 && magic[1] == 0x41 && magic[2] == 0x54 && magic[3] == 0x41 {
        assert(m =~= tag_data());
        let entries = match find_last_didx(prior) {
            Some(es) => es,
            None => {
                return Err(BnkError::MissingDidx);
            },
        };
        let data_list = read_blobs(input, body, entries)?;
        let s = Section {
            magic,
            section_length: len,
            payload: SectionPayload::Data { data_list },
        };
        Ok((s, next))
    } else if magic[0] == 0x42 && magic[1] == 0x4b && magic[2] == 0x48 && magic[3] == 0x44 {
        assert(m =~= tag_bkhd());
        assert(m != tag_data());
        if len < 8 {
            return Err(BnkError::BadLength);
        }
        if len as usize > rest {
            return Err(BnkError::UnexpectedEof);
        }
        let version = read_u32_le(input, body).unwrap();
        let id = read_u32_le(input, body + 4).unwrap();
        let unknown = read_bytes(input, body + 8, len as usize - 8).unwrap();
        let s = Section {
            magic,
            section_length: len,
            payload: SectionPayload::Bkhd { version, id, unknown },
        };
        Ok((s, next))
    } else if magic[0] == 0x44 && magic[1] == 0x49 && magic[2] == 0x44 && magic[3] == 0x58 {
        assert(m =~= tag_didx());
        assert(m != tag_data());
        assert(m != tag_bkhd());
        let n = len / 12;
        if 12 * n as usize > rest {
            return Err(BnkError::UnexpectedEof);
        }
        let mut entries: Vec<DidxEntry> = Vec::new();
        let mut i: usize = 0;
        while i < n as usize
            invariant
                body + 12 * n <= input.len(),
                i <= n,
                entries@.len() == i,
                forall|j: int| 0 <= j < i ==> #[trigger] entries@[j] == didx_entry_at(input@, body + 12 * j),
            decreases n - i,
        {
            let at = body + 12 * i;
            let id = read_u32_le(input, at).unwrap();
            let offset = read_u32_le(input, at + 4).unwrap();
            let length = read_u32_le(input, at + 8).unwrap();
            entries.push(DidxEntry { id, offset, length });
            i = i + 1;
        }
        assert(entries@ =~= Seq::new(n as nat, |i: int| didx_entry_at(input@, body + 12 * i)));
        let s = Section { magic, section_length: len, payload: SectionPayload::Didx { entries } };
        Ok((s, Some(body + 12 * n as usize)))
    } else if magic[0] == 0x48 && magic[1] == 0x49 && magic[2] == 0x52 && magic[3] == 0x43 {
        assert(m =~= tag_hirc());
        assert(m != tag_data());
        assert(m != tag_bkhd());
        assert(m != tag_didx());
        if rest < 4 {
            return Err(BnkError::UnexpectedEof);
        }
        let count = read_u32_le(input, body).unwrap();
        let (entries, end) = read_hirc_entries(input, body + 4, count)?;
        let s = Section { magic, section_length: len, payload: SectionPayload::Hirc { entries } };
        Ok((s, Some(end)))
    } else {
        assert(m != tag_data()) by { if m == tag_data() { assert(m[0] == 0x44 && m[1] == 0x41 && m[2] == 0x54 && m[3] == 0x41); } }
        assert(m != tag_bkhd()) by { if m == tag_bkhd() { assert(m[0] == 0x42 && m[1] == 0x4b && m[2] == 0x48 && m[3] == 0x44); } }
        assert(m != tag_didx()) by { if m == tag_didx() { assert(m[0] == 0x44 && m[1] == 0x49 && m[2] == 0x44 && m[3] == 0x58); } }
        assert(m != tag_hirc()) by { if m == tag_hirc() { assert(m[0] == 0x48 && m[1] == 0x49 && m[2] == 0x52 && m[3] == 0x43); } }
        if len as usize > rest {
            return Err(BnkError::UnexpectedEof);
        }
        let data = read_bytes(input, body, len as usize).unwrap();
        let s = Section { magic, section_length: len, payload: SectionPayload::Unk { data } };
        Ok((s, next))
    }
}

impl Bnk {
    /// Parses a bank stream. The stream ends where fewer than four bytes are
    /// left before a section tag; a DATA section takes its blobs from the last
    /// DIDX section before it, and the next section starts after the declared
    /// length of the DATA section.
    pub fn from_reader(input: &[u8]) -> (r: Result<Bnk, BnkError>)
        ensures
            parse_bank(input@) == match r {
                Ok(b) => Ok(b@),
                Err(e) => Err(e),
            },
    {
        let mut sections: Vec<Section> = Vec::new();
        let mut pos: usize = 0;
        assert(views(sections@) =~= Seq::<SectionView>::empty());
        loop
            invariant_except_break
                pos <= input@.len(),
                parse_bank(input@) == parse_sections_from(input@, pos as int, views(sections@)),
            ensures
                parse_bank(input@) == Ok::<_, BnkError>(views(sections@)),
            decreases input@.len() - pos,
        {
            if input.len() - pos < 4 {
                break;
            }
            let (s, next) = match read_section(input, pos, &sections) {
                Ok(v) => v,
                Err(e) => {
                    return Err(e);
                },
            };
            proof {
                lemma_views_push(sections@, s);
            }
            sections.push(s);
            match next {
                Some(q) => {
                    pos = q;
                },
                None => {
                    break;
                },
            }
        }
        let b = Bnk { sections };
        assert(b@ == views(b.sections@));
        Ok(b)
    }
}

/// The twelve bytes of an index entry.
pub open spec fn didx_entry_bytes(e: DidxEntry) -> Seq<u8> {
    u32_le_bytes(e.id) + u32_le_bytes(e.offset) + u32_le_bytes(e.length)
}

pub open spec fn didx_bytes(entries: Seq<DidxEntry>) -> Seq<u8>
    decreases entries.len(),
{
    if entries.len() == 0 {
        Seq::empty()
    } else {
        didx_bytes(entries.drop_last()) + didx_entry_bytes(entries.last())
    }
}

/// The bytes of a hierarchy record.
pub open spec fn hirc_entry_bytes(e: HircView) -> Seq<u8> {
    seq![e.type_id] + u32_le_bytes(e.length) + u32_le_bytes(e.id) + e.data
}

pub open spec fn hirc_bytes(entries: Seq<HircView>) -> Seq<u8>
    decreases entries.len(),
{
    if entries.len() == 0 {
        Seq::empty()
    } else {
        hirc_bytes(entries.drop_last()) + hirc_entry_bytes(entries.last())
    }
}

/// The body bytes of a section other than DATA, written one after another.
pub open spec fn payload_bytes(p: PayloadView) -> Seq<u8> {
    match p {
        PayloadView::Bkhd { version, id, unknown } => u32_le_bytes(version) + u32_le_bytes(id)
            + unknown,
        PayloadView::Didx { entries } => didx_bytes(entries),
        PayloadView::Hirc { entries } => u32_le_bytes(entries.len() as u32) + hirc_bytes(entries),
        PayloadView::Data { .. } => Seq::empty(),
        PayloadView::Unk { data } => data,
    }
}

/// The buffer after writing each blob at `body` plus its entry's offset.
pub open spec fn write_blobs(
    buf: Seq<u8>,
    body: int,
    entries: Seq<DidxEntry>,
    blobs: Seq<Seq<u8>>,
) -> Seq<u8>
    decreases blobs.len(),
{
    if blobs.len() == 0 {
        buf
    } else {
        write_at(
            write_blobs(buf, body, entries, blobs.drop_last()),
            (body + entries[blobs.len() - 1].offset) as nat,
            blobs.last(),
        )
    }
}

/// Whether every blob ends at a position that fits in `usize`.
pub open spec fn blob_ends_fit(body: int, entries: Seq<DidxEntry>, blobs: Seq<Seq<u8>>) -> bool {
    forall|i: int|
        0 <= i < blobs.len() ==> body + (#[trigger] entries[i]).offset + blobs[i].len()
            <= usize::MAX
}

/// A writer's state: the bytes written so far, the cursor position, and the
/// entries of the last index section written.
pub type WriteState = (Seq<u8>, int, Option<Seq<DidxEntry>>);

/// Writes one section at the cursor: its tag and declared length, then its
/// body. A DATA section's blobs go where the last index section places them,
/// and the cursor then moves past the declared length.
pub open spec fn write_section(st: WriteState, s: SectionView) -> Result<WriteState, BnkError> {
    let (buf, pos, didx) = st;
    let head = s.magic + u32_le_bytes(s.section_length);
    let body = pos + 8;
    match s.payload {
        PayloadView::Data { data_list } => match didx {
            None => Err(BnkError::MissingDidx),
            Some(entries) => if data_list.len() > entries.len() {
                Err(BnkError::EntryCountMismatch)
            } else if body + s.section_length > usize::MAX || !blob_ends_fit(
                body,
                entries,
                data_list,
            ) {
                Err(BnkError::TooLarge)
            } else {
                Ok(
                    (
                        write_blobs(write_at(buf, pos as nat, head), body, entries, data_list),
                        body + s.section_length,
                        didx,
                    ),
                )
            },
        },
        _ => {
            let bytes = payload_bytes(s.payload);
            if body + bytes.len() > usize::MAX {
                Err(BnkError::TooLarge)
            } else {
                Ok(
                    (
                        write_at(write_at(buf, pos as nat, head), body as nat, bytes),
                        body + bytes.len(),
                        match s.payload {
                            PayloadView::Didx { entries } => Some(entries),
                            _ => didx,
                        },
                    ),
                )
            }
        },
    }
}

/// The writer's state after writing `secs` from an empty stream.
pub open spec fn write_sections(secs: Seq<SectionView>) -> Result<WriteState, BnkError>
    decreases secs.len(),
{
    if secs.len() == 0 {
        Ok((Seq::empty(), 0, None))
    } else {
        match write_sections(secs.drop_last()) {
            Err(e) => Err(e),
            Ok(st) => write_section(st, secs.last()),
        }
    }
}

/// The bytes of a bank stream holding `secs`.
pub open spec fn bank_bytes(secs: Seq<SectionView>) -> Result<Seq<u8>, BnkError> {
    match write_sections(secs) {
        Ok((buf, _, _)) => Ok(buf),
        Err(e) => Err(e),
    }
}

pub proof fn lemma_write_error_persists(secs: Seq<SectionView>, k: int)
    requires
        0 <= k <= secs.len(),
        write_sections(secs.take(k)) is Err,
    ensures
        write_sections(secs) == write_sections(secs.take(k)),
    decreases secs.len() - k,
{
    if k < secs.len() {
        assert(secs.take(k + 1).drop_last() =~= secs.take(k));
        lemma_write_error_persists(secs, k + 1);
    } else {
        assert(secs.take(k) =~= secs);
    }
}

/// The body bytes of a section other than DATA.
fn payload_to_bytes(p: &SectionPayload) -> (r: Vec<u8>)
    ensures
        r@ == payload_bytes(p@),
{
    let mut out: Vec<u8> = Vec::new();
    match p {
        SectionPayload::Bkhd { version, id, unknown } => {
            push_u32_le(&mut out, *version);
            push_u32_le(&mut out, *id);
            push_all(&mut out, unknown.as_slice());
            assert(out@ =~= payload_bytes(p@));
        },
        SectionPayload::Didx { entries } => {
            let mut i: usize = 0;
            while i < entries.len()
                invariant
                    i <= entries@.len(),
                    out@ == didx_bytes(entries@.take(i as int)),
                decreases entries@.len() - i,
            {
                assert(entries@.take(i + 1).drop_last() =~= entries@.take(i as int));
                push_u32_le(&mut out, entries[i].id);
                push_u32_le(&mut out, entries[i].offset);
                push_u32_le(&mut out, entries[i].length);
                i = i + 1;
                assert(out@ =~= didx_bytes(entries@.take(i as int)));
            }
            assert(entries@.take(i as int) =~= entries@);
        },
        SectionPayload::Hirc { entries } => {
            #[verifier::truncate]
            let count = entries.len() as u32;
            push_u32_le(&mut out, count);
            let ghost es = entries@.map_values(|e: HircEntry| e@);
            let mut i: usize = 0;
            while i < entries.len()
                invariant
                    es == entries@.map_values(|e: HircEntry| e@),
                    i <= entries@.len(),
                    out@ == u32_le_bytes(count) + hirc_bytes(es.take(i as int)),
                decreases entries@.len() - i,
            {
                assert(es.take(i + 1).drop_last() =~= es.take(i as int));
                let e = &entries[i];
                out.push(e.type_id);
                push_u32_le(&mut out, e.length);
                push_u32_le(&mut out, e.id);
                push_all(&mut out, e.data.as_slice());
                i = i + 1;
                assert(out@ =~= u32_le_bytes(count) + hirc_bytes(es.take(i as int)));
            }
            assert(es.take(i as int) =~= es);
        },
        SectionPayload::Data { .. } => {
            assert(out@ =~= payload_bytes(p@));
        },
        SectionPayload::Unk { data } => {
            push_all(&mut out, data.as_slice());
            assert(out@ =~= payload_bytes(p@));
        },
    }
    out
}

/// Writes the blobs of a DATA section whose body starts at `body`.
fn put_blobs(buf: &mut Vec<u8>, body: usize, entries: &Vec<DidxEntry>, blobs: &Vec<Vec<u8>>)
    requires
        blobs@.len() <= entries@.len(),
        blob_ends_fit(body as int, entries@, blobs@.map_values(|d: Vec<u8>| d@)),
    ensures
        final(buf)@ == write_blobs(
            old(buf)@,
            body as int,
            entries@,
            blobs@.map_values(|d: Vec<u8>| d@),
        ),
{
    let ghost bs = blobs@.map_values(|d: Vec<u8>| d@);
    let mut i: usize = 0;
    while i < blobs.len()
        invariant
            bs == blobs@.map_values(|d: Vec<u8>| d@),
            blobs@.len() <= entries@.len(),
            blob_ends_fit(body as int, entries@, bs),
            i <= blobs@.len(),
            buf@ == write_blobs(old(buf)@, body as int, entries@, bs.take(i as int)),
        decreases blobs@.len() - i,
    {
        assert(bs.take(i + 1).drop_last() =~= bs.take(i as int));
        assert(bs[i as int] == blobs@[i as int]@);
        assert(body + entries@[i as int].offset + bs[i as int].len() <= usize::MAX);
        put_at(buf, body + entries[i].offset as usize, blobs[i].as_slice());
        i = i + 1;
    }
    assert(bs.take(i as int) =~= bs);
}

/// The total length of `blobs`.
pub open spec fn total_len(blobs: Seq<Seq<u8>>) -> int
    decreases blobs.len(),
{
    if blobs.len() == 0 {
        0
    } else {
        total_len(blobs.drop_last()) + blobs.last().len()
    }
}

/// Whether `Section::new` can frame `p`: an index or a data payload whose body
/// length fits in the `u32` length field.
pub open spec fn framable(p: PayloadView) -> bool {
    match p {
        PayloadView::Didx { entries } => 12 * entries.len() <= u32::MAX,
        PayloadView::Data { data_list } => total_len(data_list) <= u32::MAX,
        _ => false,
    }
}

impl Section {
    /// Frames an index or a data payload: the index's declared length is twelve
    /// bytes per entry, the data's is the sum of its blob lengths.
    pub fn new(payload: SectionPayload) -> (r: Section)
        requires
            framable(payload@),
        ensures
            r.payload@ == payload@,
            match payload@ {
                PayloadView::Didx { entries } => r.magic@ == tag_didx() && r.section_length == 12
                    * entries.len(),
                PayloadView::Data { data_list } => r.magic@ == tag_data() && r.section_length
                    == total_len(data_list),
                _ => false,
            },
    {
        match &payload {
            SectionPayload::Didx { entries } => {
                let n = entries.len() as u32;
                let magic: [u8; 4] = [0x44, 0x49, 0x44, 0x58];
                assert(magic@ =~= tag_didx());
                Section { magic, section_length: n * 12, payload }
            },
            SectionPayload::Data { data_list } => {
                let ghost bs = data_list@.map_values(|d: Vec<u8>| d@);
                let mut total: u32 = 0;
                let mut i: usize = 0;
                while i < data_list.len()
                    invariant
                        bs == data_list@.map_values(|d: Vec<u8>| d@),
                        total_len(bs) <= u32::MAX,
                        i <= bs.len(),
                        total == total_len(bs.take(i as int)),
                    decreases bs.len() - i,
                {
                    assert(bs.take(i + 1).drop_last() =~= bs.take(i as int));
                    proof {
                        lemma_total_len_prefix(bs, i + 1);
                    }
                    total = total + data_list[i].len() as u32;
                    i = i + 1;
                }
                assert(bs.take(i as int) =~= bs);
                let magic: [u8; 4] = [0x44, 0x41, 0x54, 0x41];
                assert(magic@ =~= tag_data());
                Section { magic, section_length: total, payload }
            },
            _ => Section { magic: [0, 0, 0, 0], section_length: 0, payload },
        }
    }
}

proof fn lemma_total_len_prefix(blobs: Seq<Seq<u8>>, k: int)
    requires
        0 <= k <= blobs.len(),
    ensures
        total_len(blobs.take(k)) <= total_len(blobs),
    decreases blobs.len(),
{
    if k < blobs.len() {
        assert(blobs.drop_last().take(k) =~= blobs.take(k));
        lemma_total_len_prefix(blobs.drop_last(), k);
    } else {
        assert(blobs.take(k) =~= blobs);
    }
}

impl Bnk {
    /// Writes the bank as a stream, starting from an empty one. A DATA section
    /// needs an index section before it; each blob is written at the start of
    /// the DATA body plus its entry's offset, and the next section starts after
    /// the declared length.
    pub fn write_to(&self) -> (r: Result<Vec<u8>, BnkError>)
        ensures
            bank_bytes(self@) == match r {
                Ok(b) => Ok(b@),
                Err(e) => Err(e),
            },
    {
        let mut buf: Vec<u8> = Vec::new();
        let mut pos: usize = 0;
        let mut didx: Option<&Vec<DidxEntry>> = None;
        let ghost secs = self@;
        let mut i: usize = 0;
        assert(secs.take(0) =~= Seq::<SectionView>::empty());
        while i < self.sections.len()
            invariant
                secs == self@,
                secs.len() == self.sections@.len(),
                i <= secs.len(),
                write_sections(secs.take(i as int)) == Ok::<_, BnkError>(
                    (
                        buf@,
                        pos as int,
                        match didx {
                            None => None,
                            Some(v) => Some(v@),
                        },
                    ),
                ),
            decreases secs.len() - i,
        {
            let s = &self.sections[i];
            assert(secs.take(i + 1).drop_last() =~= secs.take(i as int));
            assert(secs.take(i + 1).last() == s@);
            let mut head: Vec<u8> = Vec::new();
            push_all(&mut head, &s.magic);
            push_u32_le(&mut head, s.section_length);
            assert(head@ =~= s@.magic + u32_le_bytes(s.section_length));
            match &s.payload {
                SectionPayload::Data { data_list } => {
                    let entries = match didx {
                        Some(es) => es,
                        None => {
                            proof {
                                lemma_write_error_persists(secs, i + 1);
                            }
                            return Err(BnkError::MissingDidx);
                        },
                    };
                    let ghost bs = data_list@.map_values(|d: Vec<u8>| d@);
                    if data_list.len() > entries.len() {
                        proof {
                            lemma_write_error_persists(secs, i + 1);
                        }
                        return Err(BnkError::EntryCountMismatch);
                    }
                    if pos > usize::MAX - 8 || s.section_length as usize > usize::MAX - pos - 8 {
                        proof {
                            lemma_write_error_persists(secs, i + 1);
                        }
                        return Err(BnkError::TooLarge);
                    }
                    let body = pos + 8;
                    let mut fits = true;
                    let mut k: usize = 0;
                    while k < data_list.len()
                        invariant
                            bs == data_list@.map_values(|d: Vec<u8>| d@),
                            data_list@.len() <= entries@.len(),
                            k <= data_list@.len(),
                            fits ==> forall|j: int|
                                0 <= j < k ==> body + (#[trigger] entries@[j]).offset
                                    + bs[j].len() <= usize::MAX,
                            !fits ==> !blob_ends_fit(body as int, entries@, bs),
                        decreases data_list@.len() - k,
                    {
                        assert(bs[k as int] == data_list@[k as int]@);
                        if entries[k].offset as usize > usize::MAX - body
                            || data_list[k].len() > usize::MAX - body - entries[k].offset as usize {
                            fits = false;
                            k = data_list.len();
                        } else {
                            k = k + 1;
                        }
                    }
                    if !fits {
                        proof {
                            lemma_write_error_persists(secs, i + 1);
                        }
                        return Err(BnkError::TooLarge);
                    }
                    put_at(&mut buf, pos, head.as_slice());
                    put_blobs(&mut buf, body, entries, data_list);
                    pos = body + s.section_length as usize;
                },
                _ => {
                    let bytes = payload_to_bytes(&s.payload);
                    if pos > usize::MAX - 8 || bytes.len() > usize::MAX - pos - 8 {
                        proof {
                            lemma_write_error_persists(secs, i + 1);
                        }
                        return Err(BnkError::TooLarge);
                    }
                    let body = pos + 8;
                    put_at(&mut buf, pos, head.as_slice());
                    put_at(&mut buf, body, bytes.as_slice());
                    pos = body + bytes.len();
                    if let SectionPayload::Didx { entries } = &s.payload {
                        didx = Some(entries);
                    }
                },
            }
            i = i + 1;
        }
        assert(secs.take(i as int) =~= secs);
        Ok(buf)
    }
}

/// A stream that reaches a DATA tag, with its length field present, before
/// any DIDX section fails with `MissingDidx`, whatever follows.
pub proof fn lemma_data_without_index_fails(input: Seq<u8>, pos: int, acc: Seq<SectionView>)
    requires
        0 <= pos,
        pos + 8 <= input.len(),
        input.subrange(pos, pos + 4) == tag_data(),
        last_didx(acc) is None,
    ensures
        parse_sections_from(input, pos, acc) == Err::<Seq<SectionView>, _>(BnkError::MissingDidx),
{
}

/// A stream that starts with a DATA section fails with `MissingDidx`.
pub proof fn lemma_leading_data_fails(input: Seq<u8>)
    requires
        input.len() >= 8,
        input.subrange(0, 4) == tag_data(),
    ensures
        parse_bank(input) == Err::<Seq<SectionView>, _>(BnkError::MissingDidx),
{
    lemma_data_without_index_fails(input, 0, Seq::empty());
}

/// Writing a DATA section with no DIDX section before it fails with
/// `MissingDidx`.
pub proof fn lemma_write_data_without_index_fails(secs: Seq<SectionView>, k: int)
    requires
        0 <= k < secs.len(),
        secs[k].payload is Data,
        last_didx(secs.take(k)) is None,
        write_sections(secs.take(k)) is Ok,
    ensures
        bank_bytes(secs) == Err::<Seq<u8>, _>(BnkError::MissingDidx),
{
    lemma_write_state_tracks_index(secs.take(k));
    assert(secs.take(k + 1).drop_last() =~= secs.take(k));
    assert(secs.take(k + 1).last() == secs[k]);
    lemma_write_error_persists(secs, k + 1);
}

/// The index that a writer state carries is the last index written.
proof fn lemma_write_state_tracks_index(secs: Seq<SectionView>)
    ensures
        write_sections(secs) matches Ok((_, _, d)) ==> d == last_didx(secs),
    decreases secs.len(),
{
    if secs.len() > 0 {
        lemma_write_state_tracks_index(secs.drop_last());
    }
}

} // verus!
