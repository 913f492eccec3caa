//! Writing a consistent bank and parsing the bytes gives the bank back.
use vstd::prelude::*;

use crate::bnk::{
    bank_bytes, blobs_at, blobs_in_input, didx_bytes, didx_entry_at, didx_entry_bytes, hirc_bytes,
    hirc_entry_bytes, last_didx, parse_bank, parse_hirc_entries, parse_hirc_entry, parse_section,
    parse_sections_from, payload_bytes, tag_bkhd, tag_data, tag_didx, tag_hirc, write_blobs,
    write_section, write_sections, lemma_write_error_persists, DidxEntry, HircView, PayloadView, SectionView,
};
use crate::bytes::{
    holds_at, lemma_holds_split, lemma_holds_u32, lemma_u32_le_bytes, u32_at, u32_le_bytes, write_at,
    zeros,
};

verus! {

/// Whether the blobs that `entries` place lie inside a body of `len` bytes
/// without overlapping.
pub open spec fn blobs_fit(entries: Seq<DidxEntry>, blobs: Seq<Seq<u8>>, len: int) -> bool {
    &&& blobs.len() == entries.len()
    &&& forall|i: int|
        0 <= i < blobs.len() ==> (#[trigger] blobs[i]).len() == entries[i].length
            && entries[i].offset + entries[i].length <= len
    &&& forall|i: int, j: int|
        0 <= i < j < blobs.len() ==> #[trigger] entries[i].offset + entries[i].length
            <= #[trigger] entries[j].offset || entries[j].offset + entries[j].length
            <= entries[i].offset
}

/// Whether a section's tag, declared length and payload agree, given the
/// sections before it.
pub open spec fn section_consistent(prior: Seq<SectionView>, s: SectionView) -> bool {
    &&& s.magic.len() == 4
    &&& match s.payload {
        PayloadView::Bkhd { unknown, .. } => s.magic == tag_bkhd() && s.section_length == 8
            + unknown.len(),
        PayloadView::Didx { entries } => s.magic == tag_didx() && s.section_length == 12
            * entries.len(),
        PayloadView::Hirc { entries } => s.magic == tag_hirc() && entries.len() <= u32::MAX
            && forall|i: int|
            0 <= i < entries.len() ==> (#[trigger] entries[i]).length == entries[i].data.len() + 4,
        PayloadView::Data { data_list } => s.magic == tag_data() && match last_didx(prior) {
            Some(entries) => blobs_fit(entries, data_list, s.section_length as int),
            None => false,
        },
        PayloadView::Unk { data } => s.magic != tag_bkhd() && s.magic != tag_didx() && s.magic
            != tag_hirc() && s.magic != tag_data() && s.section_length == data.len(),
    }
}

/// Whether every section of a bank is consistent with the ones before it.
pub open spec fn bank_consistent(secs: Seq<SectionView>) -> bool {
    forall|k: int| 0 <= k < secs.len() ==> #[trigger] section_consistent(secs.take(k), secs[k])
}

/// Where the section after `s`, written at `pos`, starts.
pub open spec fn next_pos(pos: int, s: SectionView) -> int {
    match s.payload {
        PayloadView::Data { .. } => pos + 8 + s.section_length,
        _ => pos + 8 + payload_bytes(s.payload).len(),
    }
}

/// Whether `buf` holds what writing `s` at `pos` put there.
pub open spec fn section_written(buf: Seq<u8>, pos: int, prior: Seq<SectionView>, s: SectionView) -> bool {
    &&& holds_at(buf, pos, s.magic + u32_le_bytes(s.section_length))
    &&& match s.payload {
        PayloadView::Data { data_list } => match last_didx(prior) {
            Some(entries) => forall|i: int|
                0 <= i < data_list.len() ==> holds_at(
                    buf,
                    pos + 8 + (#[trigger] entries[i]).offset,
                    data_list[i],
                ),
            None => false,
        },
        _ => holds_at(buf, pos + 8, payload_bytes(s.payload)),
    }
}

proof fn lemma_write_at_facts(buf: Seq<u8>, p: int, d: Seq<u8>)
    requires
        0 <= p,
    ensures
        write_at(buf, p as nat, d).len() == if p + d.len() > buf.len() {
            p + d.len()
        } else {
            buf.len() as int
        },
        forall|t: int| 0 <= t < d.len() ==> #[trigger] write_at(buf, p as nat, d)[p + t] == d[t],
        forall|t: int|
            0 <= t < buf.len() && (t < p || t >= p + d.len()) ==> #[trigger] write_at(
                buf,
                p as nat,
                d,
            )[t] == buf[t],
{
    let padded = if p > buf.len() { buf + zeros((p - buf.len()) as nat) } else { buf };
    assert(padded.len() >= p);
    assert forall|t: int| 0 <= t < buf.len() implies padded[t] == buf[t] by {}
}

proof fn lemma_holds_after_write(buf: Seq<u8>, q: int, x: Seq<u8>, p: int, d: Seq<u8>)
    requires
        0 <= p,
        holds_at(buf, q, x),
        q + x.len() <= p || p + d.len() <= q,
    ensures
        holds_at(write_at(buf, p as nat, d), q, x),
{
    lemma_write_at_facts(buf, p, d);
    let r = write_at(buf, p as nat, d);
    assert forall|i: int| 0 <= i < x.len() implies r.subrange(q, q + x.len())[i] == x[i] by {
        assert(buf.subrange(q, q + x.len())[i] == x[i]);
        assert(r[q + i] == buf[q + i]);
    }
    assert(r.subrange(q, q + x.len()) =~= x);
}

proof fn lemma_holds_written(buf: Seq<u8>, p: int, d: Seq<u8>)
    requires
        0 <= p,
    ensures
        holds_at(write_at(buf, p as nat, d), p, d),
{
    lemma_write_at_facts(buf, p, d);
    let r = write_at(buf, p as nat, d);
    assert forall|i: int| 0 <= i < d.len() implies r.subrange(p, p + d.len())[i] == d[i] by {
        assert(r[p + i] == d[i]);
    }
    assert(r.subrange(p, p + d.len()) =~= d);
}

/// Writing blobs at or past `low` keeps what lies below `low`.
proof fn lemma_blobs_keep(
    buf: Seq<u8>,
    body: int,
    entries: Seq<DidxEntry>,
    blobs: Seq<Seq<u8>>,
    q: int,
    x: Seq<u8>,
)
    requires
        0 <= body,
        blobs.len() <= entries.len(),
        holds_at(buf, q, x),
        q + x.len() <= body,
    ensures
        holds_at(write_blobs(buf, body, entries, blobs), q, x),
        write_blobs(buf, body, entries, blobs).len() >= buf.len(),
    decreases blobs.len(),
{
    if blobs.len() > 0 {
        let n = blobs.len() - 1;
        lemma_blobs_keep(buf, body, entries, blobs.drop_last(), q, x);
        let prev = write_blobs(buf, body, entries, blobs.drop_last());
        lemma_holds_after_write(prev, q, x, body + entries[n].offset, blobs.last());
        lemma_write_at_facts(prev, body + entries[n].offset, blobs.last());
    }
}

/// After writing fitting blobs, each lies at its offset, and the buffer ends
/// no later than the body's end or its old end.
proof fn lemma_blobs_written(
    buf: Seq<u8>,
    body: int,
    entries: Seq<DidxEntry>,
    blobs: Seq<Seq<u8>>,
    len: int,
)
    requires
        0 <= body,
        blobs_fit(entries.take(blobs.len() as int), blobs, len),
        blobs.len() <= entries.len(),
    ensures
        forall|i: int|
            0 <= i < blobs.len() ==> holds_at(
                write_blobs(buf, body, entries, blobs),
                body + (#[trigger] entries[i]).offset,
                blobs[i],
            ),
        write_blobs(buf, body, entries, blobs).len() <= if buf.len() > body + len {
            buf.len() as int
        } else {
            body + len
        },
        write_blobs(buf, body, entries, blobs).len() >= buf.len(),
    decreases blobs.len(),
{
    if blobs.len() > 0 {
        let n = blobs.len() - 1;
        let es = entries.take(blobs.len() as int);
        assert(entries.take(n) =~= es.take(n));
        assert forall|i: int, j: int|
            0 <= i < j < n implies #[trigger] es.take(n)[i].offset + es.take(n)[i].length
            <= #[trigger] es.take(n)[j].offset || es.take(n)[j].offset + es.take(n)[j].length
            <= es.take(n)[i].offset by {
            assert(es[i] == es.take(n)[i] && es[j] == es.take(n)[j]);
        }
        assert forall|i: int| 0 <= i < n implies (#[trigger] blobs.drop_last()[i]).len()
            == es.take(n)[i].length && es.take(n)[i].offset + es.take(n)[i].length <= len by {
            assert(blobs.drop_last()[i] == blobs[i]);
            assert(es.take(n)[i] == es[i]);
        }
        assert(blobs_fit(entries.take(n), blobs.drop_last(), len));
        lemma_blobs_written(buf, body, entries, blobs.drop_last(), len);
        let prev = write_blobs(buf, body, entries, blobs.drop_last());
        let p = body + entries[n].offset;
        assert(es[n] == entries[n]);
        assert(blobs[n].len() == entries[n].length);
        lemma_write_at_facts(prev, p, blobs.last());
        lemma_holds_written(prev, p, blobs.last());
        assert forall|i: int| 0 <= i < blobs.len() implies holds_at(
            write_blobs(buf, body, entries, blobs),
            body + (#[trigger] entries[i]).offset,
            blobs[i],
        ) by {
            if i < n {
                assert(es[i] == entries[i]);
                assert(blobs.drop_last()[i] == blobs[i]);
                assert(holds_at(prev, body + entries[i].offset, blobs[i]));
                lemma_holds_after_write(prev, body + entries[i].offset, blobs[i], p, blobs.last());
            }
        }
    }
}

proof fn lemma_didx_back(buf: Seq<u8>, p: int, entries: Seq<DidxEntry>)
    requires
        holds_at(buf, p, didx_bytes(entries)),
    ensures
        didx_bytes(entries).len() == 12 * entries.len(),
        forall|i: int| 0 <= i < entries.len() ==> #[trigger] didx_entry_at(buf, p + 12 * i) == entries[i],
    decreases entries.len(),
{
    if entries.len() > 0 {
        let n = entries.len() - 1;
        let e = entries.last();
        lemma_holds_split(buf, p, didx_bytes(entries.drop_last()), didx_entry_bytes(e));
        lemma_didx_back(buf, p, entries.drop_last());
        let q = p + 12 * n;
        lemma_holds_split(buf, q, u32_le_bytes(e.id) + u32_le_bytes(e.offset), u32_le_bytes(e.length));
        lemma_holds_split(buf, q, u32_le_bytes(e.id), u32_le_bytes(e.offset));
        lemma_u32_le_bytes(e.id);
        lemma_u32_le_bytes(e.offset);
        lemma_holds_u32(buf, q, e.id);
        lemma_holds_u32(buf, q + 4, e.offset);
        lemma_holds_u32(buf, q + 8, e.length);
        assert forall|i: int| 0 <= i < entries.len() implies #[trigger] didx_entry_at(buf, p + 12 * i)
            == entries[i] by {
            if i < n {
                assert(entries.drop_last()[i] == entries[i]);
            }
        }
    }
}

proof fn lemma_hirc_back(buf: Seq<u8>, p: int, entries: Seq<HircView>)
    requires
        holds_at(buf, p, hirc_bytes(entries)),
        forall|i: int| 0 <= i < entries.len() ==> (#[trigger] entries[i]).length == entries[i].data.len() + 4,
    ensures
        parse_hirc_entries(buf, p, entries.len()) == Ok::<_, crate::bnk::BnkError>(
            (entries, p + hirc_bytes(entries).len()),
        ),
    decreases entries.len(),
{
    if entries.len() > 0 {
        let n = entries.len() - 1;
        let e = entries.last();
        let dl = entries.drop_last();
        lemma_holds_split(buf, p, hirc_bytes(dl), hirc_entry_bytes(e));
        assert forall|i: int| 0 <= i < dl.len() implies (#[trigger] dl[i]).length == dl[i].data.len() + 4 by {
            assert(dl[i] == entries[i]);
        }
        lemma_hirc_back(buf, p, dl);
        let q = p + hirc_bytes(dl).len();
        assert(e == entries[n]);
        lemma_holds_split(buf, q, seq![e.type_id] + u32_le_bytes(e.length) + u32_le_bytes(e.id), e.data);
        lemma_holds_split(buf, q, seq![e.type_id] + u32_le_bytes(e.length), u32_le_bytes(e.id));
        lemma_holds_split(buf, q, seq![e.type_id], u32_le_bytes(e.length));
        lemma_u32_le_bytes(e.length);
        lemma_u32_le_bytes(e.id);
        lemma_holds_u32(buf, q + 1, e.length);
        lemma_holds_u32(buf, q + 5, e.id);
        assert(buf.subrange(q, q + 1)[0] == buf[q]);
        assert(parse_hirc_entry(buf, q) == Ok::<_, crate::bnk::BnkError>((e, q + 9 + e.data.len())));
        assert(dl.push(e) =~= entries);
        assert(hirc_bytes(entries).len() == hirc_bytes(dl).len() + 9 + e.data.len());
        assert(parse_hirc_entries(buf, p, entries.len()) == match parse_hirc_entries(buf, p, dl.len()) {
            Err(err) => Err(err),
            Ok((es, q)) => match parse_hirc_entry(buf, q) {
                Err(err) => Err(err),
                Ok((entry, r)) => Ok((es.push(entry), r)),
            },
        });
    } else {
        assert(entries =~= Seq::<HircView>::empty());
    }
}

/// Parsing at `pos` reads back a consistent section written there.
proof fn lemma_section_back(buf: Seq<u8>, pos: int, prior: Seq<SectionView>, s: SectionView)
    requires
        section_written(buf, pos, prior, s),
        section_consistent(prior, s),
    ensures
        parse_section(buf, pos, prior) == Ok::<_, crate::bnk::BnkError>((s, next_pos(pos, s))),
{
    lemma_holds_split(buf, pos, s.magic, u32_le_bytes(s.section_length));
    lemma_u32_le_bytes(s.section_length);
    lemma_holds_u32(buf, pos + 4, s.section_length);
    let body = pos + 8;
    let len = s.section_length;
    assert(buf.subrange(pos, pos + 4) == s.magic);
    match s.payload {
        PayloadView::Data { data_list } => {
            let entries = last_didx(prior)->0;
            assert forall|i: int| 0 <= i < entries.len() implies body + (#[trigger] entries[i]).offset
                + entries[i].length <= buf.len() by {
                assert(holds_at(buf, body + entries[i].offset, data_list[i]));
                assert(data_list[i].len() == entries[i].length);
            }
            assert(blobs_in_input(buf, body, entries));
            assert(blobs_at(buf, body, entries) =~= data_list) by {
                assert forall|i: int| 0 <= i < data_list.len() implies blobs_at(buf, body, entries)[i]
                    == data_list[i] by {
                    assert(holds_at(buf, body + entries[i].offset, data_list[i]));
                    assert(data_list[i].len() == entries[i].length);
                }
            }
        },
        PayloadView::Bkhd { version, id, unknown } => {
            lemma_holds_split(buf, body, u32_le_bytes(version) + u32_le_bytes(id), unknown);
            lemma_holds_split(buf, body, u32_le_bytes(version), u32_le_bytes(id));
            lemma_u32_le_bytes(version);
            lemma_u32_le_bytes(id);
            lemma_holds_u32(buf, body, version);
            lemma_holds_u32(buf, body + 4, id);
        },
        PayloadView::Didx { entries } => {
            lemma_didx_back(buf, body, entries);
            assert(len / 12 == entries.len()) by {
                assert(len == 12 * entries.len());
            }
            assert(Seq::new((len / 12) as nat, |i: int| didx_entry_at(buf, body + 12 * i)) =~= entries);
        },
        PayloadView::Hirc { entries } => {
            lemma_holds_split(buf, body, u32_le_bytes(entries.len() as u32), hirc_bytes(entries));
            lemma_u32_le_bytes(entries.len() as u32);
            lemma_holds_u32(buf, body, entries.len() as u32);
            lemma_hirc_back(buf, body + 4, entries);
        },
        PayloadView::Unk { data } => {},
    }
}

/// The cursor position before section `k` when writing `secs`.
pub open spec fn wpos(secs: Seq<SectionView>, k: int) -> int {
    match write_sections(secs.take(k)) {
        Ok((_, pos, _)) => pos,
        Err(_) => 0,
    }
}

/// Writing at or past the end of a consistent section keeps it.
proof fn lemma_section_kept_write(
    buf: Seq<u8>,
    pos: int,
    prior: Seq<SectionView>,
    s: SectionView,
    p: int,
    d: Seq<u8>,
)
    requires
        section_written(buf, pos, prior, s),
        section_consistent(prior, s),
        next_pos(pos, s) <= p,
    ensures
        section_written(write_at(buf, p as nat, d), pos, prior, s),
{
    lemma_holds_after_write(buf, pos, s.magic + u32_le_bytes(s.section_length), p, d);
    match s.payload {
        PayloadView::Data { data_list } => {
            let entries = last_didx(prior)->0;
            assert forall|i: int| 0 <= i < data_list.len() implies holds_at(
                write_at(buf, p as nat, d),
                pos + 8 + (#[trigger] entries[i]).offset,
                data_list[i],
            ) by {
                assert(data_list[i].len() == entries[i].length);
                lemma_holds_after_write(buf, pos + 8 + entries[i].offset, data_list[i], p, d);
            }
        },
        _ => {
            lemma_holds_after_write(buf, pos + 8, payload_bytes(s.payload), p, d);
        },
    }
}

/// Writing blobs at or past the end of a consistent section keeps it.
proof fn lemma_section_kept_blobs(
    buf: Seq<u8>,
    pos: int,
    prior: Seq<SectionView>,
    s: SectionView,
    body: int,
    entries: Seq<DidxEntry>,
    blobs: Seq<Seq<u8>>,
)
    requires
        section_written(buf, pos, prior, s),
        section_consistent(prior, s),
        next_pos(pos, s) <= body,
        blobs.len() <= entries.len(),
    ensures
        section_written(write_blobs(buf, body, entries, blobs), pos, prior, s),
{
    lemma_blobs_keep(buf, body, entries, blobs, pos, s.magic + u32_le_bytes(s.section_length));
    match s.payload {
        PayloadView::Data { data_list } => {
            let es = last_didx(prior)->0;
            assert forall|i: int| 0 <= i < data_list.len() implies holds_at(
                write_blobs(buf, body, entries, blobs),
                pos + 8 + (#[trigger] es[i]).offset,
                data_list[i],
            ) by {
                assert(data_list[i].len() == es[i].length);
                lemma_blobs_keep(buf, body, entries, blobs, pos + 8 + es[i].offset, data_list[i]);
            }
        },
        _ => {
            lemma_blobs_keep(buf, body, entries, blobs, pos + 8, payload_bytes(s.payload));
        },
    }
}

/// Whether `buf` holds sections `0..m` of `secs`, all ending by `end`.
pub open spec fn earlier_kept(secs: Seq<SectionView>, buf: Seq<u8>, m: int, end: int) -> bool {
    forall|k: int|
        0 <= k < m ==> #[trigger] section_written(buf, wpos(secs, k), secs.take(k), secs[k])
            && section_consistent(secs.take(k), secs[k]) && next_pos(wpos(secs, k), secs[k])
            <= end
}

/// Writing a DATA section at `p` puts it there and keeps the earlier ones.
#[verifier::rlimit(40)]
proof fn lemma_step_data(secs: Seq<SectionView>, m: int, b: Seq<u8>, p: int, es: Seq<DidxEntry>)
    requires
        1 <= m <= secs.len(),
        0 <= p,
        b.len() <= p,
        earlier_kept(secs, b, m - 1, p),
        secs[m - 1].payload is Data,
        last_didx(secs.take(m - 1)) == Some(es),
        section_consistent(secs.take(m - 1), secs[m - 1]),
    ensures
        ({
            let s = secs[m - 1];
            let head = s.magic + u32_le_bytes(s.section_length);
            let nb = write_blobs(write_at(b, p as nat, head), p + 8, es, s.payload->data_list);
            &&& nb.len() <= next_pos(p, s)
            &&& section_written(nb, p, secs.take(m - 1), s)
            &&& earlier_kept(secs, nb, m - 1, p)
        }),
{
    let s = secs[m - 1];
    let data_list = s.payload->data_list;
    let head = s.magic + u32_le_bytes(s.section_length);
    let b1 = write_at(b, p as nat, head);
    lemma_write_at_facts(b, p, head);
    lemma_holds_written(b, p, head);
    assert(es.take(data_list.len() as int) =~= es);
    lemma_blobs_written(b1, p + 8, es, data_list, s.section_length as int);
    lemma_blobs_keep(b1, p + 8, es, data_list, p, head);
    let nb = write_blobs(b1, p + 8, es, data_list);
    assert forall|k: int| 0 <= k < m - 1 implies #[trigger] section_written(
        nb,
        wpos(secs, k),
        secs.take(k),
        secs[k],
    ) && section_consistent(secs.take(k), secs[k]) && next_pos(wpos(secs, k), secs[k]) <= p by {
        assert(section_written(b, wpos(secs, k), secs.take(k), secs[k]));
        lemma_section_kept_write(b, wpos(secs, k), secs.take(k), secs[k], p, head);
        lemma_section_kept_blobs(b1, wpos(secs, k), secs.take(k), secs[k], p + 8, es, data_list);
    }
}

/// Writing a section other than DATA at `p` puts it there and keeps the
/// earlier ones.
#[verifier::rlimit(40)]
proof fn lemma_step_plain(secs: Seq<SectionView>, m: int, b: Seq<u8>, p: int)
    requires
        1 <= m <= secs.len(),
        0 <= p,
        b.len() <= p,
        earlier_kept(secs, b, m - 1, p),
        !(secs[m - 1].payload is Data),
        section_consistent(secs.take(m - 1), secs[m - 1]),
    ensures
        ({
            let s = secs[m - 1];
            let head = s.magic + u32_le_bytes(s.section_length);
            let nb = write_at(write_at(b, p as nat, head), (p + 8) as nat, payload_bytes(s.payload));
            &&& nb.len() == next_pos(p, s)
            &&& section_written(nb, p, secs.take(m - 1), s)
            &&& earlier_kept(secs, nb, m - 1, p)
        }),
{
    let s = secs[m - 1];
    let head = s.magic + u32_le_bytes(s.section_length);
    let bytes = payload_bytes(s.payload);
    let b1 = write_at(b, p as nat, head);
    lemma_write_at_facts(b, p, head);
    lemma_holds_written(b, p, head);
    lemma_write_at_facts(b1, p + 8, bytes);
    lemma_holds_written(b1, p + 8, bytes);
    lemma_holds_after_write(b1, p, head, p + 8, bytes);
    let nb = write_at(b1, (p + 8) as nat, bytes);
    assert forall|k: int| 0 <= k < m - 1 implies #[trigger] section_written(
        nb,
        wpos(secs, k),
        secs.take(k),
        secs[k],
    ) && section_consistent(secs.take(k), secs[k]) && next_pos(wpos(secs, k), secs[k]) <= p by {
        assert(section_written(b, wpos(secs, k), secs.take(k), secs[k]));
        lemma_section_kept_write(b, wpos(secs, k), secs.take(k), secs[k], p, head);
        lemma_section_kept_write(b1, wpos(secs, k), secs.take(k), secs[k], p + 8, bytes);
    }
}

/// Where the writer's cursor stands after each of the first `m` sections, and
/// which index it carries.
proof fn lemma_positions(secs: Seq<SectionView>, m: int)
    requires
        0 <= m <= secs.len(),
        write_sections(secs.take(m)) is Ok,
    ensures
        ({
            let (buf, pos, d) = write_sections(secs.take(m))->Ok_0;
            &&& pos == wpos(secs, m)
            &&& 0 <= pos
            &&& d == last_didx(secs.take(m))
        }),
        forall|k: int|
            0 <= k < m ==> next_pos(wpos(secs, k), secs[k]) == #[trigger] wpos(secs, k + 1)
                && 0 <= wpos(secs, k) && wpos(secs, k) + 8 <= wpos(secs, k + 1),
    decreases m,
{
    if m == 0 {
        assert(secs.take(0) =~= Seq::<SectionView>::empty());
    } else {
        let prev = secs.take(m - 1);
        assert(secs.take(m).drop_last() =~= prev);
        assert(secs.take(m).last() == secs[m - 1]);
        lemma_positions(secs, m - 1);
    }
}

/// After writing the first `m` sections of a consistent bank, the buffer ends
/// at or before the cursor and holds each of them where it was written.
#[verifier::rlimit(60)]
proof fn lemma_written_prefix(secs: Seq<SectionView>, m: int)
    requires
        bank_consistent(secs),
        0 <= m <= secs.len(),
        write_sections(secs.take(m)) is Ok,
    ensures
        ({
            let (buf, pos, d) = write_sections(secs.take(m))->Ok_0;
            &&& buf.len() <= pos
            &&& earlier_kept(secs, buf, m, pos)
        }),
    decreases m,
{
    lemma_positions(secs, m);
    if m == 0 {
        assert(secs.take(0) =~= Seq::<SectionView>::empty());
    } else {
        let prev = secs.take(m - 1);
        assert(secs.take(m).drop_last() =~= prev);
        assert(secs.take(m).last() == secs[m - 1]);
        lemma_written_prefix(secs, m - 1);
        lemma_positions(secs, m - 1);
        let (b, p, d) = write_sections(prev)->Ok_0;
        let s = secs[m - 1];
        assert(section_consistent(secs.take(m - 1), s));
        assert(write_sections(secs.take(m)) == write_section((b, p, d), s));
        let np = wpos(secs, m);
        assert(np == next_pos(p, s));
        if s.payload is Data {
            lemma_step_data(secs, m, b, p, d->0);
        } else {
            lemma_step_plain(secs, m, b, p);
        }
        let nb = write_sections(secs.take(m))->Ok_0.0;
        assert forall|k: int| 0 <= k < m implies #[trigger] section_written(
            nb,
            wpos(secs, k),
            secs.take(k),
            secs[k],
        ) && section_consistent(secs.take(k), secs[k]) && next_pos(wpos(secs, k), secs[k]) <= np by {
            if k < m - 1 {
                assert(section_written(nb, wpos(secs, k), secs.take(k), secs[k]));
            }
        }
    }
}

proof fn lemma_parse_from(secs: Seq<SectionView>, buf: Seq<u8>, k: int)
    requires
        bank_consistent(secs),
        0 <= k <= secs.len(),
        earlier_kept(secs, buf, secs.len() as int, wpos(secs, secs.len() as int)),
        forall|j: int|
            0 <= j < secs.len() ==> next_pos(wpos(secs, j), secs[j]) == #[trigger] wpos(secs, j + 1)
                && 0 <= wpos(secs, j) && wpos(secs, j) + 8 <= wpos(secs, j + 1),
        buf.len() <= wpos(secs, secs.len() as int),
    ensures
        parse_sections_from(buf, wpos(secs, k), secs.take(k)) == Ok::<_, crate::bnk::BnkError>(secs),
    decreases secs.len() - k,
{
    if k == secs.len() {
        assert(secs.take(k) =~= secs);
    } else {
        assert(section_written(buf, wpos(secs, k), secs.take(k), secs[k]));
        assert(wpos(secs, k + 1) == next_pos(wpos(secs, k), secs[k]));
        lemma_section_back(buf, wpos(secs, k), secs.take(k), secs[k]);
        lemma_holds_split(
            buf,
            wpos(secs, k),
            secs[k].magic,
            u32_le_bytes(secs[k].section_length),
        );
        assert(secs.take(k).push(secs[k]) =~= secs.take(k + 1));
        if wpos(secs, k + 1) <= buf.len() {
            lemma_parse_from(secs, buf, k + 1);
        } else {
            if k + 1 < secs.len() {
                assert(section_written(buf, wpos(secs, k + 1), secs.take(k + 1), secs[k + 1]));
                lemma_holds_split(
                    buf,
                    wpos(secs, k + 1),
                    secs[k + 1].magic,
                    u32_le_bytes(secs[k + 1].section_length),
                );
            }
            assert(secs.take(k + 1) =~= secs);
        }
    }
}

/// Writing a consistent bank and parsing the bytes gives the same sections:
/// every section's tag, declared length and payload agree, each DATA section
/// has an index before it whose entries place its blobs inside its body
/// without overlap, and the writer can place every byte.
pub proof fn lemma_bank_round_trip(secs: Seq<SectionView>)
    requires
        bank_consistent(secs),
        bank_bytes(secs) is Ok,
    ensures
        parse_bank(bank_bytes(secs)->Ok_0) == Ok::<_, crate::bnk::BnkError>(secs),
{
    let n = secs.len() as int;
    assert(secs.take(n) =~= secs);
    lemma_written_prefix(secs, n);
    lemma_positions(secs, n);
    assert(secs.take(0) =~= Seq::<SectionView>::empty());
    lemma_parse_from(secs, bank_bytes(secs)->Ok_0, 0);
}

} // verus!
