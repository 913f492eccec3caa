//! Little-endian byte reads and writes over in-memory buffers, and a model of
//! writing through a seekable cursor.
use vstd::prelude::*;

verus! {

/// The value of four bytes read as a little-endian `u32`.
pub open spec fn u32_le(b: Seq<u8>) -> int {
    b[0] as int + b[1] as int * 256 + b[2] as int * 65536 + b[3] as int * 16777216
}

/// The four little-endian bytes of `v`.
pub open spec fn u32_le_bytes(v: u32) -> Seq<u8> {
    seq![
        (v % 256) as u8,
        ((v / 256) % 256) as u8,
        ((v / 65536) % 256) as u8,
        (v / 16777216) as u8,
    ]
}

/// The value of two bytes read as a little-endian `u16`.
pub open spec fn u16_le(b: Seq<u8>) -> int {
    b[0] as int + b[1] as int * 256
}

/// The two little-endian bytes of `v`.
pub open spec fn u16_le_bytes(v: u16) -> Seq<u8> {
    seq![(v % 256) as u8, (v / 256) as u8]
}

/// The `u32` stored at `pos` of `input`.
pub open spec fn u32_at(input: Seq<u8>, pos: int) -> u32 {
    u32_le(input.subrange(pos, pos + 4)) as u32
}

/// `n` zero bytes.
pub open spec fn zeros(n: nat) -> Seq<u8> {
    Seq::new(n, |i: int| 0u8)
}

/// The buffer after writing `data` at `pos` through a cursor: a gap between the
/// old end and `pos` is filled with zeros, bytes under `data` are overwritten,
/// and bytes past the end of `data` are kept.
pub open spec fn write_at(buf: Seq<u8>, pos: nat, data: Seq<u8>) -> Seq<u8> {
    let padded = if pos > buf.len() { buf + zeros((pos - buf.len()) as nat) } else { buf };
    let end = pos + data.len();
    padded.subrange(0, pos as int) + data + if end < padded.len() {
        padded.subrange(end as int, padded.len() as int)
    } else {
        Seq::empty()
    }
}

pub proof fn lemma_u32_le_bytes(v: u32)
    ensures
        u32_le(u32_le_bytes(v)) == v,
        u32_le_bytes(v).len() == 4,
{
    let a = v % 256;
    let q1 = v / 256;
    let b = q1 % 256;
    let q2 = q1 / 256;
    let c = q2 % 256;
    let d = q2 / 256;
    assert(v / 65536 == q2) by {
        vstd::arithmetic::div_mod::lemma_div_denominator(v as int, 256, 256);
    }
    assert(v / 16777216 == d) by {
        vstd::arithmetic::div_mod::lemma_div_denominator(q1 as int, 256, 256);
        vstd::arithmetic::div_mod::lemma_div_denominator(v as int, 256, 65536);
    }
    assert(v == a + 256 * q1);
    assert(q1 == b + 256 * q2);
    assert(q2 == c + 256 * d);
    assert(d < 256);
}

pub proof fn lemma_u16_le_bytes(v: u16)
    ensures
        u16_le(u16_le_bytes(v)) == v,
        u16_le_bytes(v).len() == 2,
{
}

/// Reads the little-endian `u32` at `pos`, if four bytes are there.
pub fn read_u32_le(input: &[u8], pos: usize) -> (r: Option<u32>)
    ensures
        pos + 4 <= input@.len() ==> r == Some(u32_at(input@, pos as int)),
        pos + 4 > input@.len() ==> r is None,
{
    if pos > input.len() || input.len() - pos < 4 {
        return None;
    }
    let v: u32 = input[pos] as u32 + input[pos + 1] as u32 * 256 + input[pos + 2] as u32 * 65536
        + input[pos + 3] as u32 * 16777216;
    Some(v)
}

/// Reads the little-endian `u16` at `pos`, if two bytes are there.
pub fn read_u16_le(input: &[u8], pos: usize) -> (r: Option<u16>)
    ensures
        pos + 2 <= input@.len() ==> r == Some(u16_le(input@.subrange(pos as int, pos + 2)) as u16),
        pos + 2 > input@.len() ==> r is None,
{
    if pos > input.len() || input.len() - pos < 2 {
        return None;
    }
    let v: u16 = input[pos] as u16 + input[pos + 1] as u16 * 256;
    Some(v)
}

/// Copies `len` bytes from `pos`, if they are there.
pub fn read_bytes(input: &[u8], pos: usize, len: usize) -> (r: Option<Vec<u8>>)
    ensures
        pos + len <= input@.len() ==> (r matches Some(v) && v@ == input@.subrange(
            pos as int,
            pos + len,
        )),
        pos + len > input@.len() ==> r is None,
{
    if pos > input.len() || input.len() - pos < len {
        return None;
    }
    let mut out: Vec<u8> = Vec::with_capacity(len);
    let mut i: usize = 0;
    while i < len
        invariant
            pos + len <= input.len(),
            i <= len,
            out@ == input@.subrange(pos as int, pos + i),
        decreases len - i,
    {
        out.push(input[pos + i]);
        i = i + 1;
        assert(out@ =~= input@.subrange(pos as int, pos + i));
    }
    Some(out)
}

/// Appends the little-endian bytes of `v`.
pub fn push_u32_le(out: &mut Vec<u8>, v: u32)
    ensures
        final(out)@ == old(out)@ + u32_le_bytes(v),
{
    out.push((v % 256) as u8);
    out.push(((v / 256) % 256) as u8);
    out.push(((v / 65536) % 256) as u8);
    out.push((v / 16777216) as u8);
    assert(out@ =~= old(out)@ + u32_le_bytes(v));
}

/// Appends the little-endian bytes of `v`.
pub fn push_u16_le(out: &mut Vec<u8>, v: u16)
    ensures
        final(out)@ == old(out)@ + u16_le_bytes(v),
{
    out.push((v % 256) as u8);
    out.push((v / 256) as u8);
    assert(out@ =~= old(out)@ + u16_le_bytes(v));
}

/// Appends all of `data`.
pub fn push_all(out: &mut Vec<u8>, data: &[u8])
    ensures
        final(out)@ == old(out)@ + data@,
{
    let mut i: usize = 0;
    while i < data.len()
        invariant
            i <= data@.len(),
            out@ == old(out)@ + data@.subrange(0, i as int),
        decreases data@.len() - i,
    {
        out.push(data[i]);
        i = i + 1;
        assert(out@ =~= old(out)@ + data@.subrange(0, i as int));
    }
    assert(data@.subrange(0, data@.len() as int) =~= data@);
}

/// Writes `data` at `pos` as a seekable cursor over `buf` would.
pub fn put_at(buf: &mut Vec<u8>, pos: usize, data: &[u8])
    requires
        pos + data@.len() <= usize::MAX,
    ensures
        final(buf)@ == write_at(old(buf)@, pos as nat, data@),
{
    let ghost padded = if pos > old(buf)@.len() {
        old(buf)@ + zeros((pos - old(buf)@.len()) as nat)
    } else {
        old(buf)@
    };
    while buf.len() < pos
        invariant
            old(buf)@.len() <= buf@.len() <= pos || (buf@.len() >= pos && buf@ == old(buf)@),
            pos > old(buf)@.len() ==> buf@ == old(buf)@ + zeros((buf@.len() - old(buf)@.len()) as nat),
            pos <= old(buf)@.len() ==> buf@ == old(buf)@,
        decreases pos - buf@.len(),
    {
        buf.push(0u8);
        assert(buf@ =~= old(buf)@ + zeros((buf@.len() - old(buf)@.len()) as nat));
    }
    assert(buf@ =~= padded);
    let mut i: usize = 0;
    while i < data.len()
        invariant
            pos + data@.len() <= usize::MAX,
            i <= data@.len(),
            padded.len() >= pos,
            buf@.len() == if pos + i > padded.len() { pos + i } else { padded.len() as int },
            forall|k: int| 0 <= k < pos ==> buf@[k] == padded[k],
            forall|k: int| 0 <= k < i ==> buf@[pos + k] == data@[k],
            forall|k: int| pos + i <= k < buf@.len() ==> buf@[k] == padded[k],
        decreases data@.len() - i,
    {
        if pos + i < buf.len() {
            buf.set(pos + i, data[i]);
        } else {
            buf.push(data[i]);
        }
        i = i + 1;
    }
    assert(buf@ =~= write_at(old(buf)@, pos as nat, data@));
}

/// `x` lies in `buf` at `p`.
pub open spec fn holds_at(buf: Seq<u8>, p: int, x: Seq<u8>) -> bool {
    0 <= p && p + x.len() <= buf.len() && buf.subrange(p, p + x.len()) == x
}

pub proof fn lemma_holds_split(buf: Seq<u8>, p: int, x: Seq<u8>, y: Seq<u8>)
    requires
        holds_at(buf, p, x + y),
    ensures
        holds_at(buf, p, x),
        holds_at(buf, p + x.len(), y),
{
    assert(buf.subrange(p, p + x.len()) =~= (x + y).subrange(0, x.len() as int));
    assert((x + y).subrange(0, x.len() as int) =~= x);
    assert(buf.subrange(p + x.len(), p + x.len() + y.len()) =~= (x + y).subrange(
        x.len() as int,
        (x.len() + y.len()) as int,
    ));
    assert((x + y).subrange(x.len() as int, (x.len() + y.len()) as int) =~= y);
}

pub proof fn lemma_holds_u32(buf: Seq<u8>, p: int, v: u32)
    requires
        holds_at(buf, p, u32_le_bytes(v)),
    ensures
        u32_at(buf, p) == v,
{
    lemma_u32_le_bytes(v);
}

} // verus!
