//! Names of loose assets and replacement files, and which replacement an
//! asset takes.
use vstd::prelude::*;
use vstd::string::StringExecFns;
use vstd::utf8::{encode_utf8, is_ascii_chars, is_ascii_chars_encode_utf8};

verus! {

/// The order index of an asset whose file name carries none.
pub const UNSET_INDEX: u32 = 4294967295;

/// A replacement file's key: a unique id, or an order index written in
/// brackets.
#[derive(Debug, Clone, Copy, PartialEq, Eq, Hash, Structural)]
pub enum IdOrIndex {
    Id(u32),
    Index(u32),
}

/// Which key a replacement matched.
#[derive(Debug, Clone, Copy, PartialEq, Eq, Structural)]
pub enum ReplacedBy {
    Index,
    Id,
}

pub open spec fn is_digit(b: u8) -> bool {
    48 <= b <= 57
}

/// The number of ASCII digits that start at `start`.
pub open spec fn digit_run(b: Seq<u8>, start: int) -> int
    decreases b.len() - start,
{
    if start < 0 || start >= b.len() || !is_digit(b[start]) {
        0
    } else {
        1 + digit_run(b, start + 1)
    }
}

/// The decimal value of the digits in `[start, end)`.
pub open spec fn digits_value(b: Seq<u8>, start: int, end: int) -> int
    decreases end - start,
{
    if end <= start {
        0
    } else {
        digits_value(b, start, end - 1) * 10 + (b[end - 1] - 48)
    }
}

/// What `u32::from_str` makes of a string's bytes: an optional `+`, then one
/// or more digits whose value fits.
pub open spec fn parse_u32(b: Seq<u8>) -> Option<u32> {
    let start: int = if b.len() > 0 && b[0] == 43 { 1 } else { 0 };
    if start >= b.len() || digit_run(b, start) != b.len() - start {
        None
    } else {
        let v = digits_value(b, start, b.len() as int);
        if v > u32::MAX {
            None
        } else {
            Some(v as u32)
        }
    }
}

/// The key that a replacement file's stem names: `[<index>]` or `<id>`.
pub open spec fn key_of(b: Seq<u8>) -> Option<IdOrIndex> {
    if b.len() >= 2 && b[0] == 91 && b.last() == 93 {
        match parse_u32(b.subrange(1, b.len() - 1)) {
            Some(i) => Some(IdOrIndex::Index(i)),
            None => None,
        }
    } else {
        match parse_u32(b) {
            Some(i) => Some(IdOrIndex::Id(i)),
            None => None,
        }
    }
}

/// The order index and id at the start of a loose asset's name: an optional
/// `[<digits>]`, then the id's digits; what follows is not read. An index too
/// large for `u32` reads as unset; an id too large fails.
pub open spec fn wem_name_fields(b: Seq<u8>) -> Option<(u32, u32)> {
    if b.len() > 0 && b[0] == 91 {
        let k = digit_run(b, 1);
        if k == 0 || 1 + k >= b.len() || b[1 + k] != 93 {
            None
        } else {
            let m = digit_run(b, 2 + k);
            let idx = digits_value(b, 1, 1 + k);
            let id = digits_value(b, 2 + k, 2 + k + m);
            if m == 0 || id > u32::MAX {
                None
            } else {
                Some((if idx > u32::MAX { UNSET_INDEX } else { idx as u32 }, id as u32))
            }
        }
    } else {
        let m = digit_run(b, 0);
        let id = digits_value(b, 0, m);
        if m == 0 || id > u32::MAX {
            None
        } else {
            Some((UNSET_INDEX, id as u32))
        }
    }
}

proof fn lemma_digits_value_grows(b: Seq<u8>, start: int, end: int)
    requires
        start <= end,
        forall|i: int| start <= i < end ==> is_digit(#[trigger] b[i]),
    ensures
        0 <= digits_value(b, start, end),
    decreases end - start,
{
    if start < end {
        lemma_digits_value_grows(b, start, end - 1);
    }
}

/// Reads the digits at `start`: how many there are, and their value where it
/// fits in a `u32`.
fn scan_digits(b: &[u8], start: usize) -> (r: (usize, Option<u32>))
    requires
        start <= b@.len(),
    ensures
        r.0 == digit_run(b@, start as int),
        start + r.0 <= b@.len(),
        match r.1 {
            Some(v) => v == digits_value(b@, start as int, start + r.0),
            None => digits_value(b@, start as int, start + r.0) > u32::MAX,
        },
{
    let mut i: usize = start;
    let mut value: u64 = 0;
    let mut fits = true;
    while i < b.len() && b[i] >= 48 && b[i] <= 57
        invariant
            start <= i <= b@.len(),
            digit_run(b@, start as int) == (i - start) + digit_run(b@, i as int),
            forall|j: int| start <= j < i ==> is_digit(#[trigger] b@[j]),
            fits ==> value == digits_value(b@, start as int, i as int) && value <= u32::MAX,
            !fits ==> digits_value(b@, start as int, i as int) > u32::MAX,
        decreases b@.len() - i,
    {
        proof {
            lemma_digits_value_grows(b@, start as int, i as int);
        }
        if fits {
            let next = value * 10 + (b[i] - 48) as u64;
            if next > u32::MAX as u64 {
                fits = false;
            } else {
                value = next;
            }
        }
        i = i + 1;
    }
    if fits {
        (i - start, Some(value as u32))
    } else {
        (i - start, None)
    }
}

/// What `str::trim` makes of a string.
pub uninterp spec fn trimmed(s: Seq<char>) -> Seq<char>;

/// Relies on `str::trim`: the string without leading and trailing white space.
#[verifier::external_body]
fn trim(s: &str) -> (r: &str)
    ensures
        r@ == trimmed(s@),
{
    s.trim()
}

/// The order index and id at the start of a loose asset's name.
pub fn parse_wem_stem(name: &str) -> (r: Option<(u32, u32)>)
    ensures
        r == wem_name_fields(encode_utf8(name@)),
{
    let b = name.as_bytes();
    if b.len() > 0 && b[0] == 91 {
        let (k, idx) = scan_digits(b, 1);
        if k == 0 || 1 + k >= b.len() || b[1 + k] != 93 {
            return None;
        }
        let (m, id) = scan_digits(b, 2 + k);
        if m == 0 {
            return None;
        }
        match id {
            None => None,
            Some(id) => match idx {
                Some(i) => Some((i, id)),
                None => Some((UNSET_INDEX, id)),
            },
        }
    } else {
        let (m, id) = scan_digits(b, 0);
        if m == 0 {
            return None;
        }
        match id {
            None => None,
            Some(id) => Some((UNSET_INDEX, id)),
        }
    }
}

/// The order index and id of a loose asset's name, after trimming white
/// space around it; `None` where the name does not follow the convention.
pub fn parse_wem_name(name: &str) -> (r: Option<(u32, u32)>)
    ensures
        r == wem_name_fields(encode_utf8(trimmed(name@))),
{
    parse_wem_stem(trim(name))
}

/// Parses a `u32` as `u32::from_str` does.
fn parse_u32_bytes(b: &[u8]) -> (r: Option<u32>)
    ensures
        r == parse_u32(b@),
{
    let start: usize = if b.len() > 0 && b[0] == 43 { 1 } else { 0 };
    if start >= b.len() {
        return None;
    }
    let (k, v) = scan_digits(b, start);
    if k != b.len() - start {
        return None;
    }
    v
}

impl IdOrIndex {
    /// Reads a replacement file's stem: `[<index>]` or `<id>`.
    pub fn from_str(s: &str) -> (r: Option<IdOrIndex>)
        ensures
            r == key_of(encode_utf8(s@)),
    {
        let b = s.as_bytes();
        if b.len() >= 2 && b[0] == 91 && b[b.len() - 1] == 93 {
            let mut inner: Vec<u8> = Vec::new();
            let mut i: usize = 1;
            while i < b.len() - 1
                invariant
                    1 <= i <= b@.len() - 1,
                    inner@ == b@.subrange(1, i as int),
                decreases b@.len() - 1 - i,
            {
                inner.push(b[i]);
                i = i + 1;
                assert(inner@ =~= b@.subrange(1, i as int));
            }
            match parse_u32_bytes(inner.as_slice()) {
                Some(v) => Some(IdOrIndex::Index(v)),
                None => None,
            }
        } else {
            match parse_u32_bytes(b) {
                Some(v) => Some(IdOrIndex::Id(v)),
                None => None,
            }
        }
    }

    /// Whether the key is a small id, which was likely meant as an order index.
    pub fn is_suspicious(&self) -> (r: bool)
        ensures
            r == (*self matches IdOrIndex::Id(id) && id < 500),
    {
        match self {
            IdOrIndex::Id(id) => *id < 500,
            IdOrIndex::Index(_) => false,
        }
    }
}

/// The position of the last key equal to `k`.
pub open spec fn last_match(keys: Seq<IdOrIndex>, k: IdOrIndex) -> Option<int>
    decreases keys.len(),
{
    if keys.len() == 0 {
        None
    } else if keys.last() == k {
        Some(keys.len() - 1)
    } else {
        last_match(keys.drop_last(), k)
    }
}

/// The replacement that an asset takes: one keyed by its order index first,
/// else one keyed by its id; among equal keys the last one.
pub open spec fn replacement_for(keys: Seq<IdOrIndex>, index: u32, id: u32) -> Option<(int, ReplacedBy)> {
    match last_match(keys, IdOrIndex::Index(index)) {
        Some(i) => Some((i, ReplacedBy::Index)),
        None => match last_match(keys, IdOrIndex::Id(id)) {
            Some(i) => Some((i, ReplacedBy::Id)),
            None => None,
        },
    }
}

fn find_last(keys: &Vec<IdOrIndex>, k: IdOrIndex) -> (r: Option<usize>)
    ensures
        match r {
            Some(i) => last_match(keys@, k) == Some(i as int) && i < keys@.len(),
            None => last_match(keys@, k) is None,
        },
{
    let mut i: usize = keys.len();
    assert(keys@.take(i as int) =~= keys@);
    while i > 0
        invariant
            i <= keys@.len(),
            last_match(keys@, k) == last_match(keys@.take(i as int), k),
        decreases i,
    {
        assert(keys@.take(i as int).drop_last() =~= keys@.take(i - 1));
        if keys[i - 1] == k {
            return Some(i - 1);
        }
        i = i - 1;
    }
    None
}

/// Which replacement, if any, an asset with `index` and `id` takes.
pub fn choose_replacement(keys: &Vec<IdOrIndex>, index: u32, id: u32) -> (r: Option<
    (usize, ReplacedBy),
>)
    ensures
        match r {
            Some((i, by)) => replacement_for(keys@, index, id) == Some((i as int, by)) && i
                < keys@.len(),
            None => replacement_for(keys@, index, id) is None,
        },
{
    match find_last(keys, IdOrIndex::Index(index)) {
        Some(i) => Some((i, ReplacedBy::Index)),
        None => match find_last(keys, IdOrIndex::Id(id)) {
            Some(i) => Some((i, ReplacedBy::Id)),
            None => None,
        },
    }
}

/// The character of a decimal digit.
pub open spec fn digit_char(d: int) -> char {
    if d == 0 {
        '0'
    } else if d == 1 {
        '1'
    } else if d == 2 {
        '2'
    } else if d == 3 {
        '3'
    } else if d == 4 {
        '4'
    } else if d == 5 {
        '5'
    } else if d == 6 {
        '6'
    } else if d == 7 {
        '7'
    } else if d == 8 {
        '8'
    } else {
        '9'
    }
}

/// The decimal digits of `n`, without leading zeros.
pub open spec fn decimal(n: nat) -> Seq<char>
    decreases n,
{
    if n < 10 {
        seq![digit_char(n as int)]
    } else {
        decimal(n / 10).push(digit_char((n % 10) as int))
    }
}

/// `s` with zeros in front up to `width` characters.
pub open spec fn zero_padded(s: Seq<char>, width: nat) -> Seq<char> {
    if s.len() >= width {
        s
    } else {
        Seq::new((width - s.len()) as nat, |i: int| '0') + s
    }
}

/// The name of a loose asset: its order index in brackets, with three digits
/// at least, or four where there are a thousand assets or more, then its id.
pub open spec fn wem_file_name_of(index: nat, id: nat, count: nat) -> Seq<char> {
    seq!['['] + zero_padded(decimal(index), if count < 1000 { 3 } else { 4 }) + seq![']'] + decimal(
        id,
    ) + seq!['.', 'w', 'e', 'm']
}

fn digit_str(d: u64) -> (r: &'static str)
    requires
        d < 10,
    ensures
        r@ == seq![digit_char(d as int)],
{
    proof {
        reveal_strlit("0");
        reveal_strlit("1");
        reveal_strlit("2");
        reveal_strlit("3");
        reveal_strlit("4");
        reveal_strlit("5");
        reveal_strlit("6");
        reveal_strlit("7");
        reveal_strlit("8");
        reveal_strlit("9");
    }
    if d == 0 {
        "0"
    } else if d == 1 {
        "1"
    } else if d == 2 {
        "2"
    } else if d == 3 {
        "3"
    } else if d == 4 {
        "4"
    } else if d == 5 {
        "5"
    } else if d == 6 {
        "6"
    } else if d == 7 {
        "7"
    } else if d == 8 {
        "8"
    } else {
        "9"
    }
}

/// Appends the decimal digits of `n`.
fn push_decimal(out: &mut String, n: u64)
    ensures
        final(out)@ == old(out)@ + decimal(n as nat),
    decreases n,
{
    if n >= 10 {
        push_decimal(out, n / 10);
    }
    out.append(digit_str(n % 10));
    assert(final(out)@ =~= old(out)@ + decimal(n as nat));
}

/// The number of decimal digits of `n`.
fn decimal_len(n: u64) -> (r: u64)
    ensures
        r == decimal(n as nat).len(),
        r <= n as int + 1,
    decreases n,
{
    if n >= 10 {
        decimal_len(n / 10) + 1
    } else {
        1
    }
}

/// The name of the loose file for the asset at `index` with `id`, among
/// `count` assets.
pub fn wem_file_name(index: u64, id: u32, count: u64) -> (r: String)
    ensures
        r@ == wem_file_name_of(index as nat, id as nat, count as nat),
{
    proof {
        reveal_strlit("[");
        reveal_strlit("0");
        reveal_strlit("]");
        reveal_strlit(".wem");
    }
    let mut out = String::from_str("[");
    let width: u64 = if count < 1000 { 3 } else { 4 };
    let len = decimal_len(index);
    let ghost digits = decimal(index as nat);
    let mut k: u64 = len;
    while k < width
        invariant
            len <= k,
            k <= width || len >= width,
            len == digits.len(),
            len >= width ==> k == len,
            out@ == seq!['['] + Seq::new((k - len) as nat, |i: int| '0'),
        decreases width - k,
    {
        proof {
            reveal_strlit("0");
        }
        out.append("0");
        k = k + 1;
        assert(out@ =~= seq!['['] + Seq::new((k - len) as nat, |i: int| '0'));
    }
    push_decimal(&mut out, index);
    out.append("]");
    push_decimal(&mut out, id as u64);
    out.append(".wem");
    assert(out@ =~= wem_file_name_of(index as nat, id as nat, count as nat));
    out
}

impl IdOrIndex {
    /// The key as a file stem: the id, or the index in brackets.
    pub fn to_string(&self) -> (r: String)
        ensures
            r@ == match *self {
                IdOrIndex::Id(id) => decimal(id as nat),
                IdOrIndex::Index(i) => seq!['['] + decimal(i as nat) + seq![']'],
            },
    {
        proof {
            reveal_strlit("[");
            reveal_strlit("]");
            reveal_strlit("");
        }
        match self {
            IdOrIndex::Id(id) => {
                let mut out = String::from_str("");
                push_decimal(&mut out, *id as u64);
                assert(out@ =~= decimal(*id as nat));
                out
            },
            IdOrIndex::Index(i) => {
                let mut out = String::from_str("[");
                push_decimal(&mut out, *i as u64);
                out.append("]");
                out
            },
        }
    }
}

/// The output path tried after `path` was found taken: `path` with `.new`
/// appended.
pub fn with_new_suffix(path: &str) -> (r: String)
    ensures
        r@ == path@ + seq!['.', 'n', 'e', 'w'],
{
    proof {
        reveal_strlit(".new");
    }
    let mut out = String::from_str(path);
    out.append(".new");
    out
}

/// An asset for which a replacement keyed by its order index exists takes
/// that one, by index, whatever replacements keyed by its id exist.
pub proof fn lemma_index_key_wins(keys: Seq<IdOrIndex>, index: u32, id: u32, j: int)
    requires
        0 <= j < keys.len(),
        keys[j] == IdOrIndex::Index(index),
    ensures
        replacement_for(keys, index, id) matches Some((i, by)) && by == ReplacedBy::Index
            && keys[i] == IdOrIndex::Index(index),
{
    lemma_last_match_found(keys, IdOrIndex::Index(index), j);
}

proof fn lemma_last_match_found(keys: Seq<IdOrIndex>, k: IdOrIndex, j: int)
    requires
        0 <= j < keys.len(),
        keys[j] == k,
    ensures
        last_match(keys, k) matches Some(i) && j <= i < keys.len() && keys[i] == k,
    decreases keys.len(),
{
    if keys.last() != k {
        lemma_last_match_found(keys.drop_last(), k, j);
    }
}

proof fn lemma_decimal_chars(n: nat)
    ensures
        decimal(n).len() >= 1,
        forall|i: int| 0 <= i < decimal(n).len() ==> '0' <= #[trigger] decimal(n)[i] <= '9',
    decreases n,
{
    if n >= 10 {
        lemma_decimal_chars(n / 10);
        assert forall|i: int| 0 <= i < decimal(n).len() implies '0' <= #[trigger] decimal(n)[i] <= '9' by {
            if i < decimal(n / 10).len() {
                assert(decimal(n)[i] == decimal(n / 10)[i]);
            }
        }
    }
}

/// The digits of `n` written at `s` read back as `n`.
proof fn lemma_decimal_value(b: Seq<u8>, s: int, n: nat)
    requires
        0 <= s,
        s + decimal(n).len() <= b.len(),
        forall|i: int| 0 <= i < decimal(n).len() ==> b[s + i] == (#[trigger] decimal(n)[i]) as u8,
    ensures
        digits_value(b, s, s + decimal(n).len()) == n,
        forall|i: int| 0 <= i < decimal(n).len() ==> is_digit(#[trigger] b[s + i]),
    decreases n,
{
    lemma_decimal_chars(n);
    let e = s + decimal(n).len();
    let d = (n % 10) as int;
    assert(digit_char(d) as u8 == 48 + d);
    if n >= 10 {
        let prev = decimal(n / 10);
        assert forall|i: int| 0 <= i < prev.len() implies b[s + i] == (#[trigger] prev[i]) as u8 by {
            assert(decimal(n)[i] == prev[i]);
        }
        lemma_decimal_value(b, s, n / 10);
        assert(decimal(n).len() == prev.len() + 1);
        assert(decimal(n)[decimal(n).len() - 1] == digit_char(d));
        assert(b[s + (decimal(n).len() - 1)] == decimal(n)[decimal(n).len() - 1] as u8);
        assert(b[e - 1] == 48 + d);
        assert(digits_value(b, s, e) == digits_value(b, s, e - 1) * 10 + (b[e - 1] - 48));
        assert((n / 10) * 10 + n % 10 == n) by {
            vstd::arithmetic::div_mod::lemma_fundamental_div_mod(n as int, 10);
        }
    } else {
        assert(b[s + 0] == decimal(n)[0] as u8);
        assert(digits_value(b, s, s + 1) == digits_value(b, s, s) * 10 + (b[s] - 48));
    }
    assert forall|i: int| 0 <= i < decimal(n).len() implies is_digit(#[trigger] b[s + i]) by {
        assert(b[s + i] == decimal(n)[i] as u8);
        assert('0' <= decimal(n)[i] <= '9');
    }
}

/// Leading zero digits do not change a value.
proof fn lemma_leading_zeros(b: Seq<u8>, s: int, z: int, e: int)
    requires
        0 <= z,
        s + z <= e,
        forall|i: int| s <= i < s + z ==> #[trigger] b[i] == 48,
    ensures
        digits_value(b, s, e) == digits_value(b, s + z, e),
    decreases e - s,
{
    if e > s + z {
        lemma_leading_zeros(b, s, z, e - 1);
    } else if z > 0 {
        lemma_leading_zeros(b, s, z - 1, e - 1);
    }
}

/// A run of `len` digits that ends before a non-digit or the end is that long.
proof fn lemma_digit_run(b: Seq<u8>, s: int, len: int)
    requires
        0 <= s,
        0 <= len,
        s + len <= b.len(),
        forall|i: int| s <= i < s + len ==> is_digit(#[trigger] b[i]),
        s + len == b.len() || !is_digit(b[s + len]),
    ensures
        digit_run(b, s) == len,
    decreases len,
{
    if len > 0 {
        lemma_digit_run(b, s + 1, len - 1);
    }
}

/// The name given to a loose asset reads back as its order index and id.
pub proof fn lemma_wem_name_round_trip(index: u32, id: u32, count: nat)
    ensures
        wem_name_fields(encode_utf8(wem_file_name_of(index as nat, id as nat, count)))
            == Some((index, id)),
{
    let w: nat = if count < 1000 { 3 } else { 4 };
    let di = decimal(index as nat);
    let pad = zero_padded(di, w);
    let dd = decimal(id as nat);
    let name = wem_file_name_of(index as nat, id as nat, count);
    lemma_decimal_chars(index as nat);
    lemma_decimal_chars(id as nat);
    let z: int = pad.len() - di.len();
    assert(forall|i: int| 0 <= i < z ==> pad[i] == '0');
    assert(forall|i: int| 0 <= i < di.len() ==> pad[z + i] == di[i]);
    let l = pad.len() as int;
    let k = dd.len() as int;
    assert(name.len() == 1 + l + 1 + k + 4);
    assert(name[0] == '[');
    assert(forall|i: int| 0 <= i < l ==> name[1 + i] == pad[i]);
    assert(name[1 + l] == ']');
    assert(forall|i: int| 0 <= i < k ==> name[2 + l + i] == dd[i]);
    assert(name[2 + l + k] == '.');
    assert(is_ascii_chars(name)) by {
        assert forall|i: int| 0 <= i < name.len() implies '\0' <= #[trigger] name[i] <= '\u{7f}' by {
            if 1 <= i < 1 + l {
                assert(name[i] == pad[i - 1]);
                if i - 1 >= z {
                    assert(pad[i - 1] == di[i - 1 - z]);
                }
            } else if 2 + l <= i < 2 + l + k {
                assert(name[i] == dd[i - 2 - l]);
            }
        }
    }
    let b = encode_utf8(name);
    is_ascii_chars_encode_utf8(name);
    assert(b.len() == name.len());
    assert(b[0] == name[0] as u8);
    assert forall|i: int| 1 <= i < 1 + z implies #[trigger] b[i] == 48 by {
        assert(b[i] == name[i] as u8);
        assert(name[1 + (i - 1)] == pad[i - 1]);
    }
    assert forall|i: int| 0 <= i < di.len() implies b[1 + z + i] == (#[trigger] di[i]) as u8 by {
        assert(b[1 + z + i] == name[1 + z + i] as u8);
        assert(name[1 + (z + i)] == pad[z + i]);
    }
    assert forall|i: int| 0 <= i < k implies b[2 + l + i] == (#[trigger] dd[i]) as u8 by {
        assert(b[2 + l + i] == name[2 + l + i] as u8);
    }
    lemma_decimal_value(b, 1 + z, index as nat);
    lemma_decimal_value(b, 2 + l, id as nat);
    lemma_leading_zeros(b, 1, z, 1 + l);
    assert forall|i: int| 1 <= i < 1 + l implies is_digit(#[trigger] b[i]) by {
        if i >= 1 + z {
            assert(b[1 + z + (i - 1 - z)] == b[i]);
        }
    }
    assert(b[1 + l] == name[1 + l] as u8);
    assert(b[2 + l + k] == name[2 + l + k] as u8);
    lemma_digit_run(b, 1, l);
    assert forall|i: int| 2 + l <= i < 2 + l + k implies is_digit(#[trigger] b[i]) by {
        assert(b[2 + l + (i - 2 - l)] == b[i]);
    }
    lemma_digit_run(b, 2 + l, k);
}

} // verus!
