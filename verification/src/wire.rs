//! Binary items of the packet wire format.
//!
//! The wire format is the deterministic subset of CBOR that the peers
//! exchange: every item starts with a head that holds a major type and
//! an argument in the shortest of the five forms, text is definite-length
//! UTF-8, and a byte string travels as an array of small unsigned integers.
//! Every encoder here has a parser that undoes it, and the parsers accept
//! nothing but the shortest form.

use vstd::prelude::*;
use vstd::slice::*;
use vstd::utf8::*;

verus! {

/// Major type of an unsigned integer.
pub const MAJOR_UINT: u8 = 0;

/// Major type of a text string.
pub const MAJOR_TEXT: u8 = 3;

/// Major type of an array.
pub const MAJOR_ARRAY: u8 = 4;

/// Major type of a map.
pub const MAJOR_MAP: u8 = 5;

/// The head of an item: major type and argument, shortest form.
pub closed spec fn head_bytes(major: u8, n: u64) -> Seq<u8> {
    if n < 24 {
        seq![(major * 32 + n) as u8]
    } else if n < 0x100 {
        seq![(major * 32 + 24) as u8, n as u8]
    } else if n < 0x1_0000 {
        seq![(major * 32 + 25) as u8, (n / 0x100) as u8, (n % 0x100) as u8]
    } else if n < 0x1_0000_0000 {
        seq![
            (major * 32 + 26) as u8,
            (n / 0x100_0000) as u8,
            (n / 0x1_0000 % 0x100) as u8,
            (n / 0x100 % 0x100) as u8,
            (n % 0x100) as u8,
        ]
    } else {
        seq![
            (major * 32 + 27) as u8,
            (n / 0x100_0000_0000_0000) as u8,
            (n / 0x1_0000_0000_0000 % 0x100) as u8,
            (n / 0x100_0000_0000 % 0x100) as u8,
            (n / 0x1_0000_0000 % 0x100) as u8,
            (n / 0x100_0000 % 0x100) as u8,
            (n / 0x1_0000 % 0x100) as u8,
            (n / 0x100 % 0x100) as u8,
            (n % 0x100) as u8,
        ]
    }
}

/// Big-endian value of the two bytes at the front of `s`.
pub open spec fn be16(s: Seq<u8>) -> int {
    s[0] * 0x100 + s[1]
}

/// Big-endian value of the four bytes at the front of `s`.
pub open spec fn be32(s: Seq<u8>) -> int {
    s[0] * 0x100_0000 + s[1] * 0x1_0000 + s[2] * 0x100 + s[3]
}

/// Big-endian value of the eight bytes at the front of `s`.
pub open spec fn be64(s: Seq<u8>) -> int {
    s[0] * 0x100_0000_0000_0000 + s[1] * 0x1_0000_0000_0000 + s[2] * 0x100_0000_0000 + s[3]
        * 0x1_0000_0000 + s[4] * 0x100_0000 + s[5] * 0x1_0000 + s[6] * 0x100 + s[7]
}

/// Reads one head from the front of `s`: major type, argument and what
/// follows the head. A head that is longer than its argument needs is
/// refused, and so is an indefinite length.
pub closed spec fn parse_head(s: Seq<u8>) -> Option<(u8, u64, Seq<u8>)> {
    if s.len() == 0 {
        None
    } else {
        let major = s[0] / 32;
        let info = s[0] % 32;
        let rest = s.skip(1);
        if info < 24 {
            Some((major, info as u64, rest))
        } else if info == 24 {
            if rest.len() >= 1 && rest[0] >= 24 {
                Some((major, rest[0] as u64, rest.skip(1)))
            } else {
                None
            }
        } else if info == 25 {
            if rest.len() >= 2 && be16(rest) >= 0x100 {
                Some((major, be16(rest) as u64, rest.skip(2)))
            } else {
                None
            }
        } else if info == 26 {
            if rest.len() >= 4 && be32(rest) >= 0x1_0000 {
                Some((major, be32(rest) as u64, rest.skip(4)))
            } else {
                None
            }
        } else if info == 27 {
            if rest.len() >= 8 && be64(rest) >= 0x1_0000_0000 {
                Some((major, be64(rest) as u64, rest.skip(8)))
            } else {
                None
            }
        } else {
            None
        }
    }
}

proof fn lemma_split16(n: u64)
    requires
        0x100 <= n < 0x1_0000,
    ensures
        n / 0x100 < 0x100,
        (n / 0x100) * 0x100 + n % 0x100 == n,
{
    assert(n < 0x1_0000 ==> n / 0x100 < 0x100 && (n / 0x100) * 0x100 + n % 0x100 == n)
        by (bit_vector);
}

proof fn lemma_split32(n: u64)
    requires
        0x1_0000 <= n < 0x1_0000_0000,
    ensures
        n / 0x100_0000 < 0x100,
        (n / 0x100_0000) * 0x100_0000 + (n / 0x1_0000 % 0x100) * 0x1_0000 + (n / 0x100 % 0x100)
            * 0x100 + n % 0x100 == n,
{
    assert(n < 0x1_0000_0000 ==> n / 0x100_0000 < 0x100 && (n / 0x100_0000) * 0x100_0000 + (n
        / 0x1_0000 % 0x100) * 0x1_0000 + (n / 0x100 % 0x100) * 0x100 + n % 0x100 == n)
        by (bit_vector);
}

proof fn lemma_split64(n: u64)
    ensures
        n / 0x100_0000_0000_0000 < 0x100,
        (n / 0x100_0000_0000_0000) * 0x100_0000_0000_0000 + (n / 0x1_0000_0000_0000 % 0x100)
            * 0x1_0000_0000_0000 + (n / 0x100_0000_0000 % 0x100) * 0x100_0000_0000 + (n
            / 0x1_0000_0000 % 0x100) * 0x1_0000_0000 + (n / 0x100_0000 % 0x100) * 0x100_0000 + (n
            / 0x1_0000 % 0x100) * 0x1_0000 + (n / 0x100 % 0x100) * 0x100 + n % 0x100 == n,
{
    assert(n / 0x100_0000_0000_0000 < 0x100 && (n / 0x100_0000_0000_0000)
        * 0x100_0000_0000_0000 + (n / 0x1_0000_0000_0000 % 0x100) * 0x1_0000_0000_0000 + (n
        / 0x100_0000_0000 % 0x100) * 0x100_0000_0000 + (n / 0x1_0000_0000 % 0x100)
        * 0x1_0000_0000 + (n / 0x100_0000 % 0x100) * 0x100_0000 + (n / 0x1_0000 % 0x100)
        * 0x1_0000 + (n / 0x100 % 0x100) * 0x100 + n % 0x100 == n) by (bit_vector);
}

/// A head has at least one byte.
pub proof fn lemma_head_not_empty(major: u8, n: u64)
    ensures
        head_bytes(major, n).len() >= 1,
{
}

/// A head that is written and read again gives the same major type and
/// argument, and leaves what followed it.
pub proof fn lemma_head_round_trip(major: u8, n: u64, rest: Seq<u8>)
    requires
        major < 8,
    ensures
        parse_head(head_bytes(major, n) + rest) == Some((major, n, rest)),
{
    let h = head_bytes(major, n);
    let s = h + rest;
    let r = s.skip(1);
    assert(s[0] == h[0]);
    if n < 24 {
        assert(r =~= rest);
    } else if n < 0x100 {
        assert(r.skip(1) =~= rest);
        assert(r[0] == h[1]);
    } else if n < 0x1_0000 {
        lemma_split16(n);
        assert(r[0] == h[1] && r[1] == h[2]);
        assert(r.skip(2) =~= rest);
    } else if n < 0x1_0000_0000 {
        lemma_split32(n);
        assert(r[0] == h[1] && r[1] == h[2] && r[2] == h[3] && r[3] == h[4]);
        assert(r.skip(4) =~= rest);
    } else {
        lemma_split64(n);
        assert(r[0] == h[1] && r[1] == h[2] && r[2] == h[3] && r[3] == h[4]);
        assert(r[4] == h[5] && r[5] == h[6] && r[6] == h[7] && r[7] == h[8]);
        assert(r.skip(8) =~= rest);
    }
}

/// Appends the head of an item to `out`.
pub fn write_head(out: &mut Vec<u8>, major: u8, n: u64)
    requires
        major < 8,
    ensures
        final(out)@ == old(out)@ + head_bytes(major, n),
{
    let m: u8 = major * 32;
    if n < 24 {
        out.push(m + (n as u8));
    } else if n < 0x100 {
        out.push(m + 24);
        out.push(n as u8);
    } else if n < 0x1_0000 {
        out.push(m + 25);
        out.push((n / 0x100) as u8);
        out.push((n % 0x100) as u8);
    } else if n < 0x1_0000_0000 {
        out.push(m + 26);
        out.push((n / 0x100_0000) as u8);
        out.push((n / 0x1_0000 % 0x100) as u8);
        out.push((n / 0x100 % 0x100) as u8);
        out.push((n % 0x100) as u8);
    } else {
        out.push(m + 27);
        out.push((n / 0x100_0000_0000_0000) as u8);
        out.push((n / 0x1_0000_0000_0000 % 0x100) as u8);
        out.push((n / 0x100_0000_0000 % 0x100) as u8);
        out.push((n / 0x1_0000_0000 % 0x100) as u8);
        out.push((n / 0x100_0000 % 0x100) as u8);
        out.push((n / 0x1_0000 % 0x100) as u8);
        out.push((n / 0x100 % 0x100) as u8);
        out.push((n % 0x100) as u8);
    }
    assert(out@ =~= old(out)@ + head_bytes(major, n));
}

fn read_be16(b: &[u8], at: usize) -> (v: u64)
    requires
        at + 2 <= b@.len(),
    ensures
        v == be16(b@.skip(at as int)),
        b@.skip(at as int).skip(2) == b@.skip(at + 2),
{
    let ghost r = b@.skip(at as int);
    assert(r[0] == b@[at as int] && r[1] == b@[at + 1]);
    assert(r.skip(2) =~= b@.skip(at + 2));
    (b[at] as u64) * 0x100 + (b[at + 1] as u64)
}

fn read_be32(b: &[u8], at: usize) -> (v: u64)
    requires
        at + 4 <= b@.len(),
    ensures
        v == be32(b@.skip(at as int)),
        b@.skip(at as int).skip(4) == b@.skip(at + 4),
{
    let ghost r = b@.skip(at as int);
    assert(r[0] == b@[at as int] && r[1] == b@[at + 1] && r[2] == b@[at + 2] && r[3] == b@[at
        + 3]);
    assert(r.skip(4) =~= b@.skip(at + 4));
    (b[at] as u64) * 0x100_0000 + (b[at + 1] as u64) * 0x1_0000 + (b[at + 2] as u64) * 0x100 + (
    b[at + 3] as u64)
}

fn read_be64(b: &[u8], at: usize) -> (v: u64)
    requires
        at + 8 <= b@.len(),
    ensures
        v == be64(b@.skip(at as int)),
        b@.skip(at as int).skip(8) == b@.skip(at + 8),
{
    let ghost r = b@.skip(at as int);
    assert(r[0] == b@[at as int] && r[1] == b@[at + 1] && r[2] == b@[at + 2] && r[3] == b@[at
        + 3]);
    assert(r[4] == b@[at + 4] && r[5] == b@[at + 5] && r[6] == b@[at + 6] && r[7] == b@[at
        + 7]);
    assert(r.skip(8) =~= b@.skip(at + 8));
    let hi: u64 = (b[at] as u64) * 0x100_0000 + (b[at + 1] as u64) * 0x1_0000 + (b[at
        + 2] as u64) * 0x100 + (b[at + 3] as u64);
    let lo: u64 = (b[at + 4] as u64) * 0x100_0000 + (b[at + 5] as u64) * 0x1_0000 + (b[at
        + 6] as u64) * 0x100 + (b[at + 7] as u64);
    hi * 0x1_0000_0000 + lo
}

/// Reads the head at `pos`. On success the result holds the major type,
/// the argument and the position behind the head.
pub fn read_head(b: &[u8], pos: usize) -> (r: Option<(u8, u64, usize)>)
    requires
        pos <= b@.len(),
    ensures
        match r {
            Some((major, n, next)) => {
                &&& pos < next <= b@.len()
                &&& major < 8
                &&& parse_head(b@.skip(pos as int)) == Some((major, n, b@.skip(next as int)))
            },
            None => parse_head(b@.skip(pos as int)) is None,
        },
{
    let len = b.len();
    if pos >= len {
        return None;
    }
    let ghost s = b@.skip(pos as int);
    let first: u8 = b[pos];
    let major: u8 = first / 32;
    let info: u8 = first % 32;
    let avail: usize = len - pos - 1;
    assert(s[0] == first);
    assert(s.skip(1) =~= b@.skip(pos + 1));
    if info < 24 {
        Some((major, info as u64, pos + 1))
    } else if info == 24 {
        if avail < 1 {
            return None;
        }
        let v: u8 = b[pos + 1];
        assert(s.skip(1)[0] == v);
        assert(s.skip(1).skip(1) =~= b@.skip(pos + 2));
        if v >= 24 {
            Some((major, v as u64, pos + 2))
        } else {
            None
        }
    } else if info == 25 {
        if avail < 2 {
            return None;
        }
        let v = read_be16(b, pos + 1);
        if v >= 0x100 {
            Some((major, v, pos + 3))
        } else {
            None
        }
    } else if info == 26 {
        if avail < 4 {
            return None;
        }
        let v = read_be32(b, pos + 1);
        if v >= 0x1_0000 {
            Some((major, v, pos + 5))
        } else {
            None
        }
    } else if info == 27 {
        if avail < 8 {
            return None;
        }
        let v = read_be64(b, pos + 1);
        if v >= 0x1_0000_0000 {
            Some((major, v, pos + 9))
        } else {
            None
        }
    } else {
        None
    }
}

/// Appends a copy of `src` to `out`.
pub fn append_bytes(out: &mut Vec<u8>, src: &[u8])
    ensures
        final(out)@ == old(out)@ + src@,
{
    let n = src.len();
    let mut i: usize = 0;
    while i < n
        invariant
            i <= n,
            n == src@.len(),
            out@ == old(out)@ + src@.take(i as int),
        decreases n - i,
    {
        out.push(src[i]);
        i = i + 1;
        assert(src@.take(i as int) =~= src@.take(i - 1).push(src@[i - 1]));
    }
    assert(src@.take(n as int) =~= src@);
}

/// The bytes of `b` from `from` up to `to`, copied.
pub fn copy_range(b: &[u8], from: usize, to: usize) -> (out: Vec<u8>)
    requires
        from <= to <= b@.len(),
    ensures
        out@ == b@.subrange(from as int, to as int),
{
    let mut out: Vec<u8> = Vec::new();
    let mut i: usize = from;
    while i < to
        invariant
            from <= i <= to <= b@.len(),
            out@ == b@.subrange(from as int, i as int),
        decreases to - i,
    {
        out.push(b[i]);
        i = i + 1;
        assert(b@.subrange(from as int, i as int) =~= b@.subrange(from as int, i - 1).push(
            b@[i - 1],
        ));
    }
    out
}

/// A copy of `v`.
pub fn clone_bytes(v: &Vec<u8>) -> (out: Vec<u8>)
    ensures
        out@ == v@,
{
    let out = copy_range(v.as_slice(), 0, v.len());
    assert(v@.subrange(0, v@.len() as int) =~= v@);
    out
}

/// The bytes of an array, as a vector.
pub fn array_to_vec<const N: usize>(a: &[u8; N]) -> (out: Vec<u8>)
    ensures
        out@ == a@,
{
    let out = copy_range(a.as_slice(), 0, N);
    assert(a@.subrange(0, N as int) =~= a@);
    out
}

/// The bytes of `v` as an array of `N` bytes, where `v` holds `N` bytes.
pub fn array_from_slice<const N: usize>(v: &[u8]) -> (r: Option<[u8; N]>)
    ensures
        r is Some <==> v@.len() == N,
        r matches Some(a) ==> a@ == v@,
{
    if v.len() != N {
        return None;
    }
    let mut a: [u8; N] = vstd::array::array_fill_for_copy_types::<u8, N>(0u8);
    let mut i: usize = 0;
    while i < N
        invariant
            i <= N,
            v@.len() == N,
            forall|j: int| 0 <= j < i ==> a@[j] == v@[j],
        decreases N - i,
    {
        a[i] = v[i];
        i = i + 1;
    }
    assert(a@ =~= v@);
    Some(a)
}

/// `String::from_utf8` of std: the text that `bytes` spell in UTF-8, or
/// nothing where they are not well-formed UTF-8.
#[verifier::external_body]
pub(crate) fn string_from_utf8(bytes: Vec<u8>) -> (r: Option<String>)
    ensures
        r is Some <==> valid_utf8(bytes@),
        r matches Some(t) ==> t@ == decode_utf8(bytes@),
{
    String::from_utf8(bytes).ok()
}

/// An unsigned integer on the wire.
pub closed spec fn uint_bytes(n: u64) -> Seq<u8> {
    head_bytes(MAJOR_UINT, n)
}

/// Reads an unsigned integer from the front of `s`.
pub closed spec fn parse_uint(s: Seq<u8>) -> Option<(u64, Seq<u8>)> {
    match parse_head(s) {
        Some((major, n, rest)) => if major == MAJOR_UINT {
            Some((n, rest))
        } else {
            None
        },
        None => None,
    }
}

/// Appends an unsigned integer to `out`.
pub fn write_uint(out: &mut Vec<u8>, n: u64)
    ensures
        final(out)@ == old(out)@ + uint_bytes(n),
{
    write_head(out, MAJOR_UINT, n);
}

/// Reads the unsigned integer at `pos`.
pub fn read_uint(b: &[u8], pos: usize) -> (r: Option<(u64, usize)>)
    requires
        pos <= b@.len(),
    ensures
        match r {
            Some((n, next)) => pos < next <= b@.len() && parse_uint(b@.skip(pos as int)) == Some(
                (n, b@.skip(next as int)),
            ),
            None => parse_uint(b@.skip(pos as int)) is None,
        },
{
    match read_head(b, pos) {
        Some((major, n, next)) => if major == MAJOR_UINT {
            Some((n, next))
        } else {
            None
        },
        None => None,
    }
}

/// The head of a map of `n` entries or of an array of `n` items, read
/// from the front of `s`.
pub closed spec fn parse_count(s: Seq<u8>, major: u8) -> Option<(u64, Seq<u8>)> {
    match parse_head(s) {
        Some((m, n, rest)) => if m == major {
            Some((n, rest))
        } else {
            None
        },
        None => None,
    }
}

/// Reads at `pos` the head of an item of major type `major`.
pub fn read_count(b: &[u8], pos: usize, major: u8) -> (r: Option<(u64, usize)>)
    requires
        pos <= b@.len(),
    ensures
        match r {
            Some((n, next)) => pos < next <= b@.len() && parse_count(b@.skip(pos as int), major)
                == Some((n, b@.skip(next as int))),
            None => parse_count(b@.skip(pos as int), major) is None,
        },
{
    match read_head(b, pos) {
        Some((m, n, next)) => if m == major {
            Some((n, next))
        } else {
            None
        },
        None => None,
    }
}

/// A text whose UTF-8 length a head can hold.
pub open spec fn text_fits(t: Seq<char>) -> bool {
    encode_utf8(t).len() <= u64::MAX
}

/// A text string on the wire: its byte length, then its UTF-8 bytes.
pub closed spec fn text_bytes(t: Seq<char>) -> Seq<u8> {
    head_bytes(MAJOR_TEXT, encode_utf8(t).len() as u64) + encode_utf8(t)
}

/// Reads a text string from the front of `s`.
pub closed spec fn parse_text(s: Seq<u8>) -> Option<(Seq<char>, Seq<u8>)> {
    match parse_head(s) {
        Some((major, n, rest)) => if major == MAJOR_TEXT && n <= rest.len() && valid_utf8(
            rest.take(n as int),
        ) {
            Some((decode_utf8(rest.take(n as int)), rest.skip(n as int)))
        } else {
            None
        },
        None => None,
    }
}

/// A text that is written and read again is the same text.
pub proof fn lemma_text_round_trip(t: Seq<char>, rest: Seq<u8>)
    requires
        text_fits(t),
    ensures
        parse_text(text_bytes(t) + rest) == Some((t, rest)),
{
    let u = encode_utf8(t);
    let h = head_bytes(MAJOR_TEXT, u.len() as u64);
    assert(text_bytes(t) + rest =~= h + (u + rest));
    lemma_head_round_trip(MAJOR_TEXT, u.len() as u64, u + rest);
    assert((u + rest).take(u.len() as int) =~= u);
    assert((u + rest).skip(u.len() as int) =~= rest);
    encode_utf8_valid_utf8(t);
    encode_utf8_decode_utf8(t);
}

/// Appends a text string to `out`.
pub fn write_text(out: &mut Vec<u8>, t: &str)
    ensures
        final(out)@ == old(out)@ + text_bytes(t@),
        text_fits(t@),
{
    let bytes = t.as_bytes();
    write_head(out, MAJOR_TEXT, bytes.len() as u64);
    append_bytes(out, bytes);
    assert(out@ =~= old(out)@ + text_bytes(t@));
}

/// Reads the text string at `pos`.
pub fn read_text(b: &[u8], pos: usize) -> (r: Option<(String, usize)>)
    requires
        pos <= b@.len(),
    ensures
        match r {
            Some((t, next)) => pos < next <= b@.len() && parse_text(b@.skip(pos as int)) == Some(
                (t@, b@.skip(next as int)),
            ),
            None => parse_text(b@.skip(pos as int)) is None,
        },
{
    match read_head(b, pos) {
        Some((major, n, start)) => {
            let ghost rest = b@.skip(start as int);
            if major != MAJOR_TEXT || n > (b.len() - start) as u64 {
                return None;
            }
            let end: usize = start + (n as usize);
            let raw = copy_range(b, start, end);
            assert(rest.take(n as int) =~= raw@);
            assert(rest.skip(n as int) =~= b@.skip(end as int));
            match string_from_utf8(raw) {
                Some(t) => Some((t, end)),
                None => None,
            }
        },
        None => None,
    }
}

/// The items of a byte string on the wire: one unsigned integer a byte.
pub open spec fn byte_items(b: Seq<u8>) -> Seq<u8>
    decreases b.len(),
{
    if b.len() == 0 {
        Seq::<u8>::empty()
    } else {
        uint_bytes(b[0] as u64) + byte_items(b.drop_first())
    }
}

/// A byte string on the wire: an array of its bytes.
pub closed spec fn byte_list_bytes(b: Seq<u8>) -> Seq<u8> {
    head_bytes(MAJOR_ARRAY, b.len() as u64) + byte_items(b)
}

/// Reads `count` bytes, one unsigned integer each, from the front of `s`.
pub open spec fn parse_byte_items(s: Seq<u8>, count: nat) -> Option<(Seq<u8>, Seq<u8>)>
    decreases count,
{
    if count == 0 {
        Some((Seq::<u8>::empty(), s))
    } else {
        match parse_uint(s) {
            Some((n, rest)) => if n < 0x100 {
                match parse_byte_items(rest, (count - 1) as nat) {
                    Some((tail, after)) => Some((seq![n as u8] + tail, after)),
                    None => None,
                }
            } else {
                None
            },
            None => None,
        }
    }
}

/// Reads a byte string from the front of `s`.
pub closed spec fn parse_byte_list(s: Seq<u8>) -> Option<(Seq<u8>, Seq<u8>)> {
    match parse_count(s, MAJOR_ARRAY) {
        Some((n, rest)) => parse_byte_items(rest, n as nat),
        None => None,
    }
}

proof fn lemma_byte_items_push(b: Seq<u8>, x: u8)
    ensures
        byte_items(b.push(x)) == byte_items(b) + uint_bytes(x as u64),
    decreases b.len(),
{
    if b.len() == 0 {
        assert(b.push(x).drop_first() =~= Seq::<u8>::empty());
        assert(byte_items(b.push(x).drop_first()) =~= Seq::<u8>::empty());
        assert(b.push(x)[0] == x);
        assert(byte_items(b.push(x)) =~= byte_items(b) + uint_bytes(x as u64));
    } else {
        assert(b.push(x).drop_first() =~= b.drop_first().push(x));
        lemma_byte_items_push(b.drop_first(), x);
        assert(byte_items(b.push(x)) =~= byte_items(b) + uint_bytes(x as u64));
    }
}

proof fn lemma_byte_items_round_trip(b: Seq<u8>, rest: Seq<u8>)
    ensures
        parse_byte_items(byte_items(b) + rest, b.len()) == Some((b, rest)),
    decreases b.len(),
{
    if b.len() == 0 {
        assert(byte_items(b) + rest =~= rest);
        assert(b =~= Seq::<u8>::empty());
    } else {
        let tail = b.drop_first();
        assert(byte_items(b) + rest =~= uint_bytes(b[0] as u64) + (byte_items(tail) + rest));
        lemma_head_round_trip(MAJOR_UINT, b[0] as u64, byte_items(tail) + rest);
        lemma_byte_items_round_trip(tail, rest);
        assert(seq![b[0]] + tail =~= b);
    }
}

/// A byte string that is written and read again is the same byte string.
pub proof fn lemma_byte_list_round_trip(b: Seq<u8>, rest: Seq<u8>)
    requires
        b.len() <= u64::MAX,
    ensures
        parse_byte_list(byte_list_bytes(b) + rest) == Some((b, rest)),
{
    assert(byte_list_bytes(b) + rest =~= head_bytes(MAJOR_ARRAY, b.len() as u64) + (byte_items(b)
        + rest));
    lemma_head_round_trip(MAJOR_ARRAY, b.len() as u64, byte_items(b) + rest);
    lemma_byte_items_round_trip(b, rest);
}

/// Appends a byte string to `out`.
pub fn write_byte_list(out: &mut Vec<u8>, b: &[u8])
    ensures
        final(out)@ == old(out)@ + byte_list_bytes(b@),
{
    let n = b.len();
    write_head(out, MAJOR_ARRAY, n as u64);
    let ghost base = out@;
    let mut i: usize = 0;
    assert(byte_items(b@.take(0)) =~= Seq::<u8>::empty());
    while i < n
        invariant
            i <= n,
            n == b@.len(),
            out@ == base + byte_items(b@.take(i as int)),
        decreases n - i,
    {
        write_uint(out, b[i] as u64);
        proof {
            lemma_byte_items_push(b@.take(i as int), b@[i as int]);
            assert(b@.take(i + 1) =~= b@.take(i as int).push(b@[i as int]));
        }
        i = i + 1;
    }
    assert(b@.take(n as int) =~= b@);
    assert(out@ =~= old(out)@ + byte_list_bytes(b@));
}

/// Reads the byte string at `pos`.
pub fn read_byte_list(b: &[u8], pos: usize) -> (r: Option<(Vec<u8>, usize)>)
    requires
        pos <= b@.len(),
    ensures
        match r {
            Some((v, next)) => pos < next <= b@.len() && parse_byte_list(b@.skip(pos as int))
                == Some((v@, b@.skip(next as int))),
            None => parse_byte_list(b@.skip(pos as int)) is None,
        },
{
    let (count, start) = match read_count(b, pos, MAJOR_ARRAY) {
        Some(c) => c,
        None => {
            return None;
        },
    };
    if count > (b.len() - start) as u64 {
        proof {
            lemma_byte_items_short(b@.skip(start as int), count as nat);
        }
        return None;
    }
    let mut out: Vec<u8> = Vec::new();
    let mut cur: usize = start;
    let mut left: u64 = count;
    let ghost whole = parse_byte_items(b@.skip(start as int), count as nat);
    while left > 0
        invariant
            pos < start <= cur <= b@.len(),
            left <= count,
            parse_count(b@.skip(pos as int), MAJOR_ARRAY) == Some((count, b@.skip(start as int))),
            whole == parse_byte_items(b@.skip(start as int), count as nat),
            whole == match parse_byte_items(b@.skip(cur as int), left as nat) {
                Some((tail, after)) => Some((out@ + tail, after)),
                None => None,
            },
        decreases left,
    {
        match read_uint(b, cur) {
            Some((n, next)) => {
                if n >= 0x100 {
                    return None;
                }
                proof {
                    let tail_parse = parse_byte_items(b@.skip(next as int), (left - 1) as nat);
                    if tail_parse is Some {
                        assert(out@ + (seq![n as u8] + (tail_parse->0).0) =~= out@.push(n as u8)
                            + (tail_parse->0).0);
                    }
                }
                out.push(n as u8);
                cur = next;
                left = left - 1;
            },
            None => {
                return None;
            },
        }
    }
    assert(out@ + Seq::<u8>::empty() =~= out@);
    Some((out, cur))
}

/// Fewer bytes than items cannot hold the items.
proof fn lemma_byte_items_short(s: Seq<u8>, count: nat)
    requires
        s.len() < count,
    ensures
        parse_byte_items(s, count) is None,
    decreases count,
{
    if count > 0 {
        match parse_uint(s) {
            Some((n, rest)) => {
                assert(rest.len() < s.len());
                if n < 0x100 {
                    lemma_byte_items_short(rest, (count - 1) as nat);
                }
            },
            None => {},
        }
    }
}

/// The number of bytes that `t` takes in UTF-8.
pub fn utf8_len(t: &str) -> (n: usize)
    ensures
        n == encode_utf8(t@).len(),
{
    t.as_bytes().len()
}

/// UTF-8 takes at most four bytes a character.
pub proof fn lemma_utf8_len_bound(t: Seq<char>)
    ensures
        encode_utf8(t).len() <= 4 * t.len(),
    decreases t.len(),
{
    if t.len() > 0 {
        lemma_utf8_len_bound(t.drop_first());
    }
}

/// Whether two texts are the same, character by character.
pub fn str_eq(a: &str, b: &str) -> (r: bool)
    ensures
        r == (a@ == b@),
{
    let x = a.as_bytes();
    let y = b.as_bytes();
    proof {
        encode_utf8_decode_utf8(a@);
        encode_utf8_decode_utf8(b@);
    }
    if x.len() != y.len() {
        return false;
    }
    let n = x.len();
    let mut i: usize = 0;
    while i < n
        invariant
            i <= n,
            n == x@.len(),
            n == y@.len(),
            x@ == encode_utf8(a@),
            y@ == encode_utf8(b@),
            forall|j: int| 0 <= j < i ==> x@[j] == y@[j],
        decreases n - i,
    {
        if x[i] != y[i] {
            return false;
        }
        i = i + 1;
    }
    assert(x@ =~= y@);
    true
}

/// Whether two byte strings are the same.
pub fn bytes_eq(x: &[u8], y: &[u8]) -> (r: bool)
    ensures
        r == (x@ == y@),
{
    if x.len() != y.len() {
        return false;
    }
    let n = x.len();
    let mut i: usize = 0;
    while i < n
        invariant
            i <= n,
            n == x@.len(),
            n == y@.len(),
            forall|j: int| 0 <= j < i ==> x@[j] == y@[j],
        decreases n - i,
    {
        if x[i] != y[i] {
            return false;
        }
        i = i + 1;
    }
    assert(x@ =~= y@);
    true
}

/// Reads the text `key` from the front of `s` and gives what follows it.
pub closed spec fn parse_key(s: Seq<u8>, key: Seq<char>) -> Option<Seq<u8>> {
    match parse_text(s) {
        Some((t, rest)) => if t == key {
            Some(rest)
        } else {
            None
        },
        None => None,
    }
}

/// Reads the text `key` at `pos` and gives the position behind it.
pub fn read_key(b: &[u8], pos: usize, key: &str) -> (r: Option<usize>)
    requires
        pos <= b@.len(),
    ensures
        match r {
            Some(next) => pos < next <= b@.len() && parse_key(b@.skip(pos as int), key@) == Some(
                b@.skip(next as int),
            ),
            None => parse_key(b@.skip(pos as int), key@) is None,
        },
{
    match read_text(b, pos) {
        Some((t, next)) => if str_eq(t.as_str(), key) {
            Some(next)
        } else {
            None
        },
        None => None,
    }
}

/// The head of a map or of an array that is written is read with the same
/// count.
pub proof fn lemma_count_round_trip(major: u8, n: u64, rest: Seq<u8>)
    requires
        major < 8,
    ensures
        parse_count(head_bytes(major, n) + rest, major) == Some((n, rest)),
{
    lemma_head_round_trip(major, n, rest);
}

/// A key that is written is read as that key.
pub proof fn lemma_key_round_trip(key: Seq<char>, rest: Seq<u8>)
    requires
        text_fits(key),
    ensures
        parse_key(text_bytes(key) + rest, key) == Some(rest),
{
    lemma_text_round_trip(key, rest);
}

/// A map entry with a text value: key, then value.
pub closed spec fn text_field_bytes(key: Seq<char>, value: Seq<char>) -> Seq<u8> {
    text_bytes(key) + text_bytes(value)
}

/// A map entry with an unsigned integer value: key, then value.
pub closed spec fn uint_field_bytes(key: Seq<char>, value: u64) -> Seq<u8> {
    text_bytes(key) + uint_bytes(value)
}

/// A map entry with a byte string value: key, then value.
pub closed spec fn bytes_field_bytes(key: Seq<char>, value: Seq<u8>) -> Seq<u8> {
    text_bytes(key) + byte_list_bytes(value)
}

/// Reads a map entry with the key `key` and a text value.
pub closed spec fn parse_text_field(s: Seq<u8>, key: Seq<char>) -> Option<(Seq<char>, Seq<u8>)> {
    match parse_key(s, key) {
        Some(rest) => parse_text(rest),
        None => None,
    }
}

/// Reads a map entry with the key `key` and an unsigned integer value.
pub closed spec fn parse_uint_field(s: Seq<u8>, key: Seq<char>) -> Option<(u64, Seq<u8>)> {
    match parse_key(s, key) {
        Some(rest) => parse_uint(rest),
        None => None,
    }
}

/// Reads a map entry with the key `key` and a byte string value.
pub closed spec fn parse_bytes_field(s: Seq<u8>, key: Seq<char>) -> Option<(Seq<u8>, Seq<u8>)> {
    match parse_key(s, key) {
        Some(rest) => parse_byte_list(rest),
        None => None,
    }
}

/// A text entry that is written and read again holds the same value.
pub proof fn lemma_text_field_round_trip(key: Seq<char>, value: Seq<char>, rest: Seq<u8>)
    requires
        text_fits(key),
        text_fits(value),
    ensures
        parse_text_field(text_field_bytes(key, value) + rest, key) == Some((value, rest)),
{
    assert(text_field_bytes(key, value) + rest =~= text_bytes(key) + (text_bytes(value) + rest));
    lemma_key_round_trip(key, text_bytes(value) + rest);
    lemma_text_round_trip(value, rest);
}

/// An integer entry that is written and read again holds the same value.
pub proof fn lemma_uint_field_round_trip(key: Seq<char>, value: u64, rest: Seq<u8>)
    requires
        text_fits(key),
    ensures
        parse_uint_field(uint_field_bytes(key, value) + rest, key) == Some((value, rest)),
{
    assert(uint_field_bytes(key, value) + rest =~= text_bytes(key) + (uint_bytes(value) + rest));
    lemma_key_round_trip(key, uint_bytes(value) + rest);
    lemma_head_round_trip(MAJOR_UINT, value, rest);
}

/// A byte string entry that is written and read again holds the same
/// value.
pub proof fn lemma_bytes_field_round_trip(key: Seq<char>, value: Seq<u8>, rest: Seq<u8>)
    requires
        text_fits(key),
        value.len() <= u64::MAX,
    ensures
        parse_bytes_field(bytes_field_bytes(key, value) + rest, key) == Some((value, rest)),
{
    assert(bytes_field_bytes(key, value) + rest =~= text_bytes(key) + (byte_list_bytes(value)
        + rest));
    lemma_key_round_trip(key, byte_list_bytes(value) + rest);
    lemma_byte_list_round_trip(value, rest);
}

proof fn lemma_join16(a: u64, b: u64)
    requires
        a < 0x100,
        b < 0x100,
    ensures
        a * 0x100 + b < 0x1_0000,
        (a * 0x100 + b) / 0x100 == a,
        (a * 0x100 + b) % 0x100 == b,
{
    assert(a < 0x100 && b < 0x100 ==> a * 0x100 + b < 0x1_0000 && (a * 0x100 + b) / 0x100 == a
        && (a * 0x100 + b) % 0x100 == b) by (bit_vector);
}

proof fn lemma_join32(a: u64, b: u64, c: u64, d: u64)
    requires
        a < 0x100,
        b < 0x100,
        c < 0x100,
        d < 0x100,
    ensures
        ({
            let n = a * 0x100_0000 + b * 0x1_0000 + c * 0x100 + d;
            &&& n < 0x1_0000_0000
            &&& n / 0x100_0000 == a
            &&& n / 0x1_0000 % 0x100 == b
            &&& n / 0x100 % 0x100 == c
            &&& n % 0x100 == d
        }),
{
    assert(a < 0x100 && b < 0x100 && c < 0x100 && d < 0x100 ==> ({
        let n = a * 0x100_0000 + b * 0x1_0000 + c * 0x100 + d;
        &&& n < 0x1_0000_0000
        &&& n / 0x100_0000 == a
        &&& n / 0x1_0000 % 0x100 == b
        &&& n / 0x100 % 0x100 == c
        &&& n % 0x100 == d
    })) by (bit_vector);
}

proof fn lemma_join64(hi: u64, lo: u64)
    requires
        hi < 0x1_0000_0000,
        lo < 0x1_0000_0000,
    ensures
        ({
            let n = hi * 0x1_0000_0000 + lo;
            &&& n <= u64::MAX
            &&& n / 0x100_0000_0000_0000 == hi / 0x100_0000
            &&& n / 0x1_0000_0000_0000 % 0x100 == hi / 0x1_0000 % 0x100
            &&& n / 0x100_0000_0000 % 0x100 == hi / 0x100 % 0x100
            &&& n / 0x1_0000_0000 % 0x100 == hi % 0x100
            &&& n / 0x100_0000 % 0x100 == lo / 0x100_0000
            &&& n / 0x1_0000 % 0x100 == lo / 0x1_0000 % 0x100
            &&& n / 0x100 % 0x100 == lo / 0x100 % 0x100
            &&& n % 0x100 == lo % 0x100
        }),
{
    assert(hi < 0x1_0000_0000 && lo < 0x1_0000_0000 ==> ({
        let n = hi * 0x1_0000_0000 + lo;
        &&& n <= 0xffff_ffff_ffff_ffff
        &&& n / 0x100_0000_0000_0000 == hi / 0x100_0000
        &&& n / 0x1_0000_0000_0000 % 0x100 == hi / 0x1_0000 % 0x100
        &&& n / 0x100_0000_0000 % 0x100 == hi / 0x100 % 0x100
        &&& n / 0x1_0000_0000 % 0x100 == hi % 0x100
        &&& n / 0x100_0000 % 0x100 == lo / 0x100_0000
        &&& n / 0x1_0000 % 0x100 == lo / 0x1_0000 % 0x100
        &&& n / 0x100 % 0x100 == lo / 0x100 % 0x100
        &&& n % 0x100 == lo % 0x100
    })) by (bit_vector);
}

/// A head that is read is the head that is written for what was read:
/// one major type and one argument have one head.
pub proof fn lemma_head_read_is_written(s: Seq<u8>)
    requires
        parse_head(s) is Some,
    ensures
        parse_head(s) matches Some((major, n, rest)) && major < 8 && s == head_bytes(major, n)
            + rest,
{
    let major = s[0] / 32;
    let info = s[0] % 32;
    let r = s.skip(1);
    let (_, n, _) = parse_head(s)->0;
    let h = head_bytes(major, n);
    assert(major * 32 + info == s[0]);
    if info < 24 {
        assert(s =~= h + r);
    } else if info == 24 {
        assert(s =~= h + r.skip(1));
    } else if info == 25 {
        lemma_join16(r[0] as u64, r[1] as u64);
        assert(n == r[0] as u64 * 0x100 + r[1] as u64);
        assert(h.len() == 3 && h[1] == r[0] && h[2] == r[1]);
        assert(s =~= h + r.skip(2));
    } else if info == 26 {
        lemma_join32(r[0] as u64, r[1] as u64, r[2] as u64, r[3] as u64);
        assert(n == r[0] as u64 * 0x100_0000 + r[1] as u64 * 0x1_0000 + r[2] as u64 * 0x100
            + r[3] as u64);
        assert(h.len() == 5 && h[1] == r[0] && h[2] == r[1] && h[3] == r[2] && h[4] == r[3]);
        assert(s =~= h + r.skip(4));
    } else {
        let hi = r[0] as u64 * 0x100_0000 + r[1] as u64 * 0x1_0000 + r[2] as u64 * 0x100
            + r[3] as u64;
        let lo = r[4] as u64 * 0x100_0000 + r[5] as u64 * 0x1_0000 + r[6] as u64 * 0x100
            + r[7] as u64;
        lemma_join32(r[0] as u64, r[1] as u64, r[2] as u64, r[3] as u64);
        lemma_join32(r[4] as u64, r[5] as u64, r[6] as u64, r[7] as u64);
        lemma_join64(hi as u64, lo as u64);
        assert(n == hi * 0x1_0000_0000 + lo);
        assert(h.len() == 9 && h[1] == r[0] && h[2] == r[1] && h[3] == r[2] && h[4] == r[3]);
        assert(h[5] == r[4] && h[6] == r[5] && h[7] == r[6] && h[8] == r[7]);
        assert(s =~= h + r.skip(8));
    }
}

/// An unsigned integer that is read is the one that is written for it.
pub proof fn lemma_uint_read_is_written(s: Seq<u8>)
    requires
        parse_uint(s) is Some,
    ensures
        parse_uint(s) matches Some((n, rest)) && s == uint_bytes(n) + rest,
{
    lemma_head_read_is_written(s);
}

/// The head of a map or of an array that is read is the one that is
/// written for its count.
pub proof fn lemma_count_read_is_written(s: Seq<u8>, major: u8)
    requires
        parse_count(s, major) is Some,
    ensures
        major < 8,
        parse_count(s, major) matches Some((n, rest)) && s == head_bytes(major, n) + rest,
{
    lemma_head_read_is_written(s);
}

/// A text that is read is the one that is written for it.
pub proof fn lemma_text_read_is_written(s: Seq<u8>)
    requires
        parse_text(s) is Some,
    ensures
        parse_text(s) matches Some((t, rest)) && text_fits(t) && s == text_bytes(t) + rest,
{
    lemma_head_read_is_written(s);
    let (_, n, r) = parse_head(s)->0;
    let body = r.take(n as int);
    decode_utf8_encode_utf8(body);
    assert(r =~= body + r.skip(n as int));
    assert(s =~= head_bytes(MAJOR_TEXT, n) + body + r.skip(n as int));
}

proof fn lemma_byte_items_read_is_written(s: Seq<u8>, count: nat)
    requires
        parse_byte_items(s, count) is Some,
    ensures
        parse_byte_items(s, count) matches Some((b, rest)) && b.len() == count && s
            == byte_items(b) + rest,
    decreases count,
{
    if count == 0 {
        assert(s =~= byte_items(Seq::<u8>::empty()) + s);
    } else {
        let (n, r) = parse_uint(s)->0;
        lemma_uint_read_is_written(s);
        lemma_byte_items_read_is_written(r, (count - 1) as nat);
        let (tail, after) = parse_byte_items(r, (count - 1) as nat)->0;
        let b = seq![n as u8] + tail;
        assert(b.drop_first() =~= tail);
        assert(b[0] as u64 == n);
        assert(s =~= byte_items(b) + after);
    }
}

/// A byte string that is read is the one that is written for it.
pub proof fn lemma_byte_list_read_is_written(s: Seq<u8>)
    requires
        parse_byte_list(s) is Some,
    ensures
        parse_byte_list(s) matches Some((b, rest)) && b.len() <= u64::MAX && s
            == byte_list_bytes(b) + rest,
{
    lemma_count_read_is_written(s, MAJOR_ARRAY);
    let (n, r) = parse_count(s, MAJOR_ARRAY)->0;
    lemma_byte_items_read_is_written(r, n as nat);
    let (b, after) = parse_byte_items(r, n as nat)->0;
    assert(s =~= head_bytes(MAJOR_ARRAY, n) + byte_items(b) + after);
}

/// A key that is read is the one that is written.
pub proof fn lemma_key_read_is_written(s: Seq<u8>, key: Seq<char>)
    requires
        parse_key(s, key) is Some,
    ensures
        text_fits(key),
        s == text_bytes(key) + parse_key(s, key)->0,
{
    lemma_text_read_is_written(s);
}

/// A text entry that is read is the one that is written for its value.
pub proof fn lemma_text_field_read_is_written(s: Seq<u8>, key: Seq<char>)
    requires
        parse_text_field(s, key) is Some,
    ensures
        text_fits(key),
        parse_text_field(s, key) matches Some((value, rest)) && text_fits(value) && s
            == text_field_bytes(key, value) + rest,
{
    lemma_key_read_is_written(s, key);
    let r = parse_key(s, key)->0;
    lemma_text_read_is_written(r);
    let (value, rest) = parse_text(r)->0;
    assert(s =~= text_bytes(key) + text_bytes(value) + rest);
}

/// An integer entry that is read is the one that is written for its
/// value.
pub proof fn lemma_uint_field_read_is_written(s: Seq<u8>, key: Seq<char>)
    requires
        parse_uint_field(s, key) is Some,
    ensures
        text_fits(key),
        parse_uint_field(s, key) matches Some((value, rest)) && s == uint_field_bytes(key, value)
            + rest,
{
    lemma_key_read_is_written(s, key);
    let r = parse_key(s, key)->0;
    lemma_uint_read_is_written(r);
    let (value, rest) = parse_uint(r)->0;
    assert(s =~= text_bytes(key) + uint_bytes(value) + rest);
}

/// A byte string entry that is read is the one that is written for its
/// value.
pub proof fn lemma_bytes_field_read_is_written(s: Seq<u8>, key: Seq<char>)
    requires
        parse_bytes_field(s, key) is Some,
    ensures
        text_fits(key),
        parse_bytes_field(s, key) matches Some((value, rest)) && value.len() <= u64::MAX && s
            == bytes_field_bytes(key, value) + rest,
{
    lemma_key_read_is_written(s, key);
    let r = parse_key(s, key)->0;
    lemma_byte_list_read_is_written(r);
    let (value, rest) = parse_byte_list(r)->0;
    assert(s =~= text_bytes(key) + byte_list_bytes(value) + rest);
}

/// Appends a map entry with a text value.
pub fn write_text_field(out: &mut Vec<u8>, key: &str, value: &str)
    ensures
        final(out)@ == old(out)@ + text_field_bytes(key@, value@),
        text_fits(key@),
        text_fits(value@),
{
    write_text(out, key);
    write_text(out, value);
    assert(out@ =~= old(out)@ + text_field_bytes(key@, value@));
}

/// Appends a map entry with an unsigned integer value.
pub fn write_uint_field(out: &mut Vec<u8>, key: &str, value: u64)
    ensures
        final(out)@ == old(out)@ + uint_field_bytes(key@, value),
        text_fits(key@),
{
    write_text(out, key);
    write_uint(out, value);
    assert(out@ =~= old(out)@ + uint_field_bytes(key@, value));
}

/// Appends a map entry with a byte string value.
pub fn write_bytes_field(out: &mut Vec<u8>, key: &str, value: &[u8])
    ensures
        final(out)@ == old(out)@ + bytes_field_bytes(key@, value@),
        text_fits(key@),
{
    write_text(out, key);
    write_byte_list(out, value);
    assert(out@ =~= old(out)@ + bytes_field_bytes(key@, value@));
}

/// Reads at `pos` a map entry with the key `key` and a text value.
pub fn read_text_field(b: &[u8], pos: usize, key: &str) -> (r: Option<(String, usize)>)
    requires
        pos <= b@.len(),
    ensures
        match r {
            Some((t, next)) => pos < next <= b@.len() && parse_text_field(
                b@.skip(pos as int),
                key@,
            ) == Some((t@, b@.skip(next as int))),
            None => parse_text_field(b@.skip(pos as int), key@) is None,
        },
{
    match read_key(b, pos, key) {
        Some(at) => read_text(b, at),
        None => None,
    }
}

/// Reads at `pos` a map entry with the key `key` and an unsigned integer
/// value.
pub fn read_uint_field(b: &[u8], pos: usize, key: &str) -> (r: Option<(u64, usize)>)
    requires
        pos <= b@.len(),
    ensures
        match r {
            Some((n, next)) => pos < next <= b@.len() && parse_uint_field(
                b@.skip(pos as int),
                key@,
            ) == Some((n, b@.skip(next as int))),
            None => parse_uint_field(b@.skip(pos as int), key@) is None,
        },
{
    match read_key(b, pos, key) {
        Some(at) => read_uint(b, at),
        None => None,
    }
}

/// Reads at `pos` a map entry with the key `key` and a byte string value.
pub fn read_bytes_field(b: &[u8], pos: usize, key: &str) -> (r: Option<(Vec<u8>, usize)>)
    requires
        pos <= b@.len(),
    ensures
        match r {
            Some((v, next)) => pos < next <= b@.len() && parse_bytes_field(
                b@.skip(pos as int),
                key@,
            ) == Some((v@, b@.skip(next as int))),
            None => parse_bytes_field(b@.skip(pos as int), key@) is None,
        },
{
    match read_key(b, pos, key) {
        Some(at) => read_byte_list(b, at),
        None => None,
    }
}

} // verus!
