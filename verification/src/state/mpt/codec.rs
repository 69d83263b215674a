//! Byte layout of trie nodes and proofs: variable-length unsigned integers,
//! length-prefixed byte strings, fixed 32-byte hashes, tagged options and
//! booleans, all little-endian.
//!
//! An integer up to 250 is one byte; larger ones are a marker byte (251, 252
//! or 253) followed by 2, 4 or 8 little-endian bytes. A byte string is its
//! length followed by its bytes; an option is a tag byte (0 for none, 1 for
//! some) followed by the value; a boolean is one byte, 0 or 1. Readers accept
//! any marker that fits the value's width, and ignore what follows the value.
use vstd::prelude::*;

use vstd::bytes::{
    lemma_auto_spec_u16_to_from_le_bytes, lemma_auto_spec_u32_to_from_le_bytes,
    lemma_auto_spec_u64_to_from_le_bytes, spec_u16_from_le_bytes, spec_u16_to_le_bytes,
    spec_u32_from_le_bytes, spec_u32_to_le_bytes, spec_u64_from_le_bytes, spec_u64_to_le_bytes,
    u16_from_le_bytes, u16_to_le_bytes, u32_from_le_bytes, u32_to_le_bytes, u64_from_le_bytes,
    u64_to_le_bytes,
};
use vstd::slice::{slice_subrange, slice_to_vec};

verus! {

/// The bytes of an unsigned integer.
pub open spec fn varint_bytes(n: u64) -> Seq<u8> {
    if n <= 250 {
        seq![n as u8]
    } else if n <= 0xffff {
        seq![251u8] + spec_u16_to_le_bytes(n as u16)
    } else if n <= 0xffff_ffff {
        seq![252u8] + spec_u32_to_le_bytes(n as u32)
    } else {
        seq![253u8] + spec_u64_to_le_bytes(n)
    }
}

/// The integer at the start of `s` and the number of bytes it takes.
pub open spec fn parse_varint(s: Seq<u8>) -> Option<(u64, int)> {
    if s.len() == 0 {
        None
    } else if s[0] <= 250 {
        Some((s[0] as u64, 1int))
    } else if s[0] == 251 {
        if s.len() < 3 {
            None
        } else {
            Some((spec_u16_from_le_bytes(s.subrange(1, 3)) as u64, 3int))
        }
    } else if s[0] == 252 {
        if s.len() < 5 {
            None
        } else {
            Some((spec_u32_from_le_bytes(s.subrange(1, 5)) as u64, 5int))
        }
    } else if s[0] == 253 {
        if s.len() < 9 {
            None
        } else {
            Some((spec_u64_from_le_bytes(s.subrange(1, 9)), 9int))
        }
    } else {
        None
    }
}

/// A 32-bit integer at the start of `s`: as `parse_varint`, without the
/// 8-byte form.
pub open spec fn parse_varint_u32(s: Seq<u8>) -> Option<(u64, int)> {
    if s.len() > 0 && s[0] == 253 {
        None
    } else {
        parse_varint(s)
    }
}

/// The bytes of a length-prefixed byte string.
pub open spec fn bytes_field(b: Seq<u8>) -> Seq<u8> {
    varint_bytes(b.len() as u64) + b
}

/// The byte string at the start of `s` and the number of bytes it takes.
pub open spec fn parse_bytes(s: Seq<u8>) -> Option<(Seq<u8>, int)> {
    match parse_varint(s) {
        Some((n, c)) => if c + n <= s.len() {
            Some((s.subrange(c, c + n), c + n))
        } else {
            None
        },
        None => None,
    }
}

/// The byte of a boolean.
pub open spec fn bool_byte(b: bool) -> u8 {
    if b {
        1
    } else {
        0
    }
}

/// The boolean at the start of `s` (one byte, 0 or 1).
pub open spec fn parse_bool(s: Seq<u8>) -> Option<bool> {
    if s.len() == 0 {
        None
    } else if s[0] == 0 {
        Some(false)
    } else if s[0] == 1 {
        Some(true)
    } else {
        None
    }
}

/// The bytes of an optional 32-byte hash.
pub open spec fn opt_hash_bytes(o: Option<Seq<u8>>) -> Seq<u8> {
    match o {
        Some(h) => seq![1u8] + h,
        None => seq![0u8],
    }
}

/// The optional 32-byte hash at the start of `s` and the bytes it takes.
pub open spec fn parse_opt_hash(s: Seq<u8>) -> Option<(Option<Seq<u8>>, int)> {
    if s.len() == 0 {
        None
    } else if s[0] == 0 {
        Some((None, 1int))
    } else if s[0] == 1 && s.len() >= 33 {
        Some((Some(s.subrange(1, 33)), 33int))
    } else {
        None
    }
}

/// The bytes of an optional byte string.
pub open spec fn opt_bytes_bytes(o: Option<Seq<u8>>) -> Seq<u8> {
    match o {
        Some(b) => seq![1u8] + bytes_field(b),
        None => seq![0u8],
    }
}

/// The optional byte string at the start of `s` and the bytes it takes.
pub open spec fn parse_opt_bytes(s: Seq<u8>) -> Option<(Option<Seq<u8>>, int)> {
    if s.len() == 0 {
        None
    } else if s[0] == 0 {
        Some((None, 1int))
    } else if s[0] == 1 {
        match parse_bytes(s.skip(1)) {
            Some((b, c)) => Some((Some(b), 1 + c)),
            None => None,
        }
    } else {
        None
    }
}

/// Reading an integer back from its bytes, whatever follows them.
pub proof fn lemma_varint_roundtrip(n: u64, rest: Seq<u8>)
    ensures
        parse_varint(varint_bytes(n) + rest) == Some((n, varint_bytes(n).len() as int)),
        n <= 0xffff_ffff ==> parse_varint_u32(varint_bytes(n) + rest) == Some(
            (n, varint_bytes(n).len() as int),
        ),
        1 <= varint_bytes(n).len() <= 9,
{
    lemma_auto_spec_u16_to_from_le_bytes();
    lemma_auto_spec_u32_to_from_le_bytes();
    lemma_auto_spec_u64_to_from_le_bytes();
    let s = varint_bytes(n) + rest;
    if n <= 250 {
    } else if n <= 0xffff {
        assert(s.subrange(1, 3) =~= spec_u16_to_le_bytes(n as u16));
    } else if n <= 0xffff_ffff {
        assert(s.subrange(1, 5) =~= spec_u32_to_le_bytes(n as u32));
    } else {
        assert(s.subrange(1, 9) =~= spec_u64_to_le_bytes(n));
    }
}

/// Reading a byte string back from its bytes, whatever follows them.
pub proof fn lemma_bytes_roundtrip(b: Seq<u8>, rest: Seq<u8>)
    requires
        b.len() <= u64::MAX,
    ensures
        parse_bytes(bytes_field(b) + rest) == Some((b, bytes_field(b).len() as int)),
{
    let v = varint_bytes(b.len() as u64);
    lemma_varint_roundtrip(b.len() as u64, b + rest);
    assert(bytes_field(b) + rest =~= v + (b + rest));
    let s = bytes_field(b) + rest;
    assert(s.subrange(v.len() as int, (v.len() + b.len()) as int) =~= b);
}

/// Reading an optional hash back from its bytes, whatever follows them.
pub proof fn lemma_opt_hash_roundtrip(o: Option<Seq<u8>>, rest: Seq<u8>)
    requires
        o is Some ==> o->0.len() == 32,
    ensures
        parse_opt_hash(opt_hash_bytes(o) + rest) == Some((o, opt_hash_bytes(o).len() as int)),
{
    let s = opt_hash_bytes(o) + rest;
    if let Some(h) = o {
        assert(s.subrange(1, 33) =~= h);
    }
}

/// Reading an optional byte string back from its bytes, whatever follows them.
pub proof fn lemma_opt_bytes_roundtrip(o: Option<Seq<u8>>, rest: Seq<u8>)
    requires
        o is Some ==> o->0.len() <= u64::MAX,
    ensures
        parse_opt_bytes(opt_bytes_bytes(o) + rest) == Some(
            (o, opt_bytes_bytes(o).len() as int),
        ),
{
    if let Some(b) = o {
        let s = opt_bytes_bytes(o) + rest;
        lemma_bytes_roundtrip(b, rest);
        assert(s.skip(1) =~= bytes_field(b) + rest);
    }
}

/// Whether two byte strings are equal.
pub fn bytes_equal(a: &[u8], b: &[u8]) -> (r: bool)
    ensures
        r == (a@ == b@),
{
    if a.len() != b.len() {
        return false;
    }
    let mut i: usize = 0;
    while i < a.len()
        invariant
            i <= a@.len() == b@.len(),
            forall|j: int| 0 <= j < i ==> a@[j] == b@[j],
        decreases a.len() - i,
    {
        if a[i] != b[i] {
            return false;
        }
        i = i + 1;
    }
    assert(a@ =~= b@);
    true
}

/// Appends the bytes of `n`.
pub fn put_varint(out: &mut Vec<u8>, n: u64)
    ensures
        final(out)@ == old(out)@ + varint_bytes(n),
{
    if n <= 250 {
        out.push(n as u8);
    } else if n <= 0xffff {
        out.push(251u8);
        let mut b = u16_to_le_bytes(n as u16);
        out.append(&mut b);
    } else if n <= 0xffff_ffff {
        out.push(252u8);
        let mut b = u32_to_le_bytes(n as u32);
        out.append(&mut b);
    } else {
        out.push(253u8);
        let mut b = u64_to_le_bytes(n);
        out.append(&mut b);
    }
    assert(final(out)@ =~= old(out)@ + varint_bytes(n));
}

/// Appends the bytes of `b`, one by one.
pub fn put_raw(out: &mut Vec<u8>, b: &[u8])
    ensures
        final(out)@ == old(out)@ + b@,
{
    let ghost start = out@;
    let mut i: usize = 0;
    while i < b.len()
        invariant
            i <= b.len(),
            out@ == start + b@.take(i as int),
        decreases b.len() - i,
    {
        out.push(b[i]);
        i = i + 1;
        assert(out@ =~= start + b@.take(i as int));
    }
    assert(b@.take(i as int) =~= b@);
}

/// Appends a length-prefixed byte string.
pub fn put_bytes(out: &mut Vec<u8>, b: &[u8])
    ensures
        final(out)@ == old(out)@ + bytes_field(b@),
{
    put_varint(out, b.len() as u64);
    put_raw(out, b);
    assert(final(out)@ =~= old(out)@ + bytes_field(b@));
}

/// Appends an optional 32-byte hash.
pub fn put_opt_hash(out: &mut Vec<u8>, o: &Option<[u8; 32]>)
    ensures
        final(out)@ == old(out)@ + opt_hash_bytes(opt_view(*o)),
{
    match o {
        Some(h) => {
            out.push(1u8);
            put_raw(out, h.as_slice());
        },
        None => {
            out.push(0u8);
        },
    }
    assert(final(out)@ =~= old(out)@ + opt_hash_bytes(opt_view(*o)));
}

/// Appends an optional byte string.
pub fn put_opt_bytes(out: &mut Vec<u8>, o: &Option<Vec<u8>>)
    ensures
        final(out)@ == old(out)@ + opt_bytes_bytes(opt_vec_view(*o)),
{
    match o {
        Some(b) => {
            out.push(1u8);
            put_bytes(out, b.as_slice());
        },
        None => {
            out.push(0u8);
        },
    }
    assert(final(out)@ =~= old(out)@ + opt_bytes_bytes(opt_vec_view(*o)));
}

/// The bytes of an optional hash, as a sequence.
pub open spec fn opt_view(o: Option<[u8; 32]>) -> Option<Seq<u8>> {
    match o {
        Some(h) => Some(h@),
        None => None,
    }
}

/// The bytes of an optional byte vector, as a sequence.
pub open spec fn opt_vec_view(o: Option<Vec<u8>>) -> Option<Seq<u8>> {
    match o {
        Some(v) => Some(v@),
        None => None,
    }
}

/// What a reader at `pos` gives back for a parse result on `data@.skip(pos)`.
pub open spec fn at<T>(p: Option<(T, int)>, pos: usize) -> Option<(T, usize)> {
    match p {
        Some((v, c)) => Some((v, (pos + c) as usize)),
        None => None,
    }
}

/// Reads an integer at `pos`; gives it and the position after it.
pub fn read_varint(data: &[u8], pos: usize) -> (r: Option<(u64, usize)>)
    requires
        pos <= data@.len(),
    ensures
        r == at(parse_varint(data@.skip(pos as int)), pos),
        r matches Some((_, p)) ==> pos < p <= data@.len(),
        parse_varint(data@.skip(pos as int)) matches Some((_, c)) ==> pos + c <= data@.len(),
{
    let ghost s = data@.skip(pos as int);
    if pos >= data.len() {
        return None;
    }
    let tag = data[pos];
    let avail = data.len() - pos;
    if tag <= 250 {
        Some((tag as u64, pos + 1))
    } else if tag == 251 {
        if avail < 3 {
            return None;
        }
        let b = slice_subrange(data, pos + 1, pos + 3);
        assert(b@ =~= s.subrange(1, 3));
        Some((u16_from_le_bytes(b) as u64, pos + 3))
    } else if tag == 252 {
        if avail < 5 {
            return None;
        }
        let b = slice_subrange(data, pos + 1, pos + 5);
        assert(b@ =~= s.subrange(1, 5));
        Some((u32_from_le_bytes(b) as u64, pos + 5))
    } else if tag == 253 {
        if avail < 9 {
            return None;
        }
        let b = slice_subrange(data, pos + 1, pos + 9);
        assert(b@ =~= s.subrange(1, 9));
        Some((u64_from_le_bytes(b), pos + 9))
    } else {
        None
    }
}

/// Reads a 32-bit integer at `pos`; gives it and the position after it.
pub fn read_varint_u32(data: &[u8], pos: usize) -> (r: Option<(u64, usize)>)
    requires
        pos <= data@.len(),
    ensures
        r == at(parse_varint_u32(data@.skip(pos as int)), pos),
        r matches Some((_, p)) ==> pos < p <= data@.len(),
        parse_varint_u32(data@.skip(pos as int)) matches Some((_, c)) ==> pos + c <= data@.len(),
{
    if pos < data.len() && data[pos] == 253 {
        None
    } else {
        read_varint(data, pos)
    }
}

/// Reads a length-prefixed byte string at `pos`.
pub fn read_bytes(data: &[u8], pos: usize) -> (r: Option<(Vec<u8>, usize)>)
    requires
        pos <= data@.len(),
    ensures
        match parse_bytes(data@.skip(pos as int)) {
            Some((b, c)) => r matches Some((v, p)) && v@ == b && p == pos + c,
            None => r is None,
        },
        r matches Some((_, p)) ==> pos < p <= data@.len(),
{
    let ghost s = data@.skip(pos as int);
    match read_varint(data, pos) {
        Some((n, p)) => {
            if n > (data.len() - p) as u64 {
                return None;
            }
            let e = p + n as usize;
            let v = slice_to_vec(slice_subrange(data, p, e));
            assert(v@ =~= s.subrange(p - pos, e - pos));
            Some((v, e))
        },
        None => None,
    }
}

/// Reads a boolean at `pos`.
pub fn read_bool(data: &[u8], pos: usize) -> (r: Option<bool>)
    requires
        pos <= data@.len(),
    ensures
        r == parse_bool(data@.skip(pos as int)),
        r is Some ==> pos < data@.len(),
{
    if pos >= data.len() {
        None
    } else if data[pos] == 0 {
        Some(false)
    } else if data[pos] == 1 {
        Some(true)
    } else {
        None
    }
}

/// Reads a 32-byte hash at `pos`.
pub fn read_hash(data: &[u8], pos: usize) -> (r: Option<[u8; 32]>)
    requires
        pos <= data@.len(),
    ensures
        data@.len() - pos >= 32 ==> (r matches Some(h) && h@ == data@.subrange(
            pos as int,
            pos + 32,
        )),
        data@.len() - pos < 32 ==> r is None,
{
    if data.len() - pos < 32 {
        return None;
    }
    let mut h: [u8; 32] = [0u8; 32];
    let mut i: usize = 0;
    while i < 32
        invariant
            i <= 32,
            pos + 32 <= data.len(),
            forall|j: int| 0 <= j < i ==> h@[j] == data@[pos + j],
        decreases 32 - i,
    {
        h[i] = data[pos + i];
        i = i + 1;
    }
    assert(h@ =~= data@.subrange(pos as int, pos + 32));
    Some(h)
}

/// Reads an optional 32-byte hash at `pos`.
pub fn read_opt_hash(data: &[u8], pos: usize) -> (r: Option<(Option<[u8; 32]>, usize)>)
    requires
        pos <= data@.len(),
    ensures
        match parse_opt_hash(data@.skip(pos as int)) {
            Some((o, c)) => r matches Some((v, p)) && opt_view(v) == o && p == pos + c,
            None => r is None,
        },
        r matches Some((_, p)) ==> pos < p <= data@.len(),
{
    let ghost s = data@.skip(pos as int);
    if pos >= data.len() {
        None
    } else if data[pos] == 0 {
        Some((None, pos + 1))
    } else if data[pos] == 1 {
        match read_hash(data, pos + 1) {
            Some(h) => {
                assert(h@ =~= s.subrange(1, 33));
                Some((Some(h), pos + 33))
            },
            None => None,
        }
    } else {
        None
    }
}

/// Reads an optional byte string at `pos`.
pub fn read_opt_bytes(data: &[u8], pos: usize) -> (r: Option<(Option<Vec<u8>>, usize)>)
    requires
        pos <= data@.len(),
    ensures
        match parse_opt_bytes(data@.skip(pos as int)) {
            Some((o, c)) => r matches Some((v, p)) && opt_vec_view(v) == o && p == pos + c,
            None => r is None,
        },
        r matches Some((_, p)) ==> pos < p <= data@.len(),
{
    let ghost s = data@.skip(pos as int);
    if pos >= data.len() {
        None
    } else if data[pos] == 0 {
        Some((None, pos + 1))
    } else if data[pos] == 1 {
        assert(data@.skip(pos + 1) =~= s.skip(1));
        match read_bytes(data, pos + 1) {
            Some((b, p)) => Some((Some(b), p)),
            None => None,
        }
    } else {
        None
    }
}

} // verus!
