//! The executable reader: a recursive-descent decoder over a byte slice,
//! proved to return exactly what the wire-format specification says, plus the
//! entry points for plain, zlib- and gzip-compressed documents.

use crate::mutf8::decode_mutf8;
use crate::tag::{NbtCompound, NbtList, NbtTag, SpecTag};
use crate::wire::{
    be_val, lemma_be_val_bound, lemma_document_error_kind, lemma_pow256_vals, pow256,
    spec_decode_body, spec_decode_elems, spec_decode_entries, spec_read_document,
    spec_read_string, sv32, sv64, sv8, NbtDecodeError,
};
use vstd::arithmetic::div_mod::lemma_fundamental_div_mod;
use vstd::prelude::*;

verus! {

/// The big-endian value of `w` bytes at `pos`.
fn read_be(bytes: &[u8], pos: usize, w: usize) -> (r: u64)
    requires
        pos + w <= bytes@.len(),
        1 <= w <= 8,
    ensures
        r as int == be_val(bytes@.subrange(pos as int, pos as int + w as int)),
        (r as int) < pow256(w as nat),
{
    let total: usize = bytes.len();
    let mut acc: u64 = 0;
    let mut i: usize = 0;
    proof {
        lemma_pow256_vals();
        assert(bytes@.subrange(pos as int, pos as int) =~= Seq::<u8>::empty());
    }
    while i < w
        invariant
            pos + w <= bytes@.len(),
            total == bytes@.len(),
            1 <= w <= 8,
            i <= w,
            acc as int == be_val(bytes@.subrange(pos as int, pos as int + i as int)),
            (acc as int) < pow256(i as nat),
        decreases w - i,
    {
        let b = bytes[pos + i];
        proof {
            lemma_pow256_vals();
            let pre = bytes@.subrange(pos as int, pos as int + i as int);
            let nxt = bytes@.subrange(pos as int, pos as int + i as int + 1);
            assert(nxt.drop_last() =~= pre);
            assert(nxt.last() == b);
            assert(pow256((i + 1) as nat) == 256 * pow256(i as nat));
        }
        acc = acc * 256 + (b as u64);
        i = i + 1;
    }
    proof {
        lemma_be_val_bound(bytes@.subrange(pos as int, pos as int + w as int));
    }
    acc
}

/// The signed reading of one byte.
fn sbyte_of(b: u8) -> (r: i8)
    ensures
        r == sv8(b),
{
    if b < 0x80 {
        b as i8
    } else {
        ((b as i16) - 0x100) as i8
    }
}

/// The signed reading of a 32-bit wire value.
fn si32_of(u: u64) -> (r: i32)
    requires
        u < 0x1_0000_0000,
    ensures
        r as int == sv32(u as int),
{
    if u < 0x8000_0000 {
        u as i32
    } else {
        ((u as i64) - 0x1_0000_0000i64) as i32
    }
}

/// The signed reading of a 64-bit wire value.
fn si64_of(u: u64) -> (r: i64)
    ensures
        r as int == sv64(u as int),
{
    if u < 0x8000_0000_0000_0000 {
        u as i64
    } else {
        i64::MIN + ((u - 0x8000_0000_0000_0000) as i64)
    }
}

/// A length-prefixed string at `pos`: its text and the position just past it.
fn read_string_at(bytes: &[u8], pos: usize) -> (r: Result<(String, usize), NbtDecodeError>)
    requires
        pos <= bytes@.len(),
    ensures
        match spec_read_string(bytes@.skip(pos as int)) {
            Ok((cs, c)) => r matches Ok((s, p2)) && s@ == cs && p2 == pos + c && pos + 2 <= p2
                <= bytes@.len(),
            Err(e) => r matches Err(e2) && e2 == e,
        },
{
    let total: usize = bytes.len();
    let ghost tail = bytes@.skip(pos as int);
    if total - pos < 2 {
        return Err(NbtDecodeError::UnexpectedEof);
    }
    let n64 = read_be(bytes, pos, 2);
    proof {
        assert(tail.subrange(0, 2) =~= bytes@.subrange(pos as int, pos as int + 2));
        lemma_pow256_vals();
    }
    let n = n64 as usize;
    if total - (pos + 2) < n {
        return Err(NbtDecodeError::UnexpectedEof);
    }
    proof {
        assert(tail.subrange(2, 2 + n as int) =~= bytes@.subrange(
            pos as int + 2,
            pos as int + 2 + n as int,
        ));
    }
    match decode_mutf8(bytes, pos + 2, n) {
        Some(s) => Ok((s, pos + 2 + n)),
        None => Err(NbtDecodeError::InvalidStringEncoding),
    }
}

/// `n` signed bytes at `pos`.
fn read_i8_vec(bytes: &[u8], pos: usize, n: usize) -> (r: Vec<i8>)
    requires
        pos + n <= bytes@.len(),
    ensures
        r@.len() == n,
        forall|j: int| 0 <= j < n ==> r@[j] == sv8(bytes@[pos + j]),
{
    let total: usize = bytes.len();
    let mut v: Vec<i8> = Vec::new();
    let mut i: usize = 0;
    while i < n
        invariant
            pos + n <= bytes@.len(),
            total == bytes@.len(),
            i <= n,
            v@.len() == i,
            forall|j: int| 0 <= j < i ==> v@[j] == sv8(bytes@[pos + j]),
        decreases n - i,
    {
        v.push(sbyte_of(bytes[pos + i]));
        i = i + 1;
    }
    v
}

/// `n` big-endian 32-bit values at `pos`.
fn read_i32_vec(bytes: &[u8], pos: usize, n: usize) -> (r: Vec<i32>)
    requires
        pos + 4 * n <= bytes@.len(),
    ensures
        r@.len() == n,
        forall|j: int|
            0 <= j < n ==> r@[j] as int == sv32(
                be_val(bytes@.subrange(pos + 4 * j, pos + 4 * j + 4)),
            ),
{
    let total: usize = bytes.len();
    let mut v: Vec<i32> = Vec::new();
    let mut i: usize = 0;
    while i < n
        invariant
            pos + 4 * n <= bytes@.len(),
            total == bytes@.len(),
            i <= n,
            v@.len() == i,
            forall|j: int|
                0 <= j < i ==> v@[j] as int == sv32(
                    be_val(bytes@.subrange(pos + 4 * j, pos + 4 * j + 4)),
                ),
        decreases n - i,
    {
        let u = read_be(bytes, pos + 4 * i, 4);
        proof {
            lemma_pow256_vals();
        }
        v.push(si32_of(u));
        i = i + 1;
    }
    v
}

/// `n` big-endian 64-bit values at `pos`.
fn read_i64_vec(bytes: &[u8], pos: usize, n: usize) -> (r: Vec<i64>)
    requires
        pos + 8 * n <= bytes@.len(),
    ensures
        r@.len() == n,
        forall|j: int|
            0 <= j < n ==> r@[j] as int == sv64(
                be_val(bytes@.subrange(pos + 8 * j, pos + 8 * j + 8)),
            ),
{
    let total: usize = bytes.len();
    let mut v: Vec<i64> = Vec::new();
    let mut i: usize = 0;
    while i < n
        invariant
            pos + 8 * n <= bytes@.len(),
            total == bytes@.len(),
            i <= n,
            v@.len() == i,
            forall|j: int|
                0 <= j < i ==> v@[j] as int == sv64(
                    be_val(bytes@.subrange(pos + 8 * j, pos + 8 * j + 8)),
                ),
        decreases n - i,
    {
        let u = read_be(bytes, pos + 8 * i, 8);
        v.push(si64_of(u));
        i = i + 1;
    }
    v
}

/// Reads one tag body of type `id` at `pos`, consuming exactly the bytes that
/// the wire-format specification says a value of that type occupies: the
/// returned position is just past the value, so the caller can go on reading
/// sibling data. Fails exactly when and how the specification says.
#[verifier::rlimit(100)]
pub fn read_tag_body(bytes: &[u8], pos: usize, id: u8) -> (r: Result<
    (NbtTag, usize),
    NbtDecodeError,
>)
    requires
        pos <= bytes@.len(),
    ensures
        match spec_decode_body(bytes@.skip(pos as int), id as int) {
            Ok((t, c)) => r matches Ok((tag, p2)) && tag@ == t && p2 == pos + c && pos < p2
                <= bytes@.len(),
            Err(e) => r matches Err(e2) && e2 == e,
        },
    decreases bytes@.len() - pos, 1int,
{
    let total: usize = bytes.len();
    let ghost tail = bytes@.skip(pos as int);
    proof {
        lemma_pow256_vals();
        assert(tail.len() == total - pos);
    }
    if id == 0x1 {
        if total - pos < 1 {
            return Err(NbtDecodeError::UnexpectedEof);
        }
        let b = bytes[pos];
        let t = NbtTag::Byte(sbyte_of(b));
        proof {
            assert(tail[0] == b);
            assert(t@ == SpecTag::Byte(sv8(b)));
        }
        Ok((t, pos + 1))
    } else if id == 0x2 {
        if total - pos < 2 {
            return Err(NbtDecodeError::UnexpectedEof);
        }
        let u = read_be(bytes, pos, 2);
        proof {
            assert(tail.subrange(0, 2) =~= bytes@.subrange(pos as int, pos as int + 2));
        }
        let v: i16 = if u < 0x8000 {
            u as i16
        } else {
            ((u as i32) - 0x1_0000i32) as i16
        };
        let t = NbtTag::Short(v);
        proof {
            assert(t@ == SpecTag::Short(v));
        }
        Ok((t, pos + 2))
    } else if id == 0x3 {
        if total - pos < 4 {
            return Err(NbtDecodeError::UnexpectedEof);
        }
        let u = read_be(bytes, pos, 4);
        proof {
            assert(tail.subrange(0, 4) =~= bytes@.subrange(pos as int, pos as int + 4));
        }
        let t = NbtTag::Int(si32_of(u));
        proof {
            assert(t@ is Int);
        }
        Ok((t, pos + 4))
    } else if id == 0x4 {
        if total - pos < 8 {
            return Err(NbtDecodeError::UnexpectedEof);
        }
        let u = read_be(bytes, pos, 8);
        proof {
            assert(tail.subrange(0, 8) =~= bytes@.subrange(pos as int, pos as int + 8));
        }
        let t = NbtTag::Long(si64_of(u));
        proof {
            assert(t@ is Long);
        }
        Ok((t, pos + 8))
    } else if id == 0x5 {
        if total - pos < 4 {
            return Err(NbtDecodeError::UnexpectedEof);
        }
        let u = read_be(bytes, pos, 4);
        proof {
            assert(tail.subrange(0, 4) =~= bytes@.subrange(pos as int, pos as int + 4));
        }
        let t = NbtTag::Float(u as u32);
        proof {
            assert(t@ == SpecTag::Float(u as u32));
        }
        Ok((t, pos + 4))
    } else if id == 0x6 {
        if total - pos < 8 {
            return Err(NbtDecodeError::UnexpectedEof);
        }
        let u = read_be(bytes, pos, 8);
        proof {
            assert(tail.subrange(0, 8) =~= bytes@.subrange(pos as int, pos as int + 8));
        }
        let t = NbtTag::Double(u);
        proof {
            assert(t@ == SpecTag::Double(u));
        }
        Ok((t, pos + 8))
    } else if id == 0x7 {
        if total - pos < 4 {
            return Err(NbtDecodeError::UnexpectedEof);
        }
        let u = read_be(bytes, pos, 4);
        proof {
            assert(tail.subrange(0, 4) =~= bytes@.subrange(pos as int, pos as int + 4));
        }
        if u >= 0x8000_0000 {
            return Err(NbtDecodeError::UnexpectedEof);
        }
        let n = u as usize;
        if total - (pos + 4) < n {
            return Err(NbtDecodeError::UnexpectedEof);
        }
        let v = read_i8_vec(bytes, pos + 4, n);
        proof {
            let ghost spec_arr = Seq::new(
                n as nat,
                |i: int|
                    if 0 <= i < n as int && 4 + i < tail.len() {
                        sv8(tail[4 + i])
                    } else {
                        0i8
                    },
            );
            assert forall|j: int| 0 <= j < n as int implies v@[j] == spec_arr[j] by {
                assert(tail[4 + j] == bytes@[pos + 4 + j]);
            }
            assert(v@ =~= spec_arr);
        }
        let t = NbtTag::ByteArray(v);
        proof {
            assert(t@ is ByteArray);
        }
        Ok((t, pos + 4 + n))
    } else if id == 0x8 {
        match read_string_at(bytes, pos) {
            Ok((s, p2)) => {
                let t = NbtTag::String(s);
                proof {
                    assert(t@ is String);
                }
                Ok((t, p2))
            },
            Err(e) => Err(e),
        }
    } else if id == 0x9 {
        if total - pos < 5 {
            return Err(NbtDecodeError::UnexpectedEof);
        }
        let et = bytes[pos];
        let u = read_be(bytes, pos + 1, 4);
        proof {
            assert(tail[0] == et);
            assert(tail.subrange(1, 5) =~= bytes@.subrange(pos as int + 1, pos as int + 5));
        }
        if et > 0xC || (et == 0 && u != 0) {
            return Err(NbtDecodeError::InvalidListType);
        }
        if u == 0 {
            let l = NbtList { tags: Vec::new() };
            proof {
                assert(l@ =~= Seq::<SpecTag>::empty());
            }
            return Ok((NbtTag::List(l), pos + 5));
        }
        if u >= 0x8000_0000 {
            return Err(NbtDecodeError::UnexpectedEof);
        }
        let n = u as usize;
        proof {
            assert(tail.skip(5) =~= bytes@.skip(pos as int + 5));
        }
        match read_list_elems(bytes, pos + 5, et, n) {
            Ok((l, p2)) => {
                let t = NbtTag::List(l);
                proof {
                    assert(t@ == SpecTag::List(l@));
                }
                Ok((t, p2))
            },
            Err(e) => Err(e),
        }
    } else if id == 0xA {
        match read_compound_body(bytes, pos) {
            Ok((comp, p2)) => {
                let t = NbtTag::Compound(comp);
                proof {
                    assert(t@ == SpecTag::Compound(comp@));
                }
                Ok((t, p2))
            },
            Err(e) => Err(e),
        }
    } else if id == 0xB {
        if total - pos < 4 {
            return Err(NbtDecodeError::UnexpectedEof);
        }
        let u = read_be(bytes, pos, 4);
        proof {
            assert(tail.subrange(0, 4) =~= bytes@.subrange(pos as int, pos as int + 4));
        }
        if u >= 0x8000_0000 {
            return Err(NbtDecodeError::UnexpectedEof);
        }
        let n = u as usize;
        let remaining = total - (pos + 4);
        if n > remaining / 4 {
            proof {
                lemma_fundamental_div_mod(remaining as int, 4);
            }
            return Err(NbtDecodeError::UnexpectedEof);
        }
        proof {
            lemma_fundamental_div_mod(remaining as int, 4);
        }
        let v = read_i32_vec(bytes, pos + 4, n);
        proof {
            let ghost spec_arr = Seq::new(
                n as nat,
                |i: int|
                    if 0 <= i < n as int && 8 + 4 * i <= tail.len() {
                        sv32(be_val(tail.subrange(4 + 4 * i, 8 + 4 * i))) as i32
                    } else {
                        0i32
                    },
            );
            assert forall|j: int| 0 <= j < n as int implies v@[j] == spec_arr[j] by {
                assert(tail.subrange(4 + 4 * j, 8 + 4 * j) =~= bytes@.subrange(
                    pos + 4 + 4 * j,
                    pos + 4 + 4 * j + 4,
                ));
            }
            assert(v@ =~= spec_arr);
        }
        let t = NbtTag::IntArray(v);
        proof {
            assert(t@ is IntArray);
        }
        Ok((t, pos + 4 + 4 * n))
    } else if id == 0xC {
        if total - pos < 4 {
            return Err(NbtDecodeError::UnexpectedEof);
        }
        let u = read_be(bytes, pos, 4);
        proof {
            assert(tail.subrange(0, 4) =~= bytes@.subrange(pos as int, pos as int + 4));
        }
        if u >= 0x8000_0000 {
            return Err(NbtDecodeError::UnexpectedEof);
        }
        let n = u as usize;
        let remaining = total - (pos + 4);
        if n > remaining / 8 {
            proof {
                lemma_fundamental_div_mod(remaining as int, 8);
            }
            return Err(NbtDecodeError::UnexpectedEof);
        }
        proof {
            lemma_fundamental_div_mod(remaining as int, 8);
        }
        let v = read_i64_vec(bytes, pos + 4, n);
        proof {
            let ghost spec_arr = Seq::new(
                n as nat,
                |i: int|
                    if 0 <= i < n as int && 12 + 8 * i <= tail.len() {
                        sv64(be_val(tail.subrange(4 + 8 * i, 12 + 8 * i))) as i64
                    } else {
                        0i64
                    },
            );
            assert forall|j: int| 0 <= j < n as int implies v@[j] == spec_arr[j] by {
                assert(tail.subrange(4 + 8 * j, 12 + 8 * j) =~= bytes@.subrange(
                    pos + 4 + 8 * j,
                    pos + 4 + 8 * j + 8,
                ));
            }
            assert(v@ =~= spec_arr);
        }
        let t = NbtTag::LongArray(v);
        proof {
            assert(t@ is LongArray);
        }
        Ok((t, pos + 4 + 8 * n))
    } else {
        Err(NbtDecodeError::InvalidTagType)
    }
}


/// Reads `n` list element bodies of type `et`, one after another, starting at
/// `start`.
#[verifier::rlimit(100)]
fn read_list_elems(bytes: &[u8], start: usize, et: u8, n: usize) -> (r: Result<
    (NbtList, usize),
    NbtDecodeError,
>)
    requires
        start <= bytes@.len(),
    ensures
        match spec_decode_elems(bytes@.skip(start as int), et as int, n as int) {
            Ok((ts, c)) => r matches Ok((l, p2)) && l@ == ts && p2 == start + c && start <= p2
                <= bytes@.len(),
            Err(e) => r matches Err(e2) && e2 == e,
        },
    decreases bytes@.len() - start, 2int,
{
    let total: usize = bytes.len();
    let ghost target = spec_decode_elems(bytes@.skip(start as int), et as int, n as int);
    let mut l = NbtList { tags: Vec::new() };
    let mut cur: usize = start;
    let mut i: usize = 0;
    while i < n
        invariant
            total == bytes@.len(),
            start <= cur <= total,
            i <= n,
            l@.len() == i,
            target == spec_decode_elems(bytes@.skip(start as int), et as int, n as int),
            target == (match spec_decode_elems(bytes@.skip(cur as int), et as int, n - i) {
                Ok((ts2, c2)) => Ok::<_, NbtDecodeError>((l@ + ts2, (cur - start) + c2)),
                Err(e) => Err(e),
            }),
        decreases n - i,
    {
        let ghost pre = l@;
        match read_tag_body(bytes, cur, et) {
            Ok((tag, p2)) => {
                proof {
                    let rem = bytes@.skip(cur as int);
                    assert(rem.skip(p2 - cur) =~= bytes@.skip(p2 as int));
                    match spec_decode_elems(bytes@.skip(p2 as int), et as int, n - i - 1) {
                        Ok((ts3, c3)) => {
                            assert(pre + (seq![tag@] + ts3) =~= pre.push(tag@) + ts3);
                        },
                        Err(_) => {},
                    }
                }
                l.tags.push(tag);
                cur = p2;
                i = i + 1;
                proof {
                    assert(l@ =~= pre.push(tag@));
                }
            },
            Err(e) => {
                return Err(e);
            },
        }
    }
    proof {
        assert(spec_decode_elems(bytes@.skip(cur as int), et as int, 0) == Ok::<
            (Seq<SpecTag>, int),
            NbtDecodeError,
        >((Seq::<SpecTag>::empty(), 0)));
        assert(l@ + Seq::<SpecTag>::empty() =~= l@);
    }
    Ok((l, cur))
}

/// Reads compound entries up to and including the end sentinel, starting at
/// `pos`, inserting each entry as it comes so that a later entry for a name
/// overwrites an earlier one.
#[verifier::rlimit(100)]
fn read_compound_body(bytes: &[u8], pos: usize) -> (r: Result<
    (NbtCompound, usize),
    NbtDecodeError,
>)
    requires
        pos <= bytes@.len(),
    ensures
        match spec_decode_entries(bytes@.skip(pos as int), Seq::<(Seq<char>, SpecTag)>::empty()) {
            Ok((es, c)) => r matches Ok((comp, p2)) && comp@ == es && p2 == pos + c && pos < p2
                <= bytes@.len(),
            Err(e) => r matches Err(e2) && e2 == e,
        },
    decreases bytes@.len() - pos, 0int,
{
    let total: usize = bytes.len();
    let ghost tail = bytes@.skip(pos as int);
    let ghost target = spec_decode_entries(tail, Seq::<(Seq<char>, SpecTag)>::empty());
    let mut comp = NbtCompound::new();
    let mut cur: usize = pos;
    proof {
        assert(bytes@.skip(cur as int) == tail);
    }
    loop
        invariant
            pos <= cur <= total,
            total == bytes@.len(),
            tail == bytes@.skip(pos as int),
            target == spec_decode_entries(tail, Seq::<(Seq<char>, SpecTag)>::empty()),
            target == (match spec_decode_entries(bytes@.skip(cur as int), comp@) {
                Ok((es2, c2)) => Ok::<_, NbtDecodeError>((es2, (cur - pos) + c2)),
                Err(e) => Err(e),
            }),
        decreases total - cur,
    {
        let ghost rem = bytes@.skip(cur as int);
        if total - cur < 1 {
            return Err(NbtDecodeError::UnexpectedEof);
        }
        let tid = bytes[cur];
        proof {
            assert(rem[0] == tid);
        }
        if tid == 0 {
            return Ok((comp, cur + 1));
        }
        proof {
            assert(rem.skip(1) =~= bytes@.skip(cur as int + 1));
        }
        match read_string_at(bytes, cur + 1) {
            Ok((name, p2)) => {
                proof {
                    assert(rem.skip(p2 - cur) =~= bytes@.skip(p2 as int));
                }
                match read_tag_body(bytes, p2, tid) {
                    Ok((tag, p3)) => {
                        proof {
                            assert(rem.skip(p3 - cur) =~= bytes@.skip(p3 as int));
                        }
                        comp.insert(name, tag);
                        cur = p3;
                    },
                    Err(e) => {
                        return Err(e);
                    },
                }
            },
            Err(e) => {
                return Err(e);
            },
        }
    }
}

/// Reads an uncompressed document: the compound identifier, the root name,
/// one compound body. Returns the root compound and its name, exactly as the
/// wire-format specification reads them; bytes after the body are ignored.
pub fn read_nbt_uncompressed(bytes: &[u8]) -> (r: Result<(NbtCompound, String), NbtDecodeError>)
    ensures
        match spec_read_document(bytes@) {
            Ok((es, nm)) => r matches Ok((c, n)) && c@ == es && n@ == nm,
            Err(e) => r matches Err(e2) && e2 == e,
        },
{
    let total: usize = bytes.len();
    if total < 1 {
        return Err(NbtDecodeError::UnexpectedEof);
    }
    let root_id = bytes[0];
    if root_id != 0x0A {
        return Err(NbtDecodeError::NotACompoundRoot);
    }
    match read_string_at(bytes, 1) {
        Ok((name, p2)) => {
            proof {
                match spec_read_string(bytes@.skip(1)) {
                    Ok((cs, c)) => {
                        assert(p2 == 1 + c && 2 <= c && p2 <= bytes@.len());
                    },
                    Err(_) => {},
                }
            }
            match read_compound_body(bytes, p2) {
                Ok((comp, _p3)) => {
                    proof {
                        match spec_decode_body(bytes@.skip(p2 as int), 0xA) {
                            Ok((t2, c2)) => {
                                assert(t2 == SpecTag::Compound(comp@));
                            },
                            Err(_) => {},
                        }
                    }
                    Ok((comp, name))
                },
                Err(e) => Err(e),
            }
        },
        Err(e) => Err(e),
    }
}

/// What inflating a zlib stream yields: a function of the input bytes alone.
pub uninterp spec fn zlib_plain_of(s: Seq<u8>) -> Seq<u8>;

/// Whether a byte sequence inflates as a zlib stream: like the inflated
/// bytes, a function of the input alone.
pub uninterp spec fn zlib_inflates(s: Seq<u8>) -> bool;

/// What inflating a gzip stream yields: a function of the input bytes alone.
pub uninterp spec fn gz_plain_of(s: Seq<u8>) -> Seq<u8>;

/// Whether a byte sequence inflates as a gzip stream: like the inflated
/// bytes, a function of the input alone.
pub uninterp spec fn gz_inflates(s: Seq<u8>) -> bool;

/// Relies on flate2's `ZlibDecoder` reading a byte slice to the end: whether
/// inflation succeeds, and what it yields, depend on the input bytes alone;
/// `None` when the stream cannot be inflated.
#[verifier::external_body]
fn inflate_zlib(bytes: &[u8]) -> (r: Option<Vec<u8>>)
    ensures
        r is Some <==> zlib_inflates(bytes@),
        r matches Some(v) ==> v@ == zlib_plain_of(bytes@),
{
    let mut out = Vec::new();
    match std::io::Read::read_to_end(&mut flate2::read::ZlibDecoder::new(bytes), &mut out) {
        Ok(_) => Some(out),
        Err(_) => None,
    }
}

/// Relies on flate2's `GzDecoder` reading a byte slice to the end: whether
/// inflation succeeds, and what it yields, depend on the input bytes alone;
/// `None` when the stream cannot be inflated.
#[verifier::external_body]
fn inflate_gz(bytes: &[u8]) -> (r: Option<Vec<u8>>)
    ensures
        r is Some <==> gz_inflates(bytes@),
        r matches Some(v) ==> v@ == gz_plain_of(bytes@),
{
    let mut out = Vec::new();
    match std::io::Read::read_to_end(&mut flate2::read::GzDecoder::new(bytes), &mut out) {
        Ok(_) => Some(out),
        Err(_) => None,
    }
}

/// Inflates a zlib-compressed stream, then reads the document from the
/// inflated bytes. The error is `DecompressionFailed` exactly when inflation
/// fails; when it succeeds the result is exactly the read of the inflated
/// bytes.
pub fn read_nbt_zlib_compressed(bytes: &[u8]) -> (r: Result<
    (NbtCompound, String),
    NbtDecodeError,
>)
    ensures
        !zlib_inflates(bytes@) <==> r == Err::<(NbtCompound, String), NbtDecodeError>(
            NbtDecodeError::DecompressionFailed,
        ),
        zlib_inflates(bytes@) ==> (match spec_read_document(zlib_plain_of(bytes@)) {
            Ok((es, nm)) => r matches Ok((c, n)) && c@ == es && n@ == nm,
            Err(e) => r matches Err(e2) && e2 == e,
        }),
{
    match inflate_zlib(bytes) {
        Some(plain) => {
            proof {
                lemma_document_error_kind(zlib_plain_of(bytes@));
            }
            read_nbt_uncompressed(plain.as_slice())
        },
        None => Err(NbtDecodeError::DecompressionFailed),
    }
}

/// Inflates a gzip-compressed stream, then reads the document from the
/// inflated bytes. The error is `DecompressionFailed` exactly when inflation
/// fails; when it succeeds the result is exactly the read of the inflated
/// bytes.
pub fn read_nbt_gz_compressed(bytes: &[u8]) -> (r: Result<(NbtCompound, String), NbtDecodeError>)
    ensures
        !gz_inflates(bytes@) <==> r == Err::<(NbtCompound, String), NbtDecodeError>(
            NbtDecodeError::DecompressionFailed,
        ),
        gz_inflates(bytes@) ==> (match spec_read_document(gz_plain_of(bytes@)) {
            Ok((es, nm)) => r matches Ok((c, n)) && c@ == es && n@ == nm,
            Err(e) => r matches Err(e2) && e2 == e,
        }),
{
    match inflate_gz(bytes) {
        Some(plain) => {
            proof {
                lemma_document_error_kind(gz_plain_of(bytes@));
            }
            read_nbt_uncompressed(plain.as_slice())
        },
        None => Err(NbtDecodeError::DecompressionFailed),
    }
}

} // verus!
