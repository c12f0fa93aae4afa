//! The wire format, as mathematics: big-endian byte strings, the layout of
//! every tag body, and the top-level document framing.
//!
//! `spec_decode_body` is the reference meaning of "consume exactly the bytes
//! of one value of the given type identifier": the executable reader is proved
//! to return precisely what it says, and the writer's output is proved to read
//! back to the tree it was given.

use crate::tag::{spec_insert, spec_lookup, SpecTag};
use vstd::arithmetic::div_mod::{lemma_fundamental_div_mod, lemma_mod_bound};
use vstd::prelude::*;

verus! {

/// Why a decode failed.
///
/// `UnexpectedEof` covers every read that runs past the end of the stream and
/// every declared length that the remaining bytes cannot possibly satisfy (a
/// negative length included); the others are structural: the bytes were there
/// but did not form what the format requires.
#[derive(Clone, Copy, PartialEq, Eq, Hash, Debug, Structural)]
pub enum NbtDecodeError {
    /// The stream ended before the declared structure did.
    UnexpectedEof,
    /// The first byte of the document is not the compound identifier.
    NotACompoundRoot,
    /// A type identifier outside the defined set, or the end sentinel where a
    /// standalone value is required.
    InvalidTagType,
    /// A list whose element identifier is past the defined set, or the end
    /// sentinel with a nonzero length.
    InvalidListType,
    /// String bytes that are not valid under the modified encoding.
    InvalidStringEncoding,
    /// The compressed stream could not be inflated.
    DecompressionFailed,
}

/// The big-endian bytes of `n`, `w` bytes wide.
pub open spec fn be_bytes(n: int, w: nat) -> Seq<u8>
    decreases w,
{
    if w == 0 {
        Seq::empty()
    } else {
        be_bytes(n / 256, (w - 1) as nat).push((n % 256) as u8)
    }
}

/// The value of a big-endian byte string.
pub open spec fn be_val(s: Seq<u8>) -> int
    decreases s.len(),
{
    if s.len() == 0 {
        0
    } else {
        be_val(s.drop_last()) * 256 + s.last()
    }
}

pub open spec fn pow256(w: nat) -> int
    decreases w,
{
    if w == 0 {
        1
    } else {
        256 * pow256((w - 1) as nat)
    }
}

pub proof fn lemma_be_bytes_len(n: int, w: nat)
    ensures
        be_bytes(n, w).len() == w,
    decreases w,
{
    if w > 0 {
        lemma_be_bytes_len(n / 256, (w - 1) as nat);
    }
}

pub proof fn lemma_be_val_bound(s: Seq<u8>)
    ensures
        0 <= be_val(s) < pow256(s.len()),
    decreases s.len(),
{
    if s.len() > 0 {
        lemma_be_val_bound(s.drop_last());
    }
}

/// Reading back the big-endian bytes of `n` restores `n`.
pub proof fn lemma_be_round(n: int, w: nat)
    requires
        0 <= n < pow256(w),
    ensures
        be_val(be_bytes(n, w)) == n,
    decreases w,
{
    if w > 0 {
        lemma_fundamental_div_mod(n, 256);
        lemma_mod_bound(n, 256);
        assert(256 * (n / 256) <= n);
        lemma_be_round(n / 256, (w - 1) as nat);
        lemma_be_bytes_len(n / 256, (w - 1) as nat);
        let b = be_bytes(n, w);
        assert(b.drop_last() =~= be_bytes(n / 256, (w - 1) as nat));
        assert(b.last() == (n % 256) as u8);
    }
}

/// The signed reading of an unsigned byte.
pub open spec fn sv8(b: u8) -> i8 {
    if b < 0x80 {
        b as i8
    } else {
        (b as int - 0x100) as i8
    }
}

pub open spec fn sv16(u: int) -> int {
    if u < 0x8000 {
        u
    } else {
        u - 0x10000
    }
}

pub open spec fn sv32(u: int) -> int {
    if u < 0x8000_0000 {
        u
    } else {
        u - 0x1_0000_0000
    }
}

pub open spec fn sv64(u: int) -> int {
    if u < 0x8000_0000_0000_0000 {
        u
    } else {
        u - 0x1_0000_0000_0000_0000
    }
}

/// The unsigned wire value of a signed quantity.
pub open spec fn uv8(v: i8) -> int {
    if v >= 0 {
        v as int
    } else {
        v as int + 0x100
    }
}

pub open spec fn uv16(v: i16) -> int {
    if v >= 0 {
        v as int
    } else {
        v as int + 0x10000
    }
}

pub open spec fn uv32(v: i32) -> int {
    if v >= 0 {
        v as int
    } else {
        v as int + 0x1_0000_0000
    }
}

pub open spec fn uv64(v: i64) -> int {
    if v >= 0 {
        v as int
    } else {
        v as int + 0x1_0000_0000_0000_0000
    }
}

/// A length-prefixed string: a 16-bit byte count, then that many bytes of
/// modified UTF-8. Returns the characters and the bytes consumed.
pub open spec fn spec_read_string(s: Seq<u8>) -> Result<(Seq<char>, int), NbtDecodeError> {
    if s.len() < 2 {
        Err(NbtDecodeError::UnexpectedEof)
    } else {
        let n = be_val(s.subrange(0, 2));
        if s.len() < 2 + n {
            Err(NbtDecodeError::UnexpectedEof)
        } else {
            match crate::mutf8::mutf8_decode(s.subrange(2, 2 + n)) {
                Some(cs) => Ok((cs, 2 + n)),
                None => Err(NbtDecodeError::InvalidStringEncoding),
            }
        }
    }
}

/// One tag body of type `id` at the front of `s`: the value read and the bytes
/// consumed, or why the read fails. The guards that compare a consumed count
/// against the remaining length can only fail on counts no read can produce;
/// they make the recursion visibly bounded.
pub open spec fn spec_decode_body(s: Seq<u8>, id: int) -> Result<(SpecTag, int), NbtDecodeError>
    decreases s.len(), 0int, 1int,
{
    if id == 0x1 {
        if s.len() < 1 {
            Err(NbtDecodeError::UnexpectedEof)
        } else {
            Ok((SpecTag::Byte(sv8(s[0])), 1))
        }
    } else if id == 0x2 {
        if s.len() < 2 {
            Err(NbtDecodeError::UnexpectedEof)
        } else {
            Ok((SpecTag::Short(sv16(be_val(s.subrange(0, 2))) as i16), 2))
        }
    } else if id == 0x3 {
        if s.len() < 4 {
            Err(NbtDecodeError::UnexpectedEof)
        } else {
            Ok((SpecTag::Int(sv32(be_val(s.subrange(0, 4))) as i32), 4))
        }
    } else if id == 0x4 {
        if s.len() < 8 {
            Err(NbtDecodeError::UnexpectedEof)
        } else {
            Ok((SpecTag::Long(sv64(be_val(s.subrange(0, 8))) as i64), 8))
        }
    } else if id == 0x5 {
        if s.len() < 4 {
            Err(NbtDecodeError::UnexpectedEof)
        } else {
            Ok((SpecTag::Float(be_val(s.subrange(0, 4)) as u32), 4))
        }
    } else if id == 0x6 {
        if s.len() < 8 {
            Err(NbtDecodeError::UnexpectedEof)
        } else {
            Ok((SpecTag::Double(be_val(s.subrange(0, 8)) as u64), 8))
        }
    } else if id == 0x7 {
        if s.len() < 4 {
            Err(NbtDecodeError::UnexpectedEof)
        } else {
            let n = sv32(be_val(s.subrange(0, 4)));
            if n < 0 || s.len() < 4 + n {
                Err(NbtDecodeError::UnexpectedEof)
            } else {
                Ok(
                    (
                        SpecTag::ByteArray(
                            Seq::new(
                                n as nat,
                                |i: int|
                                    if 0 <= i < n && 4 + i < s.len() {
                                        sv8(s[4 + i])
                                    } else {
                                        0i8
                                    },
                            ),
                        ),
                        4 + n,
                    ),
                )
            }
        }
    } else if id == 0x8 {
        match spec_read_string(s) {
            Ok((cs, c)) => Ok((SpecTag::String(cs), c)),
            Err(e) => Err(e),
        }
    } else if id == 0x9 {
        if s.len() < 5 {
            Err(NbtDecodeError::UnexpectedEof)
        } else {
            let et = s[0] as int;
            let n = sv32(be_val(s.subrange(1, 5)));
            if et > 0xC || (et == 0 && n != 0) {
                Err(NbtDecodeError::InvalidListType)
            } else if n == 0 {
                Ok((SpecTag::List(Seq::empty()), 5))
            } else if n < 0 {
                Err(NbtDecodeError::UnexpectedEof)
            } else {
                match spec_decode_elems(s.skip(5), et, n) {
                    Ok((ts, c)) => Ok((SpecTag::List(ts), 5 + c)),
                    Err(e) => Err(e),
                }
            }
        }
    } else if id == 0xA {
        match spec_decode_entries(s, Seq::empty()) {
            Ok((es, c)) => Ok((SpecTag::Compound(es), c)),
            Err(e) => Err(e),
        }
    } else if id == 0xB {
        if s.len() < 4 {
            Err(NbtDecodeError::UnexpectedEof)
        } else {
            let n = sv32(be_val(s.subrange(0, 4)));
            if n < 0 || s.len() < 4 + 4 * n {
                Err(NbtDecodeError::UnexpectedEof)
            } else {
                Ok(
                    (
                        SpecTag::IntArray(
                            Seq::new(
                                n as nat,
                                |i: int|
                                    if 0 <= i < n && 8 + 4 * i <= s.len() {
                                        sv32(be_val(s.subrange(4 + 4 * i, 8 + 4 * i))) as i32
                                    } else {
                                        0i32
                                    },
                            ),
                        ),
                        4 + 4 * n,
                    ),
                )
            }
        }
    } else if id == 0xC {
        if s.len() < 4 {
            Err(NbtDecodeError::UnexpectedEof)
        } else {
            let n = sv32(be_val(s.subrange(0, 4)));
            if n < 0 || s.len() < 4 + 8 * n {
                Err(NbtDecodeError::UnexpectedEof)
            } else {
                Ok(
                    (
                        SpecTag::LongArray(
                            Seq::new(
                                n as nat,
                                |i: int|
                                    if 0 <= i < n && 12 + 8 * i <= s.len() {
                                        sv64(be_val(s.subrange(4 + 8 * i, 12 + 8 * i))) as i64
                                    } else {
                                        0i64
                                    },
                            ),
                        ),
                        4 + 8 * n,
                    ),
                )
            }
        }
    } else {
        Err(NbtDecodeError::InvalidTagType)
    }
}

/// `n` list elements of type `id`, one body after another.
pub open spec fn spec_decode_elems(s: Seq<u8>, id: int, n: int) -> Result<
    (Seq<SpecTag>, int),
    NbtDecodeError,
>
    decreases s.len(), n, 2int,
{
    if n <= 0 {
        Ok((Seq::empty(), 0))
    } else {
        match spec_decode_body(s, id) {
            Err(e) => Err(e),
            Ok((t, c)) => {
                if c < 1 || c > s.len() {
                    Err(NbtDecodeError::UnexpectedEof)
                } else {
                    match spec_decode_elems(s.skip(c), id, n - 1) {
                        Err(e) => Err(e),
                        Ok((ts, c2)) => Ok((seq![t] + ts, c + c2)),
                    }
                }
            },
        }
    }
}

/// Compound entries up to and including the end sentinel, inserted into `acc`
/// in stream order, so that a later entry for a name overwrites an earlier
/// one.
pub open spec fn spec_decode_entries(
    s: Seq<u8>,
    acc: Seq<(Seq<char>, SpecTag)>,
) -> Result<(Seq<(Seq<char>, SpecTag)>, int), NbtDecodeError>
    decreases s.len(), 0int, 0int,
{
    if s.len() < 1 {
        Err(NbtDecodeError::UnexpectedEof)
    } else {
        let id = s[0] as int;
        if id == 0 {
            Ok((acc, 1))
        } else {
            match spec_read_string(s.skip(1)) {
                Err(e) => Err(e),
                Ok((name, sl)) => {
                    if sl < 2 || 1 + sl > s.len() {
                        Err(NbtDecodeError::UnexpectedEof)
                    } else {
                        match spec_decode_body(s.skip(1 + sl), id) {
                            Err(e) => Err(e),
                            Ok((t, c)) => {
                                if c < 1 || 1 + sl + c > s.len() {
                                    Err(NbtDecodeError::UnexpectedEof)
                                } else {
                                    match spec_decode_entries(
                                        s.skip(1 + sl + c),
                                        spec_insert(acc, name, t),
                                    ) {
                                        Err(e) => Err(e),
                                        Ok((es, c2)) => Ok((es, 1 + sl + c + c2)),
                                    }
                                }
                            },
                        }
                    }
                },
            }
        }
    }
}

/// The whole document: the compound identifier, the root name, one compound
/// body. Trailing bytes after the body are left unread.
pub open spec fn spec_read_document(s: Seq<u8>) -> Result<
    (Seq<(Seq<char>, SpecTag)>, Seq<char>),
    NbtDecodeError,
> {
    if s.len() < 1 {
        Err(NbtDecodeError::UnexpectedEof)
    } else if s[0] != 0x0A {
        Err(NbtDecodeError::NotACompoundRoot)
    } else {
        match spec_read_string(s.skip(1)) {
            Err(e) => Err(e),
            Ok((name, sl)) => {
                if sl < 2 || 1 + sl > s.len() {
                    Err(NbtDecodeError::UnexpectedEof)
                } else {
                    match spec_decode_body(s.skip(1 + sl), 0xA) {
                        Err(e) => Err(e),
                        Ok((t, _c)) => match t {
                            SpecTag::Compound(es) => Ok((es, name)),
                            _ => Err(NbtDecodeError::NotACompoundRoot),
                        },
                    }
                }
            },
        }
    }
}

/// The wire type identifier of a tag.
pub open spec fn spec_tag_id(t: SpecTag) -> int {
    match t {
        SpecTag::Byte(_) => 0x1,
        SpecTag::Short(_) => 0x2,
        SpecTag::Int(_) => 0x3,
        SpecTag::Long(_) => 0x4,
        SpecTag::Float(_) => 0x5,
        SpecTag::Double(_) => 0x6,
        SpecTag::ByteArray(_) => 0x7,
        SpecTag::String(_) => 0x8,
        SpecTag::List(_) => 0x9,
        SpecTag::Compound(_) => 0xA,
        SpecTag::IntArray(_) => 0xB,
        SpecTag::LongArray(_) => 0xC,
    }
}

/// A length-prefixed string on the wire.
pub open spec fn spec_encode_string(cs: Seq<char>) -> Seq<u8> {
    be_bytes(crate::mutf8::mutf8_encode(cs).len() as int, 2) + crate::mutf8::mutf8_encode(cs)
}

/// The body bytes of one tag. An empty list is written with element
/// identifier zero.
pub open spec fn spec_encode_body(t: SpecTag) -> Seq<u8>
    decreases t,
{
    match t {
        SpecTag::Byte(v) => be_bytes(uv8(v), 1),
        SpecTag::Short(v) => be_bytes(uv16(v), 2),
        SpecTag::Int(v) => be_bytes(uv32(v), 4),
        SpecTag::Long(v) => be_bytes(uv64(v), 8),
        SpecTag::Float(b) => be_bytes(b as int, 4),
        SpecTag::Double(b) => be_bytes(b as int, 8),
        SpecTag::ByteArray(a) => be_bytes(a.len() as int, 4) + Seq::new(
            a.len(),
            |i: int|
                if 0 <= i < a.len() {
                    (uv8(a[i])) as u8
                } else {
                    0u8
                },
        ),
        SpecTag::String(cs) => spec_encode_string(cs),
        SpecTag::List(ts) => seq![
            if ts.len() == 0 {
                0u8
            } else {
                spec_tag_id(ts[0]) as u8
            },
        ] + be_bytes(ts.len() as int, 4) + spec_encode_elems(ts),
        SpecTag::Compound(es) => spec_encode_entries(es) + seq![0u8],
        SpecTag::IntArray(a) => be_bytes(a.len() as int, 4) + spec_encode_ints(a),
        SpecTag::LongArray(a) => be_bytes(a.len() as int, 4) + spec_encode_longs(a),
    }
}

pub open spec fn spec_encode_elems(ts: Seq<SpecTag>) -> Seq<u8>
    decreases ts,
{
    if ts.len() == 0 {
        Seq::empty()
    } else {
        spec_encode_body(ts[0]) + spec_encode_elems(ts.drop_first())
    }
}

pub open spec fn spec_encode_entries(es: Seq<(Seq<char>, SpecTag)>) -> Seq<u8>
    decreases es,
{
    if es.len() == 0 {
        Seq::empty()
    } else {
        seq![spec_tag_id(es[0].1) as u8] + spec_encode_string(es[0].0) + spec_encode_body(es[0].1)
            + spec_encode_entries(es.drop_first())
    }
}

pub open spec fn spec_encode_ints(a: Seq<i32>) -> Seq<u8>
    decreases a.len(),
{
    if a.len() == 0 {
        Seq::empty()
    } else {
        be_bytes(uv32(a[0]), 4) + spec_encode_ints(a.drop_first())
    }
}

pub open spec fn spec_encode_longs(a: Seq<i64>) -> Seq<u8>
    decreases a.len(),
{
    if a.len() == 0 {
        Seq::empty()
    } else {
        be_bytes(uv64(a[0]), 8) + spec_encode_longs(a.drop_first())
    }
}

/// The whole document for a root compound and its name.
pub open spec fn spec_encode_document(es: Seq<(Seq<char>, SpecTag)>, name: Seq<char>) -> Seq<u8> {
    seq![0x0Au8] + spec_encode_string(name) + spec_encode_body(SpecTag::Compound(es))
}

/// A string that the 16-bit length prefix can carry.
pub open spec fn spec_string_fits(cs: Seq<char>) -> bool {
    crate::mutf8::mutf8_encode(cs).len() <= 0xFFFF
}

/// A tree the wire format can carry: string byte lengths fit their 16-bit
/// prefix, array and list lengths fit their signed 32-bit prefix, the
/// elements of a list all have one type, and the names in a compound are
/// distinct.
pub open spec fn spec_tag_valid(t: SpecTag) -> bool
    decreases t,
{
    match t {
        SpecTag::Byte(_) => true,
        SpecTag::Short(_) => true,
        SpecTag::Int(_) => true,
        SpecTag::Long(_) => true,
        SpecTag::Float(_) => true,
        SpecTag::Double(_) => true,
        SpecTag::ByteArray(a) => a.len() <= 0x7FFF_FFFF,
        SpecTag::String(cs) => spec_string_fits(cs),
        SpecTag::List(ts) => ts.len() <= 0x7FFF_FFFF && (ts.len() == 0 || spec_elems_valid(
            ts,
            spec_tag_id(ts[0]),
        )),
        SpecTag::Compound(es) => spec_entries_valid(es),
        SpecTag::IntArray(a) => a.len() <= 0x7FFF_FFFF,
        SpecTag::LongArray(a) => a.len() <= 0x7FFF_FFFF,
    }
}

/// Whether some entry carries the name `k`.
pub open spec fn spec_has_name(es: Seq<(Seq<char>, SpecTag)>, k: Seq<char>) -> bool
    decreases es.len(),
{
    if es.len() == 0 {
        false
    } else {
        es[0].0 == k || spec_has_name(es.drop_first(), k)
    }
}

/// Every element is valid and carries the one element type of the list.
pub open spec fn spec_elems_valid(ts: Seq<SpecTag>, id: int) -> bool
    decreases ts,
{
    if ts.len() == 0 {
        true
    } else {
        spec_tag_valid(ts[0]) && spec_tag_id(ts[0]) == id && spec_elems_valid(ts.drop_first(), id)
    }
}

/// Every entry has an encodable name and a valid value, and no name repeats.
pub open spec fn spec_entries_valid(es: Seq<(Seq<char>, SpecTag)>) -> bool
    decreases es,
{
    if es.len() == 0 {
        true
    } else {
        spec_string_fits(es[0].0) && spec_tag_valid(es[0].1) && !spec_has_name(
            es.drop_first(),
            es[0].0,
        ) && spec_entries_valid(es.drop_first())
    }
}

/// The values of `pow256` at the widths the format uses.
pub proof fn lemma_pow256_vals()
    ensures
        pow256(0) == 1,
        pow256(1) == 0x100,
        pow256(2) == 0x1_0000,
        pow256(3) == 0x100_0000,
        pow256(4) == 0x1_0000_0000,
        pow256(5) == 0x100_0000_0000,
        pow256(6) == 0x1_0000_0000_0000,
        pow256(7) == 0x100_0000_0000_0000,
        pow256(8) == 0x1_0000_0000_0000_0000,
{
    assert(pow256(0) == 1);
    assert(pow256(1) == 0x100);
    assert(pow256(2) == 0x1_0000);
    assert(pow256(3) == 0x100_0000);
    assert(pow256(4) == 0x1_0000_0000);
    assert(pow256(5) == 0x100_0000_0000);
    assert(pow256(6) == 0x1_0000_0000_0000);
    assert(pow256(7) == 0x100_0000_0000_0000);
    assert(pow256(8) == 0x1_0000_0000_0000_0000);
}

pub proof fn lemma_sv8_uv8(v: i8)
    ensures
        0 <= uv8(v) < 0x100,
        sv8(uv8(v) as u8) == v,
{
}

pub proof fn lemma_sv16_uv16(v: i16)
    ensures
        0 <= uv16(v) < 0x1_0000,
        sv16(uv16(v)) == v as int,
{
}

pub proof fn lemma_sv32_uv32(v: i32)
    ensures
        0 <= uv32(v) < 0x1_0000_0000,
        sv32(uv32(v)) == v as int,
{
}

pub proof fn lemma_sv64_uv64(v: i64)
    ensures
        0 <= uv64(v) < 0x1_0000_0000_0000_0000,
        sv64(uv64(v)) == v as int,
{
}

/// Reading back an encoded string restores its characters, whatever follows.
pub proof fn lemma_rt_string(cs: Seq<char>, rest: Seq<u8>)
    requires
        spec_string_fits(cs),
    ensures
        spec_encode_string(cs).len() == 2 + crate::mutf8::mutf8_encode(cs).len(),
        spec_read_string(spec_encode_string(cs) + rest) == Ok::<_, NbtDecodeError>(
            (cs, spec_encode_string(cs).len() as int),
        ),
{
    let mb = crate::mutf8::mutf8_encode(cs);
    let n = mb.len() as int;
    lemma_pow256_vals();
    lemma_be_bytes_len(n, 2);
    lemma_be_round(n, 2);
    let s = spec_encode_string(cs) + rest;
    assert(s.subrange(0, 2) =~= be_bytes(n, 2));
    assert(be_val(s.subrange(0, 2)) == n);
    assert(s.subrange(2, 2 + n) =~= mb);
    crate::mutf8::lemma_mutf8_round_trip(cs);
}

/// Every tag body takes at least one byte on the wire.
pub proof fn lemma_encode_body_len_pos(t: SpecTag)
    ensures
        spec_encode_body(t).len() >= 1,
{
    match t {
        SpecTag::Byte(v) => lemma_be_bytes_len(uv8(v), 1),
        SpecTag::Short(v) => lemma_be_bytes_len(uv16(v), 2),
        SpecTag::Int(v) => lemma_be_bytes_len(uv32(v), 4),
        SpecTag::Long(v) => lemma_be_bytes_len(uv64(v), 8),
        SpecTag::Float(b) => lemma_be_bytes_len(b as int, 4),
        SpecTag::Double(b) => lemma_be_bytes_len(b as int, 8),
        SpecTag::ByteArray(a) => lemma_be_bytes_len(a.len() as int, 4),
        SpecTag::String(cs) => lemma_be_bytes_len(crate::mutf8::mutf8_encode(cs).len() as int, 2),
        SpecTag::List(_) => {},
        SpecTag::Compound(_) => {},
        SpecTag::IntArray(a) => lemma_be_bytes_len(a.len() as int, 4),
        SpecTag::LongArray(a) => lemma_be_bytes_len(a.len() as int, 8),
    }
}

/// The flattened int-array payload: its length, and the window that holds
/// each element.
pub proof fn lemma_enc_ints(a: Seq<i32>)
    ensures
        spec_encode_ints(a).len() == 4 * a.len(),
        forall|i: int|
            0 <= i < a.len() ==> spec_encode_ints(a).subrange(4 * i, 4 * i + 4) == be_bytes(
                #[trigger] uv32(a[i]),
                4,
            ),
    decreases a.len(),
{
    if a.len() > 0 {
        let head = be_bytes(uv32(a[0]), 4);
        lemma_be_bytes_len(uv32(a[0]), 4);
        lemma_enc_ints(a.drop_first());
        let e = spec_encode_ints(a);
        assert forall|i: int| 0 <= i < a.len() implies e.subrange(4 * i, 4 * i + 4) == be_bytes(
            #[trigger] uv32(a[i]),
            4,
        ) by {
            if i == 0 {
                assert(e.subrange(0, 4) =~= head);
            } else {
                assert(a.drop_first()[i - 1] == a[i]);
                assert(e.subrange(4 * i, 4 * i + 4) =~= spec_encode_ints(a.drop_first()).subrange(
                    4 * (i - 1),
                    4 * (i - 1) + 4,
                ));
            }
        }
    }
}

/// The flattened long-array payload: its length, and the window that holds
/// each element.
pub proof fn lemma_enc_longs(a: Seq<i64>)
    ensures
        spec_encode_longs(a).len() == 8 * a.len(),
        forall|i: int|
            0 <= i < a.len() ==> spec_encode_longs(a).subrange(8 * i, 8 * i + 8) == be_bytes(
                #[trigger] uv64(a[i]),
                8,
            ),
    decreases a.len(),
{
    if a.len() > 0 {
        let head = be_bytes(uv64(a[0]), 8);
        lemma_be_bytes_len(uv64(a[0]), 8);
        lemma_enc_longs(a.drop_first());
        let e = spec_encode_longs(a);
        assert forall|i: int| 0 <= i < a.len() implies e.subrange(8 * i, 8 * i + 8) == be_bytes(
            #[trigger] uv64(a[i]),
            8,
        ) by {
            if i == 0 {
                assert(e.subrange(0, 8) =~= head);
            } else {
                assert(a.drop_first()[i - 1] == a[i]);
                assert(e.subrange(8 * i, 8 * i + 8) =~= spec_encode_longs(a.drop_first()).subrange(
                    8 * (i - 1),
                    8 * (i - 1) + 8,
                ));
            }
        }
    }
}

/// A name absent from a run of entries differs from every name in it.
pub proof fn lemma_not_has_name(es: Seq<(Seq<char>, SpecTag)>, k: Seq<char>)
    requires
        !spec_has_name(es, k),
    ensures
        forall|j: int| 0 <= j < es.len() ==> (#[trigger] es[j].0) != k,
    decreases es.len(),
{
    if es.len() > 0 {
        lemma_not_has_name(es.drop_first(), k);
        assert forall|j: int| 0 <= j < es.len() implies (#[trigger] es[j].0) != k by {
            if j > 0 {
                assert(es.drop_first()[j - 1] == es[j]);
            }
        }
    }
}

/// Element validity, element by element.
pub proof fn lemma_elems_valid_index(ts: Seq<SpecTag>, id: int)
    requires
        spec_elems_valid(ts, id),
    ensures
        forall|i: int|
            0 <= i < ts.len() ==> spec_tag_valid(#[trigger] ts[i]) && spec_tag_id(ts[i]) == id,
    decreases ts.len(),
{
    if ts.len() > 0 {
        lemma_elems_valid_index(ts.drop_first(), id);
        assert forall|i: int| 0 <= i < ts.len() implies spec_tag_valid(#[trigger] ts[i])
            && spec_tag_id(ts[i]) == id by {
            if i > 0 {
                assert(ts.drop_first()[i - 1] == ts[i]);
            }
        }
    }
}

/// Entry validity, entry by entry.
pub proof fn lemma_entries_valid_index(es: Seq<(Seq<char>, SpecTag)>)
    requires
        spec_entries_valid(es),
    ensures
        forall|i: int|
            0 <= i < es.len() ==> spec_tag_valid((#[trigger] es[i]).1) && spec_string_fits(
                es[i].0,
            ),
    decreases es.len(),
{
    if es.len() > 0 {
        lemma_entries_valid_index(es.drop_first());
        assert forall|i: int| 0 <= i < es.len() implies spec_tag_valid((#[trigger] es[i]).1)
            && spec_string_fits(es[i].0) by {
            if i > 0 {
                assert(es.drop_first()[i - 1] == es[i]);
            }
        }
    }
}

/// What validity of the array variants says of their lengths.
pub proof fn lemma_valid_arrays(t: SpecTag)
    requires
        spec_tag_valid(t),
    ensures
        t matches SpecTag::ByteArray(a) ==> a.len() <= 0x7FFF_FFFF,
        t matches SpecTag::IntArray(a) ==> a.len() <= 0x7FFF_FFFF,
        t matches SpecTag::LongArray(a) ==> a.len() <= 0x7FFF_FFFF,
        t matches SpecTag::String(cs) ==> spec_string_fits(cs),
{
}

/// Reading back an encoded tag body restores the tag, whatever follows: the
/// heart of the round trip.
#[verifier::rlimit(100)]
#[verifier::spinoff_prover]
pub proof fn lemma_rt_body(t: SpecTag, rest: Seq<u8>)
    requires
        spec_tag_valid(t),
    ensures
        spec_decode_body(spec_encode_body(t) + rest, spec_tag_id(t)) == Ok::<_, NbtDecodeError>(
            (t, spec_encode_body(t).len() as int),
        ),
    decreases t,
{
    let e = spec_encode_body(t);
    let s = e + rest;
    lemma_pow256_vals();
    match t {
        SpecTag::Byte(v) => {
            lemma_sv8_uv8(v);
            lemma_be_bytes_len(uv8(v), 1);
            assert(e =~= seq![(uv8(v) % 256) as u8]);
            assert(uv8(v) % 256 == uv8(v));
            assert(s[0] == uv8(v) as u8);
        },
        SpecTag::Short(v) => {
            lemma_sv16_uv16(v);
            lemma_be_bytes_len(uv16(v), 2);
            lemma_be_round(uv16(v), 2);
            assert(s.subrange(0, 2) =~= e);
        },
        SpecTag::Int(v) => {
            lemma_sv32_uv32(v);
            lemma_be_bytes_len(uv32(v), 4);
            lemma_be_round(uv32(v), 4);
            assert(s.subrange(0, 4) =~= e);
        },
        SpecTag::Long(v) => {
            lemma_sv64_uv64(v);
            lemma_be_bytes_len(uv64(v), 8);
            lemma_be_round(uv64(v), 8);
            assert(s.subrange(0, 8) =~= e);
        },
        SpecTag::Float(b) => {
            lemma_be_bytes_len(b as int, 4);
            lemma_be_round(b as int, 4);
            assert(s.subrange(0, 4) =~= e);
        },
        SpecTag::Double(b) => {
            lemma_be_bytes_len(b as int, 8);
            lemma_be_round(b as int, 8);
            assert(s.subrange(0, 8) =~= e);
        },
        SpecTag::ByteArray(a) => {
            assert(t == SpecTag::ByteArray(a));
            lemma_valid_arrays(t);
            let n = a.len() as int;
            lemma_be_bytes_len(n, 4);
            lemma_be_round(n, 4);
            assert(s.subrange(0, 4) =~= be_bytes(n, 4));
            assert(sv32(n) == n);
            let dec = Seq::new(
                n as nat,
                |i: int|
                    if 0 <= i < n && 4 + i < s.len() {
                        sv8(s[4 + i])
                    } else {
                        0i8
                    },
            );
            assert forall|i: int| 0 <= i < n implies dec[i] == a[i] by {
                assert(s[4 + i] == e[4 + i]);
                assert(e[4 + i] == (uv8(a[i])) as u8);
                lemma_sv8_uv8(a[i]);
            }
            assert(dec =~= a);
        },
        SpecTag::String(cs) => {
            assert(t == SpecTag::String(cs));
            lemma_valid_arrays(t);
            lemma_rt_string(cs, rest);
        },
        SpecTag::List(ts) => {
            assert(t == SpecTag::List(ts));
            let n = ts.len() as int;
            lemma_be_bytes_len(n, 4);
            lemma_be_round(n, 4);
            assert(s.subrange(1, 5) =~= be_bytes(n, 4));
            assert(sv32(n) == n);
            if n == 0 {
                assert(s[0] == 0);
                assert(ts =~= Seq::<SpecTag>::empty());
                assert(e.len() == 5);
            } else {
                let id = spec_tag_id(ts[0]);
                assert(1 <= id <= 0xC);
                assert(s[0] == id as u8);
                assert(s[0] as int == id);
                lemma_rt_elems(ts, id, rest);
                assert(s.skip(5) =~= spec_encode_elems(ts) + rest);
                assert(e.len() == 5 + spec_encode_elems(ts).len());
            }
        },
        SpecTag::Compound(es) => {
            assert(t == SpecTag::Compound(es));
            let acc0 = Seq::<(Seq<char>, SpecTag)>::empty();
            assert forall|i: int, j: int|
                #![trigger acc0[i].0, es[j].0]
                0 <= i < acc0.len() && 0 <= j < es.len() implies acc0[i].0 != es[j].0 by {}
            lemma_rt_entries(es, acc0, rest);
            assert(s =~= spec_encode_entries(es) + seq![0u8] + rest);
            assert(acc0 + es =~= es);
            assert(e.len() == spec_encode_entries(es).len() + 1);
        },
        SpecTag::IntArray(a) => {
            assert(t == SpecTag::IntArray(a));
            lemma_valid_arrays(t);
            let n = a.len() as int;
            lemma_be_bytes_len(n, 4);
            lemma_be_round(n, 4);
            lemma_enc_ints(a);
            assert(s.subrange(0, 4) =~= be_bytes(n, 4));
            assert(sv32(n) == n);
            assert(e.len() == 4 + 4 * n);
            let dec = Seq::new(
                n as nat,
                |i: int|
                    if 0 <= i < n && 8 + 4 * i <= s.len() {
                        sv32(be_val(s.subrange(4 + 4 * i, 8 + 4 * i))) as i32
                    } else {
                        0i32
                    },
            );
            assert forall|i: int| 0 <= i < n implies dec[i] == a[i] by {
                assert(s.subrange(4 + 4 * i, 8 + 4 * i) =~= spec_encode_ints(a).subrange(
                    4 * i,
                    4 * i + 4,
                ));
                assert(spec_encode_ints(a).subrange(4 * i, 4 * i + 4) == be_bytes(uv32(a[i]), 4));
                lemma_sv32_uv32(a[i]);
                lemma_be_round(uv32(a[i]), 4);
            }
            assert(dec =~= a);
        },
        SpecTag::LongArray(a) => {
            assert(t == SpecTag::LongArray(a));
            lemma_valid_arrays(t);
            let n = a.len() as int;
            lemma_be_bytes_len(n, 4);
            lemma_be_round(n, 4);
            lemma_enc_longs(a);
            assert(s.subrange(0, 4) =~= be_bytes(n, 4));
            assert(sv32(n) == n);
            assert(e.len() == 4 + 8 * n);
            let dec = Seq::new(
                n as nat,
                |i: int|
                    if 0 <= i < n && 12 + 8 * i <= s.len() {
                        sv64(be_val(s.subrange(4 + 8 * i, 12 + 8 * i))) as i64
                    } else {
                        0i64
                    },
            );
            assert forall|i: int| 0 <= i < n implies dec[i] == a[i] by {
                assert(s.subrange(4 + 8 * i, 12 + 8 * i) =~= spec_encode_longs(a).subrange(
                    8 * i,
                    8 * i + 8,
                ));
                assert(spec_encode_longs(a).subrange(8 * i, 8 * i + 8) == be_bytes(uv64(a[i]), 8));
                lemma_sv64_uv64(a[i]);
                lemma_be_round(uv64(a[i]), 8);
            }
            assert(dec =~= a);
        },
    }
}

/// Reading back a run of encoded list elements restores them in order.
#[verifier::rlimit(100)]
#[verifier::spinoff_prover]
pub proof fn lemma_rt_elems(ts: Seq<SpecTag>, id: int, rest: Seq<u8>)
    requires
        spec_elems_valid(ts, id),
    ensures
        spec_decode_elems(spec_encode_elems(ts) + rest, id, ts.len() as int) == Ok::<
            _,
            NbtDecodeError,
        >((ts, spec_encode_elems(ts).len() as int)),
    decreases ts,
{
    let e = spec_encode_elems(ts);
    let s = e + rest;
    if ts.len() == 0 {
        assert(e.len() == 0);
        assert(ts =~= Seq::<SpecTag>::empty());
    } else {
        let t0 = ts[0];
        let eb = spec_encode_body(t0);
        let etail = spec_encode_elems(ts.drop_first());
        assert(s =~= eb + (etail + rest));
        lemma_rt_body(t0, etail + rest);
        lemma_encode_body_len_pos(t0);
        let cb = eb.len() as int;
        assert(s.skip(cb) =~= etail + rest);
        lemma_rt_elems(ts.drop_first(), id, rest);
        assert(seq![t0] + ts.drop_first() =~= ts);
        assert(e.len() == cb + etail.len());
        assert(spec_decode_body(s, id) == Ok::<_, NbtDecodeError>((t0, cb)));
        assert(spec_decode_elems(s.skip(cb), id, ts.len() as int - 1) == Ok::<
            _,
            NbtDecodeError,
        >((ts.drop_first(), etail.len() as int)));
        assert(spec_decode_elems(s, id, ts.len() as int) == Ok::<_, NbtDecodeError>((
            ts,
            e.len() as int,
        )));
    }
}

/// Reading back encoded compound entries, then the sentinel, appends them to
/// the accumulator in order: with distinct names, every insertion is fresh.
#[verifier::rlimit(100)]
#[verifier::spinoff_prover]
pub proof fn lemma_rt_entries(
    es: Seq<(Seq<char>, SpecTag)>,
    acc: Seq<(Seq<char>, SpecTag)>,
    rest: Seq<u8>,
)
    requires
        spec_entries_valid(es),
        forall|i: int, j: int|
            #![trigger acc[i].0, es[j].0]
            0 <= i < acc.len() && 0 <= j < es.len() ==> acc[i].0 != es[j].0,
    ensures
        spec_decode_entries(spec_encode_entries(es) + seq![0u8] + rest, acc) == Ok::<
            _,
            NbtDecodeError,
        >((acc + es, spec_encode_entries(es).len() as int + 1)),
    decreases es,
{
    let e = spec_encode_entries(es);
    let s = e + seq![0u8] + rest;
    if es.len() == 0 {
        assert(e.len() == 0);
        assert(s[0] == 0);
        assert(acc + es =~= acc);
    } else {
        let (name0, t0) = es[0];
        let id = spec_tag_id(t0);
        let encs = spec_encode_string(name0);
        let encb = spec_encode_body(t0);
        let dtail = es.drop_first();
        let ence = spec_encode_entries(dtail);
        assert(s =~= seq![id as u8] + (encs + (encb + (ence + (seq![0u8] + rest)))));
        assert(1 <= id <= 0xC);
        assert(s[0] == id as u8);
        assert(s[0] as int == id);
        lemma_rt_string(name0, encb + (ence + (seq![0u8] + rest)));
        assert(s.skip(1) =~= encs + (encb + (ence + (seq![0u8] + rest))));
        let sl = encs.len() as int;
        lemma_rt_body(t0, ence + (seq![0u8] + rest));
        lemma_encode_body_len_pos(t0);
        assert(s.skip(1 + sl) =~= encb + (ence + (seq![0u8] + rest)));
        let cb = encb.len() as int;
        assert(forall|j: int| 0 <= j < acc.len() ==> (#[trigger] acc[j].0) != name0);
        crate::tag::lemma_insert_fresh(acc, name0, t0);
        assert((name0, t0) == es[0]);
        let acc2 = acc.push(es[0]);
        assert(spec_insert(acc, name0, t0) == acc2);
        lemma_not_has_name(dtail, name0);
        assert forall|i: int, j: int|
            #![trigger acc2[i].0, dtail[j].0]
            0 <= i < acc2.len() && 0 <= j < dtail.len() implies acc2[i].0 != dtail[j].0 by {
            assert(dtail[j] == es[j + 1]);
            if i < acc.len() {
                assert(acc2[i] == acc[i]);
                assert(acc[i].0 != es[j + 1].0);
            } else {
                assert(acc2[i] == es[0]);
                assert(dtail[j].0 != name0);
            }
        }
        lemma_rt_entries(dtail, acc2, rest);
        assert(s.skip(1 + sl + cb) =~= spec_encode_entries(dtail) + seq![0u8] + rest);
        assert(acc2 + dtail =~= acc + es);
        assert(e.len() == 1 + sl + cb + spec_encode_entries(dtail).len());
    }
}

/// Round trip of a whole document: reading back what was written for a valid
/// root compound and name restores both exactly.
pub proof fn lemma_round_trip(es: Seq<(Seq<char>, SpecTag)>, name: Seq<char>)
    requires
        spec_tag_valid(SpecTag::Compound(es)),
        spec_string_fits(name),
    ensures
        spec_read_document(spec_encode_document(es, name)) == Ok::<_, NbtDecodeError>((es, name)),
{
    let s = spec_encode_document(es, name);
    let encs = spec_encode_string(name);
    let encb = spec_encode_body(SpecTag::Compound(es));
    assert(s =~= seq![0x0Au8] + (encs + (encb + Seq::<u8>::empty())));
    assert(s[0] == 0x0A);
    lemma_rt_string(name, encb + Seq::<u8>::empty());
    assert(s.skip(1) =~= encs + (encb + Seq::<u8>::empty()));
    let sl = encs.len() as int;
    lemma_rt_body(SpecTag::Compound(es), Seq::<u8>::empty());
    lemma_encode_body_len_pos(SpecTag::Compound(es));
    assert(s.skip(1 + sl) =~= encb + Seq::<u8>::empty());
}

/// Root framing: a stream whose first byte is not the compound identifier is
/// rejected as structurally invalid before anything further is read.
pub proof fn lemma_root_framing(s: Seq<u8>)
    requires
        s.len() >= 1,
        s[0] != 0x0A,
    ensures
        spec_read_document(s) == Err::<(Seq<(Seq<char>, SpecTag)>, Seq<char>), _>(
            NbtDecodeError::NotACompoundRoot,
        ),
{
}

/// The list sentinel rule: element identifier zero is an empty list when the
/// length is zero, and a structural error otherwise.
pub proof fn lemma_list_sentinel(s: Seq<u8>)
    requires
        s.len() >= 5,
        s[0] == 0,
    ensures
        sv32(be_val(s.subrange(1, 5))) == 0 ==> spec_decode_body(s, 0x9) == Ok::<
            (SpecTag, int),
            NbtDecodeError,
        >((SpecTag::List(Seq::empty()), 5)),
        sv32(be_val(s.subrange(1, 5))) != 0 ==> spec_decode_body(s, 0x9) == Err::<
            (SpecTag, int),
            _,
        >(NbtDecodeError::InvalidListType),
{
}

/// An identifier outside the defined set fails wherever a tag body is read:
/// the end sentinel is never a standalone value, and nothing above `0x0C` is
/// defined.
pub proof fn lemma_unknown_tag_type(s: Seq<u8>, id: int)
    requires
        id <= 0 || id > 0xC,
    ensures
        spec_decode_body(s, id) == Err::<(SpecTag, int), _>(NbtDecodeError::InvalidTagType),
{
}

/// Encoding element runs one after another concatenates their bytes.
pub proof fn lemma_encode_elems_concat(a: Seq<SpecTag>, b: Seq<SpecTag>)
    ensures
        spec_encode_elems(a + b) == spec_encode_elems(a) + spec_encode_elems(b),
    decreases a.len(),
{
    if a.len() == 0 {
        assert(a + b =~= b);
        assert(spec_encode_elems(a) + spec_encode_elems(b) =~= spec_encode_elems(b));
    } else {
        lemma_encode_elems_concat(a.drop_first(), b);
        assert((a + b).drop_first() =~= a.drop_first() + b);
        assert((a + b)[0] == a[0]);
        assert(spec_encode_body(a[0]) + (spec_encode_elems(a.drop_first()) + spec_encode_elems(b))
            =~= (spec_encode_body(a[0]) + spec_encode_elems(a.drop_first()))
            + spec_encode_elems(b));
    }
}

/// Encoding entry runs one after another concatenates their bytes.
pub proof fn lemma_encode_entries_concat(
    a: Seq<(Seq<char>, SpecTag)>,
    b: Seq<(Seq<char>, SpecTag)>,
)
    ensures
        spec_encode_entries(a + b) == spec_encode_entries(a) + spec_encode_entries(b),
    decreases a.len(),
{
    if a.len() == 0 {
        assert(a + b =~= b);
        assert(spec_encode_entries(a) + spec_encode_entries(b) =~= spec_encode_entries(b));
    } else {
        lemma_encode_entries_concat(a.drop_first(), b);
        assert((a + b).drop_first() =~= a.drop_first() + b);
        assert((a + b)[0] == a[0]);
        let head = seq![spec_tag_id(a[0].1) as u8] + spec_encode_string(a[0].0)
            + spec_encode_body(a[0].1);
        assert(head + (spec_encode_entries(a.drop_first()) + spec_encode_entries(b)) =~= (head
            + spec_encode_entries(a.drop_first())) + spec_encode_entries(b));
    }
}

/// Encoding int-array payloads one after another concatenates their bytes.
pub proof fn lemma_encode_ints_concat(a: Seq<i32>, b: Seq<i32>)
    ensures
        spec_encode_ints(a + b) == spec_encode_ints(a) + spec_encode_ints(b),
    decreases a.len(),
{
    if a.len() == 0 {
        assert(a + b =~= b);
        assert(spec_encode_ints(a) + spec_encode_ints(b) =~= spec_encode_ints(b));
    } else {
        lemma_encode_ints_concat(a.drop_first(), b);
        assert((a + b).drop_first() =~= a.drop_first() + b);
        assert((a + b)[0] == a[0]);
        assert(be_bytes(uv32(a[0]), 4) + (spec_encode_ints(a.drop_first())
            + spec_encode_ints(b)) =~= (be_bytes(uv32(a[0]), 4) + spec_encode_ints(
            a.drop_first(),
        )) + spec_encode_ints(b));
    }
}

/// Encoding long-array payloads one after another concatenates their bytes.
pub proof fn lemma_encode_longs_concat(a: Seq<i64>, b: Seq<i64>)
    ensures
        spec_encode_longs(a + b) == spec_encode_longs(a) + spec_encode_longs(b),
    decreases a.len(),
{
    if a.len() == 0 {
        assert(a + b =~= b);
        assert(spec_encode_longs(a) + spec_encode_longs(b) =~= spec_encode_longs(b));
    } else {
        lemma_encode_longs_concat(a.drop_first(), b);
        assert((a + b).drop_first() =~= a.drop_first() + b);
        assert((a + b)[0] == a[0]);
        assert(be_bytes(uv64(a[0]), 8) + (spec_encode_longs(a.drop_first())
            + spec_encode_longs(b)) =~= (be_bytes(uv64(a[0]), 8) + spec_encode_longs(
            a.drop_first(),
        )) + spec_encode_longs(b));
    }
}

/// A truncated string read runs out of bytes.
pub proof fn lemma_truncated_string(cs: Seq<char>, k: int)
    requires
        spec_string_fits(cs),
        0 <= k < spec_encode_string(cs).len(),
    ensures
        spec_read_string(spec_encode_string(cs).take(k)) == Err::<(Seq<char>, int), _>(
            NbtDecodeError::UnexpectedEof,
        ),
{
    let mb = crate::mutf8::mutf8_encode(cs);
    let n = mb.len() as int;
    lemma_pow256_vals();
    lemma_be_bytes_len(n, 2);
    lemma_be_round(n, 2);
    let e = spec_encode_string(cs);
    let p = e.take(k);
    if k < 2 {
    } else {
        assert(p.subrange(0, 2) =~= be_bytes(n, 2));
        assert(p.len() == k < 2 + n);
    }
}

/// A truncated tag body runs out of bytes: reading any strict prefix of an
/// encoded value fails with the end-of-stream error, never with a partial
/// value.
#[verifier::rlimit(100)]
#[verifier::spinoff_prover]
pub proof fn lemma_truncated_body(t: SpecTag, k: int)
    requires
        spec_tag_valid(t),
        0 <= k < spec_encode_body(t).len(),
    ensures
        spec_decode_body(spec_encode_body(t).take(k), spec_tag_id(t)) == Err::<(SpecTag, int), _>(
            NbtDecodeError::UnexpectedEof,
        ),
    decreases t,
{
    let e = spec_encode_body(t);
    let p = e.take(k);
    lemma_pow256_vals();
    match t {
        SpecTag::Byte(v) => {
            lemma_be_bytes_len(uv8(v), 1);
        },
        SpecTag::Short(v) => {
            lemma_be_bytes_len(uv16(v), 2);
        },
        SpecTag::Int(v) => {
            lemma_be_bytes_len(uv32(v), 4);
        },
        SpecTag::Long(v) => {
            lemma_be_bytes_len(uv64(v), 8);
        },
        SpecTag::Float(b) => {
            lemma_be_bytes_len(b as int, 4);
        },
        SpecTag::Double(b) => {
            lemma_be_bytes_len(b as int, 8);
        },
        SpecTag::ByteArray(a) => {
            assert(t == SpecTag::ByteArray(a));
            lemma_valid_arrays(t);
            let n = a.len() as int;
            lemma_be_bytes_len(n, 4);
            lemma_be_round(n, 4);
            if k >= 4 {
                assert(p.subrange(0, 4) =~= be_bytes(n, 4));
                assert(sv32(n) == n);
                assert(p.len() == k < 4 + n);
            }
        },
        SpecTag::String(cs) => {
            assert(t == SpecTag::String(cs));
            lemma_valid_arrays(t);
            lemma_truncated_string(cs, k);
        },
        SpecTag::List(ts) => {
            assert(t == SpecTag::List(ts));
            let n = ts.len() as int;
            lemma_be_bytes_len(n, 4);
            lemma_be_round(n, 4);
            if k >= 5 {
                assert(p.subrange(1, 5) =~= be_bytes(n, 4));
                assert(sv32(n) == n);
                assert(n > 0);
                let id = spec_tag_id(ts[0]);
                assert(1 <= id <= 0xC);
                assert(p[0] == id as u8);
                assert(p[0] as int == id);
                assert(p.skip(5) =~= spec_encode_elems(ts).take(k - 5));
                lemma_truncated_elems(ts, id, k - 5);
            }
        },
        SpecTag::Compound(es) => {
            assert(t == SpecTag::Compound(es));
            let acc0 = Seq::<(Seq<char>, SpecTag)>::empty();
            assert forall|i: int, j: int|
                #![trigger acc0[i].0, es[j].0]
                0 <= i < acc0.len() && 0 <= j < es.len() implies acc0[i].0 != es[j].0 by {}
            assert(p =~= (spec_encode_entries(es) + seq![0u8]).take(k));
            lemma_truncated_entries(es, acc0, k);
        },
        SpecTag::IntArray(a) => {
            assert(t == SpecTag::IntArray(a));
            lemma_valid_arrays(t);
            let n = a.len() as int;
            lemma_be_bytes_len(n, 4);
            lemma_be_round(n, 4);
            lemma_enc_ints(a);
            if k >= 4 {
                assert(p.subrange(0, 4) =~= be_bytes(n, 4));
                assert(sv32(n) == n);
                assert(p.len() == k < 4 + 4 * n);
            }
        },
        SpecTag::LongArray(a) => {
            assert(t == SpecTag::LongArray(a));
            lemma_valid_arrays(t);
            let n = a.len() as int;
            lemma_be_bytes_len(n, 4);
            lemma_be_round(n, 4);
            lemma_enc_longs(a);
            if k >= 4 {
                assert(p.subrange(0, 4) =~= be_bytes(n, 4));
                assert(sv32(n) == n);
                assert(p.len() == k < 4 + 8 * n);
            }
        },
    }
}

/// A truncated element run runs out of bytes.
#[verifier::rlimit(100)]
#[verifier::spinoff_prover]
pub proof fn lemma_truncated_elems(ts: Seq<SpecTag>, id: int, k: int)
    requires
        spec_elems_valid(ts, id),
        0 <= k < spec_encode_elems(ts).len(),
    ensures
        spec_decode_elems(spec_encode_elems(ts).take(k), id, ts.len() as int) == Err::<
            (Seq<SpecTag>, int),
            _,
        >(NbtDecodeError::UnexpectedEof),
    decreases ts,
{
    let e = spec_encode_elems(ts);
    let p = e.take(k);
    assert(ts.len() > 0);
    let t0 = ts[0];
    let eb = spec_encode_body(t0);
    let etail = spec_encode_elems(ts.drop_first());
    lemma_encode_body_len_pos(t0);
    if k < eb.len() {
        assert(p =~= eb.take(k));
        lemma_truncated_body(t0, k);
    } else {
        assert(p =~= eb + etail.take(k - eb.len()));
        lemma_rt_body(t0, etail.take(k - eb.len()));
        let cb = eb.len() as int;
        assert(p.skip(cb) =~= etail.take(k - cb));
        assert(k - cb < etail.len());
        assert(ts.drop_first().len() > 0);
        lemma_truncated_elems(ts.drop_first(), id, k - cb);
    }
}

/// A truncated entry run, cut anywhere before its end sentinel, runs out of
/// bytes.
#[verifier::rlimit(100)]
#[verifier::spinoff_prover]
pub proof fn lemma_truncated_entries(
    es: Seq<(Seq<char>, SpecTag)>,
    acc: Seq<(Seq<char>, SpecTag)>,
    k: int,
)
    requires
        spec_entries_valid(es),
        forall|i: int, j: int|
            #![trigger acc[i].0, es[j].0]
            0 <= i < acc.len() && 0 <= j < es.len() ==> acc[i].0 != es[j].0,
        0 <= k < spec_encode_entries(es).len() + 1,
    ensures
        spec_decode_entries((spec_encode_entries(es) + seq![0u8]).take(k), acc) == Err::<
            (Seq<(Seq<char>, SpecTag)>, int),
            _,
        >(NbtDecodeError::UnexpectedEof),
    decreases es,
{
    let e = spec_encode_entries(es) + seq![0u8];
    let p = e.take(k);
    if es.len() == 0 {
        assert(k == 0);
    } else if k == 0 {
    } else {
        let (name0, t0) = es[0];
        let id = spec_tag_id(t0);
        let encs = spec_encode_string(name0);
        let encb = spec_encode_body(t0);
        let dtail = es.drop_first();
        let ence = spec_encode_entries(dtail);
        assert(e =~= seq![id as u8] + (encs + (encb + (ence + seq![0u8]))));
        assert(1 <= id <= 0xC);
        assert(p[0] == id as u8);
        assert(p[0] as int == id);
        let sl = encs.len() as int;
        lemma_rt_string(name0, encb + (ence + seq![0u8]));
        lemma_encode_body_len_pos(t0);
        let cb = encb.len() as int;
        if k - 1 < sl {
            assert(p.skip(1) =~= encs.take(k - 1));
            lemma_truncated_string(name0, k - 1);
        } else if k - 1 - sl < cb {
            assert(p.skip(1) =~= encs + (encb + (ence + seq![0u8])).take(k - 1 - sl));
            lemma_rt_string(name0, (encb + (ence + seq![0u8])).take(k - 1 - sl));
            assert(p.skip(1 + sl) =~= encb.take(k - 1 - sl));
            lemma_truncated_body(t0, k - 1 - sl);
        } else {
            assert(p.skip(1) =~= encs + (encb + (ence + seq![0u8]).take(k - 1 - sl - cb)));
            lemma_rt_string(name0, encb + (ence + seq![0u8]).take(k - 1 - sl - cb));
            lemma_rt_body(t0, (ence + seq![0u8]).take(k - 1 - sl - cb));
            assert(p.skip(1 + sl) =~= encb + (ence + seq![0u8]).take(k - 1 - sl - cb));
            assert(p.skip(1 + sl + cb) =~= (ence + seq![0u8]).take(k - 1 - sl - cb));
            assert(forall|j: int| 0 <= j < acc.len() ==> (#[trigger] acc[j].0) != name0);
            crate::tag::lemma_insert_fresh(acc, name0, t0);
            assert((name0, t0) == es[0]);
            let acc2 = acc.push(es[0]);
            assert(spec_insert(acc, name0, t0) == acc2);
            lemma_not_has_name(dtail, name0);
            assert forall|i: int, j: int|
                #![trigger acc2[i].0, dtail[j].0]
                0 <= i < acc2.len() && 0 <= j < dtail.len() implies acc2[i].0 != dtail[j].0 by {
                assert(dtail[j] == es[j + 1]);
                if i < acc.len() {
                    assert(acc2[i] == acc[i]);
                    assert(acc[i].0 != es[j + 1].0);
                } else {
                    assert(acc2[i] == es[0]);
                    assert(dtail[j].0 != name0);
                }
            }
            lemma_truncated_entries(dtail, acc2, k - 1 - sl - cb);
        }
    }
}

/// Truncation of a whole document: reading any strict prefix of a valid
/// encoded document fails with the end-of-stream error, never with a partial
/// tree.
pub proof fn lemma_truncated_document(es: Seq<(Seq<char>, SpecTag)>, name: Seq<char>, k: int)
    requires
        spec_tag_valid(SpecTag::Compound(es)),
        spec_string_fits(name),
        0 <= k < spec_encode_document(es, name).len(),
    ensures
        spec_read_document(spec_encode_document(es, name).take(k)) == Err::<
            (Seq<(Seq<char>, SpecTag)>, Seq<char>),
            _,
        >(NbtDecodeError::UnexpectedEof),
{
    let e = spec_encode_document(es, name);
    let p = e.take(k);
    let encs = spec_encode_string(name);
    let encb = spec_encode_body(SpecTag::Compound(es));
    assert(e =~= seq![0x0Au8] + (encs + encb));
    lemma_encode_body_len_pos(SpecTag::Compound(es));
    let sl = encs.len() as int;
    if k == 0 {
    } else if k - 1 < sl {
        assert(p[0] == 0x0A);
        assert(p.skip(1) =~= encs.take(k - 1));
        lemma_truncated_string(name, k - 1);
    } else {
        assert(p[0] == 0x0A);
        assert(p.skip(1) =~= encs + encb.take(k - 1 - sl));
        lemma_rt_string(name, encb.take(k - 1 - sl));
        assert(p.skip(1 + sl) =~= encb.take(k - 1 - sl));
        lemma_truncated_body(SpecTag::Compound(es), k - 1 - sl);
    }
}

/// The body decoder's failures are all wire-level: it never reports a
/// decompression failure.
pub proof fn lemma_body_error_kind(s: Seq<u8>, id: int)
    ensures
        spec_decode_body(s, id) != Err::<(SpecTag, int), _>(NbtDecodeError::DecompressionFailed),
    decreases s.len(), 0int, 1int,
{
    if id == 0x9 {
        if s.len() >= 5 {
            let et = s[0] as int;
            let n = sv32(be_val(s.subrange(1, 5)));
            if !(et > 0xC || (et == 0 && n != 0)) && n > 0 {
                lemma_elems_error_kind(s.skip(5), et, n);
            }
        }
    } else if id == 0xA {
        lemma_entries_error_kind(s, Seq::empty());
    }
}

/// The element-run decoder never reports a decompression failure.
pub proof fn lemma_elems_error_kind(s: Seq<u8>, id: int, n: int)
    ensures
        spec_decode_elems(s, id, n) != Err::<(Seq<SpecTag>, int), _>(
            NbtDecodeError::DecompressionFailed,
        ),
    decreases s.len(), n, 2int,
{
    if n > 0 {
        lemma_body_error_kind(s, id);
        match spec_decode_body(s, id) {
            Ok((t, c)) => {
                if 1 <= c <= s.len() {
                    lemma_elems_error_kind(s.skip(c), id, n - 1);
                }
            },
            Err(_) => {},
        }
    }
}

/// The entry decoder never reports a decompression failure.
pub proof fn lemma_entries_error_kind(s: Seq<u8>, acc: Seq<(Seq<char>, SpecTag)>)
    ensures
        spec_decode_entries(s, acc) != Err::<(Seq<(Seq<char>, SpecTag)>, int), _>(
            NbtDecodeError::DecompressionFailed,
        ),
    decreases s.len(), 0int, 0int,
{
    if s.len() >= 1 && s[0] != 0 {
        match spec_read_string(s.skip(1)) {
            Ok((name, sl)) => {
                if sl >= 2 && 1 + sl <= s.len() {
                    lemma_body_error_kind(s.skip(1 + sl), s[0] as int);
                    match spec_decode_body(s.skip(1 + sl), s[0] as int) {
                        Ok((t, c)) => {
                            if c >= 1 && 1 + sl + c <= s.len() {
                                lemma_entries_error_kind(
                                    s.skip(1 + sl + c),
                                    spec_insert(acc, name, t),
                                );
                            }
                        },
                        Err(_) => {},
                    }
                }
            },
            Err(_) => {},
        }
    }
}

/// A document read fails only for wire-level reasons: it never reports a
/// decompression failure.
pub proof fn lemma_document_error_kind(s: Seq<u8>)
    ensures
        spec_read_document(s) != Err::<(Seq<(Seq<char>, SpecTag)>, Seq<char>), _>(
            NbtDecodeError::DecompressionFailed,
        ),
{
    if s.len() >= 1 && s[0] == 0x0A {
        match spec_read_string(s.skip(1)) {
            Ok((name, sl)) => {
                if sl >= 2 && 1 + sl <= s.len() {
                    lemma_body_error_kind(s.skip(1 + sl), 0xA);
                }
            },
            Err(_) => {},
        }
    }
}

/// Entries inserted one after another, in order: the map a compound body's
/// wire entries build up.
pub open spec fn spec_fold_insert(
    acc: Seq<(Seq<char>, SpecTag)>,
    raw: Seq<(Seq<char>, SpecTag)>,
) -> Seq<(Seq<char>, SpecTag)>
    decreases raw.len(),
{
    if raw.len() == 0 {
        acc
    } else {
        spec_fold_insert(spec_insert(acc, raw[0].0, raw[0].1), raw.drop_first())
    }
}

/// The value of the last entry named `k` in a run of wire entries, if any.
pub open spec fn spec_last_named(raw: Seq<(Seq<char>, SpecTag)>, k: Seq<char>) -> Option<SpecTag>
    decreases raw.len(),
{
    if raw.len() == 0 {
        None
    } else {
        match spec_last_named(raw.drop_first(), k) {
            Some(v) => Some(v),
            None => if raw[0].0 == k {
                Some(raw[0].1)
            } else {
                None
            },
        }
    }
}

/// What a fold of insertions maps each name to: the last value inserted under
/// it, or what the accumulator already held.
pub proof fn lemma_fold_insert_lookup(
    acc: Seq<(Seq<char>, SpecTag)>,
    raw: Seq<(Seq<char>, SpecTag)>,
    k: Seq<char>,
)
    ensures
        spec_lookup(spec_fold_insert(acc, raw), k) == (match spec_last_named(raw, k) {
            Some(v) => Some(v),
            None => spec_lookup(acc, k),
        }),
    decreases raw.len(),
{
    if raw.len() > 0 {
        let acc2 = spec_insert(acc, raw[0].0, raw[0].1);
        lemma_fold_insert_lookup(acc2, raw.drop_first(), k);
        if spec_last_named(raw.drop_first(), k) is None {
            if raw[0].0 == k {
                crate::tag::lemma_insert_lookup(acc, raw[0].0, raw[0].1);
            } else {
                crate::tag::lemma_insert_lookup_other(acc, raw[0].0, raw[0].1, k);
            }
        }
    }
}

/// Reading back encoded wire entries, unique names or not, folds them into
/// the accumulator one insertion per entry, in stream order.
#[verifier::rlimit(100)]
#[verifier::spinoff_prover]
pub proof fn lemma_decode_entries_fold(
    raw: Seq<(Seq<char>, SpecTag)>,
    acc: Seq<(Seq<char>, SpecTag)>,
    rest: Seq<u8>,
)
    requires
        forall|i: int|
            0 <= i < raw.len() ==> spec_tag_valid((#[trigger] raw[i]).1) && spec_string_fits(
                raw[i].0,
            ),
    ensures
        spec_decode_entries(spec_encode_entries(raw) + seq![0u8] + rest, acc) == Ok::<
            _,
            NbtDecodeError,
        >((spec_fold_insert(acc, raw), spec_encode_entries(raw).len() as int + 1)),
    decreases raw,
{
    let e = spec_encode_entries(raw) + seq![0u8];
    let s = spec_encode_entries(raw) + seq![0u8] + rest;
    if raw.len() == 0 {
        assert(spec_encode_entries(raw).len() == 0);
        assert(s[0] == 0);
    } else {
        let (name0, t0) = raw[0];
        assert(spec_tag_valid(raw[0].1) && spec_string_fits(raw[0].0));
        let id = spec_tag_id(t0);
        let encs = spec_encode_string(name0);
        let encb = spec_encode_body(t0);
        let dtail = raw.drop_first();
        let ence = spec_encode_entries(dtail);
        assert(s =~= seq![id as u8] + (encs + (encb + (ence + (seq![0u8] + rest)))));
        assert(1 <= id <= 0xC);
        assert(s[0] == id as u8);
        assert(s[0] as int == id);
        lemma_rt_string(name0, encb + (ence + (seq![0u8] + rest)));
        assert(s.skip(1) =~= encs + (encb + (ence + (seq![0u8] + rest))));
        let sl = encs.len() as int;
        lemma_rt_body(t0, ence + (seq![0u8] + rest));
        lemma_encode_body_len_pos(t0);
        assert(s.skip(1 + sl) =~= encb + (ence + (seq![0u8] + rest)));
        let cb = encb.len() as int;
        let acc2 = spec_insert(acc, name0, t0);
        assert forall|i: int|
            0 <= i < dtail.len() implies spec_tag_valid((#[trigger] dtail[i]).1)
            && spec_string_fits(dtail[i].0) by {
            assert(dtail[i] == raw[i + 1]);
            assert(spec_tag_valid(raw[i + 1].1) && spec_string_fits(raw[i + 1].0));
        }
        lemma_decode_entries_fold(dtail, acc2, rest);
        assert(s.skip(1 + sl + cb) =~= spec_encode_entries(dtail) + seq![0u8] + rest);
        assert(spec_fold_insert(acc, raw) == spec_fold_insert(acc2, dtail));
        assert(spec_encode_entries(raw).len() == 1 + sl + cb + ence.len());
    }
}

/// Last write wins on the wire: a compound body's entries, read up to the
/// sentinel, map every name to the value of the last wire entry carrying it —
/// duplicate names included, where later entries overwrite earlier ones.
pub proof fn lemma_wire_last_write_wins(raw: Seq<(Seq<char>, SpecTag)>, rest: Seq<u8>)
    requires
        forall|i: int|
            0 <= i < raw.len() ==> spec_tag_valid((#[trigger] raw[i]).1) && spec_string_fits(
                raw[i].0,
            ),
    ensures
        ({
            let m = spec_fold_insert(Seq::empty(), raw);
            &&& spec_decode_entries(spec_encode_entries(raw) + seq![0u8] + rest, Seq::empty())
                == Ok::<_, NbtDecodeError>((m, spec_encode_entries(raw).len() as int + 1))
            &&& forall|k: Seq<char>| spec_lookup(m, k) == #[trigger] spec_last_named(raw, k)
        }),
{
    let m = spec_fold_insert(Seq::empty(), raw);
    lemma_decode_entries_fold(raw, Seq::empty(), rest);
    assert forall|k: Seq<char>| spec_lookup(m, k) == #[trigger] spec_last_named(raw, k) by {
        lemma_fold_insert_lookup(Seq::empty(), raw, k);
        assert(spec_lookup(Seq::<(Seq<char>, SpecTag)>::empty(), k) is None);
    }
}

} // verus!
