//! The executable writer: the mirror of the reader, proved to emit exactly
//! the bytes the wire-format specification assigns to a tree. Together with
//! the round-trip theorem this makes reading back what was written restore
//! the tree.

use crate::mutf8::encode_mutf8;
use crate::tag::{NbtCompound, NbtTag, SpecTag};
use crate::wire::{
    be_bytes, lemma_encode_elems_concat, lemma_encode_entries_concat, lemma_encode_ints_concat,
    lemma_encode_longs_concat, lemma_elems_valid_index, lemma_entries_valid_index,
    lemma_pow256_vals, lemma_valid_arrays, pow256, spec_encode_body, spec_encode_document,
    spec_encode_elems, spec_encode_entries, spec_encode_ints, spec_encode_longs,
    spec_encode_string, spec_entries_valid, spec_string_fits, spec_tag_id, spec_tag_valid, uv16,
    uv32, uv64, uv8,
};
use vstd::arithmetic::div_mod::{lemma_fundamental_div_mod, lemma_mod_bound};
use vstd::prelude::*;

verus! {

/// Appends the `w` big-endian bytes of `n`.
fn write_be(out: &mut Vec<u8>, n: u64, w: usize)
    requires
        w <= 8,
        (n as int) < pow256(w as nat),
    ensures
        final(out)@ == old(out)@ + be_bytes(n as int, w as nat),
    decreases w,
{
    proof {
        lemma_pow256_vals();
    }
    if w == 0 {
        proof {
            assert(old(out)@ + be_bytes(n as int, 0) =~= old(out)@);
        }
    } else {
        proof {
            lemma_fundamental_div_mod(n as int, 256);
            lemma_mod_bound(n as int, 256);
            assert(pow256(w as nat) == 256 * pow256((w - 1) as nat));
            assert(256 * (n as int / 256) <= n as int);
        }
        write_be(out, n / 256, w - 1);
        out.push((n % 256) as u8);
        proof {
            assert((n / 256) as int == n as int / 256);
            assert((n % 256) as u8 == (n as int % 256) as u8);
            assert(out@ =~= old(out)@ + be_bytes(n as int, w as nat));
        }
    }
}

/// Appends a length-prefixed string: the 16-bit byte count, then the bytes.
fn write_string(s: &str, out: &mut Vec<u8>)
    requires
        spec_string_fits(s@),
    ensures
        final(out)@ == old(out)@ + spec_encode_string(s@),
{
    let mut payload: Vec<u8> = Vec::new();
    encode_mutf8(s, &mut payload);
    proof {
        assert(payload@ =~= crate::mutf8::mutf8_encode(s@));
        lemma_pow256_vals();
    }
    let n = payload.len();
    write_be(out, n as u64, 2);
    out.append(&mut payload);
    proof {
        assert(out@ =~= old(out)@ + spec_encode_string(s@));
    }
}

/// The wire type identifier of a tag.
pub fn tag_id(tag: &NbtTag) -> (r: u8)
    ensures
        r as int == spec_tag_id(tag@),
        1 <= r <= 0xC,
{
    match tag {
        NbtTag::Byte(_) => 0x1,
        NbtTag::Short(_) => 0x2,
        NbtTag::Int(_) => 0x3,
        NbtTag::Long(_) => 0x4,
        NbtTag::Float(_) => 0x5,
        NbtTag::Double(_) => 0x6,
        NbtTag::ByteArray(_) => 0x7,
        NbtTag::String(_) => 0x8,
        NbtTag::List(_) => 0x9,
        NbtTag::Compound(_) => 0xA,
        NbtTag::IntArray(_) => 0xB,
        NbtTag::LongArray(_) => 0xC,
    }
}

fn u64_of_i8(v: i8) -> (r: u64)
    ensures
        r as int == uv8(v),
        r < 0x100,
{
    if v >= 0 {
        v as u64
    } else {
        ((v as i64) + 0x100) as u64
    }
}

fn u64_of_i16(v: i16) -> (r: u64)
    ensures
        r as int == uv16(v),
        r < 0x1_0000,
{
    if v >= 0 {
        v as u64
    } else {
        ((v as i64) + 0x1_0000) as u64
    }
}

fn u64_of_i32(v: i32) -> (r: u64)
    ensures
        r as int == uv32(v),
        r < 0x1_0000_0000,
{
    if v >= 0 {
        v as u64
    } else {
        ((v as i64) + 0x1_0000_0000) as u64
    }
}

fn u64_of_i64(v: i64) -> (r: u64)
    ensures
        r as int == uv64(v),
{
    if v >= 0 {
        v as u64
    } else {
        (((v as i128) + 0x1_0000_0000_0000_0000i128) as u64)
    }
}

/// Appends the body bytes of one tag: exactly what the wire-format
/// specification assigns to its value.
#[verifier::rlimit(100)]
#[verifier::loop_isolation(false)]
pub fn write_tag_body(tag: &NbtTag, out: &mut Vec<u8>)
    requires
        spec_tag_valid(tag@),
    ensures
        final(out)@ == old(out)@ + spec_encode_body(tag@),
    decreases tag,
{
    broadcast use vstd::std_specs::vec::group_vec_axioms;

    proof {
        lemma_pow256_vals();
    }
    match tag {
        NbtTag::Byte(v) => {
            write_be(out, u64_of_i8(*v), 1);
        },
        NbtTag::Short(v) => {
            write_be(out, u64_of_i16(*v), 2);
        },
        NbtTag::Int(v) => {
            write_be(out, u64_of_i32(*v), 4);
        },
        NbtTag::Long(v) => {
            write_be(out, u64_of_i64(*v), 8);
        },
        NbtTag::Float(b) => {
            write_be(out, *b as u64, 4);
        },
        NbtTag::Double(b) => {
            write_be(out, *b, 8);
        },
        NbtTag::ByteArray(a) => {
            proof {
                lemma_valid_arrays(tag@);
                assert(tag@ == SpecTag::ByteArray(a@));
            }
            let n = a.len();
            write_be(out, n as u64, 4);
            let ghost payload = Seq::new(
                a@.len(),
                |i: int|
                    if 0 <= i < a@.len() {
                        (uv8(a@[i])) as u8
                    } else {
                        0u8
                    },
            );
            let ghost stage = out@;
            let mut i: usize = 0;
            proof {
                assert(stage + payload.take(0) =~= stage);
            }
            while i < n
                invariant
                    n == a@.len(),
                    i <= n,
                    payload == Seq::new(
                        a@.len(),
                        |k: int|
                            if 0 <= k < a@.len() {
                                (uv8(a@[k])) as u8
                            } else {
                                0u8
                            },
                    ),
                    out@ == stage + payload.take(i as int),
                decreases n - i,
            {
                let b = a[i];
                out.push((u64_of_i8(b)) as u8);
                proof {
                    assert(payload[i as int] == (uv8(a@[i as int])) as u8);
                    assert(payload.take(i as int + 1) =~= payload.take(i as int).push(
                        payload[i as int],
                    ));
                }
                i = i + 1;
            }
            proof {
                assert(payload.take(n as int) =~= payload);
                assert(out@ =~= old(out)@ + spec_encode_body(tag@));
            }
        },
        NbtTag::String(s) => {
            proof {
                lemma_valid_arrays(tag@);
                assert(tag@ == SpecTag::String(s@));
            }
            write_string(s.as_str(), out);
        },
        NbtTag::List(l) => {
            proof {
                assert(tag@ == SpecTag::List(l@));
            }
            let n = l.tags.len();
            if n == 0 {
                out.push(0u8);
                write_be(out, 0u64, 4);
                proof {
                    assert(l@ =~= Seq::<SpecTag>::empty());
                    assert(spec_encode_elems(l@) =~= Seq::<u8>::empty());
                    assert(out@ =~= old(out)@ + spec_encode_body(tag@));
                }
            } else {
                proof {
                    assert(l@.len() == n);
                    lemma_elems_valid_index(l@, spec_tag_id(l@[0]));
                    assert(l@[0] == l.tags@[0]@);
                }
                let et = tag_id(&l.tags[0]);
                out.push(et);
                write_be(out, n as u64, 4);
                let ghost stage = out@;
                let mut i: usize = 0;
                proof {
                    assert(l@.take(0) =~= Seq::<SpecTag>::empty());
                    assert(stage + spec_encode_elems(l@.take(0)) =~= stage);
                }
                while i < n
                    invariant
                        spec_tag_valid(SpecTag::List(l@)),
                        n == l.tags@.len(),
                        l@.len() == n,
                        i <= n,
                        forall|k: int|
                            0 <= k < n ==> spec_tag_valid(#[trigger] l@[k]) && l@[k]
                                == l.tags@[k]@,
                        out@ == stage + spec_encode_elems(l@.take(i as int)),
                    decreases n - i,
                {
                    let ghost pre = out@;
                    proof {
                        assert(l@[i as int] == l.tags@[i as int]@);
                    }
                    write_tag_body(&l.tags[i], out);
                    proof {
                        lemma_encode_elems_concat(l@.take(i as int), seq![l@[i as int]]);
                        assert(l@.take(i as int + 1) =~= l@.take(i as int) + seq![l@[i as int]]);
                        assert(seq![l@[i as int]].drop_first() =~= Seq::<SpecTag>::empty());
                        assert(spec_encode_elems(seq![l@[i as int]]) =~= spec_encode_body(
                            l@[i as int],
                        ));
                        assert(out@ =~= stage + spec_encode_elems(l@.take(i as int + 1)));
                    }
                    i = i + 1;
                }
                proof {
                    assert(l@.take(n as int) =~= l@);
                    assert(out@ =~= old(out)@ + spec_encode_body(tag@));
                }
            }
        },
        NbtTag::Compound(c) => {
            proof {
                assert(tag@ == SpecTag::Compound(c@));
            }
            write_compound_entries(c, out);
            proof {
                assert(out@ =~= old(out)@ + spec_encode_body(tag@));
            }
        },
        NbtTag::IntArray(a) => {
            proof {
                lemma_valid_arrays(tag@);
                assert(tag@ == SpecTag::IntArray(a@));
            }
            let n = a.len();
            write_be(out, n as u64, 4);
            let ghost stage = out@;
            let mut i: usize = 0;
            proof {
                assert(a@.take(0) =~= Seq::<i32>::empty());
                assert(stage + spec_encode_ints(a@.take(0)) =~= stage);
            }
            while i < n
                invariant
                    n == a@.len(),
                    i <= n,
                    out@ == stage + spec_encode_ints(a@.take(i as int)),
                decreases n - i,
            {
                proof {
                    lemma_pow256_vals();
                }
                write_be(out, u64_of_i32(a[i]), 4);
                proof {
                    lemma_encode_ints_concat(a@.take(i as int), seq![a@[i as int]]);
                    assert(a@.take(i as int + 1) =~= a@.take(i as int) + seq![a@[i as int]]);
                    assert(seq![a@[i as int]].drop_first() =~= Seq::<i32>::empty());
                    assert(spec_encode_ints(seq![a@[i as int]]) =~= be_bytes(
                        uv32(a@[i as int]),
                        4,
                    ));
                    assert(out@ =~= stage + spec_encode_ints(a@.take(i as int + 1)));
                }
                i = i + 1;
            }
            proof {
                assert(a@.take(n as int) =~= a@);
                assert(out@ =~= old(out)@ + spec_encode_body(tag@));
            }
        },
        NbtTag::LongArray(a) => {
            proof {
                lemma_valid_arrays(tag@);
                assert(tag@ == SpecTag::LongArray(a@));
            }
            let n = a.len();
            write_be(out, n as u64, 4);
            let ghost stage = out@;
            let mut i: usize = 0;
            proof {
                assert(a@.take(0) =~= Seq::<i64>::empty());
                assert(stage + spec_encode_longs(a@.take(0)) =~= stage);
            }
            while i < n
                invariant
                    n == a@.len(),
                    i <= n,
                    out@ == stage + spec_encode_longs(a@.take(i as int)),
                decreases n - i,
            {
                proof {
                    lemma_pow256_vals();
                }
                write_be(out, u64_of_i64(a[i]), 8);
                proof {
                    lemma_encode_longs_concat(a@.take(i as int), seq![a@[i as int]]);
                    assert(a@.take(i as int + 1) =~= a@.take(i as int) + seq![a@[i as int]]);
                    assert(seq![a@[i as int]].drop_first() =~= Seq::<i64>::empty());
                    assert(spec_encode_longs(seq![a@[i as int]]) =~= be_bytes(
                        uv64(a@[i as int]),
                        8,
                    ));
                    assert(out@ =~= stage + spec_encode_longs(a@.take(i as int + 1)));
                }
                i = i + 1;
            }
            proof {
                assert(a@.take(n as int) =~= a@);
                assert(out@ =~= old(out)@ + spec_encode_body(tag@));
            }
        },
    }
}

/// Appends every entry of the compound, then the end sentinel.
#[verifier::rlimit(100)]
#[verifier::loop_isolation(false)]
fn write_compound_entries(c: &NbtCompound, out: &mut Vec<u8>)
    requires
        spec_entries_valid(c@),
    ensures
        final(out)@ == old(out)@ + spec_encode_entries(c@) + seq![0u8],
    decreases c,
{
    broadcast use vstd::std_specs::vec::group_vec_axioms;

    let n = c.len();
    let ghost stage = out@;
    let mut i: usize = 0;
    proof {
        lemma_entries_valid_index(c@);
        assert(c@.take(0) =~= Seq::<(Seq<char>, SpecTag)>::empty());
        assert(stage + spec_encode_entries(c@.take(0)) =~= stage);
    }
    while i < n
        invariant
            n == c@.len(),
            i <= n,
            forall|k: int|
                0 <= k < n ==> spec_tag_valid((#[trigger] c@[k]).1) && spec_string_fits(c@[k].0),
            out@ == stage + spec_encode_entries(c@.take(i as int)),
        decreases n - i,
    {
        let name = &c.entries[i].0;
        let value = &c.entries[i].1;
        proof {
            assert((name@, value@) == c@[i as int]);
        }
        let id = tag_id(value);
        out.push(id);
        write_string(name.as_str(), out);
        write_tag_body(value, out);
        proof {
            lemma_encode_entries_concat(c@.take(i as int), seq![c@[i as int]]);
            assert(c@.take(i as int + 1) =~= c@.take(i as int) + seq![c@[i as int]]);
            assert(seq![c@[i as int]].drop_first() =~= Seq::<(Seq<char>, SpecTag)>::empty());
            assert(spec_encode_entries(seq![c@[i as int]]) =~= seq![
                spec_tag_id(c@[i as int].1) as u8,
            ] + spec_encode_string(c@[i as int].0) + spec_encode_body(c@[i as int].1));
            assert(out@ =~= stage + spec_encode_entries(c@.take(i as int + 1)));
        }
        i = i + 1;
    }
    out.push(0u8);
    proof {
        assert(c@.take(n as int) =~= c@);
        assert(out@ =~= old(out)@ + spec_encode_entries(c@) + seq![0u8]);
    }
}

/// Writes a whole uncompressed document for a root compound and its name: the
/// compound identifier, the name, the compound body with its end sentinel.
pub fn write_nbt_uncompressed(compound: &NbtCompound, name: &str) -> (r: Vec<u8>)
    requires
        spec_tag_valid(SpecTag::Compound(compound@)),
        spec_string_fits(name@),
    ensures
        r@ == spec_encode_document(compound@, name@),
{
    let mut out: Vec<u8> = Vec::new();
    out.push(0x0Au8);
    write_string(name, &mut out);
    write_compound_entries(compound, &mut out);
    proof {
        assert(out@ =~= spec_encode_document(compound@, name@));
    }
    out
}

} // verus!
