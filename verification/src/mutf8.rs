//! The string codec: a JVM-style modified UTF-8.
//!
//! It differs from standard UTF-8 in two points: the null character may be
//! written as the two-byte form `C0 80`, and characters outside the basic
//! multilingual plane are written as a surrogate pair, each half as a
//! three-byte unit. The reader accepts any one-byte value below `0x80` (a raw
//! null byte included) and the `C0 80` pair; it rejects every other overlong
//! two- or three-byte form, four-byte units, stray continuation bytes, and
//! surrogate halves that do not pair up, since native text cannot hold a lone
//! surrogate.

use vstd::arithmetic::div_mod::{
    lemma_fundamental_div_mod, lemma_fundamental_div_mod_converse, lemma_mod_bound,
};
use vstd::prelude::*;

verus! {

/// A continuation byte: high bits `10`.
pub open spec fn is_cont(b: u8) -> bool {
    0x80 <= b < 0xC0
}

/// The three-byte unit that carries the 16-bit value `u`.
pub open spec fn enc3(u: int) -> Seq<u8> {
    seq![(0xE0 + u / 4096) as u8, (0x80 + (u / 64) % 64) as u8, (0x80 + u % 64) as u8]
}

/// The 16-bit value carried by a three-byte unit.
pub open spec fn dec3(b0: int, b1: int, b2: int) -> int {
    (b0 - 0xE0) * 4096 + (b1 - 0x80) * 64 + (b2 - 0x80)
}

/// The bytes written for one character of scalar value `v`.
pub open spec fn mutf8_encode_char(v: int) -> Seq<u8> {
    if v == 0 {
        seq![0xC0u8, 0x80u8]
    } else if v < 0x80 {
        seq![v as u8]
    } else if v < 0x800 {
        seq![(0xC0 + v / 64) as u8, (0x80 + v % 64) as u8]
    } else if v < 0x10000 {
        enc3(v)
    } else {
        enc3(0xD800 + (v - 0x10000) / 1024) + enc3(0xDC00 + (v - 0x10000) % 1024)
    }
}

/// The bytes written for a whole character sequence.
pub open spec fn mutf8_encode(cs: Seq<char>) -> Seq<u8>
    decreases cs.len(),
{
    if cs.len() == 0 {
        Seq::empty()
    } else {
        mutf8_encode_char(cs[0] as int) + mutf8_encode(cs.drop_first())
    }
}

pub open spec fn prepend(c: char, rest: Option<Seq<char>>) -> Option<Seq<char>> {
    match rest {
        Some(t) => Some(seq![c] + t),
        None => None,
    }
}

/// The characters read back from a byte sequence, or `None` when the bytes
/// are not valid under the modified encoding.
pub open spec fn mutf8_decode(s: Seq<u8>) -> Option<Seq<char>>
    decreases s.len(),
{
    if s.len() == 0 {
        Some(Seq::empty())
    } else {
        let b0 = s[0] as int;
        if b0 < 0x80 {
            prepend(b0 as char, mutf8_decode(s.skip(1)))
        } else if 0xC0 <= b0 < 0xE0 {
            if s.len() >= 2 && is_cont(s[1]) && (b0 >= 0xC2 || (b0 == 0xC0 && s[1] == 0x80)) {
                let v = (b0 - 0xC0) * 64 + (s[1] as int - 0x80);
                prepend(v as char, mutf8_decode(s.skip(2)))
            } else {
                None
            }
        } else if 0xE0 <= b0 < 0xF0 {
            if s.len() >= 3 && is_cont(s[1]) && is_cont(s[2]) && (b0 != 0xE0 || s[1] >= 0xA0) {
                let u = dec3(b0, s[1] as int, s[2] as int);
                if u < 0xD800 || u >= 0xE000 {
                    prepend(u as char, mutf8_decode(s.skip(3)))
                } else if u < 0xDC00 {
                    if s.len() >= 6 && 0xE0 <= s[3] < 0xF0 && is_cont(s[4]) && is_cont(s[5]) {
                        let u2 = dec3(s[3] as int, s[4] as int, s[5] as int);
                        if 0xDC00 <= u2 < 0xE000 {
                            let v = 0x10000 + (u - 0xD800) * 1024 + (u2 - 0xDC00);
                            prepend(v as char, mutf8_decode(s.skip(6)))
                        } else {
                            None
                        }
                    } else {
                        None
                    }
                } else {
                    None
                }
            } else {
                None
            }
        } else {
            None
        }
    }
}

/// Encoding one sequence after another writes the two byte runs one after the
/// other.
pub proof fn lemma_mutf8_encode_concat(a: Seq<char>, b: Seq<char>)
    ensures
        mutf8_encode(a + b) == mutf8_encode(a) + mutf8_encode(b),
    decreases a.len(),
{
    if a.len() == 0 {
        assert(a + b =~= b);
        assert(mutf8_encode(a) + mutf8_encode(b) =~= mutf8_encode(b));
    } else {
        lemma_mutf8_encode_concat(a.drop_first(), b);
        assert((a + b).drop_first() =~= a.drop_first() + b);
        assert((a + b)[0] == a[0]);
        assert(mutf8_encode_char(a[0] as int) + (mutf8_encode(a.drop_first()) + mutf8_encode(b))
            =~= (mutf8_encode_char(a[0] as int) + mutf8_encode(a.drop_first())) + mutf8_encode(b));
    }
}

/// The three-byte unit of a 16-bit value: its byte ranges and its readback.
proof fn lemma_enc3(u: int)
    requires
        0 <= u < 0x10000,
    ensures
        enc3(u).len() == 3,
        enc3(u)[0] as int == 0xE0 + u / 4096,
        0xE0 <= enc3(u)[0] < 0xF0,
        is_cont(enc3(u)[1]),
        is_cont(enc3(u)[2]),
        u >= 0x800 ==> enc3(u)[0] != 0xE0 || enc3(u)[1] >= 0xA0,
        dec3(enc3(u)[0] as int, enc3(u)[1] as int, enc3(u)[2] as int) == u,
{
    lemma_fundamental_div_mod(u, 64);
    lemma_mod_bound(u, 64);
    let a = u / 64;
    lemma_fundamental_div_mod(a, 64);
    lemma_mod_bound(a, 64);
    let b = a / 64;
    assert(u == 4096 * b + (64 * (a % 64) + u % 64));
    lemma_fundamental_div_mod_converse(u, 4096, b, 64 * (a % 64) + u % 64);
    assert(b == u / 4096);
    if 0x800 <= u < 0x1000 {
        assert(32 <= a < 64);
        lemma_fundamental_div_mod_converse(a, 64, 0, a);
        assert(a % 64 == a);
    }
}

/// Reading back what was written for one character: the branch taken matches
/// the leading byte, and the value is restored exactly.
proof fn lemma_round_trip_char(c: char, rest: Seq<u8>)
    ensures
        ({
            let e = mutf8_encode_char(c as int);
            mutf8_decode(e + rest) == prepend(c, mutf8_decode(rest))
        }),
{
    let v = c as int;
    let e = mutf8_encode_char(v);
    let s = e + rest;
    assert(0 <= v <= 0x10FFFF && !(0xD800 <= v <= 0xDFFF));
    if v == 0 {
        assert(s[0] == 0xC0 && s[1] == 0x80);
        assert(s.skip(2) =~= rest);
        assert((0xC0 - 0xC0) * 64 + (0x80 - 0x80) == 0);
        assert(0 as char == c);
    } else if v < 0x80 {
        assert(s[0] as int == v);
        assert(s.skip(1) =~= rest);
        assert(v as char == c);
    } else if v < 0x800 {
        lemma_fundamental_div_mod(v, 64);
        lemma_mod_bound(v, 64);
        assert(s[0] as int == 0xC0 + v / 64);
        assert(s[1] as int == 0x80 + v % 64);
        assert(0xC2 <= s[0] < 0xE0);
        assert(is_cont(s[1]));
        assert((s[0] as int - 0xC0) * 64 + (s[1] as int - 0x80) == v);
        assert(s.skip(2) =~= rest);
        assert(v as char == c);
    } else if v < 0x10000 {
        lemma_enc3(v);
        assert(s[0] == enc3(v)[0] && s[1] == enc3(v)[1] && s[2] == enc3(v)[2]);
        assert(dec3(s[0] as int, s[1] as int, s[2] as int) == v);
        assert(s.skip(3) =~= rest);
        assert(v as char == c);
    } else {
        let w = v - 0x10000;
        lemma_fundamental_div_mod(w, 1024);
        lemma_mod_bound(w, 1024);
        let u1 = 0xD800 + w / 1024;
        let u2 = 0xDC00 + w % 1024;
        assert(0xD800 <= u1 < 0xDC00);
        assert(0xDC00 <= u2 < 0xE000);
        lemma_enc3(u1);
        lemma_enc3(u2);
        assert(e =~= enc3(u1) + enc3(u2));
        assert(s[0] == enc3(u1)[0] && s[1] == enc3(u1)[1] && s[2] == enc3(u1)[2]);
        assert(s[3] == enc3(u2)[0] && s[4] == enc3(u2)[1] && s[5] == enc3(u2)[2]);
        assert(dec3(s[0] as int, s[1] as int, s[2] as int) == u1);
        assert(dec3(s[3] as int, s[4] as int, s[5] as int) == u2);
        assert(0x10000 + (u1 - 0xD800) * 1024 + (u2 - 0xDC00) == v);
        assert(s.skip(6) =~= rest);
        assert(v as char == c);
    }
}

/// Round trip of the string codec: reading back what was written restores the
/// character sequence exactly.
pub proof fn lemma_mutf8_round_trip(cs: Seq<char>)
    ensures
        mutf8_decode(mutf8_encode(cs)) == Some(cs),
    decreases cs.len(),
{
    if cs.len() == 0 {
    } else {
        lemma_mutf8_round_trip(cs.drop_first());
        lemma_round_trip_char(cs[0], mutf8_encode(cs.drop_first()));
        assert(seq![cs[0]] + cs.drop_first() =~= cs);
    }
}

/// Relies on `String::push`: appends one character to the string.
#[verifier::external_body]
pub fn push_char(s: &mut String, c: char)
    ensures
        final(s)@ == old(s)@.push(c),
{
    s.push(c);
}

/// Relies on `char::from_u32`: for a valid scalar value it returns the
/// character with exactly that value.
#[verifier::external_body]
pub fn char_from_u32(v: u32) -> (r: char)
    requires
        v < 0xD800 || (0xE000 <= v <= 0x10FFFF),
    ensures
        r as u32 == v,
        r as int == v as int,
{
    char::from_u32(v).unwrap()
}

/// The scalar value of a character, with the bounds every character obeys.
pub fn char_val(c: char) -> (r: u32)
    ensures
        r == c as u32,
        r as int == c as int,
        r <= 0x10FFFF,
        !(0xD800 <= r && r <= 0xDFFF),
{
    proof {
        assert(0 <= c as int <= 0x10FFFF && !(0xD800 <= c as int <= 0xDFFF));
    }
    c as u32
}

/// Relies on `str::chars`: yields the string's characters in order.
#[verifier::external_body]
pub fn str_chars(s: &str) -> (r: Vec<char>)
    ensures
        r@ == s@,
{
    let mut v = Vec::new();
    for c in s.chars() {
        v.push(c);
    }
    v
}

/// Decodes `bytes[start .. start + len]` under the modified encoding, or
/// returns `None` when those bytes are not valid under it.
#[verifier::rlimit(100)]
pub fn decode_mutf8(bytes: &[u8], start: usize, len: usize) -> (r: Option<String>)
    requires
        start + len <= bytes@.len(),
    ensures
        match mutf8_decode(bytes@.subrange(start as int, start as int + len as int)) {
            Some(cs) => r matches Some(s) && s@ == cs,
            None => r is None,
        },
{
    let total: usize = bytes.len();
    proof {
        assert(total == bytes@.len());
    }
    let ghost sub = bytes@.subrange(start as int, start as int + len as int);
    let mut out: String = String::new();
    let mut i: usize = 0;
    proof {
        assert(sub.skip(0) =~= sub);
    }
    while i < len
        invariant
            start + len <= bytes@.len(),
            bytes@.len() <= usize::MAX,
            sub == bytes@.subrange(start as int, start as int + len as int),
            i <= len,
            mutf8_decode(sub) == (match mutf8_decode(sub.skip(i as int)) {
                Some(t) => Some(out@ + t),
                None => None::<Seq<char>>,
            }),
        decreases len - i,
    {
        let ghost tail = sub.skip(i as int);
        proof {
            assert forall|j: int| 0 <= j < tail.len() implies tail[j] == bytes@[start + i + j] by {
                assert(tail[j] == sub[i + j]);
            }
        }
        let b0 = bytes[start + i];
        let used: usize;
        let c: char;
        if b0 < 0x80 {
            c = char_from_u32(b0 as u32);
            used = 1;
            proof {
                assert(tail[0] == b0);
                assert(c as int == b0 as int);
                assert(c == (b0 as int) as char);
            }
        } else if b0 < 0xC0 {
            return None;
        } else if b0 < 0xE0 {
            if len - i < 2 {
                return None;
            }
            let b1 = bytes[start + i + 1];
            if !(0x80 <= b1 && b1 < 0xC0) {
                return None;
            }
            if b0 < 0xC2 && !(b0 == 0xC0 && b1 == 0x80) {
                proof {
                    assert(tail[0] == b0 && tail[1] == b1);
                }
                return None;
            }
            let v: u32 = (b0 as u32 - 0xC0) * 64 + (b1 as u32 - 0x80);
            proof {
                assert(tail[0] == b0 && tail[1] == b1);
                assert(v as int == (b0 as int - 0xC0) * 64 + (b1 as int - 0x80));
                assert(v < 0x800);
            }
            c = char_from_u32(v);
            used = 2;
            proof {
                assert(c == (v as int) as char);
            }
        } else if b0 < 0xF0 {
            if len - i < 3 {
                return None;
            }
            let b1 = bytes[start + i + 1];
            let b2 = bytes[start + i + 2];
            if !(0x80 <= b1 && b1 < 0xC0) || !(0x80 <= b2 && b2 < 0xC0) {
                return None;
            }
            if b0 == 0xE0 && b1 < 0xA0 {
                proof {
                    assert(tail[0] == b0 && tail[1] == b1);
                }
                return None;
            }
            let u: u32 = (b0 as u32 - 0xE0) * 4096 + (b1 as u32 - 0x80) * 64 + (b2 as u32 - 0x80);
            proof {
                assert(tail[0] == b0 && tail[1] == b1 && tail[2] == b2);
                assert(u as int == dec3(b0 as int, b1 as int, b2 as int));
                assert(u < 0x10000);
            }
            if u < 0xD800 || u >= 0xE000 {
                c = char_from_u32(u);
                used = 3;
                proof {
                    assert(c == (u as int) as char);
                }
            } else if u < 0xDC00 {
                if len - i < 6 {
                    return None;
                }
                let b3 = bytes[start + i + 3];
                let b4 = bytes[start + i + 4];
                let b5 = bytes[start + i + 5];
                if !(0xE0 <= b3 && b3 < 0xF0) || !(0x80 <= b4 && b4 < 0xC0) || !(0x80 <= b5 && b5
                    < 0xC0) {
                    return None;
                }
                let u2: u32 = (b3 as u32 - 0xE0) * 4096 + (b4 as u32 - 0x80) * 64 + (b5 as u32
                    - 0x80);
                proof {
                    assert(tail[3] == b3 && tail[4] == b4 && tail[5] == b5);
                    assert(u2 as int == dec3(b3 as int, b4 as int, b5 as int));
                    assert(u2 < 0x10000);
                }
                if !(0xDC00 <= u2 && u2 < 0xE000) {
                    return None;
                }
                let v: u32 = 0x10000 + (u - 0xD800) * 1024 + (u2 - 0xDC00);
                proof {
                    assert(v as int == 0x10000 + (u as int - 0xD800) * 1024 + (u2 as int - 0xDC00));
                    assert(v <= 0x10FFFF);
                }
                c = char_from_u32(v);
                used = 6;
                proof {
                    assert(c == (v as int) as char);
                }
            } else {
                return None;
            }
        } else {
            return None;
        }
        let ghost pre_out = out@;
        push_char(&mut out, c);
        proof {
            assert(mutf8_decode(tail) == prepend(c, mutf8_decode(tail.skip(used as int))));
            assert(tail.skip(used as int) =~= sub.skip(i as int + used as int));
            match mutf8_decode(sub.skip(i as int + used as int)) {
                Some(t) => {
                    assert(pre_out + (seq![c] + t) =~= out@ + t);
                },
                None => {},
            }
        }
        i = i + used;
    }
    proof {
        assert(sub.skip(len as int) =~= Seq::<u8>::empty());
        assert(out@ + Seq::<char>::empty() =~= out@);
    }
    Some(out)
}

/// Appends the modified-UTF-8 bytes of `s` to `out`.
pub fn encode_mutf8(s: &str, out: &mut Vec<u8>)
    ensures
        final(out)@ == old(out)@ + mutf8_encode(s@),
{
    let cs = str_chars(s);
    let ghost base = old(out)@;
    let mut i: usize = 0;
    proof {
        assert(s@.take(0) =~= Seq::<char>::empty());
        assert(base + mutf8_encode(s@.take(0)) =~= base);
    }
    while i < cs.len()
        invariant
            cs@ == s@,
            base == old(out)@,
            i <= cs@.len(),
            out@ == base + mutf8_encode(s@.take(i as int)),
        decreases cs@.len() - i,
    {
        let c = cs[i];
        let v: u32 = char_val(c);
        let ghost vi = v as int;
        proof {
            assert(vi == s@[i as int] as int);
        }
        if v == 0 {
            out.push(0xC0);
            out.push(0x80);
        } else if v < 0x80 {
            out.push(v as u8);
        } else if v < 0x800 {
            proof {
                lemma_fundamental_div_mod(vi, 64);
                lemma_mod_bound(vi, 64);
            }
            out.push((0xC0 + v / 64) as u8);
            out.push((0x80 + v % 64) as u8);
        } else if v < 0x10000 {
            proof {
                lemma_enc3(vi);
            }
            out.push((0xE0 + v / 4096) as u8);
            out.push((0x80 + (v / 64) % 64) as u8);
            out.push((0x80 + v % 64) as u8);
        } else {
            let w: u32 = v - 0x10000;
            let u1: u32 = 0xD800 + w / 1024;
            let u2: u32 = 0xDC00 + w % 1024;
            proof {
                lemma_fundamental_div_mod(w as int, 1024);
                lemma_mod_bound(w as int, 1024);
                assert(u1 as int == 0xD800 + (vi - 0x10000) / 1024);
                assert(u2 as int == 0xDC00 + (vi - 0x10000) % 1024);
                lemma_enc3(u1 as int);
                lemma_enc3(u2 as int);
            }
            out.push((0xE0 + u1 / 4096) as u8);
            out.push((0x80 + (u1 / 64) % 64) as u8);
            out.push((0x80 + u1 % 64) as u8);
            out.push((0xE0 + u2 / 4096) as u8);
            out.push((0x80 + (u2 / 64) % 64) as u8);
            out.push((0x80 + u2 % 64) as u8);
        }
        proof {
            assert(out@ =~= (base + mutf8_encode(s@.take(i as int))) + mutf8_encode_char(vi));
            lemma_mutf8_encode_concat(s@.take(i as int), seq![s@[i as int]]);
            assert(s@.take(i as int + 1) =~= s@.take(i as int) + seq![s@[i as int]]);
            assert(seq![s@[i as int]].drop_first() =~= Seq::<char>::empty());
            assert(mutf8_encode_char(vi) + mutf8_encode(Seq::<char>::empty())
                =~= mutf8_encode_char(vi));
            assert(mutf8_encode(seq![s@[i as int]]) =~= mutf8_encode_char(vi));
            assert(out@ =~= base + mutf8_encode(s@.take(i as int + 1)));
        }
        i = i + 1;
    }
    proof {
        assert(s@.take(cs@.len() as int) =~= s@);
    }
}

} // verus!
