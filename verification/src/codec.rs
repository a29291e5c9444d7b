//! The version-1 wire codec: a compact binary form for [`Request`] and
//! [`Response`], with variable-length integers, one byte per flag, and
//! scalar components as their four little-endian bit-pattern bytes. Field
//! order is declaration order; enum variants are numbered in declaration
//! order and written as a leading integer.
//!
//! Both directions are verified against one grammar, and decoding an
//! encoding is proved to give back the original message.

use vstd::prelude::*;
use vstd::arithmetic::div_mod::{
    lemma_div_is_ordered, lemma_fundamental_div_mod,
};
use vstd::arithmetic::mul::{
    lemma_mul_inequality, lemma_mul_is_associative, lemma_mul_is_commutative,
    lemma_mul_is_distributive_add_other_way,
};
use crate::protocol::{
    Ray, Request, RequestView, Response, ResponseView, Scene, SceneView, Sphere, TraceResult,
    Vec3,
};

verus! {

/// A variable-length integer: seven value bits per byte, least significant
/// group first, high bit set on every byte but the last.
pub open spec fn spec_varint(n: nat) -> Seq<u8>
    decreases n,
{
    if n < 128 {
        seq![n as u8]
    } else {
        seq![(n % 128 + 128) as u8] + spec_varint(n / 128)
    }
}

/// Decode a variable-length integer, reading at most `fuel` bytes.
pub open spec fn dec_varint(b: Seq<u8>, fuel: nat) -> Option<(nat, int)>
    decreases fuel,
{
    if fuel == 0 || b.len() == 0 {
        None
    } else if b[0] < 128 {
        Some((b[0] as nat, 1))
    } else {
        match dec_varint(b.skip(1), (fuel - 1) as nat) {
            Some((v, k)) => Some((((b[0] - 128) as nat + 128 * v) as nat, k + 1)),
            None => None,
        }
    }
}

/// Decode a variable-length integer that must fit in 64 bits; at most ten
/// bytes long, as the encoding of any 64-bit value is.
pub open spec fn dec_varint64(b: Seq<u8>) -> Option<(u64, int)> {
    match dec_varint(b, 10) {
        Some((v, k)) => if v <= u64::MAX {
            Some((v as u64, k))
        } else {
            None
        },
        None => None,
    }
}

/// Powers of 128: the place value of the `i`-th varint byte.
pub open spec fn pow128(i: nat) -> nat
    decreases i,
{
    if i == 0 {
        1
    } else {
        128 * pow128((i - 1) as nat)
    }
}

/// The encoding of a 64-bit value takes at most ten bytes.
pub proof fn lemma_varint_len10(n: nat)
    requires
        n <= u64::MAX,
    ensures
        1 <= spec_varint(n).len() <= 10,
{
    let n1 = n / 128;
    let n2 = n1 / 128;
    let n3 = n2 / 128;
    let n4 = n3 / 128;
    let n5 = n4 / 128;
    let n6 = n5 / 128;
    let n7 = n6 / 128;
    let n8 = n7 / 128;
    let n9 = n8 / 128;
    assert(n9 < 128) by {
        assert(n < 0x10000000000000000);
    }
    assert(spec_varint(n9).len() == 1);
    assert(spec_varint(n8).len() <= 2);
    assert(spec_varint(n7).len() <= 3);
    assert(spec_varint(n6).len() <= 4);
    assert(spec_varint(n5).len() <= 5);
    assert(spec_varint(n4).len() <= 6);
    assert(spec_varint(n3).len() <= 7);
    assert(spec_varint(n2).len() <= 8);
    assert(spec_varint(n1).len() <= 9);
    assert(spec_varint(n).len() <= 10);
}

/// Decoding an encoded value gives the value back and consumes exactly its
/// encoding, whatever follows it.
pub proof fn lemma_varint_round_trip(n: nat, rest: Seq<u8>, fuel: nat)
    requires
        fuel >= spec_varint(n).len(),
    ensures
        dec_varint(spec_varint(n) + rest, fuel) == Some((n, spec_varint(n).len() as int)),
    decreases n,
{
    let e = spec_varint(n);
    if n < 128 {
        assert((e + rest)[0] == n as u8);
    } else {
        assert(n % 128 < 128);
        assert(e == seq![(n % 128 + 128) as u8] + spec_varint(n / 128));
        assert((e + rest)[0] == (n % 128 + 128) as u8);
        assert(spec_varint(n / 128).len() >= 1);
        lemma_varint_round_trip(n / 128, rest, (fuel - 1) as nat);
        assert((e + rest).skip(1) =~= spec_varint(n / 128) + rest);
        lemma_fundamental_div_mod(n as int, 128);
    }
}

/// The 64-bit version of the round trip.
pub proof fn lemma_varint64_round_trip(n: u64, rest: Seq<u8>)
    ensures
        dec_varint64(spec_varint(n as nat) + rest) == Some(
            (n, spec_varint(n as nat).len() as int),
        ),
{
    lemma_varint_len10(n as nat);
    lemma_varint_round_trip(n as nat, rest, 10);
}

/// Append the varint encoding of `n`.
pub fn write_varint(out: &mut Vec<u8>, n: u64)
    ensures
        final(out)@ == old(out)@ + spec_varint(n as nat),
{
    let mut cur = n;
    while cur >= 128
        invariant
            old(out)@ + spec_varint(n as nat) =~= out@ + spec_varint(cur as nat),
        decreases cur,
    {
        let ghost pre = out@;
        out.push((cur % 128 + 128) as u8);
        proof {
            assert(cur as nat % 128 + 128 < 256);
            assert(out@ =~= pre + seq![(cur as nat % 128 + 128) as u8]);
            assert(pre + spec_varint(cur as nat) =~= out@ + spec_varint(cur as nat / 128));
        }
        cur = cur / 128;
    }
    let ghost pre = out@;
    out.push(cur as u8);
    proof {
        assert(out@ =~= pre + spec_varint(cur as nat));
        assert(old(out)@ + spec_varint(n as nat) =~= out@);
    }
}

/// The varint digits already read are worth `value`; appending the value
/// of the remaining digits scaled by the next place value gives the whole.
proof fn lemma_digit_step(value: int, d: int, v2: int, p: int)
    ensures
        value + (d + 128 * v2) * p == value + d * p + v2 * (128 * p),
{
    lemma_mul_is_distributive_add_other_way(p, d, 128 * v2);
    lemma_mul_is_associative(128, v2, p);
    lemma_mul_is_commutative(128, v2);
    lemma_mul_is_associative(v2, 128, p);
}

/// Read a varint that must fit in 64 bits, starting at `start`.
pub fn read_varint(b: &Vec<u8>, start: usize) -> (r: Option<(u64, usize)>)
    requires
        start <= b@.len(),
    ensures
        match r {
            Some(p) => start < p.1 <= b@.len() && dec_varint64(b@.skip(start as int)) == Some(
                (p.0, p.1 - start as int),
            ),
            None => dec_varint64(b@.skip(start as int)) is None,
        },
{
    let mut value: u64 = 0;
    let mut mult: u64 = 1;
    let mut i: usize = 0;
    proof {
        assert(pow128(0) == 1);
        let s0 = b@.skip(start as int);
        if dec_varint(s0, 10) is Some {
            let p2 = dec_varint(s0, 10)->Some_0;
            vstd::arithmetic::mul::lemma_mul_basics(p2.0 as int);
        }
    }
    while i < 10
        invariant
            i <= 10,
            start + i <= usize::MAX,
            start + i <= b@.len() || dec_varint(b@.skip(start as int), 10) is None,
            start + i <= b@.len() ==> ({
                &&& i <= 9 ==> mult == pow128(i as nat)
                &&& value < pow128(i as nat)
                &&& match dec_varint(b@.skip(start as int + i), (10 - i) as nat) {
                    Some(p2) => dec_varint(b@.skip(start as int), 10) == Some(
                        ((value + p2.0 * pow128(i as nat)) as nat, i + p2.1),
                    ),
                    None => dec_varint(b@.skip(start as int), 10) is None,
                }
            }),
        decreases 10 - i,
    {
        if start + i >= b.len() {
            proof {
                if start + i <= b@.len() {
                    assert(b@.skip(start as int + i).len() == 0);
                }
            }
            return None;
        }
        let byte = b[start + i];
        let d = byte % 128;
        let ghost pos = start as int + i;
        proof {
            assert(b@.skip(pos)[0] == byte);
            assert(b@.skip(pos).skip(1) =~= b@.skip(pos + 1));
        }
        if i <= 9 {
            let scaled = match (d as u64).checked_mul(mult) {
                Some(c) => c,
                None => {
                    proof {
                        lemma_overflow_means_reject(b@, start as int, i as nat, value, d as int);
                    }
                    return None;
                },
            };
            let newval = match value.checked_add(scaled) {
                Some(nv) => nv,
                None => {
                    proof {
                        lemma_overflow_means_reject(b@, start as int, i as nat, value, d as int);
                    }
                    return None;
                },
            };
            if byte < 128 {
                proof {
                    assert(dec_varint(b@.skip(pos), (10 - i) as nat) == Some(
                        (byte as nat, 1int),
                    ));
                    assert(newval == value + d * pow128(i as nat));
                    assert(d == byte);
                }
                return Some((newval, start + i + 1));
            }
            // A continuation byte: fold its digit in and move on.
            proof {
                let f = (10 - i) as nat;
                assert(dec_varint(b@.skip(pos), f) == (match dec_varint(
                    b@.skip(pos + 1),
                    (f - 1) as nat,
                ) {
                    Some(p3) => Some((((byte - 128) as nat + 128 * p3.0) as nat, p3.1 + 1)),
                    None => None,
                }));
                if dec_varint(b@.skip(pos + 1), (f - 1) as nat) is Some {
                    let p3 = dec_varint(b@.skip(pos + 1), (f - 1) as nat)->Some_0;
                    lemma_digit_step(value as int, d as int, p3.0 as int, pow128(i as nat) as int);
                    assert(pow128((i + 1) as nat) == 128 * pow128(i as nat));
                    lemma_mul_is_commutative(128, pow128(i as nat) as int);
                    lemma_mul_is_commutative(p3.0 as int, 128 * pow128(i as nat) as int);
                }
                if i < 9 {
                    assert(pow128((i + 1) as nat) == 128 * pow128(i as nat));
                    lemma_pow128_bounds(i as nat);
                }
                assert(newval < pow128((i + 1) as nat)) by {
                    assert(value < pow128(i as nat));
                    assert(d < 128);
                    assert(newval == value + d * pow128(i as nat));
                    assert(d as int * pow128(i as nat) <= 127 * pow128(i as nat)) by {
                        lemma_mul_inequality(d as int, 127, pow128(i as nat) as int);
                    }
                    assert(128 * pow128(i as nat) == 127 * pow128(i as nat) + pow128(i as nat))
                        by {
                        lemma_mul_is_distributive_add_other_way(pow128(i as nat) as int, 127, 1);
                    }
                }
            }
            value = newval;
            if i < 9 {
                proof {
                    lemma_pow128_bounds(i as nat);
                }
                mult = mult * 128;
            }
            i = i + 1;
        } else {
            proof {
                assert(false);
            }
        }
    }
    proof {
        if start + 10 <= b@.len() {
            assert(dec_varint(b@.skip(start as int + 10), 0) is None);
        }
    }
    None
}

/// `pow128` grows but stays within 64 bits up to its tenth power.
proof fn lemma_pow128_bounds(i: nat)
    requires
        i <= 9,
    ensures
        pow128(i) <= 0x8000000000000000,
        i < 9 ==> 128 * pow128(i) <= 0x8000000000000000,
    decreases i,
{
    if i > 0 {
        lemma_pow128_bounds((i - 1) as nat);
        assert(pow128(i) == 128 * pow128((i - 1) as nat));
        if i < 9 {
            assert(128 * pow128(i) == 128 * (128 * pow128((i - 1) as nat)));
            lemma_pow128_exact(i);
        }
    }
}

/// The first ten powers of 128, concretely.
proof fn lemma_pow128_exact(i: nat)
    requires
        i <= 9,
    ensures
        pow128(i) == if i == 0 {
            1nat
        } else if i == 1 {
            128nat
        } else if i == 2 {
            0x4000nat
        } else if i == 3 {
            0x200000nat
        } else if i == 4 {
            0x10000000nat
        } else if i == 5 {
            0x800000000nat
        } else if i == 6 {
            0x40000000000nat
        } else if i == 7 {
            0x2000000000000nat
        } else if i == 8 {
            0x100000000000000nat
        } else {
            0x8000000000000000nat
        },
    decreases i,
{
    if i > 0 {
        lemma_pow128_exact((i - 1) as nat);
    }
}

/// When a digit's contribution cannot fit in 64 bits, the whole varint is
/// out of range and the decoder rejects it.
proof fn lemma_overflow_means_reject(b: Seq<u8>, start: int, i: nat, value: u64, d: int)
    requires
        0 <= start,
        start + i < b.len(),
        i <= 9,
        0 <= d < 128,
        d == b[start + i] % 128,
        value < pow128(i),
        value + d * pow128(i) > u64::MAX,
        match dec_varint(b.skip(start + i), (10 - i) as nat) {
            Some(p2) => dec_varint(b.skip(start), 10) == Some(
                ((value + p2.0 * pow128(i)) as nat, i + p2.1),
            ),
            None => dec_varint(b.skip(start), 10) is None,
        },
    ensures
        dec_varint64(b.skip(start)) is None,
{
    let f = (10 - i) as nat;
    let s = b.skip(start + i);
    if dec_varint(s, f) is Some {
        let p2 = dec_varint(s, f)->Some_0;
        let v2 = p2.0;
        // The first digit of the remaining bytes is d, so v2 >= d.
        assert(s[0] == b[start + i]);
        if s[0] < 128 {
            assert(v2 == s[0] as nat);
            assert(v2 >= d);
        } else {
            assert(v2 >= (s[0] - 128) as nat);
            assert(v2 >= d);
        }
        assert(v2 * pow128(i) >= d * pow128(i)) by {
            lemma_mul_inequality(d, v2 as int, pow128(i) as int);
        }
        assert(value + v2 * pow128(i) > u64::MAX);
    }
}


/// A 32-bit value as four little-endian bytes (how single-precision bit
/// patterns travel).
pub open spec fn spec_u32_le(n: u32) -> Seq<u8> {
    let a = n as int;
    seq![
        (a % 256) as u8,
        ((a / 256) % 256) as u8,
        ((a / 256 / 256) % 256) as u8,
        ((a / 256 / 256 / 256) % 256) as u8,
    ]
}

/// The 32-bit value of the four little-endian bytes at the head of `b`.
pub open spec fn dec_u32_le(b: Seq<u8>) -> Option<(u32, int)> {
    if b.len() < 4 {
        None
    } else {
        Some(
            (
                (b[0] + 256 * (b[1] + 256 * (b[2] + 256 * b[3]))) as u32,
                4,
            ),
        )
    }
}

/// Four little-endian bytes decode to the value they encode.
pub proof fn lemma_u32_le_round_trip(n: u32, rest: Seq<u8>)
    ensures
        dec_u32_le(spec_u32_le(n) + rest) == Some((n, 4int)),
        spec_u32_le(n).len() == 4,
{
    let a = n as int;
    lemma_fundamental_div_mod(a, 256);
    lemma_fundamental_div_mod(a / 256, 256);
    lemma_fundamental_div_mod(a / 256 / 256, 256);
    assert(a / 256 / 256 / 256 < 256) by {
        lemma_div_is_ordered(a, 0xffffffff, 256);
        lemma_div_is_ordered(a / 256, 0xffffff, 256);
        lemma_div_is_ordered(a / 256 / 256, 0xffff, 256);
    }
    let e = spec_u32_le(n);
    assert((e + rest)[0] == e[0]);
    assert((e + rest)[1] == e[1]);
    assert((e + rest)[2] == e[2]);
    assert((e + rest)[3] == e[3]);
}

/// Append a 32-bit value as four little-endian bytes.
pub fn write_u32_le(out: &mut Vec<u8>, n: u32)
    ensures
        final(out)@ == old(out)@ + spec_u32_le(n),
{
    let ghost pre = out@;
    out.push((n % 256) as u8);
    out.push(((n / 256) % 256) as u8);
    out.push(((n / 256 / 256) % 256) as u8);
    out.push(((n / 256 / 256 / 256) % 256) as u8);
    proof {
        assert(out@ =~= pre + spec_u32_le(n));
    }
}

/// Read four little-endian bytes as a 32-bit value.
pub fn read_u32_le(b: &Vec<u8>, start: usize) -> (r: Option<(u32, usize)>)
    requires
        start <= b@.len(),
    ensures
        match r {
            Some(p) => p.1 == start + 4 && p.1 <= b@.len() && dec_u32_le(b@.skip(start as int))
                == Some((p.0, 4int)),
            None => dec_u32_le(b@.skip(start as int)) is None,
        },
{
    if b.len() - start < 4 {
        return None;
    }
    let b0 = b[start] as u32;
    let b1 = b[start + 1] as u32;
    let b2 = b[start + 2] as u32;
    let b3 = b[start + 3] as u32;
    proof {
        assert(b@.skip(start as int)[0] == b@[start as int]);
        assert(b@.skip(start as int)[1] == b@[start as int + 1]);
        assert(b@.skip(start as int)[2] == b@[start as int + 2]);
        assert(b@.skip(start as int)[3] == b@[start as int + 3]);
    }
    Some((b0 + 256 * (b1 + 256 * (b2 + 256 * b3)), start + 4))
}

/// A 32-bit value as four big-endian bytes: the frame-length and version
/// prefix of the wire protocol.
pub open spec fn spec_u32_be(n: u32) -> Seq<u8> {
    let a = n as int;
    seq![
        ((a / 256 / 256 / 256) % 256) as u8,
        ((a / 256 / 256) % 256) as u8,
        ((a / 256) % 256) as u8,
        (a % 256) as u8,
    ]
}

/// The 32-bit value of four big-endian bytes.
pub open spec fn spec_u32_of_be(b: Seq<u8>) -> u32
    recommends
        b.len() == 4,
{
    (b[3] + 256 * (b[2] + 256 * (b[1] + 256 * b[0]))) as u32
}

/// Big-endian bytes decode to the value they encode.
pub proof fn lemma_u32_be_round_trip(n: u32)
    ensures
        spec_u32_of_be(spec_u32_be(n)) == n,
        spec_u32_be(n).len() == 4,
{
    let a = n as int;
    lemma_fundamental_div_mod(a, 256);
    lemma_fundamental_div_mod(a / 256, 256);
    lemma_fundamental_div_mod(a / 256 / 256, 256);
    assert(a / 256 / 256 / 256 < 256) by {
        lemma_div_is_ordered(a, 0xffffffff, 256);
        lemma_div_is_ordered(a / 256, 0xffffff, 256);
        lemma_div_is_ordered(a / 256 / 256, 0xffff, 256);
    }
}

/// The value of a 32-bit big-endian length or version prefix.
pub fn read_u32_be(b: &Vec<u8>) -> (r: u32)
    requires
        b@.len() == 4,
    ensures
        r == spec_u32_of_be(b@),
{
    (b[3] as u32) + 256 * ((b[2] as u32) + 256 * ((b[1] as u32) + 256 * (b[0] as u32)))
}

/// A 32-bit value as its four big-endian bytes.
pub fn write_u32_be(n: u32) -> (r: Vec<u8>)
    ensures
        r@ == spec_u32_be(n),
        r@.len() == 4,
{
    let mut r: Vec<u8> = Vec::new();
    r.push(((n / 256 / 256 / 256) % 256) as u8);
    r.push(((n / 256 / 256) % 256) as u8);
    r.push(((n / 256) % 256) as u8);
    r.push((n % 256) as u8);
    proof {
        assert(r@ =~= spec_u32_be(n));
    }
    r
}

/// A flag as one byte, one for true.
pub open spec fn spec_bool(v: bool) -> Seq<u8> {
    seq![if v {
        1u8
    } else {
        0u8
    }]
}

/// A flag byte: zero and one are the only accepted values.
pub open spec fn dec_bool(b: Seq<u8>) -> Option<(bool, int)> {
    if b.len() < 1 {
        None
    } else if b[0] == 0 {
        Some((false, 1))
    } else if b[0] == 1 {
        Some((true, 1))
    } else {
        None
    }
}

/// A vector as its three components.
pub open spec fn spec_vec3(v: Vec3) -> Seq<u8> {
    spec_u32_le(v.x) + spec_u32_le(v.y) + spec_u32_le(v.z)
}

pub open spec fn dec_vec3(b: Seq<u8>) -> Option<(Vec3, int)> {
    match dec_u32_le(b) {
        None => None,
        Some((x, k1)) => match dec_u32_le(b.skip(k1)) {
            None => None,
            Some((y, k2)) => match dec_u32_le(b.skip(k1 + k2)) {
                None => None,
                Some((z, k3)) => Some((Vec3 { x, y, z }, k1 + k2 + k3)),
            },
        },
    }
}

pub proof fn lemma_vec3_round_trip(v: Vec3, rest: Seq<u8>)
    ensures
        dec_vec3(spec_vec3(v) + rest) == Some((v, spec_vec3(v).len() as int)),
        spec_vec3(v).len() == 12,
{
    let e = spec_vec3(v);
    lemma_u32_le_round_trip(v.x, spec_u32_le(v.y) + spec_u32_le(v.z) + rest);
    assert(e + rest =~= spec_u32_le(v.x) + (spec_u32_le(v.y) + spec_u32_le(v.z) + rest));
    lemma_u32_le_round_trip(v.y, spec_u32_le(v.z) + rest);
    assert((e + rest).skip(4) =~= spec_u32_le(v.y) + (spec_u32_le(v.z) + rest));
    lemma_u32_le_round_trip(v.z, rest);
    assert((e + rest).skip(8) =~= spec_u32_le(v.z) + rest);
}

pub fn write_vec3(out: &mut Vec<u8>, v: &Vec3)
    ensures
        final(out)@ == old(out)@ + spec_vec3(*v),
{
    write_u32_le(out, v.x);
    write_u32_le(out, v.y);
    write_u32_le(out, v.z);
    proof {
        assert(out@ =~= old(out)@ + spec_vec3(*v));
    }
}

pub fn read_vec3(b: &Vec<u8>, start: usize) -> (r: Option<(Vec3, usize)>)
    requires
        start <= b@.len(),
    ensures
        match r {
            Some(p) => start <= p.1 <= b@.len() && dec_vec3(b@.skip(start as int)) == Some(
                (p.0, p.1 - start as int),
            ),
            None => dec_vec3(b@.skip(start as int)) is None,
        },
{
    match read_u32_le(b, start) {
        None => None,
        Some((x, p1)) => {
            proof {
                assert(b@.skip(start as int).skip(4) =~= b@.skip(start as int + 4));
            }
            match read_u32_le(b, p1) {
                None => None,
                Some((y, p2)) => {
                    proof {
                        assert(b@.skip(start as int).skip(8) =~= b@.skip(start as int + 8));
                    }
                    match read_u32_le(b, p2) {
                        None => None,
                        Some((z, p3)) => Some((Vec3 { x, y, z }, p3)),
                    }
                },
            }
        },
    }
}


/// One trace result: the hit flag, then the optional color.
pub open spec fn spec_result(r: TraceResult) -> Seq<u8> {
    spec_bool(r.hit) + (match r.color {
        Option::None => seq![0u8],
        Option::Some(c) => seq![1u8] + spec_vec3(c),
    })
}

pub open spec fn dec_result(b: Seq<u8>) -> Option<(TraceResult, int)> {
    match dec_bool(b) {
        Option::None => None,
        Option::Some((hit, k1)) => {
            let r1 = b.skip(k1);
            if r1.len() < 1 {
                None
            } else if r1[0] == 0 {
                Some((TraceResult { hit, color: None }, k1 + 1))
            } else if r1[0] == 1 {
                match dec_vec3(r1.skip(1)) {
                    Option::None => None,
                    Option::Some((v, k2)) => Some((TraceResult { hit, color: Some(v) }, k1 + 1
                        + k2)),
                }
            } else {
                None
            }
        },
    }
}

pub proof fn lemma_result_round_trip(r: TraceResult, rest: Seq<u8>)
    ensures
        dec_result(spec_result(r) + rest) == Some((r, spec_result(r).len() as int)),
{
    let e = spec_result(r);
    match r.color {
        Option::None => {
            assert((e + rest)[0] == spec_bool(r.hit)[0]);
            assert((e + rest).skip(1) =~= seq![0u8] + rest);
        },
        Option::Some(c) => {
            assert((e + rest)[0] == spec_bool(r.hit)[0]);
            assert((e + rest).skip(1) =~= seq![1u8] + (spec_vec3(c) + rest));
            lemma_vec3_round_trip(c, rest);
            assert((e + rest).skip(1).skip(1) =~= spec_vec3(c) + rest);
        },
    }
}

/// A ray: origin then direction.
pub open spec fn spec_ray(r: Ray) -> Seq<u8> {
    spec_vec3(r.origin) + spec_vec3(r.direction)
}

pub open spec fn dec_ray(b: Seq<u8>) -> Option<(Ray, int)> {
    match dec_vec3(b) {
        Option::None => None,
        Option::Some((o, k1)) => match dec_vec3(b.skip(k1)) {
            Option::None => None,
            Option::Some((d, k2)) => Some((Ray { origin: o, direction: d }, k1 + k2)),
        },
    }
}

pub proof fn lemma_ray_round_trip(r: Ray, rest: Seq<u8>)
    ensures
        dec_ray(spec_ray(r) + rest) == Some((r, spec_ray(r).len() as int)),
        spec_ray(r).len() == 24,
{
    lemma_vec3_round_trip(r.origin, spec_vec3(r.direction) + rest);
    assert(spec_ray(r) + rest =~= spec_vec3(r.origin) + (spec_vec3(r.direction) + rest));
    lemma_vec3_round_trip(r.direction, rest);
    assert((spec_ray(r) + rest).skip(12) =~= spec_vec3(r.direction) + rest);
}

/// A sphere: center then radius.
pub open spec fn spec_sphere(sp: Sphere) -> Seq<u8> {
    spec_vec3(sp.center) + spec_u32_le(sp.radius)
}

pub open spec fn dec_sphere(b: Seq<u8>) -> Option<(Sphere, int)> {
    match dec_vec3(b) {
        Option::None => None,
        Option::Some((c, k1)) => match dec_u32_le(b.skip(k1)) {
            Option::None => None,
            Option::Some((rad, k2)) => Some((Sphere { center: c, radius: rad }, k1 + k2)),
        },
    }
}

pub proof fn lemma_sphere_round_trip(sp: Sphere, rest: Seq<u8>)
    ensures
        dec_sphere(spec_sphere(sp) + rest) == Some((sp, spec_sphere(sp).len() as int)),
        spec_sphere(sp).len() == 16,
{
    lemma_vec3_round_trip(sp.center, spec_u32_le(sp.radius) + rest);
    assert(spec_sphere(sp) + rest =~= spec_vec3(sp.center) + (spec_u32_le(sp.radius) + rest));
    lemma_u32_le_round_trip(sp.radius, rest);
    assert((spec_sphere(sp) + rest).skip(12) =~= spec_u32_le(sp.radius) + rest);
}

/// A run of trace results, back to back.
pub open spec fn enc_results(s: Seq<TraceResult>) -> Seq<u8>
    decreases s.len(),
{
    if s.len() == 0 {
        Seq::empty()
    } else {
        spec_result(s[0]) + enc_results(s.skip(1))
    }
}

pub open spec fn dec_results(b: Seq<u8>, n: nat) -> Option<(Seq<TraceResult>, int)>
    decreases n,
{
    if n == 0 {
        Some((Seq::empty(), 0))
    } else {
        match dec_result(b) {
            Option::None => None,
            Option::Some((r, k)) => match dec_results(b.skip(k), (n - 1) as nat) {
                Option::None => None,
                Option::Some((rs, k2)) => Some((seq![r] + rs, k + k2)),
            },
        }
    }
}

pub proof fn lemma_enc_results_append(s1: Seq<TraceResult>, s2: Seq<TraceResult>)
    ensures
        enc_results(s1 + s2) == enc_results(s1) + enc_results(s2),
    decreases s1.len(),
{
    if s1.len() == 0 {
        assert(s1 + s2 =~= s2);
        assert(enc_results(s1) + enc_results(s2) =~= enc_results(s2));
    } else {
        lemma_enc_results_append(s1.skip(1), s2);
        assert((s1 + s2).skip(1) =~= s1.skip(1) + s2);
        assert((s1 + s2)[0] == s1[0]);
        assert(spec_result(s1[0]) + (enc_results(s1.skip(1)) + enc_results(s2)) =~= (spec_result(
            s1[0],
        ) + enc_results(s1.skip(1))) + enc_results(s2));
    }
}

#[verifier::rlimit(50)]
#[verifier::spinoff_prover]
pub proof fn lemma_results_round_trip(s: Seq<TraceResult>, rest: Seq<u8>)
    ensures
        dec_results(enc_results(s) + rest, s.len()) == Some((s, enc_results(s).len() as int)),
    decreases s.len(),
{
    if s.len() == 0 {
        assert(enc_results(s).len() == 0);
    } else {
        lemma_result_round_trip(s[0], enc_results(s.skip(1)) + rest);
        assert(enc_results(s) + rest =~= spec_result(s[0]) + (enc_results(s.skip(1)) + rest));
        lemma_results_round_trip(s.skip(1), rest);
        let k = spec_result(s[0]).len() as int;
        assert((enc_results(s) + rest).skip(k) =~= enc_results(s.skip(1)) + rest);
        assert(seq![s[0]] + s.skip(1) =~= s);
    }
}

/// A run of rays, back to back.
pub open spec fn enc_rays(s: Seq<Ray>) -> Seq<u8>
    decreases s.len(),
{
    if s.len() == 0 {
        Seq::empty()
    } else {
        spec_ray(s[0]) + enc_rays(s.skip(1))
    }
}

pub open spec fn dec_rays(b: Seq<u8>, n: nat) -> Option<(Seq<Ray>, int)>
    decreases n,
{
    if n == 0 {
        Some((Seq::empty(), 0))
    } else {
        match dec_ray(b) {
            Option::None => None,
            Option::Some((r, k)) => match dec_rays(b.skip(k), (n - 1) as nat) {
                Option::None => None,
                Option::Some((rs, k2)) => Some((seq![r] + rs, k + k2)),
            },
        }
    }
}

pub proof fn lemma_enc_rays_append(s1: Seq<Ray>, s2: Seq<Ray>)
    ensures
        enc_rays(s1 + s2) == enc_rays(s1) + enc_rays(s2),
    decreases s1.len(),
{
    if s1.len() == 0 {
        assert(s1 + s2 =~= s2);
        assert(enc_rays(s1) + enc_rays(s2) =~= enc_rays(s2));
    } else {
        lemma_enc_rays_append(s1.skip(1), s2);
        assert((s1 + s2).skip(1) =~= s1.skip(1) + s2);
        assert((s1 + s2)[0] == s1[0]);
        assert(spec_ray(s1[0]) + (enc_rays(s1.skip(1)) + enc_rays(s2)) =~= (spec_ray(s1[0])
            + enc_rays(s1.skip(1))) + enc_rays(s2));
    }
}

#[verifier::rlimit(50)]
#[verifier::spinoff_prover]
pub proof fn lemma_rays_round_trip(s: Seq<Ray>, rest: Seq<u8>)
    ensures
        dec_rays(enc_rays(s) + rest, s.len()) == Some((s, enc_rays(s).len() as int)),
    decreases s.len(),
{
    if s.len() == 0 {
        assert(enc_rays(s).len() == 0);
    } else {
        lemma_ray_round_trip(s[0], enc_rays(s.skip(1)) + rest);
        assert(enc_rays(s) + rest =~= spec_ray(s[0]) + (enc_rays(s.skip(1)) + rest));
        lemma_rays_round_trip(s.skip(1), rest);
        let k = spec_ray(s[0]).len() as int;
        assert((enc_rays(s) + rest).skip(k) =~= enc_rays(s.skip(1)) + rest);
        assert(seq![s[0]] + s.skip(1) =~= s);
    }
}

/// A run of spheres, back to back.
pub open spec fn enc_spheres(s: Seq<Sphere>) -> Seq<u8>
    decreases s.len(),
{
    if s.len() == 0 {
        Seq::empty()
    } else {
        spec_sphere(s[0]) + enc_spheres(s.skip(1))
    }
}

pub open spec fn dec_spheres(b: Seq<u8>, n: nat) -> Option<(Seq<Sphere>, int)>
    decreases n,
{
    if n == 0 {
        Some((Seq::empty(), 0))
    } else {
        match dec_sphere(b) {
            Option::None => None,
            Option::Some((r, k)) => match dec_spheres(b.skip(k), (n - 1) as nat) {
                Option::None => None,
                Option::Some((rs, k2)) => Some((seq![r] + rs, k + k2)),
            },
        }
    }
}

pub proof fn lemma_enc_spheres_append(s1: Seq<Sphere>, s2: Seq<Sphere>)
    ensures
        enc_spheres(s1 + s2) == enc_spheres(s1) + enc_spheres(s2),
    decreases s1.len(),
{
    if s1.len() == 0 {
        assert(s1 + s2 =~= s2);
        assert(enc_spheres(s1) + enc_spheres(s2) =~= enc_spheres(s2));
    } else {
        lemma_enc_spheres_append(s1.skip(1), s2);
        assert((s1 + s2).skip(1) =~= s1.skip(1) + s2);
        assert((s1 + s2)[0] == s1[0]);
        assert(spec_sphere(s1[0]) + (enc_spheres(s1.skip(1)) + enc_spheres(s2)) =~= (spec_sphere(
            s1[0],
        ) + enc_spheres(s1.skip(1))) + enc_spheres(s2));
    }
}

#[verifier::rlimit(50)]
#[verifier::spinoff_prover]
pub proof fn lemma_spheres_round_trip(s: Seq<Sphere>, rest: Seq<u8>)
    ensures
        dec_spheres(enc_spheres(s) + rest, s.len()) == Some((s, enc_spheres(s).len() as int)),
    decreases s.len(),
{
    if s.len() == 0 {
        assert(enc_spheres(s).len() == 0);
    } else {
        lemma_sphere_round_trip(s[0], enc_spheres(s.skip(1)) + rest);
        assert(enc_spheres(s) + rest =~= spec_sphere(s[0]) + (enc_spheres(s.skip(1)) + rest));
        lemma_spheres_round_trip(s.skip(1), rest);
        let k = spec_sphere(s[0]).len() as int;
        assert((enc_spheres(s) + rest).skip(k) =~= enc_spheres(s.skip(1)) + rest);
        assert(seq![s[0]] + s.skip(1) =~= s);
    }
}

/// A scene: its frame, then its spheres with a leading count.
pub open spec fn spec_scene(sc: SceneView) -> Seq<u8> {
    spec_varint(sc.frame as nat) + spec_varint(sc.spheres.len()) + enc_spheres(sc.spheres)
}

pub open spec fn dec_scene(b: Seq<u8>) -> Option<(SceneView, int)> {
    match dec_varint64(b) {
        Option::None => None,
        Option::Some((frame, k1)) => match dec_varint64(b.skip(k1)) {
            Option::None => None,
            Option::Some((n, k2)) => match dec_spheres(b.skip(k1 + k2), n as nat) {
                Option::None => None,
                Option::Some((sps, k3)) => Some(
                    (SceneView { frame, spheres: sps }, k1 + k2 + k3),
                ),
            },
        },
    }
}

#[verifier::rlimit(50)]
#[verifier::spinoff_prover]
pub proof fn lemma_scene_round_trip(sc: SceneView, rest: Seq<u8>)
    requires
        sc.spheres.len() <= u64::MAX,
    ensures
        dec_scene(spec_scene(sc) + rest) == Some((sc, spec_scene(sc).len() as int)),
{
    let ef = spec_varint(sc.frame as nat);
    let en = spec_varint(sc.spheres.len());
    let es = enc_spheres(sc.spheres);
    lemma_varint64_round_trip(sc.frame, en + es + rest);
    assert(spec_scene(sc) + rest =~= ef + (en + es + rest));
    lemma_varint64_round_trip(sc.spheres.len() as u64, es + rest);
    assert((spec_scene(sc) + rest).skip(ef.len() as int) =~= en + (es + rest));
    lemma_spheres_round_trip(sc.spheres, rest);
    assert((spec_scene(sc) + rest).skip(ef.len() as int + en.len() as int) =~= es + rest);
}

/// The whole encoding of a request.
pub open spec fn spec_encode_request(r: RequestView) -> Seq<u8> {
    match r {
        RequestView::ReserveRays => spec_varint(0),
        RequestView::SubmitResults(s) => spec_varint(1) + spec_varint(s.len()) + enc_results(s),
        RequestView::SetName(nm) => spec_varint(2) + spec_varint(nm.len()) + nm,
    }
}

/// Decode a whole request frame; trailing bytes are rejected.
pub open spec fn spec_decode_request(b: Seq<u8>) -> Option<RequestView> {
    match dec_varint64(b) {
        Option::None => None,
        Option::Some((disc, k)) => {
            let rest = b.skip(k);
            if disc == 0 {
                if rest.len() == 0 {
                    Some(RequestView::ReserveRays)
                } else {
                    None
                }
            } else if disc == 1 {
                match dec_varint64(rest) {
                    Option::None => None,
                    Option::Some((n, k2)) => match dec_results(rest.skip(k2), n as nat) {
                        Option::None => None,
                        Option::Some((s, k3)) => if k2 + k3 == rest.len() {
                            Some(RequestView::SubmitResults(s))
                        } else {
                            None
                        },
                    },
                }
            } else if disc == 2 {
                match dec_varint64(rest) {
                    Option::None => None,
                    Option::Some((n, k2)) => if rest.len() - k2 == n {
                        Some(RequestView::SetName(rest.skip(k2)))
                    } else {
                        None
                    },
                }
            } else {
                None
            }
        },
    }
}

/// The whole encoding of a response.
pub open spec fn spec_encode_response(r: ResponseView) -> Seq<u8> {
    match r {
        ResponseView::ReserveRays(rays, sc) => spec_varint(0) + spec_varint(rays.len())
            + enc_rays(rays) + spec_scene(sc),
        ResponseView::SubmitResults => spec_varint(1),
        ResponseView::SetName => spec_varint(2),
    }
}

/// Decode a whole response frame; trailing bytes are rejected.
pub open spec fn spec_decode_response(b: Seq<u8>) -> Option<ResponseView> {
    match dec_varint64(b) {
        Option::None => None,
        Option::Some((disc, k)) => {
            let rest = b.skip(k);
            if disc == 0 {
                match dec_varint64(rest) {
                    Option::None => None,
                    Option::Some((n, k2)) => match dec_rays(rest.skip(k2), n as nat) {
                        Option::None => None,
                        Option::Some((rays, k3)) => match dec_scene(rest.skip(k2 + k3)) {
                            Option::None => None,
                            Option::Some((sc, k4)) => if k2 + k3 + k4 == rest.len() {
                                Some(ResponseView::ReserveRays(rays, sc))
                            } else {
                                None
                            },
                        },
                    },
                }
            } else if disc == 1 {
                if rest.len() == 0 {
                    Some(ResponseView::SubmitResults)
                } else {
                    None
                }
            } else if disc == 2 {
                if rest.len() == 0 {
                    Some(ResponseView::SetName)
                } else {
                    None
                }
            } else {
                None
            }
        },
    }
}

/// A request that can be framed at all: its payload count fits the wire's
/// 64-bit length fields (always true of a value built from vectors).
pub open spec fn req_wf(r: RequestView) -> bool {
    match r {
        RequestView::ReserveRays => true,
        RequestView::SubmitResults(s) => s.len() <= u64::MAX,
        RequestView::SetName(nm) => nm.len() <= u64::MAX,
    }
}

pub open spec fn resp_wf(r: ResponseView) -> bool {
    match r {
        ResponseView::ReserveRays(rays, sc) => rays.len() <= u64::MAX && sc.spheres.len()
            <= u64::MAX,
        ResponseView::SubmitResults => true,
        ResponseView::SetName => true,
    }
}

/// Round trip: decoding the encoding of any request gives it back.
pub proof fn lemma_request_round_trip(r: RequestView)
    requires
        req_wf(r),
    ensures
        spec_decode_request(spec_encode_request(r)) == Some(r),
{
    let b = spec_encode_request(r);
    match r {
        RequestView::ReserveRays => {
            lemma_varint64_round_trip(0, Seq::empty());
            assert(spec_varint(0) + Seq::<u8>::empty() =~= b);
            assert(b.skip(1).len() == 0);
        },
        RequestView::SubmitResults(s) => {
            let e1 = spec_varint(1);
            let en = spec_varint(s.len());
            let es = enc_results(s);
            lemma_varint64_round_trip(1, en + es);
            assert(b =~= e1 + (en + es));
            lemma_varint64_round_trip(s.len() as u64, es);
            assert(b.skip(e1.len() as int) =~= en + es);
            lemma_results_round_trip(s, Seq::empty());
            assert(es + Seq::<u8>::empty() =~= es);
            assert(b.skip(e1.len() as int).skip(en.len() as int) =~= es);
        },
        RequestView::SetName(nm) => {
            let e2 = spec_varint(2);
            let en = spec_varint(nm.len());
            lemma_varint64_round_trip(2, en + nm);
            assert(b =~= e2 + (en + nm));
            lemma_varint64_round_trip(nm.len() as u64, nm);
            assert(b.skip(e2.len() as int) =~= en + nm);
            assert(b.skip(e2.len() as int).skip(en.len() as int) =~= nm);
        },
    }
}

/// Round trip: decoding the encoding of any response gives it back.
pub proof fn lemma_response_round_trip(r: ResponseView)
    requires
        resp_wf(r),
    ensures
        spec_decode_response(spec_encode_response(r)) == Some(r),
{
    let b = spec_encode_response(r);
    match r {
        ResponseView::ReserveRays(rays, sc) => {
            let e0 = spec_varint(0);
            let en = spec_varint(rays.len());
            let er = enc_rays(rays);
            let esc = spec_scene(sc);
            lemma_varint64_round_trip(0, en + er + esc);
            assert(b =~= e0 + (en + er + esc));
            lemma_varint64_round_trip(rays.len() as u64, er + esc);
            assert(b.skip(e0.len() as int) =~= en + (er + esc));
            lemma_rays_round_trip(rays, esc);
            assert(b.skip(e0.len() as int).skip(en.len() as int) =~= er + esc);
            lemma_scene_round_trip(sc, Seq::empty());
            assert(esc + Seq::<u8>::empty() =~= esc);
            assert(b.skip(e0.len() as int).skip(en.len() as int + er.len() as int) =~= esc);
        },
        ResponseView::SubmitResults => {
            lemma_varint64_round_trip(1, Seq::empty());
            assert(spec_varint(1) + Seq::<u8>::empty() =~= b);
            assert(b.skip(1).len() == 0);
        },
        ResponseView::SetName => {
            lemma_varint64_round_trip(2, Seq::empty());
            assert(spec_varint(2) + Seq::<u8>::empty() =~= b);
            assert(b.skip(1).len() == 0);
        },
    }
}


/// Append raw bytes.
pub(crate) fn write_bytes(out: &mut Vec<u8>, v: &Vec<u8>)
    ensures
        final(out)@ == old(out)@ + v@,
{
    for i in 0..v.len()
        invariant
            out@ == old(out)@ + v@.take(i as int),
    {
        let ghost pre = out@;
        out.push(v[i]);
        proof {
            assert(out@ =~= old(out)@ + v@.take(i as int + 1));
        }
    }
    proof {
        assert(v@.take(v@.len() as int) =~= v@);
    }
}

/// Append one encoded trace result.
fn write_result(out: &mut Vec<u8>, r: &TraceResult)
    ensures
        final(out)@ == old(out)@ + spec_result(*r),
{
    out.push(if r.hit {
        1
    } else {
        0
    });
    match r.color {
        None => {
            out.push(0);
        },
        Some(c) => {
            out.push(1);
            write_vec3(out, &c);
        },
    }
    proof {
        assert(out@ =~= old(out)@ + spec_result(*r));
    }
}

/// Append one encoded ray.
fn write_ray(out: &mut Vec<u8>, r: &Ray)
    ensures
        final(out)@ == old(out)@ + spec_ray(*r),
{
    write_vec3(out, &r.origin);
    write_vec3(out, &r.direction);
    proof {
        assert(out@ =~= old(out)@ + spec_ray(*r));
    }
}

/// Append one encoded sphere.
fn write_sphere(out: &mut Vec<u8>, sp: &Sphere)
    ensures
        final(out)@ == old(out)@ + spec_sphere(*sp),
{
    write_vec3(out, &sp.center);
    write_u32_le(out, sp.radius);
    proof {
        assert(out@ =~= old(out)@ + spec_sphere(*sp));
    }
}

/// Append a run of encoded trace results.
fn write_results(out: &mut Vec<u8>, s: &Vec<TraceResult>)
    ensures
        final(out)@ == old(out)@ + enc_results(s@),
{
    for i in 0..s.len()
        invariant
            out@ == old(out)@ + enc_results(s@.take(i as int)),
    {
        let ghost pre = out@;
        let r = s[i];
        write_result(out, &r);
        proof {
            assert(s@.take(i as int + 1) =~= s@.take(i as int) + seq![s@[i as int]]);
            lemma_enc_results_append(s@.take(i as int), seq![s@[i as int]]);
            let single = seq![s@[i as int]];
            assert(single.skip(1) =~= Seq::<TraceResult>::empty());
            assert(enc_results(single) == spec_result(single[0]) + enc_results(single.skip(1)));
            assert(spec_result(s@[i as int]) + Seq::<u8>::empty() =~= spec_result(s@[i as int]));
            assert(enc_results(single) =~= spec_result(s@[i as int]));
            assert(out@ =~= old(out)@ + enc_results(s@.take(i as int + 1)));
        }
    }
    proof {
        assert(s@.take(s@.len() as int) =~= s@);
    }
}

/// Append a run of encoded rays.
fn write_rays(out: &mut Vec<u8>, s: &Vec<Ray>)
    ensures
        final(out)@ == old(out)@ + enc_rays(s@),
{
    for i in 0..s.len()
        invariant
            out@ == old(out)@ + enc_rays(s@.take(i as int)),
    {
        let ghost pre = out@;
        let r = s[i];
        write_ray(out, &r);
        proof {
            assert(s@.take(i as int + 1) =~= s@.take(i as int) + seq![s@[i as int]]);
            lemma_enc_rays_append(s@.take(i as int), seq![s@[i as int]]);
            let single = seq![s@[i as int]];
            assert(single.skip(1) =~= Seq::<Ray>::empty());
            assert(enc_rays(single) == spec_ray(single[0]) + enc_rays(single.skip(1)));
            assert(spec_ray(s@[i as int]) + Seq::<u8>::empty() =~= spec_ray(s@[i as int]));
            assert(enc_rays(single) =~= spec_ray(s@[i as int]));
            assert(out@ =~= old(out)@ + enc_rays(s@.take(i as int + 1)));
        }
    }
    proof {
        assert(s@.take(s@.len() as int) =~= s@);
    }
}

/// Append a run of encoded spheres.
fn write_spheres(out: &mut Vec<u8>, s: &Vec<Sphere>)
    ensures
        final(out)@ == old(out)@ + enc_spheres(s@),
{
    for i in 0..s.len()
        invariant
            out@ == old(out)@ + enc_spheres(s@.take(i as int)),
    {
        let ghost pre = out@;
        let sp = s[i];
        write_sphere(out, &sp);
        proof {
            assert(s@.take(i as int + 1) =~= s@.take(i as int) + seq![s@[i as int]]);
            lemma_enc_spheres_append(s@.take(i as int), seq![s@[i as int]]);
            let single = seq![s@[i as int]];
            assert(single.skip(1) =~= Seq::<Sphere>::empty());
            assert(enc_spheres(single) == spec_sphere(single[0]) + enc_spheres(single.skip(1)));
            assert(spec_sphere(s@[i as int]) + Seq::<u8>::empty() =~= spec_sphere(s@[i as int]));
            assert(enc_spheres(single) =~= spec_sphere(s@[i as int]));
            assert(out@ =~= old(out)@ + enc_spheres(s@.take(i as int + 1)));
        }
    }
    proof {
        assert(s@.take(s@.len() as int) =~= s@);
    }
}

/// Encode a request for the wire.
pub fn encode_request(req: &Request) -> (out: Vec<u8>)
    ensures
        out@ == spec_encode_request(req@),
{
    let mut out: Vec<u8> = Vec::new();
    match req {
        Request::ReserveRays => {
            write_varint(&mut out, 0);
        },
        Request::SubmitResults(results) => {
            write_varint(&mut out, 1);
            write_varint(&mut out, results.len() as u64);
            write_results(&mut out, results);
        },
        Request::SetName(name) => {
            write_varint(&mut out, 2);
            write_varint(&mut out, name.len() as u64);
            write_bytes(&mut out, name);
        },
    }
    proof {
        assert(out@ =~= spec_encode_request(req@));
    }
    out
}

/// Encode a response for the wire.
pub fn encode_response(resp: &Response) -> (out: Vec<u8>)
    ensures
        out@ == spec_encode_response(resp@),
{
    let mut out: Vec<u8> = Vec::new();
    match resp {
        Response::ReserveRays(rays, scene) => {
            write_varint(&mut out, 0);
            write_varint(&mut out, rays.len() as u64);
            write_rays(&mut out, rays);
            write_varint(&mut out, scene.frame);
            write_varint(&mut out, scene.spheres.len() as u64);
            write_spheres(&mut out, &scene.spheres);
        },
        Response::SubmitResults => {
            write_varint(&mut out, 1);
        },
        Response::SetName => {
            write_varint(&mut out, 2);
        },
    }
    proof {
        assert(out@ =~= spec_encode_response(resp@));
    }
    out
}

/// Read one encoded trace result.
fn read_result(b: &Vec<u8>, start: usize) -> (r: Option<(TraceResult, usize)>)
    requires
        start <= b@.len(),
    ensures
        match r {
            Some(p) => start < p.1 <= b@.len() && dec_result(b@.skip(start as int)) == Some(
                (p.0, p.1 - start as int),
            ),
            None => dec_result(b@.skip(start as int)) is None,
        },
{
    if start >= b.len() {
        return None;
    }
    let hb = b[start];
    proof {
        assert(b@.skip(start as int)[0] == hb);
    }
    let hit = if hb == 0 {
        false
    } else if hb == 1 {
        true
    } else {
        return None;
    };
    proof {
        assert(b@.skip(start as int).skip(1) =~= b@.skip(start as int + 1));
    }
    if start + 1 >= b.len() {
        return None;
    }
    let fb = b[start + 1];
    proof {
        assert(b@.skip(start as int + 1)[0] == fb);
    }
    if fb == 0 {
        Some((TraceResult { hit, color: None }, start + 2))
    } else if fb == 1 {
        proof {
            assert(b@.skip(start as int + 1).skip(1) =~= b@.skip(start as int + 2));
        }
        match read_vec3(b, start + 2) {
            None => None,
            Some((v, p)) => Some((TraceResult { hit, color: Some(v) }, p)),
        }
    } else {
        None
    }
}

/// Read one encoded ray.
fn read_ray(b: &Vec<u8>, start: usize) -> (r: Option<(Ray, usize)>)
    requires
        start <= b@.len(),
    ensures
        match r {
            Some(p) => start <= p.1 <= b@.len() && dec_ray(b@.skip(start as int)) == Some(
                (p.0, p.1 - start as int),
            ),
            None => dec_ray(b@.skip(start as int)) is None,
        },
{
    match read_vec3(b, start) {
        None => None,
        Some((o, p1)) => {
            proof {
                assert(b@.skip(start as int).skip(p1 - start as int) =~= b@.skip(p1 as int));
            }
            match read_vec3(b, p1) {
                None => None,
                Some((d, p2)) => Some((Ray { origin: o, direction: d }, p2)),
            }
        },
    }
}

/// Read one encoded sphere.
fn read_sphere(b: &Vec<u8>, start: usize) -> (r: Option<(Sphere, usize)>)
    requires
        start <= b@.len(),
    ensures
        match r {
            Some(p) => start <= p.1 <= b@.len() && dec_sphere(b@.skip(start as int)) == Some(
                (p.0, p.1 - start as int),
            ),
            None => dec_sphere(b@.skip(start as int)) is None,
        },
{
    match read_vec3(b, start) {
        None => None,
        Some((c, p1)) => {
            proof {
                assert(b@.skip(start as int).skip(p1 - start as int) =~= b@.skip(p1 as int));
            }
            match read_u32_le(b, p1) {
                None => None,
                Some((rad, p2)) => Some((Sphere { center: c, radius: rad }, p2)),
            }
        },
    }
}

/// Read `n` encoded trace results.
fn read_results(b: &Vec<u8>, start: usize, n: u64) -> (r: Option<(Vec<TraceResult>, usize)>)
    requires
        start <= b@.len(),
    ensures
        match r {
            Some(p) => start <= p.1 <= b@.len() && dec_results(b@.skip(start as int), n as nat)
                == Some((p.0@, p.1 - start as int)),
            None => dec_results(b@.skip(start as int), n as nat) is None,
        },
{
    let mut acc: Vec<TraceResult> = Vec::new();
    let mut pos = start;
    let mut i: u64 = 0;
    while i < n
        invariant
            i <= n,
            start <= pos <= b@.len(),
            acc@.len() == i,
            match dec_results(b@.skip(pos as int), (n - i) as nat) {
                Some(p2) => dec_results(b@.skip(start as int), n as nat) == Some(
                    (acc@ + p2.0, (pos - start) + p2.1),
                ),
                None => dec_results(b@.skip(start as int), n as nat) is None,
            },
        decreases n - i,
    {
        match read_result(b, pos) {
            None => {
                return None;
            },
            Some((tr, p2)) => {
                proof {
                    let k0 = p2 - pos as int;
                    assert(b@.skip(pos as int).skip(k0) =~= b@.skip(p2 as int));
                    if dec_results(b@.skip(p2 as int), (n - i - 1) as nat) is Some {
                        let p3 = dec_results(b@.skip(p2 as int), (n - i - 1) as nat)->Some_0;
                        assert(acc@ + (seq![tr] + p3.0) =~= acc@.push(tr) + p3.0);
                    }
                }
                acc.push(tr);
                pos = p2;
                i = i + 1;
            },
        }
    }
    proof {
        assert(acc@ + Seq::<TraceResult>::empty() =~= acc@);
    }
    Some((acc, pos))
}

/// Read `n` encoded rays.
fn read_rays(b: &Vec<u8>, start: usize, n: u64) -> (r: Option<(Vec<Ray>, usize)>)
    requires
        start <= b@.len(),
    ensures
        match r {
            Some(p) => start <= p.1 <= b@.len() && dec_rays(b@.skip(start as int), n as nat)
                == Some((p.0@, p.1 - start as int)),
            None => dec_rays(b@.skip(start as int), n as nat) is None,
        },
{
    let mut acc: Vec<Ray> = Vec::new();
    let mut pos = start;
    let mut i: u64 = 0;
    while i < n
        invariant
            i <= n,
            start <= pos <= b@.len(),
            acc@.len() == i,
            match dec_rays(b@.skip(pos as int), (n - i) as nat) {
                Some(p2) => dec_rays(b@.skip(start as int), n as nat) == Some(
                    (acc@ + p2.0, (pos - start) + p2.1),
                ),
                None => dec_rays(b@.skip(start as int), n as nat) is None,
            },
        decreases n - i,
    {
        match read_ray(b, pos) {
            None => {
                return None;
            },
            Some((ray, p2)) => {
                proof {
                    let k0 = p2 - pos as int;
                    assert(b@.skip(pos as int).skip(k0) =~= b@.skip(p2 as int));
                    if dec_rays(b@.skip(p2 as int), (n - i - 1) as nat) is Some {
                        let p3 = dec_rays(b@.skip(p2 as int), (n - i - 1) as nat)->Some_0;
                        assert(acc@ + (seq![ray] + p3.0) =~= acc@.push(ray) + p3.0);
                    }
                    if p2 == pos {
                        assert(dec_ray(b@.skip(pos as int)) is Some);
                        assert(dec_vec3(b@.skip(pos as int)) is Some);
                    }
                }
                acc.push(ray);
                pos = p2;
                i = i + 1;
            },
        }
    }
    proof {
        assert(acc@ + Seq::<Ray>::empty() =~= acc@);
    }
    Some((acc, pos))
}

/// Read `n` encoded spheres.
fn read_spheres(b: &Vec<u8>, start: usize, n: u64) -> (r: Option<(Vec<Sphere>, usize)>)
    requires
        start <= b@.len(),
    ensures
        match r {
            Some(p) => start <= p.1 <= b@.len() && dec_spheres(b@.skip(start as int), n as nat)
                == Some((p.0@, p.1 - start as int)),
            None => dec_spheres(b@.skip(start as int), n as nat) is None,
        },
{
    let mut acc: Vec<Sphere> = Vec::new();
    let mut pos = start;
    let mut i: u64 = 0;
    while i < n
        invariant
            i <= n,
            start <= pos <= b@.len(),
            acc@.len() == i,
            match dec_spheres(b@.skip(pos as int), (n - i) as nat) {
                Some(p2) => dec_spheres(b@.skip(start as int), n as nat) == Some(
                    (acc@ + p2.0, (pos - start) + p2.1),
                ),
                None => dec_spheres(b@.skip(start as int), n as nat) is None,
            },
        decreases n - i,
    {
        match read_sphere(b, pos) {
            None => {
                return None;
            },
            Some((sp, p2)) => {
                proof {
                    let k0 = p2 - pos as int;
                    assert(b@.skip(pos as int).skip(k0) =~= b@.skip(p2 as int));
                    if dec_spheres(b@.skip(p2 as int), (n - i - 1) as nat) is Some {
                        let p3 = dec_spheres(b@.skip(p2 as int), (n - i - 1) as nat)->Some_0;
                        assert(acc@ + (seq![sp] + p3.0) =~= acc@.push(sp) + p3.0);
                    }
                }
                acc.push(sp);
                pos = p2;
                i = i + 1;
            },
        }
    }
    proof {
        assert(acc@ + Seq::<Sphere>::empty() =~= acc@);
    }
    Some((acc, pos))
}

/// Decode a whole request frame. `Some` exactly when the bytes are one
/// complete, well-formed encoding.
#[verifier::rlimit(100)]
#[verifier::spinoff_prover]
pub fn decode_request(b: &Vec<u8>) -> (r: Option<Request>)
    ensures
        match r {
            Some(req) => spec_decode_request(b@) == Some(req@),
            None => spec_decode_request(b@) is None,
        },
{
    proof {
        assert(b@.skip(0) =~= b@);
    }
    let (disc, p1) = match read_varint(b, 0) {
        None => {
            return None;
        },
        Some(p) => p,
    };
    if disc == 0 {
        if p1 == b.len() {
            proof {
                assert(b@.skip(p1 as int).len() == 0);
            }
            Some(Request::ReserveRays)
        } else {
            None
        }
    } else if disc == 1 {
        let (n, p2) = match read_varint(b, p1) {
            None => {
                return None;
            },
            Some(p) => p,
        };
        proof {
            assert(b@.skip(p1 as int).skip(p2 - p1 as int) =~= b@.skip(p2 as int));
        }
        let (results, p3) = match read_results(b, p2, n) {
            None => {
                return None;
            },
            Some(p) => p,
        };
        if p3 == b.len() {
            Some(Request::SubmitResults(results))
        } else {
            None
        }
    } else if disc == 2 {
        let (n, p2) = match read_varint(b, p1) {
            None => {
                return None;
            },
            Some(p) => p,
        };
        if (b.len() - p2) as u64 == n {
            let mut name: Vec<u8> = Vec::new();
            for i in p2..b.len()
                invariant
                    p2 <= i <= b@.len(),
                    name@ == b@.subrange(p2 as int, i as int),
            {
                let ghost pre = name@;
                name.push(b[i]);
                proof {
                    assert(name@ =~= b@.subrange(p2 as int, i as int + 1));
                }
            }
            proof {
                assert(b@.subrange(p2 as int, b@.len() as int) =~= b@.skip(p1 as int).skip(
                    p2 - p1 as int,
                ));
            }
            Some(Request::SetName(name))
        } else {
            None
        }
    } else {
        None
    }
}

/// Decode a whole response frame.
#[verifier::rlimit(100)]
#[verifier::spinoff_prover]
pub fn decode_response(b: &Vec<u8>) -> (r: Option<Response>)
    ensures
        match r {
            Some(resp) => spec_decode_response(b@) == Some(resp@),
            None => spec_decode_response(b@) is None,
        },
{
    proof {
        assert(b@.skip(0) =~= b@);
    }
    let (disc, p1) = match read_varint(b, 0) {
        None => {
            return None;
        },
        Some(p) => p,
    };
    if disc == 0 {
        let (n, p2) = match read_varint(b, p1) {
            None => {
                return None;
            },
            Some(p) => p,
        };
        proof {
            assert(b@.skip(p1 as int).skip(p2 - p1 as int) =~= b@.skip(p2 as int));
        }
        let (rays, p3) = match read_rays(b, p2, n) {
            None => {
                return None;
            },
            Some(p) => p,
        };
        proof {
            assert(b@.skip(p1 as int).skip(p3 - p1 as int) =~= b@.skip(p3 as int));
        }
        let (frame, p4) = match read_varint(b, p3) {
            None => {
                return None;
            },
            Some(p) => p,
        };
        proof {
            assert(b@.skip(p3 as int).skip(p4 - p3 as int) =~= b@.skip(p4 as int));
        }
        let (m, p5) = match read_varint(b, p4) {
            None => {
                return None;
            },
            Some(p) => p,
        };
        proof {
            assert(b@.skip(p4 as int).skip(p5 - p4 as int) =~= b@.skip(p5 as int));
            assert(b@.skip(p3 as int).skip((p4 - p3 as int) + (p5 - p4 as int)) =~= b@.skip(
                p5 as int,
            ));
        }
        let (spheres, p6) = match read_spheres(b, p5, m) {
            None => {
                return None;
            },
            Some(p) => p,
        };
        if p6 == b.len() {
            Some(Response::ReserveRays(rays, Scene { frame, spheres }))
        } else {
            None
        }
    } else if disc == 1 {
        if p1 == b.len() {
            proof {
                assert(b@.skip(p1 as int).len() == 0);
            }
            Some(Response::SubmitResults)
        } else {
            None
        }
    } else if disc == 2 {
        if p1 == b.len() {
            proof {
                assert(b@.skip(p1 as int).len() == 0);
            }
            Some(Response::SetName)
        } else {
            None
        }
    } else {
        None
    }
}

} // verus!
