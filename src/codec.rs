use vstd::prelude::*;

use crate::error::OctreeError;

verus! {

/// The widest coordinate, in bits, whose addresses fit in a `u64`.
pub const MAX_BITS: u32 = 21;

/// `2^n`.
pub open spec fn pow2(n: nat) -> nat
    decreases n,
{
    if n == 0 {
        1
    } else {
        2 * pow2((n - 1) as nat)
    }
}

/// `8^n`, the number of cells at depth `n`.
pub open spec fn pow8(n: nat) -> nat
    decreases n,
{
    if n == 0 {
        1
    } else {
        8 * pow8((n - 1) as nat)
    }
}

/// The 3-bit group made of the lowest bit of each axis, in order x, y, z.
pub open spec fn low_group(x: nat, y: nat, z: nat) -> nat {
    (x % 2) * 4 + (y % 2) * 2 + z % 2
}

/// The address of `(x, y, z)` over `k` bits per axis: bit `i` of x, y and z for
/// `i` from `k - 1` down to `0`, most significant first.
pub open spec fn interleave(x: nat, y: nat, z: nat, k: nat) -> nat
    decreases k,
{
    if k == 0 {
        0
    } else {
        interleave(x / 2, y / 2, z / 2, (k - 1) as nat) * 8 + low_group(x, y, z)
    }
}

/// The coordinates whose `k`-bit address is `a`.
pub open spec fn deinterleave(a: nat, k: nat) -> (nat, nat, nat)
    decreases k,
{
    if k == 0 {
        (0, 0, 0)
    } else {
        let t = deinterleave(a / 8, (k - 1) as nat);
        let g = a % 8;
        (t.0 * 2 + g / 4, t.1 * 2 + (g / 2) % 2, t.2 * 2 + g % 2)
    }
}

/// The node at depth `d` that holds address `a` of a `bits`-bit domain: its
/// top `3 * d` bits.
pub open spec fn prefix_of(a: nat, bits: nat, d: nat) -> nat {
    a / pow8((bits - d) as nat)
}

pub proof fn lemma_pow_positive(n: nat)
    ensures
        pow2(n) >= 1,
        pow8(n) >= 1,
    decreases n,
{
    if n > 0 {
        lemma_pow_positive((n - 1) as nat);
    }
}

/// `8^(a + b) == 8^a * 8^b`.
pub proof fn lemma_pow8_add(a: nat, b: nat)
    ensures
        pow8(a + b) == pow8(a) * pow8(b),
    decreases a,
{
    if a > 0 {
        let a1 = (a - 1) as nat;
        lemma_pow8_add(a1, b);
        assert((a + b - 1) as nat == a1 + b);
        assert(pow8(a + b) == 8 * pow8(a1 + b));
        let x = pow8(a1);
        let y = pow8(b);
        assert(8 * (x * y) == (8 * x) * y) by (nonlinear_arith);
        assert(pow8(a) == 8 * x);
    } else {
        assert(pow8(0) == 1);
        assert(a + b == b);
    }
}

pub proof fn lemma_pow8_monotone(a: nat, b: nat)
    requires
        a <= b,
    ensures
        pow8(a) <= pow8(b),
    decreases b,
{
    if a < b {
        lemma_pow8_monotone(a, (b - 1) as nat);
        lemma_pow_positive((b - 1) as nat);
    }
}

/// `2^(a + b) == 2^a * 2^b`.
pub proof fn lemma_pow2_add(a: nat, b: nat)
    ensures
        pow2(a + b) == pow2(a) * pow2(b),
    decreases a,
{
    if a > 0 {
        let a1 = (a - 1) as nat;
        lemma_pow2_add(a1, b);
        assert((a + b - 1) as nat == a1 + b);
        assert(pow2(a + b) == 2 * pow2(a1 + b));
        let x = pow2(a1);
        let y = pow2(b);
        assert(2 * (x * y) == (2 * x) * y) by (nonlinear_arith);
        assert(pow2(a) == 2 * x);
    } else {
        assert(pow2(0) == 1);
        assert(a + b == b);
    }
}

pub proof fn lemma_pow2_monotone(a: nat, b: nat)
    requires
        a <= b,
    ensures
        pow2(a) <= pow2(b),
    decreases b,
{
    if a < b {
        lemma_pow2_monotone(a, (b - 1) as nat);
        lemma_pow_positive((b - 1) as nat);
    }
}

pub proof fn lemma_pow8_max()
    ensures
        pow8(MAX_BITS as nat) == 0x8000_0000_0000_0000,
        pow2(MAX_BITS as nat) == 0x20_0000,
{
    reveal_with_fuel(pow8, 22);
    reveal_with_fuel(pow2, 22);
}

/// An address over `k` bits per axis has `3 * k` bits.
pub proof fn lemma_interleave_bound(x: nat, y: nat, z: nat, k: nat)
    ensures
        interleave(x, y, z, k) < pow8(k),
    decreases k,
{
    if k > 0 {
        lemma_interleave_bound(x / 2, y / 2, z / 2, (k - 1) as nat);
        let i = interleave(x / 2, y / 2, z / 2, (k - 1) as nat);
        let p = pow8((k - 1) as nat);
        assert(i * 8 + low_group(x, y, z) < 8 * p) by (nonlinear_arith)
            requires
                i < p,
                low_group(x, y, z) < 8,
        ;
    }
}

/// Each decoded axis value has `k` bits.
pub proof fn lemma_deinterleave_bound(a: nat, k: nat)
    ensures
        deinterleave(a, k).0 < pow2(k),
        deinterleave(a, k).1 < pow2(k),
        deinterleave(a, k).2 < pow2(k),
    decreases k,
{
    if k > 0 {
        lemma_deinterleave_bound(a / 8, (k - 1) as nat);
    }
}

/// Round trip: decoding the address of in-range coordinates gives them back.
pub proof fn lemma_round_trip(x: nat, y: nat, z: nat, k: nat)
    requires
        x < pow2(k),
        y < pow2(k),
        z < pow2(k),
    ensures
        deinterleave(interleave(x, y, z, k), k) == (x, y, z),
    decreases k,
{
    if k > 0 {
        let k1 = (k - 1) as nat;
        lemma_round_trip(x / 2, y / 2, z / 2, k1);
        let i = interleave(x / 2, y / 2, z / 2, k1);
        let g = low_group(x, y, z);
        assert((i * 8 + g) / 8 == i && (i * 8 + g) % 8 == g) by (nonlinear_arith)
            requires
                0 <= g < 8,
        ;
    }
}

/// Encoding decoded coordinates gives back the address.
pub proof fn lemma_encode_decode(a: nat, k: nat)
    requires
        a < pow8(k),
    ensures
        interleave(deinterleave(a, k).0, deinterleave(a, k).1, deinterleave(a, k).2, k) == a,
    decreases k,
{
    if k > 0 {
        let k1 = (k - 1) as nat;
        let p = pow8(k1);
        assert(a / 8 < p) by (nonlinear_arith)
            requires
                a < 8 * p,
        ;
        lemma_encode_decode(a / 8, k1);
        let t = deinterleave(a / 8, k1);
        let g = a % 8;
        let d = deinterleave(a, k);
        assert(d.0 / 2 == t.0 && d.1 / 2 == t.1 && d.2 / 2 == t.2);
        assert(low_group(d.0, d.1, d.2) == g);
    }
}

/// Encoding is a bijection from `[0, 2^k)^3` onto `[0, 8^k)`: every address of
/// in-range coordinates is below `8^k`, distinct coordinates get distinct
/// addresses, and every address below `8^k` is the address of in-range
/// coordinates.
pub proof fn lemma_encode_bijective(k: nat)
    ensures
        forall|x: nat, y: nat, z: nat|
            x < pow2(k) && y < pow2(k) && z < pow2(k) ==> #[trigger] interleave(x, y, z, k)
                < pow8(k),
        forall|x1: nat, y1: nat, z1: nat, x2: nat, y2: nat, z2: nat|
            x1 < pow2(k) && y1 < pow2(k) && z1 < pow2(k) && x2 < pow2(k) && y2 < pow2(k) && z2
                < pow2(k) && #[trigger] interleave(x1, y1, z1, k) == #[trigger] interleave(
                x2,
                y2,
                z2,
                k,
            ) ==> x1 == x2 && y1 == y2 && z1 == z2,
        forall|a: nat|
            a < pow8(k) ==> {
                let t = #[trigger] deinterleave(a, k);
                &&& t.0 < pow2(k)
                &&& t.1 < pow2(k)
                &&& t.2 < pow2(k)
                &&& interleave(t.0, t.1, t.2, k) == a
            },
{
    assert forall|x: nat, y: nat, z: nat|
        x < pow2(k) && y < pow2(k) && z < pow2(k) implies #[trigger] interleave(x, y, z, k)
        < pow8(k) by {
        lemma_interleave_bound(x, y, z, k);
    }
    assert forall|x1: nat, y1: nat, z1: nat, x2: nat, y2: nat, z2: nat|
        x1 < pow2(k) && y1 < pow2(k) && z1 < pow2(k) && x2 < pow2(k) && y2 < pow2(k) && z2
            < pow2(k) && #[trigger] interleave(x1, y1, z1, k) == #[trigger] interleave(
            x2,
            y2,
            z2,
            k,
        ) implies x1 == x2 && y1 == y2 && z1 == z2 by {
        lemma_round_trip(x1, y1, z1, k);
        lemma_round_trip(x2, y2, z2, k);
    }
    assert forall|a: nat| a < pow8(k) implies {
        let t = #[trigger] deinterleave(a, k);
        &&& t.0 < pow2(k)
        &&& t.1 < pow2(k)
        &&& t.2 < pow2(k)
        &&& interleave(t.0, t.1, t.2, k) == a
    } by {
        lemma_deinterleave_bound(a, k);
        lemma_encode_decode(a, k);
    }
}

/// `2^k` for `k <= MAX_BITS`.
pub fn pow2_u64(k: u32) -> (r: u64)
    requires
        k <= MAX_BITS,
    ensures
        r == pow2(k as nat),
{
    let mut r: u64 = 1;
    let mut i: u32 = 0;
    while i < k
        invariant
            i <= k <= MAX_BITS,
            r == pow2(i as nat),
        decreases k - i,
    {
        proof {
            lemma_pow2_monotone(i as nat, (MAX_BITS - 1) as nat);
            lemma_pow8_max();
            assert(pow2(21) == 2 * pow2(20));
        }
        r = r * 2;
        i = i + 1;
    }
    r
}

/// `8^k` for `k <= MAX_BITS`.
pub fn pow8_u64(k: u32) -> (r: u64)
    requires
        k <= MAX_BITS,
    ensures
        r == pow8(k as nat),
{
    let mut r: u64 = 1;
    let mut i: u32 = 0;
    while i < k
        invariant
            i <= k <= MAX_BITS,
            r == pow8(i as nat),
        decreases k - i,
    {
        proof {
            lemma_pow8_monotone(i as nat, (MAX_BITS - 1) as nat);
            lemma_pow8_max();
            assert(pow8(21) == 8 * pow8(20));
        }
        r = r * 8;
        i = i + 1;
    }
    r
}

/// The address of `(x, y, z)` over the low `k` bits of each axis.
pub(crate) fn interleave_u64(x: u32, y: u32, z: u32, k: u32) -> (r: u64)
    requires
        k <= MAX_BITS,
    ensures
        r == interleave(x as nat, y as nat, z as nat, k as nat),
    decreases k,
{
    if k == 0 {
        0
    } else {
        let i = interleave_u64(x / 2, y / 2, z / 2, k - 1);
        proof {
            lemma_interleave_bound(x as nat / 2, y as nat / 2, z as nat / 2, (k - 1) as nat);
            lemma_pow8_monotone((k - 1) as nat, (MAX_BITS - 1) as nat);
            lemma_pow8_max();
            assert(pow8(21) == 8 * pow8(20));
        }
        let g: u64 = ((x % 2) * 4 + (y % 2) * 2 + z % 2) as u64;
        i * 8 + g
    }
}

/// The coordinates of the `k`-bit address `a`.
pub(crate) fn deinterleave_u64(a: u64, k: u32) -> (r: (u32, u32, u32))
    requires
        k <= MAX_BITS,
    ensures
        (r.0 as nat, r.1 as nat, r.2 as nat) == deinterleave(a as nat, k as nat),
    decreases k,
{
    if k == 0 {
        (0, 0, 0)
    } else {
        let t = deinterleave_u64(a / 8, k - 1);
        proof {
            lemma_deinterleave_bound(a as nat / 8, (k - 1) as nat);
            lemma_pow2_monotone((k - 1) as nat, (MAX_BITS - 1) as nat);
            lemma_pow8_max();
            assert(pow2(21) == 2 * pow2(20));
        }
        let g: u32 = (a % 8) as u32;
        (t.0 * 2 + g / 4, t.1 * 2 + (g / 2) % 2, t.2 * 2 + g % 2)
    }
}

/// The address of `(x, y, z)` in a domain of `bits` bits per axis.
/// `Overflow` where `3 * bits` exceeds 64 bits' worth of cells; `InvalidCoordinate`
/// where an axis value is not below `2^bits`.
pub fn encode(bits: u32, x: u32, y: u32, z: u32) -> (r: Result<u64, OctreeError>)
    ensures
        bits > MAX_BITS ==> r == Err::<u64, OctreeError>(OctreeError::Overflow),
        bits <= MAX_BITS && !(x < pow2(bits as nat) && y < pow2(bits as nat) && z < pow2(
            bits as nat,
        )) ==> r == Err::<u64, OctreeError>(OctreeError::InvalidCoordinate),
        bits <= MAX_BITS && x < pow2(bits as nat) && y < pow2(bits as nat) && z < pow2(
            bits as nat,
        ) ==> r == Ok::<u64, OctreeError>(interleave(x as nat, y as nat, z as nat, bits as nat) as u64),
{
    if bits > MAX_BITS {
        return Err(OctreeError::Overflow);
    }
    let side = pow2_u64(bits);
    if x as u64 >= side || y as u64 >= side || z as u64 >= side {
        return Err(OctreeError::InvalidCoordinate);
    }
    Ok(interleave_u64(x, y, z, bits))
}

/// The coordinates whose address is `address` in a domain of `bits` bits per
/// axis. `Overflow` where `3 * bits` exceeds 64 bits' worth of cells;
/// `InvalidCoordinate` where `address` is not below `8^bits`.
pub fn decode(bits: u32, address: u64) -> (r: Result<(u32, u32, u32), OctreeError>)
    ensures
        bits > MAX_BITS ==> r == Err::<(u32, u32, u32), OctreeError>(OctreeError::Overflow),
        bits <= MAX_BITS && address >= pow8(bits as nat) ==> r == Err::<
            (u32, u32, u32),
            OctreeError,
        >(OctreeError::InvalidCoordinate),
        bits <= MAX_BITS && address < pow8(bits as nat) ==> r is Ok && {
            let t = r->Ok_0;
            (t.0 as nat, t.1 as nat, t.2 as nat) == deinterleave(address as nat, bits as nat)
        },
{
    if bits > MAX_BITS {
        return Err(OctreeError::Overflow);
    }
    if address >= pow8_u64(bits) {
        return Err(OctreeError::InvalidCoordinate);
    }
    Ok(deinterleave_u64(address, bits))
}

/// The top `3 * depth` bits of `address` in a domain of `bits` bits per axis:
/// the node at `depth` that holds it. `Overflow` where `bits` is too wide,
/// `InvalidDepth` where `depth > bits`.
pub fn prefix(bits: u32, address: u64, depth: u32) -> (r: Result<u64, OctreeError>)
    ensures
        bits > MAX_BITS ==> r == Err::<u64, OctreeError>(OctreeError::Overflow),
        bits <= MAX_BITS && depth > bits ==> r == Err::<u64, OctreeError>(OctreeError::InvalidDepth),
        bits <= MAX_BITS && depth <= bits ==> r == Ok::<u64, OctreeError>(
            prefix_of(address as nat, bits as nat, depth as nat) as u64,
        ),
{
    if bits > MAX_BITS {
        return Err(OctreeError::Overflow);
    }
    if depth > bits {
        return Err(OctreeError::InvalidDepth);
    }
    let q = pow8_u64(bits - depth);
    proof {
        lemma_pow_positive((bits - depth) as nat);
    }
    Ok(address / q)
}

/// The 3-bit group of `address` that picks, among the eight children of its
/// node at `depth - 1`, the one at `depth` (0 at the root). `Overflow` where
/// `bits` is too wide, `InvalidDepth` where `depth > bits`.
pub fn child_slot(bits: u32, address: u64, depth: u32) -> (r: Result<u8, OctreeError>)
    ensures
        bits > MAX_BITS ==> r == Err::<u8, OctreeError>(OctreeError::Overflow),
        bits <= MAX_BITS && depth > bits ==> r == Err::<u8, OctreeError>(OctreeError::InvalidDepth),
        bits <= MAX_BITS && depth <= bits ==> r == Ok::<u8, OctreeError>(
            (prefix_of(address as nat, bits as nat, depth as nat) % 8) as u8,
        ),
{
    match prefix(bits, address, depth) {
        Ok(p) => {
            proof {
                let q = pow8((bits - depth) as nat);
                lemma_pow_positive((bits - depth) as nat);
                assert(address as nat / q <= address as nat) by (nonlinear_arith)
                    requires
                        q >= 1,
                ;
            }
            Ok((p % 8) as u8)
        },
        Err(e) => Err(e),
    }
}

} // verus!
