use vstd::prelude::*;

use crate::codec::{
    deinterleave, deinterleave_u64, interleave, interleave_u64, lemma_deinterleave_bound,
    lemma_encode_decode, lemma_interleave_bound, lemma_pow2_monotone, lemma_pow8_max,
    lemma_pow8_monotone, lemma_round_trip, pow2, pow2_u64, pow8, pow8_u64, MAX_BITS,
};
use crate::error::OctreeError;
use crate::tree::Octree;

verus! {

/// The cell at depth `d` that is `(cx - 1, cy - 1, cz - 1)` cells away from cell
/// `a`, each code in `0..3`; `None` where that leaves the domain.
pub open spec fn shifted(a: nat, d: nat, c: (nat, nat, nat)) -> Option<nat> {
    let t = deinterleave(a, d);
    let x = t.0 + c.0 - 1;
    let y = t.1 + c.1 - 1;
    let z = t.2 + c.2 - 1;
    if 0 <= x < pow2(d) && 0 <= y < pow2(d) && 0 <= z < pow2(d) {
        Some(interleave(x as nat, y as nat, z as nat, d))
    } else {
        None
    }
}

/// The step of face candidate `j`: x down, x up, y down, y up, z down, z up.
pub open spec fn face_code(j: nat) -> (nat, nat, nat) {
    let s: nat = if j % 2 == 0 {
        0
    } else {
        2
    };
    if j / 2 == 0 {
        (s, 1, 1)
    } else if j / 2 == 1 {
        (1, s, 1)
    } else {
        (1, 1, s)
    }
}

/// The step of vertex candidate `j`, in `0..27`; candidate 13 is the cell itself.
pub open spec fn vertex_code(j: nat) -> (nat, nat, nat) {
    (j / 9, (j / 3) % 3, j % 3)
}

/// The face neighbours of `a` among the first `j` candidates, in order.
pub open spec fn face_list(a: nat, d: nat, j: nat) -> Seq<u64>
    decreases j,
{
    if j == 0 {
        Seq::empty()
    } else {
        let rest = face_list(a, d, (j - 1) as nat);
        match shifted(a, d, face_code((j - 1) as nat)) {
            Some(b) => rest.push(b as u64),
            None => rest,
        }
    }
}

/// The vertex neighbours of `a` among the first `j` candidates, in order.
pub open spec fn vertex_list(a: nat, d: nat, j: nat) -> Seq<u64>
    decreases j,
{
    if j == 0 {
        Seq::empty()
    } else {
        let rest = vertex_list(a, d, (j - 1) as nat);
        if j - 1 == 13 {
            rest
        } else {
            match shifted(a, d, vertex_code((j - 1) as nat)) {
                Some(b) => rest.push(b as u64),
                None => rest,
            }
        }
    }
}

/// `v + c - 1` where that stays in `[0, side)`.
fn step(v: u32, c: u32, side: u64) -> (r: Option<u32>)
    requires
        c < 3,
        v < side <= 0x20_0000,
    ensures
        0 <= v + c - 1 < side ==> r == Some((v + c - 1) as u32),
        !(0 <= v + c - 1 < side) ==> r is None,
{
    if c == 0 {
        if v == 0 {
            None
        } else {
            Some(v - 1)
        }
    } else if c == 1 {
        Some(v)
    } else {
        if v as u64 + 1 >= side {
            None
        } else {
            Some(v + 1)
        }
    }
}

/// The cell `c` away from the cell with coordinates `t`, as `shifted` gives it.
fn shifted_u64(a: u64, d: u32, t: (u32, u32, u32), side: u64, c: (u32, u32, u32)) -> (r: Option<u64>)
    requires
        d <= MAX_BITS,
        (t.0 as nat, t.1 as nat, t.2 as nat) == deinterleave(a as nat, d as nat),
        side == pow2(d as nat),
        c.0 < 3 && c.1 < 3 && c.2 < 3,
    ensures
        r == match shifted(a as nat, d as nat, (c.0 as nat, c.1 as nat, c.2 as nat)) {
            Some(b) => Some(b as u64),
            None => None::<u64>,
        },
{
    proof {
        lemma_deinterleave_bound(a as nat, d as nat);
        lemma_pow2_monotone(d as nat, MAX_BITS as nat);
        lemma_pow8_max();
    }
    let x = step(t.0, c.0, side);
    let y = step(t.1, c.1, side);
    let z = step(t.2, c.2, side);
    match (x, y, z) {
        (Some(x), Some(y), Some(z)) => Some(interleave_u64(x, y, z, d)),
        _ => None,
    }
}

impl Octree {
    /// The cells at depth `depth` that share a face with cell `address`: one
    /// axis one step down or up, in the order x, y, z and down before up, with
    /// those outside the domain left out. `InvalidDepth` where `depth` is below
    /// the leaves, `InvalidCoordinate` where `address >= 8^depth`.
    pub fn face_neighbors(&self, address: u64, depth: u32) -> (r: Result<Vec<u64>, OctreeError>)
        requires
            self.wf(),
        ensures
            depth > self.spec_depth() ==> r == Err::<Vec<u64>, OctreeError>(
                OctreeError::InvalidDepth,
            ),
            depth <= self.spec_depth() && address >= pow8(depth as nat) ==> r == Err::<
                Vec<u64>,
                OctreeError,
            >(OctreeError::InvalidCoordinate),
            depth <= self.spec_depth() && address < pow8(depth as nat) ==> r is Ok && r->Ok_0@
                == face_list(address as nat, depth as nat, 6),
    {
        if depth > self.depth() {
            return Err(OctreeError::InvalidDepth);
        }
        if address >= pow8_u64(depth) {
            return Err(OctreeError::InvalidCoordinate);
        }
        let t = deinterleave_u64(address, depth);
        let side = pow2_u64(depth);
        let mut out: Vec<u64> = Vec::new();
        let mut j: u32 = 0;
        while j < 6
            invariant
                j <= 6,
                depth <= MAX_BITS,
                (t.0 as nat, t.1 as nat, t.2 as nat) == deinterleave(address as nat, depth as nat),
                side == pow2(depth as nat),
                out@ == face_list(address as nat, depth as nat, j as nat),
            decreases 6 - j,
        {
            let s: u32 = if j % 2 == 0 {
                0
            } else {
                2
            };
            let c = if j / 2 == 0 {
                (s, 1, 1)
            } else if j / 2 == 1 {
                (1, s, 1)
            } else {
                (1, 1, s)
            };
            assert((c.0 as nat, c.1 as nat, c.2 as nat) == face_code(j as nat));
            if let Some(b) = shifted_u64(address, depth, t, side, c) {
                out.push(b);
            }
            j = j + 1;
        }
        Ok(out)
    }

    /// The cells at depth `depth` that share at least a corner with cell
    /// `address`: every step of -1, 0 or +1 per axis but none at all, x slowest
    /// and z fastest, with those outside the domain left out. `InvalidDepth`
    /// where `depth` is below the leaves, `InvalidCoordinate` where
    /// `address >= 8^depth`.
    pub fn vertex_neighbors(&self, address: u64, depth: u32) -> (r: Result<Vec<u64>, OctreeError>)
        requires
            self.wf(),
        ensures
            depth > self.spec_depth() ==> r == Err::<Vec<u64>, OctreeError>(
                OctreeError::InvalidDepth,
            ),
            depth <= self.spec_depth() && address >= pow8(depth as nat) ==> r == Err::<
                Vec<u64>,
                OctreeError,
            >(OctreeError::InvalidCoordinate),
            depth <= self.spec_depth() && address < pow8(depth as nat) ==> r is Ok && r->Ok_0@
                == vertex_list(address as nat, depth as nat, 27),
    {
        if depth > self.depth() {
            return Err(OctreeError::InvalidDepth);
        }
        if address >= pow8_u64(depth) {
            return Err(OctreeError::InvalidCoordinate);
        }
        let t = deinterleave_u64(address, depth);
        let side = pow2_u64(depth);
        let mut out: Vec<u64> = Vec::new();
        let mut j: u32 = 0;
        while j < 27
            invariant
                j <= 27,
                depth <= MAX_BITS,
                (t.0 as nat, t.1 as nat, t.2 as nat) == deinterleave(address as nat, depth as nat),
                side == pow2(depth as nat),
                out@ == vertex_list(address as nat, depth as nat, j as nat),
            decreases 27 - j,
        {
            if j != 13 {
                let c = (j / 9, (j / 3) % 3, j % 3);
                if let Some(b) = shifted_u64(address, depth, t, side, c) {
                    out.push(b);
                }
            }
            j = j + 1;
        }
        Ok(out)
    }
}

/// What the first `j` face candidates of `a` hold is a cell that one of them
/// reaches, and each cell that one of them reaches is there.
proof fn lemma_face_list_members(a: nat, d: nat, j: nat)
    requires
        d <= MAX_BITS,
        j <= 6,
    ensures
        forall|b: u64| #[trigger] face_list(a, d, j).contains(b) ==> exists|i: nat|
            i < j && #[trigger] shifted(a, d, face_code(i)) == Some(b as nat),
        forall|i: nat|
            i < j && #[trigger] shifted(a, d, face_code(i)) is Some ==> face_list(a, d, j).contains(
                shifted(a, d, face_code(i))->Some_0 as u64,
            ),
    decreases j,
{
    if j > 0 {
        let j1 = (j - 1) as nat;
        lemma_face_list_members(a, d, j1);
        let rest = face_list(a, d, j1);
        let last = shifted(a, d, face_code(j1));
        if let Some(v) = last {
            let t = deinterleave(a, d);
            lemma_interleave_bound(
                (t.0 + face_code(j1).0 - 1) as nat,
                (t.1 + face_code(j1).1 - 1) as nat,
                (t.2 + face_code(j1).2 - 1) as nat,
                d,
            );
            lemma_pow8_monotone(d, MAX_BITS as nat);
            lemma_pow8_max();
            assert(v < 0x8000_0000_0000_0000);
        }
        assert forall|b: u64| #[trigger] face_list(a, d, j).contains(b) implies exists|i: nat|
            i < j && #[trigger] shifted(a, d, face_code(i)) == Some(b as nat) by {
            if rest.contains(b) {
            } else {
                assert(last == Some(b as nat));
            }
        }
        assert forall|i: nat|
            i < j && #[trigger] shifted(a, d, face_code(i)) is Some implies face_list(
            a,
            d,
            j,
        ).contains(shifted(a, d, face_code(i))->Some_0 as u64) by {
            let w = shifted(a, d, face_code(i))->Some_0 as u64;
            if i < j1 {
                let k = choose|k: int| 0 <= k < rest.len() && rest[k] == w;
                assert(face_list(a, d, j)[k] == w);
            } else {
                assert(face_list(a, d, j)[rest.len() as int] == w);
            }
        }
    }
}

/// The face candidate that undoes candidate `i`.
pub open spec fn opposite(i: nat) -> nat {
    if i % 2 == 0 {
        i + 1
    } else {
        (i - 1) as nat
    }
}

/// If `b` is a face neighbour of `a`, then `a` is a face neighbour of `b`.
/// Clipping at the domain's edges never breaks this: a cell outside the
/// domain is nobody's neighbour.
pub proof fn lemma_face_symmetry(a: u64, b: u64, d: nat)
    requires
        d <= MAX_BITS,
        a < pow8(d),
        face_list(a as nat, d, 6).contains(b),
    ensures
        face_list(b as nat, d, 6).contains(a),
{
    lemma_face_list_members(a as nat, d, 6);
    lemma_face_list_members(b as nat, d, 6);
    let i = choose|i: nat| i < 6 && #[trigger] shifted(a as nat, d, face_code(i)) == Some(b as nat);
    let t = deinterleave(a as nat, d);
    let c = face_code(i);
    let x = (t.0 + c.0 - 1) as nat;
    let y = (t.1 + c.1 - 1) as nat;
    let z = (t.2 + c.2 - 1) as nat;
    assert(interleave(x, y, z, d) == b);
    lemma_round_trip(x, y, z, d);
    lemma_deinterleave_bound(a as nat, d);
    lemma_encode_decode(a as nat, d);
    let o = opposite(i);
    assert(o < 6);
    let c2 = face_code(o);
    assert(x + c2.0 - 1 == t.0 && y + c2.1 - 1 == t.1 && z + c2.2 - 1 == t.2);
    assert(shifted(b as nat, d, face_code(o)) == Some(a as nat));
}

} // verus!
