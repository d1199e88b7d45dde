use vstd::prelude::*;

use crate::codec::{
    interleave, interleave_u64, lemma_interleave_bound, lemma_pow8_add, lemma_pow_positive,
    pow2, pow2_u64, pow8, pow8_u64, prefix_of, MAX_BITS,
};
use crate::error::OctreeError;

verus! {

/// A point of the domain with a handle to the caller's payload, which the tree
/// carries but never reads.
#[derive(Debug, Clone, Copy, PartialEq, Eq, Structural)]
pub struct Point {
    pub x: u32,
    pub y: u32,
    pub z: u32,
    pub payload: u64,
}

/// Whether each axis of `p` is below `2^bits`.
pub open spec fn in_domain(p: Point, bits: nat) -> bool {
    p.x < pow2(bits) && p.y < pow2(bits) && p.z < pow2(bits)
}

/// The address of `p` in a domain of `bits` bits per axis.
pub open spec fn address_of(p: Point, bits: nat) -> nat {
    interleave(p.x as nat, p.y as nat, p.z as nat, bits)
}

/// The index of the leaf, at `depth`, whose bucket holds `p`.
pub open spec fn leaf_of(p: Point, bits: nat, depth: nat) -> nat {
    prefix_of(address_of(p, bits), bits, depth)
}

/// The points that belong in leaf `i`.
pub open spec fn in_leaf(bits: nat, depth: nat, i: nat) -> spec_fn(Point) -> bool {
    |p: Point| leaf_of(p, bits, depth) == i
}

/// The points at exactly `(x, y, z)`.
pub open spec fn at_coords(x: u32, y: u32, z: u32) -> spec_fn(Point) -> bool {
    |p: Point| p.x == x && p.y == y && p.z == z
}

/// The buckets that building from `points` gives: bucket `i` holds, in input
/// order, the points whose leaf is `i`.
pub open spec fn built(points: Seq<Point>, bits: nat, depth: nat) -> Seq<Seq<Point>> {
    Seq::new(pow8(depth), |i: int| points.filter(in_leaf(bits, depth, i as nat)))
}

/// The buckets of `bs` joined in order.
pub open spec fn concat(bs: Seq<Seq<Point>>) -> Seq<Point>
    decreases bs.len(),
{
    if bs.len() == 0 {
        Seq::empty()
    } else {
        concat(bs.drop_last()) + bs.last()
    }
}

/// The range of leaves beneath the node `(d, p)` of a table of depth `depth`,
/// clipped to the table: `[p * 8^(depth - d), (p + 1) * 8^(depth - d))`.
pub open spec fn leaf_range(p: nat, d: nat, depth: nat) -> (int, int) {
    let span = pow8((depth - d) as nat);
    let n = pow8(depth);
    if p * span >= n {
        (n as int, n as int)
    } else if (p + 1) * span >= n {
        ((p * span) as int, n as int)
    } else {
        ((p * span) as int, ((p + 1) * span) as int)
    }
}

/// A dense table of `8^depth` buckets over a cube of `bits` bits per axis.
pub struct Octree {
    bits: u32,
    depth: u32,
    buckets: Vec<Vec<Point>>,
}

impl View for Octree {
    type V = Seq<Seq<Point>>;

    closed spec fn view(&self) -> Seq<Seq<Point>> {
        Seq::new(self.buckets@.len(), |i: int| self.buckets@[i]@)
    }
}

impl Octree {
    /// Bits per axis of the domain.
    pub closed spec fn spec_bits(&self) -> nat {
        self.bits as nat
    }

    /// The depth of the leaves.
    pub closed spec fn spec_depth(&self) -> nat {
        self.depth as nat
    }

    /// The points beneath the node with prefix `node` at depth `d`: the buckets
    /// of its leaves, joined in leaf order.
    pub open spec fn beneath(&self, node: nat, d: nat) -> Seq<Point> {
        let (lo, hi) = leaf_range(node, d, self.spec_depth());
        concat(self@.subrange(lo, hi))
    }

    /// Every point lies in the domain and in the bucket of its leaf.
    pub open spec fn wf(&self) -> bool {
        &&& self.spec_bits() <= MAX_BITS
        &&& self.spec_depth() <= self.spec_bits()
        &&& self@.len() == pow8(self.spec_depth())
        &&& forall|i: int, j: int|
            0 <= i < self@.len() && 0 <= j < self@[i].len() ==> {
                &&& in_domain(#[trigger] self@[i][j], self.spec_bits())
                &&& leaf_of(self@[i][j], self.spec_bits(), self.spec_depth()) == i
            }
    }
}

/// The leaf of `p`, which lies in the domain.
pub(crate) fn leaf_u64(p: Point, bits: u32, depth: u32) -> (r: u64)
    requires
        bits <= MAX_BITS,
        depth <= bits,
        in_domain(p, bits as nat),
    ensures
        r == leaf_of(p, bits as nat, depth as nat),
        r < pow8(depth as nat),
{
    let a = interleave_u64(p.x, p.y, p.z, bits);
    let q = pow8_u64(bits - depth);
    proof {
        lemma_leaf_bound(p, bits as nat, depth as nat);
        lemma_pow_positive((bits - depth) as nat);
    }
    a / q
}

proof fn lemma_leaf_bound(p: Point, bits: nat, depth: nat)
    requires
        depth <= bits,
    ensures
        leaf_of(p, bits, depth) < pow8(depth),
{
    let a = address_of(p, bits);
    let q = pow8((bits - depth) as nat);
    let n = pow8(depth);
    lemma_interleave_bound(p.x as nat, p.y as nat, p.z as nat, bits);
    lemma_pow8_add(depth, (bits - depth) as nat);
    assert(depth + (bits - depth) as nat == bits);
    lemma_pow_positive((bits - depth) as nat);
    assert(a / q < n) by (nonlinear_arith)
        requires
            a < n * q,
            q >= 1,
    ;
}

impl Octree {
    /// Builds the table of `8^depth` buckets over a domain of `bits` bits per
    /// axis and places each point in the bucket of its leaf, in input order.
    /// `Overflow` where `bits` is too wide for a 64-bit address, `InvalidDepth`
    /// where `depth > bits`, `InvalidCoordinate` where a point lies outside the
    /// domain; each is found before any bucket is made.
    pub fn new(bits: u32, depth: u32, points: Vec<Point>) -> (r: Result<Octree, OctreeError>)
        ensures
            bits > MAX_BITS ==> r == Err::<Octree, OctreeError>(OctreeError::Overflow),
            bits <= MAX_BITS && depth > bits ==> r == Err::<Octree, OctreeError>(
                OctreeError::InvalidDepth,
            ),
            bits <= MAX_BITS && depth <= bits && (exists|k: int|
                0 <= k < points@.len() && !in_domain(#[trigger] points@[k], bits as nat))
                ==> r == Err::<Octree, OctreeError>(OctreeError::InvalidCoordinate),
            bits <= MAX_BITS && depth <= bits && (forall|k: int|
                0 <= k < points@.len() ==> in_domain(#[trigger] points@[k], bits as nat)) ==> {
                &&& r is Ok
                &&& r->Ok_0.wf()
                &&& r->Ok_0.spec_bits() == bits
                &&& r->Ok_0.spec_depth() == depth
                &&& r->Ok_0@ == built(points@, bits as nat, depth as nat)
            },
    {
        if bits > MAX_BITS {
            return Err(OctreeError::Overflow);
        }
        if depth > bits {
            return Err(OctreeError::InvalidDepth);
        }
        let side = pow2_u64(bits);
        let mut k: usize = 0;
        while k < points.len()
            invariant
                k <= points@.len(),
                bits <= MAX_BITS,
                depth <= bits,
                side == pow2(bits as nat),
                forall|m: int| 0 <= m < k ==> in_domain(#[trigger] points@[m], bits as nat),
            decreases points@.len() - k,
        {
            let p = points[k];
            if p.x as u64 >= side || p.y as u64 >= side || p.z as u64 >= side {
                return Err(OctreeError::InvalidCoordinate);
            }
            k = k + 1;
        }
        let n = pow8_u64(depth);
        let mut buckets: Vec<Vec<Point>> = Vec::new();
        let mut i: u64 = 0;
        while i < n
            invariant
                i <= n,
                bits <= MAX_BITS,
                depth <= bits,
                forall|m: int| 0 <= m < points@.len() ==> in_domain(#[trigger] points@[m], bits as nat),
                n == pow8(depth as nat),
                buckets@.len() == i,
                forall|b: int| 0 <= b < i ==> (#[trigger] buckets@[b])@ == Seq::<Point>::empty(),
            decreases n - i,
        {
            buckets.push(Vec::new());
            i = i + 1;
        }
        let mut tree = Octree { bits, depth, buckets };
        let mut k: usize = 0;
        while k < points.len()
            invariant
                k <= points@.len(),
                bits <= MAX_BITS,
                depth <= bits,
                tree.bits == bits,
                tree.depth == depth,
                tree.buckets@.len() == pow8(depth as nat),
                forall|m: int| 0 <= m < points@.len() ==> in_domain(#[trigger] points@[m], bits as nat),
                forall|b: int|
                    0 <= b < tree.buckets@.len() ==> (#[trigger] tree.buckets@[b])@
                        == points@.take(k as int).filter(in_leaf(bits as nat, depth as nat, b as nat)),
            decreases points@.len() - k,
        {
            let p = points[k];
            let leaf = leaf_u64(p, bits, depth);
            let nb = tree.buckets.len();
            assert(leaf < nb as u64);
            tree.buckets[leaf as usize].push(p);
            proof {
                reveal(Seq::filter);
                let s = points@.take(k as int);
                let s1 = points@.take(k + 1);
                assert(s1.drop_last() =~= s);
                assert(s1.last() == p);
                assert forall|b: int| 0 <= b < tree.buckets@.len() implies (
                #[trigger] tree.buckets@[b])@ == s1.filter(in_leaf(bits as nat, depth as nat, b as nat)) by {
                    assert(s1.filter(in_leaf(bits as nat, depth as nat, b as nat)) == {
                        let sub = s.filter(in_leaf(bits as nat, depth as nat, b as nat));
                        if in_leaf(bits as nat, depth as nat, b as nat)(p) {
                            sub.push(p)
                        } else {
                            sub
                        }
                    });
                }
            }
            k = k + 1;
        }
        proof {
            assert(points@.take(points@.len() as int) =~= points@);
            assert(tree@ =~= built(points@, bits as nat, depth as nat));
            assert forall|i: int, j: int|
                0 <= i < tree@.len() && 0 <= j < tree@[i].len() implies {
                &&& in_domain(#[trigger] tree@[i][j], tree.spec_bits())
                &&& leaf_of(tree@[i][j], tree.spec_bits(), tree.spec_depth()) == i
            } by {
                let f = in_leaf(bits as nat, depth as nat, i as nat);
                lemma_filter_members(points@, f);
                assert(points@.filter(f).contains(tree@[i][j]));
            }
        }
        Ok(tree)
    }
}

impl Octree {
    /// Bits per axis of the domain.
    pub fn bits(&self) -> (r: u32)
        ensures
            r == self.spec_bits(),
    {
        self.bits
    }

    /// The depth of the leaves.
    pub fn depth(&self) -> (r: u32)
        ensures
            r == self.spec_depth(),
    {
        self.depth
    }

    /// The number of buckets, `8^depth`.
    pub fn bucket_count(&self) -> (r: usize)
        ensures
            r == self@.len(),
    {
        self.buckets.len()
    }

    /// The bucket of leaf `leaf`, or `None` where there is no such leaf.
    pub fn bucket(&self, leaf: u64) -> (r: Option<&Vec<Point>>)
        ensures
            leaf < self@.len() ==> r is Some && r->Some_0@ == self@[leaf as int],
            leaf >= self@.len() ==> r is None,
    {
        if leaf < self.buckets.len() as u64 {
            Some(&self.buckets[leaf as usize])
        } else {
            None
        }
    }

    /// Appends `p` to the bucket of its leaf. `InvalidCoordinate`, with the tree
    /// unchanged, where `p` lies outside the domain.
    pub fn insert(&mut self, p: Point) -> (r: Result<(), OctreeError>)
        requires
            old(self).wf(),
        ensures
            final(self).wf(),
            final(self).spec_bits() == old(self).spec_bits(),
            final(self).spec_depth() == old(self).spec_depth(),
            !in_domain(p, old(self).spec_bits()) ==> r == Err::<(), OctreeError>(
                OctreeError::InvalidCoordinate,
            ) && final(self)@ == old(self)@,
            in_domain(p, old(self).spec_bits()) ==> {
                let i = leaf_of(p, old(self).spec_bits(), old(self).spec_depth()) as int;
                &&& r is Ok
                &&& final(self)@ == old(self)@.update(i, old(self)@[i].push(p))
            },
    {
        let side = pow2_u64(self.bits);
        if p.x as u64 >= side || p.y as u64 >= side || p.z as u64 >= side {
            return Err(OctreeError::InvalidCoordinate);
        }
        let leaf = leaf_u64(p, self.bits, self.depth);
        let nb = self.buckets.len();
        assert(leaf < nb as u64);
        self.buckets[leaf as usize].push(p);
        assert(self@ =~= old(self)@.update(leaf as int, old(self)@[leaf as int].push(p)));
        Ok(())
    }

    /// Removes the first entry of the bucket of `p` that equals `p`.
    /// `InvalidCoordinate` where `p` lies outside the domain, `NotFound` where it
    /// is not stored; on either the tree is unchanged.
    pub fn remove(&mut self, p: Point) -> (r: Result<(), OctreeError>)
        requires
            old(self).wf(),
        ensures
            final(self).wf(),
            final(self).spec_bits() == old(self).spec_bits(),
            final(self).spec_depth() == old(self).spec_depth(),
            !in_domain(p, old(self).spec_bits()) ==> r == Err::<(), OctreeError>(
                OctreeError::InvalidCoordinate,
            ) && final(self)@ == old(self)@,
            in_domain(p, old(self).spec_bits()) ==> {
                let i = leaf_of(p, old(self).spec_bits(), old(self).spec_depth()) as int;
                let b = old(self)@[i];
                &&& !b.contains(p) ==> r == Err::<(), OctreeError>(OctreeError::NotFound)
                    && final(self)@ == old(self)@
                &&& b.contains(p) ==> r is Ok && exists|j: int|
                    0 <= j < b.len() && b[j] == p && (forall|m: int| 0 <= m < j ==> b[m] != p)
                        && final(self)@ == old(self)@.update(i, #[trigger] b.remove(j))
            },
    {
        let side = pow2_u64(self.bits);
        if p.x as u64 >= side || p.y as u64 >= side || p.z as u64 >= side {
            return Err(OctreeError::InvalidCoordinate);
        }
        let leaf = leaf_u64(p, self.bits, self.depth);
        let nb = self.buckets.len();
        assert(leaf < nb as u64);
        let li = leaf as usize;
        let n = self.buckets[li].len();
        let mut j: usize = 0;
        while j < n
            invariant
                *self == *old(self),
                old(self).wf(),
                li < self.buckets@.len(),
                n == self.buckets@[li as int]@.len(),
                j <= n,
                forall|m: int| 0 <= m < j ==> self.buckets@[li as int]@[m] != p,
            decreases n - j,
        {
            if self.buckets[li][j] == p {
                let ghost b = self@[li as int];
                self.buckets[li].remove(j);
                proof {
                    assert(self@ =~= old(self)@.update(li as int, b.remove(j as int)));
                    assert forall|i: int, k: int|
                        0 <= i < self@.len() && 0 <= k < self@[i].len() implies {
                        &&& in_domain(#[trigger] self@[i][k], self.spec_bits())
                        &&& leaf_of(self@[i][k], self.spec_bits(), self.spec_depth()) == i
                    } by {
                        if i == li && k >= j {
                            assert(self@[i][k] == old(self)@[i][k + 1]);
                        }
                    }
                }
                return Ok(());
            }
            j = j + 1;
        }
        assert(!self@[li as int].contains(p));
        Err(OctreeError::NotFound)
    }

    /// The points stored at exactly `(x, y, z)`, in bucket order.
    /// `InvalidCoordinate` where the coordinates lie outside the domain.
    pub fn lookup(&self, x: u32, y: u32, z: u32) -> (r: Result<Vec<Point>, OctreeError>)
        requires
            self.wf(),
        ensures
            !in_domain(Point { x, y, z, payload: 0 }, self.spec_bits()) ==> r == Err::<
                Vec<Point>,
                OctreeError,
            >(OctreeError::InvalidCoordinate),
            in_domain(Point { x, y, z, payload: 0 }, self.spec_bits()) ==> {
                let i = leaf_of(Point { x, y, z, payload: 0 }, self.spec_bits(), self.spec_depth());
                r is Ok && r->Ok_0@ == self@[i as int].filter(at_coords(x, y, z))
            },
    {
        let side = pow2_u64(self.bits);
        if x as u64 >= side || y as u64 >= side || z as u64 >= side {
            return Err(OctreeError::InvalidCoordinate);
        }
        let key = Point { x, y, z, payload: 0 };
        let leaf = leaf_u64(key, self.bits, self.depth);
        let nb = self.buckets.len();
        assert(leaf < nb as u64);
        let b = &self.buckets[leaf as usize];
        let mut out: Vec<Point> = Vec::new();
        let mut j: usize = 0;
        while j < b.len()
            invariant
                j <= b@.len(),
                out@ == b@.take(j as int).filter(at_coords(x, y, z)),
            decreases b@.len() - j,
        {
            let q = b[j];
            proof {
                reveal(Seq::filter);
                assert(b@.take(j + 1).drop_last() =~= b@.take(j as int));
            }
            if q.x == x && q.y == y && q.z == z {
                out.push(q);
            }
            j = j + 1;
        }
        assert(b@.take(b@.len() as int) =~= b@);
        Ok(out)
    }

    /// The points beneath the node with prefix `node` at depth `d`: the buckets
    /// of its leaves joined in leaf order (none where `node >= 8^d`).
    /// `InvalidDepth` where `d` is below the leaves.
    pub fn query(&self, node: u64, d: u32) -> (r: Result<Vec<Point>, OctreeError>)
        requires
            self.wf(),
        ensures
            d > self.spec_depth() ==> r == Err::<Vec<Point>, OctreeError>(OctreeError::InvalidDepth),
            d <= self.spec_depth() ==> r is Ok && r->Ok_0@ == self.beneath(node as nat, d as nat),
    {
        if d > self.depth {
            return Err(OctreeError::InvalidDepth);
        }
        let span = pow8_u64(self.depth - d);
        let n = pow8_u64(self.depth);
        let nodes = pow8_u64(d);
        proof {
            lemma_pow8_add(d as nat, (self.depth - d) as nat);
            assert(d + (self.depth - d) as nat == self.depth);
            lemma_pow_positive((self.depth - d) as nat);
        }
        let (lo, hi) = if node >= nodes {
            proof {
                assert(node as nat * span >= nodes * span) by (nonlinear_arith)
                    requires
                        node >= nodes,
                ;
            }
            (n, n)
        } else {
            proof {
                assert((node as nat + 1) * span <= nodes * span) by (nonlinear_arith)
                    requires
                        node < nodes,
                ;
                assert((node as nat + 1) * span == node as nat * span + span) by (nonlinear_arith);
            }
            (node * span, node * span + span)
        };
        let nb = self.buckets.len();
        assert(hi <= nb as u64);
        let mut out: Vec<Point> = Vec::new();
        let mut i: u64 = lo;
        while i < hi
            invariant
                lo <= i <= hi,
                hi <= nb,
                nb == self.buckets@.len(),
                out@ == concat(self@.subrange(lo as int, i as int)),
            decreases hi - i,
        {
            let b = &self.buckets[i as usize];
            let ghost start = out@;
            let mut j: usize = 0;
            while j < b.len()
                invariant
                    j <= b@.len(),
                    out@ == start + b@.take(j as int),
                decreases b@.len() - j,
            {
                out.push(b[j]);
                assert(b@.take(j + 1) =~= b@.take(j as int).push(b@[j as int]));
                j = j + 1;
            }
            proof {
                let s1 = self@.subrange(lo as int, i + 1);
                assert(s1.drop_last() =~= self@.subrange(lo as int, i as int));
                assert(b@.take(b@.len() as int) =~= b@);
                assert(self@[i as int] == self.buckets@[i as int]@);
                assert(s1.last() == b@);
            }
            i = i + 1;
        }
        Ok(out)
    }
}

impl Octree {
    /// The summary that `aggregate` makes of the points beneath the node with
    /// prefix `node` at depth `d`, handed over as `query` gives them: a bound,
    /// a count, a stand-in point, whatever the caller computes. It is made anew
    /// on each call, so it always reflects the current buckets.
    /// `InvalidDepth` where `d` is below the leaves.
    pub fn summarize<S, F: Fn(Vec<Point>) -> S>(&self, node: u64, d: u32, aggregate: F) -> (r:
        Result<S, OctreeError>)
        requires
            self.wf(),
            forall|v: Vec<Point>| aggregate.requires((v,)),
        ensures
            d > self.spec_depth() ==> r is Err && r->Err_0 == OctreeError::InvalidDepth,
            d <= self.spec_depth() ==> r is Ok && exists|v: Vec<Point>|
                v@ == self.beneath(node as nat, d as nat) && #[trigger] aggregate.ensures(
                    (v,),
                    r->Ok_0,
                ),
    {
        match self.query(node, d) {
            Ok(points) => {
                let ghost v = points;
                let s = aggregate(points);
                assert(aggregate.ensures((v,), s));
                assert(v@ == self.beneath(node as nat, d as nat));
                let r: Result<S, OctreeError> = Ok(s);
                assert(r->Ok_0 == s);
                r
            },
            Err(e) => Err(e),
        }
    }
}

/// What a filter keeps satisfies the predicate and comes from the sequence.
proof fn lemma_filter_members(s: Seq<Point>, f: spec_fn(Point) -> bool)
    ensures
        forall|v: Point| #[trigger] s.filter(f).contains(v) ==> f(v) && s.contains(v),
    decreases s.len(),
{
    reveal(Seq::filter);
    if s.len() > 0 {
        let d = s.drop_last();
        lemma_filter_members(d, f);
        assert forall|v: Point| #[trigger] s.filter(f).contains(v) implies f(v) && s.contains(v) by {
            let sub = d.filter(f);
            let out = s.filter(f);
            let j = choose|j: int| 0 <= j < out.len() && out[j] == v;
            if j < sub.len() {
                assert(sub[j] == v);
                assert(sub.contains(v));
                let m = choose|m: int| 0 <= m < d.len() && d[m] == v;
                assert(s[m] == v);
            } else {
                assert(v == s.last());
                assert(s[s.len() - 1] == v);
            }
        }
    }
}

proof fn lemma_concat_members(bs: Seq<Seq<Point>>)
    ensures
        forall|q: Point| #[trigger] concat(bs).contains(q) ==> exists|i: int, j: int|
            0 <= i < bs.len() && 0 <= j < bs[i].len() && #[trigger] bs[i][j] == q,
    decreases bs.len(),
{
    if bs.len() > 0 {
        let d = bs.drop_last();
        lemma_concat_members(d);
        assert forall|q: Point| #[trigger] concat(bs).contains(q) implies exists|i: int, j: int|
            0 <= i < bs.len() && 0 <= j < bs[i].len() && #[trigger] bs[i][j] == q by {
            let c = concat(d);
            let k = choose|k: int| 0 <= k < concat(bs).len() && concat(bs)[k] == q;
            if k < c.len() {
                assert(c[k] == q);
                assert(c.contains(q));
                let (i, j) = choose|i: int, j: int|
                    0 <= i < d.len() && 0 <= j < d[i].len() && #[trigger] d[i][j] == q;
                assert(bs[i][j] == q);
            } else {
                assert(bs[bs.len() - 1][k - c.len()] == q);
            }
        }
    }
}

/// Every point beneath the node with prefix `p` at depth `d`, as `query` gives
/// them, has an address whose top `3 * d` bits are `p`.
pub proof fn lemma_depth_invariant(t: Octree, d: nat, p: nat)
    requires
        t.wf(),
        d <= t.spec_depth(),
    ensures
        forall|q: Point| #[trigger]
            t.beneath(p, d).contains(q) ==> prefix_of(address_of(q, t.spec_bits()), t.spec_bits(), d) == p,
{
    let bits = t.spec_bits();
    let depth = t.spec_depth();
    let (lo, hi) = leaf_range(p, d, depth);
    let bs = t@.subrange(lo, hi);
    let span = pow8((depth - d) as nat);
    let low = pow8((bits - depth) as nat);
    lemma_pow_positive((depth - d) as nat);
    lemma_pow_positive((bits - depth) as nat);
    lemma_pow8_add((depth - d) as nat, (bits - depth) as nat);
    assert((depth - d) as nat + (bits - depth) as nat == (bits - d) as nat);
    assert((p + 1) * span == p * span + span) by (nonlinear_arith);
    assert(0 <= lo <= hi <= t@.len());
    assert(hi <= p * span + span);
    lemma_concat_members(bs);
    assert forall|q: Point| #[trigger] concat(bs).contains(q) implies prefix_of(
        address_of(q, bits),
        bits,
        d,
    ) == p by {
        let (i, j) = choose|i: int, j: int|
            0 <= i < bs.len() && 0 <= j < bs[i].len() && #[trigger] bs[i][j] == q;
        let g = lo + i;
        assert(t@[g][j] == q);
        let a = address_of(q, bits);
        assert(a / low == g);
        assert(p * span <= g < p * span + span);
        vstd::arithmetic::div_mod::lemma_div_denominator(a as int, low as int, span as int);
        assert(low * span == span * low) by (nonlinear_arith);
        assert(g / (span as int) == p) by (nonlinear_arith)
            requires
                p * span <= g < p * span + span,
                span > 0,
        ;
    }
}

proof fn lemma_filter_multiset(s: Seq<Point>, f: spec_fn(Point) -> bool, v: Point)
    ensures
        s.filter(f).to_multiset().count(v) == if f(v) {
            s.to_multiset().count(v)
        } else {
            0
        },
    decreases s.len(),
{
    broadcast use vstd::seq_lib::group_to_multiset_ensures;

    reveal(Seq::filter);
    if s.len() == 0 {
        assert(s.filter(f) =~= Seq::<Point>::empty());
    } else {
        let d = s.drop_last();
        lemma_filter_multiset(d, f, v);
        assert(d.push(s.last()) =~= s);
    }
}

/// Building from two inputs that hold the same points, in any order, puts the
/// same points, as many times each, in every bucket.
pub proof fn lemma_build_deterministic(first: Seq<Point>, second: Seq<Point>, bits: nat, depth: nat)
    requires
        first.to_multiset() == second.to_multiset(),
    ensures
        built(first, bits, depth).len() == built(second, bits, depth).len(),
        forall|i: int|
            0 <= i < built(first, bits, depth).len() ==> (#[trigger] built(first, bits, depth)[i]).to_multiset()
                == built(second, bits, depth)[i].to_multiset(),
{
    assert forall|i: int| 0 <= i < built(first, bits, depth).len() implies (#[trigger] built(
        first,
        bits,
        depth,
    )[i]).to_multiset() == built(second, bits, depth)[i].to_multiset() by {
        let f = in_leaf(bits, depth, i as nat);
        assert forall|v: Point|
            first.filter(f).to_multiset().count(v) == second.filter(f).to_multiset().count(v) by {
            lemma_filter_multiset(first, f, v);
            lemma_filter_multiset(second, f, v);
        }
        assert(first.filter(f).to_multiset() =~= second.filter(f).to_multiset());
    }
}

} // verus!
