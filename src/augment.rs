use vstd::prelude::*;

use crate::codec::{lemma_pow8_add, lemma_pow_positive, pow8, pow8_u64};
use crate::error::OctreeError;
use crate::tree::{in_domain, leaf_of, leaf_range, leaf_u64, Octree, Point};

verus! {

/// The slot of the first node at depth `d` when the nodes above the leaves are
/// laid out level by level: `8^0 + ... + 8^(d - 1)`.
pub open spec fn level_start(d: nat) -> nat
    decreases d,
{
    if d == 0 {
        0
    } else {
        level_start((d - 1) as nat) + pow8((d - 1) as nat)
    }
}

/// `s` is what `aggregate` made of a vector that holds `points`.
pub open spec fn summarizes<S, F: Fn(Vec<Point>) -> S>(aggregate: F, points: Seq<Point>, s: S) -> bool {
    exists|v: Vec<Point>| v@ == points && #[trigger] aggregate.ensures((v,), s)
}

proof fn lemma_level_start_grows(d: nat, e: nat)
    requires
        d < e,
    ensures
        level_start(d) + pow8(d) <= level_start(e),
    decreases e,
{
    if d + 1 < e {
        lemma_level_start_grows(d, (e - 1) as nat);
    }
}

/// Slots of distinct nodes are distinct.
proof fn lemma_slots_distinct(d: nat, p: nat, e: nat, q: nat)
    requires
        p < pow8(d),
        q < pow8(e),
        level_start(d) + p == level_start(e) + q,
    ensures
        d == e && p == q,
{
    if d < e {
        lemma_level_start_grows(d, e);
    } else if e < d {
        lemma_level_start_grows(e, d);
    }
}

/// The node at depth `d` above leaf `i` of a table of depth `depth`.
pub open spec fn ancestor(i: nat, d: nat, depth: nat) -> nat {
    i / pow8((depth - d) as nat)
}

/// A leaf outside the range of a node does not change what lies beneath it.
proof fn lemma_beneath_other(t: Octree, u: Octree, i: int, d: nat, p: nat)
    requires
        t.wf(),
        u.wf(),
        t.spec_depth() == u.spec_depth(),
        d <= t.spec_depth(),
        0 <= i < t@.len(),
        u@ == t@.update(i, u@[i]),
        p != ancestor(i as nat, d, t.spec_depth()),
    ensures
        u.beneath(p, d) == t.beneath(p, d),
{
    let depth = t.spec_depth();
    let (lo, hi) = leaf_range(p, d, depth);
    let span = pow8((depth - d) as nat);
    lemma_pow_positive((depth - d) as nat);
    assert((p + 1) * span == p * span + span) by (nonlinear_arith);
    if lo <= i < hi {
        assert(p * span <= i < p * span + span);
        assert(i / (span as int) == p) by (nonlinear_arith)
            requires
                p * span <= i < p * span + span,
                span > 0,
        ;
    }
    assert(u@.subrange(lo, hi) =~= t@.subrange(lo, hi));
}

/// A tree with a summary, made on demand by a caller's aggregator, for each
/// node above the leaves. A change to a bucket drops the summaries of the
/// nodes above it; a summary is made again when it is next read.
#[verifier::reject_recursive_types(S)]
#[verifier::reject_recursive_types(F)]
pub struct Augmented<S: Copy, F: Fn(Vec<Point>) -> S> {
    tree: Octree,
    aggregate: F,
    records: Vec<Option<S>>,
}

impl<S: Copy, F: Fn(Vec<Point>) -> S> Augmented<S, F> {
    /// The tree beneath the summaries.
    pub closed spec fn inner(&self) -> Octree {
        self.tree
    }

    /// The caller's aggregator.
    pub closed spec fn aggregator(&self) -> F {
        self.aggregate
    }

    /// The summary kept for the node with prefix `p` at depth `d`, if any.
    pub closed spec fn cached(&self, d: nat, p: nat) -> Option<S> {
        self.records@[(level_start(d) + p) as int]
    }

    /// One slot for each node above the leaves.
    pub closed spec fn layout(&self) -> bool {
        self.records@.len() == level_start(self.tree.spec_depth())
    }

    /// The tree is well formed, the aggregator takes any vector, and every
    /// summary kept is one the aggregator made of the points now beneath.
    pub open spec fn wf(&self) -> bool {
        &&& self.inner().wf()
        &&& self.layout()
        &&& forall|v: Vec<Point>| #[trigger] self.aggregator().requires((v,))
        &&& forall|d: nat, p: nat|
            d < self.inner().spec_depth() && p < pow8(d) && (#[trigger] self.cached(d, p)) is Some
                ==> summarizes(self.aggregator(), self.inner().beneath(p, d), self.cached(d, p)->Some_0)
    }

    /// Attaches `aggregate` to `tree`, with no summary made yet.
    pub fn new(tree: Octree, aggregate: F) -> (r: Self)
        requires
            tree.wf(),
            forall|v: Vec<Point>| aggregate.requires((v,)),
        ensures
            r.wf(),
            r.inner() == tree,
            r.aggregator() == aggregate,
    {
        let depth = tree.depth();
        let mut records: Vec<Option<S>> = Vec::new();
        let mut d: u32 = 0;
        while d < depth
            invariant
                d <= depth == tree.spec_depth(),
                tree.wf(),
                records@.len() == level_start(d as nat),
                forall|k: int| 0 <= k < records@.len() ==> (#[trigger] records@[k]) is None,
            decreases depth - d,
        {
            let n = pow8_u64(d);
            let mut k: u64 = 0;
            while k < n
                invariant
                    k <= n == pow8(d as nat),
                    records@.len() == level_start(d as nat) + k,
                    forall|m: int| 0 <= m < records@.len() ==> (#[trigger] records@[m]) is None,
                decreases n - k,
            {
                records.push(None);
                k = k + 1;
            }
            d = d + 1;
        }
        let r = Augmented { tree, aggregate, records };
        assert forall|d: nat, p: nat| d < r.inner().spec_depth() && p < pow8(d) implies (
        #[trigger] r.cached(d, p)) is None by {
            lemma_level_start_grows(d, depth as nat);
        }
        r
    }

    /// The tree beneath the summaries.
    pub fn tree(&self) -> (r: &Octree)
        ensures
            *r == self.inner(),
    {
        &self.tree
    }

    /// Drops the summaries of the nodes above leaf `leaf`.
    fn invalidate(&mut self, leaf: u64)
        requires
            old(self).inner().wf(),
            old(self).layout(),
            leaf < pow8(old(self).inner().spec_depth()),
        ensures
            final(self).inner() == old(self).inner(),
            final(self).aggregator() == old(self).aggregator(),
            final(self).layout(),
            forall|d: nat, p: nat|
                d < final(self).inner().spec_depth() && p < pow8(d) ==> #[trigger] final(self).cached(d, p)
                    == if p == ancestor(leaf as nat, d, final(self).inner().spec_depth()) {
                    None
                } else {
                    old(self).cached(d, p)
                },
    {
        let depth = self.tree.depth();
        let mut base: u64 = 0;
        let mut d: u32 = 0;
        let nr = self.records.len();
        while d < depth
            invariant
                d <= depth == self.tree.spec_depth(),
                self.tree == old(self).tree,
                self.tree.wf(),
                self.aggregate == old(self).aggregate,
                self.layout(),
                nr == self.records@.len(),
                leaf < pow8(depth as nat),
                base == level_start(d as nat),
                forall|e: nat, p: nat|
                    e < depth && p < pow8(e) ==> #[trigger] self.cached(e, p) == if e < d && p
                        == ancestor(leaf as nat, e, depth as nat) {
                        None
                    } else {
                        old(self).cached(e, p)
                    },
            decreases depth - d,
        {
            let span = pow8_u64(depth - d);
            proof {
                lemma_pow_positive((depth - d) as nat);
            }
            let k = leaf / span;
            proof {
                lemma_pow8_add(d as nat, (depth - d) as nat);
                assert(d + (depth - d) as nat == depth as nat);
                assert(k < pow8(d as nat)) by (nonlinear_arith)
                    requires
                        leaf < pow8(d as nat) * span,
                        span > 0,
                        k == leaf / span,
                ;
                lemma_level_start_grows(d as nat, depth as nat);
            }
            let slot = base + k;
            assert(slot < nr as u64);
            let ghost before = *self;
            self.records[slot as usize] = None;
            proof {
                assert forall|e: nat, p: nat| e < depth && p < pow8(e) implies #[trigger] self.cached(
                    e,
                    p,
                ) == if e < d + 1 && p == ancestor(leaf as nat, e, depth as nat) {
                    None
                } else {
                    old(self).cached(e, p)
                } by {
                    lemma_level_start_grows(e, depth as nat);
                    let old_value = before.cached(e, p);
                    if level_start(e) + p == slot {
                        lemma_slots_distinct(e, p, d as nat, k as nat);
                    } else {
                        assert(self.records@[(level_start(e) + p) as int] == before.records@[(
                        level_start(e) + p) as int]);
                    }
                }
            }
            let width = pow8_u64(d);
            proof {
                lemma_level_start_grows(d as nat, depth as nat);
            }
            base = base + width;
            d = d + 1;
        }
    }

    /// After the bucket of leaf `leaf` changed, what is kept is still right.
    proof fn lemma_kept_after_change(&self, prior: Self, leaf: nat)
        requires
            prior.wf(),
            self.inner().wf(),
            self.layout(),
            self.aggregator() == prior.aggregator(),
            self.inner().spec_depth() == prior.inner().spec_depth(),
            leaf < prior.inner()@.len(),
            self.inner()@ == prior.inner()@.update(leaf as int, self.inner()@[leaf as int]),
            forall|d: nat, p: nat|
                d < self.inner().spec_depth() && p < pow8(d) ==> #[trigger] self.cached(d, p)
                    == if p == ancestor(leaf, d, self.inner().spec_depth()) {
                    None
                } else {
                    prior.cached(d, p)
                },
        ensures
            self.wf(),
    {
        assert forall|d: nat, p: nat|
            d < self.inner().spec_depth() && p < pow8(d) && (#[trigger] self.cached(d, p)) is Some
                implies summarizes(self.aggregator(), self.inner().beneath(p, d), self.cached(d, p)->Some_0) by {
            assert(prior.cached(d, p) is Some);
            lemma_beneath_other(prior.inner(), self.inner(), leaf as int, d, p);
        }
    }

    /// Inserts `p` into the tree as `Octree::insert` does, and drops the
    /// summaries above its leaf.
    pub fn insert(&mut self, p: Point) -> (r: Result<(), OctreeError>)
        requires
            old(self).wf(),
        ensures
            final(self).wf(),
            final(self).aggregator() == old(self).aggregator(),
            final(self).inner().spec_bits() == old(self).inner().spec_bits(),
            final(self).inner().spec_depth() == old(self).inner().spec_depth(),
            !in_domain(p, old(self).inner().spec_bits()) ==> r == Err::<(), OctreeError>(
                OctreeError::InvalidCoordinate,
            ) && final(self).inner()@ == old(self).inner()@,
            in_domain(p, old(self).inner().spec_bits()) ==> {
                let i = leaf_of(p, old(self).inner().spec_bits(), old(self).inner().spec_depth()) as int;
                &&& r is Ok
                &&& final(self).inner()@ == old(self).inner()@.update(i, old(self).inner()@[i].push(p))
            },
    {
        let ghost prior = *self;
        let r = self.tree.insert(p);
        if r.is_ok() {
            let leaf = leaf_u64(p, self.tree.bits(), self.tree.depth());
            self.invalidate(leaf);
            proof {
                self.lemma_kept_after_change(prior, leaf as nat);
                assert(self.wf());
            }
        } else {
            assert(self.layout());
            assert(self.inner().wf());
            assert(self.aggregate == prior.aggregate);
            assert forall|v: Vec<Point>| #[trigger] self.aggregator().requires((v,)) by {
                assert(prior.aggregator().requires((v,)));
            }
            assert forall|d: nat, q: nat|
                d < self.inner().spec_depth() && q < pow8(d) && (#[trigger] self.cached(d, q)) is Some
                    implies summarizes(self.aggregator(), self.inner().beneath(q, d), self.cached(d, q)->Some_0) by {
                assert(self.records == prior.records);
                assert(self.cached(d, q) == prior.cached(d, q));
                assert(prior.cached(d, q) is Some);
                assert(self.inner().beneath(q, d) == prior.inner().beneath(q, d));
            }
        }
        r
    }

    /// What is kept stays right when the tree's buckets did not change.
    proof fn lemma_kept_unchanged(&self, prior: Self)
        requires
            prior.wf(),
            self.inner().wf(),
            self.records == prior.records,
            self.aggregate == prior.aggregate,
            self.inner().spec_depth() == prior.inner().spec_depth(),
            self.inner()@ == prior.inner()@,
        ensures
            self.wf(),
    {
        assert forall|v: Vec<Point>| #[trigger] self.aggregator().requires((v,)) by {
            assert(prior.aggregator().requires((v,)));
        }
        assert forall|d: nat, q: nat|
            d < self.inner().spec_depth() && q < pow8(d) && (#[trigger] self.cached(d, q)) is Some
                implies summarizes(self.aggregator(), self.inner().beneath(q, d), self.cached(d, q)->Some_0) by {
            assert(prior.cached(d, q) is Some);
            assert(self.inner().beneath(q, d) == prior.inner().beneath(q, d));
        }
    }

    /// Removes `p` from the tree as `Octree::remove` does, and drops the
    /// summaries above its leaf.
    pub fn remove(&mut self, p: Point) -> (r: Result<(), OctreeError>)
        requires
            old(self).wf(),
        ensures
            final(self).wf(),
            final(self).aggregator() == old(self).aggregator(),
            final(self).inner().spec_bits() == old(self).inner().spec_bits(),
            final(self).inner().spec_depth() == old(self).inner().spec_depth(),
            !in_domain(p, old(self).inner().spec_bits()) ==> r == Err::<(), OctreeError>(
                OctreeError::InvalidCoordinate,
            ) && final(self).inner()@ == old(self).inner()@,
            in_domain(p, old(self).inner().spec_bits()) ==> {
                let i = leaf_of(p, old(self).inner().spec_bits(), old(self).inner().spec_depth()) as int;
                let b = old(self).inner()@[i];
                &&& !b.contains(p) ==> r == Err::<(), OctreeError>(OctreeError::NotFound)
                    && final(self).inner()@ == old(self).inner()@
                &&& b.contains(p) ==> r is Ok && exists|j: int|
                    0 <= j < b.len() && b[j] == p && (forall|m: int| 0 <= m < j ==> b[m] != p)
                        && final(self).inner()@ == old(self).inner()@.update(i, #[trigger] b.remove(j))
            },
    {
        let ghost prior = *self;
        let r = self.tree.remove(p);
        if r.is_ok() {
            let leaf = leaf_u64(p, self.tree.bits(), self.tree.depth());
            self.invalidate(leaf);
            proof {
                self.lemma_kept_after_change(prior, leaf as nat);
            }
        } else {
            proof {
                self.lemma_kept_unchanged(prior);
            }
        }
        r
    }

    /// The summary of the node with prefix `node` at depth `d`, which lies
    /// above the leaves: the one kept if the buckets beneath have not changed
    /// since it was made, else a new one, which is then kept. `InvalidDepth`
    /// where `d` is not above the leaves, `InvalidCoordinate` where
    /// `node >= 8^d`.
    pub fn summary(&mut self, node: u64, d: u32) -> (r: Result<S, OctreeError>)
        requires
            old(self).wf(),
        ensures
            final(self).wf(),
            final(self).inner() == old(self).inner(),
            final(self).aggregator() == old(self).aggregator(),
            d >= old(self).inner().spec_depth() ==> r == Err::<S, OctreeError>(
                OctreeError::InvalidDepth,
            ),
            d < old(self).inner().spec_depth() && node >= pow8(d as nat) ==> r == Err::<
                S,
                OctreeError,
            >(OctreeError::InvalidCoordinate),
            d < old(self).inner().spec_depth() && node < pow8(d as nat) ==> r is Ok && summarizes(
                old(self).aggregator(),
                old(self).inner().beneath(node as nat, d as nat),
                r->Ok_0,
            ),
    {
        let depth = self.tree.depth();
        if d >= depth {
            return Err(OctreeError::InvalidDepth);
        }
        if node >= pow8_u64(d) {
            return Err(OctreeError::InvalidCoordinate);
        }
        let nr = self.records.len();
        let mut base: u64 = 0;
        let mut e: u32 = 0;
        while e < d
            invariant
                e <= d < depth == self.tree.spec_depth(),
                self.tree.wf(),
                nr == self.records@.len() == level_start(depth as nat),
                base == level_start(e as nat),
            decreases d - e,
        {
            let width = pow8_u64(e);
            proof {
                lemma_level_start_grows(e as nat, depth as nat);
            }
            base = base + width;
            e = e + 1;
        }
        proof {
            lemma_level_start_grows(d as nat, depth as nat);
        }
        let slot = base + node;
        assert(slot < nr as u64);
        match self.records[slot as usize] {
            Some(s) => {
                assert(self.cached(d as nat, node as nat) == Some(s));
                Ok(s)
            },
            None => {
                let points = match self.tree.query(node, d) {
                    Ok(points) => points,
                    Err(e) => {
                        return Err(e);
                    },
                };
                let ghost v = points;
                assert(self.aggregator().requires((points,)));
                let s = (self.aggregate)(points);
                assert(self.aggregate.ensures((v,), s));
                let ghost before = *self;
                self.records[slot as usize] = Some(s);
                proof {
                    assert(summarizes(self.aggregate, before.tree.beneath(node as nat, d as nat), s));
                    assert(self.layout());
                    assert forall|w: Vec<Point>| #[trigger] self.aggregator().requires((w,)) by {
                        assert(before.aggregator().requires((w,)));
                    }
                    assert forall|f: nat, q: nat|
                        f < self.inner().spec_depth() && q < pow8(f) && (#[trigger] self.cached(
                            f,
                            q,
                        )) is Some implies summarizes(
                        self.aggregator(),
                        self.inner().beneath(q, f),
                        self.cached(f, q)->Some_0,
                    ) by {
                        lemma_level_start_grows(f, depth as nat);
                        if level_start(f) + q == slot {
                            lemma_slots_distinct(f, q, d as nat, node as nat);
                        } else {
                            assert(self.cached(f, q) == before.cached(f, q));
                        }
                    }
                }
                let r: Result<S, OctreeError> = Ok(s);
                assert(r->Ok_0 == s);
                r
            },
        }
    }
}

} // verus!
