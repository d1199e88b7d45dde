use vstd::prelude::*;

use crate::codec::{
    deinterleave, deinterleave_u64, lemma_deinterleave_bound, lemma_pow2_add, lemma_pow2_monotone,
    lemma_pow8_max, lemma_pow8_monotone, pow2, pow2_u64, pow8, MAX_BITS,
};
use crate::error::OctreeError;
use crate::tree::Octree;

verus! {

/// What a traversal does at a node once the caller has looked at it.
#[derive(Debug, Clone, Copy, PartialEq, Eq, Structural)]
pub enum Visit {
    /// Go on with the next sibling, leaving the children unvisited.
    Skip,
    /// Visit the children, in slot order 0 to 7.
    Descend,
    /// End the whole traversal here.
    Stop,
}

/// A node of the implied tree: the cube of the addresses whose top
/// `3 * depth` bits are `prefix`.
#[derive(Debug, Clone, Copy, PartialEq, Eq, Structural)]
pub struct Node {
    pub depth: u32,
    pub prefix: u64,
}

/// The cube that a node covers: its lowest corner and its side.
#[derive(Debug, Clone, Copy, PartialEq, Eq, Structural)]
pub struct Cube {
    pub x: u32,
    pub y: u32,
    pub z: u32,
    pub side: u32,
}

/// The cube of the node `(d, p)` in a domain of `bits` bits per axis: the cell
/// coordinates of `p` at depth `d`, scaled by the side `2^(bits - d)`.
pub open spec fn cube_of(p: nat, d: nat, bits: nat) -> (nat, nat, nat, nat) {
    let t = deinterleave(p, d);
    let side = pow2((bits - d) as nat);
    (t.0 * side, t.1 * side, t.2 * side, side)
}

/// The root, which covers the whole domain.
pub open spec fn root() -> Node {
    Node { depth: 0, prefix: 0 }
}

/// Child `i` of `n`.
pub open spec fn child(n: Node, i: nat) -> Node {
    Node { depth: (n.depth + 1) as u32, prefix: (n.prefix * 8 + i) as u64 }
}

/// The nodes that a depth-first walk from `n` visits, in order, when `f` decides
/// at each node and nothing is entered below depth `limit`; and whether it was
/// stopped.
pub open spec fn walk(n: Node, f: spec_fn(Node) -> Visit, limit: nat) -> (Seq<Node>, bool)
    decreases (limit - n.depth) as nat, 9nat,
{
    if f(n) == Visit::Stop {
        (seq![n], true)
    } else if f(n) == Visit::Skip || n.depth >= limit {
        (seq![n], false)
    } else {
        let r = walk_children(n, 0, f, limit);
        (seq![n] + r.0, r.1)
    }
}

/// The walks from children `i` to 7 of `n`, joined, up to the first that is
/// stopped.
pub open spec fn walk_children(n: Node, i: nat, f: spec_fn(Node) -> Visit, limit: nat) -> (
    Seq<Node>,
    bool,
)
    decreases (limit - n.depth) as nat, (8 - i) as nat,
{
    if i >= 8 || n.depth >= limit || n.depth >= MAX_BITS {
        (seq![], false)
    } else {
        let c = walk(child(n, i), f, limit);
        if c.1 {
            c
        } else {
            let r = walk_children(n, i + 1, f, limit);
            (c.0 + r.0, r.1)
        }
    }
}

/// The deeper of the caller's limit and the leaves is never entered.
pub open spec fn effective_limit(depth_limit: nat, depth: nat) -> nat {
    if depth_limit < depth {
        depth_limit
    } else {
        depth
    }
}

/// Every decision that `decide` may return is the one `f` gives.
pub open spec fn agrees<F: Fn(Node) -> Visit>(decide: F, f: spec_fn(Node) -> Visit) -> bool {
    forall|m: Node, v: Visit| #[trigger] decide.ensures((m,), v) ==> v == f(m)
}

fn walk_node<F: Fn(Node) -> Visit>(n: Node, decide: &F, limit: u32, out: &mut Vec<Node>) -> (r: bool)
    requires
        n.depth <= limit <= MAX_BITS,
        n.prefix < pow8(n.depth as nat),
        forall|m: Node| decide.requires((m,)),
    ensures
        forall|f: spec_fn(Node) -> Visit|
            agrees(*decide, f) ==> final(out)@ == old(out)@ + (#[trigger] walk(n, f, limit as nat)).0
                && r == walk(n, f, limit as nat).1,
    decreases limit - n.depth, 9nat,
{
    let v = decide(n);
    out.push(n);
    if v == Visit::Stop {
        return true;
    }
    if v == Visit::Skip || n.depth >= limit {
        return false;
    }
    let ghost mid = out@;
    let r = walk_children_of(n, 0, decide, limit, out);
    proof {
        assert forall|f: spec_fn(Node) -> Visit| agrees(*decide, f) implies out@ == old(out)@ + (
        #[trigger] walk(n, f, limit as nat)).0 && r == walk(n, f, limit as nat).1 by {
            assert(f(n) == v);
            let c = walk_children(n, 0, f, limit as nat);
            assert(out@ == mid + c.0);
            assert(out@ =~= old(out)@ + (seq![n] + c.0));
        }
    }
    r
}

fn walk_children_of<F: Fn(Node) -> Visit>(
    n: Node,
    i: u32,
    decide: &F,
    limit: u32,
    out: &mut Vec<Node>,
) -> (r: bool)
    requires
        n.depth <= limit <= MAX_BITS,
        n.prefix < pow8(n.depth as nat),
        i <= 8,
        forall|m: Node| decide.requires((m,)),
    ensures
        forall|f: spec_fn(Node) -> Visit|
            agrees(*decide, f) ==> final(out)@ == old(out)@ + (#[trigger] walk_children(
                n,
                i as nat,
                f,
                limit as nat,
            )).0 && r == walk_children(n, i as nat, f, limit as nat).1,
    decreases limit - n.depth, 8 - i,
{
    if i >= 8 || n.depth >= limit {
        assert(old(out)@ + seq![] =~= out@);
        return false;
    }
    proof {
        lemma_pow8_monotone((n.depth + 1) as nat, MAX_BITS as nat);
        lemma_pow8_max();
        assert(n.prefix * 8 + i < 8 * pow8(n.depth as nat)) by (nonlinear_arith)
            requires
                n.prefix < pow8(n.depth as nat),
                i < 8,
        ;
    }
    let c = Node { depth: n.depth + 1, prefix: n.prefix * 8 + i as u64 };
    assert(c == child(n, i as nat));
    let ghost before = out@;
    let stopped = walk_node(c, decide, limit, out);
    if stopped {
        proof {
            assert forall|f: spec_fn(Node) -> Visit| agrees(*decide, f) implies out@ == old(out)@ + (
            #[trigger] walk_children(n, i as nat, f, limit as nat)).0 && walk_children(
                n,
                i as nat,
                f,
                limit as nat,
            ).1 by {
                assert(walk(child(n, i as nat), f, limit as nat).1);
            }
        }
        return true;
    }
    let ghost mid = out@;
    let r = walk_children_of(n, i + 1, decide, limit, out);
    proof {
        assert forall|f: spec_fn(Node) -> Visit| agrees(*decide, f) implies out@ == old(out)@ + (
        #[trigger] walk_children(n, i as nat, f, limit as nat)).0 && r == walk_children(
            n,
            i as nat,
            f,
            limit as nat,
        ).1 by {
            let w = walk(child(n, i as nat), f, limit as nat);
            let rest = walk_children(n, (i + 1) as nat, f, limit as nat);
            assert(mid == before + w.0);
            assert(out@ == mid + rest.0);
            assert(out@ =~= old(out)@ + (w.0 + rest.0));
        }
    }
    r
}

impl Octree {
    /// The cube that node `n` covers, for a walk's caller to judge it by.
    /// `InvalidDepth` where the node lies below the leaves, `InvalidCoordinate`
    /// where its prefix is not below `8^depth`.
    pub fn cube(&self, n: Node) -> (r: Result<Cube, OctreeError>)
        requires
            self.wf(),
        ensures
            n.depth > self.spec_depth() ==> r == Err::<Cube, OctreeError>(
                OctreeError::InvalidDepth,
            ),
            n.depth <= self.spec_depth() && n.prefix >= pow8(n.depth as nat) ==> r == Err::<
                Cube,
                OctreeError,
            >(OctreeError::InvalidCoordinate),
            n.depth <= self.spec_depth() && n.prefix < pow8(n.depth as nat) ==> r is Ok && {
                let c = r->Ok_0;
                (c.x as nat, c.y as nat, c.z as nat, c.side as nat) == cube_of(
                    n.prefix as nat,
                    n.depth as nat,
                    self.spec_bits(),
                )
            },
    {
        if n.depth > self.depth() {
            return Err(OctreeError::InvalidDepth);
        }
        if n.prefix >= crate::codec::pow8_u64(n.depth) {
            return Err(OctreeError::InvalidCoordinate);
        }
        let bits = self.bits();
        let t = deinterleave_u64(n.prefix, n.depth);
        let side = pow2_u64(bits - n.depth);
        proof {
            let d = n.depth as nat;
            let s = pow2((bits - d) as nat);
            let top = pow2(d);
            crate::codec::lemma_pow_positive(d);
            crate::codec::lemma_pow_positive((bits - d) as nat);
            lemma_deinterleave_bound(n.prefix as nat, d);
            lemma_pow2_add(d, (bits - d) as nat);
            assert(d + (bits - d) as nat == bits as nat);
            lemma_pow2_monotone(bits as nat, MAX_BITS as nat);
            lemma_pow8_max();
            assert(t.0 * s < top * s && t.1 * s < top * s && t.2 * s < top * s) by (nonlinear_arith)
                requires
                    t.0 < top,
                    t.1 < top,
                    t.2 < top,
                    s >= 1,
            ;
            assert(s <= top * s) by (nonlinear_arith)
                requires
                    top >= 1,
                    s >= 1,
            ;
        }
        let side32 = side as u32;
        Ok(Cube { x: t.0 * side32, y: t.1 * side32, z: t.2 * side32, side: side32 })
    }

    /// Walks the tree depth first from the root, children in slot order, asking
    /// `decide` at each node whether to skip its subtree, descend into it or stop
    /// altogether; no node below `depth_limit` (nor below the leaves) is
    /// entered. Returns the nodes visited, in order. Each call starts afresh.
    pub fn visit<F: Fn(Node) -> Visit>(&self, decide: F, depth_limit: u32) -> (r: Vec<Node>)
        requires
            self.wf(),
            forall|m: Node| decide.requires((m,)),
        ensures
            forall|f: spec_fn(Node) -> Visit|
                agrees(decide, f) ==> r@ == (#[trigger] walk(
                    root(),
                    f,
                    effective_limit(depth_limit as nat, self.spec_depth()),
                )).0,
    {
        let d = self.depth();
        let limit = if depth_limit < d {
            depth_limit
        } else {
            d
        };
        let mut out: Vec<Node> = Vec::new();
        let _ = walk_node(Node { depth: 0, prefix: 0 }, &decide, limit, &mut out);
        proof {
            assert forall|f: spec_fn(Node) -> Visit| agrees(decide, f) implies out@ == (
            #[trigger] walk(root(), f, limit as nat)).0 by {
                assert(Seq::<Node>::empty() + walk(root(), f, limit as nat).0 =~= walk(
                    root(),
                    f,
                    limit as nat,
                ).0);
            }
        }
        out
    }
}

/// Descend above depth `k`, skip at depth `k` and below.
pub open spec fn down_to(k: nat) -> spec_fn(Node) -> Visit {
    |m: Node|
        if (m.depth as nat) < k {
            Visit::Descend
        } else {
            Visit::Skip
        }
}

/// Nodes at depth `k`.
pub open spec fn at_depth(k: nat) -> spec_fn(Node) -> bool {
    |m: Node| m.depth as nat == k
}

/// Nodes below depth `k`.
pub open spec fn deeper_than(k: nat) -> spec_fn(Node) -> bool {
    |m: Node| m.depth as nat > k
}

proof fn lemma_filter_single(n: Node, f: spec_fn(Node) -> bool)
    ensures
        seq![n].filter(f) == (if f(n) {
            seq![n]
        } else {
            Seq::<Node>::empty()
        }),
{
    reveal(Seq::filter);
    assert(seq![n].drop_last() =~= Seq::<Node>::empty());
    assert(Seq::<Node>::empty().filter(f) =~= Seq::<Node>::empty());
    assert(Seq::<Node>::empty().push(n) =~= seq![n]);
}

proof fn lemma_down_to_node(n: Node, k: nat, limit: nat)
    requires
        n.depth <= k <= limit <= MAX_BITS,
    ensures
        !walk(n, down_to(k), limit).1,
        walk(n, down_to(k), limit).0.filter(at_depth(k)).len() == pow8((k - n.depth) as nat),
        walk(n, down_to(k), limit).0.filter(deeper_than(k)).len() == 0,
    decreases (limit - n.depth) as nat, 9nat,
{
    let f = down_to(k);
    lemma_filter_single(n, at_depth(k));
    lemma_filter_single(n, deeper_than(k));
    assert(!deeper_than(k)(n));
    if n.depth as nat == k {
        assert(f(n) == Visit::Skip);
        assert(walk(n, f, limit) == (seq![n], false));
        assert(at_depth(k)(n));
        assert(pow8(0) == 1);
    } else {
        assert(f(n) == Visit::Descend);
        let r = walk_children(n, 0, f, limit);
        let w = seq![n] + r.0;
        assert(walk(n, f, limit) == (w, r.1));
        lemma_down_to_children(n, 0, k, limit);
        let p = pow8((k - n.depth - 1) as nat);
        assert(r.0.filter(at_depth(k)).len() == 8 * p);
        Seq::filter_distributes_over_add(seq![n], r.0, at_depth(k));
        Seq::filter_distributes_over_add(seq![n], r.0, deeper_than(k));
        assert(seq![n].filter(at_depth(k)).len() == 0);
        assert(seq![n].filter(deeper_than(k)).len() == 0);
        assert(w.filter(at_depth(k)).len() == 8 * p);
        assert(pow8((k - n.depth) as nat) == 8 * p);
    }
}

proof fn lemma_down_to_children(n: Node, i: nat, k: nat, limit: nat)
    requires
        n.depth < k <= limit <= MAX_BITS,
        i <= 8,
    ensures
        !walk_children(n, i, down_to(k), limit).1,
        walk_children(n, i, down_to(k), limit).0.filter(at_depth(k)).len() == (8 - i) * pow8(
            (k - n.depth - 1) as nat,
        ),
        walk_children(n, i, down_to(k), limit).0.filter(deeper_than(k)).len() == 0,
    decreases (limit - n.depth) as nat, (8 - i) as nat,
{
    let w = walk_children(n, i, down_to(k), limit);
    if i >= 8 {
        reveal(Seq::filter);
        assert(w.0 =~= Seq::<Node>::empty());
    } else {
        let c = child(n, i);
        lemma_down_to_node(c, k, limit);
        lemma_down_to_children(n, i + 1, k, limit);
        let a = walk(c, down_to(k), limit).0;
        let b = walk_children(n, i + 1, down_to(k), limit).0;
        Seq::filter_distributes_over_add(a, b, at_depth(k));
        Seq::filter_distributes_over_add(a, b, deeper_than(k));
        let p = pow8((k - n.depth - 1) as nat);
        assert((k - c.depth) as nat == (k - n.depth - 1) as nat);
        assert(p + (8 - (i + 1)) * p == (8 - i) * p) by (nonlinear_arith)
            requires
                i < 8,
        ;
    }
}

/// A walk that descends above depth `k` and skips at depth `k` runs to its end,
/// visits `8^k` nodes at depth `k`, and none deeper, whenever `k` is within the
/// limit.
pub proof fn lemma_level_of_detail(k: nat, limit: nat)
    requires
        k <= limit <= MAX_BITS,
    ensures
        !walk(root(), down_to(k), limit).1,
        walk(root(), down_to(k), limit).0.filter(at_depth(k)).len() == pow8(k),
        walk(root(), down_to(k), limit).0.filter(deeper_than(k)).len() == 0,
{
    lemma_down_to_node(root(), k, limit);
}

} // verus!
