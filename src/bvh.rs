//! Bounding-volume hierarchy over primitive indices, and nearest-hit search.
//!
//! The geometry itself stays with the caller: a leaf is the index of a
//! primitive, each node carries a caller-chosen box value `B`, and a search
//! asks two caller oracles, one for the nearest hit of a primitive within a
//! range of distance keys, one for whether a ray meets a box within a range.
use vstd::prelude::*;
use crate::order::KeyRange;
use crate::sort::{lemma_same_elements, lemma_sort_by, sort_by, sort_by_start, start_key};

verus! {

/// A hit reported by a primitive: its distance key and the caller's record.
pub struct Found<H> {
    pub distance: u32,
    pub hit: H,
}

/// A subtree of the hierarchy: one primitive, or an inner node.
pub enum BvhChild<B> {
    Leaf(usize),
    Node(Box<Bvh<B>>),
}

/// An inner node of the hierarchy with its bounding box.
pub struct Bvh<B> {
    pub bbox: B,
    pub left: BvhChild<B>,
    pub right: BvhChild<B>,
}

/// The distance of an optional hit.
pub open spec fn dist_of<H>(r: Option<Found<H>>) -> Option<u32> {
    match r {
        Some(f) => Some(f.distance),
        None => None,
    }
}

/// The distance that a leaf oracle reports for a query.
pub open spec fn leaf_model<H, L: Fn(usize, KeyRange) -> Option<Found<H>>>(
    leaf: L,
    i: usize,
    t: KeyRange,
) -> Option<u32> {
    dist_of(choose|r: Option<Found<H>>| call_ensures(leaf, (i, t), r))
}

/// The answer that a box oracle gives for a query.
pub open spec fn box_model<B, X: Fn(&B, KeyRange) -> bool>(bx: X, b: B, t: KeyRange) -> bool {
    choose|r: bool| call_ensures(bx, (&b, t), r)
}

/// A leaf oracle that can be called on every query.
pub open spec fn leaf_callable<H, L: Fn(usize, KeyRange) -> Option<Found<H>>>(leaf: L) -> bool {
    forall|i: usize, t: KeyRange| call_requires(leaf, (i, t))
}

/// A leaf oracle whose distance depends on the query alone.
pub open spec fn leaf_functional<H, L: Fn(usize, KeyRange) -> Option<Found<H>>>(leaf: L) -> bool {
    forall|i: usize, t: KeyRange, r: Option<Found<H>>|
        call_ensures(leaf, (i, t), r) ==> dist_of(r) == leaf_model(leaf, i, t)
}

/// A box oracle that can be called on every query.
pub open spec fn box_callable<B, X: Fn(&B, KeyRange) -> bool>(bx: X) -> bool {
    forall|b: &B, t: KeyRange| call_requires(bx, (b, t))
}

/// A box oracle that answers by the query alone.
pub open spec fn box_functional<B, X: Fn(&B, KeyRange) -> bool>(bx: X) -> bool {
    forall|b: &B, t: KeyRange, r: bool| call_ensures(bx, (b, t), r) ==> r == box_model(bx, *b, t)
}

/// `f` is a hit that the leaf oracle reported for a query that starts at `start`.
pub open spec fn reported<H, L: Fn(usize, KeyRange) -> Option<Found<H>>>(
    leaf: L,
    start: u32,
    f: Found<H>,
) -> bool {
    exists|i: usize, q: KeyRange| q.start == start && call_ensures(leaf, (i, q), Some(f))
}

/// The range `t` with its end moved to `end`.
pub open spec fn up_to(t: KeyRange, end: u32) -> KeyRange {
    KeyRange { start: t.start, end }
}

/// The distance that a search of a subtree reports: a missed box ends the
/// search; otherwise the left side is searched first, and the right side only
/// closer than what the left side found.
pub open spec fn child_dist<B>(
    c: BvhChild<B>,
    t: KeyRange,
    leaf: spec_fn(usize, KeyRange) -> Option<u32>,
    bx: spec_fn(B, KeyRange) -> bool,
) -> Option<u32>
    decreases c,
{
    match c {
        BvhChild::Leaf(i) => leaf(i, t),
        BvhChild::Node(n) => if !bx(n.bbox, t) {
            None
        } else {
            match child_dist(n.left, t, leaf, bx) {
                Some(d) => match child_dist(n.right, up_to(t, d), leaf, bx) {
                    Some(e) => Some(e),
                    None => Some(d),
                },
                None => child_dist(n.right, t, leaf, bx),
            }
        },
    }
}

/// The distance that a linear search over primitives `0..n` reports: each
/// primitive in turn is asked for a hit closer than the best one so far.
pub open spec fn scan_dist(
    n: nat,
    t: KeyRange,
    leaf: spec_fn(usize, KeyRange) -> Option<u32>,
) -> Option<u32>
    decreases n,
{
    if n == 0 {
        None
    } else {
        let prev = scan_dist((n - 1) as nat, t, leaf);
        let end = match prev {
            Some(d) => d,
            None => t.end,
        };
        match leaf((n - 1) as usize, up_to(t, end)) {
            Some(d) => Some(d),
            None => prev,
        }
    }
}

impl<B> Bvh<B> {
    /// The search of this node as a subtree.
    pub open spec fn dist(
        self,
        t: KeyRange,
        leaf: spec_fn(usize, KeyRange) -> Option<u32>,
        bx: spec_fn(B, KeyRange) -> bool,
    ) -> Option<u32> {
        child_dist(BvhChild::Node(Box::new(self)), t, leaf, bx)
    }
}

/// What a summary oracle returns for the primitives `s`: the box of a node
/// over them, and the axis along which that box is longest.
pub open spec fn summary_model<B, F: Fn(&Vec<usize>) -> (B, usize)>(f: F, s: Seq<usize>) -> (B, usize) {
    (choose|v: &Vec<usize>, r: (B, usize)| v@ == s && #[trigger] call_ensures(f, (v,), r)).1
}

/// A summary oracle that can be called on every sequence of primitives,
/// answers by the sequence alone, and names one of the three axes.
pub open spec fn summary_oracle<B, F: Fn(&Vec<usize>) -> (B, usize)>(f: F) -> bool {
    &&& forall|v: &Vec<usize>| call_requires(f, (v,))
    &&& forall|v: &Vec<usize>, r: (B, usize)|
        call_ensures(f, (v,), r) ==> r == summary_model(f, v@) && r.1 < 3
}

/// The hierarchy over `items`: one item sits on both sides of its node, two
/// items on one side each; more are sorted stably by the start of their boxes
/// on the node's longest axis, and the lower half goes to the left subtree.
pub open spec fn built<B>(
    items: Seq<usize>,
    starts: Seq<[u32; 3]>,
    summ: spec_fn(Seq<usize>) -> (B, usize),
) -> Bvh<B>
    decreases items.len(),
{
    let (bbox, axis) = summ(items);
    if items.len() <= 1 {
        Bvh { bbox, left: BvhChild::Leaf(items[0]), right: BvhChild::Leaf(items[0]) }
    } else if items.len() == 2 {
        Bvh { bbox, left: BvhChild::Leaf(items[0]), right: BvhChild::Leaf(items[1]) }
    } else {
        let sorted = sort_by(items, |i: usize| start_key(starts, axis as int, i));
        let mid = items.len() / 2;
        Bvh {
            bbox,
            left: BvhChild::Node(Box::new(built(lower_half(sorted, mid), starts, summ))),
            right: BvhChild::Node(Box::new(built(upper_half(sorted, mid, items.len()), starts, summ))),
        }
    }
}

/// The first `mid` elements of `s`.
pub open spec fn lower_half(s: Seq<usize>, mid: nat) -> Seq<usize> {
    Seq::new(mid, |k: int| s[k])
}

/// The elements of `s` from `mid` up to `len`.
pub open spec fn upper_half(s: Seq<usize>, mid: nat, len: nat) -> Seq<usize> {
    Seq::new((len - mid) as nat, |k: int| s[k + mid])
}

/// The leaves of a built hierarchy are its items.
pub proof fn lemma_built_prims<B>(
    items: Seq<usize>,
    starts: Seq<[u32; 3]>,
    summ: spec_fn(Seq<usize>) -> (B, usize),
)
    requires
        items.len() >= 1,
    ensures
        built(items, starts, summ).prims() == items.to_set(),
    decreases items.len(),
{
    let tree = built(items, starts, summ);
    if items.len() == 1 {
        assert(items.to_set() =~= set![items[0]]) by {
            assert(items.contains(items[0]));
        }
        assert(tree.prims() =~= set![items[0]]);
    } else if items.len() == 2 {
        assert(items.to_set() =~= set![items[0], items[1]]) by {
            assert(items.contains(items[0]));
            assert(items.contains(items[1]));
        }
        assert(tree.prims() =~= set![items[0], items[1]]);
    } else {
        let axis = summ(items).1;
        let key = |i: usize| start_key(starts, axis as int, i);
        let sorted = sort_by(items, key);
        let mid = items.len() / 2;
        lemma_sort_by(items, key);
        let lo = lower_half(sorted, mid);
        let hi = upper_half(sorted, mid, items.len());
        lemma_built_prims(lo, starts, summ);
        lemma_built_prims(hi, starts, summ);
        assert(tree.left == BvhChild::Node(Box::new(built(lo, starts, summ))));
        assert(tree.right == BvhChild::Node(Box::new(built(hi, starts, summ))));
        lemma_same_elements(sorted, items);
        assert forall|v: usize| tree.prims().contains(v) <==> items.to_set().contains(v) by {
            if lo.contains(v) {
                let k = choose|k: int| 0 <= k < lo.len() && lo[k] == v;
                assert(sorted[k] == v);
            }
            if hi.contains(v) {
                let k = choose|k: int| 0 <= k < hi.len() && hi[k] == v;
                assert(sorted[k + mid] == v);
            }
            if items.contains(v) {
                assert(sorted.contains(v));
            }
            if sorted.contains(v) {
                let k = choose|k: int| 0 <= k < sorted.len() && sorted[k] == v;
                if k < mid {
                    assert(lo[k] == v);
                } else {
                    assert(hi[k - mid] == v);
                }
            }
        }
        assert(tree.prims() =~= items.to_set());
    }
}

impl<B> Bvh<B> {
    /// Builds the hierarchy over all primitives `0..starts.len()`, in that order.
    pub fn from_starts<F>(starts: &Vec<[u32; 3]>, summarize: &F) -> (r: Bvh<B>)
        where
            F: Fn(&Vec<usize>) -> (B, usize),
        requires
            starts@.len() >= 1,
            summary_oracle(*summarize),
        ensures
            r == built(
                Seq::new(starts@.len(), |k: int| k as usize),
                starts@,
                |s: Seq<usize>| summary_model(*summarize, s),
            ),
            forall|i: usize| r.prims().contains(i) <==> i < starts@.len(),
    {
        let n = starts.len();
        let mut items: Vec<usize> = Vec::new();
        let mut k: usize = 0;
        while k < n
            invariant
                k <= n,
                n == starts@.len(),
                items@ == Seq::new(k as nat, |j: int| j as usize),
            decreases n - k,
        {
            items.push(k);
            k += 1;
            assert(items@ =~= Seq::new(k as nat, |j: int| j as usize));
        }
        proof {
            lemma_built_prims(items@, starts@, |s: Seq<usize>| summary_model(*summarize, s));
            assert forall|i: usize| items@.to_set().contains(i) <==> i < n by {
                if i < n {
                    assert(items@[i as int] == i);
                }
            }
        }
        Bvh::build(items, starts, summarize)
    }

    /// Builds the hierarchy over `items`, whose box starts are given as bit
    /// patterns in `starts`; `summarize` gives the box of a node over a
    /// sequence of primitives and the axis along which it is longest.
    pub fn build<F>(items: Vec<usize>, starts: &Vec<[u32; 3]>, summarize: &F) -> (r: Bvh<B>)
        where
            F: Fn(&Vec<usize>) -> (B, usize),
        requires
            items@.len() >= 1,
            forall|k: int| 0 <= k < items@.len() ==> items@[k] < starts@.len(),
            summary_oracle(*summarize),
        ensures
            r == built(items@, starts@, |s: Seq<usize>| summary_model(*summarize, s)),
        decreases items@.len(),
    {
        let ghost summ = |s: Seq<usize>| summary_model(*summarize, s);
        let (bbox, axis) = summarize(&items);
        if items.len() == 1 {
            let i = items[0];
            Bvh { bbox, left: BvhChild::Leaf(i), right: BvhChild::Leaf(i) }
        } else if items.len() == 2 {
            let i = items[0];
            let j = items[1];
            Bvh { bbox, left: BvhChild::Leaf(i), right: BvhChild::Leaf(j) }
        } else {
            let ghost orig = items@;
            let ghost key = |i: usize| start_key(starts@, axis as int, i);
            let mut sorted = items;
            sort_by_start(&mut sorted, starts, axis);
            proof {
                lemma_sort_by(orig, key);
                lemma_same_elements(sorted@, orig);
                assert forall|k: int| 0 <= k < sorted@.len() implies sorted@[k] < starts@.len() by {
                    assert(sorted@.contains(sorted@[k]));
                    assert(orig.contains(sorted@[k]));
                }
            }
            let mid = sorted.len() / 2;
            let upper = sorted.split_off(mid);
            assert(sorted@ =~= lower_half(sort_by(orig, key), mid as nat));
            assert(upper@ =~= upper_half(sort_by(orig, key), mid as nat, orig.len()));
            let left = Bvh::build(sorted, starts, summarize);
            let right = Bvh::build(upper, starts, summarize);
            Bvh { bbox, left: BvhChild::Node(Box::new(left)), right: BvhChild::Node(Box::new(right)) }
        }
    }
}

/// Searches a subtree.
fn child_hit<B, H, L, X>(c: &BvhChild<B>, t: KeyRange, leaf: &L, bx: &X) -> (r: Option<Found<H>>)
    where
        L: Fn(usize, KeyRange) -> Option<Found<H>>,
        X: Fn(&B, KeyRange) -> bool,
    requires
        leaf_callable(*leaf),
        box_callable(*bx),
    ensures
        leaf_functional(*leaf) && box_functional(*bx) ==> dist_of(r) == child_dist(
            *c,
            t,
            |i: usize, q: KeyRange| leaf_model(*leaf, i, q),
            |b: B, q: KeyRange| box_model(*bx, b, q),
        ),
        r matches Some(f) ==> reported(*leaf, t.start, f),
    decreases c,
{
    match c {
        BvhChild::Leaf(i) => leaf(*i, t),
        BvhChild::Node(n) => n.hit(t, leaf, bx),
    }
}

impl<B> Bvh<B> {
    /// The nearest hit within `t` among the primitives below this node, as the
    /// oracles report them; `None` where the ray misses this node's box.
    pub fn hit<H, L, X>(&self, t: KeyRange, leaf: &L, bx: &X) -> (r: Option<Found<H>>)
        where
            L: Fn(usize, KeyRange) -> Option<Found<H>>,
            X: Fn(&B, KeyRange) -> bool,
        requires
            leaf_callable(*leaf),
            box_callable(*bx),
        ensures
            leaf_functional(*leaf) && box_functional(*bx) ==> dist_of(r) == self.dist(
                t,
                |i: usize, q: KeyRange| leaf_model(*leaf, i, q),
                |b: B, q: KeyRange| box_model(*bx, b, q),
            ),
            r matches Some(f) ==> reported(*leaf, t.start, f),
        decreases self,
    {
        let hit_box = bx(&self.bbox, t);
        if !hit_box {
            return None;
        }
        match child_hit(&self.left, t, leaf, bx) {
            Some(near) => {
                let closer = KeyRange::new(t.start, near.distance);
                match child_hit(&self.right, closer, leaf, bx) {
                    Some(nearer) => Some(nearer),
                    None => Some(near),
                }
            },
            None => child_hit(&self.right, t, leaf, bx),
        }
    }
}

/// The nearest hit within `t` among primitives `0..count`: each primitive in
/// turn is asked for a hit closer than the best one so far, and a later hit
/// replaces the best one.
pub fn scan_nearest<H, L>(count: usize, t: KeyRange, leaf: &L) -> (r: Option<Found<H>>)
    where
        L: Fn(usize, KeyRange) -> Option<Found<H>>,
    requires
        leaf_callable(*leaf),
    ensures
        leaf_functional(*leaf) ==> dist_of(r) == scan_dist(
            count as nat,
            t,
            |i: usize, q: KeyRange| leaf_model(*leaf, i, q),
        ),
        r matches Some(f) ==> reported(*leaf, t.start, f),
{
    let mut best: Option<Found<H>> = None;
    let mut i: usize = 0;
    while i < count
        invariant
            i <= count,
            leaf_callable(*leaf),
            leaf_functional(*leaf) ==> dist_of(best) == scan_dist(
                i as nat,
                t,
                |i: usize, q: KeyRange| leaf_model(*leaf, i, q),
            ),
            best matches Some(f) ==> reported(*leaf, t.start, f),
        decreases count - i,
    {
        let end = match &best {
            Some(f) => f.distance,
            None => t.end,
        };
        let found = leaf(i, KeyRange::new(t.start, end));
        if found.is_some() {
            best = found;
        }
        i += 1;
    }
    best
}

/// The primitives at the leaves of a subtree.
pub open spec fn child_prims<B>(c: BvhChild<B>) -> Set<usize>
    decreases c,
{
    match c {
        BvhChild::Leaf(i) => set![i],
        BvhChild::Node(n) => child_prims(n.left).union(child_prims(n.right)),
    }
}

impl<B> Bvh<B> {
    /// The primitives at the leaves below this node.
    pub open spec fn prims(self) -> Set<usize> {
        child_prims(self.left).union(child_prims(self.right))
    }
}

/// Every box of a subtree bounds what lies below it: where the box oracle says
/// that a range misses the box, no primitive below reports a hit in that range.
pub open spec fn boxes_sound<B>(
    c: BvhChild<B>,
    leaf: spec_fn(usize, KeyRange) -> Option<u32>,
    bx: spec_fn(B, KeyRange) -> bool,
) -> bool
    decreases c,
{
    match c {
        BvhChild::Leaf(_) => true,
        BvhChild::Node(n) => {
            &&& forall|q: KeyRange, i: usize|
                !bx(n.bbox, q) && #[trigger] child_prims(c).contains(i) ==> #[trigger] leaf(i, q) is None
            &&& boxes_sound(n.left, leaf, bx)
            &&& boxes_sound(n.right, leaf, bx)
        },
    }
}

/// The leaf oracle answers queries that begin at `start` by a first crossing
/// per primitive: primitive `i` reports `first(i)` where that lies before the
/// query's end, and nothing otherwise.
pub open spec fn first_hits(
    leaf: spec_fn(usize, KeyRange) -> Option<u32>,
    start: u32,
    first: spec_fn(usize) -> Option<u32>,
) -> bool {
    forall|i: usize, end: u32|
        #[trigger] leaf(i, KeyRange { start, end }) == (match first(i) {
            Some(d) => if d < end { Some(d) } else { None },
            None => None,
        })
}

/// Whether primitive `i` crosses before `end`.
pub open spec fn crosses_before(first: spec_fn(usize) -> Option<u32>, i: usize, end: u32) -> bool {
    first(i) matches Some(d) && d < end
}

/// `r` is the nearest first crossing before `end` among the primitives of `s`.
pub open spec fn nearest_among(
    r: Option<u32>,
    s: Set<usize>,
    end: u32,
    first: spec_fn(usize) -> Option<u32>,
) -> bool {
    match r {
        None => forall|i: usize| #[trigger] s.contains(i) ==> !crosses_before(first, i, end),
        Some(d) => {
            &&& d < end
            &&& exists|i: usize| #[trigger] s.contains(i) && first(i) == Some(d)
            &&& forall|i: usize|
                #[trigger] s.contains(i) && crosses_before(first, i, end) ==> d <= first(i)->0
        },
    }
}

proof fn lemma_nearest_unique(
    r1: Option<u32>,
    r2: Option<u32>,
    s: Set<usize>,
    end: u32,
    first: spec_fn(usize) -> Option<u32>,
)
    requires
        nearest_among(r1, s, end, first),
        nearest_among(r2, s, end, first),
    ensures
        r1 == r2,
{
    if r1 is Some {
        let i1 = choose|i: usize| #[trigger] s.contains(i) && first(i) == r1;
        assert(crosses_before(first, i1, end));
    }
    if r2 is Some {
        let i2 = choose|i: usize| #[trigger] s.contains(i) && first(i) == r2;
        assert(crosses_before(first, i2, end));
    }
}

proof fn lemma_child_nearest<B>(
    c: BvhChild<B>,
    start: u32,
    end: u32,
    leaf: spec_fn(usize, KeyRange) -> Option<u32>,
    bx: spec_fn(B, KeyRange) -> bool,
    first: spec_fn(usize) -> Option<u32>,
)
    requires
        first_hits(leaf, start, first),
        boxes_sound(c, leaf, bx),
    ensures
        nearest_among(child_dist(c, KeyRange { start, end }, leaf, bx), child_prims(c), end, first),
    decreases c,
{
    let t = KeyRange { start, end };
    match c {
        BvhChild::Leaf(i) => {
            assert(leaf(i, t) == leaf(i, KeyRange { start, end }));
            assert(child_prims(c) =~= set![i]);
            assert(child_prims(c).contains(i));
        },
        BvhChild::Node(n) => {
            if !bx(n.bbox, t) {
                assert forall|i: usize| #[trigger] child_prims(c).contains(i) implies !crosses_before(first, i, end) by {
                    assert(leaf(i, t) is None);
                    assert(leaf(i, t) == leaf(i, KeyRange { start, end }));
                }
            } else {
                lemma_child_nearest(n.left, start, end, leaf, bx, first);
                match child_dist(n.left, t, leaf, bx) {
                    Some(d) => {
                        assert(up_to(t, d) == KeyRange { start, end: d });
                        lemma_child_nearest(n.right, start, d, leaf, bx, first);
                        let il = choose|i: usize| #[trigger] child_prims(n.left).contains(i) && first(i) == Some(d);
                        assert(child_prims(c).contains(il));
                        match child_dist(n.right, up_to(t, d), leaf, bx) {
                            Some(e) => {
                                let ir = choose|i: usize| #[trigger] child_prims(n.right).contains(i) && first(i) == Some(e);
                                assert(child_prims(c).contains(ir));
                                assert forall|i: usize|
                                    #[trigger] child_prims(c).contains(i) && crosses_before(first, i, end)
                                    implies e <= first(i)->0 by {
                                    if child_prims(n.left).contains(i) {
                                    } else {
                                        assert(child_prims(n.right).contains(i));
                                        if !crosses_before(first, i, d) {
                                        }
                                    }
                                }
                            },
                            None => {
                                assert forall|i: usize|
                                    #[trigger] child_prims(c).contains(i) && crosses_before(first, i, end)
                                    implies d <= first(i)->0 by {
                                    if child_prims(n.left).contains(i) {
                                    } else {
                                        assert(child_prims(n.right).contains(i));
                                    }
                                }
                            },
                        }
                    },
                    None => {
                        lemma_child_nearest(n.right, start, end, leaf, bx, first);
                        match child_dist(n.right, t, leaf, bx) {
                            Some(e) => {
                                let ir = choose|i: usize| #[trigger] child_prims(n.right).contains(i) && first(i) == Some(e);
                                assert(child_prims(c).contains(ir));
                                assert forall|i: usize|
                                    #[trigger] child_prims(c).contains(i) && crosses_before(first, i, end)
                                    implies e <= first(i)->0 by {
                                    if child_prims(n.left).contains(i) {
                                    } else {
                                        assert(child_prims(n.right).contains(i));
                                    }
                                }
                            },
                            None => {
                                assert forall|i: usize| #[trigger] child_prims(c).contains(i) implies !crosses_before(first, i, end) by {
                                    if child_prims(n.left).contains(i) {
                                    } else {
                                        assert(child_prims(n.right).contains(i));
                                    }
                                }
                            },
                        }
                    },
                }
            }
        },
    }
}

proof fn lemma_scan_nearest(
    n: nat,
    start: u32,
    end: u32,
    leaf: spec_fn(usize, KeyRange) -> Option<u32>,
    first: spec_fn(usize) -> Option<u32>,
)
    requires
        first_hits(leaf, start, first),
        n <= usize::MAX + 1,
    ensures
        nearest_among(
            scan_dist(n, KeyRange { start, end }, leaf),
            Set::new(|i: usize| i < n),
            end,
            first,
        ),
    decreases n,
{
    let t = KeyRange { start, end };
    let s = Set::new(|i: usize| i < n);
    if n > 0 {
        let m = (n - 1) as nat;
        let ps = Set::new(|i: usize| i < m);
        lemma_scan_nearest(m, start, end, leaf, first);
        let prev = scan_dist(m, t, leaf);
        let k = (n - 1) as usize;
        let cut = match prev {
            Some(d) => d,
            None => end,
        };
        assert(up_to(t, cut) == KeyRange { start, end: cut });
        assert(leaf(k, up_to(t, cut)) == leaf(k, KeyRange { start, end: cut }));
        match prev {
            Some(d) => {
                let ip = choose|i: usize| #[trigger] ps.contains(i) && first(i) == Some(d);
                assert(s.contains(ip));
            },
            None => {},
        }
        match scan_dist(n, t, leaf) {
            Some(e) => {
                if leaf(k, up_to(t, cut)) is Some {
                    assert(s.contains(k));
                }
                assert forall|i: usize| #[trigger] s.contains(i) && crosses_before(first, i, end)
                    implies e <= first(i)->0 by {
                    if i < m {
                        assert(ps.contains(i));
                    }
                }
            },
            None => {
                assert forall|i: usize| #[trigger] s.contains(i) implies !crosses_before(first, i, end) by {
                    if i < m {
                        assert(ps.contains(i));
                    }
                }
            },
        }
    }
}

/// The hierarchy finds what a linear search finds: where every primitive
/// answers with its first crossing from the query's start, every box bounds
/// what lies below it, and the leaves are exactly the primitives `0..n`, the
/// search of the tree and the linear search over `0..n` report the same
/// nearest distance, for every range.
pub proof fn lemma_bvh_matches_scan<B>(
    tree: Bvh<B>,
    n: nat,
    t: KeyRange,
    leaf: spec_fn(usize, KeyRange) -> Option<u32>,
    bx: spec_fn(B, KeyRange) -> bool,
    first: spec_fn(usize) -> Option<u32>,
)
    requires
        n <= usize::MAX + 1,
        first_hits(leaf, t.start, first),
        boxes_sound(BvhChild::Node(Box::new(tree)), leaf, bx),
        forall|i: usize| tree.prims().contains(i) <==> i < n,
    ensures
        tree.dist(t, leaf, bx) == scan_dist(n, t, leaf),
{
    let c = BvhChild::Node(Box::new(tree));
    assert(t == KeyRange { start: t.start, end: t.end });
    lemma_child_nearest(c, t.start, t.end, leaf, bx, first);
    lemma_scan_nearest(n, t.start, t.end, leaf, first);
    assert(child_prims(c) == tree.prims());
    assert(child_prims(c) =~= Set::new(|i: usize| i < n));
    lemma_nearest_unique(tree.dist(t, leaf, bx), scan_dist(n, t, leaf), child_prims(c), t.end, first);
}

} // verus!
