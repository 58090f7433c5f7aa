use vstd::prelude::*;
use vstd::seq_lib::lemma_multiset_commutative;
use vstd::arithmetic::power2::{pow2, lemma_pow2_unfold, lemma_pow2_strictly_increases, lemma2_to64};

verus! {

/// Deepest level a node may sit at (the root is level 1); also the capacity
/// of a traversal stack.
pub const MAX_DEPTH: usize = 32;

/// What a node of the hierarchy holds: two child node indices, or a range
/// `[begin, end)` of the mesh's triangle array.
#[derive(Debug, Clone, Copy)]
pub enum NodeContent {
    Children((usize, usize)),
    Triangles((usize, usize)),
}

impl NodeContent {
    pub open spec fn is_leaf(self) -> bool {
        match self {
            NodeContent::Triangles(_) => true,
            NodeContent::Children(_) => false,
        }
    }

    /// Whether this is a leaf whose range holds triangle position `t`.
    pub open spec fn holds(self, t: int) -> bool {
        match self {
            NodeContent::Triangles((b, e)) => b <= t < e,
            NodeContent::Children(_) => false,
        }
    }
}

/// Selects, position by position, the items of `s` whose flag equals `side`,
/// keeping their order.
pub open spec fn kept<T>(s: Seq<T>, flags: Seq<bool>, side: bool) -> Seq<T>
    decreases s.len(),
{
    if s.len() == 0 {
        Seq::empty()
    } else {
        let rest = kept(s.drop_last(), flags, side);
        if flags[s.len() - 1] == side {
            rest.push(s.last())
        } else {
            rest
        }
    }
}

proof fn lemma_kept_split_multiset<T>(s: Seq<T>, flags: Seq<bool>)
    ensures
        (kept(s, flags, true) + kept(s, flags, false)).to_multiset() == s.to_multiset(),
        kept(s, flags, true).len() + kept(s, flags, false).len() == s.len(),
    decreases s.len(),
{
    broadcast use vstd::seq_lib::group_to_multiset_ensures;
    lemma_multiset_commutative(kept(s, flags, true), kept(s, flags, false));
    if s.len() > 0 {
        let p = s.drop_last();
        lemma_kept_split_multiset(p, flags);
        lemma_multiset_commutative(kept(p, flags, true), kept(p, flags, false));
        assert(s =~= p.push(s.last()));
    }
}

pub(crate) proof fn lemma_permutation_keeps_indices_ok(n: nat, a: Seq<[usize; 3]>, b: Seq<[usize; 3]>)
    requires
        a.to_multiset() == b.to_multiset(),
        all_triangles_ok(n, a),
    ensures
        all_triangles_ok(n, b),
{
    broadcast use vstd::seq_lib::group_to_multiset_ensures;
    assert forall|k: int| 0 <= k < b.len() implies triangle_indices_ok(n, #[trigger] b[k]) by {
        assert(b.contains(b[k]));
        vstd::seq_lib::to_multiset_contains(b, b[k]);
        vstd::seq_lib::to_multiset_contains(a, b[k]);
        assert(a.contains(b[k]));
        let j = choose|j: int| 0 <= j < a.len() && a[j] == b[k];
        assert(triangle_indices_ok(n, a[j]));
    }
}

/// Stable two-way partition of `items[start..start + flags.len()]`: the items
/// flagged `true` first, then those flagged `false`, each group in its
/// former order. Returns the size of the first group.
fn partition_stable<T: Copy>(items: &mut Vec<T>, flags: &Vec<bool>, start: usize) -> (left: usize)
    requires
        start + flags@.len() <= old(items)@.len(),
    ensures
        left == kept(old(items)@.subrange(start as int, start + flags@.len()), flags@, true).len(),
        final(items)@ == old(items)@.subrange(0, start as int)
            + kept(old(items)@.subrange(start as int, start + flags@.len()), flags@, true)
            + kept(old(items)@.subrange(start as int, start + flags@.len()), flags@, false)
            + old(items)@.subrange(start + flags@.len(), old(items)@.len() as int),
        final(items)@.to_multiset() == old(items)@.to_multiset(),
{
    let ghost s = items@.subrange(start as int, start + flags@.len());
    let count = flags.len();
    let mut lefts: Vec<T> = Vec::new();
    let mut rights: Vec<T> = Vec::new();
    let mut i: usize = 0;
    while i < count
        invariant
            i <= count,
            count == flags@.len(),
            start + count <= items.len(),
            items@ == old(items)@,
            s == old(items)@.subrange(start as int, start + count),
            lefts@ == kept(s.take(i as int), flags@, true),
            rights@ == kept(s.take(i as int), flags@, false),
        decreases count - i,
    {
        let item = items[start + i];
        assert(s.take(i + 1).drop_last() =~= s.take(i as int));
        if flags[i] {
            lefts.push(item);
        } else {
            rights.push(item);
        }
        i = i + 1;
    }
    assert(s.take(count as int) =~= s);
    let left = lefts.len();
    let ghost merged = lefts@ + rights@;
    proof { lemma_kept_split_multiset(s, flags@); }
    let mut k: usize = 0;
    while k < count
        invariant
            k <= count,
            count == flags@.len(),
            start + count <= items.len(),
            items@.len() == old(items)@.len(),
            merged.len() == count,
            merged == lefts@ + rights@,
            lefts@.len() == left,
            forall|q: int| 0 <= q < start ==> items@[q] == old(items)@[q],
            forall|q: int| start <= q < start + k ==> items@[q] == merged[q - start],
            forall|q: int| start + k <= q < items@.len() ==> items@[q] == old(items)@[q],
        decreases count - k,
    {
        let item = if k < left { lefts[k] } else { rights[k - left] };
        items.set(start + k, item);
        k = k + 1;
    }
    let ghost before = old(items)@.subrange(0, start as int);
    let ghost after = old(items)@.subrange(start + count, old(items)@.len() as int);
    assert(items@ =~= before + merged + after);
    assert(old(items)@ =~= before + s + after);
    proof {
        broadcast use vstd::seq_lib::group_to_multiset_ensures;
        lemma_multiset_commutative(before + merged, after);
        lemma_multiset_commutative(before, merged);
        lemma_multiset_commutative(before + s, after);
        lemma_multiset_commutative(before, s);
    }
    left
}

/// A node of the hierarchy: its bounding box and what it holds.
#[derive(Debug, Clone, Copy)]
pub struct BVHNode<B> {
    pub aabb: B,
    pub content: NodeContent,
}

/// Every leaf range lies within `[0, n)`.
pub open spec fn leaves_within<B>(nodes: Seq<BVHNode<B>>, n: int) -> bool {
    forall|i: int|
        0 <= i < nodes.len() ==> match #[trigger] nodes[i].content {
            NodeContent::Triangles((b, e)) => b <= e <= n,
            NodeContent::Children(_) => true,
        }
}

/// No triangle position lies in the ranges of two different leaves.
pub open spec fn leaves_disjoint<B>(nodes: Seq<BVHNode<B>>) -> bool {
    forall|i: int, j: int, t: int|
        0 <= i < nodes.len() && 0 <= j < nodes.len() && #[trigger] nodes[i].content.holds(t)
            && #[trigger] nodes[j].content.holds(t) ==> i == j
}

/// Every triangle position in `[0, n)` lies in the range of some leaf.
pub open spec fn leaves_cover<B>(nodes: Seq<BVHNode<B>>, n: int) -> bool {
    forall|t: int| 0 <= t < n ==> #[trigger] covered(nodes, t)
}

/// Some leaf's range holds triangle position `t`.
pub open spec fn covered<B>(nodes: Seq<BVHNode<B>>, t: int) -> bool {
    exists|i: int| 0 <= i < nodes.len() && #[trigger] nodes[i].content.holds(t)
}

/// The leaf ranges, taken together, are exactly `[0, n)`, with no overlap.
pub open spec fn leaves_partition<B>(nodes: Seq<BVHNode<B>>, n: int) -> bool {
    &&& leaves_within(nodes, n)
    &&& leaves_disjoint(nodes)
    &&& leaves_cover(nodes, n)
}

/// Number of triangles in a leaf's range; zero for an inner node.
pub open spec fn range_len(c: NodeContent) -> int {
    match c {
        NodeContent::Triangles((b, e)) => e - b,
        NodeContent::Children(_) => 0,
    }
}

/// Children sit after their parent, one level deeper.
pub open spec fn links_ok<B>(nodes: Seq<BVHNode<B>>, levels: Seq<int>) -> bool {
    forall|i: int|
        0 <= i < nodes.len() ==> match #[trigger] nodes[i].content {
            NodeContent::Children((l, r)) => i < l < nodes.len() && i < r < nodes.len() && l != r
                && levels[l as int] == levels[i] + 1 && levels[r as int] == levels[i] + 1,
            NodeContent::Triangles(_) => true,
        }
}

/// Each child records the node it hangs from.
pub open spec fn parents_ok<B>(nodes: Seq<BVHNode<B>>, parents: Seq<int>) -> bool {
    forall|i: int|
        0 <= i < nodes.len() ==> match #[trigger] nodes[i].content {
            NodeContent::Children((l, r)) => parents[l as int] == i && parents[r as int] == i,
            NodeContent::Triangles(_) => true,
        }
}

/// A leaf spans its range; an inner node spans its left child's range
/// followed by its right child's.
pub open spec fn spans_ok<B>(nodes: Seq<BVHNode<B>>, spans: Seq<(int, int)>) -> bool {
    forall|i: int|
        0 <= i < nodes.len() ==> match #[trigger] nodes[i].content {
            NodeContent::Triangles((b, e)) => spans[i] == (b as int, e as int),
            NodeContent::Children((l, r)) => spans[l as int].0 == spans[i].0 && spans[l as int].1 == spans[r as int].0
                && spans[r as int].1 == spans[i].1,
        }
}

/// Only the root can be a leaf with an empty range.
pub open spec fn empty_leaves_at_root<B>(nodes: Seq<BVHNode<B>>) -> bool {
    forall|i: int| 0 <= i < nodes.len() && #[trigger] nodes[i].content.is_leaf() && range_len(nodes[i].content) == 0
        ==> i == 0
}

/// Children sit after their parent and are two different nodes.
pub open spec fn tree_shaped<B>(nodes: Seq<BVHNode<B>>) -> bool {
    forall|i: int|
        0 <= i < nodes.len() ==> match #[trigger] nodes[i].content {
            NodeContent::Children((l, r)) => i < l < nodes.len() && i < r < nodes.len() && l != r,
            NodeContent::Triangles(_) => true,
        }
}

/// Whether node `c` is a child of node `i`.
pub open spec fn child_of<B>(nodes: Seq<BVHNode<B>>, c: int, i: int) -> bool {
    match nodes[i].content {
        NodeContent::Children((l, r)) => l == c || r == c,
        NodeContent::Triangles(_) => false,
    }
}

/// No node is the child of two nodes, and the root of none.
pub open spec fn single_parents<B>(nodes: Seq<BVHNode<B>>) -> bool {
    &&& forall|i: int, j: int, c: int| 0 <= i < nodes.len() && 0 <= j < nodes.len()
        && #[trigger] child_of(nodes, c, i) && #[trigger] child_of(nodes, c, j) ==> i == j
    &&& forall|i: int| 0 <= i < nodes.len() ==> !#[trigger] child_of(nodes, 0, i)
}

/// Every node but the root is a child of the node recorded as its parent.
pub open spec fn children_of_parents<B>(nodes: Seq<BVHNode<B>>, parents: Seq<int>) -> bool {
    forall|y: int|
        0 < y < nodes.len() ==> 0 <= #[trigger] parents[y] < nodes.len() && match nodes[parents[y]].content {
            NodeContent::Children((l, r)) => l == y || r == y,
            NodeContent::Triangles(_) => false,
        }
}

/// The floating-point side of construction, supplied by the owner of the
/// vertex type. Nothing is assumed of the answers: the hierarchy is well
/// formed whatever they are.
pub trait BvhGeometry<V, B, C> {
    /// The centroid of one triangle.
    fn centroid(&self, vertices: &Vec<V>, triangle: &[usize; 3]) -> C
        requires
            triangle_indices_ok(vertices@.len(), *triangle),
    ;

    /// The padded box around all vertices.
    fn bounds(&self, vertices: &Vec<V>) -> B;

    /// For each triangle of `[start, end)`, whether it falls on the near side
    /// of the best splitting plane over that range.
    fn split_sides(&self, vertices: &Vec<V>, triangles: &Vec<[usize; 3]>, centroids: &Vec<C>, start: usize, end: usize) -> Vec<bool>
        requires
            start <= end <= triangles@.len(),
            centroids@.len() == triangles@.len(),
            all_triangles_ok(vertices@.len(), triangles@),
    ;

    /// The padded box around the vertices of triangles `[start, end)`.
    fn enclose(&self, vertices: &Vec<V>, triangles: &Vec<[usize; 3]>, start: usize, end: usize) -> B
        requires
            start <= end <= triangles@.len(),
            all_triangles_ok(vertices@.len(), triangles@),
    ;

    /// Whether splitting a node into the two given halves lowers its
    /// surface-area cost.
    fn split_pays(&self, node: &B, count: usize, left: &B, left_count: usize, right: &B, right_count: usize) -> bool;
}

/// `s` with `s[start..end]` stably partitioned by `flags`: the items flagged
/// `true` first.
pub open spec fn parted<T>(s: Seq<T>, flags: Seq<bool>, start: int, end: int) -> Seq<T> {
    s.subrange(0, start) + kept(s.subrange(start, end), flags, true) + kept(s.subrange(start, end), flags, false)
        + s.subrange(end, s.len() as int)
}

/// The items of `a` and `b` side by side.
pub open spec fn paired<A, D>(a: Seq<A>, b: Seq<D>) -> Seq<(A, D)> {
    Seq::new(a.len(), |i: int| (a[i], b[i]))
}

/// The bounds of a leaf's range; `(0, 0)` for an inner node.
pub open spec fn range_bounds(c: NodeContent) -> (usize, usize) {
    match c {
        NodeContent::Triangles((b, e)) => (b, e),
        NodeContent::Children(_) => (0, 0),
    }
}

/// `sides` is the answer the geometry gives for `[start, end)`.
pub open spec fn sides_answer<V, B, C, G: BvhGeometry<V, B, C>>(
    g: G,
    vertices: Vec<V>,
    triangles: Vec<[usize; 3]>,
    centroids: Vec<C>,
    start: usize,
    end: usize,
    sides: Vec<bool>,
) -> bool {
    call_ensures(G::split_sides, (&g, &vertices, &triangles, &centroids, start, end), sides)
}

/// The boxes the geometry gives for the halves `[start, start + k)` and
/// `[start + k, end)` of the partitioned array `moved`, and whether it judges
/// splitting `node_box` that way worth it.
pub open spec fn halves_answer<V, B, C, G: BvhGeometry<V, B, C>>(
    g: G,
    vertices: Vec<V>,
    moved: Vec<[usize; 3]>,
    node_box: B,
    start: usize,
    k: usize,
    end: usize,
    left: B,
    right: B,
    pays: bool,
) -> bool {
    &&& call_ensures(G::enclose, (&g, &vertices, &moved, start, (start + k) as usize), left)
    &&& call_ensures(G::enclose, (&g, &vertices, &moved, (start + k) as usize, end), right)
    &&& call_ensures(G::split_pays, (&g, &node_box, (end - start) as usize, &left, k, &right, (end - start - k) as usize), pays)
}

/// The geometry, asked about the leaf over `[start, end)` with box
/// `node_box` given the arrays `triangles` and `centroids`, declined to split
/// it: the sides it gave put every triangle on one side, or it judged the
/// split not worth it.
pub open spec fn split_declined<V, B, C, G: BvhGeometry<V, B, C>>(
    g: G,
    vertices: Vec<V>,
    node_box: B,
    start: usize,
    end: usize,
    triangles: Vec<[usize; 3]>,
    centroids: Vec<C>,
) -> bool {
    exists|sides: Vec<bool>| {
        let k = kept(triangles@.subrange(start as int, end as int), sides@, true).len() as int;
        &&& #[trigger] sides_answer(g, vertices, triangles, centroids, start, end, sides)
        &&& (sides@.len() != end - start || k == 0 || k == end - start || exists|moved: Vec<[usize; 3]>, left: B, right: B| {
            &&& moved@ == parted(triangles@, sides@, start as int, end as int)
            &&& #[trigger] halves_answer(g, vertices, moved, node_box, start, k as usize, end, left, right, false)
        })
    }
}

/// A leaf at `level` is settled: it holds fewer than two triangles, sits at
/// the deepest level, or the geometry declined to split it.
pub open spec fn leaf_settled<V, B, C, G: BvhGeometry<V, B, C>>(g: G, vertices: Vec<V>, node: BVHNode<B>, level: int) -> bool {
    let (start, end) = range_bounds(node.content);
    ||| end - start < 2
    ||| level >= MAX_DEPTH
    ||| exists|triangles: Vec<[usize; 3]>, centroids: Vec<C>|
        #[trigger] split_declined::<V, B, C, G>(g, vertices, node.aabb, start, end, triangles, centroids)
}

/// What one split step does to the leaf `index` over `[start, end)` at
/// `level`: it stays a leaf when the range has under two triangles, the
/// level is the deepest, the sides the geometry gives put every triangle on
/// one side, or the geometry judges the split not worth it; otherwise it
/// gets two new children at the end of the array, over `[start, start + k)`
/// and `[start + k, end)`, with the boxes the geometry gave.
pub open spec fn split_step<V, B, C, G: BvhGeometry<V, B, C>>(
    g: G,
    vertices: Vec<V>,
    triangles: Vec<[usize; 3]>,
    centroids: Vec<C>,
    before: Seq<BVHNode<B>>,
    index: int,
    level: int,
    after: BVH<B>,
) -> bool {
    let node = before[index];
    let (start, end) = range_bounds(node.content);
    let li = before.len() as int;
    let unchanged = after.node_seq() == before;
    if end - start < 2 || level >= MAX_DEPTH {
        unchanged
    } else {
        exists|sides: Vec<bool>| {
            let k = kept(triangles@.subrange(start as int, end as int), sides@, true).len() as int;
            &&& #[trigger] sides_answer(g, vertices, triangles, centroids, start, end, sides)
            &&& if sides@.len() == end - start && 0 < k < end - start {
                exists|moved: Vec<[usize; 3]>, left: B, right: B, pays: bool| {
                    &&& moved@ == parted(triangles@, sides@, start as int, end as int)
                    &&& #[trigger] halves_answer(g, vertices, moved, node.aabb, start, k as usize, end, left, right, pays)
                    &&& if pays {
                        &&& after.node_seq()[index].aabb == node.aabb
                        &&& after.node_seq()[index].content == NodeContent::Children((li as usize, (li + 1) as usize))
                        &&& after.node_seq()[li].aabb == left
                        &&& after.node_seq()[li + 1].aabb == right
                        &&& after.span(li) == (start as int, start + k)
                        &&& after.span(li + 1) == (start + k, end as int)
                    } else {
                        unchanged
                    }
                }
            } else {
                unchanged
            }
        }
    }
}

proof fn lemma_kept_len<A, D>(a: Seq<A>, b: Seq<D>, flags: Seq<bool>, side: bool)
    requires
        a.len() == b.len(),
    ensures
        kept(a, flags, side).len() == kept(b, flags, side).len(),
    decreases a.len(),
{
    if a.len() > 0 {
        lemma_kept_len(a.drop_last(), b.drop_last(), flags, side);
    }
}

proof fn lemma_kept_paired<A, D>(a: Seq<A>, b: Seq<D>, flags: Seq<bool>, side: bool)
    requires
        a.len() == b.len(),
    ensures
        paired(kept(a, flags, side), kept(b, flags, side)) == kept(paired(a, b), flags, side),
    decreases a.len(),
{
    if a.len() > 0 {
        let a1 = a.drop_last();
        let b1 = b.drop_last();
        lemma_kept_paired(a1, b1, flags, side);
        lemma_kept_len(a1, b1, flags, side);
        assert(paired(a, b).drop_last() =~= paired(a1, b1));
        assert(paired(kept(a, flags, side), kept(b, flags, side)) =~= kept(paired(a, b), flags, side));
    } else {
        assert(paired(kept(a, flags, side), kept(b, flags, side)) =~= kept(paired(a, b), flags, side));
    }
}

proof fn lemma_parted_multiset<T>(x: Seq<T>, flags: Seq<bool>, start: int, end: int)
    requires
        0 <= start <= end <= x.len(),
    ensures
        parted(x, flags, start, end).to_multiset() == x.to_multiset(),
        parted(x, flags, start, end).len() == x.len(),
{
    broadcast use vstd::seq_lib::group_to_multiset_ensures;
    let mid = x.subrange(start, end);
    let before = x.subrange(0, start);
    let after = x.subrange(end, x.len() as int);
    let moved = kept(mid, flags, true) + kept(mid, flags, false);
    lemma_kept_split_multiset(mid, flags);
    assert(parted(x, flags, start, end) =~= before + moved + after);
    assert(x =~= before + mid + after);
    lemma_multiset_commutative(before + moved, after);
    lemma_multiset_commutative(before, moved);
    lemma_multiset_commutative(before + mid, after);
    lemma_multiset_commutative(before, mid);
}

/// Partitioning two arrays by the same flags moves their items together.
proof fn lemma_parted_paired<A, D>(a: Seq<A>, b: Seq<D>, flags: Seq<bool>, start: int, end: int)
    requires
        a.len() == b.len(),
        0 <= start <= end <= a.len(),
    ensures
        paired(parted(a, flags, start, end), parted(b, flags, start, end)).to_multiset() == paired(a, b).to_multiset(),
{
    let ma = a.subrange(start, end);
    let mb = b.subrange(start, end);
    lemma_kept_paired(ma, mb, flags, true);
    lemma_kept_paired(ma, mb, flags, false);
    lemma_kept_len(ma, mb, flags, true);
    lemma_kept_len(ma, mb, flags, false);
    lemma_kept_split_multiset(ma, flags);
    lemma_kept_split_multiset(mb, flags);
    lemma_parted_multiset(a, flags, start, end);
    lemma_parted_multiset(b, flags, start, end);
    let pab = paired(a, b);
    assert(pab.subrange(start, end) =~= paired(ma, mb));
    lemma_parted_multiset(pab, flags, start, end);
    let lhs = paired(parted(a, flags, start, end), parted(b, flags, start, end));
    let rhs = parted(pab, flags, start, end);
    let kt = kept(ma, flags, true).len() as int;
    assert forall|i: int| 0 <= i < lhs.len() implies lhs[i] == rhs[i] by {
        if i < start {
        } else if i < start + kt {
            assert(kept(paired(ma, mb), flags, true)[i - start] == paired(kept(ma, flags, true), kept(mb, flags, true))[i - start]);
        } else if i < end {
            assert(kept(paired(ma, mb), flags, false)[i - start - kt] == paired(kept(ma, flags, false), kept(mb, flags, false))[i - start - kt]);
        }
    }
    assert(lhs =~= rhs);
}

/// The three vertex indices of a triangle are below `vertex_count`.
pub open spec fn triangle_indices_ok(vertex_count: nat, t: [usize; 3]) -> bool {
    t[0] < vertex_count && t[1] < vertex_count && t[2] < vertex_count
}

/// Every triangle's vertex indices are below `vertex_count`.
pub open spec fn all_triangles_ok(vertex_count: nat, triangles: Seq<[usize; 3]>) -> bool {
    forall|k: int| 0 <= k < triangles.len() ==> triangle_indices_ok(vertex_count, #[trigger] triangles[k])
}

/// Bounding-volume hierarchy over the triangle array of a mesh, stored as a
/// flat node array whose root is node 0.
pub struct BVH<B> {
    nodes: Vec<BVHNode<B>>,
    levels: Ghost<Seq<int>>,
    parents: Ghost<Seq<int>>,
    spans: Ghost<Seq<(int, int)>>,
    count: Ghost<nat>,
}

impl<B> BVH<B> {
    pub closed spec fn node_seq(&self) -> Seq<BVHNode<B>> {
        self.nodes@
    }

    /// Level of node `i` in the tree; the root is at level 1.
    pub closed spec fn level(&self, i: int) -> int {
        self.levels@[i]
    }

    /// The node that node `i` hangs from.
    pub closed spec fn parent(&self, i: int) -> int {
        self.parents@[i]
    }

    /// The triangle range covered by node `i`: its own range for a leaf, the
    /// two children's ranges side by side for an inner node.
    pub closed spec fn span(&self, i: int) -> (int, int) {
        self.spans@[i]
    }

    /// Length of the triangle array the leaf ranges index into.
    pub closed spec fn triangle_count(&self) -> nat {
        self.count@
    }

    pub closed spec fn wf(&self) -> bool {
        &&& self.nodes@.len() >= 1
        &&& self.levels@.len() == self.nodes@.len()
        &&& self.levels@[0] == 1
        &&& forall|i: int| 0 <= i < self.levels@.len() ==> 1 <= #[trigger] self.levels@[i] <= MAX_DEPTH
        &&& links_ok(self.nodes@, self.levels@)
        &&& self.parents@.len() == self.nodes@.len()
        &&& parents_ok(self.nodes@, self.parents@)
        &&& children_of_parents(self.nodes@, self.parents@)
        &&& empty_leaves_at_root(self.nodes@)
        &&& self.spans@.len() == self.nodes@.len()
        &&& spans_ok(self.nodes@, self.spans@)
        &&& leaves_partition(self.nodes@, self.count@ as int)
    }


    /// The leaf ranges of a well-formed hierarchy are pairwise disjoint and
    /// together are exactly `[0, triangle_count)`.
    pub proof fn lemma_leaf_ranges_partition(&self)
        requires
            self.wf(),
        ensures
            leaves_partition(self.node_seq(), self.triangle_count() as int),
    {
    }

    /// The node array is a tree rooted at node 0: children sit after their
    /// parent, no node has two parents, and only the root may be an empty
    /// leaf.
    pub proof fn lemma_tree_shape(&self)
        requires
            self.wf(),
        ensures
            tree_shaped(self.node_seq()),
            single_parents(self.node_seq()),
            empty_leaves_at_root(self.node_seq()),
            forall|y: int| 0 < y < self.node_seq().len()
                ==> 0 <= #[trigger] self.parent(y) < y && child_of(self.node_seq(), y, self.parent(y))
                    && self.level(y) == self.level(self.parent(y)) + 1,
            self.level(0) == 1,
    {
        let nodes = self.nodes@;
        assert forall|y: int| 0 < y < nodes.len()
            implies 0 <= #[trigger] self.parent(y) < y && child_of(nodes, y, self.parent(y))
                && self.level(y) == self.level(self.parent(y)) + 1 by {
            assert(children_of_parents(nodes, self.parents@));
            assert(links_ok(nodes, self.levels@));
            let q = self.parents@[y];
            assert(0 <= q < nodes.len());
            match nodes[q].content {
                NodeContent::Children((l, r)) => { assert(q < l && q < r); },
                NodeContent::Triangles(_) => {},
            }
        }
        assert(links_ok(nodes, self.levels@));
        assert(parents_ok(nodes, self.parents@));
        assert forall|i: int| 0 <= i < nodes.len() implies match #[trigger] nodes[i].content {
            NodeContent::Children((l, r)) => i < l < nodes.len() && i < r < nodes.len() && l != r,
            NodeContent::Triangles(_) => true,
        } by {}
        assert forall|i: int, j: int, c: int| 0 <= i < nodes.len() && 0 <= j < nodes.len()
            && #[trigger] child_of(nodes, c, i) && #[trigger] child_of(nodes, c, j) implies i == j by {
            assert(self.parents@[c] == i);
            assert(self.parents@[c] == j);
        }
        assert forall|i: int| 0 <= i < nodes.len() implies !#[trigger] child_of(nodes, 0, i) by {
            match nodes[i].content {
                NodeContent::Children((l, r)) => { assert(i < l && i < r); },
                NodeContent::Triangles(_) => {},
            }
        }
    }

    /// In a hierarchy over no triangles every leaf holds the empty range
    /// `[0, 0)`, so each step of a traversal yields that range.
    pub proof fn lemma_empty_mesh_leaves(&self)
        requires
            self.wf(),
            self.triangle_count() == 0,
        ensures
            forall|i: int| 0 <= i < self.node_seq().len() && #[trigger] self.node_seq()[i].content.is_leaf()
                ==> self.node_seq()[i].content == NodeContent::Triangles((0, 0)),
    {
        assert(leaves_within(self.nodes@, 0));
    }
}

impl<B: Copy> BVH<B> {
    /// Builds the hierarchy over `triangles`, permuting them in place so that
    /// every leaf covers a contiguous range.
    pub fn build<V, C: Copy, G: BvhGeometry<V, B, C>>(geometry: &G, vertices: &Vec<V>, triangles: &mut Vec<[usize; 3]>) -> (r: BVH<B>)
        requires
            all_triangles_ok(vertices@.len(), old(triangles)@),
        ensures
            r.wf(),
            r.triangle_count() == old(triangles)@.len(),
            leaves_partition(r.node_seq(), old(triangles)@.len() as int),
            final(triangles)@.to_multiset() == old(triangles)@.to_multiset(),
            old(triangles)@.len() < 2 ==> r.node_seq().len() == 1
                && r.node_seq()[0].content == NodeContent::Triangles((0, old(triangles)@.len() as usize)),
            tree_shaped(r.node_seq()),
            single_parents(r.node_seq()),
            empty_leaves_at_root(r.node_seq()),
            forall|y: int| 0 < y < r.node_seq().len()
                ==> 0 <= #[trigger] r.parent(y) < y && child_of(r.node_seq(), y, r.parent(y)),
            call_ensures(G::bounds, (geometry, vertices), r.node_seq()[0].aabb),
            forall|i: int| 0 <= i < r.node_seq().len() && #[trigger] r.node_seq()[i].content.is_leaf()
                ==> leaf_settled::<V, B, C, G>(*geometry, *vertices, r.node_seq()[i], r.level(i)),
            r.span(0) == (0int, old(triangles)@.len() as int),
            exists|centroids: Vec<C>| {
                &&& centroids@.len() == old(triangles)@.len()
                &&& forall|q: int| 0 <= q < centroids@.len()
                    ==> call_ensures(G::centroid, (geometry, vertices, &old(triangles)@[q]), #[trigger] centroids@[q])
                &&& #[trigger] split_step(*geometry, *vertices, *old(triangles), centroids,
                    seq![BVHNode { aabb: r.node_seq()[0].aabb, content: NodeContent::Triangles((0, old(triangles)@.len() as usize)) }],
                    0, 1, r)
            },
    {
        let n = triangles.len();
        let mut centroids: Vec<C> = Vec::new();
        let mut i: usize = 0;
        while i < n
            invariant
                i <= n,
                n == triangles@.len(),
                centroids@.len() == i,
                *triangles == *old(triangles),
                all_triangles_ok(vertices@.len(), triangles@),
                forall|q: int| 0 <= q < i ==> call_ensures(G::centroid, (geometry, vertices, &triangles@[q]), #[trigger] centroids@[q]),
            decreases n - i,
        {
            let c = geometry.centroid(vertices, &triangles[i]);
            centroids.push(c);
            i = i + 1;
        }
        let root_box = geometry.bounds(vertices);
        let root = BVHNode { aabb: root_box, content: NodeContent::Triangles((0, n)) };
        let mut nodes: Vec<BVHNode<B>> = Vec::new();
        nodes.push(root);
        let ghost first_level = Seq::<int>::empty().push(1);
        let ghost no_parent = Seq::<int>::empty().push(-1);
        let ghost first_span = Seq::<(int, int)>::empty().push((0int, n as int));
        let mut bvh = BVH {
            nodes,
            levels: Ghost(first_level),
            parents: Ghost(no_parent),
            spans: Ghost(first_span),
            count: Ghost(n as nat),
        };
        assert(bvh.nodes@[0].content.holds(0) || n == 0);
        assert(leaves_cover(bvh.nodes@, n as int)) by {
            assert forall|t: int| 0 <= t < n implies #[trigger] covered(bvh.nodes@, t) by {
                assert(bvh.nodes@[0].content.holds(t));
            }
        }
        let ghost cens = centroids;
        let ghost before = bvh;
        assert(range_bounds(before.node_seq()[0].content) == (0usize, n));
        bvh.divide(geometry, vertices, 0, 1, triangles, &mut centroids);
        proof {
            assert(before.node_seq().len() == 1);
            assert(before.node_seq() =~= seq![BVHNode { aabb: root_box, content: NodeContent::Triangles((0, n)) }]);
            assert(split_step(*geometry, *vertices, *old(triangles), cens, before.node_seq(), 0, 1, bvh));
            bvh.lemma_tree_shape();
        }
        bvh
    }

    fn divide<V, C: Copy, G: BvhGeometry<V, B, C>>(
        &mut self,
        geometry: &G,
        vertices: &Vec<V>,
        node_index: usize,
        depth: usize,
        triangles: &mut Vec<[usize; 3]>,
        centroids: &mut Vec<C>,
    )
        requires
            old(self).wf(),
            old(triangles)@.len() == old(self).triangle_count(),
            old(centroids)@.len() == old(triangles)@.len(),
            node_index < old(self).node_seq().len(),
            old(self).node_seq()[node_index as int].content.is_leaf(),
            old(self).level(node_index as int) == depth,
            all_triangles_ok(vertices@.len(), old(triangles)@),
        ensures
            all_triangles_ok(vertices@.len(), final(triangles)@),
            final(self).wf(),
            final(self).triangle_count() == old(self).triangle_count(),
            final(self).node_seq().len() >= old(self).node_seq().len(),
            forall|k: int| 0 <= k < old(self).node_seq().len() && k != node_index
                ==> final(self).node_seq()[k] == old(self).node_seq()[k],
            forall|k: int| 0 <= k < old(self).node_seq().len() ==> final(self).level(k) == old(self).level(k),
            final(triangles)@.to_multiset() == old(triangles)@.to_multiset(),
            final(triangles)@.len() == old(triangles)@.len(),
            final(centroids)@.len() == old(centroids)@.len(),
            forall|q: int| 0 <= q < old(triangles)@.len() && !old(self).node_seq()[node_index as int].content.holds(q)
                ==> final(triangles)@[q] == old(triangles)@[q],
            range_len(old(self).node_seq()[node_index as int].content) < 2 ==> final(self).node_seq() == old(self).node_seq(),
            paired(final(triangles)@, final(centroids)@).to_multiset() == paired(old(triangles)@, old(centroids)@).to_multiset(),
            forall|q: int| 0 <= q < old(centroids)@.len() && !old(self).node_seq()[node_index as int].content.holds(q)
                ==> final(centroids)@[q] == old(centroids)@[q],
            forall|k: int| 0 <= k < old(self).node_seq().len() ==> final(self).span(k) == old(self).span(k),
            final(self).node_seq()[node_index as int].aabb == old(self).node_seq()[node_index as int].aabb,
            split_step(*geometry, *vertices, *old(triangles), *old(centroids), old(self).node_seq(), node_index as int,
                depth as int, *final(self)),
            forall|i: int| (i == node_index || old(self).node_seq().len() <= i < final(self).node_seq().len())
                && #[trigger] final(self).node_seq()[i].content.is_leaf()
                ==> leaf_settled::<V, B, C, G>(*geometry, *vertices, final(self).node_seq()[i], final(self).level(i)),
        decreases MAX_DEPTH - depth,
    {
        let (start, end) = match self.nodes[node_index].content {
            NodeContent::Triangles((s, e)) => (s, e),
            NodeContent::Children(_) => { return; },
        };
        proof {
            assert(links_ok(self.nodes@, self.levels@));
            let c = self.nodes@[node_index as int].content;
            assert(match c { NodeContent::Triangles((b, e)) => b <= e <= self.count@, NodeContent::Children(_) => true });
        }
        if end - start < 2 || depth >= MAX_DEPTH {
            proof {
                assert(range_bounds(self.nodes@[node_index as int].content) == (start, end));
            }
            return;
        }
        let ghost vec0 = *triangles;
        let ghost cvec0 = *centroids;
        let sides = geometry.split_sides(vertices, triangles, centroids, start, end);
        assert(sides_answer(*geometry, *vertices, vec0, cvec0, start, end, sides));
        if sides.len() != end - start {
            proof {
                assert(range_bounds(self.nodes@[node_index as int].content) == (start, end));
                assert(split_declined::<V, B, C, G>(*geometry, *vertices, self.nodes@[node_index as int].aabb, start, end, vec0, cvec0));
            }
            return;
        }
        let ghost tri0 = triangles@;
        let ghost cen0 = centroids@;
        let left_count = partition_stable(triangles, &sides, start);
        partition_stable(centroids, &sides, start);
        proof {
            lemma_parted_paired(tri0, cen0, sides@, start as int, end as int);
            assert(triangles@ == parted(tri0, sides@, start as int, end as int));
            assert(centroids@ == parted(cen0, sides@, start as int, end as int));
            lemma_parted_multiset(cen0, sides@, start as int, end as int);
            lemma_kept_split_multiset(tri0.subrange(start as int, end as int), sides@);
            lemma_kept_split_multiset(cen0.subrange(start as int, end as int), sides@);
            lemma_permutation_keeps_indices_ok(vertices@.len(), tri0, triangles@);
        }
        assert forall|q: int| 0 <= q < tri0.len() && !(start <= q < end) implies triangles@[q] == tri0[q] by {
            let pre = tri0.subrange(0, start as int);
            let mid = kept(tri0.subrange(start as int, end as int), sides@, true) + kept(tri0.subrange(start as int, end as int), sides@, false);
            lemma_kept_split_multiset(tri0.subrange(start as int, end as int), sides@);
            assert(triangles@ =~= pre + mid + tri0.subrange(end as int, tri0.len() as int));
        }
        assert forall|q: int| 0 <= q < cen0.len() && !(start <= q < end) implies centroids@[q] == cen0[q] by {
            let pre = cen0.subrange(0, start as int);
            let mid = kept(cen0.subrange(start as int, end as int), sides@, true) + kept(cen0.subrange(start as int, end as int), sides@, false);
            lemma_kept_split_multiset(cen0.subrange(start as int, end as int), sides@);
            assert(centroids@ =~= pre + mid + cen0.subrange(end as int, cen0.len() as int));
        }
        if left_count == 0 || left_count == end - start {
            proof {
                assert(range_bounds(self.nodes@[node_index as int].content) == (start, end));
                assert(vec0@ == tri0);
                assert(left_count == kept(vec0@.subrange(start as int, end as int), sides@, true).len());
                assert(split_declined::<V, B, C, G>(*geometry, *vertices, self.nodes@[node_index as int].aabb, start, end, vec0, cvec0));
            }
            return;
        }
        let mid = start + left_count;
        let ghost moved = *triangles;
        let left_aabb = geometry.enclose(vertices, triangles, start, mid);
        let right_aabb = geometry.enclose(vertices, triangles, mid, end);
        let pays = geometry.split_pays(&self.nodes[node_index].aabb, end - start, &left_aabb, left_count, &right_aabb, end - mid);
        assert(halves_answer(*geometry, *vertices, moved, self.nodes@[node_index as int].aabb, start, left_count, end,
            left_aabb, right_aabb, pays));
        proof {
            assert(vec0 == *old(triangles));
            assert(cvec0 == *old(centroids));
            assert(vec0@ == tri0);
            assert(moved@ == parted(vec0@, sides@, start as int, end as int));
            assert(left_count == kept(vec0@.subrange(start as int, end as int), sides@, true).len());
            assert(old(self).node_seq()[node_index as int].aabb == self.nodes@[node_index as int].aabb);
            assert(range_bounds(old(self).node_seq()[node_index as int].content) == (start, end));
        }
        if !pays {
            proof {
                let k = kept(vec0@.subrange(start as int, end as int), sides@, true).len() as int;
                assert(0 < k < end - start);
                assert(sides@.len() == end - start);
                assert(self.nodes@ == old(self).nodes@);
                assert(halves_answer(*geometry, *vertices, moved, old(self).node_seq()[node_index as int].aabb, start,
                    k as usize, end, left_aabb, right_aabb, pays));
                assert(sides_answer(*geometry, *vertices, *old(triangles), *old(centroids), start, end, sides));
                assert(split_step(*geometry, *vertices, *old(triangles), *old(centroids), old(self).node_seq(),
                    node_index as int, depth as int, *self));
                assert(range_bounds(self.nodes@[node_index as int].content) == (start, end));
                assert(split_declined::<V, B, C, G>(*geometry, *vertices, self.nodes@[node_index as int].aabb, start, end, vec0, cvec0));
            }
            return;
        }
        let ghost old_nodes = self.nodes@;
        let ghost old_levels = self.levels@;
        let ghost old_parents = self.parents@;
        let ghost old_spans = self.spans@;
        let left_index = self.nodes.len();
        self.nodes.push(BVHNode { aabb: left_aabb, content: NodeContent::Triangles((start, mid)) });
        let right_index = self.nodes.len();
        self.nodes.push(BVHNode { aabb: right_aabb, content: NodeContent::Triangles((mid, end)) });
        let mut parent = self.nodes[node_index];
        parent.content = NodeContent::Children((left_index, right_index));
        self.nodes.set(node_index, parent);
        self.levels = Ghost(old_levels.push(depth as int + 1).push(depth as int + 1));
        self.parents = Ghost(old_parents.push(node_index as int).push(node_index as int));
        self.spans = Ghost(old_spans.push((start as int, mid as int)).push((mid as int, end as int)));
        proof {
            self.lemma_split_keeps_wf(old_nodes, old_levels, old_parents, old_spans, node_index as int, start, mid, end, left_index, right_index);
        }
        proof {
            assert(self.nodes@[left_index as int].content.is_leaf());
            assert(self.nodes@[right_index as int].content.is_leaf());
        }
        let ghost split_nodes = self.nodes@;
        self.divide(geometry, vertices, left_index, depth + 1, triangles, centroids);
        self.divide(geometry, vertices, right_index, depth + 1, triangles, centroids);
        proof {
            assert(self.nodes@[node_index as int] == split_nodes[node_index as int]);
            assert(self.nodes@[node_index as int].content == NodeContent::Children((left_index, right_index)));
            assert(self.nodes@[left_index as int].aabb == left_aabb);
            assert(self.nodes@[right_index as int].aabb == right_aabb);
            assert(self.span(left_index as int) == (start as int, mid as int));
            assert(self.span(right_index as int) == (mid as int, end as int));
            let k = kept(vec0@.subrange(start as int, end as int), sides@, true).len() as int;
            assert(halves_answer(*geometry, *vertices, moved, old(self).node_seq()[node_index as int].aabb, start,
                k as usize, end, left_aabb, right_aabb, pays));
            assert(sides_answer(*geometry, *vertices, *old(triangles), *old(centroids), start, end, sides));
        }
    }

    /// The node array, root first.
    pub fn get_nodes(&self) -> (r: &Vec<BVHNode<B>>)
        ensures
            r@ == self.node_seq(),
    {
        &self.nodes
    }

    /// Starts a traversal of the hierarchy along `ray`.
    pub fn intersects<'a, R>(&'a self, ray: R) -> (r: BVHIterator<'a, B, R>)
        requires
            self.wf(),
        ensures
            r.wf(),
            r.source() == *self,
            r.ray() == ray,
            r.pending() == 1,
            r.visited() == Set::<int>::empty(),
            r.yielded() == Set::<int>::empty(),
            r.answers() == Map::<int, bool>::empty(),
            0 <= r.remaining() <= 0xFFFF_FFFF,
    {
        let mut stack = [0usize; MAX_DEPTH];
        stack[0] = 0;
        let it = BVHIterator {
            stack,
            ray,
            pending: 1,
            bvh: self,
            visited: Ghost(Set::empty()),
            answers: Ghost(Map::empty()),
            yielded: Ghost(Set::empty()),
        };
        assert(it.stack@[0] == 0);
        assert(stack_holds(it.stack@, 1, 0)) by {
            assert(0 <= 0int < 1 && it.stack@[0int] == 0int);
        }
        assert(it.answers@.dom() =~= it.visited@);
        proof {
            lemma_entry_work(1);
            lemma2_to64();
            assert(stack_work(*self, it.stack@, 1) == stack_work(*self, it.stack@, 0) + entry_work(self.level(0)));
        }
        it
    }

    /// Number of levels of the tree.
    pub fn depth(&self) -> (r: u32)
        requires
            self.wf(),
        ensures
            r == height(self.node_seq(), 0),
            1 <= r <= MAX_DEPTH,
    {
        proof { self.lemma_height_bound(0); }
        self.depth_of_node(0)
    }

    fn depth_of_node(&self, index: usize) -> (r: u32)
        requires
            self.wf(),
            index < self.node_seq().len(),
        ensures
            r == height(self.node_seq(), index as int),
        decreases self.node_seq().len() - index,
    {
        proof {
            self.lemma_height_bound(index as int);
            assert(links_ok(self.nodes@, self.levels@));
        }
        match self.nodes[index].content {
            NodeContent::Triangles(_) => 1,
            NodeContent::Children((left, right)) => {
                proof {
                    self.lemma_height_bound(left as int);
                    self.lemma_height_bound(right as int);
                }
                let l = self.depth_of_node(left);
                let r = self.depth_of_node(right);
                if l >= r { 1 + l } else { 1 + r }
            },
        }
    }

    proof fn lemma_height_bound(&self, i: int)
        requires
            self.wf(),
            0 <= i < self.node_seq().len(),
        ensures
            1 <= height(self.node_seq(), i) <= MAX_DEPTH + 1 - self.level(i),
        decreases self.node_seq().len() - i,
    {
        assert(links_ok(self.nodes@, self.levels@));
        assert(1 <= self.levels@[i] <= MAX_DEPTH);
        match self.nodes@[i].content {
            NodeContent::Triangles(_) => {},
            NodeContent::Children((l, r)) => {
                self.lemma_height_bound(l as int);
                self.lemma_height_bound(r as int);
            },
        }
    }

    /// Largest number of triangles held by one leaf.
    pub fn max_triangle_count(&self) -> (r: u32)
        requires
            self.wf(),
        ensures
            forall|i: int| 0 <= i < self.node_seq().len() ==> leaf_size(#[trigger] self.node_seq()[i].content) <= r,
            r == 0 || exists|i: int| 0 <= i < self.node_seq().len() && leaf_size(#[trigger] self.node_seq()[i].content) == r,
    {
        let mut best: u32 = 0;
        let mut i: usize = 0;
        while i < self.nodes.len()
            invariant
                self.wf(),
                i <= self.nodes@.len(),
                forall|q: int| 0 <= q < i ==> leaf_size(#[trigger] self.nodes@[q].content) <= best,
                best == 0 || exists|q: int| 0 <= q < i && leaf_size(#[trigger] self.nodes@[q].content) == best,
            decreases self.nodes@.len() - i,
        {
            proof { assert(leaves_within(self.nodes@, self.count@ as int)); }
            let size: u32 = match self.nodes[i].content {
                NodeContent::Triangles((b, e)) => #[verifier::truncate] ((e - b) as u32),
                NodeContent::Children(_) => 0,
            };
            assert(size == leaf_size(self.nodes@[i as int].content));
            if size > best {
                best = size;
            }
            i = i + 1;
        }
        best
    }

    proof fn lemma_split_keeps_wf(&self, old_nodes: Seq<BVHNode<B>>, old_levels: Seq<int>, old_parents: Seq<int>, old_spans: Seq<(int, int)>, p: int, s: usize, m: usize, e: usize, li: usize, ri: usize)
        requires
            old_nodes.len() >= 1,
            old_levels.len() == old_nodes.len(),
            old_levels[0] == 1,
            forall|i: int| 0 <= i < old_levels.len() ==> 1 <= #[trigger] old_levels[i] <= MAX_DEPTH,
            links_ok(old_nodes, old_levels),
            old_parents.len() == old_nodes.len(),
            parents_ok(old_nodes, old_parents),
            children_of_parents(old_nodes, old_parents),
            empty_leaves_at_root(old_nodes),
            old_spans.len() == old_nodes.len(),
            spans_ok(old_nodes, old_spans),
            self.spans@ == old_spans.push((s as int, m as int)).push((m as int, e as int)),
            self.parents@ == old_parents.push(p).push(p),
            leaves_partition(old_nodes, self.count@ as int),
            0 <= p < old_nodes.len(),
            old_nodes[p].content == NodeContent::Triangles((s, e)),
            s < m < e,
            old_levels[p] < MAX_DEPTH,
            self.levels@ == old_levels.push(old_levels[p] + 1).push(old_levels[p] + 1),
            self.nodes@.len() == old_nodes.len() + 2,
            forall|k: int| 0 <= k < old_nodes.len() && k != p ==> self.nodes@[k] == old_nodes[k],
            li == old_nodes.len(),
            ri == li + 1,
            self.nodes@[p].content == NodeContent::Children((li, ri)),
            self.nodes@[old_nodes.len() as int].content == NodeContent::Triangles((s, m)),
            self.nodes@[old_nodes.len() as int + 1].content == NodeContent::Triangles((m, e)),
        ensures
            self.wf(),
    {
        let nodes = self.nodes@;
        let n = self.count@ as int;
        let lo = old_nodes.len() as int;
        assert(old_nodes[p].content.holds(s as int));
        assert(self.levels@[lo] == old_levels[p] + 1);
        assert(self.levels@[lo + 1] == old_levels[p] + 1);
        assert forall|i: int| 0 <= i < lo implies self.levels@[i] == old_levels[i] by {}
        assert forall|i: int| 0 <= i < lo implies self.parents@[i] == old_parents[i] by {}
        assert forall|i: int| 0 <= i < lo implies self.spans@[i] == old_spans[i] by {}
        assert forall|i: int| 0 <= i < nodes.len() implies match #[trigger] nodes[i].content {
            NodeContent::Triangles((b, e2)) => self.spans@[i] == (b as int, e2 as int),
            NodeContent::Children((l, r)) => self.spans@[l as int].0 == self.spans@[i].0
                && self.spans@[l as int].1 == self.spans@[r as int].0 && self.spans@[r as int].1 == self.spans@[i].1,
        } by {
            assert(match old_nodes[p].content {
                NodeContent::Triangles((b, e2)) => old_spans[p] == (b as int, e2 as int),
                NodeContent::Children(_) => true,
            });
            if i < lo && i != p {
                assert(old_nodes[i] == nodes[i]);
                assert(match old_nodes[i].content {
                    NodeContent::Children((l, r)) => i < l < lo && i < r < lo,
                    NodeContent::Triangles(_) => true,
                });
            }
        }
        assert forall|i: int| 0 <= i < nodes.len() && #[trigger] nodes[i].content.is_leaf() && range_len(nodes[i].content) == 0
            implies i == 0 by {
            if i < lo && i != p {
                assert(old_nodes[i] == nodes[i]);
            }
        }
        assert forall|y: int| 0 < y < nodes.len() implies 0 <= #[trigger] self.parents@[y] < nodes.len() && match nodes[self.parents@[y]].content {
            NodeContent::Children((l, r)) => l == y || r == y,
            NodeContent::Triangles(_) => false,
        } by {
            if y < lo {
                let q = old_parents[y];
                assert(match old_nodes[q].content {
                    NodeContent::Children((l, r)) => l == y || r == y,
                    NodeContent::Triangles(_) => false,
                });
                assert(q != p);
                assert(nodes[q] == old_nodes[q]);
            }
        }
        assert forall|i: int| 0 <= i < nodes.len() implies match #[trigger] nodes[i].content {
            NodeContent::Children((l, r)) => self.parents@[l as int] == i && self.parents@[r as int] == i,
            NodeContent::Triangles(_) => true,
        } by {
            if i < lo && i != p {
                assert(old_nodes[i] == nodes[i]);
                assert(match old_nodes[i].content {
                    NodeContent::Children((l, r)) => i < l < lo && i < r < lo && old_parents[l as int] == i && old_parents[r as int] == i,
                    NodeContent::Triangles(_) => true,
                });
            }
        }
        assert forall|i: int| 0 <= i < nodes.len() implies match #[trigger] nodes[i].content {
            NodeContent::Children((l, r)) => i < l < nodes.len() && i < r < nodes.len() && l != r
                && self.levels@[l as int] == self.levels@[i] + 1 && self.levels@[r as int] == self.levels@[i] + 1,
            NodeContent::Triangles(_) => true,
        } by {
            if i < lo && i != p {
                assert(old_nodes[i] == nodes[i]);
                assert(match old_nodes[i].content {
                    NodeContent::Children((l, r)) => i < l < lo && i < r < lo && l != r
                        && old_levels[l as int] == old_levels[i] + 1 && old_levels[r as int] == old_levels[i] + 1,
                    NodeContent::Triangles(_) => true,
                });
            }
        }
        assert forall|i: int| 0 <= i < nodes.len() implies match #[trigger] nodes[i].content {
            NodeContent::Triangles((b, e2)) => b <= e2 <= n,
            NodeContent::Children(_) => true,
        } by {
            if i < lo && i != p {
                assert(old_nodes[i] == nodes[i]);
            }
        }
        assert forall|i: int, j: int, t: int|
            0 <= i < nodes.len() && 0 <= j < nodes.len() && #[trigger] nodes[i].content.holds(t)
                && #[trigger] nodes[j].content.holds(t) implies i == j by {
            if i < lo && i != p {
                assert(old_nodes[i] == nodes[i]);
                assert(old_nodes[i].content.holds(t));
            }
            if j < lo && j != p {
                assert(old_nodes[j] == nodes[j]);
                assert(old_nodes[j].content.holds(t));
            }
            if i >= lo || j >= lo {
                assert(old_nodes[p].content.holds(t));
            }
        }
        assert forall|t: int| 0 <= t < n implies #[trigger] covered(nodes, t) by {
            assert(covered(old_nodes, t));
            let w = choose|i: int| 0 <= i < old_nodes.len() && #[trigger] old_nodes[i].content.holds(t);
            if w == p {
                if t < m {
                    assert(nodes[lo].content.holds(t));
                } else {
                    assert(nodes[lo + 1].content.holds(t));
                }
            } else {
                assert(nodes[w] == old_nodes[w]);
                assert(nodes[w].content.holds(t));
            }
        }
    }
}


/// Number of levels of the subtree rooted at node `i`.
pub open spec fn height<B>(nodes: Seq<BVHNode<B>>, i: int) -> int
    decreases nodes.len() - i,
{
    if 0 <= i < nodes.len() {
        match nodes[i].content {
            NodeContent::Triangles(_) => 1,
            NodeContent::Children((l, r)) => if i < l < nodes.len() && i < r < nodes.len() {
                let hl = height(nodes, l as int);
                let hr = height(nodes, r as int);
                1 + if hl >= hr { hl } else { hr }
            } else {
                1
            },
        }
    } else {
        0
    }
}

/// Leaf size as a 32-bit count; zero for an inner node.
pub open spec fn leaf_size(c: NodeContent) -> u32 {
    match c {
        NodeContent::Triangles((b, e)) => #[verifier::truncate] ((e - b) as u32),
        NodeContent::Children(_) => 0,
    }
}

/// Answers whether a ray meets a bounding box within a parameter interval;
/// supplied by the owner of the ray.
pub trait BoxProbe<B, F> {
    /// Whether the ray meets `aabb` within `(min_t, max_t)`.
    fn probe(&self, aabb: &B, min_t: F, max_t: F) -> bool;
}

/// `answer` is an answer that `ray.probe(&aabb, min_t, max_t)` gives.
pub open spec fn probe_answer<B, F, R: BoxProbe<B, F>>(ray: R, aabb: B, min_t: F, max_t: F, answer: bool) -> bool {
    call_ensures(R::probe, (&ray, &aabb, min_t, max_t), answer)
}

/// Most work a stack entry at `level` can still cause: one test per node of
/// a full subtree reaching the deepest level.
pub open spec fn entry_work(level: int) -> int {
    pow2((MAX_DEPTH + 1 - level) as nat) - 1
}

/// Work still owed by the first `k` stack entries.
pub open spec fn stack_work<B>(bvh: BVH<B>, stack: Seq<usize>, k: int) -> int
    decreases k,
{
    if k <= 0 {
        0
    } else {
        stack_work(bvh, stack, k - 1) + entry_work(bvh.level(stack[k - 1] as int))
    }
}

proof fn lemma_stack_work_prefix<B>(bvh: BVH<B>, s1: Seq<usize>, s2: Seq<usize>, k: int)
    requires
        0 <= k <= s1.len(),
        k <= s2.len(),
        forall|p: int| 0 <= p < k ==> s1[p] == s2[p],
    ensures
        stack_work(bvh, s1, k) == stack_work(bvh, s2, k),
    decreases k,
{
    if k > 0 {
        lemma_stack_work_prefix(bvh, s1, s2, k - 1);
    }
}

proof fn lemma_entry_work(level: int)
    requires
        1 <= level <= MAX_DEPTH,
    ensures
        1 <= entry_work(level) < pow2(32),
        level < MAX_DEPTH ==> entry_work(level) == 2 * entry_work(level + 1) + 1,
{
    let e = (MAX_DEPTH + 1 - level) as nat;
    lemma_pow2_unfold(e);
    if e < 32 {
        lemma_pow2_strictly_increases(e, 32);
    }
    if e > 1 {
        lemma_pow2_unfold((e - 1) as nat);
    }
    vstd::arithmetic::power2::lemma_pow2_pos((e - 1) as nat);
}

/// A traversal of a hierarchy along one ray, driven by repeated calls of
/// `next`. It holds a bounded stack of nodes still to visit.
pub struct BVHIterator<'a, B, R> {
    stack: [usize; MAX_DEPTH],
    ray: R,
    pending: usize,
    bvh: &'a BVH<B>,
    visited: Ghost<Set<int>>,
    answers: Ghost<Map<int, bool>>,
    yielded: Ghost<Set<int>>,
}

/// Some entry among the first `pending` of `stack` is `y`.
pub open spec fn stack_holds(stack: Seq<usize>, pending: int, y: int) -> bool {
    exists|p: int| 0 <= p < pending && #[trigger] stack[p] == y
}

/// The bookkeeping of a traversal: `answers` holds the probe's answer for
/// every visited node, `yielded` the visited leaves it accepted, and every
/// child of an accepted inner node, like the root, is visited or stacked.
pub open spec fn search_ok<B>(
    bvh: BVH<B>,
    stack: Seq<usize>,
    pending: int,
    visited: Set<int>,
    answers: Map<int, bool>,
    yielded: Set<int>,
) -> bool {
    &&& answers.dom() == visited
    &&& forall|y: int| #[trigger] yielded.contains(y)
        == (visited.contains(y) && answers[y] && bvh.node_seq()[y].content.is_leaf())
    &&& forall|y: int| 0 < y < bvh.node_seq().len() && visited.contains(#[trigger] bvh.parent(y)) && answers[bvh.parent(y)]
        ==> visited.contains(y) || stack_holds(stack, pending, y)
    &&& visited.contains(0) || stack_holds(stack, pending, 0)
    &&& forall|y: int| y != 0 && visited.contains(y) ==> visited.contains(#[trigger] bvh.parent(y)) && answers[bvh.parent(y)]
    &&& forall|p: int| 0 <= p < pending && #[trigger] stack[p] != 0
        ==> visited.contains(bvh.parent(stack[p] as int)) && answers[bvh.parent(stack[p] as int)]
}

proof fn lemma_search_step<B>(
    bvh: BVH<B>,
    old_stack: Seq<usize>,
    top: int,
    seen: Set<int>,
    ans: Map<int, bool>,
    yl: Set<int>,
    new_stack: Seq<usize>,
    new_pending: int,
    x: int,
    hit: bool,
)
    requires
        bvh.wf(),
        0 <= top < old_stack.len(),
        new_stack.len() == old_stack.len(),
        old_stack[top] == x,
        0 <= x < bvh.node_seq().len(),
        !seen.contains(x),
        search_ok(bvh, old_stack, top + 1, seen, ans, yl),
        forall|p: int| 0 <= p < top ==> new_stack[p] == old_stack[p],
        hit && !bvh.node_seq()[x].content.is_leaf() ==> match bvh.node_seq()[x].content {
            NodeContent::Children((l, r)) => new_pending == top + 2 && top + 1 < new_stack.len()
                && new_stack[top] == l && new_stack[top + 1] == r,
            NodeContent::Triangles(_) => false,
        },
        !(hit && !bvh.node_seq()[x].content.is_leaf()) ==> new_pending == top,
    ensures
        search_ok(
            bvh,
            new_stack,
            new_pending,
            seen.insert(x),
            ans.insert(x, hit),
            if hit && bvh.node_seq()[x].content.is_leaf() { yl.insert(x) } else { yl },
        ),
{
    let visited = seen.insert(x);
    let answers = ans.insert(x, hit);
    let yielded = if hit && bvh.node_seq()[x].content.is_leaf() { yl.insert(x) } else { yl };
    assert(answers.dom() =~= visited);
    assert forall|y: int| #[trigger] yielded.contains(y)
        == (visited.contains(y) && answers[y] && bvh.node_seq()[y].content.is_leaf()) by {
        if y != x {
            assert(yl.contains(y) == (seen.contains(y) && ans[y] && bvh.node_seq()[y].content.is_leaf()));
        }
    }
    assert forall|y: int| 0 < y < bvh.node_seq().len() && visited.contains(#[trigger] bvh.parent(y)) && answers[bvh.parent(y)]
        implies visited.contains(y) || stack_holds(new_stack, new_pending, y) by {
        let q = bvh.parent(y);
        if q == x {
            assert(children_of_parents(bvh.nodes@, bvh.parents@));
            assert(0 <= bvh.parents@[y] < bvh.nodes@.len());
            match bvh.node_seq()[x].content {
                NodeContent::Children((l, r)) => {
                    if y == l {
                        assert(new_stack[top] == y);
                    } else {
                        assert(new_stack[top + 1] == y);
                    }
                },
                NodeContent::Triangles(_) => {},
            }
        } else {
            assert(seen.contains(q) && ans[q]);
            if !seen.contains(y) {
                assert(stack_holds(old_stack, top + 1, y));
                let p = choose|p: int| 0 <= p < top + 1 && old_stack[p] == y;
                if p < top {
                    assert(new_stack[p] == y);
                    assert(stack_holds(new_stack, new_pending, y));
                }
            }
        }
    }
    if !seen.contains(0) {
        let p = choose|p: int| 0 <= p < top + 1 && old_stack[p] == 0;
        if p < top {
            assert(new_stack[p] == 0);
            assert(stack_holds(new_stack, new_pending, 0));
        }
    }
    assert forall|y: int| y != 0 && visited.contains(y) implies visited.contains(#[trigger] bvh.parent(y)) && answers[bvh.parent(y)] by {
        if y == x {
            assert(old_stack[top] == x);
        } else {
            assert(seen.contains(y));
            assert(bvh.parent(y) != x);
        }
    }
    assert forall|p: int| 0 <= p < new_pending && #[trigger] new_stack[p] != 0
        implies visited.contains(bvh.parent(new_stack[p] as int)) && answers[bvh.parent(new_stack[p] as int)] by {
        if p < top {
            assert(new_stack[p] == old_stack[p]);
            assert(old_stack[p] != 0);
            assert(bvh.parent(old_stack[p] as int) != x);
        } else {
            assert(parents_ok(bvh.nodes@, bvh.parents@));
            match bvh.node_seq()[x].content {
                NodeContent::Children((l, r)) => {
                    assert(bvh.parents@[l as int] == x && bvh.parents@[r as int] == x);
                },
                NodeContent::Triangles(_) => {},
            }
        }
    }
}

/// Node `i`'s ancestor `d` levels up; `i` itself for `d == 0`.
pub open spec fn ancestor<B>(bvh: BVH<B>, i: int, d: int) -> int
    decreases d,
{
    if d <= 0 {
        i
    } else {
        ancestor(bvh, bvh.parent(i), d - 1)
    }
}

impl<'a, B, R> BVHIterator<'a, B, R> {
    pub closed spec fn source(&self) -> BVH<B> {
        *self.bvh
    }

    pub closed spec fn ray(&self) -> R {
        self.ray
    }

    /// Number of nodes on the stack.
    pub closed spec fn pending(&self) -> nat {
        self.pending as nat
    }

    /// Nodes popped so far.
    pub closed spec fn visited(&self) -> Set<int> {
        self.visited@
    }

    /// The probe's answer for each visited node.
    pub closed spec fn answers(&self) -> Map<int, bool> {
        self.answers@
    }

    /// The leaves handed out so far.
    pub closed spec fn yielded(&self) -> Set<int> {
        self.yielded@
    }

    /// A bound on the box tests the rest of the traversal can make.
    pub closed spec fn remaining(&self) -> int {
        stack_work(*self.bvh, self.stack@, self.pending as int)
    }

    pub closed spec fn wf(&self) -> bool {
        &&& self.bvh.wf()
        &&& self.pending <= MAX_DEPTH
        &&& forall|p: int| 0 <= p < self.pending ==> {
            &&& #[trigger] self.stack@[p] < self.bvh.node_seq().len()
            &&& self.bvh.level(self.stack@[p] as int) >= p + 1
            &&& !self.visited@.contains(self.stack@[p] as int)
            &&& (self.stack@[p] == 0 || self.visited@.contains(self.bvh.parent(self.stack@[p] as int)))
        }
        &&& forall|p: int, q: int| 0 <= p < self.pending && 0 <= q < self.pending && p != q
            ==> #[trigger] self.stack@[p] != #[trigger] self.stack@[q]
        &&& forall|y: int| y != 0 && self.visited@.contains(y) ==> self.visited@.contains(#[trigger] self.bvh.parent(y))
        &&& self.visited@.finite()
        &&& forall|y: int| #[trigger] self.visited@.contains(y) ==> 0 <= y < self.bvh.node_seq().len()
        &&& search_ok(*self.bvh, self.stack@, self.pending as int, self.visited@, self.answers@, self.yielded@)
    }

    /// Every visited node but the root hangs from a visited node whose box
    /// the probe accepted; every handed-out leaf was visited and accepted.
    pub proof fn lemma_visited_parent(&self, y: int)
        requires
            self.wf(),
            self.visited().contains(y),
        ensures
            self.answers().contains_key(y),
            0 <= y < self.source().node_seq().len(),
            y != 0 ==> {
                &&& self.visited().contains(self.source().parent(y))
                &&& self.answers()[self.source().parent(y)]
                &&& child_of(self.source().node_seq(), y, self.source().parent(y))
                &&& ancestor(self.source(), y, 1) == self.source().parent(y)
            },
            self.yielded().contains(y) == (self.answers()[y] && self.source().node_seq()[y].content.is_leaf()),
    {
        let bvh = *self.bvh;
        assert(self.answers@.dom() == self.visited@);
        assert(self.yielded@.contains(y) == (self.visited@.contains(y) && self.answers@[y] && bvh.node_seq()[y].content.is_leaf()));
        if y != 0 {
            assert(self.visited@.contains(bvh.parent(y)));
            bvh.lemma_tree_shape();
            assert(ancestor(bvh, bvh.parent(y), 0) == bvh.parent(y));
        }
    }

    /// Once a traversal has run out, every leaf it did not hand out has a
    /// box on its path from the root, itself included, that the probe
    /// rejected.
    pub proof fn lemma_exhausted_traversal_is_complete(&self, leaf: int)
        requires
            self.wf(),
            self.pending() == 0,
            0 <= leaf < self.source().node_seq().len(),
            self.source().node_seq()[leaf].content.is_leaf(),
        ensures
            self.yielded().contains(leaf) || exists|d: int|
                0 <= d < self.source().level(leaf) && self.visited().contains(#[trigger] ancestor(self.source(), leaf, d))
                    && self.answers().contains_key(ancestor(self.source(), leaf, d))
                    && !self.answers()[ancestor(self.source(), leaf, d)],
    {
        self.lemma_reached(leaf);
        assert(self.answers@.dom() == self.visited@);
        let bvh = *self.bvh;
        if self.visited@.contains(leaf) {
            assert(self.yielded@.contains(leaf) == (self.visited@.contains(leaf) && self.answers@[leaf] && bvh.node_seq()[leaf].content.is_leaf()));
            if !self.answers@[leaf] {
                assert(ancestor(bvh, leaf, 0) == leaf);
                assert(bvh.levels@[leaf] >= 1);
            }
        } else {
            let d = choose|d: int| 1 <= d < bvh.level(leaf) && self.visited@.contains(#[trigger] ancestor(bvh, leaf, d))
                && !self.answers@[ancestor(bvh, leaf, d)];
        }
    }

    /// In an exhausted traversal, node `y` was visited unless some strict
    /// ancestor was visited and rejected.
    proof fn lemma_reached(&self, y: int)
        requires
            self.wf(),
            self.pending == 0,
            0 <= y < self.bvh.node_seq().len(),
        ensures
            self.visited@.contains(y) || exists|d: int|
                1 <= d < self.bvh.level(y) && self.visited@.contains(#[trigger] ancestor(*self.bvh, y, d))
                    && !self.answers@[ancestor(*self.bvh, y, d)],
        decreases self.bvh.level(y),
    {
        let bvh = *self.bvh;
        assert(1 <= bvh.levels@[y] <= MAX_DEPTH);
        if y != 0 {
            let q = bvh.parent(y);
            assert(children_of_parents(bvh.nodes@, bvh.parents@));
            assert(links_ok(bvh.nodes@, bvh.levels@));
            assert(0 <= bvh.parents@[y] < bvh.nodes@.len());
            assert(match bvh.nodes@[q].content {
                NodeContent::Children((l, r)) => (l == y || r == y) && bvh.levels@[l as int] == bvh.levels@[q] + 1
                    && bvh.levels@[r as int] == bvh.levels@[q] + 1,
                NodeContent::Triangles(_) => false,
            });
            assert(bvh.level(q) == bvh.level(y) - 1);
            self.lemma_reached(q);
            assert(ancestor(bvh, y, 1) == q) by {
                assert(ancestor(bvh, q, 0) == q);
            }
            if self.visited@.contains(q) {
                if self.answers@[q] {
                    assert(!stack_holds(self.stack@, 0, y));
                } else {
                    assert(self.visited@.contains(ancestor(bvh, y, 1)));
                }
            } else {
                let d = choose|d: int| 1 <= d < bvh.level(q) && self.visited@.contains(#[trigger] ancestor(bvh, q, d))
                    && !self.answers@[ancestor(bvh, q, d)];
                assert(ancestor(bvh, y, d + 1) == ancestor(bvh, q, d));
                assert(self.visited@.contains(ancestor(bvh, y, d + 1)));
            }
        } else {
            assert(!stack_holds(self.stack@, 0, 0));
        }
    }

    proof fn lemma_remaining_bound(&self, k: int)
        requires
            self.wf(),
            0 <= k <= self.pending,
        ensures
            0 <= stack_work(*self.bvh, self.stack@, k) <= k * (pow2(32) - 1),
        decreases k,
    {
        if k > 0 {
            self.lemma_remaining_bound(k - 1);
            let idx = self.stack@[k - 1] as int;
            assert(self.stack@[k - 1] < self.bvh.node_seq().len());
            assert(1 <= self.bvh.levels@[idx] <= MAX_DEPTH);
            lemma_entry_work(self.bvh.level(idx));
            let p = pow2(32) - 1;
            assert((k - 1) * p + p == k * p) by (nonlinear_arith);
        }
    }

    /// The ray being traced.
    pub fn get_ray(&self) -> (r: &R)
        ensures
            *r == self.ray(),
    {
        &self.ray
    }

    /// Pops nodes until one whose box the ray meets is a leaf, and returns its
    /// triangle range with the number of boxes tested by this call. When the
    /// stack runs empty it returns the empty range `(0, 0)`.
    #[verifier::rlimit(60)]
    pub fn next<F: Copy>(&mut self, min_t: F, max_t: F) -> (r: (usize, usize, u64))
        where
            R: BoxProbe<B, F>,
        requires
            old(self).wf(),
        ensures
            final(self).wf(),
            final(self).source() == old(self).source(),
            final(self).ray() == old(self).ray(),
            final(self).remaining() >= 0,
            r.0 <= r.1 <= old(self).source().triangle_count(),
            old(self).visited().subset_of(final(self).visited()),
            final(self).visited().len() == old(self).visited().len() + r.2,
            forall|y: int| #[trigger] old(self).answers().contains_key(y)
                ==> final(self).answers().contains_key(y) && final(self).answers()[y] == old(self).answers()[y],
            forall|y: int| #[trigger] final(self).answers().contains_key(y) && !old(self).answers().contains_key(y)
                ==> probe_answer(old(self).ray(), old(self).source().node_seq()[y].aabb, min_t, max_t, final(self).answers()[y]),
            r.0 == r.1 ==> final(self).pending() == 0,
            final(self).visited().finite(),
            forall|y: int| #[trigger] final(self).visited().contains(y) ==> 0 <= y < old(self).source().node_seq().len(),
            (final(self).pending() == 0 && r.0 == 0 && r.1 == 0 && final(self).yielded() == old(self).yielded())
                || exists|i: int| 0 <= i < old(self).source().node_seq().len()
                    && old(self).source().node_seq()[i].content == NodeContent::Triangles((r.0, r.1))
                    && !old(self).visited().contains(i) && final(self).visited().contains(i)
                    && final(self).yielded() == old(self).yielded().insert(i)
                    && final(self).answers().contains_key(i) && final(self).answers()[i],

            old(self).pending() == 0 ==> r == (0usize, 0usize, 0u64) && final(self).pending() == 0
                && final(self).remaining() == old(self).remaining(),
            old(self).pending() > 0 ==> r.2 >= 1 && final(self).remaining() + r.2 <= old(self).remaining(),
    {
        let bvh = self.bvh;
        let mut aabb_tests: u64 = 0;
        proof {
            self.lemma_remaining_bound(self.pending as int);
            lemma2_to64();
            let k = self.pending as int;
            let p = pow2(32) - 1;
            assert(k * p <= MAX_DEPTH * p) by (nonlinear_arith)
                requires k <= MAX_DEPTH, p >= 0;
        }
        while self.pending > 0
            invariant
                self.wf(),
                self.bvh == bvh,
                self.bvh == old(self).bvh,
                self.ray == old(self).ray,
                old(self).visited@.subset_of(self.visited@),
                self.visited@.len() == old(self).visited@.len() + aabb_tests,
                self.yielded@ == old(self).yielded@,
                forall|y: int| #[trigger] old(self).answers@.contains_key(y)
                    ==> self.answers@.contains_key(y) && self.answers@[y] == old(self).answers@[y],
                forall|y: int| #[trigger] self.answers@.contains_key(y) && !old(self).answers@.contains_key(y)
                    ==> probe_answer(old(self).ray, bvh.nodes@[y].aabb, min_t, max_t, self.answers@[y]),
                aabb_tests + self.remaining() <= old(self).remaining(),
                old(self).remaining() <= MAX_DEPTH * (pow2(32) - 1),
                pow2(32) == 0x1_0000_0000,
                old(self).pending() == 0 ==> aabb_tests == 0,
                old(self).pending() > 0 ==> aabb_tests >= 1 || self.pending == old(self).pending,
                self.pending > 0 || aabb_tests >= 1 || old(self).pending() == 0,
                self.remaining() >= 0,
            decreases self.remaining(),
        {
            let top = self.pending - 1;
            let index = self.stack[top];
            let ghost before = self.stack@;
            proof {
                assert(before[top as int] < bvh.node_seq().len());
                assert(1 <= bvh.levels@[index as int] <= MAX_DEPTH);
                lemma_entry_work(bvh.level(index as int));
                assert(stack_work(*bvh, before, top + 1) == stack_work(*bvh, before, top as int) + entry_work(bvh.level(index as int)));
                self.lemma_remaining_bound(top as int);
            }
            let ghost seen = self.visited@;
            let ghost ans0 = self.answers@;
            let ghost yl0 = self.yielded@;
            proof {
                assert(self.stack@[top as int] == index);
                assert forall|p: int| 0 <= p < top implies #[trigger] self.stack@[p] != index by {
                    assert(self.stack@[p] != self.stack@[top as int]);
                }
            }
            self.pending = top;
            self.visited = Ghost(seen.insert(index as int));
            aabb_tests = aabb_tests + 1;
            let node = &bvh.nodes[index];
            let hit = self.ray.probe(&node.aabb, min_t, max_t);
            self.answers = Ghost(ans0.insert(index as int, hit));
            self.yielded = Ghost(if hit && bvh.node_seq()[index as int].content.is_leaf() { yl0.insert(index as int) } else { yl0 });
            if hit {
                match node.content {
                    NodeContent::Children((left, right)) => {
                        proof {
                            assert(links_ok(bvh.nodes@, bvh.levels@));
                            assert(parents_ok(bvh.nodes@, bvh.parents@));
                            assert(1 <= bvh.levels@[left as int] <= MAX_DEPTH);
                            lemma_entry_work(bvh.level(left as int));
                            assert(bvh.parent(left as int) == index);
                            assert(bvh.parent(right as int) == index);
                            assert(!seen.contains(left as int));
                            assert(!seen.contains(right as int));
                            assert forall|p: int| 0 <= p < top implies #[trigger] before[p] != left && before[p] != right by {
                                if before[p] == left {
                                    assert(bvh.parent(before[p] as int) == index);
                                }
                                if before[p] == right {
                                    assert(bvh.parent(before[p] as int) == index);
                                }
                            }
                        }
                        self.stack[top] = left;
                        self.stack[top + 1] = right;
                        self.pending = top + 2;
                        proof {
                            lemma_stack_work_prefix(*bvh, before, self.stack@, top as int);
                            assert(self.stack@[top as int] == left);
                            assert(self.stack@[top + 1] == right);
                            assert(stack_work(*bvh, self.stack@, top + 1) == stack_work(*bvh, self.stack@, top as int)
                                + entry_work(bvh.level(left as int)));
                            lemma_search_step(*bvh, before, top as int, seen, ans0, yl0, self.stack@, self.pending as int, index as int, hit);
                            assert(stack_work(*bvh, self.stack@, top + 2) == stack_work(*bvh, self.stack@, top as int)
                                + entry_work(bvh.level(left as int)) + entry_work(bvh.level(right as int)));
                        }
                    },
                    NodeContent::Triangles((begin, end)) => {
                        proof {
                            assert(leaves_within(bvh.nodes@, bvh.count@ as int));
                            assert(bvh.nodes@[index as int].content == NodeContent::Triangles((begin, end)));
                            assert(old(self).source().node_seq()[index as int].content == NodeContent::Triangles((begin, end)));
                            lemma_search_step(*bvh, before, top as int, seen, ans0, yl0, self.stack@, self.pending as int, index as int, hit);
                            assert(!old(self).visited().contains(index as int));
                            assert(self.visited().contains(index as int));
                            lemma_stack_work_prefix(*bvh, before, self.stack@, top as int);
                            if begin == end {
                                assert(empty_leaves_at_root(bvh.nodes@));
                                assert(bvh.nodes@[index as int].content.is_leaf());
                                assert(index == 0);
                                assert(bvh.levels@[0] == 1);
                            }
                        }
                        return (begin, end, aabb_tests);
                    },
                }
            } else {
                proof {
                    lemma_stack_work_prefix(*bvh, before, self.stack@, top as int);
                    lemma_search_step(*bvh, before, top as int, seen, ans0, yl0, self.stack@, self.pending as int, index as int, hit);
                }
            }
        }
        (0, 0, aabb_tests)
    }
}

} // verus!
