use vstd::prelude::*;
use crate::bvh::{
    all_triangles_ok, ancestor, covered, probe_answer, BVHIterator, BVHNode, leaves_disjoint, leaves_partition, triangle_indices_ok, BoxProbe, BvhGeometry, NodeContent,
    BVH,
};
use vstd::set_lib::{lemma_int_range, lemma_len_subset, lemma_set_disjoint_lens, set_int_range};
use crate::report::CollisionReport;

verus! {

/// Intersection of a ray with one triangle, supplied by the owner of the ray.
pub trait TriangleProbe<V, F, H> {
    /// The hit of the ray with triangle `(a, b, c)` at a parameter strictly
    /// between `min_t` and `max_t`, if there is one.
    fn hit_triangle(&self, a: &V, b: &V, c: &V, min_t: F, max_t: F) -> Option<H>;

    /// The ray parameter of a hit.
    fn distance(&self, hit: &H) -> F;
}

/// The triangle positions in the ranges of the leaves in `yielded`.
pub open spec fn handed_out<B>(nodes: Seq<BVHNode<B>>, yielded: Set<int>) -> Set<int> {
    Set::new(|x: int| exists|y: int| yielded.contains(y) && 0 <= y < nodes.len() && #[trigger] nodes[y].content.holds(x))
}

/// The last hit of a run of tests, or `found` when none hit.
pub open spec fn latest<F, H>(log: Seq<(int, F, Option<H>)>, found: Option<H>) -> Option<H>
    decreases log.len(),
{
    if log.len() == 0 {
        found
    } else if log.last().2 is Some {
        log.last().2
    } else {
        latest(log.drop_last(), found)
    }
}

proof fn lemma_latest_concat<F, H>(a: Seq<(int, F, Option<H>)>, b: Seq<(int, F, Option<H>)>, found: Option<H>)
    ensures
        latest(a + b, found) == latest(b, latest(a, found)),
    decreases b.len(),
{
    if b.len() == 0 {
        assert(a + b =~= a);
    } else {
        assert((a + b).drop_last() =~= a + b.drop_last());
        lemma_latest_concat(a, b.drop_last(), found);
    }
}

/// A triangle mesh: vertices, triangles as vertex-index triples, and the
/// hierarchy over the triangles, whose leaf ranges index the triangle array.
pub struct Mesh<V, B> {
    vertices: Vec<V>,
    triangles: Vec<[usize; 3]>,
    bvh: BVH<B>,
}

impl<V, B> Mesh<V, B> {
    pub closed spec fn vertex_seq(&self) -> Seq<V> {
        self.vertices@
    }

    pub closed spec fn triangle_seq(&self) -> Seq<[usize; 3]> {
        self.triangles@
    }

    pub closed spec fn hierarchy(&self) -> BVH<B> {
        self.bvh
    }

    /// The hierarchy indexes exactly this triangle array, and every triangle
    /// names existing vertices.
    /// `answer` is an answer `ray.hit_triangle` gives on triangle `x` between
    /// `min_t` and `max_t`.
    pub open spec fn triangle_answer<R: TriangleProbe<V, F, H>, F, H>(&self, ray: R, x: int, min_t: F, max_t: F, answer: Option<H>) -> bool {
        let t = self.triangle_seq()[x];
        call_ensures(
            R::hit_triangle,
            (&ray, &self.vertex_seq()[t[0] as int], &self.vertex_seq()[t[1] as int], &self.vertex_seq()[t[2] as int], min_t, max_t),
            answer,
        )
    }


    /// Entry `i` of a run of triangle tests used the right bound: the first
    /// test used `start`; after a miss the bound stays, after a hit it is the
    /// distance `distance` gave for the hit; `finish` is the bound after the
    /// last test.
    pub open spec fn bound_link<R: TriangleProbe<V, F, H>, F, H>(&self, ray: R, log: Seq<(int, F, Option<H>)>, i: int, start: F, finish: F) -> bool {
        let cur = if i < log.len() { log[i].1 } else { finish };
        if i == 0 {
            cur == start
        } else if log[i - 1].2 is None {
            cur == log[i - 1].1
        } else {
            call_ensures(R::distance, (&ray, &log[i - 1].2.unwrap()), cur)
        }
    }

    /// Some run of triangle tests along `ray`, starting with bound `max_t`,
    /// tested only triangles in `positions`, and its last hit is `result`.
    pub open spec fn tested_run<R: TriangleProbe<V, F, H>, F, H>(&self, ray: R, min_t: F, max_t: F, positions: Set<int>, result: Option<H>) -> bool {
        exists|log: Seq<(int, F, Option<H>)>, finish: F| {
            &&& #[trigger] self.tests_ok(ray, min_t, max_t, log, finish)
            &&& result == latest(log, None)
            &&& forall|i: int| 0 <= i < log.len() ==> positions.contains(#[trigger] log[i].0)
        }
    }

    /// `log` is a run of triangle tests along `ray`, in order: entry `i`
    /// tested triangle `log[i].0` with bound `log[i].1` and got `log[i].2`.
    pub open spec fn tests_ok<R: TriangleProbe<V, F, H>, F, H>(&self, ray: R, min_t: F, start: F, log: Seq<(int, F, Option<H>)>, finish: F) -> bool {
        &&& forall|i: int| 0 <= i < log.len() ==> #[trigger] self.triangle_answer(ray, log[i].0, min_t, log[i].1, log[i].2)
        &&& forall|i: int| 0 <= i <= log.len() ==> #[trigger] self.bound_link(ray, log, i, start, finish)
    }

    pub open spec fn wf(&self) -> bool {
        &&& self.hierarchy().wf()
        &&& self.hierarchy().triangle_count() == self.triangle_seq().len()
        &&& all_triangles_ok(self.vertex_seq().len(), self.triangle_seq())
    }

    #[verifier::type_invariant]
    spec fn always_wf(&self) -> bool {
        self.wf()
    }


    pub fn get_vertices(&self) -> (r: &Vec<V>)
        ensures
            r@ == self.vertex_seq(),
    {
        &self.vertices
    }

    /// The triangles, in the order the hierarchy's leaf ranges refer to.
    pub fn get_triangles(&self) -> (r: &Vec<[usize; 3]>)
        ensures
            r@ == self.triangle_seq(),
    {
        &self.triangles
    }

    pub fn get_bvh(&self) -> (r: &BVH<B>)
        ensures
            *r == self.hierarchy(),
    {
        &self.bvh
    }
}

impl<V, B: Copy> Mesh<V, B> {
    /// A mesh of the given vertices and triangles; the triangles are
    /// reordered while its hierarchy is built.
    pub fn new<C: Copy, G: BvhGeometry<V, B, C>>(geometry: &G, vertices: Vec<V>, triangles: Vec<[usize; 3]>) -> (r: Mesh<V, B>)
        requires
            all_triangles_ok(vertices@.len(), triangles@),
        ensures
            r.wf(),
            r.vertex_seq() == vertices@,
            r.triangle_seq().to_multiset() == triangles@.to_multiset(),
    {
        let mut triangles = triangles;
        let ghost before = triangles@;
        let bvh = BVH::build(geometry, &vertices, &mut triangles);
        proof {
            crate::bvh::lemma_permutation_keeps_indices_ok(vertices@.len(), before, triangles@);
            vstd::seq_lib::to_multiset_len(before);
            vstd::seq_lib::to_multiset_len(triangles@);
        }
        Mesh { vertices, triangles, bvh }
    }

    proof fn lemma_tests_concat<R: TriangleProbe<V, F, H>, F, H>(&self, ray: R, min_t: F, a: Seq<(int, F, Option<H>)>, b: Seq<(int, F, Option<H>)>, start: F, mid: F, finish: F)
        requires
            self.tests_ok(ray, min_t, start, a, mid),
            self.tests_ok(ray, min_t, mid, b, finish),
        ensures
            self.tests_ok(ray, min_t, start, a + b, finish),
    {
        let c = a + b;
        assert forall|i: int| 0 <= i < c.len() implies #[trigger] self.triangle_answer(ray, c[i].0, min_t, c[i].1, c[i].2) by {
            if i < a.len() {
                assert(c[i] == a[i]);
            } else {
                assert(c[i] == b[i - a.len()]);
                assert(self.triangle_answer(ray, b[i - a.len()].0, min_t, b[i - a.len()].1, b[i - a.len()].2));
            }
        }
        assert forall|i: int| 0 <= i <= c.len() implies #[trigger] self.bound_link(ray, c, i, start, finish) by {
            if i < a.len() {
                assert(self.bound_link(ray, a, i, start, mid));
                assert(c[i] == a[i]);
                if i > 0 {
                    assert(c[i - 1] == a[i - 1]);
                }
            } else if i == a.len() {
                assert(self.bound_link(ray, a, i, start, mid));
                assert(self.bound_link(ray, b, 0, mid, finish));
                if i > 0 {
                    assert(c[i - 1] == a[i - 1]);
                }
                if b.len() > 0 {
                    assert(c[i] == b[0]);
                }
            } else {
                let j = i - a.len();
                assert(self.bound_link(ray, b, j, mid, finish));
                assert(c[i - 1] == b[j - 1]);
                if j < b.len() {
                    assert(c[i] == b[j]);
                }
            }
        }
    }

    /// Tests triangles `[begin, end)` in turn, each with the bound lowered
    /// to the last hit found; returns the final bound and hit.
    fn test_range<R, F: Copy, H>(&self, probe: &R, begin: usize, end: usize, min_t: F, max_t: F, found: Option<H>)
        -> (r: (F, Option<H>))
        where
            R: TriangleProbe<V, F, H>,
        requires
            self.wf(),
            begin <= end <= self.triangle_seq().len(),
        ensures
            begin == end ==> r.1 == found,
            r.1 is None ==> found is None && r.0 == max_t
                && forall|x: int| begin <= x < end ==> #[trigger] self.triangle_answer(*probe, x, min_t, max_t, None),
            r.1 is Some ==> r.1 == found || exists|x: int, b: F| begin <= x < end && #[trigger] self.triangle_answer(*probe, x, min_t, b, r.1),
            exists|log: Seq<(int, F, Option<H>)>| {
                &&& log.len() == end - begin
                &&& forall|i: int| 0 <= i < log.len() ==> #[trigger] log[i].0 == begin + i
                &&& self.tests_ok(*probe, min_t, max_t, log, r.0)
                &&& r.1 == latest(log, found)
            },
    {
        let mut bound = max_t;
        let mut closest = found;
        let mut k = begin;
        let ghost mut log: Seq<(int, F, Option<H>)> = Seq::empty();
        while k < end
            invariant
                self.wf(),
                begin <= k <= end,
                log.len() == k - begin,
                forall|i: int| 0 <= i < log.len() ==> #[trigger] log[i].0 == begin + i,
                self.tests_ok(*probe, min_t, max_t, log, bound),
                closest == latest(log, found),
                end <= self.triangle_seq().len(),
                begin == end ==> closest == found,
                closest is None ==> found is None && bound == max_t
                    && forall|x: int| begin <= x < k ==> #[trigger] self.triangle_answer(*probe, x, min_t, max_t, None),
                closest is Some ==> closest == found
                    || exists|x: int, b: F| begin <= x < k && #[trigger] self.triangle_answer(*probe, x, min_t, b, closest),
            decreases end - k,
        {
            let t = self.triangles[k];
            assert(triangle_indices_ok(self.vertices@.len(), self.triangles@[k as int]));
            let ghost used = bound;
            let answer = probe.hit_triangle(&self.vertices[t[0]], &self.vertices[t[1]], &self.vertices[t[2]], min_t, bound);
            assert(self.triangle_answer(*probe, k as int, min_t, used, answer));
            let ghost answered = answer;
            match answer {
                Some(hit) => {
                    bound = probe.distance(&hit);
                    closest = Some(hit);
                },
                None => {},
            }
            proof {
                let grown = log.push((k as int, used, answered));
                assert(grown.drop_last() =~= log);
                assert forall|i: int| 0 <= i < grown.len() implies #[trigger] self.triangle_answer(*probe, grown[i].0, min_t, grown[i].1, grown[i].2) by {
                    if i < log.len() {
                        assert(grown[i] == log[i]);
                    }
                }
                assert forall|i: int| 0 <= i <= grown.len() implies #[trigger] self.bound_link(*probe, grown, i, max_t, bound) by {
                    if i < grown.len() {
                        assert(self.bound_link(*probe, log, i, max_t, used));
                        if i < log.len() {
                            assert(grown[i] == log[i]);
                        }
                        if i > 0 {
                            assert(grown[i - 1] == log[i - 1]);
                        }
                    } else {
                        assert(grown[i - 1] == (k as int, used, answered));
                    }
                }
                assert forall|i: int| 0 <= i < grown.len() implies #[trigger] grown[i].0 == begin + i by {
                    if i < log.len() {
                        assert(grown[i] == log[i]);
                    }
                }
                log = grown;
            }
            k = k + 1;
        }
        (bound, closest)
    }

    /// The closest hit of `ray` with a parameter strictly between `min_t` and
    /// `max_t`: the hierarchy hands out leaves, each triangle of a leaf is
    /// tested with the bound lowered to the closest hit found so far.
    /// Also returns how many boxes and triangles were tested; no triangle is
    /// tested twice.
    pub fn collide<R, F: Copy, H>(&self, ray: R, min_t: F, max_t: F) -> (r: (Option<H>, CollisionReport))
        where
            R: BoxProbe<B, F> + TriangleProbe<V, F, H>,
        ensures
            1 <= r.1.aabb_tests <= self.hierarchy().node_seq().len(),
            r.1.triangle_tests <= self.triangle_seq().len(),
            self.triangle_seq().len() == 0 ==> r.0 is None,
            exists|t: BVHIterator<'_, B, R>| {
                &&& t.wf()
                &&& t.source() == self.hierarchy()
                &&& t.ray() == ray
                &&& t.pending() == 0
                &&& r.1.aabb_tests == #[trigger] t.visited().len()
                &&& r.1.triangle_tests == handed_out(self.hierarchy().node_seq(), t.yielded()).len()
                &&& self.tested_run(ray, min_t, max_t, handed_out(self.hierarchy().node_seq(), t.yielded()), r.0)
                &&& forall|y: int| #[trigger] t.answers().contains_key(y)
                    ==> exists|b: F| probe_answer(ray, self.hierarchy().node_seq()[y].aabb, min_t, b, t.answers()[y])
                &&& r.0 is None ==> forall|y: int| #[trigger] t.answers().contains_key(y)
                    ==> probe_answer(ray, self.hierarchy().node_seq()[y].aabb, min_t, max_t, t.answers()[y])
                &&& r.0 is None ==> forall|y: int, x: int| #[trigger] t.yielded().contains(y) && 0 <= y < self.hierarchy().node_seq().len()
                    && #[trigger] self.hierarchy().node_seq()[y].content.holds(x) ==> self.triangle_answer(ray, x, min_t, max_t, None)
                &&& r.0 is Some ==> exists|y: int, x: int, b: F| t.yielded().contains(y) && 0 <= y < self.hierarchy().node_seq().len()
                    && self.hierarchy().node_seq()[y].content.holds(x) && #[trigger] self.triangle_answer(ray, x, min_t, b, r.0)
                    && #[trigger] t.yielded().contains(y)
            },
            r.0 is Some ==> exists|x: int, b: F| 0 <= x < self.triangle_seq().len()
                && #[trigger] self.triangle_answer(ray, x, min_t, b, r.0),
            r.0 is None ==> forall|x: int, y: int| 0 <= y < self.hierarchy().node_seq().len()
                && #[trigger] self.hierarchy().node_seq()[y].content.holds(x)
                ==> self.triangle_answer(ray, x, min_t, max_t, None) || exists|d: int| 0 <= d < self.hierarchy().level(y)
                    && probe_answer(ray, self.hierarchy().node_seq()[ancestor(self.hierarchy(), y, d)].aabb, min_t, max_t, false),
    {
        proof {
            use_type_invariant(self);
        }
        let mut closest: Option<H> = None;
        let mut bound = max_t;
        let mut report = CollisionReport { triangle_tests: 0, aabb_tests: 0 };
        let ghost ray0 = ray;
        let mut it = self.bvh.intersects(ray);
        let mut first = true;
        let count = self.triangles.len();
        let ghost n = count as int;
        let ghost nodes = self.hierarchy().node_seq();
        let ghost mut tested: Set<int> = Set::empty();
        let ghost mut runlog: Seq<(int, F, Option<H>)> = Seq::empty();
        assert(self.bound_link(ray0, runlog, 0, max_t, max_t));
        assert(self.tests_ok(ray0, min_t, max_t, runlog, max_t));
        proof {
            self.bvh.lemma_leaf_ranges_partition();
        }
        loop
            invariant
                self.wf(),
                it.wf(),
                it.source() == self.hierarchy(),
                it.remaining() >= 0,
                report.aabb_tests + it.remaining() <= 0xFFFF_FFFF,
                first ==> it.pending() == 1 && report.aabb_tests == 0,
                !first ==> report.aabb_tests >= 1,
                self.triangle_seq().len() == 0 ==> closest is None,
                n == self.triangle_seq().len(),
                count == n,
                nodes == self.hierarchy().node_seq(),
                leaves_partition(nodes, n),
                tested.finite(),
                report.triangle_tests == tested.len(),
                report.aabb_tests == it.visited().len(),
                forall|x: int| #[trigger] tested.contains(x) ==> 0 <= x < n && exists|i: int|
                    0 <= i < nodes.len() && it.visited().contains(i) && #[trigger] nodes[i].content.holds(x),
                tested == handed_out(nodes, it.yielded()),
                self.tests_ok(ray0, min_t, max_t, runlog, bound),
                closest == latest(runlog, None),
                forall|i: int| 0 <= i < runlog.len() ==> tested.contains(#[trigger] runlog[i].0),
                it.ray() == ray0,
                closest is Some ==> exists|y: int, x: int, b: F| it.yielded().contains(y) && 0 <= y < nodes.len()
                    && nodes[y].content.holds(x) && 0 <= x < n && #[trigger] self.triangle_answer(ray0, x, min_t, b, closest) && #[trigger] it.yielded().contains(y),
                forall|y: int| #[trigger] it.answers().contains_key(y)
                    ==> exists|b: F| probe_answer(ray0, nodes[y].aabb, min_t, b, it.answers()[y]),
                closest is None ==> bound == max_t,
                closest is None ==> forall|y: int, x: int| #[trigger] it.yielded().contains(y) && 0 <= y < nodes.len()
                    && #[trigger] nodes[y].content.holds(x) ==> self.triangle_answer(ray0, x, min_t, max_t, None),
                closest is None ==> forall|y: int| #[trigger] it.answers().contains_key(y)
                    ==> probe_answer(ray0, nodes[y].aabb, min_t, max_t, it.answers()[y]),
            ensures
                1 <= report.aabb_tests <= nodes.len(),
                report.triangle_tests <= n,
                self.triangle_seq().len() == 0 ==> closest is None,
                it.wf(),
                it.source() == self.hierarchy(),
                it.pending() == 0,
                tested == handed_out(nodes, it.yielded()),
                self.tests_ok(ray0, min_t, max_t, runlog, bound),
                closest == latest(runlog, None),
                forall|i: int| 0 <= i < runlog.len() ==> tested.contains(#[trigger] runlog[i].0),

                report.triangle_tests == tested.len(),
                report.aabb_tests == it.visited().len(),
                it.ray() == ray0,
                n == self.triangle_seq().len(),
                nodes == self.hierarchy().node_seq(),
                it.ray() == ray0,
                closest is Some ==> exists|y: int, x: int, b: F| it.yielded().contains(y) && 0 <= y < nodes.len()
                    && nodes[y].content.holds(x) && 0 <= x < n && #[trigger] self.triangle_answer(ray0, x, min_t, b, closest) && #[trigger] it.yielded().contains(y),
                forall|y: int| #[trigger] it.answers().contains_key(y)
                    ==> exists|b: F| probe_answer(ray0, nodes[y].aabb, min_t, b, it.answers()[y]),
                closest is None ==> bound == max_t,
                closest is None ==> forall|y: int, x: int| #[trigger] it.yielded().contains(y) && 0 <= y < nodes.len()
                    && #[trigger] nodes[y].content.holds(x) ==> self.triangle_answer(ray0, x, min_t, max_t, None),
                closest is None ==> forall|y: int| #[trigger] it.answers().contains_key(y)
                    ==> probe_answer(ray0, nodes[y].aabb, min_t, max_t, it.answers()[y]),

            decreases it.remaining(),
        {
            let ghost seen = it.visited();
            let ghost seen_yielded = it.yielded();
            let ghost seen_answers = it.answers();
            let (begin, end, tests) = it.next(min_t, bound);
            report.aabb_tests = report.aabb_tests + tests;
            first = false;
            proof {
                lemma_int_range(0, n);
                assert(tested.subset_of(set_int_range(0, n)));
                lemma_len_subset(tested, set_int_range(0, n));
                lemma_int_range(0, nodes.len() as int);
                assert(it.visited().subset_of(set_int_range(0, nodes.len() as int)));
                lemma_len_subset(it.visited(), set_int_range(0, nodes.len() as int));
            }
            proof {
                assert forall|y: int| #[trigger] it.answers().contains_key(y)
                    implies exists|b: F| probe_answer(ray0, nodes[y].aabb, min_t, b, it.answers()[y]) by {
                    if !seen_answers.contains_key(y) {
                        assert(probe_answer(ray0, nodes[y].aabb, min_t, bound, it.answers()[y]));
                    }
                }
                if closest is Some {
                    let (y0, x0, b0) = choose|y0: int, x0: int, b0: F| seen_yielded.contains(y0) && 0 <= y0 < nodes.len()
                        && nodes[y0].content.holds(x0) && 0 <= x0 < n && #[trigger] self.triangle_answer(ray0, x0, min_t, b0, closest)
                        && #[trigger] seen_yielded.contains(y0);
                    assert(it.yielded().contains(y0));
                }
                if closest is None {
                    assert forall|y: int| #[trigger] it.answers().contains_key(y)
                        implies probe_answer(ray0, nodes[y].aabb, min_t, max_t, it.answers()[y]) by {
                        if seen_answers.contains_key(y) {
                        }
                    }
                }
            }
            if begin == 0 && end == 0 {
                proof {
                    assert(tested =~= handed_out(nodes, it.yielded())) by {
                        assert forall|x: int| #[trigger] handed_out(nodes, it.yielded()).contains(x) implies tested.contains(x) by {
                            let y = choose|y: int| it.yielded().contains(y) && 0 <= y < nodes.len() && #[trigger] nodes[y].content.holds(x);
                            if !seen_yielded.contains(y) {
                                let j = choose|j: int| 0 <= j < nodes.len() && nodes[j].content == NodeContent::Triangles((begin, end))
                                    && !seen.contains(j) && it.visited().contains(j) && it.yielded() == seen_yielded.insert(j);
                                assert(y == j);
                            }
                            assert(handed_out(nodes, seen_yielded).contains(x));
                        }
                        assert forall|x: int| tested.contains(x) implies #[trigger] handed_out(nodes, it.yielded()).contains(x) by {
                            assert(handed_out(nodes, seen_yielded).contains(x));
                            let y = choose|y: int| seen_yielded.contains(y) && 0 <= y < nodes.len() && #[trigger] nodes[y].content.holds(x);
                            assert(it.yielded().contains(y));
                        }
                    }
                    if closest is None {
                        assert forall|y: int, x: int| #[trigger] it.yielded().contains(y) && 0 <= y < nodes.len()
                            && #[trigger] nodes[y].content.holds(x) implies self.triangle_answer(ray0, x, min_t, max_t, None) by {
                            if !seen_yielded.contains(y) {
                                let j = choose|j: int| 0 <= j < nodes.len() && nodes[j].content == NodeContent::Triangles((begin, end))
                                    && !seen.contains(j) && it.visited().contains(j) && it.yielded() == seen_yielded.insert(j);
                                assert(y == j);
                            }
                        }
                    }
                }
                break;
            }
            let ghost range = set_int_range(begin as int, end as int);
            proof {
                let j = choose|j: int| 0 <= j < nodes.len() && nodes[j].content == NodeContent::Triangles((begin, end))
                    && !seen.contains(j) && it.visited().contains(j) && it.yielded() == seen_yielded.insert(j);
                assert forall|x: int| #[trigger] tested.contains(x) implies !range.contains(x) by {
                    let i = choose|i: int| 0 <= i < nodes.len() && seen.contains(i) && #[trigger] nodes[i].content.holds(x);
                    if range.contains(x) {
                        assert(nodes[j].content.holds(x));
                        assert(leaves_disjoint(nodes));
                    }
                }
                assert(tested.disjoint(range));
                lemma_int_range(begin as int, end as int);
                lemma_set_disjoint_lens(tested, range);
                assert forall|x: int| #[trigger] (tested + range).contains(x) implies 0 <= x < n && exists|i: int|
                    0 <= i < nodes.len() && it.visited().contains(i) && #[trigger] nodes[i].content.holds(x) by {
                    if tested.contains(x) {
                        let i = choose|i: int| 0 <= i < nodes.len() && seen.contains(i) && #[trigger] nodes[i].content.holds(x);
                        assert(it.visited().contains(i));
                    } else {
                        assert(nodes[j].content.holds(x));
                    }
                }
                let grown = tested + range;
                assert(grown =~= handed_out(nodes, it.yielded())) by {
                    assert forall|x: int| #[trigger] handed_out(nodes, it.yielded()).contains(x) implies grown.contains(x) by {
                        let y = choose|y: int| it.yielded().contains(y) && 0 <= y < nodes.len() && #[trigger] nodes[y].content.holds(x);
                        if y == j {
                            assert(range.contains(x));
                        } else {
                            assert(seen_yielded.contains(y));
                            assert(handed_out(nodes, seen_yielded).contains(x));
                        }
                    }
                    assert forall|x: int| grown.contains(x) implies #[trigger] handed_out(nodes, it.yielded()).contains(x) by {
                        if tested.contains(x) {
                            assert(handed_out(nodes, seen_yielded).contains(x));
                            let y = choose|y: int| seen_yielded.contains(y) && 0 <= y < nodes.len() && #[trigger] nodes[y].content.holds(x);
                            assert(it.yielded().contains(y));
                        } else {
                            assert(nodes[j].content.holds(x));
                            assert(it.yielded().contains(j));
                        }
                    }
                }
                assert(grown.subset_of(set_int_range(0, n)));
                lemma_len_subset(grown, set_int_range(0, n));
                tested = grown;
            }
            let probe = it.get_ray();
            let ghost was_none = closest is None;
            let ghost before_bound = bound;
            let ghost before_closest = closest;
            let (b, c) = self.test_range(probe, begin, end, min_t, bound, closest);
            proof {
                let part = choose|part: Seq<(int, F, Option<H>)>| {
                    &&& part.len() == end - begin
                    &&& forall|i: int| 0 <= i < part.len() ==> #[trigger] part[i].0 == begin + i
                    &&& self.tests_ok(*probe, min_t, before_bound, part, b)
                    &&& c == latest(part, before_closest)
                };
                self.lemma_tests_concat(ray0, min_t, runlog, part, max_t, before_bound, b);
                lemma_latest_concat(runlog, part, None);
                let joined = runlog + part;
                assert forall|i: int| 0 <= i < joined.len() implies tested.contains(#[trigger] joined[i].0) by {
                    if i < runlog.len() {
                        assert(joined[i] == runlog[i]);
                    } else {
                        assert(joined[i] == part[i - runlog.len()]);
                        assert(part[i - runlog.len()].0 == begin + (i - runlog.len()));
                        assert(range.contains(joined[i].0));
                    }
                }
                runlog = joined;
            }
            proof {
                if c is None {
                    assert forall|y: int, x: int| #[trigger] it.yielded().contains(y) && 0 <= y < nodes.len()
                        && #[trigger] nodes[y].content.holds(x) implies self.triangle_answer(ray0, x, min_t, max_t, None) by {
                        if !seen_yielded.contains(y) {
                            assert(nodes[y].content == NodeContent::Triangles((begin, end)));
                            assert(self.triangle_answer(*probe, x, min_t, max_t, None));
                        }
                    }
                }
                if c is Some && c != closest {
                    let (x, bb) = choose|x: int, bb: F| begin <= x < end && #[trigger] self.triangle_answer(*probe, x, min_t, bb, c);
                    assert(self.triangle_answer(ray0, x, min_t, bb, c));
                    let j = choose|j: int| 0 <= j < nodes.len() && nodes[j].content == NodeContent::Triangles((begin, end))
                        && !seen.contains(j) && it.visited().contains(j) && it.yielded() == seen_yielded.insert(j);
                    assert(it.yielded().contains(j) && nodes[j].content.holds(x));
                }
            }
            bound = b;
            closest = c;
            assert(report.triangle_tests + (end - begin) <= count);
            report.triangle_tests = report.triangle_tests + (end - begin) as u64;
        }
        proof {
            assert(report.aabb_tests == it.visited().len());
            assert(self.tests_ok(ray0, min_t, max_t, runlog, bound));
            assert(self.tested_run(ray0, min_t, max_t, handed_out(nodes, it.yielded()), closest));
            if closest is None {
                assert forall|x: int, y: int| 0 <= y < self.hierarchy().node_seq().len()
                    && #[trigger] self.hierarchy().node_seq()[y].content.holds(x)
                    implies self.triangle_answer(ray0, x, min_t, max_t, None) || exists|d: int| 0 <= d < self.hierarchy().level(y)
                        && probe_answer(ray0, self.hierarchy().node_seq()[ancestor(self.hierarchy(), y, d)].aabb, min_t, max_t, false) by {
                    assert(nodes[y].content.is_leaf());
                    it.lemma_exhausted_traversal_is_complete(y);
                    if !it.yielded().contains(y) {
                        let d = choose|d: int| 0 <= d < it.source().level(y)
                            && it.visited().contains(#[trigger] ancestor(it.source(), y, d))
                            && it.answers().contains_key(ancestor(it.source(), y, d))
                            && !it.answers()[ancestor(it.source(), y, d)];
                        assert(probe_answer(ray0, nodes[ancestor(it.source(), y, d)].aabb, min_t, max_t,
                            it.answers()[ancestor(it.source(), y, d)]));
                    }
                }
            }
        }
        (closest, report)
    }
}

} // verus!
