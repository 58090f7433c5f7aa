use rand::rngs::StdRng;
use rand::{Rng, SeedableRng};
use raytracer::{
    BoxProbe, BvhGeometry, Invert, Mesh, NodeContent, Object, RayTracer, Scene, Shading, TriangleProbe, WorldProbe, BVH, MAX_DEPTH,
};

type V3 = [f32; 3];

#[derive(Debug, Clone, Copy)]
struct Box3 {
    min: V3,
    max: V3,
}

const EMPTY: Box3 = Box3 { min: [f32::INFINITY; 3], max: [f32::NEG_INFINITY; 3] };

fn expand(b: &mut Box3, p: &V3) {
    for a in 0..3 {
        b.min[a] = b.min[a].min(p[a]);
        b.max[a] = b.max[a].max(p[a]);
    }
}

fn pad(mut b: Box3) -> Box3 {
    for a in 0..3 {
        b.min[a] -= f32::EPSILON;
        b.max[a] += f32::EPSILON;
    }
    b
}

fn sah(b: &Box3, n: usize) -> f32 {
    let x = b.max[0] - b.min[0];
    let y = b.max[1] - b.min[1];
    let z = b.max[2] - b.min[2];
    (n as f32 + f32::EPSILON) * (x * y + y * z + z * x)
}

/// Splits each range at the middle of its centroids' longest extent.
struct Midpoint;

impl BvhGeometry<V3, Box3, V3> for Midpoint {
    fn centroid(&self, vertices: &Vec<V3>, t: &[usize; 3]) -> V3 {
        let mut c = [0.0; 3];
        for a in 0..3 {
            c[a] = (vertices[t[0]][a] + vertices[t[1]][a] + vertices[t[2]][a]) / 3.0;
        }
        c
    }

    fn bounds(&self, vertices: &Vec<V3>) -> Box3 {
        let mut b = EMPTY;
        for v in vertices {
            expand(&mut b, v);
        }
        pad(b)
    }

    fn split_sides(&self, _vertices: &Vec<V3>, _triangles: &Vec<[usize; 3]>, centroids: &Vec<V3>, start: usize, end: usize) -> Vec<bool> {
        let mut b = EMPTY;
        for c in &centroids[start..end] {
            expand(&mut b, c);
        }
        let axis = (0..3)
            .max_by(|&x, &y| (b.max[x] - b.min[x]).partial_cmp(&(b.max[y] - b.min[y])).unwrap())
            .unwrap();
        let plane = (b.min[axis] + b.max[axis]) / 2.0;
        centroids[start..end].iter().map(|c| c[axis] < plane).collect()
    }

    fn enclose(&self, vertices: &Vec<V3>, triangles: &Vec<[usize; 3]>, start: usize, end: usize) -> Box3 {
        let mut b = EMPTY;
        for t in &triangles[start..end] {
            for &v in t {
                expand(&mut b, &vertices[v]);
            }
        }
        pad(b)
    }

    fn split_pays(&self, node: &Box3, count: usize, left: &Box3, lc: usize, right: &Box3, rc: usize) -> bool {
        sah(left, lc) + sah(right, rc) < sah(node, count)
    }
}

#[derive(Clone, Copy)]
struct Ray {
    origin: V3,
    direction: V3,
}

impl BoxProbe<Box3, f32> for Ray {
    fn probe(&self, b: &Box3, min_t: f32, max_t: f32) -> bool {
        let mut lo = min_t;
        let mut hi = max_t;
        for a in 0..3 {
            let inv = 1.0 / self.direction[a];
            let t0 = (b.min[a] - self.origin[a]) * inv;
            let t1 = (b.max[a] - self.origin[a]) * inv;
            lo = lo.max(t0.min(t1));
            hi = hi.min(t0.max(t1));
        }
        lo < hi
    }
}

impl TriangleProbe<V3, f32, (f32, V3)> for Ray {
    fn hit_triangle(&self, a: &V3, b: &V3, c: &V3, min_t: f32, max_t: f32) -> Option<(f32, V3)> {
        hit_triangle(self, *a, *b, *c, min_t, max_t)
    }

    fn distance(&self, hit: &(f32, V3)) -> f32 {
        hit.0
    }
}

fn sub(a: V3, b: V3) -> V3 {
    [a[0] - b[0], a[1] - b[1], a[2] - b[2]]
}

fn cross(a: V3, b: V3) -> V3 {
    [a[1] * b[2] - a[2] * b[1], a[2] * b[0] - a[0] * b[2], a[0] * b[1] - a[1] * b[0]]
}

fn dot(a: V3, b: V3) -> f32 {
    a[0] * b[0] + a[1] * b[1] + a[2] * b[2]
}

/// Ray/triangle test: `(t, geometric normal)` of a hit in `(min_t, max_t)`.
fn hit_triangle(ray: &Ray, a: V3, b: V3, c: V3, min_t: f32, max_t: f32) -> Option<(f32, V3)> {
    let e1 = sub(b, a);
    let e2 = sub(c, a);
    let n = cross(e1, e2);
    let det = dot(ray.direction, n);
    if det.abs() < 1e-4 {
        return None;
    }
    let oa = sub(ray.origin, a);
    let od = cross(oa, ray.direction);
    let t = -dot(oa, n) / det;
    let u = -dot(e2, od) / det;
    let v = dot(e1, od) / det;
    if t > min_t && t < max_t && u >= 0.0 && v >= 0.0 && u + v <= 1.0 {
        let len = dot(n, n).sqrt();
        let sign = if dot(n, ray.direction) > 0.0 { -1.0 } else { 1.0 };
        Some((t, [sign * n[0] / len, sign * n[1] / len, sign * n[2] / len]))
    } else {
        None
    }
}

fn closest_with_bvh(bvh: &BVH<Box3>, vertices: &[V3], triangles: &[[usize; 3]], ray: Ray) -> Option<(f32, V3)> {
    let mut best: Option<(f32, V3)> = None;
    let mut max_t = f32::INFINITY;
    let mut it = bvh.intersects(ray);
    loop {
        let (begin, end, _) = it.next(0.0, max_t);
        if (begin, end) == (0, 0) {
            break;
        }
        for t in &triangles[begin..end] {
            if let Some(h) = hit_triangle(&ray, vertices[t[0]], vertices[t[1]], vertices[t[2]], 0.0, max_t) {
                max_t = h.0;
                best = Some(h);
            }
        }
    }
    best
}

fn closest_brute_force(vertices: &[V3], triangles: &[[usize; 3]], ray: Ray) -> Option<(f32, V3)> {
    let mut best: Option<(f32, V3)> = None;
    let mut max_t = f32::INFINITY;
    for t in triangles {
        if let Some(h) = hit_triangle(&ray, vertices[t[0]], vertices[t[1]], vertices[t[2]], 0.0, max_t) {
            max_t = h.0;
            best = Some(h);
        }
    }
    best
}

fn leaf_ranges(bvh: &BVH<Box3>) -> Vec<(usize, usize)> {
    bvh.get_nodes()
        .iter()
        .filter_map(|n| match n.content {
            NodeContent::Triangles(r) => Some(r),
            NodeContent::Children(_) => None,
        })
        .collect()
}

fn unit_cube() -> (Vec<V3>, Vec<[usize; 3]>) {
    let mut vertices = Vec::new();
    for i in 0..8 {
        vertices.push([
            if i & 1 == 0 { -0.5 } else { 0.5 },
            if i & 2 == 0 { -0.5 } else { 0.5 },
            if i & 4 == 0 { -0.5 } else { 0.5 },
        ]);
    }
    let triangles = vec![
        [0, 2, 1], [1, 2, 3], // z = -0.5
        [4, 5, 6], [5, 7, 6], // z = +0.5
        [0, 1, 4], [1, 5, 4], // y = -0.5
        [2, 6, 3], [3, 6, 7], // y = +0.5
        [0, 4, 2], [2, 4, 6], // x = -0.5
        [1, 3, 5], [3, 7, 5], // x = +0.5
    ];
    (vertices, triangles)
}

fn random_triangles(rng: &mut StdRng, count: usize) -> (Vec<V3>, Vec<[usize; 3]>) {
    let mut vertices = Vec::new();
    let mut triangles = Vec::new();
    for t in 0..count {
        let center = loop {
            let p: V3 = [rng.gen_range(-1.0..1.0), rng.gen_range(-1.0..1.0), rng.gen_range(-1.0..1.0)];
            if dot(p, p) <= 1.0 {
                break p;
            }
        };
        for _ in 0..3 {
            vertices.push([
                center[0] + rng.gen_range(-0.1..0.1),
                center[1] + rng.gen_range(-0.1..0.1),
                center[2] + rng.gen_range(-0.1..0.1),
            ]);
        }
        triangles.push([3 * t, 3 * t + 1, 3 * t + 2]);
    }
    (vertices, triangles)
}

#[test]
fn empty_mesh_has_one_empty_leaf() {
    let vertices: Vec<V3> = Vec::new();
    let mut triangles: Vec<[usize; 3]> = Vec::new();
    let bvh = BVH::build(&Midpoint, &vertices, &mut triangles);
    assert_eq!(bvh.get_nodes().len(), 1);
    assert_eq!(leaf_ranges(&bvh), vec![(0, 0)]);
    let ray = Ray { origin: [0.0, 0.0, -3.0], direction: [0.0, 0.0, 1.0] };
    let mut it = bvh.intersects(ray);
    let (begin, end, _) = it.next(0.0, f32::INFINITY);
    assert_eq!((begin, end), (0, 0));
    assert_eq!(it.next(0.0, f32::INFINITY), (0, 0, 0));
    assert_eq!(bvh.depth(), 1);
    assert_eq!(bvh.max_triangle_count(), 0);
}

#[test]
fn cube_front_face_hit() {
    let (vertices, mut triangles) = unit_cube();
    let bvh = BVH::build(&Midpoint, &vertices, &mut triangles);
    let ray = Ray { origin: [0.0, 0.0, -3.0], direction: [0.0, 0.0, 1.0] };
    let (t, normal) = closest_with_bvh(&bvh, &vertices, &triangles, ray).expect("the ray meets the cube");
    assert!((t - 2.5).abs() < 1e-6);
    assert!((normal[0]).abs() < 1e-6 && (normal[1]).abs() < 1e-6 && (normal[2] + 1.0).abs() < 1e-6);
}

#[test]
fn bvh_matches_brute_force_on_random_triangles() {
    let mut rng = StdRng::seed_from_u64(7);
    let (vertices, input) = random_triangles(&mut rng, 1000);
    let mut triangles = input.clone();
    let bvh = BVH::build(&Midpoint, &vertices, &mut triangles);
    let mut hits = 0;
    for _ in 0..1000 {
        let origin: V3 = [rng.gen_range(-2.0..2.0), rng.gen_range(-2.0..2.0), rng.gen_range(-2.0..2.0)];
        let target: V3 = [rng.gen_range(-0.5..0.5), rng.gen_range(-0.5..0.5), rng.gen_range(-0.5..0.5)];
        let ray = Ray { origin, direction: sub(target, origin) };
        let fast = closest_with_bvh(&bvh, &vertices, &triangles, ray).map(|h| h.0);
        let slow = closest_brute_force(&vertices, &input, ray).map(|h| h.0);
        match (fast, slow) {
            (Some(a), Some(b)) => {
                hits += 1;
                assert!((a - b).abs() <= 4.0 * f32::EPSILON * b.abs().max(1.0), "{a} != {b}");
            }
            (None, None) => {}
            other => panic!("bvh and brute force disagree: {other:?}"),
        }
    }
    assert!(hits > 0);
}

#[test]
fn leaf_ranges_partition_the_triangles() {
    let mut rng = StdRng::seed_from_u64(11);
    let (vertices, input) = random_triangles(&mut rng, 500);
    let mut triangles = input.clone();
    let bvh = BVH::build(&Midpoint, &vertices, &mut triangles);
    let mut ranges = leaf_ranges(&bvh);
    ranges.sort();
    assert!(ranges.len() > 1);
    let mut next = 0;
    for (begin, end) in &ranges {
        assert_eq!(*begin, next);
        assert!(end > begin);
        next = *end;
    }
    assert_eq!(next, 500);
    let mut a = input.clone();
    let mut b = triangles.clone();
    a.sort();
    b.sort();
    assert_eq!(a, b);
    let depth = bvh.depth();
    assert!(depth >= 2 && depth as usize <= MAX_DEPTH);
    let largest = ranges.iter().map(|(b, e)| e - b).max().unwrap();
    assert_eq!(bvh.max_triangle_count() as usize, largest);
}

#[test]
fn traversal_yields_each_leaf_once() {
    let mut rng = StdRng::seed_from_u64(3);
    let (vertices, mut triangles) = random_triangles(&mut rng, 300);
    let t0 = triangles[0];
    let mut target = [0.0f32; 3];
    for a in 0..3 {
        target[a] = (vertices[t0[0]][a] + vertices[t0[1]][a] + vertices[t0[2]][a]) / 3.0;
    }
    let bvh = BVH::build(&Midpoint, &vertices, &mut triangles);
    let origin = [-3.0, 0.3, 0.2];
    let ray = Ray { origin, direction: sub(target, origin) };
    let mut it = bvh.intersects(ray);
    let mut seen = Vec::new();
    loop {
        let (begin, end, tests) = it.next(0.0, f32::INFINITY);
        assert!(tests >= 1 || (begin, end) == (0, 0));
        if (begin, end) == (0, 0) {
            break;
        }
        seen.push((begin, end));
    }
    let count = seen.len();
    seen.sort();
    seen.dedup();
    assert_eq!(seen.len(), count);
    assert!(count >= 1);
}

#[test]
fn mesh_collide_hits_the_cube_front_face() {
    let (vertices, triangles) = unit_cube();
    let mesh: Mesh<V3, Box3> = Mesh::new(&Midpoint, vertices, triangles);
    let ray = Ray { origin: [0.0, 0.0, -3.0], direction: [0.0, 0.0, 1.0] };
    let (hit, report) = mesh.collide(ray, 0.0, f32::INFINITY);
    let (t, normal) = hit.expect("the ray meets the cube");
    assert!((t - 2.5).abs() < 1e-6);
    assert_eq!(normal, [0.0, 0.0, -1.0]);
    assert!(report.aabb_tests >= 1);
    assert!(report.triangle_tests >= 2);
    let miss = Ray { origin: [0.0, 2.0, -3.0], direction: [0.0, 0.0, 1.0] };
    assert!(mesh.collide(miss, 0.0, f32::INFINITY).0.is_none());
    let (behind, _) = mesh.collide(ray, 0.0, 2.0);
    assert!(behind.is_none());
}

#[test]
fn mesh_collide_matches_brute_force() {
    let mut rng = StdRng::seed_from_u64(21);
    let (vertices, input) = random_triangles(&mut rng, 1000);
    let mesh: Mesh<V3, Box3> = Mesh::new(&Midpoint, vertices.clone(), input.clone());
    assert_eq!(mesh.get_vertices(), &vertices);
    assert_eq!(mesh.get_triangles().len(), 1000);
    let mut hits = 0;
    for _ in 0..1000 {
        let origin: V3 = [rng.gen_range(-2.0..2.0), rng.gen_range(-2.0..2.0), rng.gen_range(-2.0..2.0)];
        let target: V3 = [rng.gen_range(-0.5..0.5), rng.gen_range(-0.5..0.5), rng.gen_range(-0.5..0.5)];
        let ray = Ray { origin, direction: sub(target, origin) };
        let fast = mesh.collide(ray, 0.0, f32::INFINITY).0.map(|h| h.0);
        let slow = closest_brute_force(&vertices, &input, ray).map(|h| h.0);
        match (fast, slow) {
            (Some(a), Some(b)) => {
                hits += 1;
                assert!((a - b).abs() <= 4.0 * f32::EPSILON * b.abs().max(1.0), "{a} != {b}");
            }
            (None, None) => {}
            other => panic!("mesh and brute force disagree: {other:?}"),
        }
    }
    assert!(hits > 0);
}

#[test]
fn empty_mesh_never_hits() {
    let mesh: Mesh<V3, Box3> = Mesh::new(&Midpoint, Vec::new(), Vec::new());
    let ray = Ray { origin: [0.0, 0.0, -3.0], direction: [0.0, 0.0, 1.0] };
    let (hit, report) = mesh.collide(ray, 0.0, f32::INFINITY);
    assert!(hit.is_none());
    assert_eq!(report.triangle_tests, 0);
    assert_eq!(report.aabb_tests, 1);
}

/// Peels one triangle off the front of every range and always calls it worth it.
struct PeelOne;

impl BvhGeometry<V3, Box3, V3> for PeelOne {
    fn centroid(&self, vertices: &Vec<V3>, t: &[usize; 3]) -> V3 {
        vertices[t[0]]
    }

    fn bounds(&self, _vertices: &Vec<V3>) -> Box3 {
        EMPTY
    }

    fn split_sides(&self, _vertices: &Vec<V3>, _triangles: &Vec<[usize; 3]>, _centroids: &Vec<V3>, start: usize, end: usize) -> Vec<bool> {
        (start..end).map(|k| k == start).collect()
    }

    fn enclose(&self, _vertices: &Vec<V3>, _triangles: &Vec<[usize; 3]>, _start: usize, _end: usize) -> Box3 {
        EMPTY
    }

    fn split_pays(&self, _node: &Box3, _count: usize, _left: &Box3, _lc: usize, _right: &Box3, _rc: usize) -> bool {
        true
    }
}

/// Never finds a split worth making.
struct NeverSplit;

impl BvhGeometry<V3, Box3, V3> for NeverSplit {
    fn centroid(&self, vertices: &Vec<V3>, t: &[usize; 3]) -> V3 {
        vertices[t[0]]
    }

    fn bounds(&self, _vertices: &Vec<V3>) -> Box3 {
        EMPTY
    }

    fn split_sides(&self, _vertices: &Vec<V3>, _triangles: &Vec<[usize; 3]>, _centroids: &Vec<V3>, start: usize, end: usize) -> Vec<bool> {
        (start..end).map(|k| k % 2 == 0).collect()
    }

    fn enclose(&self, _vertices: &Vec<V3>, _triangles: &Vec<[usize; 3]>, _start: usize, _end: usize) -> Box3 {
        EMPTY
    }

    fn split_pays(&self, _node: &Box3, _count: usize, _left: &Box3, _lc: usize, _right: &Box3, _rc: usize) -> bool {
        false
    }
}

fn line_of_triangles(n: usize) -> (Vec<V3>, Vec<[usize; 3]>) {
    let vertices: Vec<V3> = (0..n).map(|i| [i as f32, 0.0, 0.0]).collect();
    let triangles = (0..n).map(|i| [i, i, i]).collect();
    (vertices, triangles)
}

#[test]
fn depth_is_capped() {
    let (vertices, mut triangles) = line_of_triangles(100);
    let bvh = BVH::build(&PeelOne, &vertices, &mut triangles);
    assert_eq!(bvh.depth() as usize, MAX_DEPTH);
    assert_eq!(bvh.max_triangle_count(), 100 - 31);
    let mut ranges = leaf_ranges(&bvh);
    ranges.sort();
    assert_eq!(ranges.len(), 32);
    assert_eq!(ranges[31], (31, 100));
}

#[test]
fn no_saving_keeps_a_single_leaf() {
    let (vertices, mut triangles) = line_of_triangles(10);
    let bvh = BVH::build(&NeverSplit, &vertices, &mut triangles);
    assert_eq!(bvh.get_nodes().len(), 1);
    assert_eq!(leaf_ranges(&bvh), vec![(0, 10)]);
    // The stable partition has run before the cost check.
    let order: Vec<usize> = triangles.iter().map(|t| t[0]).collect();
    assert_eq!(order, vec![0, 2, 4, 6, 8, 1, 3, 5, 7, 9]);
}

#[test]
fn node_boxes_enclose_their_triangles() {
    let mut rng = StdRng::seed_from_u64(5);
    let (vertices, mut triangles) = random_triangles(&mut rng, 400);
    let bvh = BVH::build(&Midpoint, &vertices, &mut triangles);
    let nodes = bvh.get_nodes();
    fn leaves_under(nodes: &[raytracer::BVHNode<Box3>], i: usize, out: &mut Vec<(usize, usize)>) {
        match nodes[i].content {
            NodeContent::Triangles(r) => out.push(r),
            NodeContent::Children((l, r)) => {
                leaves_under(nodes, l, out);
                leaves_under(nodes, r, out);
            }
        }
    }
    for i in 0..nodes.len() {
        let mut ranges = Vec::new();
        leaves_under(nodes, i, &mut ranges);
        let b = nodes[i].aabb;
        for (begin, end) in ranges {
            for t in &triangles[begin..end] {
                for &v in t {
                    for a in 0..3 {
                        assert!(b.min[a] <= vertices[v][a] && vertices[v][a] <= b.max[a]);
                    }
                }
            }
        }
    }
}

/// Accepts or rejects every box, whatever the bounds.
struct Always(bool);

impl BoxProbe<Box3, f32> for Always {
    fn probe(&self, _b: &Box3, _min_t: f32, _max_t: f32) -> bool {
        self.0
    }
}

#[test]
fn accepting_probe_yields_every_leaf_once() {
    let mut rng = StdRng::seed_from_u64(9);
    let (vertices, mut triangles) = random_triangles(&mut rng, 200);
    let bvh = BVH::build(&Midpoint, &vertices, &mut triangles);
    let mut it = bvh.intersects(Always(true));
    let mut seen = Vec::new();
    let mut tests = 0;
    loop {
        let (begin, end, n) = it.next(0.0, 1.0);
        tests += n;
        if (begin, end) == (0, 0) {
            break;
        }
        seen.push((begin, end));
    }
    seen.sort();
    let mut all = leaf_ranges(&bvh);
    all.sort();
    assert_eq!(seen, all);
    assert_eq!(tests as usize, bvh.get_nodes().len());
}

#[test]
fn rejecting_probe_stops_at_the_root() {
    let (vertices, mut triangles) = unit_cube();
    let bvh = BVH::build(&Midpoint, &vertices, &mut triangles);
    let mut it = bvh.intersects(Always(false));
    assert_eq!(it.next(0.0, 1.0), (0, 0, 1));
    assert_eq!(it.next(0.0, 1.0), (0, 0, 0));
}

/// A shift along z, standing in for an object transform.
#[derive(Debug, Clone, Copy, PartialEq)]
struct Shift(f32);

impl Invert<f32> for Shift {
    fn try_inverse(&self) -> Option<Self> {
        Some(Shift(-self.0))
    }

    fn normal_matrix(_inverse: &Self) -> f32 {
        1.0
    }
}

struct World(Ray);

impl WorldProbe<Shift, f32, Ray, f32, (f32, V3), (f32, V3)> for World {
    fn to_local(&self, object: &Object<Shift, f32>) -> Ray {
        let shift = object.get_inv_transform().0;
        Ray { origin: [self.0.origin[0], self.0.origin[1], self.0.origin[2] + shift], direction: self.0.direction }
    }

    fn to_world(&self, _object: &Object<Shift, f32>, hit: (f32, V3)) -> (f32, V3) {
        hit
    }

    fn distance(&self, hit: &(f32, V3)) -> f32 {
        hit.0
    }

    fn nearer(&self, a: f32, b: f32) -> bool {
        a < b
    }
}

#[test]
fn scene_hit_finds_the_nearest_object() {
    let mut scene: Scene<Mesh<V3, Box3>, &str, Shift, f32, (), ()> = Scene::new((), ());
    let (vertices, triangles) = unit_cube();
    let cube = scene.add_mesh(Mesh::new(&Midpoint, vertices, triangles));
    let far = scene.add_material("far");
    let near = scene.add_material("near");
    scene.add_object(Object::new(cube, Shift(10.0), far).unwrap()).unwrap();
    scene.add_object(Object::new(cube, Shift(0.0), near).unwrap()).unwrap();
    let ray = Ray { origin: [0.0, 0.0, -3.0], direction: [0.0, 0.0, 1.0] };
    let (found, report) = scene.hit(&World(ray), 0.01, f32::INFINITY);
    let ((t, _), material) = found.expect("the ray meets a cube");
    assert!((t - 2.5).abs() < 1e-6);
    assert_eq!(*material, "near");
    assert!(report.aabb_tests >= 2);
    let up = Ray { origin: [0.0, 0.0, -3.0], direction: [0.0, 1.0, 0.0] };
    assert!(scene.hit(&World(up), 0.01, f32::INFINITY).0.is_none());
}

#[test]
fn empty_scene_hits_nothing() {
    let scene: Scene<Mesh<V3, Box3>, &str, Shift, f32, (), ()> = Scene::new((), ());
    let ray = Ray { origin: [0.0, 0.0, -3.0], direction: [0.0, 0.0, 1.0] };
    let (found, report) = scene.hit(&World(ray), 0.01, f32::INFINITY);
    assert!(found.is_none());
    assert_eq!(report, raytracer::CollisionReport { triangle_tests: 0, aabb_tests: 0 });
}

/// Brightness transport for tests: every surface sends the ray on along +z
/// from far beyond the scene, halves what comes back and adds one.
impl Shading<&'static str, f32, (f32, V3), f32> for World {
    fn scatter(&self, _hit: &(f32, V3), _material: &&'static str) -> (World, f32, f32) {
        (World(Ray { origin: [0.0, 0.0, 100.0], direction: [0.0, 0.0, 1.0] }), 0.5, 1.0)
    }

    fn environment(&self, environment: &f32) -> f32 {
        *environment
    }

    fn shade(scattered: f32, attenuation: f32, emission: f32) -> f32 {
        scattered * attenuation + emission
    }

    fn black() -> f32 {
        0.0
    }
}

fn lit_cube_scene(environment: f32) -> Scene<Mesh<V3, Box3>, &'static str, Shift, f32, (), f32> {
    let mut scene = Scene::new((), environment);
    let (vertices, triangles) = unit_cube();
    let cube = scene.add_mesh(Mesh::new(&Midpoint, vertices, triangles));
    let lamp = scene.add_material("lamp");
    scene.add_object(Object::new(cube, Shift(0.0), lamp).unwrap()).unwrap();
    scene
}

#[test]
fn trace_scatters_then_samples_the_environment() {
    let scene = lit_cube_scene(2.0);
    let ray = World(Ray { origin: [0.0, 0.0, -3.0], direction: [0.0, 0.0, 1.0] });
    let (c, report) = RayTracer.trace(&ray, &scene, 0, 8, 0.01, f32::INFINITY);
    assert_eq!(c, 2.0 * 0.5 + 1.0);
    assert!(report.aabb_tests >= 2);
    let (c, _) = RayTracer.trace(&ray, &scene, 0, 1, 0.01, f32::INFINITY);
    assert_eq!(c, 0.0 * 0.5 + 1.0);
    let (c, report) = RayTracer.trace(&ray, &scene, 3, 3, 0.01, f32::INFINITY);
    assert_eq!(c, 0.0);
    assert_eq!(report, raytracer::CollisionReport { triangle_tests: 0, aabb_tests: 0 });
}

#[test]
fn trace_in_an_empty_scene_returns_the_environment() {
    let scene: Scene<Mesh<V3, Box3>, &'static str, Shift, f32, (), f32> = Scene::new((), 0.75);
    for direction in [[0.0, 0.0, 1.0], [1.0, -2.0, 0.5], [0.0, 1.0, 0.0]] {
        let ray = World(Ray { origin: [0.0, 0.0, 0.0], direction });
        assert_eq!(RayTracer.trace(&ray, &scene, 0, 4, 0.01, f32::INFINITY).0, 0.75);
    }
}
