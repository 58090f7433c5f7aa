use vstd::prelude::*;
use crate::bvh::BoxProbe;
use crate::image::ImageView;
use crate::mesh::{Mesh, TriangleProbe};
use crate::report::{report_sum, CollisionReport};
use crate::scene::{Scene, WorldProbe};

verus! {

/// How a render is carried out: the path length bound and the number of
/// samples taken per pixel.
#[derive(Debug, Clone, Copy, PartialEq, Eq, Structural)]
pub struct RenderOptions {
    pub max_depth: u32,
    pub rays_per_pixel: u32,
}

/// The renderer. It holds no state of its own: everything it needs comes
/// with each call.
#[derive(Debug, Clone, Copy, PartialEq, Eq, Structural)]
pub struct RayTracer;

/// The light-transport side of a path, supplied by the owner of the ray
/// type: `Mt` is a material, `E` the environment, `W` a world-space hit and
/// `Col` a colour.
pub trait Shading<Mt, E, W, Col>: Sized {
    /// The ray leaving `hit` on a surface of `material`, the attenuation of
    /// the light it brings back, and the light the surface emits.
    fn scatter(&self, hit: &W, material: &Mt) -> (Self, Col, Col);

    /// The light arriving along this ray when it meets nothing.
    fn environment(&self, environment: &E) -> Col;

    /// `scattered * attenuation + emission`, channel by channel.
    fn shade(scattered: Col, attenuation: Col, emission: Col) -> Col;

    /// No light at all.
    fn black() -> Col;
}

/// Work counters of the bounces of a path from bounce `k` on, each bounce's
/// added to the sum of those after it.
pub open spec fn path_reports<R, M, Col>(path: Seq<(R, M, CollisionReport, Col, Col, Col, R, Col)>, k: int) -> CollisionReport
    decreases path.len() - k,
{
    if k >= path.len() {
        CollisionReport { triangle_tests: 0, aabb_tests: 0 }
    } else {
        report_sum(path[k].2, path_reports(path, k + 1))
    }
}

/// Bounce `k` of a path. A bounce holds the ray, the scene's answer for it
/// (hit and report), the attenuation, emission and next ray `scatter` gave
/// at a hit, the light it brings back, and the light brought back along the
/// next ray. At a hit the light is `shade` of the next ray's light with that
/// attenuation and emission. A bounce followed by another hit a surface, and
/// the next bounce starts at its next ray and brings back its next ray's
/// light. The last bounce either missed, and its light is the environment's
/// answer, or hit a surface at the deepest level, and its next ray's light is
/// the `black` answer.
pub open spec fn bounce_ok<'a, V, B: Copy, Mt, T, N, C, E, R, L, F: Copy, H, W, Col>(
    scene: &'a Scene<Mesh<V, B>, Mt, T, N, C, E>,
    min_t: F,
    max_t: F,
    path: Seq<(R, Option<(W, &'a Mt)>, CollisionReport, Col, Col, Col, R, Col)>,
    k: int,
) -> bool
    where
        R: WorldProbe<T, N, L, F, H, W> + Shading<Mt, E, W, Col>,
        L: BoxProbe<B, F> + TriangleProbe<V, F, H>,
{
    let b = path[k];
    &&& call_ensures(Scene::<Mesh<V, B>, Mt, T, N, C, E>::hit::<R, L, F, H, W>, (scene, &b.0, min_t, max_t), (b.1, b.2))
    &&& b.1 is Some ==> {
        &&& call_ensures(R::scatter, (&b.0, &b.1.unwrap().0, b.1.unwrap().1), (b.6, b.3, b.4))
        &&& call_ensures(R::shade, (b.7, b.3, b.4), b.5)
    }
    &&& if k + 1 < path.len() {
        &&& b.1 is Some
        &&& path[k + 1].0 == b.6
        &&& path[k + 1].5 == b.7
    } else if b.1 is None {
        call_ensures(R::environment, (&b.0, &scene.environment()), b.5)
    } else {
        call_ensures(R::black, (), b.7)
    }
}

/// `path` is the whole path of `ray` from level `depth`: it starts at `ray`,
/// has no more bounces than levels remain, ends in a hit only at the deepest
/// level, every bounce is as `bounce_ok` says, and it brings back `light`
/// with the summed counters `report`.
pub open spec fn path_ok<'a, V, B: Copy, Mt, T, N, C, E, R, L, F: Copy, H, W, Col>(
    scene: &'a Scene<Mesh<V, B>, Mt, T, N, C, E>,
    min_t: F,
    max_t: F,
    ray: R,
    depth: int,
    max_depth: int,
    path: Seq<(R, Option<(W, &'a Mt)>, CollisionReport, Col, Col, Col, R, Col)>,
    light: Col,
    report: CollisionReport,
) -> bool
    where
        R: WorldProbe<T, N, L, F, H, W> + Shading<Mt, E, W, Col>,
        L: BoxProbe<B, F> + TriangleProbe<V, F, H>,
{
    &&& path.len() >= 1
    &&& path[0].0 == ray
    &&& depth + path.len() <= max_depth
    &&& path.last().1 is Some ==> depth + path.len() == max_depth
    &&& forall|k: int| 0 <= k < path.len() ==> #[trigger] bounce_ok::<V, B, Mt, T, N, C, E, R, L, F, H, W, Col>(scene, min_t, max_t, path, k)
    &&& light == path[0].5
    &&& report == path_reports(path, 0)
}

/// Some path of `ray` from level `depth` brings back `light` with the
/// summed counters `report`.
pub open spec fn traced<'a, V, B: Copy, Mt, T, N, C, E, R, L, F: Copy, H, W, Col>(
    scene: &'a Scene<Mesh<V, B>, Mt, T, N, C, E>,
    min_t: F,
    max_t: F,
    ray: R,
    depth: int,
    max_depth: int,
    light: Col,
    report: CollisionReport,
) -> bool
    where
        R: WorldProbe<T, N, L, F, H, W> + Shading<Mt, E, W, Col>,
        L: BoxProbe<B, F> + TriangleProbe<V, F, H>,
{
    exists|path: Seq<(R, Option<(W, &'a Mt)>, CollisionReport, Col, Col, Col, R, Col)>| #[trigger] path_ok::<V, B, Mt, T, N, C, E, R, L, F, H, W, Col>(scene, min_t, max_t, ray, depth, max_depth, path, light, report)
}

proof fn lemma_path_reports_tail<R, M, Col>(head: (R, M, CollisionReport, Col, Col, Col, R, Col), rest: Seq<(R, M, CollisionReport, Col, Col, Col, R, Col)>, k: int)
    requires
        0 <= k <= rest.len(),
    ensures
        path_reports(seq![head] + rest, k + 1) == path_reports(rest, k),
    decreases rest.len() - k,
{
    let path = seq![head] + rest;
    if k < rest.len() {
        lemma_path_reports_tail(head, rest, k + 1);
        assert(path[k + 1] == rest[k]);
    }
}

impl RayTracer {
    /// Radiance arriving along `ray`, following at most `max_depth - depth`
    /// bounces: a hit scatters and recurses, a miss samples the environment,
    /// and a path that reaches `max_depth` brings back no light. Surfaces are
    /// searched strictly between `min_t` and `max_t`. The work counters are
    /// summed along the path, saturating at the largest count.
    pub fn trace<'a, V, B: Copy, Mt, T, N, C, E, R, L, F: Copy, H, W, Col>(
        &self,
        ray: &R,
        scene: &'a Scene<Mesh<V, B>, Mt, T, N, C, E>,
        depth: u32,
        max_depth: u32,
        min_t: F,
        max_t: F,
    ) -> (r: (Col, CollisionReport))
        where
            R: WorldProbe<T, N, L, F, H, W> + Shading<Mt, E, W, Col>,
            L: BoxProbe<B, F> + TriangleProbe<V, F, H>,
        requires
            scene.wf(),
        ensures
            depth >= max_depth ==> r.1 == (CollisionReport { triangle_tests: 0, aabb_tests: 0 }) && call_ensures(R::black, (), r.0),
            depth < max_depth ==> traced::<V, B, Mt, T, N, C, E, R, L, F, H, W, Col>(scene, min_t, max_t, *ray, depth as int, max_depth as int, r.0, r.1),
        decreases max_depth - depth,
    {
        if depth >= max_depth {
            return (R::black(), CollisionReport::empty());
        }
        let (found, here) = scene.hit(ray, min_t, max_t);
        let ghost f0 = found;
        match found {
            Some((hit, material)) => {
                let (next, attenuation, emission) = ray.scatter(&hit, material);
                let (scattered, further) = self.trace(&next, scene, depth + 1, max_depth, min_t, max_t);
                let shaded = R::shade(scattered, attenuation, emission);
                let total = here.combine(&further);
                proof {
                    let head: (R, Option<(W, &'a Mt)>, CollisionReport, Col, Col, Col, R, Col) = (*ray, f0, here, attenuation, emission, shaded, next, scattered);
                    if depth + 1 >= max_depth {
                        let path = seq![head];
                        assert(path_reports(path, 1) == CollisionReport { triangle_tests: 0, aabb_tests: 0 });
                        assert(call_ensures(R::scatter, (ray, &f0.unwrap().0, f0.unwrap().1), (next, attenuation, emission)));
                        assert(call_ensures(R::black, (), scattered));
                        assert(call_ensures(R::shade, (scattered, attenuation, emission), shaded));
                        assert(path[0] == head);
                        assert(bounce_ok::<V, B, Mt, T, N, C, E, R, L, F, H, W, Col>(scene, min_t, max_t, path, 0));
                        assert(path_ok::<V, B, Mt, T, N, C, E, R, L, F, H, W, Col>(scene, min_t, max_t, *ray, depth as int, max_depth as int, path, shaded, total));
                    } else {
                        let rest = choose|rest: Seq<(R, Option<(W, &'a Mt)>, CollisionReport, Col, Col, Col, R, Col)>|
                            #[trigger] path_ok::<V, B, Mt, T, N, C, E, R, L, F, H, W, Col>(scene, min_t, max_t, next, depth + 1, max_depth as int, rest, scattered, further);
                        let path = seq![head] + rest;
                        lemma_path_reports_tail(head, rest, 0);
                        assert forall|k: int| 0 <= k < path.len() implies #[trigger] bounce_ok::<V, B, Mt, T, N, C, E, R, L, F, H, W, Col>(scene, min_t, max_t, path, k) by {
                            if k == 0 {
                                assert(path[1] == rest[0]);
                            } else {
                                assert(bounce_ok::<V, B, Mt, T, N, C, E, R, L, F, H, W, Col>(scene, min_t, max_t, rest, k - 1));
                                assert(path[k] == rest[k - 1]);
                                if k + 1 < path.len() {
                                    assert(path[k + 1] == rest[k]);
                                }
                            }
                        }
                        assert(path.last() == rest.last());
                        assert(path_ok::<V, B, Mt, T, N, C, E, R, L, F, H, W, Col>(scene, min_t, max_t, *ray, depth as int, max_depth as int, path, shaded, total));
                    }
                }
                assert(traced::<V, B, Mt, T, N, C, E, R, L, F, H, W, Col>(scene, min_t, max_t, *ray, depth as int, max_depth as int, shaded, total));
                (shaded, total)
            },
            None => {
                let light = ray.environment(scene.get_environment());
                proof {
                    let att: Col = arbitrary();
                    let em: Col = arbitrary();
                    let after: R = arbitrary();
                    let beyond: Col = arbitrary();
                    let path = seq![(*ray, f0, here, att, em, light, after, beyond)];
                    assert(bounce_ok::<V, B, Mt, T, N, C, E, R, L, F, H, W, Col>(scene, min_t, max_t, path, 0));
                    assert(path_reports(path, 1) == CollisionReport { triangle_tests: 0, aabb_tests: 0 });
                    assert(path_reports(path, 0) == here);
                    assert(path_ok::<V, B, Mt, T, N, C, E, R, L, F, H, W, Col>(scene, min_t, max_t, *ray, depth as int, max_depth as int, path, light, here));
                }
                assert(traced::<V, B, Mt, T, N, C, E, R, L, F, H, W, Col>(scene, min_t, max_t, *ray, depth as int, max_depth as int, light, here));
                (light, here)
            },
        }
    }

    /// The primary-ray samples of a whole `width` by `height` image.
    pub fn shoot_at(resolution: (u32, u32), rays_per_pixel: u32) -> (r: RayIterator)
        requires
            rays_per_pixel >= 1,
        ensures
            r.wf(),
            r.offset() == (0usize, 0usize),
            r.size() == (resolution.0 as usize, resolution.1 as usize),
            r.rays_per_pixel() == rays_per_pixel,
            r.remaining() == resolution.0 * resolution.1 * rays_per_pixel,
            r.cursor() == (if resolution.0 == 0 { resolution.1 as int } else { 0int }, 0int, 0int),
    {
        RayIterator::new(0, 0, resolution.0 as usize, resolution.1 as usize, rays_per_pixel)
    }

    /// The primary-ray samples of one tile.
    pub fn shoot_at_tile(tile: &ImageView, rays_per_pixel: u32) -> (r: RayIterator)
        requires
            rays_per_pixel >= 1,
            tile.wf(),
        ensures
            r.wf(),
            r.offset() == (tile.offset_x as usize, tile.offset_y as usize),
            r.size() == (tile.width as usize, tile.height as usize),
            r.rays_per_pixel() == rays_per_pixel,
            r.remaining() == tile.width * tile.height * rays_per_pixel,
            r.cursor() == (if tile.width == 0 { tile.height as int } else { 0int }, 0int, 0int),
    {
        RayIterator::new(
            tile.offset_x as usize,
            tile.offset_y as usize,
            tile.width as usize,
            tile.height as usize,
            rays_per_pixel,
        )
    }
}

/// Enumerates the primary-ray samples of a window of an image: every pixel
/// row by row, left to right, each `rays_per_pixel` times. Each sample names
/// its pixel both in image coordinates and relative to the window.
#[derive(Debug, Clone, Copy)]
pub struct RayIterator {
    offset_x: usize,
    offset_y: usize,
    width: usize,
    height: usize,
    rays_per_pixel: u32,
    row: usize,
    col: usize,
    ray_index: u32,
}

impl RayIterator {
    pub closed spec fn offset(&self) -> (usize, usize) {
        (self.offset_x, self.offset_y)
    }

    pub closed spec fn size(&self) -> (usize, usize) {
        (self.width, self.height)
    }

    pub closed spec fn rays_per_pixel(&self) -> u32 {
        self.rays_per_pixel
    }

    /// Window row, column and sample number of the next sample.
    pub closed spec fn cursor(&self) -> (int, int, int) {
        (self.row as int, self.col as int, self.ray_index as int)
    }

    /// Number of samples still to come.
    pub closed spec fn remaining(&self) -> int {
        ((self.height - self.row) * self.width - self.col) * self.rays_per_pixel - self.ray_index
    }

    pub closed spec fn wf(&self) -> bool {
        &&& self.rays_per_pixel >= 1
        &&& self.offset_x + self.width <= usize::MAX
        &&& self.offset_y + self.height <= usize::MAX
        &&& self.row <= self.height
        &&& self.row < self.height ==> self.col < self.width && self.ray_index < self.rays_per_pixel
        &&& self.row == self.height ==> self.col == 0 && self.ray_index == 0
    }

    /// Samples of the `width` by `height` window whose top-left pixel is at
    /// column `offset_x`, row `offset_y`.
    pub fn new(offset_x: usize, offset_y: usize, width: usize, height: usize, rays_per_pixel: u32) -> (r: RayIterator)
        requires
            rays_per_pixel >= 1,
            offset_x + width <= usize::MAX,
            offset_y + height <= usize::MAX,
        ensures
            r.wf(),
            r.offset() == (offset_x, offset_y),
            r.size() == (width, height),
            r.rays_per_pixel() == rays_per_pixel,
            r.remaining() == width * height * rays_per_pixel,
            r.cursor() == (if width == 0 { height as int } else { 0int }, 0int, 0int),
    {
        let row = if width == 0 { height } else { 0 };
        let r = RayIterator { offset_x, offset_y, width, height, rays_per_pixel, row, col: 0, ray_index: 0 };
        proof {
            let w = width as int;
            let h = height as int;
            let p = rays_per_pixel as int;
            if width == 0 {
                assert(((h - row) * w - 0) * p - 0 == 0) by (nonlinear_arith)
                    requires w == 0;
                assert(w * h * p == 0) by (nonlinear_arith)
                    requires w == 0;
            } else {
                assert(((h - 0) * w - 0) * p - 0 == w * h * p) by (nonlinear_arith);
            }
        }
        r
    }

    /// The next sample as (`[row, column]` in the image, `[row, column]` in
    /// the window), or `None` once all have been produced.
    pub fn next(&mut self) -> (r: Option<([usize; 2], [usize; 2])>)
        requires
            old(self).wf(),
        ensures
            final(self).wf(),
            final(self).offset() == old(self).offset(),
            final(self).size() == old(self).size(),
            final(self).rays_per_pixel() == old(self).rays_per_pixel(),
            r is None <==> old(self).remaining() == 0,
            final(self).remaining() >= 0,
            ({
                let (row, col, k) = old(self).cursor();
                let (ox, oy) = old(self).offset();
                let (w, h) = old(self).size();
                let rpp = old(self).rays_per_pixel();
                if row < h {
                    &&& r == Some(([(oy + row) as usize, (ox + col) as usize], [row as usize, col as usize]))
                    &&& final(self).remaining() == old(self).remaining() - 1
                    &&& final(self).cursor() == if k + 1 < rpp {
                        (row, col, k + 1)
                    } else if col + 1 < w {
                        (row, col + 1, 0)
                    } else {
                        (row + 1, 0, 0)
                    }
                } else {
                    &&& r is None
                    &&& final(self).cursor() == old(self).cursor()
                    &&& final(self).remaining() == 0
                }
            }),
    {
        if self.row >= self.height {
            proof {
                let z = self.height - self.row;
                assert(z * self.width == 0) by (nonlinear_arith)
                    requires z == 0;
                assert((z * self.width - 0) * self.rays_per_pixel == 0) by (nonlinear_arith)
                    requires z * self.width == 0;
            }
            return None;
        }
        proof {
            let w = self.width as int;
            let h = self.height as int;
            let p = self.rays_per_pixel as int;
            let (row, col, k) = (self.row as int, self.col as int, self.ray_index as int);
            assert((h - row) * w >= w) by (nonlinear_arith)
                requires row < h, w >= 0;
            let x = (h - row) * w - col;
            assert(x * p >= p) by (nonlinear_arith)
                requires x >= 1, p >= 1;
        }
        let sample = ([self.offset_y + self.row, self.offset_x + self.col], [self.row, self.col]);
        let ghost w = self.width as int;
        let ghost h = self.height as int;
        let ghost rpp = self.rays_per_pixel as int;
        let ghost (row, col, k) = (self.row as int, self.col as int, self.ray_index as int);
        if self.ray_index + 1 < self.rays_per_pixel {
            self.ray_index = self.ray_index + 1;
        } else if self.col + 1 < self.width {
            self.ray_index = 0;
            self.col = self.col + 1;
            proof {
                assert(((h - row) * w - col) * rpp - k - 1 == ((h - row) * w - (col + 1)) * rpp) by (nonlinear_arith)
                    requires k + 1 == rpp;
            }
        } else {
            self.ray_index = 0;
            self.col = 0;
            self.row = self.row + 1;
            proof {
                assert(((h - row) * w - col) * rpp - k - 1 == ((h - (row + 1)) * w - 0) * rpp) by (nonlinear_arith)
                    requires k + 1 == rpp, col + 1 == w;
            }
        }
        Some(sample)
    }
}

} // verus!
