use vstd::prelude::*;
use crate::bvh::BoxProbe;
use crate::mesh::{Mesh, TriangleProbe};
use crate::report::{saturating_sum, CollisionReport};

verus! {

/// Position of a mesh in its scene's mesh array.
#[derive(Debug, Clone, Copy, PartialEq, Eq, Structural)]
pub struct MeshHandle(pub usize);

/// Position of a material in its scene's material array.
#[derive(Debug, Clone, Copy, PartialEq, Eq, Structural)]
pub struct MatearialHandle(pub usize);

/// Ways in which building or rendering a scene can fail.
#[derive(Debug, Clone, Copy, PartialEq, Eq, Structural)]
pub enum SceneError {
    /// The scene document or a mesh file is malformed or missing.
    Load,
    /// An object's transform cannot be inverted.
    Geometry,
    /// A handle points past the end of its array.
    Integrity,
    /// The output image cannot be written.
    Io,
}

/// The matrix work an object's transform needs, supplied by the matrix type.
pub trait Invert<N>: Sized {
    /// The inverse, or `None` for a singular matrix.
    fn try_inverse(&self) -> Option<Self>;

    /// The matrix that carries normals from object space to world space,
    /// derived from the transform's inverse.
    fn normal_matrix(inverse: &Self) -> N;
}

/// An instance of a mesh: its placement in the world and its material, with
/// the inverse transform and normal matrix kept alongside the transform.
#[derive(Debug, Clone, Copy)]
pub struct Object<T, N> {
    transform: T,
    inv_transform: T,
    normal_mat: N,
    mesh: MeshHandle,
    material: MatearialHandle,
}

impl<T, N> Object<T, N> {
    pub closed spec fn transform(&self) -> T {
        self.transform
    }

    pub closed spec fn inv_transform(&self) -> T {
        self.inv_transform
    }

    pub closed spec fn normal_matrix(&self) -> N {
        self.normal_mat
    }

    pub closed spec fn mesh_handle(&self) -> MeshHandle {
        self.mesh
    }

    pub closed spec fn material_handle(&self) -> MatearialHandle {
        self.material
    }

    pub fn get_transform(&self) -> (r: &T)
        ensures
            *r == self.transform(),
    {
        &self.transform
    }

    /// The inverse of the transform.
    pub fn get_inv_transform(&self) -> (r: &T)
        ensures
            *r == self.inv_transform(),
    {
        &self.inv_transform
    }

    /// The normal matrix derived from the inverse transform.
    pub fn get_normal_matrix(&self) -> (r: &N)
        ensures
            *r == self.normal_matrix(),
    {
        &self.normal_mat
    }

    pub fn get_mesh(&self) -> (r: MeshHandle)
        ensures
            r == self.mesh_handle(),
    {
        self.mesh
    }

    pub fn get_material(&self) -> (r: MatearialHandle)
        ensures
            r == self.material_handle(),
    {
        self.material
    }
}

impl<T: Invert<N>, N> Object<T, N> {
    /// An object of `mesh` placed by `transform`, made of `material`. Fails
    /// with `Geometry` when the transform has no inverse.
    pub fn new(mesh: MeshHandle, transform: T, material: MatearialHandle) -> (r: Result<Object<T, N>, SceneError>)
        ensures
            r is Err ==> call_ensures(T::try_inverse, (&transform,), None),
            r is Ok ==> r.unwrap().mesh_handle() == mesh && r.unwrap().material_handle() == material
                && r.unwrap().transform() == transform
                && call_ensures(T::try_inverse, (&transform,), Some(r.unwrap().inv_transform()))
                && call_ensures(T::normal_matrix, (&r.unwrap().inv_transform(),), r.unwrap().normal_matrix()),
            r is Err ==> r == Err::<Object<T, N>, SceneError>(SceneError::Geometry),
    {
        match transform.try_inverse() {
            Some(inv_transform) => {
                let normal_mat = T::normal_matrix(&inv_transform);
                Ok(Object { transform, inv_transform, normal_mat, mesh, material })
            },
            None => Err(SceneError::Geometry),
        }
    }

    /// Replaces the transform and the matrices derived from it. Fails with
    /// `Geometry`, leaving the object as it was, when the new transform has
    /// no inverse.
    pub fn set_transform(&mut self, new_transform: T) -> (r: Result<(), SceneError>)
        ensures
            final(self).mesh_handle() == old(self).mesh_handle(),
            final(self).material_handle() == old(self).material_handle(),
            r is Err ==> call_ensures(T::try_inverse, (&new_transform,), None),
            r is Ok ==> final(self).transform() == new_transform
                && call_ensures(T::try_inverse, (&new_transform,), Some(final(self).inv_transform()))
                && call_ensures(T::normal_matrix, (&final(self).inv_transform(),), final(self).normal_matrix()),
            r is Err ==> r == Err::<(), SceneError>(SceneError::Geometry) && *final(self) == *old(self),
    {
        match new_transform.try_inverse() {
            Some(inv_transform) => {
                self.normal_mat = T::normal_matrix(&inv_transform);
                self.inv_transform = inv_transform;
                self.transform = new_transform;
                Ok(())
            },
            None => Err(SceneError::Geometry),
        }
    }
}

/// The world-space side of a scene query, supplied by the owner of the ray.
pub trait WorldProbe<T, N, L, F, H, W> {
    /// This ray in an object's own space.
    fn to_local(&self, object: &Object<T, N>) -> L;

    /// A hit found in an object's space, carried back to world space.
    fn to_world(&self, object: &Object<T, N>, hit: H) -> W;

    /// The ray parameter of a world-space hit.
    fn distance(&self, hit: &W) -> F;

    /// Whether parameter `a` comes before `b` along the ray.
    fn nearer(&self, a: F, b: F) -> bool;
}

/// Whether both handles of `o` fall inside arrays of the given lengths.
pub open spec fn handles_in_range<T, N>(o: Object<T, N>, mesh_count: int, material_count: int) -> bool {
    o.mesh_handle().0 < mesh_count && o.material_handle().0 < material_count
}

/// Everything a render needs: meshes and materials addressed by handles,
/// the objects that place them, the camera and the environment.
pub struct Scene<M, Mt, T, N, C, E> {
    meshes: Vec<M>,
    materials: Vec<Mt>,
    objects: Vec<Object<T, N>>,
    camera: C,
    environment: E,
}

impl<M, Mt, T, N, C, E> Scene<M, Mt, T, N, C, E> {
    pub closed spec fn mesh_seq(&self) -> Seq<M> {
        self.meshes@
    }

    pub closed spec fn material_seq(&self) -> Seq<Mt> {
        self.materials@
    }

    pub closed spec fn object_seq(&self) -> Seq<Object<T, N>> {
        self.objects@
    }

    pub closed spec fn camera(&self) -> C {
        self.camera
    }

    pub closed spec fn environment(&self) -> E {
        self.environment
    }

    pub fn get_camera(&self) -> (r: &C)
        ensures
            *r == self.camera(),
    {
        &self.camera
    }

    pub fn get_environment(&self) -> (r: &E)
        ensures
            *r == self.environment(),
    {
        &self.environment
    }

    /// Every object's handles are in range.
    pub open spec fn wf(&self) -> bool {
        forall|i: int| 0 <= i < self.object_seq().len()
            ==> handles_in_range(#[trigger] self.object_seq()[i], self.mesh_seq().len() as int, self.material_seq().len() as int)
    }

    /// An empty scene seen through `camera`.
    pub fn new(camera: C, environment: E) -> (r: Scene<M, Mt, T, N, C, E>)
        ensures
            r.wf(),
            r.mesh_seq().len() == 0,
            r.material_seq().len() == 0,
            r.object_seq().len() == 0,
            r.camera() == camera,
            r.environment() == environment,
    {
        Scene { meshes: Vec::new(), materials: Vec::new(), objects: Vec::new(), camera, environment }
    }

    /// A scene of the given parts, after checking every object's handles.
    /// Fails with `Integrity` when some handle is out of range.
    pub fn from_parts(meshes: Vec<M>, materials: Vec<Mt>, objects: Vec<Object<T, N>>, camera: C, environment: E)
        -> (r: Result<Scene<M, Mt, T, N, C, E>, SceneError>)
        ensures
            (forall|i: int| 0 <= i < objects@.len()
                ==> handles_in_range(#[trigger] objects@[i], meshes@.len() as int, materials@.len() as int))
                <==> r is Ok,
            r is Ok ==> r.unwrap().wf() && r.unwrap().mesh_seq() == meshes@ && r.unwrap().material_seq() == materials@
                && r.unwrap().object_seq() == objects@,
            r is Err ==> r == Err::<Scene<M, Mt, T, N, C, E>, SceneError>(SceneError::Integrity),
    {
        let mut i: usize = 0;
        while i < objects.len()
            invariant
                i <= objects@.len(),
                forall|q: int| 0 <= q < i ==> handles_in_range(#[trigger] objects@[q], meshes@.len() as int, materials@.len() as int),
            decreases objects@.len() - i,
        {
            if objects[i].mesh.0 >= meshes.len() || objects[i].material.0 >= materials.len() {
                assert(!handles_in_range(objects@[i as int], meshes@.len() as int, materials@.len() as int));
                return Err(SceneError::Integrity);
            }
            i = i + 1;
        }
        Ok(Scene { meshes, materials, objects, camera, environment })
    }

    /// Adds a mesh and returns its handle.
    pub fn add_mesh(&mut self, mesh: M) -> (r: MeshHandle)
        requires
            old(self).wf(),
        ensures
            final(self).wf(),
            r.0 == old(self).mesh_seq().len(),
            final(self).mesh_seq() == old(self).mesh_seq().push(mesh),
            final(self).material_seq() == old(self).material_seq(),
            final(self).object_seq() == old(self).object_seq(),
    {
        let r = MeshHandle(self.meshes.len());
        self.meshes.push(mesh);
        proof {
            assert forall|i: int| 0 <= i < self.object_seq().len() implies handles_in_range(
                #[trigger] self.object_seq()[i], self.mesh_seq().len() as int, self.material_seq().len() as int) by {
                assert(handles_in_range(old(self).object_seq()[i], old(self).mesh_seq().len() as int, old(self).material_seq().len() as int));
            }
        }
        r
    }

    /// Adds a material and returns its handle.
    pub fn add_material(&mut self, material: Mt) -> (r: MatearialHandle)
        requires
            old(self).wf(),
        ensures
            final(self).wf(),
            r.0 == old(self).material_seq().len(),
            final(self).material_seq() == old(self).material_seq().push(material),
            final(self).mesh_seq() == old(self).mesh_seq(),
            final(self).object_seq() == old(self).object_seq(),
    {
        let r = MatearialHandle(self.materials.len());
        self.materials.push(material);
        proof {
            assert forall|i: int| 0 <= i < self.object_seq().len() implies handles_in_range(
                #[trigger] self.object_seq()[i], self.mesh_seq().len() as int, self.material_seq().len() as int) by {
                assert(handles_in_range(old(self).object_seq()[i], old(self).mesh_seq().len() as int, old(self).material_seq().len() as int));
            }
        }
        r
    }

    /// Adds an object. Fails with `Integrity`, leaving the scene as it was,
    /// when one of its handles is out of range.
    pub fn add_object(&mut self, object: Object<T, N>) -> (r: Result<(), SceneError>)
        requires
            old(self).wf(),
        ensures
            final(self).wf(),
            final(self).mesh_seq() == old(self).mesh_seq(),
            final(self).material_seq() == old(self).material_seq(),
            handles_in_range(object, old(self).mesh_seq().len() as int, old(self).material_seq().len() as int) <==> r is Ok,
            r is Ok ==> final(self).object_seq() == old(self).object_seq().push(object),
            r is Err ==> r == Err::<(), SceneError>(SceneError::Integrity) && final(self).object_seq() == old(self).object_seq(),
    {
        if object.mesh.0 >= self.meshes.len() || object.material.0 >= self.materials.len() {
            return Err(SceneError::Integrity);
        }
        self.objects.push(object);
        proof {
            assert forall|i: int| 0 <= i < self.object_seq().len() implies handles_in_range(
                #[trigger] self.object_seq()[i], self.mesh_seq().len() as int, self.material_seq().len() as int) by {
                if i < old(self).object_seq().len() {
                    assert(handles_in_range(old(self).object_seq()[i], old(self).mesh_seq().len() as int, old(self).material_seq().len() as int));
                }
            }
        }
        Ok(())
    }

    pub fn object_count(&self) -> (r: usize)
        ensures
            r == self.object_seq().len(),
    {
        self.objects.len()
    }

    pub fn mesh_count(&self) -> (r: usize)
        ensures
            r == self.mesh_seq().len(),
    {
        self.meshes.len()
    }

    pub fn material_count(&self) -> (r: usize)
        ensures
            r == self.material_seq().len(),
    {
        self.materials.len()
    }

    pub fn get_objects(&self) -> (r: &Vec<Object<T, N>>)
        ensures
            r@ == self.object_seq(),
    {
        &self.objects
    }

    pub fn get_meshes(&self) -> (r: &Vec<M>)
        ensures
            r@ == self.mesh_seq(),
    {
        &self.meshes
    }

    pub fn get_materials(&self) -> (r: &Vec<Mt>)
        ensures
            r@ == self.material_seq(),
    {
        &self.materials
    }

    /// Object `index` with the mesh and the material its handles name.
    pub fn resolve(&self, index: usize) -> (r: (&Object<T, N>, &M, &Mt))
        requires
            self.wf(),
            index < self.object_seq().len(),
        ensures
            *r.0 == self.object_seq()[index as int],
            *r.1 == self.mesh_seq()[r.0.mesh_handle().0 as int],
            *r.2 == self.material_seq()[r.0.material_handle().0 as int],
    {
        let object = &self.objects[index];
        assert(handles_in_range(self.object_seq()[index as int], self.mesh_seq().len() as int, self.material_seq().len() as int));
        (object, &self.meshes[object.mesh.0], &self.materials[object.material.0])
    }
}

/// Counters summed one report after another, each saturating.
pub open spec fn report_total(reports: Seq<CollisionReport>) -> CollisionReport
    decreases reports.len(),
{
    if reports.len() == 0 {
        CollisionReport { triangle_tests: 0, aabb_tests: 0 }
    } else {
        let so_far = report_total(reports.drop_last());
        let last = reports.last();
        CollisionReport {
            triangle_tests: saturating_sum(so_far.triangle_tests, last.triangle_tests),
            aabb_tests: saturating_sum(so_far.aabb_tests, last.aabb_tests),
        }
    }
}

/// The search of object `i` along `ray`: `local` is what `to_local` gave for
/// it, and `(found, report)` what its mesh's `collide` returned for `local`
/// between `min_t` and `bound`.
pub open spec fn object_answer<V, B: Copy, Mt, T, N, C, E, R, L, F: Copy, H, W>(
    scene: Scene<Mesh<V, B>, Mt, T, N, C, E>,
    ray: R,
    i: int,
    min_t: F,
    bound: F,
    local: L,
    found: Option<H>,
    report: CollisionReport,
) -> bool
    where
        R: WorldProbe<T, N, L, F, H, W>,
        L: BoxProbe<B, F> + TriangleProbe<V, F, H>,
{
    let o = scene.object_seq()[i];
    let mesh = scene.mesh_seq()[o.mesh_handle().0 as int];
    &&& call_ensures(R::to_local, (&ray, &o), local)
    &&& call_ensures(Mesh::<V, B>::collide::<L, F, H>, (&mesh, local, min_t, bound), (found, report))
}

/// Object `i` was searched along `ray` with some bound, giving `report`.
pub open spec fn object_searched<V, B: Copy, Mt, T, N, C, E, R, L, F: Copy, H, W>(
    scene: Scene<Mesh<V, B>, Mt, T, N, C, E>,
    ray: R,
    i: int,
    min_t: F,
    report: CollisionReport,
) -> bool
    where
        R: WorldProbe<T, N, L, F, H, W>,
        L: BoxProbe<B, F> + TriangleProbe<V, F, H>,
{
    exists|local: L, bound: F, found: Option<H>|
        #[trigger] object_answer::<V, B, Mt, T, N, C, E, R, L, F, H, W>(scene, ray, i, min_t, bound, local, found, report)
}

/// Object `i`, searched along `ray` between `min_t` and `max_t`, gave no hit,
/// or a hit that the ray's `nearer` did not put before `max_t`.
pub open spec fn object_missed<V, B: Copy, Mt, T, N, C, E, R, L, F: Copy, H, W>(
    scene: Scene<Mesh<V, B>, Mt, T, N, C, E>,
    ray: R,
    i: int,
    min_t: F,
    max_t: F,
) -> bool
    where
        R: WorldProbe<T, N, L, F, H, W>,
        L: BoxProbe<B, F> + TriangleProbe<V, F, H>,
{
    exists|local: L, found: Option<H>, report: CollisionReport| {
        &&& #[trigger] object_answer::<V, B, Mt, T, N, C, E, R, L, F, H, W>(scene, ray, i, min_t, max_t, local, found, report)
        &&& (found is None || exists|w: W| #[trigger] world_answer(ray, scene.object_seq()[i], found.unwrap(), max_t, w, false))
    }
}

/// The search of object `i` with bound `bound`: it gave no hit, so the hit
/// is not `kept` and the bound `next` for the next object stays; or it gave
/// a hit, `w` is that hit in world space, `kept` is the ray's `nearer` answer
/// for its parameter against `bound`, and `next` is that parameter when kept,
/// else `bound`.
pub open spec fn object_step<V, B: Copy, Mt, T, N, C, E, R, L, F: Copy, H, W>(
    scene: Scene<Mesh<V, B>, Mt, T, N, C, E>,
    ray: R,
    i: int,
    min_t: F,
    bound: F,
    kept: bool,
    next: F,
    w: W,
) -> bool
    where
        R: WorldProbe<T, N, L, F, H, W>,
        L: BoxProbe<B, F> + TriangleProbe<V, F, H>,
{
    exists|local: L, found: Option<H>, report: CollisionReport| {
        &&& #[trigger] object_answer::<V, B, Mt, T, N, C, E, R, L, F, H, W>(scene, ray, i, min_t, bound, local, found, report)
        &&& found is None ==> !kept && next == bound
        &&& found is Some ==> exists|d: F| {
            &&& call_ensures(R::to_world, (&ray, &scene.object_seq()[i], found.unwrap()), w)
            &&& #[trigger] call_ensures(R::distance, (&ray, &w), d)
            &&& call_ensures(R::nearer, (&ray, d, bound), kept)
            &&& next == if kept { d } else { bound }
        }
    }
}

/// `w` is the world-space hit `to_world` gave for `hit` on object `o`, and
/// `nearer` the answer to whether its parameter comes before `bound`.
pub open spec fn world_answer<T, N, L, F, H, W, R: WorldProbe<T, N, L, F, H, W>>(
    ray: R,
    o: Object<T, N>,
    hit: H,
    bound: F,
    w: W,
    nearer: bool,
) -> bool {
    exists|d: F| {
        &&& call_ensures(R::to_world, (&ray, &o, hit), w)
        &&& #[trigger] call_ensures(R::distance, (&ray, &w), d)
        &&& call_ensures(R::nearer, (&ray, d, bound), nearer)
    }
}

proof fn lemma_step_records<V, B: Copy, Mt, T, N, C, E, R, L, F: Copy, H, W>(
    scene: Scene<Mesh<V, B>, Mt, T, N, C, E>,
    ray: R,
    min_t: F,
    i: int,
    bounds: Seq<F>,
    kept: Seq<bool>,
    ws: Seq<W>,
    bound: F,
    k: bool,
    next: F,
    w: W,
)
    where
        R: WorldProbe<T, N, L, F, H, W>,
        L: BoxProbe<B, F> + TriangleProbe<V, F, H>,
    requires
        bounds.len() == i + 1,
        kept.len() == i,
        ws.len() == i,
        bounds[i] == bound,
        forall|j: int| 0 <= j < i ==> #[trigger] object_step::<V, B, Mt, T, N, C, E, R, L, F, H, W>(scene, ray, j, min_t, bounds[j], kept[j], bounds[j + 1], ws[j]),
        object_step::<V, B, Mt, T, N, C, E, R, L, F, H, W>(scene, ray, i, min_t, bound, k, next, w),
    ensures
        forall|j: int| 0 <= j < i + 1 ==> #[trigger] object_step::<V, B, Mt, T, N, C, E, R, L, F, H, W>(scene, ray, j, min_t, bounds.push(next)[j],
            kept.push(k)[j], bounds.push(next)[j + 1], ws.push(w)[j]),
{
    assert forall|j: int| 0 <= j < i + 1 implies #[trigger] object_step::<V, B, Mt, T, N, C, E, R, L, F, H, W>(scene, ray, j, min_t, bounds.push(next)[j],
        kept.push(k)[j], bounds.push(next)[j + 1], ws.push(w)[j]) by {
        if j < i {
            assert(bounds.push(next)[j] == bounds[j]);
            assert(bounds.push(next)[j + 1] == bounds[j + 1]);
            assert(kept.push(k)[j] == kept[j]);
            assert(ws.push(w)[j] == ws[j]);
        }
    }
}

impl<V, B: Copy, Mt, T, N, C, E> Scene<Mesh<V, B>, Mt, T, N, C, E> {
    /// The nearest hit over all objects at a parameter strictly between
    /// `min_t` and `max_t`, with the material of the object hit. Each object
    /// is searched in its own space with the bound lowered to the nearest
    /// hit so far; a hit replaces the one kept when the ray's `nearer` says
    /// it comes before the bound. The work counters are summed over all
    /// objects, saturating at the largest count.
    pub fn hit<'a, R, L, F: Copy, H, W>(&'a self, ray: &R, min_t: F, max_t: F) -> (r: (Option<(W, &'a Mt)>, CollisionReport))
        where
            R: WorldProbe<T, N, L, F, H, W>,
            L: BoxProbe<B, F> + TriangleProbe<V, F, H>,
        requires
            self.wf(),
        ensures
            self.object_seq().len() == 0 ==> r.0 is None && r.1 == (CollisionReport { triangle_tests: 0, aabb_tests: 0 }),
            exists|reports: Seq<CollisionReport>| {
                &&& reports.len() == self.object_seq().len()
                &&& r.1 == report_total(reports)
                &&& forall|i: int| 0 <= i < reports.len()
                    ==> #[trigger] object_searched::<V, B, Mt, T, N, C, E, R, L, F, H, W>(*self, *ray, i, min_t, reports[i])
            },
            exists|bounds: Seq<F>, kept: Seq<bool>, ws: Seq<W>| {
                &&& bounds.len() == self.object_seq().len() + 1
                &&& kept.len() == self.object_seq().len()
                &&& ws.len() == self.object_seq().len()
                &&& bounds[0] == max_t
                &&& forall|i: int| 0 <= i < self.object_seq().len()
                    ==> #[trigger] object_step::<V, B, Mt, T, N, C, E, R, L, F, H, W>(*self, *ray, i, min_t, bounds[i], kept[i], bounds[i + 1], ws[i])
                &&& (r.0 is None <==> forall|i: int| 0 <= i < self.object_seq().len() ==> !#[trigger] kept[i])
                &&& r.0 is Some ==> exists|k: int| {
                    &&& 0 <= k < self.object_seq().len()
                    &&& #[trigger] kept[k]
                    &&& forall|j: int| k < j < self.object_seq().len() ==> !#[trigger] kept[j]
                    &&& r.0.unwrap().0 == ws[k]
                    &&& *r.0.unwrap().1 == self.material_seq()[self.object_seq()[k].material_handle().0 as int]
                }
            },
            r.0 is None ==> forall|i: int| 0 <= i < self.object_seq().len()
                ==> #[trigger] object_missed::<V, B, Mt, T, N, C, E, R, L, F, H, W>(*self, *ray, i, min_t, max_t),
            r.0 is Some ==> exists|i: int, local: L, hit: H, bound: F, report: CollisionReport| {
                &&& 0 <= i < self.object_seq().len()
                &&& #[trigger] object_answer::<V, B, Mt, T, N, C, E, R, L, F, H, W>(*self, *ray, i, min_t, bound, local, Some(hit), report)
                &&& world_answer(*ray, self.object_seq()[i], hit, bound, r.0.unwrap().0, true)
                &&& *r.0.unwrap().1 == self.material_seq()[self.object_seq()[i].material_handle().0 as int]
            },
    {
        let mut best: Option<(W, &'a Mt)> = None;
        let mut bound = max_t;
        let mut report = CollisionReport::empty();
        let ghost mut reports: Seq<CollisionReport> = Seq::empty();
        let ghost mut bounds: Seq<F> = Seq::empty().push(max_t);
        let ghost mut kept: Seq<bool> = Seq::empty();
        let ghost mut ws: Seq<W> = Seq::empty();
        let mut i: usize = 0;
        while i < self.objects.len()
            invariant
                self.wf(),
                i <= self.object_seq().len(),
                i == 0 ==> best is None && report == (CollisionReport { triangle_tests: 0, aabb_tests: 0 }),
                reports.len() == i,
                report == report_total(reports),
                forall|k: int| 0 <= k < i
                    ==> #[trigger] object_searched::<V, B, Mt, T, N, C, E, R, L, F, H, W>(*self, *ray, k, min_t, reports[k]),
                best is None ==> bound == max_t && forall|k: int| 0 <= k < i
                    ==> #[trigger] object_missed::<V, B, Mt, T, N, C, E, R, L, F, H, W>(*self, *ray, k, min_t, max_t),
                best is Some ==> exists|k: int, local: L, hit: H, b: F, rep: CollisionReport| {
                    &&& 0 <= k < i
                    &&& #[trigger] object_answer::<V, B, Mt, T, N, C, E, R, L, F, H, W>(*self, *ray, k, min_t, b, local, Some(hit), rep)
                    &&& world_answer(*ray, self.object_seq()[k], hit, b, best.unwrap().0, true)
                    &&& *best.unwrap().1 == self.material_seq()[self.object_seq()[k].material_handle().0 as int]
                },
                bounds.len() == i + 1,
                kept.len() == i,
                ws.len() == i,
                bounds[0] == max_t,
                bounds[i as int] == bound,
                forall|k: int| 0 <= k < i
                    ==> #[trigger] object_step::<V, B, Mt, T, N, C, E, R, L, F, H, W>(*self, *ray, k, min_t, bounds[k], kept[k], bounds[k + 1], ws[k]),
                best is None <==> forall|k: int| 0 <= k < i ==> !#[trigger] kept[k],
                best is Some ==> exists|k: int| {
                    &&& 0 <= k < i
                    &&& #[trigger] kept[k]
                    &&& forall|j: int| k < j < i ==> !#[trigger] kept[j]
                    &&& best.unwrap().0 == ws[k]
                    &&& *best.unwrap().1 == self.material_seq()[self.object_seq()[k].material_handle().0 as int]
                },
            decreases self.object_seq().len() - i,
        {
            let (object, mesh, material) = self.resolve(i);
            let local = ray.to_local(object);
            let ghost used = bound;
            let (found, counts) = mesh.collide(local, min_t, bound);
            assert(object_answer::<V, B, Mt, T, N, C, E, R, L, F, H, W>(*self, *ray, i as int, min_t, used, local, found, counts));
            report = report.combine(&counts);
            proof {
                let grown = reports.push(counts);
                assert(grown.drop_last() =~= reports);
                assert forall|k: int| 0 <= k < i + 1 implies
                    #[trigger] object_searched::<V, B, Mt, T, N, C, E, R, L, F, H, W>(*self, *ray, k, min_t, grown[k]) by {
                    if k < i {
                        assert(grown[k] == reports[k]);
                    } else {
                        assert(grown[k] == counts);
                        assert(object_answer::<V, B, Mt, T, N, C, E, R, L, F, H, W>(*self, *ray, k, min_t, used, local, found, grown[k]));
                    }
                }
                reports = grown;
            }
            match found {
                Some(h) => {
                    let w = ray.to_world(object, h);
                    let t = ray.distance(&w);
                    let near = ray.nearer(t, bound);
                    assert(world_answer(*ray, self.object_seq()[i as int], h, used, w, near));
                    let ghost next = if near { t } else { used };
                    assert(object_step::<V, B, Mt, T, N, C, E, R, L, F, H, W>(*self, *ray, i as int, min_t, used, near, next, w));
                    proof {
                        let ghost_best = best;
                        lemma_step_records::<V, B, Mt, T, N, C, E, R, L, F, H, W>(*self, *ray, min_t, i as int, bounds, kept, ws, used, near, next, w);
                        let k_opt: Option<int> = if !near && ghost_best is Some {
                            let kk = choose|k: int| {
                                &&& 0 <= k < i
                                &&& #[trigger] kept[k]
                                &&& forall|j: int| k < j < i ==> !#[trigger] kept[j]
                                &&& ghost_best.unwrap().0 == ws[k]
                                &&& *ghost_best.unwrap().1 == self.material_seq()[self.object_seq()[k].material_handle().0 as int]
                            };
                            Some(kk)
                        } else { None };
                        bounds = bounds.push(next);
                        kept = kept.push(near);
                        ws = ws.push(w);
                        if !near && ghost_best is Some {
                            let k = k_opt.unwrap();
                            assert(kept[k]);
                            assert forall|j: int| k < j < i + 1 implies !#[trigger] kept[j] by {}
                        }
                        if near {
                            assert(kept[i as int]);
                        }
                    }
                    if near {
                        bound = t;
                        best = Some((w, material));
                    } else {
                        proof {
                            if best is None {
                                assert(world_answer(*ray, self.object_seq()[i as int], h, max_t, w, false));
                                assert(object_missed::<V, B, Mt, T, N, C, E, R, L, F, H, W>(*self, *ray, i as int, min_t, max_t));
                            }
                        }
                    }
                },
                None => {
                    proof {
                        let w0: W = arbitrary();
                        assert(object_step::<V, B, Mt, T, N, C, E, R, L, F, H, W>(*self, *ray, i as int, min_t, used, false, used, w0));
                        let ghost_best = best;
                        lemma_step_records::<V, B, Mt, T, N, C, E, R, L, F, H, W>(*self, *ray, min_t, i as int, bounds, kept, ws, used, false, used, w0);
                        let k_opt: Option<int> = if ghost_best is Some {
                            let kk = choose|k: int| {
                                &&& 0 <= k < i
                                &&& #[trigger] kept[k]
                                &&& forall|j: int| k < j < i ==> !#[trigger] kept[j]
                                &&& ghost_best.unwrap().0 == ws[k]
                                &&& *ghost_best.unwrap().1 == self.material_seq()[self.object_seq()[k].material_handle().0 as int]
                            };
                            Some(kk)
                        } else { None };
                        bounds = bounds.push(used);
                        kept = kept.push(false);
                        ws = ws.push(w0);
                        if ghost_best is Some {
                            let k = k_opt.unwrap();
                            assert(kept[k]);
                            assert forall|j: int| k < j < i + 1 implies !#[trigger] kept[j] by {}
                        }
                    }
                    proof {
                        if best is None {
                            assert(object_missed::<V, B, Mt, T, N, C, E, R, L, F, H, W>(*self, *ray, i as int, min_t, max_t));
                        }
                    }
                },
            }
            i = i + 1;
        }
        proof {
            assert(reports.len() == self.object_seq().len());
            assert(bounds.len() == self.object_seq().len() + 1);
        }
        (best, report)
    }
}

} // verus!
