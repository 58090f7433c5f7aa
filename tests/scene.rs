use raytracer::{Invert, MatearialHandle, MeshHandle, Object, Scene, SceneError};

/// A one-dimensional "matrix": a scale factor.
#[derive(Debug, Clone, Copy, PartialEq)]
struct Scale(f64);

impl Invert<f64> for Scale {
    fn try_inverse(&self) -> Option<Self> {
        if self.0 == 0.0 { None } else { Some(Scale(1.0 / self.0)) }
    }

    fn normal_matrix(inverse: &Self) -> f64 {
        inverse.0
    }
}

type TestScene = Scene<&'static str, &'static str, Scale, f64, (), ()>;

#[test]
fn handles_are_positions() {
    let mut scene: TestScene = Scene::new((), ());
    assert_eq!(scene.add_mesh("cube"), MeshHandle(0));
    assert_eq!(scene.add_mesh("sphere"), MeshHandle(1));
    assert_eq!(scene.add_material("red"), MatearialHandle(0));
    assert_eq!(scene.mesh_count(), 2);
    assert_eq!(scene.material_count(), 1);
    let object = Object::new(MeshHandle(1), Scale(2.0), MatearialHandle(0)).unwrap();
    assert_eq!(scene.add_object(object), Ok(()));
    assert_eq!(scene.object_count(), 1);
    let (o, mesh, material) = scene.resolve(0);
    assert_eq!(*mesh, "sphere");
    assert_eq!(*material, "red");
    assert_eq!(*o.get_transform(), Scale(2.0));
    assert_eq!(*o.get_inv_transform(), Scale(0.5));
    assert_eq!(*o.get_normal_matrix(), 0.5);
}

#[test]
fn out_of_range_handle_is_an_integrity_error() {
    let mut scene: TestScene = Scene::new((), ());
    scene.add_mesh("cube");
    let object = Object::new(MeshHandle(0), Scale(1.0), MatearialHandle(0)).unwrap();
    assert_eq!(scene.add_object(object), Err(SceneError::Integrity));
    assert_eq!(scene.object_count(), 0);
    let bad = Object::new(MeshHandle(3), Scale(1.0), MatearialHandle(0)).unwrap();
    let parts: Result<TestScene, SceneError> = Scene::from_parts(vec!["a"], vec!["m"], vec![bad], (), ());
    assert!(matches!(parts, Err(SceneError::Integrity)));
    let good = Object::new(MeshHandle(0), Scale(1.0), MatearialHandle(0)).unwrap();
    let parts: Result<TestScene, SceneError> = Scene::from_parts(vec!["a"], vec!["m"], vec![good], (), ());
    assert_eq!(parts.map(|s| s.object_count()).ok(), Some(1));
}

#[test]
fn singular_transform_is_a_geometry_error() {
    let made: Result<Object<Scale, f64>, SceneError> = Object::new(MeshHandle(0), Scale(0.0), MatearialHandle(0));
    assert_eq!(made.err(), Some(SceneError::Geometry));
    let mut object = Object::new(MeshHandle(0), Scale(4.0), MatearialHandle(2)).unwrap();
    assert_eq!(object.set_transform(Scale(0.0)), Err(SceneError::Geometry));
    assert_eq!(*object.get_transform(), Scale(4.0));
    assert_eq!(*object.get_inv_transform(), Scale(0.25));
    assert_eq!(object.set_transform(Scale(8.0)), Ok(()));
    assert_eq!(*object.get_transform(), Scale(8.0));
    assert_eq!(*object.get_inv_transform(), Scale(0.125));
    assert_eq!(object.get_mesh(), MeshHandle(0));
    assert_eq!(object.get_material(), MatearialHandle(2));
}
