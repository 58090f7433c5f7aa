//! Core of an offline path tracer: image tiling, the bounding-volume
//! hierarchy over triangle meshes, meshes and scenes, and render
//! bookkeeping. Everything computed in floating point is supplied by the
//! caller through the traits and generic parameters declared here.

mod bvh;
mod image;
mod mesh;
mod ray_tracer;
mod report;
mod scene;

pub use bvh::{BVHIterator, BVHNode, BoxProbe, BvhGeometry, NodeContent, BVH, MAX_DEPTH};
pub use image::{Image, ImageView, RenderTraget, TileIterator};
pub use mesh::{Mesh, TriangleProbe};
pub use ray_tracer::{RayIterator, RayTracer, RenderOptions, Shading};
pub use report::{CollisionReport, RenderReport};
pub use scene::{Invert, MatearialHandle, MeshHandle, Object, Scene, SceneError, WorldProbe};
