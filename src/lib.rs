//! The discrete core of a recursive ray tracer.
//!
//! - `scene`: the scene graph as an arena of nodes linked by index, with the
//!   subtree and ancestry queries that transforms and boolean nodes need;
//! - `csg`: which hits survive the union, intersection or difference of
//!   two solids;
//! - `distance`: ordering the hits of a ray and choosing the visible one;
//! - `refraction`: the media on both sides of a surface, from the stack of
//!   shapes the ray is inside of;
//! - `shading`: the depth-bounded recursion of reflected and refracted rays;
//! - `canvas`: the picture and its PPM text;
//! - `obj`: the statements of Wavefront OBJ files.
//!
//! The floating-point geometry (intersection formulas, normals, bounding
//! boxes, lighting) stands outside this crate and hands it indices, flags,
//! distance keys and bytes.

pub mod canvas;
pub mod csg;
pub mod distance;
pub mod obj;
pub mod refraction;
pub mod scene;
pub mod shading;
