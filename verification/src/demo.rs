//! A small worked example of a library surface. The tests render these
//! declarations as source text and run the checker against it; the types
//! themselves carry no behaviour.

use vstd::prelude::*;

verus! {

/// The failure forms of the example library.
#[derive(Debug)]
pub enum MathAnimationError {
    SteelError(String),
    SurfaceError(String),
    LatexError(String),
    AnimationError(String),
    VRError(String),
}

pub struct MathObject;

pub struct Color;

pub struct Selectable {
    pub hover_color: Color,
    pub selected_color: Color,
}

pub trait MathHash {
    fn math_hash(&self) -> u64;
}

pub struct Mesh;

pub struct Vec3;

pub struct Assets<T>(pub core::marker::PhantomData<T>);

pub struct Handle<T>(pub core::marker::PhantomData<T>);

pub trait Geometry: MathHash + Send + Sync {
    fn generate_mesh(&self, meshes: &mut Assets<Mesh>) -> Handle<Mesh>;
}

} // verus!
