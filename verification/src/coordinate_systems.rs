//! Tags for the spaces that a point passes through on its way to the
//! screen, and for the transforms between them.

use vstd::prelude::*;
use core::marker::PhantomData;
use crate::safety::TaggedAs;

verus! {

/// The space a mesh is given in.
pub struct Mesh;

/// The space of a model.
pub struct Model;

/// The space of the world.
pub struct World;

/// The space of the camera.
pub struct View;

/// The space after projection.
pub struct Clip;

/// The space of the screen.
pub struct Screen;

/// The tag of a value that lives in the space `CS`.
pub struct In<CS> {
    pub _phantoms: PhantomData<CS>,
}

/// The tag of a transform that leads from the space `Src` to the space `Dst`.
pub struct Tx<Dst, Src> {
    pub _d: PhantomData<(Dst, Src)>,
}

impl<CS> In<CS> {
    /// The value `t`, tagged as living in the space `CS`.
    pub fn from<T>(t: T) -> (r: TaggedAs<In<CS>, T>)
        ensures
            r.value == t,
    {
        TaggedAs { value: t, _phantom: PhantomData }
    }
}

/// A value in clip space.
pub type InClip<T> = TaggedAs<In<Clip>, T>;

/// A value in the space of a mesh.
pub type InMesh<T> = TaggedAs<In<Mesh>, T>;

/// A value in the space of a model.
pub type InModel<T> = TaggedAs<In<Model>, T>;

/// A value in the space of the camera.
pub type InView<T> = TaggedAs<In<View>, T>;

/// A value in the space of the world.
pub type InWorld<T> = TaggedAs<In<World>, T>;

} // verus!
