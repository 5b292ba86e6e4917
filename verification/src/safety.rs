//! Values that carry a tag in their type.
//!
//! A tag says, to the compiler only, what a value stands for: the space a
//! point lives in, the two spaces a transform leads between. A tagged value
//! is the value, and tagging costs nothing when the program runs.

use vstd::prelude::*;
use core::marker::PhantomData;

verus! {

/// A value of type `T` with the tag `Tag`.
pub struct TaggedAs<Tag, T> {
    pub value: T,
    pub _phantom: PhantomData<Tag>,
}

impl<T, Tag> From<T> for TaggedAs<Tag, T> {
    fn from(value: T) -> (r: Self) {
        Self { value, _phantom: PhantomData }
    }
}

impl<T, Tag> vstd::std_specs::convert::FromSpecImpl<T> for TaggedAs<Tag, T> {
    open spec fn obeys_from_spec() -> bool {
        true
    }

    open spec fn from_spec(value: T) -> Self {
        Self { value, _phantom: PhantomData }
    }
}

impl<T, Tag> TaggedAs<Tag, T> {
    /// Tags whatever can be made into a `T`.
    pub fn new<J: Into<T>>(j: J) -> (r: Self)
        ensures
            call_ensures(<J as Into<T>>::into, (j,), r.value),
    {
        Self { value: j.into(), _phantom: PhantomData }
    }

    /// Lets `f` work on the value under the tag: the value is afterwards what
    /// `f` makes of the value that was there. The tag stays. `f` has to take
    /// the value that is there; no more is asked of it.
    pub fn apply<F: Fn(&mut T)>(&mut self, f: &F)
        requires
            forall|v: &mut T| *v == old(self).value ==> call_requires(*f, (v,)),
        ensures
            final(self)._phantom == old(self)._phantom,
            exists|v: &mut T|
                *v == old(self).value && *final(v) == final(self).value && #[trigger] call_ensures(
                    *f,
                    (v,),
                    (),
                ),
    {
        f(&mut self.value)
    }
}

/// What can be tagged: every type.
pub trait Taggable<T> {
    /// The value that is tagged.
    spec fn untagged(self) -> T;

    /// The value under the tag `Tag`.
    fn into_tagged<Tag>(self) -> (r: TaggedAs<Tag, T>)
        ensures
            r.value == self.untagged(),
    ;
}

impl<T> Taggable<T> for T {
    open spec fn untagged(self) -> T {
        self
    }

    fn into_tagged<Tag>(self) -> (r: TaggedAs<Tag, T>) {
        TaggedAs { value: self, _phantom: PhantomData }
    }
}

/// Tags a value.
pub fn tag<Tag, T>(t: T) -> (r: TaggedAs<Tag, T>)
    ensures
        r.value == t,
{
    TaggedAs { value: t, _phantom: PhantomData }
}

} // verus!
