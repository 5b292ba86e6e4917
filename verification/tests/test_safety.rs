use vox::coordinate_systems::{In, InWorld, Model, Screen, Tx, View, World};
use vox::safety::{tag, Taggable, TaggedAs};

#[test]
fn tag_keeps_the_value() {
    let p = tag::<In<World>, _>([1, 2, 3]);
    assert_eq!(p.value, [1, 2, 3]);
    let t = tag::<Tx<View, World>, _>(7u8);
    assert_eq!(t.value, 7);
}

#[test]
fn new_converts_into_the_tagged_type() {
    let p: TaggedAs<In<Screen>, i64> = TaggedAs::new(5i32);
    assert_eq!(p.value, 5i64);
    let q: TaggedAs<In<Model>, i32> = TaggedAs::new(5i32);
    assert_eq!(q.value, 5);
}

#[test]
fn from_and_into_tag_a_value() {
    let p: InWorld<u8> = 3u8.into();
    assert_eq!(p.value, 3);
    let q = In::<View>::from("here");
    assert_eq!(q.value, "here");
    let r = 9u16.into_tagged::<In<World>>();
    assert_eq!(r.value, 9);
}

#[test]
fn apply_works_on_the_value() {
    let mut p = tag::<In<World>, _>(vec![1, 2]);
    p.apply(&|v: &mut Vec<i32>| v.push(3));
    assert_eq!(p.value, vec![1, 2, 3]);
}
