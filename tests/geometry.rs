use raytracer_core::bounds::{Bounds, Interval};
use raytracer_core::object::Manifold;
use raytracer_core::scalar_key::ScalarKey;
use raytracer_core::seq_tree::{SeqTree, SeqTreeView};
use raytracer_core::triangle::Triangle;
use raytracer_core::vec::{Vec2, Vec3, Vec4, Vector};

#[test]
fn vector_arithmetic() {
    let a = Vec3::new(1, 2, 3);
    let b = Vec3::new(4, -5, 6);
    assert_eq!(a.dot(b), 4 - 10 + 18);
    assert_eq!(a.square_length(), 14);
    assert_eq!(a.square_distance(b), 9 + 49 + 9);
    assert_eq!(a.cross(b).c, [2 * 6 - 3 * -5, 3 * 4 - 1 * 6, 1 * -5 - 2 * 4]);
    assert_eq!(a.zip_mul(b).c, [4, -10, 18]);
    assert_eq!(a.map_mul(b).c, [4, -10, 18]);
    assert_eq!(b.clamp().c, [4, 0, 6]);
    assert_eq!(a.sum(b).c, [5, -3, 9]);
    assert_eq!(a.difference(b).c, [-3, 7, -3]);
    assert_eq!(Vector::<3>::broadcast(7).c, [7, 7, 7]);
    let mut v = Vec2::new(1, 2);
    *v.y_mut() = 9;
    assert_eq!((v.x(), v.y()), (1, 9));
    let p = Vec4::from_position(a);
    assert_eq!((p.x(), p.y(), p.z(), p.w()), (1, 2, 3, 1));
    assert_eq!(Vec4::from_vec3(a).w(), 0);
    assert_eq!(Vec3::from_vec4(p).c, [1, 2, 3]);
}

#[test]
fn bounds_union_distance_area() {
    let a = Bounds::new(Vec3::new(0, 0, 0), Vec3::new(1, 2, 3));
    let b = Bounds::from_point(Vec3::new(-1, 5, 1));
    let u = a.union(&b);
    assert_eq!(u.min().c, [-1, 0, 0]);
    assert_eq!(u.max().c, [1, 5, 3]);
    assert_eq!(Bounds::empty().union(&a), a);
    assert_eq!(a.dim(2), 3);
    assert_eq!(a.range(1), (0, 2));
    assert_eq!(a.surface_area(), 2 * (2 + 3 + 6));
    assert_eq!(a.center().c, [1, 2, 3]);
    assert_eq!(a.distance(Vec3::new(1, 1, 1)), 0);
    assert_eq!(a.distance(Vec3::new(4, -2, 3)), 9 + 4);
}

#[test]
fn interval_intersection() {
    let a = Interval::new(0, 10);
    let b = Interval::new(5, 20);
    assert_eq!(a.intersect(&b), Some(Interval::new(5, 10)));
    assert_eq!(a.intersect(&Interval::new(10, 12)), Some(Interval::new(10, 10)));
    assert_eq!(Interval::new(3, 3).intersect(&Interval::new(0, 5)), Some(Interval::new(3, 3)));
    assert_eq!(a.intersect(&Interval::new(11, 12)), None);
    assert_eq!(Interval::full().intersect(&a), Some(a));
}

#[test]
fn triangle_bounds_and_normal() {
    let t = Triangle::new([Vec3::new(0, 0, 0), Vec3::new(2, 0, 0), Vec3::new(0, 3, 1)]);
    let b = t.bounds();
    assert_eq!((b.min.c, b.max.c), ([0, 0, 0], [2, 3, 1]));
    // (v1 - v0) x (v2 - v1) = (2,0,0) x (-2,3,1)
    assert_eq!(t.normal().c, [0, -2, 6]);
}

#[test]
fn path_token_push_pop() {
    let m = Manifold::empty();
    assert!(m.is_empty());
    let m = m.push(4).push(9);
    assert_eq!(m.len(), 2);
    let (rest, top) = m.pop().unwrap();
    assert_eq!(top, 9);
    let (rest, top) = rest.pop().unwrap();
    assert_eq!(top, 4);
    assert!(rest.is_empty());
    assert!(rest.pop().is_none());
}

#[test]
fn seq_tree_view() {
    assert_eq!(SeqTree::new(3, 3).as_view(), SeqTreeView::Empty);
    assert_eq!(
        SeqTree::new(2, 7).as_view(),
        SeqTreeView::Node { left: (2, 4), center: 4, right: (5, 7) }
    );
}

#[test]
fn scalar_key_order() {
    let a = ScalarKey::new(3, 1);
    let b = ScalarKey::new(3, 2);
    assert_eq!((*a.key(), *a.value()), (3, 1));
    assert!(a.precedes(&b));
    assert!(!b.precedes(&a));
    assert!(ScalarKey::new(2, 9).precedes(&a));
}

use raytracer_core::renderer::{may_trace, plan_specular_step, rest_of_filter, SpecularMode, SpecularStep};

#[test]
fn specular_steps_follow_the_filter() {
    let s = plan_specular_step(None, true, true);
    assert_eq!(s, SpecularStep { emit: true, reflect: true, refract: true });
    let s = plan_specular_step(None, true, false);
    assert_eq!(s, SpecularStep { emit: true, reflect: true, refract: false });
    let s = plan_specular_step(None, false, true);
    assert_eq!(s, SpecularStep { emit: true, reflect: false, refract: false });
    let f = [SpecularMode::Refract, SpecularMode::Reflect];
    let s = plan_specular_step(Some(&f), true, true);
    assert_eq!(s, SpecularStep { emit: false, reflect: false, refract: true });
    let rest = rest_of_filter(Some(&f)).unwrap();
    assert_eq!(rest, &[SpecularMode::Reflect]);
    let s = plan_specular_step(Some(rest), true, true);
    assert_eq!(s, SpecularStep { emit: false, reflect: true, refract: false });
    let empty: [SpecularMode; 0] = [];
    let s = plan_specular_step(Some(&empty), true, true);
    assert_eq!(s, SpecularStep { emit: true, reflect: false, refract: false });
    assert!(rest_of_filter(None).is_none());
    assert!(may_trace(3));
    assert!(!may_trace(4));
}

use raytracer_core::ray::Ray;

#[test]
fn ray_position_at_time() {
    let r = Ray::new(Vec3::new(1, 2, 3), Vec3::new(0, -1, 2));
    assert_eq!(r.pos(0).c, [1, 2, 3]);
    assert_eq!(r.pos(5).c, [1, -3, 13]);
    assert_eq!(r.pos(-2).c, [1, 4, -1]);
    assert_eq!((r.orig().c, r.dir().c), ([1, 2, 3], [0, -1, 2]));
}
