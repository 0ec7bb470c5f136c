use anim2d::animation::{Animation, AnimationState};
use anim2d::collision::{Collision, Contact, Side};
use anim2d::obstacle::Obstacle;
use anim2d::sprite::Sprite;
use anim2d::types::Rect;

fn body(x: i32, y: i32, w: u16, h: u16, vx: i32, vy: i32) -> Sprite {
    let frames = Rect::create_frames(0, 1, w, h);
    let anim = Animation::new(frames, vec![1], false);
    Sprite::new(anim, AnimationState::new(), Rect { x, y, w, h }, vx, vy)
}

fn wall(x: i32, y: i32, w: u16, h: u16) -> Obstacle {
    Obstacle::new(None, None, Some(Rect { x, y, w, h }))
}

#[test]
fn displacement_reports_overlaps_and_side() {
    let r1 = Rect { x: 0, y: 0, w: 10, h: 10 };
    let r2 = Rect { x: 5, y: 5, w: 10, h: 10 };
    let d = Collision::rect_displacement(r1, r2).unwrap();
    assert_eq!((d.0, d.1), (5, 5));
    assert_eq!(d.2, Side::Bottom);
    // shallower on x picks the x axis
    let r3 = Rect { x: 8, y: 0, w: 10, h: 10 };
    let d2 = Collision::rect_displacement(r1, r3).unwrap();
    assert_eq!((d2.0, d2.1), (2, 10));
    assert_eq!(d2.2, Side::Right);
    // disjoint rectangles make no contact
    let r4 = Rect { x: 100, y: 0, w: 10, h: 10 };
    assert!(Collision::rect_displacement(r1, r4).is_none());
}

#[test]
fn degenerate_rectangles_touch_with_zero_penetration() {
    let p = Rect { x: 5, y: 5, w: 0, h: 0 };
    let d = Collision::rect_displacement(p, p).unwrap();
    assert_eq!((d.0, d.1), (0, 0));
}

#[test]
fn gather_contacts_empty_on_disjoint_colliders() {
    let statics = vec![wall(100, 100, 10, 10)];
    let dynamics = vec![body(0, 0, 32, 32, 1, 0), body(200, 200, 32, 32, 0, 0)];
    let mut contacts: Vec<Contact> = Vec::new();
    Collision::gather_contacts(&statics, &dynamics, &mut contacts);
    assert!(contacts.is_empty());
}

#[test]
fn gather_contacts_single_pair_single_contact() {
    let statics = vec![wall(100, 0, 32, 32)];
    let dynamics = vec![body(90, 0, 32, 32, 5, 0)];
    let mut contacts: Vec<Contact> = Vec::new();
    Collision::gather_contacts(&statics, &dynamics, &mut contacts);
    assert_eq!(contacts.len(), 1);
    assert!(contacts[0].mtv.0 >= 0);
    assert!(contacts[0].mtv.1 >= 0);
    assert_eq!(contacts[0].mtv, (22, 32));
}

#[test]
fn restitute_separates_body_from_obstacle_and_is_idempotent() {
    let statics = vec![wall(100, 0, 32, 32)];
    let mut dynamics = vec![body(90, 0, 32, 32, 5, 0)];
    let mut contacts: Vec<Contact> = Vec::new();
    Collision::gather_contacts(&statics, &dynamics, &mut contacts);
    Collision::restitute(&statics, &mut dynamics, &mut contacts);
    // pushed out along the shallower axis, velocity into the wall cleared
    assert_eq!(dynamics[0].rect.x, 68);
    assert_eq!(dynamics[0].vx, 0);
    // corrected positions show no residual penetration
    let d = Collision::rect_displacement(dynamics[0].rect, statics[0].rect.unwrap()).unwrap();
    assert_eq!(d.0, 0);
    // a second pass changes nothing
    let rect_after = dynamics[0].rect;
    let mut contacts2: Vec<Contact> = Vec::new();
    Collision::gather_contacts(&statics, &dynamics, &mut contacts2);
    Collision::restitute(&statics, &mut dynamics, &mut contacts2);
    assert_eq!(dynamics[0].rect, rect_after);
    assert_eq!(dynamics[0].vx, 0);
    assert_eq!(dynamics[0].vy, 0);
}

#[test]
fn restitute_splits_displacement_between_dynamic_bodies() {
    let statics: Vec<Obstacle> = Vec::new();
    let mut dynamics = vec![body(0, 0, 32, 32, 3, 0), body(20, 0, 32, 32, -3, 0)];
    let mut contacts: Vec<Contact> = Vec::new();
    Collision::gather_contacts(&statics, &dynamics, &mut contacts);
    assert_eq!(contacts.len(), 1);
    assert_eq!(contacts[0].mtv, (12, 32));
    Collision::restitute(&statics, &mut dynamics, &mut contacts);
    // each body moves half the overlap away from the other
    assert_eq!(dynamics[0].rect.x, -6);
    assert_eq!(dynamics[1].rect.x, 26);
    // the velocity components driving them together are cleared
    assert_eq!(dynamics[0].vx, 0);
    assert_eq!(dynamics[1].vx, 0);
}

#[test]
fn restitute_orders_contacts_by_penetration_depth() {
    // the deeper contact is resolved first even though it is gathered last
    let statics = vec![wall(100, 0, 32, 32), wall(0, 0, 32, 32)];
    let mut dynamics = vec![body(90, 0, 32, 32, 0, 0), body(2, 0, 32, 32, 0, 0)];
    let mut contacts: Vec<Contact> = Vec::new();
    Collision::gather_contacts(&statics, &dynamics, &mut contacts);
    assert_eq!(contacts.len(), 2);
    Collision::restitute(&statics, &mut dynamics, &mut contacts);
    // after sorting, contacts run deepest first
    let k0 = contacts[0].mtv.0 as i64 * contacts[0].mtv.0 as i64
        + contacts[0].mtv.1 as i64 * contacts[0].mtv.1 as i64;
    let k1 = contacts[1].mtv.0 as i64 * contacts[1].mtv.0 as i64
        + contacts[1].mtv.1 as i64 * contacts[1].mtv.1 as i64;
    assert!(k0 >= k1);
    // both bodies end clear of their walls
    let d0 = Collision::rect_displacement(dynamics[0].rect, statics[0].rect.unwrap()).unwrap();
    assert_eq!(d0.0, 0);
    let d1 = Collision::rect_displacement(dynamics[1].rect, statics[1].rect.unwrap()).unwrap();
    assert_eq!(d1.0, 0);
}
