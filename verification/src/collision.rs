//! Collision detection and restitution: pairwise axis-aligned overlap tests,
//! minimum-translation-vector computation, and ordered positional correction
//! with live re-checking.

use vstd::prelude::*;
use vstd::math::max;
use vstd::math::min;
use crate::obstacle::Obstacle;
use crate::sprite::Sprite;
use crate::sprite::SpriteID;
use crate::types::Rect;

verus! {

/// A wall: a bare collidable rectangle.
pub struct Wall {
    pub rect: Rect,
}

/// A mobile collider: a rectangle owned by the sprite it stands for.
#[derive(Clone)]
pub struct Mobile {
    pub rect: Rect,
    pub sprite_id: SpriteID,
}

/// Which list a collider lives in, and where.
#[derive(PartialEq, Eq, Clone, Copy, Debug, Structural)]
pub enum ColliderID {
    Static(usize),
    Dynamic(usize),
}

/// The side of collider `a` on which a contact acts.
#[derive(PartialEq, Eq, Clone, Copy, Debug, Structural)]
pub enum Side {
    Left,
    Right,
    Top,
    Bottom,
}

/// One detected overlap: the two colliders, the per-axis overlap amounts
/// (minimum translation vector), and the contact side relative to `a`.
#[derive(PartialEq, Eq, Clone, Copy, Debug)]
pub struct Contact {
    pub a: ColliderID,
    pub b: ColliderID,
    pub mtv: (i32, i32),
    pub side_a: Side,
}

/// How far the two rectangles' x-ranges overlap (negative when disjoint).
pub open spec fn x_overlap(r1: Rect, r2: Rect) -> int {
    min(r1.right(), r2.right()) - max(r1.left(), r2.left())
}

/// How far the two rectangles' y-ranges overlap (negative when disjoint).
pub open spec fn y_overlap(r1: Rect, r2: Rect) -> int {
    min(r1.bottom(), r2.bottom()) - max(r1.top(), r2.top())
}

/// Contact test: both axis overlaps non-negative (touching counts).
pub open spec fn overlapping(r1: Rect, r2: Rect) -> bool {
    x_overlap(r1, r2) >= 0 && y_overlap(r1, r2) >= 0
}

/// Overlap with positive area: the rectangles' interiors intersect.
pub open spec fn strictly_overlapping(r1: Rect, r2: Rect) -> bool {
    x_overlap(r1, r2) > 0 && y_overlap(r1, r2) > 0
}

/// The contact side for `r1` against `r2`: the axis with the shallower
/// penetration, oriented by the leading edges.
pub open spec fn spec_side(r1: Rect, r2: Rect) -> Side {
    if x_overlap(r1, r2) < y_overlap(r1, r2) {
        if r1.x < r2.x {
            Side::Right
        } else {
            Side::Left
        }
    } else if r1.y < r2.y {
        Side::Bottom
    } else {
        Side::Top
    }
}

/// The per-axis overlap amounts and contact side, or `None` when the
/// rectangles do not touch.
pub open spec fn spec_displacement(r1: Rect, r2: Rect) -> Option<(i32, i32, Side)> {
    if overlapping(r1, r2) {
        Some((x_overlap(r1, r2) as i32, y_overlap(r1, r2) as i32, spec_side(r1, r2)))
    } else {
        None
    }
}

pub struct Collision {}

impl Collision {
    /// Overlap amounts of two rectangles: `Some` exactly when they touch,
    /// with the contact side relative to `r1`.
    pub fn rect_displacement(r1: Rect, r2: Rect) -> (r: Option<(i32, i32, Side)>)
        ensures
            r == spec_displacement(r1, r2),
    {
        let r1r = r1.x as i64 + r1.w as i64;
        let r2r = r2.x as i64 + r2.w as i64;
        let r1b = r1.y as i64 + r1.h as i64;
        let r2b = r2.y as i64 + r2.h as i64;
        let xr = if r1r < r2r {
            r1r
        } else {
            r2r
        };
        let xl = if r1.x > r2.x {
            r1.x as i64
        } else {
            r2.x as i64
        };
        let yb = if r1b < r2b {
            r1b
        } else {
            r2b
        };
        let yt = if r1.y > r2.y {
            r1.y as i64
        } else {
            r2.y as i64
        };
        let xo = xr - xl;
        let yo = yb - yt;
        if xo >= 0 && yo >= 0 {
            let side = if xo < yo {
                if r1.x < r2.x {
                    Side::Right
                } else {
                    Side::Left
                }
            } else if r1.y < r2.y {
                Side::Bottom
            } else {
                Side::Top
            };
            Some((xo as i32, yo as i32, side))
        } else {
            None
        }
    }
}

/// The contact generated for dynamic pair `(ai, bi)`, if the two overlap.
pub open spec fn dd_contact(dyns: Seq<Sprite>, ai: int, bi: int) -> Option<Contact> {
    match spec_displacement(dyns[ai].rect, dyns[bi].rect) {
        Some(d) => Some(
            Contact {
                a: ColliderID::Dynamic(ai as usize),
                b: ColliderID::Dynamic(bi as usize),
                mtv: (d.0, d.1),
                side_a: d.2,
            },
        ),
        None => None,
    }
}

/// The contact generated for dynamic `ai` against static `bi`, if the static
/// has a collision rectangle and the two overlap.
pub open spec fn ds_contact(dyns: Seq<Sprite>, statics: Seq<Obstacle>, ai: int, bi: int) -> Option<
    Contact,
> {
    match statics[bi].rect {
        Some(r2) => match spec_displacement(dyns[ai].rect, r2) {
            Some(d) => Some(
                Contact {
                    a: ColliderID::Dynamic(ai as usize),
                    b: ColliderID::Static(bi as usize),
                    mtv: (d.0, d.1),
                    side_a: d.2,
                },
            ),
            None => None,
        },
        None => None,
    }
}

pub open spec fn opt_to_seq(c: Option<Contact>) -> Seq<Contact> {
    match c {
        Some(x) => seq![x],
        None => Seq::empty(),
    }
}

/// Contacts of dynamic `ai` against dynamics `bi, bi+1, ...`.
pub open spec fn dd_row(dyns: Seq<Sprite>, ai: int, bi: int) -> Seq<Contact>
    decreases dyns.len() - bi,
{
    if bi < 0 || bi >= dyns.len() {
        Seq::empty()
    } else {
        opt_to_seq(dd_contact(dyns, ai, bi)) + dd_row(dyns, ai, bi + 1)
    }
}

/// Dynamic-vs-dynamic contacts of the pairs `(a, b)` with `ai <= a < b`.
pub open spec fn dd_from(dyns: Seq<Sprite>, ai: int) -> Seq<Contact>
    decreases dyns.len() - ai,
{
    if ai < 0 || ai >= dyns.len() {
        Seq::empty()
    } else {
        dd_row(dyns, ai, ai + 1) + dd_from(dyns, ai + 1)
    }
}

/// Contacts of dynamic `ai` against statics `bi, bi+1, ...`.
pub open spec fn ds_row(dyns: Seq<Sprite>, statics: Seq<Obstacle>, ai: int, bi: int) -> Seq<Contact>
    decreases statics.len() - bi,
{
    if bi < 0 || bi >= statics.len() {
        Seq::empty()
    } else {
        opt_to_seq(ds_contact(dyns, statics, ai, bi)) + ds_row(dyns, statics, ai, bi + 1)
    }
}

/// Dynamic-vs-static contacts of the dynamics `ai, ai+1, ...`.
pub open spec fn ds_from(dyns: Seq<Sprite>, statics: Seq<Obstacle>, ai: int) -> Seq<Contact>
    decreases dyns.len() - ai,
{
    if ai < 0 || ai >= dyns.len() {
        Seq::empty()
    } else {
        ds_row(dyns, statics, ai, 0) + ds_from(dyns, statics, ai + 1)
    }
}

/// Everything one detection pass appends: each unordered dynamic pair once,
/// then each dynamic against each static once.
pub open spec fn all_contacts(statics: Seq<Obstacle>, dyns: Seq<Sprite>) -> Seq<Contact> {
    dd_from(dyns, 0) + ds_from(dyns, statics, 0)
}

impl Collision {
    /// Test every unordered pair of dynamic bodies once and every
    /// dynamic-vs-static pair once, appending a contact per overlap.
    pub fn gather_contacts(statics: &Vec<Obstacle>, dynamics: &Vec<Sprite>, into: &mut Vec<
        Contact,
    >)
        ensures
            final(into)@ == old(into)@ + all_contacts(statics@, dynamics@),
    {
        let ghost into0 = into@;
        let ghost dyns = dynamics@;
        let ghost stats = statics@;
        // collide mobiles against mobiles
        let mut ai: usize = 0;
        while ai < dynamics.len()
            invariant
                dyns == dynamics@,
                stats == statics@,
                ai <= dynamics.len(),
                into@ + dd_from(dyns, ai as int) == into0 + dd_from(dyns, 0),
            decreases dynamics.len() - ai,
        {
            let mut bi: usize = ai + 1;
            while bi < dynamics.len()
                invariant
                    dyns == dynamics@,
                    ai < dynamics.len(),
                    ai < bi <= dynamics.len(),
                    into@ + dd_row(dyns, ai as int, bi as int) + dd_from(dyns, ai + 1) == into0
                        + dd_from(dyns, 0),
                decreases dynamics.len() - bi,
            {
                let displacement = Collision::rect_displacement(
                    dynamics[ai].rect,
                    dynamics[bi].rect,
                );
                let ghost before = into@;
                if let Some(disp) = displacement {
                    into.push(
                        Contact {
                            a: ColliderID::Dynamic(ai),
                            b: ColliderID::Dynamic(bi),
                            mtv: (disp.0, disp.1),
                            side_a: disp.2,
                        },
                    );
                }
                proof {
                    assert(into@ =~= before + opt_to_seq(dd_contact(dyns, ai as int, bi as int)));
                    assert(into@ + dd_row(dyns, ai as int, bi + 1) + dd_from(dyns, ai + 1) =~= before
                        + dd_row(dyns, ai as int, bi as int) + dd_from(dyns, ai + 1));
                }
                bi = bi + 1;
            }
            proof {
                assert(into@ + dd_from(dyns, ai as int) =~= into@ + dd_row(dyns, ai as int, ai + 1)
                    + dd_from(dyns, ai + 1));
            }
            ai = ai + 1;
        }
        // collide mobiles against walls
        let ghost into1 = into@;
        proof {
            assert(into1 =~= into0 + dd_from(dyns, 0));
        }
        let mut ai: usize = 0;
        while ai < dynamics.len()
            invariant
                dyns == dynamics@,
                stats == statics@,
                ai <= dynamics.len(),
                into@ + ds_from(dyns, stats, ai as int) == into1 + ds_from(dyns, stats, 0),
            decreases dynamics.len() - ai,
        {
            let mut bi: usize = 0;
            while bi < statics.len()
                invariant
                    dyns == dynamics@,
                    stats == statics@,
                    ai < dynamics.len(),
                    bi <= statics.len(),
                    into@ + ds_row(dyns, stats, ai as int, bi as int) + ds_from(dyns, stats, ai + 1)
                        == into1 + ds_from(dyns, stats, 0),
                decreases statics.len() - bi,
            {
                let ghost before = into@;
                if let Some(rect) = statics[bi].rect {
                    let displacement = Collision::rect_displacement(dynamics[ai].rect, rect);
                    if let Some(disp) = displacement {
                        into.push(
                            Contact {
                                a: ColliderID::Dynamic(ai),
                                b: ColliderID::Static(bi),
                                mtv: (disp.0, disp.1),
                                side_a: disp.2,
                            },
                        );
                    }
                }
                proof {
                    assert(into@ =~= before + opt_to_seq(
                        ds_contact(dyns, stats, ai as int, bi as int),
                    ));
                    assert(into@ + ds_row(dyns, stats, ai as int, bi + 1) + ds_from(
                        dyns,
                        stats,
                        ai + 1,
                    ) =~= before + ds_row(dyns, stats, ai as int, bi as int) + ds_from(
                        dyns,
                        stats,
                        ai + 1,
                    ));
                }
                bi = bi + 1;
            }
            proof {
                assert(into@ + ds_from(dyns, stats, ai as int) =~= into@ + ds_row(
                    dyns,
                    stats,
                    ai as int,
                    0,
                ) + ds_from(dyns, stats, ai + 1));
            }
            ai = ai + 1;
        }
        proof {
            assert(into@ =~= into0 + all_contacts(stats, dyns));
        }
    }
}

/// Each contact of one dynamic row is acceptable to the resolver.
proof fn lemma_dd_row_valid(dyns: Seq<Sprite>, ai: int, bi: int, ns: int)
    requires
        dyns.len() <= usize::MAX,
        0 <= ai < dyns.len(),
        ai < bi,
    ensures
        forall|j: int| 0 <= j < dd_row(dyns, ai, bi).len() ==> contact_valid(
            #[trigger] dd_row(dyns, ai, bi)[j],
            ns,
            dyns.len() as int,
        ),
    decreases dyns.len() - bi,
{
    if bi < dyns.len() {
        lemma_dd_row_valid(dyns, ai, bi + 1, ns);
        lemma_displacement_bounded(dyns[ai].rect, dyns[bi].rect);
        assert forall|j: int| 0 <= j < dd_row(dyns, ai, bi).len() implies contact_valid(
            #[trigger] dd_row(dyns, ai, bi)[j],
            ns,
            dyns.len() as int,
        ) by {
            let head = opt_to_seq(dd_contact(dyns, ai, bi));
            if j < head.len() {
                assert(dd_row(dyns, ai, bi)[j] == dd_contact(dyns, ai, bi)->0);
            } else {
                assert(dd_row(dyns, ai, bi)[j] == dd_row(dyns, ai, bi + 1)[j - head.len()]);
            }
        }
    }
}

/// Each dynamic-vs-dynamic contact is acceptable to the resolver.
proof fn lemma_dd_from_valid(dyns: Seq<Sprite>, ai: int, ns: int)
    requires
        dyns.len() <= usize::MAX,
    ensures
        forall|j: int| 0 <= j < dd_from(dyns, ai).len() ==> contact_valid(
            #[trigger] dd_from(dyns, ai)[j],
            ns,
            dyns.len() as int,
        ),
    decreases dyns.len() - ai,
{
    if 0 <= ai < dyns.len() {
        lemma_dd_row_valid(dyns, ai, ai + 1, ns);
        lemma_dd_from_valid(dyns, ai + 1, ns);
        assert forall|j: int| 0 <= j < dd_from(dyns, ai).len() implies contact_valid(
            #[trigger] dd_from(dyns, ai)[j],
            ns,
            dyns.len() as int,
        ) by {
            let head = dd_row(dyns, ai, ai + 1);
            if j >= head.len() {
                assert(dd_from(dyns, ai)[j] == dd_from(dyns, ai + 1)[j - head.len()]);
            }
        }
    }
}

/// Each contact of one dynamic against the statics is acceptable.
proof fn lemma_ds_row_valid(dyns: Seq<Sprite>, statics: Seq<Obstacle>, ai: int, bi: int)
    requires
        dyns.len() <= usize::MAX,
        statics.len() <= usize::MAX,
        0 <= ai < dyns.len(),
        0 <= bi,
    ensures
        forall|j: int| 0 <= j < ds_row(dyns, statics, ai, bi).len() ==> contact_valid(
            #[trigger] ds_row(dyns, statics, ai, bi)[j],
            statics.len() as int,
            dyns.len() as int,
        ),
    decreases statics.len() - bi,
{
    if bi < statics.len() {
        lemma_ds_row_valid(dyns, statics, ai, bi + 1);
        if statics[bi].rect is Some {
            lemma_displacement_bounded(dyns[ai].rect, statics[bi].rect->0);
        }
        assert forall|j: int| 0 <= j < ds_row(dyns, statics, ai, bi).len() implies contact_valid(
            #[trigger] ds_row(dyns, statics, ai, bi)[j],
            statics.len() as int,
            dyns.len() as int,
        ) by {
            let head = opt_to_seq(ds_contact(dyns, statics, ai, bi));
            if j < head.len() {
                assert(ds_row(dyns, statics, ai, bi)[j] == ds_contact(dyns, statics, ai, bi)->0);
            } else {
                assert(ds_row(dyns, statics, ai, bi)[j] == ds_row(dyns, statics, ai, bi + 1)[j
                    - head.len()]);
            }
        }
    }
}

/// Each dynamic-vs-static contact is acceptable to the resolver.
proof fn lemma_ds_from_valid(dyns: Seq<Sprite>, statics: Seq<Obstacle>, ai: int)
    requires
        dyns.len() <= usize::MAX,
        statics.len() <= usize::MAX,
    ensures
        forall|j: int| 0 <= j < ds_from(dyns, statics, ai).len() ==> contact_valid(
            #[trigger] ds_from(dyns, statics, ai)[j],
            statics.len() as int,
            dyns.len() as int,
        ),
    decreases dyns.len() - ai,
{
    if 0 <= ai < dyns.len() {
        lemma_ds_row_valid(dyns, statics, ai, 0);
        lemma_ds_from_valid(dyns, statics, ai + 1);
        assert forall|j: int| 0 <= j < ds_from(dyns, statics, ai).len() implies contact_valid(
            #[trigger] ds_from(dyns, statics, ai)[j],
            statics.len() as int,
            dyns.len() as int,
        ) by {
            let head = ds_row(dyns, statics, ai, 0);
            if j >= head.len() {
                assert(ds_from(dyns, statics, ai)[j] == ds_from(dyns, statics, ai + 1)[j
                    - head.len()]);
            }
        }
    }
}

/// Every contact a detection pass produces is acceptable to the resolver:
/// its `a` side is a dynamic collider, its indices are in range, a dynamic
/// pair never names one body twice, and its overlap amounts are bounded.
pub proof fn lemma_all_contacts_valid(statics: Seq<Obstacle>, dyns: Seq<Sprite>)
    requires
        dyns.len() <= usize::MAX,
        statics.len() <= usize::MAX,
    ensures
        forall|i: int| 0 <= i < all_contacts(statics, dyns).len() ==> contact_valid(
            #[trigger] all_contacts(statics, dyns)[i],
            statics.len() as int,
            dyns.len() as int,
        ),
{
    lemma_dd_from_valid(dyns, 0, statics.len() as int);
    lemma_ds_from_valid(dyns, statics, 0);
    assert forall|i: int| 0 <= i < all_contacts(statics, dyns).len() implies contact_valid(
        #[trigger] all_contacts(statics, dyns)[i],
        statics.len() as int,
        dyns.len() as int,
    ) by {
        let head = dd_from(dyns, 0);
        if i >= head.len() {
            assert(all_contacts(statics, dyns)[i] == ds_from(dyns, statics, 0)[i - head.len()]);
        }
    }
}

/// Contacts of one dynamic row are absent when nothing in it overlaps.
proof fn lemma_dd_row_empty(dyns: Seq<Sprite>, ai: int, bi: int)
    requires
        0 <= ai < dyns.len(),
        forall|k: int| bi <= k < dyns.len() ==> !overlapping(dyns[ai].rect, (#[trigger] dyns[k]).rect),
    ensures
        dd_row(dyns, ai, bi) =~= Seq::<Contact>::empty(),
    decreases dyns.len() - bi,
{
    if 0 <= bi < dyns.len() {
        lemma_dd_row_empty(dyns, ai, bi + 1);
    }
}

/// Dynamic-vs-dynamic contacts are absent when no pair overlaps.
proof fn lemma_dd_from_empty(dyns: Seq<Sprite>, ai: int)
    requires
        forall|i: int, k: int| 0 <= i < dyns.len() && i < k < dyns.len() ==> !overlapping(
            (#[trigger] dyns[i]).rect,
            (#[trigger] dyns[k]).rect,
        ),
    ensures
        dd_from(dyns, ai) =~= Seq::<Contact>::empty(),
    decreases dyns.len() - ai,
{
    if 0 <= ai < dyns.len() {
        lemma_dd_row_empty(dyns, ai, ai + 1);
        lemma_dd_from_empty(dyns, ai + 1);
    }
}

/// Contacts of one dynamic against a run of statics are absent when none of
/// those statics' rectangles overlaps it.
proof fn lemma_ds_row_empty(dyns: Seq<Sprite>, statics: Seq<Obstacle>, ai: int, bi: int)
    requires
        0 <= ai < dyns.len(),
        forall|k: int| bi <= k < statics.len() ==> ds_contact(dyns, statics, ai, k) is None,
    ensures
        ds_row(dyns, statics, ai, bi) =~= Seq::<Contact>::empty(),
    decreases statics.len() - bi,
{
    if 0 <= bi < statics.len() {
        lemma_ds_row_empty(dyns, statics, ai, bi + 1);
    }
}

/// Dynamic-vs-static contacts are absent when no such pair overlaps.
proof fn lemma_ds_from_empty(dyns: Seq<Sprite>, statics: Seq<Obstacle>, ai: int)
    requires
        forall|i: int, k: int| 0 <= i < dyns.len() && 0 <= k < statics.len() ==> (#[trigger] ds_contact(dyns, statics, i, k)) is None,
    ensures
        ds_from(dyns, statics, ai) =~= Seq::<Contact>::empty(),
    decreases dyns.len() - ai,
{
    if 0 <= ai < dyns.len() {
        lemma_ds_row_empty(dyns, statics, ai, 0);
        lemma_ds_from_empty(dyns, statics, ai + 1);
    }
}

/// On colliders with no overlapping pair at all, contact generation yields
/// the empty list.
pub proof fn lemma_no_overlap_no_contacts(statics: Seq<Obstacle>, dyns: Seq<Sprite>)
    requires
        forall|i: int, k: int| 0 <= i < dyns.len() && i < k < dyns.len() ==> !overlapping(
            (#[trigger] dyns[i]).rect,
            (#[trigger] dyns[k]).rect,
        ),
        forall|i: int, k: int|
            0 <= i < dyns.len() && 0 <= k < statics.len() && (#[trigger] statics[k]).rect is Some
                ==> !overlapping((#[trigger] dyns[i]).rect, statics[k].rect->0),
    ensures
        all_contacts(statics, dyns) =~= Seq::<Contact>::empty(),
{
    lemma_dd_from_empty(dyns, 0);
    assert forall|i: int, k: int| 0 <= i < dyns.len() && 0 <= k < statics.len() implies (#[trigger] ds_contact(dyns, statics, i, k)) is None by {
        if statics[k].rect is Some {
            assert(!overlapping(dyns[i].rect, statics[k].rect->0));
        }
    }
    lemma_ds_from_empty(dyns, statics, 0);
}

/// Contacts of one dynamic row, when exactly one later dynamic overlaps it.
proof fn lemma_dd_row_single(dyns: Seq<Sprite>, ai: int, bi: int, b0: int)
    requires
        0 <= ai < dyns.len(),
        0 <= bi <= b0 < dyns.len(),
        dd_contact(dyns, ai, b0) is Some,
        forall|k: int| bi <= k < dyns.len() && k != b0 ==> dd_contact(dyns, ai, k) is None,
    ensures
        dd_row(dyns, ai, bi) =~= seq![dd_contact(dyns, ai, b0)->0],
    decreases dyns.len() - bi,
{
    if bi == b0 {
        lemma_dd_row_empty_of_none(dyns, ai, bi + 1);
        assert(dd_row(dyns, ai, bi) =~= opt_to_seq(dd_contact(dyns, ai, bi)) + dd_row(
            dyns,
            ai,
            bi + 1,
        ));
        assert(opt_to_seq(dd_contact(dyns, ai, b0)) =~= seq![dd_contact(dyns, ai, b0)->0]);
    } else {
        assert(dd_contact(dyns, ai, bi) is None);
        lemma_dd_row_single(dyns, ai, bi + 1, b0);
        assert(dd_row(dyns, ai, bi) =~= opt_to_seq(dd_contact(dyns, ai, bi)) + dd_row(
            dyns,
            ai,
            bi + 1,
        ));
    }
}

/// A dynamic row with no remaining overlap is empty.
proof fn lemma_dd_row_empty_of_none(dyns: Seq<Sprite>, ai: int, bi: int)
    requires
        forall|k: int| bi <= k < dyns.len() ==> dd_contact(dyns, ai, k) is None,
    ensures
        dd_row(dyns, ai, bi) =~= Seq::<Contact>::empty(),
    decreases dyns.len() - bi,
{
    if 0 <= bi < dyns.len() {
        lemma_dd_row_empty_of_none(dyns, ai, bi + 1);
    }
}

/// Dynamic-vs-dynamic contacts of the dynamics from `ai` on, when the single
/// overlapping pair is `(a0, b0)` with `a0 >= ai`.
proof fn lemma_dd_from_single(dyns: Seq<Sprite>, ai: int, a0: int, b0: int)
    requires
        0 <= ai <= a0 < b0 < dyns.len(),
        dd_contact(dyns, a0, b0) is Some,
        forall|i: int, k: int|
            0 <= i < dyns.len() && i < k < dyns.len() && !(i == a0 && k == b0) ==> (
            #[trigger] dd_contact(dyns, i, k)) is None,
    ensures
        dd_from(dyns, ai) =~= seq![dd_contact(dyns, a0, b0)->0],
    decreases dyns.len() - ai,
{
    if ai == a0 {
        assert forall|k: int| a0 + 1 <= k < dyns.len() && k != b0 implies dd_contact(
            dyns,
            a0,
            k,
        ) is None by {
            assert(dd_contact(dyns, a0, k) is None);
        }
        lemma_dd_row_single(dyns, a0, a0 + 1, b0);
        lemma_dd_from_empty_above(dyns, ai + 1, a0, b0);
    } else {
        assert forall|k: int| ai + 1 <= k < dyns.len() implies dd_contact(dyns, ai, k) is None by {
            assert(dd_contact(dyns, ai, k) is None);
        }
        lemma_dd_row_empty_of_none(dyns, ai, ai + 1);
        lemma_dd_from_single(dyns, ai + 1, a0, b0);
    }
}

/// Above the single overlapping pair's first dynamic, no contacts remain.
proof fn lemma_dd_from_empty_above(dyns: Seq<Sprite>, ai: int, a0: int, b0: int)
    requires
        a0 < ai,
        forall|i: int, k: int|
            0 <= i < dyns.len() && i < k < dyns.len() && !(i == a0 && k == b0) ==> (
            #[trigger] dd_contact(dyns, i, k)) is None,
    ensures
        dd_from(dyns, ai) =~= Seq::<Contact>::empty(),
    decreases dyns.len() - ai,
{
    if 0 <= ai < dyns.len() {
        assert forall|k: int| ai + 1 <= k < dyns.len() implies dd_contact(dyns, ai, k) is None by {
            assert(dd_contact(dyns, ai, k) is None);
        }
        lemma_dd_row_empty_of_none(dyns, ai, ai + 1);
        lemma_dd_from_empty_above(dyns, ai + 1, a0, b0);
    }
}

/// When exactly one collider pair overlaps — the dynamic pair `(a0, b0)` —
/// one detection pass yields exactly that contact, with both overlap amounts
/// non-negative.
pub proof fn lemma_one_dynamic_overlap_one_contact(
    statics: Seq<Obstacle>,
    dyns: Seq<Sprite>,
    a0: int,
    b0: int,
)
    requires
        0 <= a0 < b0 < dyns.len(),
        overlapping(dyns[a0].rect, dyns[b0].rect),
        forall|i: int, k: int|
            0 <= i < dyns.len() && i < k < dyns.len() && !(i == a0 && k == b0) ==> !overlapping(
                (#[trigger] dyns[i]).rect,
                (#[trigger] dyns[k]).rect,
            ),
        forall|i: int, k: int|
            0 <= i < dyns.len() && 0 <= k < statics.len() && (#[trigger] statics[k]).rect is Some
                ==> !overlapping((#[trigger] dyns[i]).rect, statics[k].rect->0),
    ensures
        all_contacts(statics, dyns).len() == 1,
        all_contacts(statics, dyns)[0] == dd_contact(dyns, a0, b0)->0,
        all_contacts(statics, dyns)[0].mtv.0 >= 0,
        all_contacts(statics, dyns)[0].mtv.1 >= 0,
{
    assert forall|i: int, k: int|
        0 <= i < dyns.len() && i < k < dyns.len() && !(i == a0 && k == b0) implies (
    #[trigger] dd_contact(dyns, i, k)) is None by {
        assert(!overlapping(dyns[i].rect, dyns[k].rect));
    }
    lemma_dd_from_single(dyns, 0, a0, b0);
    assert forall|i: int, k: int| 0 <= i < dyns.len() && 0 <= k < statics.len() implies (
    #[trigger] ds_contact(dyns, statics, i, k)) is None by {
        if statics[k].rect is Some {
            assert(!overlapping(dyns[i].rect, statics[k].rect->0));
        }
    }
    lemma_ds_from_empty(dyns, statics, 0);
    assert(all_contacts(statics, dyns) =~= seq![dd_contact(dyns, a0, b0)->0]);
}

/// Contacts of one dynamic against a run of statics, when exactly one static
/// in the run overlaps it.
proof fn lemma_ds_row_single(dyns: Seq<Sprite>, statics: Seq<Obstacle>, ai: int, bi: int, b0: int)
    requires
        0 <= ai < dyns.len(),
        0 <= bi <= b0 < statics.len(),
        ds_contact(dyns, statics, ai, b0) is Some,
        forall|k: int| bi <= k < statics.len() && k != b0 ==> ds_contact(
            dyns,
            statics,
            ai,
            k,
        ) is None,
    ensures
        ds_row(dyns, statics, ai, bi) =~= seq![ds_contact(dyns, statics, ai, b0)->0],
    decreases statics.len() - bi,
{
    if bi == b0 {
        lemma_ds_row_empty(dyns, statics, ai, bi + 1);
        assert(ds_row(dyns, statics, ai, bi) =~= opt_to_seq(ds_contact(dyns, statics, ai, bi))
            + ds_row(dyns, statics, ai, bi + 1));
        assert(opt_to_seq(ds_contact(dyns, statics, ai, b0)) =~= seq![
            ds_contact(dyns, statics, ai, b0)->0,
        ]);
    } else {
        assert(ds_contact(dyns, statics, ai, bi) is None);
        lemma_ds_row_single(dyns, statics, ai, bi + 1, b0);
        assert(ds_row(dyns, statics, ai, bi) =~= opt_to_seq(ds_contact(dyns, statics, ai, bi))
            + ds_row(dyns, statics, ai, bi + 1));
    }
}

/// When exactly one collider pair overlaps — dynamic `a0` against static
/// `b0` — one detection pass yields exactly that contact, with both overlap
/// amounts non-negative.
pub proof fn lemma_one_overlap_one_contact(
    statics: Seq<Obstacle>,
    dyns: Seq<Sprite>,
    a0: int,
    b0: int,
)
    requires
        0 <= a0 < dyns.len(),
        0 <= b0 < statics.len(),
        statics[b0].rect is Some,
        overlapping(dyns[a0].rect, statics[b0].rect->0),
        forall|i: int, k: int| 0 <= i < dyns.len() && i < k < dyns.len() ==> !overlapping(
            (#[trigger] dyns[i]).rect,
            (#[trigger] dyns[k]).rect,
        ),
        forall|i: int, k: int|
            0 <= i < dyns.len() && 0 <= k < statics.len() && !(i == a0 && k == b0) && (
            #[trigger] statics[k]).rect is Some ==> !overlapping(
                (#[trigger] dyns[i]).rect,
                statics[k].rect->0,
            ),
    ensures
        all_contacts(statics, dyns).len() == 1,
        all_contacts(statics, dyns)[0] == ds_contact(dyns, statics, a0, b0)->0,
        all_contacts(statics, dyns)[0].mtv.0 >= 0,
        all_contacts(statics, dyns)[0].mtv.1 >= 0,
{
    lemma_dd_from_empty(dyns, 0);
    assert forall|i: int, k: int|
        0 <= i < dyns.len() && 0 <= k < statics.len() && !(i == a0 && k == b0) implies ds_contact(
        dyns,
        statics,
        i,
        k,
    ) is None by {
        if statics[k].rect is Some {
            assert(!overlapping(dyns[i].rect, statics[k].rect->0));
        }
    }
    assert forall|ai: int| 0 <= ai < dyns.len() && ai != a0 implies ds_row(
        dyns,
        statics,
        ai,
        0,
    ) =~= Seq::<Contact>::empty() by {
        lemma_ds_row_empty(dyns, statics, ai, 0);
    }
    lemma_ds_row_single(dyns, statics, a0, 0, b0);
    lemma_ds_from_single(dyns, statics, 0, a0, b0);
    assert(all_contacts(statics, dyns) =~= seq![ds_contact(dyns, statics, a0, b0)->0]);
}

/// Dynamic-vs-static contacts of the dynamics from `ai` on, when the single
/// overlapping pair is `(a0, b0)` with `a0 >= ai`.
proof fn lemma_ds_from_single(dyns: Seq<Sprite>, statics: Seq<Obstacle>, ai: int, a0: int, b0: int)
    requires
        0 <= ai <= a0 < dyns.len(),
        0 <= b0 < statics.len(),
        ds_contact(dyns, statics, a0, b0) is Some,
        forall|i: int, k: int|
            0 <= i < dyns.len() && 0 <= k < statics.len() && !(i == a0 && k == b0) ==> (#[trigger] ds_contact(dyns, statics, i, k)) is None,
    ensures
        ds_from(dyns, statics, ai) =~= seq![ds_contact(dyns, statics, a0, b0)->0],
    decreases dyns.len() - ai,
{
    if ai == a0 {
        lemma_ds_row_single(dyns, statics, a0, 0, b0);
        assert forall|i: int, k: int|
            0 <= i < dyns.len() && 0 <= k < statics.len() implies (i <= a0 || (#[trigger] ds_contact(dyns, statics, i, k)) is None) by {}
        lemma_ds_from_empty_above(dyns, statics, ai + 1, a0, b0);
    } else {
        lemma_ds_row_empty(dyns, statics, ai, 0);
        lemma_ds_from_single(dyns, statics, ai + 1, a0, b0);
    }
}

/// Above the single overlapping dynamic, no contacts remain.
proof fn lemma_ds_from_empty_above(
    dyns: Seq<Sprite>,
    statics: Seq<Obstacle>,
    ai: int,
    a0: int,
    b0: int,
)
    requires
        a0 < ai,
        forall|i: int, k: int|
            0 <= i < dyns.len() && 0 <= k < statics.len() && !(i == a0 && k == b0) ==> (#[trigger] ds_contact(dyns, statics, i, k)) is None,
    ensures
        ds_from(dyns, statics, ai) =~= Seq::<Contact>::empty(),
    decreases dyns.len() - ai,
{
    if 0 <= ai < dyns.len() {
        lemma_ds_row_empty(dyns, statics, ai, 0);
        lemma_ds_from_empty_above(dyns, statics, ai + 1, a0, b0);
    }
}

/// Coordinate headroom a body must keep so that one restitution pass cannot
/// overflow `i32` arithmetic.
pub const COORD_LIMIT: i32 = 0x4000_0000;

/// The most contacts one restitution pass accepts.
pub const CONTACT_CAP: usize = 8192;

/// Both overlap amounts are plausible rectangle overlaps.
pub open spec fn mtv_bounded(c: Contact) -> bool {
    &&& 0 <= c.mtv.0 <= u16::MAX
    &&& 0 <= c.mtv.1 <= u16::MAX
}

/// A contact the resolver can act on: indices within the collider lists, a
/// dynamic pair never naming one body twice, and bounded overlap amounts.
pub open spec fn contact_valid(c: Contact, n_statics: int, n_dynamics: int) -> bool {
    &&& mtv_bounded(c)
    &&& match c.a {
        ColliderID::Dynamic(ai) => ai < n_dynamics && match c.b {
            ColliderID::Dynamic(bi) => bi < n_dynamics && bi != ai,
            ColliderID::Static(bi) => bi < n_statics,
        },
        ColliderID::Static(_) => true,
    }
}

/// A body's coordinates are far enough from the `i32` edges for a pass.
pub open spec fn sprite_in_range(s: Sprite) -> bool {
    &&& -COORD_LIMIT <= s.rect.x <= COORD_LIMIT
    &&& -COORD_LIMIT <= s.rect.y <= COORD_LIMIT
}

/// Sort key: squared penetration magnitude.
pub open spec fn spec_contact_key(c: Contact) -> int {
    c.mtv.0 * c.mtv.0 + c.mtv.1 * c.mtv.1
}

/// Insert `c` after every element whose key is at least `c`'s.
pub open spec fn insert_desc(s: Seq<Contact>, c: Contact) -> Seq<Contact>
    decreases s.len(),
{
    if s.len() == 0 {
        seq![c]
    } else if spec_contact_key(s[0]) >= spec_contact_key(c) {
        seq![s[0]] + insert_desc(s.drop_first(), c)
    } else {
        seq![c] + s
    }
}

/// Stable insertion sort, descending by squared penetration magnitude.
pub open spec fn sort_desc(s: Seq<Contact>) -> Seq<Contact>
    decreases s.len(),
{
    if s.len() == 0 {
        Seq::empty()
    } else {
        insert_desc(sort_desc(s.drop_last()), s.last())
    }
}

/// `insert_desc` lands at the first position whose key is below `c`'s.
proof fn lemma_insert_desc_at(s: Seq<Contact>, c: Contact, j: int)
    requires
        0 <= j <= s.len(),
        forall|k: int| 0 <= k < j ==> spec_contact_key(#[trigger] s[k]) >= spec_contact_key(c),
        j < s.len() ==> spec_contact_key(s[j]) < spec_contact_key(c),
    ensures
        insert_desc(s, c) == s.insert(j, c),
    decreases s.len(),
{
    if j == 0 {
        if s.len() == 0 {
            assert(insert_desc(s, c) =~= s.insert(0, c));
        } else {
            assert(insert_desc(s, c) =~= s.insert(0, c));
        }
    } else {
        lemma_insert_desc_at(s.drop_first(), c, j - 1);
        assert(insert_desc(s, c) =~= s.insert(j, c));
    }
}

/// Sorting keeps every contact acceptable to the resolver.
proof fn lemma_insert_desc_valid(s: Seq<Contact>, c: Contact, ns: int, nd: int)
    requires
        forall|i: int| 0 <= i < s.len() ==> contact_valid(#[trigger] s[i], ns, nd),
        contact_valid(c, ns, nd),
    ensures
        insert_desc(s, c).len() == s.len() + 1,
        forall|i: int| 0 <= i < s.len() + 1 ==> contact_valid(#[trigger] insert_desc(s, c)[i], ns, nd),
    decreases s.len(),
{
    if s.len() == 0 {
    } else if spec_contact_key(s[0]) >= spec_contact_key(c) {
        lemma_insert_desc_valid(s.drop_first(), c, ns, nd);
    }
}

/// Sorting keeps length and every contact acceptable to the resolver.
pub proof fn lemma_sort_desc_valid(s: Seq<Contact>, ns: int, nd: int)
    requires
        forall|i: int| 0 <= i < s.len() ==> contact_valid(#[trigger] s[i], ns, nd),
    ensures
        sort_desc(s).len() == s.len(),
        forall|i: int| 0 <= i < s.len() ==> contact_valid(#[trigger] sort_desc(s)[i], ns, nd),
    decreases s.len(),
{
    if s.len() > 0 {
        lemma_sort_desc_valid(s.drop_last(), ns, nd);
        lemma_insert_desc_valid(sort_desc(s.drop_last()), s.last(), ns, nd);
    }
}

/// The keys run in non-increasing order: deepest interpenetration first.
pub open spec fn sorted_desc(s: Seq<Contact>) -> bool {
    forall|i: int, j: int|
        0 <= i <= j < s.len() ==> spec_contact_key(#[trigger] s[i]) >= spec_contact_key(
            #[trigger] s[j],
        )
}

/// Inserting at position `j` adds exactly one copy of `c` to the contents.
proof fn lemma_seq_insert_to_multiset(s: Seq<Contact>, j: int, c: Contact)
    requires
        0 <= j <= s.len(),
    ensures
        s.insert(j, c).to_multiset() =~= s.to_multiset().insert(c),
{
    broadcast use vstd::seq_lib::group_to_multiset_ensures;

    let t = s.insert(j, c);
    assert(t.remove(j) =~= s);
    assert(t[j] == c);
    assert(t.remove(j).to_multiset() =~= t.to_multiset().remove(t[j]));
    assert(t.contains(c));
    assert(t.to_multiset().count(c) > 0);
    assert forall|x: Contact| t.to_multiset().count(x) == s.to_multiset().insert(c).count(
        x,
    ) by {
        if x == c {
            assert(t.to_multiset().remove(c).count(c) + 1 == t.to_multiset().count(c));
        } else {
            assert(t.to_multiset().remove(c).count(x) == t.to_multiset().count(x));
        }
    }
    assert(t.to_multiset() =~= s.to_multiset().insert(c));
}

/// `insert_desc` keeps the order sorted and adds exactly one copy of `c`.
proof fn lemma_insert_desc_keeps_sorted(s: Seq<Contact>, c: Contact)
    requires
        sorted_desc(s),
    ensures
        sorted_desc(insert_desc(s, c)),
        insert_desc(s, c).len() == s.len() + 1,
        insert_desc(s, c).to_multiset() =~= s.to_multiset().insert(c),
        spec_contact_key(insert_desc(s, c)[0]) == spec_contact_key(c) || (s.len() > 0
            && spec_contact_key(insert_desc(s, c)[0]) == spec_contact_key(s[0])),
    decreases s.len(),
{
    if s.len() == 0 {
        lemma_seq_insert_to_multiset(s, 0, c);
        assert(insert_desc(s, c) =~= s.insert(0, c));
    } else if spec_contact_key(s[0]) >= spec_contact_key(c) {
        assert(sorted_desc(s.drop_first()));
        lemma_insert_desc_keeps_sorted(s.drop_first(), c);
        let ins = insert_desc(s.drop_first(), c);
        let r = insert_desc(s, c);
        assert(r =~= seq![s[0]] + ins);
        assert forall|i: int, j: int|
            0 <= i <= j < r.len() implies spec_contact_key(#[trigger] r[i]) >= spec_contact_key(
            #[trigger] r[j],
        ) by {
            if i == 0 && j > 0 {
                assert(r[j] == ins[j - 1]);
                assert(spec_contact_key(ins[0]) >= spec_contact_key(ins[j - 1]));
            } else if i > 0 {
                assert(r[i] == ins[i - 1] && r[j] == ins[j - 1]);
            }
        }
        lemma_seq_insert_to_multiset(s.drop_first(), 0, s[0]);
        assert(s =~= s.drop_first().insert(0, s[0]));
        lemma_seq_insert_to_multiset(ins, 0, s[0]);
        assert(r =~= ins.insert(0, s[0]));
        assert(r.to_multiset() =~= s.to_multiset().insert(c));
    } else {
        lemma_seq_insert_to_multiset(s, 0, c);
        assert(insert_desc(s, c) =~= s.insert(0, c));
    }
}

/// The sort really sorts: its result runs deepest-first and holds exactly
/// the contacts that went in.
pub proof fn lemma_sort_desc_sorts(s: Seq<Contact>)
    ensures
        sorted_desc(sort_desc(s)),
        sort_desc(s).len() == s.len(),
        sort_desc(s).to_multiset() =~= s.to_multiset(),
    decreases s.len(),
{
    broadcast use vstd::seq_lib::group_to_multiset_ensures;

    if s.len() == 0 {
    } else {
        lemma_sort_desc_sorts(s.drop_last());
        lemma_insert_desc_keeps_sorted(sort_desc(s.drop_last()), s.last());
        assert(s =~= s.drop_last().push(s.last()));
        assert(s.drop_last().push(s.last()).to_multiset() =~= s.drop_last().to_multiset().insert(
            s.last(),
        ));
    }
}

/// Squared penetration magnitude of a bounded contact.
fn contact_key(c: &Contact) -> (k: i64)
    requires
        mtv_bounded(*c),
    ensures
        k == spec_contact_key(*c),
{
    proof {
        assert(c.mtv.0 * c.mtv.0 <= 0xFFFF * 0xFFFF && c.mtv.0 * c.mtv.0 >= 0) by (nonlinear_arith)
            requires 0 <= c.mtv.0 <= 0xFFFF;
        assert(c.mtv.1 * c.mtv.1 <= 0xFFFF * 0xFFFF && c.mtv.1 * c.mtv.1 >= 0) by (nonlinear_arith)
            requires 0 <= c.mtv.1 <= 0xFFFF;
    }
    (c.mtv.0 as i64) * (c.mtv.0 as i64) + (c.mtv.1 as i64) * (c.mtv.1 as i64)
}

/// Sort contacts descending by squared penetration magnitude (stable).
fn sort_contacts(contacts: &mut Vec<Contact>)
    requires
        forall|i: int| 0 <= i < old(contacts)@.len() ==> mtv_bounded(#[trigger] old(contacts)@[i]),
    ensures
        final(contacts)@ == sort_desc(old(contacts)@),
{
    let ghost input = contacts@;
    let mut res: Vec<Contact> = Vec::new();
    let mut i: usize = 0;
    while i < contacts.len()
        invariant
            contacts@ == input,
            i <= input.len(),
            forall|k: int| 0 <= k < input.len() ==> mtv_bounded(#[trigger] input[k]),
            res@ == sort_desc(input.take(i as int)),
            res@.len() == i,
            forall|k: int| 0 <= k < res@.len() ==> mtv_bounded(#[trigger] res@[k]),
        decreases input.len() - i,
    {
        let c = contacts[i];
        let ck = contact_key(&c);
        let mut j: usize = 0;
        while j < res.len() && contact_key(&res[j]) >= ck
            invariant
                j <= res@.len(),
                forall|k: int| 0 <= k < j ==> spec_contact_key(#[trigger] res@[k])
                    >= spec_contact_key(c),
                forall|k: int| 0 <= k < res@.len() ==> mtv_bounded(#[trigger] res@[k]),
                ck == spec_contact_key(c),
            decreases res@.len() - j,
        {
            j = j + 1;
        }
        let ghost res0 = res@;
        res.insert(j, c);
        proof {
            lemma_insert_desc_at(res0, c, j as int);
            assert(input.take(i + 1).drop_last() =~= input.take(i as int));
            assert(input.take(i + 1).last() == input[i as int]);
            assert forall|k: int| 0 <= k < res@.len() implies mtv_bounded(#[trigger] res@[k]) by {
                if k < j {
                    assert(res@[k] == res0[k]);
                } else if k == j {
                    assert(res@[k] == c);
                } else {
                    assert(res@[k] == res0[k - 1]);
                }
            }
        }
        i = i + 1;
    }
    proof {
        assert(input.take(input.len() as int) =~= input);
    }
    *contacts = res;
}

/// A detected overlap never exceeds either rectangle's extent.
pub proof fn lemma_displacement_bounded(r1: Rect, r2: Rect)
    ensures
        spec_displacement(r1, r2) matches Some(d) ==> 0 <= d.0 <= u16::MAX && 0 <= d.1 <= u16::MAX,
{
}

/// One-sided correction of a body against a static obstacle: displace along
/// the contact axis by the overlap amount, in the separating direction, and
/// zero the velocity component that drives the pair together.
pub open spec fn spec_resolve_ds(s: Sprite, mtv: (i32, i32), side: Side) -> Sprite {
    match side {
        Side::Top => Sprite {
            rect: Rect { y: (s.rect.y + mtv.1) as i32, ..s.rect },
            vy: if s.vy < 0 {
                0
            } else {
                s.vy
            },
            ..s
        },
        Side::Bottom => Sprite {
            rect: Rect { y: (s.rect.y - mtv.1) as i32, ..s.rect },
            vy: if s.vy > 0 {
                0
            } else {
                s.vy
            },
            ..s
        },
        Side::Left => Sprite {
            rect: Rect { x: (s.rect.x + mtv.0) as i32, ..s.rect },
            vx: if s.vx < 0 {
                0
            } else {
                s.vx
            },
            ..s
        },
        Side::Right => Sprite {
            rect: Rect { x: (s.rect.x - mtv.0) as i32, ..s.rect },
            vx: if s.vx > 0 {
                0
            } else {
                s.vx
            },
            ..s
        },
    }
}

/// Evenly-split correction of two dynamic bodies: each moves by half the
/// overlap along the contact axis, and each loses the velocity component that
/// drives the pair together.
pub open spec fn spec_resolve_dd(a: Sprite, b: Sprite, mtv: (i32, i32), side: Side) -> (
    Sprite,
    Sprite,
) {
    match side {
        Side::Top => (
            Sprite {
                rect: Rect { y: (a.rect.y + mtv.1 / 2) as i32, ..a.rect },
                vy: if a.vy < 0 {
                    0
                } else {
                    a.vy
                },
                ..a
            },
            Sprite {
                rect: Rect { y: (b.rect.y - mtv.1 / 2) as i32, ..b.rect },
                vy: if b.vy > 0 {
                    0
                } else {
                    b.vy
                },
                ..b
            },
        ),
        Side::Bottom => (
            Sprite {
                rect: Rect { y: (a.rect.y - mtv.1 / 2) as i32, ..a.rect },
                vy: if a.vy > 0 {
                    0
                } else {
                    a.vy
                },
                ..a
            },
            Sprite {
                rect: Rect { y: (b.rect.y + mtv.1 / 2) as i32, ..b.rect },
                vy: if b.vy < 0 {
                    0
                } else {
                    b.vy
                },
                ..b
            },
        ),
        Side::Left => (
            Sprite {
                rect: Rect { x: (a.rect.x + mtv.0 / 2) as i32, ..a.rect },
                vx: if a.vx < 0 {
                    0
                } else {
                    a.vx
                },
                ..a
            },
            Sprite {
                rect: Rect { x: (b.rect.x - mtv.0 / 2) as i32, ..b.rect },
                vx: if b.vx > 0 {
                    0
                } else {
                    b.vx
                },
                ..b
            },
        ),
        Side::Right => (
            Sprite {
                rect: Rect { x: (a.rect.x - mtv.0 / 2) as i32, ..a.rect },
                vx: if a.vx > 0 {
                    0
                } else {
                    a.vx
                },
                ..a
            },
            Sprite {
                rect: Rect { x: (b.rect.x + mtv.0 / 2) as i32, ..b.rect },
                vx: if b.vx < 0 {
                    0
                } else {
                    b.vx
                },
                ..b
            },
        ),
    }
}

/// One resolver step: a fresh collider gets the stored correction and is
/// marked corrected; an already-corrected collider is re-checked against
/// current positions and only corrected further if still overlapping.
pub open spec fn spec_restitute_step(
    statics: Seq<Obstacle>,
    dyns: Seq<Sprite>,
    corrected: Seq<bool>,
    c: Contact,
) -> (Seq<Sprite>, Seq<bool>) {
    match c.a {
        ColliderID::Dynamic(ai) => match c.b {
            ColliderID::Dynamic(bi) => {
                if !corrected[ai as int] {
                    let r = spec_resolve_dd(dyns[ai as int], dyns[bi as int], c.mtv, c.side_a);
                    (
                        dyns.update(ai as int, r.0).update(bi as int, r.1),
                        corrected.update(ai as int, true).update(bi as int, true),
                    )
                } else {
                    match spec_displacement(dyns[ai as int].rect, dyns[bi as int].rect) {
                        Some(d) => {
                            let r = spec_resolve_dd(
                                dyns[ai as int],
                                dyns[bi as int],
                                (d.0, d.1),
                                d.2,
                            );
                            (dyns.update(ai as int, r.0).update(bi as int, r.1), corrected)
                        },
                        None => (dyns, corrected),
                    }
                }
            },
            ColliderID::Static(bi) => {
                if !corrected[ai as int] {
                    (
                        dyns.update(
                            ai as int,
                            spec_resolve_ds(dyns[ai as int], c.mtv, c.side_a),
                        ),
                        corrected.update(ai as int, true),
                    )
                } else {
                    match statics[bi as int].rect {
                        Some(r2) => match spec_displacement(dyns[ai as int].rect, r2) {
                            Some(d) => (
                                dyns.update(
                                    ai as int,
                                    spec_resolve_ds(dyns[ai as int], (d.0, d.1), d.2),
                                ),
                                corrected,
                            ),
                            None => (dyns, corrected),
                        },
                        None => (dyns, corrected),
                    }
                }
            },
        },
        ColliderID::Static(_) => (dyns, corrected),
    }
}

/// One resolver step moves no coordinate by more than one tile of `0x10000`.
proof fn lemma_step_drift(
    statics: Seq<Obstacle>,
    dyns: Seq<Sprite>,
    corrected: Seq<bool>,
    c: Contact,
    bound: int,
)
    requires
        contact_valid(c, statics.len() as int, dyns.len() as int),
        corrected.len() == dyns.len(),
        forall|k: int| 0 <= k < dyns.len() ==> -bound <= (#[trigger] dyns[k]).rect.x <= bound
            && -bound <= dyns[k].rect.y <= bound,
        0 <= bound,
        bound + 0x10000 <= i32::MAX,
    ensures
        spec_restitute_step(statics, dyns, corrected, c).0.len() == dyns.len(),
        spec_restitute_step(statics, dyns, corrected, c).1.len() == corrected.len(),
        forall|k: int| 0 <= k < dyns.len() ==> -(bound + 0x10000) <= (#[trigger] spec_restitute_step(
            statics,
            dyns,
            corrected,
            c,
        ).0[k]).rect.x <= bound + 0x10000 && -(bound + 0x10000) <= spec_restitute_step(
            statics,
            dyns,
            corrected,
            c,
        ).0[k].rect.y <= bound + 0x10000,
{
    match c.a {
        ColliderID::Dynamic(ai) => match c.b {
            ColliderID::Dynamic(bi) => {
                lemma_displacement_bounded(dyns[ai as int].rect, dyns[bi as int].rect);
            },
            ColliderID::Static(bi) => {
                if statics[bi as int].rect is Some {
                    lemma_displacement_bounded(dyns[ai as int].rect, statics[bi as int].rect->0);
                }
            },
        },
        ColliderID::Static(_) => {},
    }
}

/// The resolver state after the first `n` of the sorted contacts.
pub open spec fn spec_restitute_upto(
    statics: Seq<Obstacle>,
    dyns0: Seq<Sprite>,
    cs: Seq<Contact>,
    n: int,
) -> (Seq<Sprite>, Seq<bool>)
    decreases n,
{
    if n <= 0 {
        (dyns0, Seq::new(dyns0.len(), |i: int| false))
    } else {
        let prev = spec_restitute_upto(statics, dyns0, cs, n - 1);
        spec_restitute_step(statics, prev.0, prev.1, cs[n - 1])
    }
}

/// The bodies after one full restitution pass over `cs`.
pub open spec fn spec_restitute(statics: Seq<Obstacle>, dyns0: Seq<Sprite>, cs: Seq<Contact>) -> Seq<
    Sprite,
> {
    spec_restitute_upto(statics, dyns0, sort_desc(cs), cs.len() as int).0
}

impl Collision {
    /// Apply a one-sided displacement to `dynamics[ai]`.
    fn restitute_ds(dynamics: &mut Vec<Sprite>, ai: usize, mtv: (i32, i32), side: Side)
        requires
            ai < old(dynamics)@.len(),
            0 <= mtv.0 <= u16::MAX,
            0 <= mtv.1 <= u16::MAX,
            -0x6000_0000 <= old(dynamics)@[ai as int].rect.x <= 0x6000_0000,
            -0x6000_0000 <= old(dynamics)@[ai as int].rect.y <= 0x6000_0000,
        ensures
            final(dynamics)@ == old(dynamics)@.update(
                ai as int,
                spec_resolve_ds(old(dynamics)@[ai as int], mtv, side),
            ),
    {
        match side {
            Side::Top => {
                dynamics[ai].rect.y = dynamics[ai].rect.y + mtv.1;
                if dynamics[ai].vy < 0 {
                    dynamics[ai].vy = 0;
                }
            },
            Side::Bottom => {
                dynamics[ai].rect.y = dynamics[ai].rect.y - mtv.1;
                if dynamics[ai].vy > 0 {
                    dynamics[ai].vy = 0;
                }
            },
            Side::Left => {
                dynamics[ai].rect.x = dynamics[ai].rect.x + mtv.0;
                if dynamics[ai].vx < 0 {
                    dynamics[ai].vx = 0;
                }
            },
            Side::Right => {
                dynamics[ai].rect.x = dynamics[ai].rect.x - mtv.0;
                if dynamics[ai].vx > 0 {
                    dynamics[ai].vx = 0;
                }
            },
        }
    }

    /// Apply an evenly-split displacement to the dynamic pair `(ai, bi)`.
    fn restitute_dd(dynamics: &mut Vec<Sprite>, ai: usize, bi: usize, mtv: (i32, i32), side: Side)
        requires
            ai < old(dynamics)@.len(),
            bi < old(dynamics)@.len(),
            ai != bi,
            0 <= mtv.0 <= u16::MAX,
            0 <= mtv.1 <= u16::MAX,
            -0x6000_0000 <= old(dynamics)@[ai as int].rect.x <= 0x6000_0000,
            -0x6000_0000 <= old(dynamics)@[ai as int].rect.y <= 0x6000_0000,
            -0x6000_0000 <= old(dynamics)@[bi as int].rect.x <= 0x6000_0000,
            -0x6000_0000 <= old(dynamics)@[bi as int].rect.y <= 0x6000_0000,
        ensures
            final(dynamics)@ == ({
                let r = spec_resolve_dd(
                    old(dynamics)@[ai as int],
                    old(dynamics)@[bi as int],
                    mtv,
                    side,
                );
                old(dynamics)@.update(ai as int, r.0).update(bi as int, r.1)
            }),
    {
        let half_x = (mtv.0 as u32 / 2) as i32;
        let half_y = (mtv.1 as u32 / 2) as i32;
        match side {
            Side::Top => {
                dynamics[ai].rect.y = dynamics[ai].rect.y + half_y;
                if dynamics[ai].vy < 0 {
                    dynamics[ai].vy = 0;
                }
                dynamics[bi].rect.y = dynamics[bi].rect.y - half_y;
                if dynamics[bi].vy > 0 {
                    dynamics[bi].vy = 0;
                }
            },
            Side::Bottom => {
                dynamics[ai].rect.y = dynamics[ai].rect.y - half_y;
                if dynamics[ai].vy > 0 {
                    dynamics[ai].vy = 0;
                }
                dynamics[bi].rect.y = dynamics[bi].rect.y + half_y;
                if dynamics[bi].vy < 0 {
                    dynamics[bi].vy = 0;
                }
            },
            Side::Left => {
                dynamics[ai].rect.x = dynamics[ai].rect.x + half_x;
                if dynamics[ai].vx < 0 {
                    dynamics[ai].vx = 0;
                }
                dynamics[bi].rect.x = dynamics[bi].rect.x - half_x;
                if dynamics[bi].vx > 0 {
                    dynamics[bi].vx = 0;
                }
            },
            Side::Right => {
                dynamics[ai].rect.x = dynamics[ai].rect.x - half_x;
                if dynamics[ai].vx > 0 {
                    dynamics[ai].vx = 0;
                }
                dynamics[bi].rect.x = dynamics[bi].rect.x + half_x;
                if dynamics[bi].vx < 0 {
                    dynamics[bi].vx = 0;
                }
            },
        }
    }

    /// One restitution pass: sort contacts descending by squared penetration,
    /// correct each contact's dynamic side once, and re-check any collider
    /// touched a second time against current positions before moving it
    /// again.
    pub fn restitute(statics: &Vec<Obstacle>, dynamics: &mut Vec<Sprite>, contacts: &mut Vec<
        Contact,
    >)
        requires
            forall|i: int| 0 <= i < old(contacts)@.len() ==> contact_valid(
                #[trigger] old(contacts)@[i],
                statics@.len() as int,
                old(dynamics)@.len() as int,
            ),
            forall|i: int| 0 <= i < old(dynamics)@.len() ==> sprite_in_range(
                #[trigger] old(dynamics)@[i],
            ),
            old(contacts)@.len() <= CONTACT_CAP,
        ensures
            final(contacts)@ == sort_desc(old(contacts)@),
            final(dynamics)@ == spec_restitute(statics@, old(dynamics)@, old(contacts)@),
            final(dynamics)@.len() == old(dynamics)@.len(),
    {
        let ghost input = contacts@;
        let ghost dyns0 = dynamics@;
        let ghost stats = statics@;
        let ghost ns = statics@.len() as int;
        let ghost nd = dynamics@.len() as int;
        sort_contacts(contacts);
        proof {
            lemma_sort_desc_valid(input, ns, nd);
        }
        let ghost sorted = contacts@;
        let mut corrected: Vec<bool> = Vec::new();
        while corrected.len() < dynamics.len()
            invariant
                corrected@.len() <= dynamics@.len(),
                forall|k: int| 0 <= k < corrected@.len() ==> !(#[trigger] corrected@[k]),
                dynamics@ == dyns0,
            decreases dynamics@.len() - corrected@.len(),
        {
            corrected.push(false);
        }
        proof {
            assert(corrected@ =~= Seq::new(dyns0.len(), |i: int| false));
        }
        let mut i: usize = 0;
        while i < contacts.len()
            invariant
                contacts@ == sorted,
                statics@ == stats,
                ns == stats.len(),
                nd == dyns0.len(),
                sorted.len() == input.len() <= CONTACT_CAP,
                i <= sorted.len(),
                forall|k: int| 0 <= k < sorted.len() ==> contact_valid(
                    #[trigger] sorted[k],
                    ns,
                    nd,
                ),
                dynamics@.len() == nd,
                corrected@.len() == nd,
                dynamics@ == spec_restitute_upto(stats, dyns0, sorted, i as int).0,
                corrected@ == spec_restitute_upto(stats, dyns0, sorted, i as int).1,
                forall|k: int| 0 <= k < nd ==> {
                    &&& -(COORD_LIMIT as int) - i * 0x10000 <= (
                    #[trigger] dynamics@[k]).rect.x <= COORD_LIMIT + i * 0x10000
                    &&& -(COORD_LIMIT as int) - i * 0x10000 <= dynamics@[k].rect.y <= COORD_LIMIT
                        + i * 0x10000
                },
            decreases sorted.len() - i,
        {
            let ghost prev_d = dynamics@;
            let ghost prev_c = corrected@;
            let ghost bound = COORD_LIMIT + i * 0x10000;
            let c = contacts[i];
            proof {
                assert(contact_valid(sorted[i as int], ns, nd));
                lemma_step_drift(stats, prev_d, prev_c, sorted[i as int], bound);
                assert(bound + 0x10000 <= 0x6000_0000);
            }
            match c.a {
                ColliderID::Dynamic(ai) => match c.b {
                    ColliderID::Dynamic(bi) => {
                        if !corrected[ai] {
                            Collision::restitute_dd(dynamics, ai, bi, c.mtv, c.side_a);
                            corrected.set(ai, true);
                            corrected.set(bi, true);
                        } else {
                            let displacement = Collision::rect_displacement(
                                dynamics[ai].rect,
                                dynamics[bi].rect,
                            );
                            proof {
                                lemma_displacement_bounded(
                                    prev_d[ai as int].rect,
                                    prev_d[bi as int].rect,
                                );
                            }
                            if let Some(disp) = displacement {
                                Collision::restitute_dd(
                                    dynamics,
                                    ai,
                                    bi,
                                    (disp.0, disp.1),
                                    disp.2,
                                );
                            }
                        }
                    },
                    ColliderID::Static(bi) => {
                        if !corrected[ai] {
                            Collision::restitute_ds(dynamics, ai, c.mtv, c.side_a);
                            corrected.set(ai, true);
                        } else {
                            if let Some(rect) = statics[bi].rect {
                                let displacement = Collision::rect_displacement(
                                    dynamics[ai].rect,
                                    rect,
                                );
                                proof {
                                    lemma_displacement_bounded(prev_d[ai as int].rect, rect);
                                }
                                if let Some(disp) = displacement {
                                    Collision::restitute_ds(dynamics, ai, (disp.0, disp.1), disp.2);
                                }
                            }
                        }
                    },
                },
                ColliderID::Static(_) => {},
            }
            proof {
                assert(dynamics@ == spec_restitute_step(stats, prev_d, prev_c, sorted[i as int]).0);
                assert(corrected@ == spec_restitute_step(stats, prev_d, prev_c, sorted[i as int]).1);
            }
            i = i + 1;
        }
    }
}

/// The single-pass resolver can fully separate a pair when, on the shallower
/// axis, neither span strictly contains the other: the trailing edges are
/// ordered the same way as the leading edges.
pub open spec fn separable(r1: Rect, r2: Rect) -> bool {
    if !overlapping(r1, r2) {
        true
    } else if x_overlap(r1, r2) < y_overlap(r1, r2) {
        if r1.x < r2.x {
            r1.right() <= r2.right()
        } else {
            r2.right() <= r1.right()
        }
    } else {
        if r1.y < r2.y {
            r1.bottom() <= r2.bottom()
        } else {
            r2.bottom() <= r1.bottom()
        }
    }
}

/// With one dynamic body and one static obstacle, a detection pass yields
/// exactly the contact of that pair, or nothing when they do not touch.
proof fn lemma_single_pair_contacts(statics: Seq<Obstacle>, dyns: Seq<Sprite>)
    requires
        dyns.len() == 1,
        statics.len() == 1,
    ensures
        all_contacts(statics, dyns) =~= opt_to_seq(ds_contact(dyns, statics, 0, 0)),
{
    assert(dd_row(dyns, 0, 1) =~= Seq::<Contact>::empty());
    assert(dd_from(dyns, 1) =~= Seq::<Contact>::empty());
    assert(dd_from(dyns, 0) =~= Seq::<Contact>::empty());
    assert(ds_row(dyns, statics, 0, 1) =~= Seq::<Contact>::empty());
    assert(ds_row(dyns, statics, 0, 0) =~= opt_to_seq(ds_contact(dyns, statics, 0, 0)));
    assert(ds_from(dyns, statics, 1) =~= Seq::<Contact>::empty());
    assert(ds_from(dyns, statics, 0) =~= opt_to_seq(ds_contact(dyns, statics, 0, 0)));
}

/// One restitution pass over the contact of a single dynamic body against a
/// single static obstacle leaves the pair without positive-area overlap, and
/// a second pass over freshly gathered contacts changes nothing, provided
/// the pair is separable on its contact axis.
pub proof fn lemma_restitute_separates_and_is_idempotent(statics: Seq<Obstacle>, dyns: Seq<Sprite>)
    requires
        dyns.len() == 1,
        statics.len() == 1,
        statics[0].rect is Some,
        sprite_in_range(dyns[0]),
        separable(dyns[0].rect, statics[0].rect->0),
    ensures
        ({
            let r2 = statics[0].rect->0;
            let dyns1 = spec_restitute(statics, dyns, all_contacts(statics, dyns));
            &&& dyns1.len() == 1
            &&& !strictly_overlapping(dyns1[0].rect, r2)
            &&& spec_restitute(statics, dyns1, all_contacts(statics, dyns1)) =~= dyns1
        }),
{
    let r2 = statics[0].rect->0;
    let s = dyns[0];
    let r1 = s.rect;
    lemma_single_pair_contacts(statics, dyns);
    lemma_displacement_bounded(r1, r2);
    if !overlapping(r1, r2) {
        let cs = all_contacts(statics, dyns);
        assert(cs =~= Seq::<Contact>::empty());
        assert(sort_desc(cs) =~= Seq::<Contact>::empty());
        let dyns1 = spec_restitute(statics, dyns, cs);
        assert(dyns1 =~= dyns);
        lemma_single_pair_contacts(statics, dyns1);
        assert(all_contacts(statics, dyns1) =~= Seq::<Contact>::empty());
        assert(spec_restitute(statics, dyns1, all_contacts(statics, dyns1)) =~= dyns1);
    } else {
        let c0 = ds_contact(dyns, statics, 0, 0)->0;
        let cs = all_contacts(statics, dyns);
        assert(cs =~= seq![c0]);
        assert(sort_desc(cs) =~= insert_desc(sort_desc(seq![c0].drop_last()), c0));
        assert(seq![c0].drop_last() =~= Seq::<Contact>::empty());
        assert(sort_desc(Seq::<Contact>::empty()) =~= Seq::<Contact>::empty());
        assert(insert_desc(Seq::<Contact>::empty(), c0) =~= seq![c0]);
        assert(sort_desc(cs) =~= seq![c0]);
        let upto0 = spec_restitute_upto(statics, dyns, sort_desc(cs), 0);
        assert(upto0.0 =~= dyns);
        assert(upto0.1 =~= Seq::new(1, |i: int| false));
        let s1 = spec_resolve_ds(s, c0.mtv, c0.side_a);
        let dyns1 = spec_restitute(statics, dyns, cs);
        assert(!upto0.1[0]);
        assert(dyns1 =~= dyns.update(0, s1));
        assert(dyns1[0] == s1);
        let r1n = s1.rect;
        let xo = x_overlap(r1, r2);
        let yo = y_overlap(r1, r2);
        assert(c0.mtv.0 == xo && c0.mtv.1 == yo);
        // After the one-sided displacement, the overlap on the chosen axis is
        // exactly zero, and the side comparison comes out the same way again.
        if xo < yo {
            if r1.x < r2.x {
                assert(c0.side_a == Side::Right);
                assert(r1n.x == r1.x - xo && r1n.y == r1.y && r1n.w == r1.w && r1n.h == r1.h);
                assert(x_overlap(r1n, r2) == 0);
                assert(y_overlap(r1n, r2) == yo);
            } else {
                assert(c0.side_a == Side::Left);
                assert(r1n.x == r1.x + xo && r1n.y == r1.y && r1n.w == r1.w && r1n.h == r1.h);
                assert(x_overlap(r1n, r2) == 0);
                assert(y_overlap(r1n, r2) == yo);
            }
        } else {
            if r1.y < r2.y {
                assert(c0.side_a == Side::Bottom);
                assert(r1n.y == r1.y - yo && r1n.x == r1.x && r1n.w == r1.w && r1n.h == r1.h);
                assert(y_overlap(r1n, r2) == 0);
                assert(x_overlap(r1n, r2) == xo);
            } else {
                assert(c0.side_a == Side::Top);
                assert(r1n.y == r1.y + yo && r1n.x == r1.x && r1n.w == r1.w && r1n.h == r1.h);
                assert(y_overlap(r1n, r2) == 0);
                assert(x_overlap(r1n, r2) == xo);
            }
        }
        assert(!strictly_overlapping(r1n, r2));
        // Second pass: the fresh contact has a zero displacement along the
        // same side, and the velocity component was already zeroed.
        lemma_single_pair_contacts(statics, dyns1);
        lemma_displacement_bounded(r1n, r2);
        assert(overlapping(r1n, r2));
        let c1 = ds_contact(dyns1, statics, 0, 0)->0;
        let cs2 = all_contacts(statics, dyns1);
        assert(cs2 =~= seq![c1]);
        assert(seq![c1].drop_last() =~= Seq::<Contact>::empty());
        assert(insert_desc(Seq::<Contact>::empty(), c1) =~= seq![c1]);
        assert(sort_desc(cs2) =~= seq![c1]);
        let upto0b = spec_restitute_upto(statics, dyns1, sort_desc(cs2), 0);
        assert(upto0b.0 =~= dyns1);
        assert(!upto0b.1[0]);
        let s2 = spec_resolve_ds(s1, c1.mtv, c1.side_a);
        let dyns2 = spec_restitute(statics, dyns1, cs2);
        assert(dyns2 =~= dyns1.update(0, s2));
        assert(s2 == s1);
        assert(dyns1.update(0, s1) =~= dyns1);
        assert(dyns2 =~= dyns1);
    }
}

} // verus!

