//! Per-tick gameplay rules over the grid primitives: probing the player's
//! rectangle against the tile world, pushing the player out of solid tiles,
//! digging and detonating tiles, and moving the camera.

use vstd::prelude::*;
use crate::scroll;
use crate::sprite::Sprite;
use crate::tiles::TileID;
use crate::tiles::Tilemap;
use crate::types::Rect;
use crate::types::Vec2i;

verus! {

/// The first index at or after `i` whose grid contains the point.
pub open spec fn first_map_containing(maps: Seq<Tilemap>, p: Vec2i, i: int) -> Option<int>
    decreases maps.len() - i,
{
    if i < 0 || i >= maps.len() {
        None
    } else if maps[i].contains_point(p) {
        Some(i)
    } else {
        first_map_containing(maps, p, i + 1)
    }
}

/// When `i` is the first grid containing `p`, the search from the start
/// finds exactly it.
pub proof fn lemma_first_map_from(maps: Seq<Tilemap>, p: Vec2i, i: int)
    requires
        0 <= i < maps.len(),
        maps[i].contains_point(p),
        forall|j: int| 0 <= j < i ==> !(#[trigger] maps[j]).contains_point(p),
    ensures
        first_map_containing(maps, p, 0) == Some(i),
{
    lemma_first_map_some_from(maps, p, i, 0);
}

/// When no grid contains `p`, the search finds none.
pub proof fn lemma_first_map_absent(maps: Seq<Tilemap>, p: Vec2i)
    requires
        forall|j: int| 0 <= j < maps.len() ==> !(#[trigger] maps[j]).contains_point(p),
    ensures
        first_map_containing(maps, p, 0) == Option::<int>::None,
{
    lemma_first_map_none(maps, p, 0);
}

proof fn lemma_first_map_some_from(maps: Seq<Tilemap>, p: Vec2i, i: int, k: int)
    requires
        0 <= k <= i < maps.len(),
        maps[i].contains_point(p),
        forall|j: int| 0 <= j < i ==> !(#[trigger] maps[j]).contains_point(p),
    ensures
        first_map_containing(maps, p, k) == Some(i),
    decreases i - k,
{
    if k < i {
        lemma_first_map_some_from(maps, p, i, k + 1);
    }
}

proof fn lemma_first_map_none(maps: Seq<Tilemap>, p: Vec2i, k: int)
    requires
        0 <= k,
        forall|j: int| 0 <= j < maps.len() ==> !(#[trigger] maps[j]).contains_point(p),
    ensures
        first_map_containing(maps, p, k) == Option::<int>::None,
    decreases maps.len() - k,
{
    if k < maps.len() {
        lemma_first_map_none(maps, p, k + 1);
    }
}

/// Every map keeps its place, shape and catalog; a cell changes only to
/// `new_id`, and only if it was destructible, passable, or explosive.
pub open spec fn maps_dig_frame(o: Seq<Tilemap>, s: Seq<Tilemap>, new_id: TileID) -> bool {
    &&& s.len() == o.len()
    &&& forall|i: int| 0 <= i < s.len() ==> {
        &&& (#[trigger] s[i]).position == o[i].position
        &&& s[i].dims == o[i].dims
        &&& s[i].tileset == o[i].tileset
        &&& s[i].map.len() == o[i].map.len()
        &&& forall|k: int|
            0 <= k < s[i].map.len() && (#[trigger] s[i].map[k]) != o[i].map[k] ==> s[i].map[k]
                == new_id && {
                let t = o[i].tileset.tiles[o[i].map[k].0 as int];
                t.destructible || !t.solid || t.explode
            }
    }
}

/// The cell arrays of a row of grids, geometry left aside.
pub open spec fn cells_of(maps: Seq<Tilemap>) -> Seq<Seq<TileID>> {
    Seq::new(maps.len(), |i: int| maps[i].map@)
}

/// The exact effect of one probe on the player and the grids' cell arrays,
/// with the grids' geometry drawn from `maps` and their contents from
/// `cells`: a solid tile pushes the player by `push`; an explosive tile
/// detonates a cascade at its cell; a passable tile is dug out when `dig`
/// is set. The third component reports whether the probed tile was solid.
pub open spec fn spec_probe(
    maps: Seq<Tilemap>,
    cells: Seq<Seq<TileID>>,
    player: Sprite,
    posn: Vec2i,
    push: Vec2i,
    dig: bool,
    replace_id: TileID,
) -> (Sprite, Seq<Seq<TileID>>, bool) {
    match first_map_containing(maps, posn, 0) {
        None => (player, cells, false),
        Some(i) => {
            let g = maps[i];
            if !g.lookup_ok(posn) {
                (player, cells, false)
            } else {
                let idx = g.flat_index_of(posn);
                let t = g.tileset.tiles[cells[i][idx].0 as int];
                let moved = if t.solid {
                    Sprite {
                        rect: Rect {
                            x: (player.rect.x + push.0) as i32,
                            y: (player.rect.y + push.1) as i32,
                            ..player.rect
                        },
                        ..player
                    }
                } else {
                    player
                };
                let dug = if t.explode {
                    cells.update(
                        i,
                        crate::tiles::spec_cascade(
                            g.tileset,
                            g.position,
                            g.dims,
                            replace_id,
                            cells[i].update(idx, replace_id),
                            Seq::new(cells[i].len(), |k: int| false).update(idx, true),
                            seq![posn],
                        ),
                    )
                } else if dig && !t.solid {
                    cells.update(i, cells[i].update(idx, replace_id))
                } else {
                    cells
                };
                (moved, dug, t.solid)
            }
        },
    }
}

/// `spec_probe` reads only the grids' geometry from `maps`, so two rows of
/// grids agreeing on position, size and catalog probe alike.
proof fn lemma_spec_probe_congruent(
    a: Seq<Tilemap>,
    b: Seq<Tilemap>,
    cells: Seq<Seq<TileID>>,
    player: Sprite,
    posn: Vec2i,
    push: Vec2i,
    dig: bool,
    replace_id: TileID,
)
    requires
        a.len() == b.len(),
        forall|i: int| 0 <= i < a.len() ==> (#[trigger] a[i]).position == b[i].position && a[i].dims
            == b[i].dims && a[i].tileset == b[i].tileset,
    ensures
        spec_probe(a, cells, player, posn, push, dig, replace_id) == spec_probe(
            b,
            cells,
            player,
            posn,
            push,
            dig,
            replace_id,
        ),
{
    lemma_first_map_congruent(a, b, posn, 0);
    lemma_first_map_bounds(a, posn, 0);
    match first_map_containing(a, posn, 0) {
        None => {},
        Some(i) => {
            assert(a[i].position == b[i].position && a[i].dims == b[i].dims && a[i].tileset
                == b[i].tileset);
        },
    }
}

/// A found index lies in range and its grid contains the point.
proof fn lemma_first_map_bounds(maps: Seq<Tilemap>, p: Vec2i, k: int)
    requires
        0 <= k,
    ensures
        first_map_containing(maps, p, k) matches Some(i) ==> k <= i < maps.len()
            && maps[i].contains_point(p),
    decreases maps.len() - k,
{
    if 0 <= k < maps.len() && !maps[k].contains_point(p) {
        lemma_first_map_bounds(maps, p, k + 1);
    }
}

/// Point containment reads only position and size.
proof fn lemma_first_map_congruent(a: Seq<Tilemap>, b: Seq<Tilemap>, p: Vec2i, k: int)
    requires
        a.len() == b.len(),
        forall|i: int| 0 <= i < a.len() ==> (#[trigger] a[i]).position == b[i].position && a[i].dims
            == b[i].dims && a[i].tileset == b[i].tileset,
    ensures
        first_map_containing(a, p, k) == first_map_containing(b, p, k),
    decreases a.len() - k,
{
    if 0 <= k < a.len() {
        lemma_first_map_congruent(a, b, p, k + 1);
    }
}

/// Probe one point of the player's rectangle against the tile world.
///
/// If the point falls in no grid, or outside every grid's cells, nothing
/// happens. Otherwise the tile under the point decides: a solid tile pushes
/// the player by `push`; an explosive tile detonates a cascade at its cell; a
/// passable tile is dug out (overwritten with `replace_id`) when `dig` is
/// set. Returns whether the probed tile was solid. The whole effect is
/// pinned: it is one `spec_probe` step.
pub fn probe_collide(
    player: &mut Sprite,
    tilemaps: &mut Vec<Tilemap>,
    posn: Vec2i,
    push: Vec2i,
    dig: bool,
    replace_id: TileID,
) -> (hit_solid: bool)
    requires
        forall|i: int| 0 <= i < old(tilemaps)@.len() ==> (#[trigger] old(tilemaps)@[i]).grid_wf(),
        forall|i: int| 0 <= i < old(tilemaps)@.len()
            ==> replace_id.0 < (#[trigger] old(tilemaps)@[i]).tileset.tiles.len(),
        -2 <= push.0 <= 2,
        -2 <= push.1 <= 2,
        -0x4000_0000 <= old(player).rect.x <= 0x4000_0000,
        -0x4000_0000 <= old(player).rect.y <= 0x4000_0000,
    ensures
        forall|i: int| 0 <= i < final(tilemaps)@.len()
            ==> (#[trigger] final(tilemaps)@[i]).grid_wf(),
        maps_dig_frame(old(tilemaps)@, final(tilemaps)@, replace_id),
        final(player).rect.w == old(player).rect.w,
        final(player).rect.h == old(player).rect.h,
        final(player).vx == old(player).vx,
        final(player).vy == old(player).vy,
        final(player).animation == old(player).animation,
        final(player).animation_state == old(player).animation_state,
        ({
            let m = first_map_containing(old(tilemaps)@, posn, 0);
            match m {
                None => *final(player) == *old(player) && final(tilemaps)@ == old(tilemaps)@
                    && !hit_solid,
                Some(i) => {
                    if old(tilemaps)@[i].lookup_ok(posn) {
                        let g = old(tilemaps)@[i];
                        let idx = g.flat_index_of(posn);
                        let t = g.tileset.tiles[g.map[idx].0 as int];
                        &&& hit_solid == t.solid
                        &&& final(player).rect.x == old(player).rect.x + (if t.solid {
                            push.0 as int
                        } else {
                            0
                        })
                        &&& final(player).rect.y == old(player).rect.y + (if t.solid {
                            push.1 as int
                        } else {
                            0
                        })
                        &&& forall|j: int| 0 <= j < final(tilemaps)@.len() && j != i
                            ==> final(tilemaps)@[j] == old(tilemaps)@[j]
                        &&& (t.explode ==> Tilemap::explosion_frame(
                            g,
                            final(tilemaps)@[i],
                            idx,
                            replace_id,
                        ) && final(tilemaps)@[i].map[idx] == replace_id)
                        &&& (!t.explode && dig && !t.solid ==> final(tilemaps)@[i].map@
                            == g.map@.update(idx, replace_id))
                        &&& (!t.explode && !(dig && !t.solid) ==> final(tilemaps)@[i] == g)
                    } else {
                        *final(player) == *old(player) && final(tilemaps)@ == old(tilemaps)@
                            && !hit_solid
                    }
                },
            }
        }),
        ({
            let r = spec_probe(
                old(tilemaps)@,
                cells_of(old(tilemaps)@),
                *old(player),
                posn,
                push,
                dig,
                replace_id,
            );
            &&& *final(player) == r.0
            &&& forall|i: int| 0 <= i < final(tilemaps)@.len()
                ==> (#[trigger] final(tilemaps)@[i]).map@ == r.1[i]
            &&& hit_solid == r.2
        }),
{
    let m = scroll::tile_map_at(posn, tilemaps);
    match m {
        None => {
            proof {
                lemma_first_map_none(old(tilemaps)@, posn, 0);
            }
            false
        },
        Some(i) => {
            proof {
                lemma_first_map_from(old(tilemaps)@, posn, i as int);
            }
            let t_opt = tilemaps[i].tile_at(posn);
            match t_opt {
                None => false,
                Some(t) => {
                    if t.solid {
                        player.rect.x = player.rect.x + push.0;
                        player.rect.y = player.rect.y + push.1;
                    }
                    if t.explode {
                        let tindex = tilemaps[i].tile_index_at(posn);
                        let mut g = tilemaps.remove(i);
                        g.explode_tiles(tindex, replace_id, posn);
                        tilemaps.insert(i, g);
                        proof {
                            assert(tilemaps@ =~= old(tilemaps)@.update(i as int, tilemaps@[i as int]));
                        }
                    } else if dig && !t.solid {
                        let tindex = tilemaps[i].tile_index_at(posn);
                        let mut g = tilemaps.remove(i);
                        g.replace_tile(tindex, replace_id);
                        tilemaps.insert(i, g);
                        proof {
                            assert(tilemaps@ =~= old(tilemaps)@.update(i as int, tilemaps@[i as int]));
                        }
                    }
                    t.solid
                },
            }
        },
    }
}

/// The dig frame composes across successive passes.
proof fn lemma_dig_frame_trans(o: Seq<Tilemap>, s1: Seq<Tilemap>, s2: Seq<Tilemap>, new_id: TileID)
    requires
        maps_dig_frame(o, s1, new_id),
        maps_dig_frame(s1, s2, new_id),
    ensures
        maps_dig_frame(o, s2, new_id),
{
    assert forall|i: int, k: int|
        0 <= i < s2.len() && 0 <= k < s2[i].map.len() && s2[i].map[k] != o[i].map[k] implies
        s2[i].map[k] == new_id && {
            let t = o[i].tileset.tiles[o[i].map[k].0 as int];
            t.destructible || !t.solid || t.explode
        } by {
        assert(s1[i].map.len() == o[i].map.len());
        if s2[i].map[k] != s1[i].map[k] {
            assert(s1[i].tileset == o[i].tileset);
            if s1[i].map[k] != o[i].map[k] {
            } else {
            }
        }
    }
}

/// The exact effect of one probe pass: the seven probe points taken from
/// the player's rectangle on entry — top corners inset by 18, bottom edge at
/// left/middle/right, and the two mid-height sides — each probed in order
/// with its push direction, the three bottom probes digging. The result is
/// the final player, the grids' final cell arrays, and whether any probe
/// saw a solid tile.
pub open spec fn spec_tile_collision(maps: Seq<Tilemap>, player: Sprite, replace_id: TileID) -> (
    Sprite,
    Seq<Seq<TileID>>,
    bool,
) {
    let x = player.rect.x as int;
    let y = player.rect.y as int;
    let w = player.rect.w as int;
    let h = player.rect.h as int;
    let halfw = w / 2;
    let halfh = h / 2;
    let tl = Vec2i((x + 18) as i32, y as i32);
    let tr = Vec2i((x + w - 18) as i32, y as i32);
    let bl = Vec2i((x + 18) as i32, (y + h) as i32);
    let bm = Vec2i((x + halfw) as i32, (y + h) as i32);
    let br = Vec2i((x + w - 10) as i32, (y + h) as i32);
    let ml = Vec2i((x + w + 18) as i32, (y + halfh) as i32);
    let mr = Vec2i((x + halfw - 18) as i32, (y + halfh) as i32);
    let s1 = spec_probe(maps, cells_of(maps), player, tl, Vec2i(2i32, 0i32), false, replace_id);
    let s2 = spec_probe(maps, s1.1, s1.0, tr, Vec2i(-2i32, 0i32), false, replace_id);
    let s3 = spec_probe(maps, s2.1, s2.0, bl, Vec2i(0i32, -2i32), true, replace_id);
    let s4 = spec_probe(maps, s3.1, s3.0, bm, Vec2i(0i32, -2i32), true, replace_id);
    let s5 = spec_probe(maps, s4.1, s4.0, br, Vec2i(0i32, -2i32), true, replace_id);
    let s6 = spec_probe(maps, s5.1, s5.0, ml, Vec2i(2i32, 0i32), false, replace_id);
    let s7 = spec_probe(maps, s6.1, s6.0, mr, Vec2i(-2i32, 0i32), false, replace_id);
    (s7.0, s7.1, s1.2 || s2.2 || s3.2 || s4.2 || s5.2 || s6.2 || s7.2)
}

/// A probe pass never changes how many grids there are.
proof fn lemma_spec_probe_shape(
    maps: Seq<Tilemap>,
    cells: Seq<Seq<TileID>>,
    player: Sprite,
    posn: Vec2i,
    push: Vec2i,
    dig: bool,
    replace_id: TileID,
)
    requires
        cells.len() == maps.len(),
    ensures
        spec_probe(maps, cells, player, posn, push, dig, replace_id).1.len() == cells.len(),
{
    lemma_first_map_bounds(maps, posn, 0);
}

/// Probe the player's rectangle against the tile world at seven points —
/// the top corners inset, the bottom edge at three points, and the two
/// mid-height sides — pushing the player out of solid tiles, detonating
/// explosive tiles, and digging out passable tiles under the bottom probes.
/// Returns whether any probe hit a solid tile.
#[verifier::rlimit(100)]
pub fn tile_collision(player: &mut Sprite, tilemaps: &mut Vec<Tilemap>, replace_id: TileID) -> (hit_solid: bool)
    requires
        forall|i: int| 0 <= i < old(tilemaps)@.len() ==> (#[trigger] old(tilemaps)@[i]).grid_wf(),
        forall|i: int| 0 <= i < old(tilemaps)@.len()
            ==> replace_id.0 < (#[trigger] old(tilemaps)@[i]).tileset.tiles.len(),
        -0x3FFF_0000 <= old(player).rect.x <= 0x3FFF_0000,
        -0x3FFF_0000 <= old(player).rect.y <= 0x3FFF_0000,
    ensures
        forall|i: int| 0 <= i < final(tilemaps)@.len()
            ==> (#[trigger] final(tilemaps)@[i]).grid_wf(),
        maps_dig_frame(old(tilemaps)@, final(tilemaps)@, replace_id),
        final(player).rect.w == old(player).rect.w,
        final(player).rect.h == old(player).rect.h,
        final(player).vx == old(player).vx,
        final(player).vy == old(player).vy,
        final(player).animation == old(player).animation,
        final(player).animation_state == old(player).animation_state,
        old(player).rect.x - 14 <= final(player).rect.x <= old(player).rect.x + 14,
        old(player).rect.y - 14 <= final(player).rect.y <= old(player).rect.y + 14,
        !hit_solid ==> final(player).rect == old(player).rect,
        ({
            // the first probe runs against the untouched world, so its verdict
            // is pinned: a solid tile under the inset top-left point is a hit
            let tl = Vec2i((old(player).rect.x + 18) as i32, old(player).rect.y);
            match first_map_containing(old(tilemaps)@, tl, 0) {
                Some(i) => old(tilemaps)@[i].lookup_ok(tl) ==> {
                    let g = old(tilemaps)@[i];
                    let t = g.tileset.tiles[g.map[g.flat_index_of(tl)].0 as int];
                    t.solid ==> hit_solid
                },
                None => true,
            }
        }),
        ({
            let r = spec_tile_collision(old(tilemaps)@, *old(player), replace_id);
            &&& *final(player) == r.0
            &&& forall|i: int| 0 <= i < final(tilemaps)@.len()
                ==> (#[trigger] final(tilemaps)@[i]).map@ == r.1[i]
            &&& hit_solid == r.2
        }),
{
    let x = player.rect.x;
    let y = player.rect.y;
    let w = player.rect.w as i32;
    let h = player.rect.h as i32;
    let halfw = (player.rect.w / 2) as i32;
    let halfh = (player.rect.h / 2) as i32;
    let tl = Vec2i(x + 18, y);
    let tr = Vec2i(x + w - 18, y);
    let bl = Vec2i(x + 18, y + h);
    let bm = Vec2i(x + halfw, y + h);
    let br = Vec2i(x + w - 10, y + h);
    let ml = Vec2i(x + w + 18, y + halfh);
    let mr = Vec2i(x + halfw - 18, y + halfh);
    let mut hit = false;
    let ghost m0 = tilemaps@;
    let ghost pl0 = *player;
    let h1 = probe_collide(player, tilemaps, tl, Vec2i(2, 0), false, replace_id);
    hit = hit || h1;
    let ghost m1 = tilemaps@;
    let ghost s1 = spec_probe(m0, cells_of(m0), pl0, tl, Vec2i(2i32, 0i32), false, replace_id);
    proof {
        lemma_dig_frame_keeps_catalog(m0, m1, replace_id);
        lemma_spec_probe_shape(m0, cells_of(m0), pl0, tl, Vec2i(2i32, 0i32), false, replace_id);
        assert(*player == s1.0 && h1 == s1.2);
        assert(forall|i: int| 0 <= i < m1.len() ==> (#[trigger] m1[i]).map@ == s1.1[i]);
    }
    let h2 = probe_collide(player, tilemaps, tr, Vec2i(-2, 0), false, replace_id);
    hit = hit || h2;
    let ghost m2 = tilemaps@;
    let ghost s2 = spec_probe(m0, s1.1, s1.0, tr, Vec2i(-2i32, 0i32), false, replace_id);
    proof {
        lemma_dig_frame_trans(m0, m1, m2, replace_id);
        lemma_dig_frame_keeps_catalog(m0, m2, replace_id);
        assert(cells_of(m1) =~= s1.1);
        lemma_spec_probe_congruent(m1, m0, s1.1, s1.0, tr, Vec2i(-2i32, 0i32), false, replace_id);
        lemma_spec_probe_shape(m0, s1.1, s1.0, tr, Vec2i(-2i32, 0i32), false, replace_id);
        assert(*player == s2.0 && h2 == s2.2);
        assert(forall|i: int| 0 <= i < m2.len() ==> (#[trigger] m2[i]).map@ == s2.1[i]);
    }
    let h3 = probe_collide(player, tilemaps, bl, Vec2i(0, -2), true, replace_id);
    hit = hit || h3;
    let ghost m3 = tilemaps@;
    let ghost s3 = spec_probe(m0, s2.1, s2.0, bl, Vec2i(0i32, -2i32), true, replace_id);
    proof {
        lemma_dig_frame_trans(m0, m2, m3, replace_id);
        lemma_dig_frame_keeps_catalog(m0, m3, replace_id);
        assert(cells_of(m2) =~= s2.1);
        lemma_spec_probe_congruent(m2, m0, s2.1, s2.0, bl, Vec2i(0i32, -2i32), true, replace_id);
        lemma_spec_probe_shape(m0, s2.1, s2.0, bl, Vec2i(0i32, -2i32), true, replace_id);
        assert(*player == s3.0 && h3 == s3.2);
        assert(forall|i: int| 0 <= i < m3.len() ==> (#[trigger] m3[i]).map@ == s3.1[i]);
    }
    let h4 = probe_collide(player, tilemaps, bm, Vec2i(0, -2), true, replace_id);
    hit = hit || h4;
    let ghost m4 = tilemaps@;
    let ghost s4 = spec_probe(m0, s3.1, s3.0, bm, Vec2i(0i32, -2i32), true, replace_id);
    proof {
        lemma_dig_frame_trans(m0, m3, m4, replace_id);
        lemma_dig_frame_keeps_catalog(m0, m4, replace_id);
        assert(cells_of(m3) =~= s3.1);
        lemma_spec_probe_congruent(m3, m0, s3.1, s3.0, bm, Vec2i(0i32, -2i32), true, replace_id);
        lemma_spec_probe_shape(m0, s3.1, s3.0, bm, Vec2i(0i32, -2i32), true, replace_id);
        assert(*player == s4.0 && h4 == s4.2);
        assert(forall|i: int| 0 <= i < m4.len() ==> (#[trigger] m4[i]).map@ == s4.1[i]);
    }
    let h5 = probe_collide(player, tilemaps, br, Vec2i(0, -2), true, replace_id);
    hit = hit || h5;
    let ghost m5 = tilemaps@;
    let ghost s5 = spec_probe(m0, s4.1, s4.0, br, Vec2i(0i32, -2i32), true, replace_id);
    proof {
        lemma_dig_frame_trans(m0, m4, m5, replace_id);
        lemma_dig_frame_keeps_catalog(m0, m5, replace_id);
        assert(cells_of(m4) =~= s4.1);
        lemma_spec_probe_congruent(m4, m0, s4.1, s4.0, br, Vec2i(0i32, -2i32), true, replace_id);
        lemma_spec_probe_shape(m0, s4.1, s4.0, br, Vec2i(0i32, -2i32), true, replace_id);
        assert(*player == s5.0 && h5 == s5.2);
        assert(forall|i: int| 0 <= i < m5.len() ==> (#[trigger] m5[i]).map@ == s5.1[i]);
    }
    let h6 = probe_collide(player, tilemaps, ml, Vec2i(2, 0), false, replace_id);
    hit = hit || h6;
    let ghost m6 = tilemaps@;
    let ghost s6 = spec_probe(m0, s5.1, s5.0, ml, Vec2i(2i32, 0i32), false, replace_id);
    proof {
        lemma_dig_frame_trans(m0, m5, m6, replace_id);
        lemma_dig_frame_keeps_catalog(m0, m6, replace_id);
        assert(cells_of(m5) =~= s5.1);
        lemma_spec_probe_congruent(m5, m0, s5.1, s5.0, ml, Vec2i(2i32, 0i32), false, replace_id);
        lemma_spec_probe_shape(m0, s5.1, s5.0, ml, Vec2i(2i32, 0i32), false, replace_id);
        assert(*player == s6.0 && h6 == s6.2);
        assert(forall|i: int| 0 <= i < m6.len() ==> (#[trigger] m6[i]).map@ == s6.1[i]);
    }
    let h7 = probe_collide(player, tilemaps, mr, Vec2i(-2, 0), false, replace_id);
    hit = hit || h7;
    let ghost s7 = spec_probe(m0, s6.1, s6.0, mr, Vec2i(-2i32, 0i32), false, replace_id);
    proof {
        lemma_dig_frame_trans(m0, m6, tilemaps@, replace_id);
        assert(cells_of(m6) =~= s6.1);
        lemma_spec_probe_congruent(m6, m0, s6.1, s6.0, mr, Vec2i(-2i32, 0i32), false, replace_id);
        lemma_spec_probe_shape(m0, s6.1, s6.0, mr, Vec2i(-2i32, 0i32), false, replace_id);
        assert(*player == s7.0 && h7 == s7.2);
        assert(forall|i: int| 0 <= i < tilemaps@.len() ==> (#[trigger] tilemaps@[i]).map@ == s7.1[i]);
    }
    proof {
        assert(spec_tile_collision(m0, pl0, replace_id) == (
            s7.0,
            s7.1,
            s1.2 || s2.2 || s3.2 || s4.2 || s5.2 || s6.2 || s7.2,
        ));
    }
    hit
}

/// A dig frame leaves every catalog in place, so a tile reference that was
/// valid stays valid.
proof fn lemma_dig_frame_keeps_catalog(o: Seq<Tilemap>, s: Seq<Tilemap>, new_id: TileID)
    requires
        maps_dig_frame(o, s, new_id),
        forall|i: int| 0 <= i < o.len() ==> new_id.0 < (#[trigger] o[i]).tileset.tiles.len(),
    ensures
        forall|i: int| 0 <= i < s.len() ==> new_id.0 < (#[trigger] s[i]).tileset.tiles.len(),
{
}

/// Slide the camera along the scroll axis by its speed.
pub fn scroll_camera(camera_position: &mut Vec2i, camera_speed: i32)
    requires
        -0x4000_0000 <= old(camera_position).0 <= 0x4000_0000,
        -0x10000 <= camera_speed <= 0x10000,
    ensures
        final(camera_position).0 == old(camera_position).0 + camera_speed,
        final(camera_position).1 == old(camera_position).1,
{
    camera_position.0 = camera_position.0 + camera_speed;
}

/// Where the camera stands after following the player: each screen edge the
/// player presses against (within a five-pixel margin) drags the camera its
/// speed in that direction, horizontal checks first, then vertical.
pub open spec fn spec_update_camera(player: Rect, cam: Vec2i, speed: int, width: int, height: int) -> Vec2i {
    let cx0 = cam.0 as int;
    let cx1 = if player.right() >= cx0 + width - 5 {
        cx0 + speed
    } else {
        cx0
    };
    let cx2 = if player.left() <= cx1 + 5 {
        cx1 - speed
    } else {
        cx1
    };
    let cy0 = cam.1 as int;
    let cy1 = if player.top() <= cy0 + 5 {
        cy0 - speed
    } else {
        cy0
    };
    let cy2 = if player.bottom() >= cy1 + height - 5 {
        cy1 + speed
    } else {
        cy1
    };
    Vec2i(cx2 as i32, cy2 as i32)
}

/// Keep the player on screen by dragging the camera toward any edge the
/// player is within five pixels of.
pub fn update_camera(
    player: Rect,
    camera_position: &mut Vec2i,
    camera_speed: i32,
    width: usize,
    height: usize,
)
    requires
        -0x4000_0000 <= old(camera_position).0 <= 0x4000_0000,
        -0x4000_0000 <= old(camera_position).1 <= 0x4000_0000,
        0 <= camera_speed <= 0x10000,
        width <= 0x1000_0000,
        height <= 0x1000_0000,
    ensures
        *final(camera_position) == spec_update_camera(
            player,
            *old(camera_position),
            camera_speed as int,
            width as int,
            height as int,
        ),
{
    // right side
    if player.x as i64 + player.w as i64 >= camera_position.0 as i64 + width as i64 - 5 {
        camera_position.0 = camera_position.0 + camera_speed;
    }
    // left side
    if (player.x as i64) <= camera_position.0 as i64 + 5 {
        camera_position.0 = camera_position.0 - camera_speed;
    }
    // top
    if (player.y as i64) <= camera_position.1 as i64 + 5 {
        camera_position.1 = camera_position.1 - camera_speed;
    }
    // bottom
    if player.y as i64 + player.h as i64 >= camera_position.1 as i64 + height as i64 - 5 {
        camera_position.1 = camera_position.1 + camera_speed;
    }
}

/// Enter the next level: the level counter steps up and the camera and the
/// player both speed up by `speed_step`.
pub fn new_level(level: &mut usize, camera_speed: &mut i32, player: &mut Sprite, speed_step: i32)
    requires
        *old(level) < usize::MAX,
        -0x4000_0000 <= *old(camera_speed) <= 0x4000_0000,
        -0x4000_0000 <= old(player).vx <= 0x4000_0000,
        -0x10000 <= speed_step <= 0x10000,
    ensures
        *final(level) == *old(level) + 1,
        *final(camera_speed) == *old(camera_speed) + speed_step,
        final(player).vx == old(player).vx + speed_step,
        final(player).vy == old(player).vy,
        final(player).rect == old(player).rect,
        final(player).animation == old(player).animation,
        final(player).animation_state == old(player).animation_state,
{
    *level = *level + 1;
    *camera_speed = *camera_speed + speed_step;
    player.vx = player.vx + speed_step;
}

} // verus!
