//! The scrolling window: an ordered row of abutting tilemaps recycled as the
//! camera advances, simulating an unbounded world from finite chunks.

use vstd::prelude::*;
use crate::game::first_map_containing;
use crate::tiles::TileID;
use crate::tiles::Tilemap;
use crate::tiles::TILE_SZ;
use crate::types::Vec2i;

verus! {

/// The grids sit side by side along the scroll axis, in ascending order,
/// with no gap and no overlap.
pub open spec fn abutting(maps: Seq<Tilemap>) -> bool {
    forall|j: int|
        0 <= j < maps.len() - 1 ==> (#[trigger] maps[j]).position.0 + maps[j].cols() * TILE_SZ
            == maps[j + 1].position.0
}

/// The index of the first tilemap whose world rectangle contains the point.
pub fn tile_map_at(posn: Vec2i, tilemaps: &Vec<Tilemap>) -> (r: Option<usize>)
    requires
        forall|i: int| 0 <= i < tilemaps@.len() ==> (#[trigger] tilemaps@[i]).grid_wf(),
    ensures
        match r {
            Some(i) => i < tilemaps@.len() && tilemaps@[i as int].contains_point(posn) && forall|
                j: int,
            | 0 <= j < i ==> !(#[trigger] tilemaps@[j]).contains_point(posn),
            None => forall|j: int| 0 <= j < tilemaps@.len() ==> !(
            #[trigger] tilemaps@[j]).contains_point(posn),
        },
{
    let mut i: usize = 0;
    while i < tilemaps.len()
        invariant
            i <= tilemaps@.len(),
            forall|k: int| 0 <= k < tilemaps@.len() ==> (#[trigger] tilemaps@[k]).grid_wf(),
            forall|j: int| 0 <= j < i ==> !(#[trigger] tilemaps@[j]).contains_point(posn),
        decreases tilemaps@.len() - i,
    {
        let map = &tilemaps[i];
        let right = map.position.0 + (map.dims.0 * TILE_SZ) as i32;
        let bottom = map.position.1 + (map.dims.1 * TILE_SZ) as i32;
        let is_on_x = posn.0 >= map.position.0 && posn.0 <= right;
        let is_on_y = posn.1 >= map.position.1 && posn.1 <= bottom;
        if is_on_x && is_on_y {
            return Some(i);
        }
        i = i + 1;
    }
    None
}

/// Has the trailing grid's far edge fallen behind the camera?
pub open spec fn trailing_passed(first: Tilemap, camera: Vec2i) -> bool {
    first.position.0 + first.cols() * TILE_SZ < camera.0
}

/// The Bernoulli numerator, in hundredths, handed to the generator when an
/// obstacle window refills at `level`: 97 at the start, falling three
/// points per level, reaching its floor of 1 at level 32 and beyond.
pub open spec fn spec_refill_numerator(level: int) -> int {
    97 - 3 * (if level > 32 {
        32
    } else {
        level
    })
}

/// The obstacle-density schedule: the refill success ratio out of 100.
pub fn refill_numerator(level: usize) -> (n: u32)
    ensures
        n == spec_refill_numerator(level as int),
        1 <= n <= 97,
{
    let clamped: u32 = if level > 32 {
        32
    } else {
        level as u32
    };
    97 - 3 * clamped
}

/// Advance the window: once the trailing grid has been fully passed, move it
/// to the leading edge, exactly abutting the last grid's far edge. A
/// decorative window keeps the recycled grid's content verbatim; an obstacle
/// window refills it with fresh Bernoulli-generated content, the success
/// ratio being `refill_numerator(level)` out of 100.
pub fn update_tilemaps(
    camera_position: Vec2i,
    tilemaps: &mut Vec<Tilemap>,
    is_obstacle: bool,
    level: usize,
    solid_id: TileID,
    empty_id: TileID,
)
    requires
        old(tilemaps)@.len() >= 1,
        forall|i: int| 0 <= i < old(tilemaps)@.len() ==> (#[trigger] old(tilemaps)@[i]).grid_wf(),
        ({
            let l = old(tilemaps)@.len() - 1;
            old(tilemaps)@[l].position.0 + old(tilemaps)@[l].cols() * TILE_SZ
                + old(tilemaps)@[0].cols() * TILE_SZ <= i32::MAX
        }),
        solid_id.0 < old(tilemaps)@[0].tileset.tiles.len(),
        empty_id.0 < old(tilemaps)@[0].tileset.tiles.len(),
    ensures
        final(tilemaps)@.len() == old(tilemaps)@.len(),
        forall|i: int| 0 <= i < final(tilemaps)@.len()
            ==> (#[trigger] final(tilemaps)@[i]).grid_wf(),
        !trailing_passed(old(tilemaps)@[0], camera_position) ==> final(tilemaps)@
            == old(tilemaps)@,
        trailing_passed(old(tilemaps)@[0], camera_position) ==> {
            let n = old(tilemaps)@.len();
            let first = old(tilemaps)@[0];
            let last = old(tilemaps)@[n - 1];
            let moved = final(tilemaps)@[n - 1];
            &&& forall|j: int| 0 <= j < n - 1 ==> final(tilemaps)@[j] == old(tilemaps)@[j + 1]
            &&& moved.position.0 == last.position.0 + last.cols() * TILE_SZ
            &&& moved.position.1 == first.position.1
            &&& moved.dims == first.dims
            &&& moved.tileset == first.tileset
            &&& (!is_obstacle ==> moved.map == first.map)
            &&& (is_obstacle ==> moved.map.len() == first.map.len() && forall|k: int|
                0 <= k < moved.map.len() ==> (#[trigger] moved.map[k]) == solid_id || moved.map[k]
                    == empty_id)
        },
        abutting(old(tilemaps)@) ==> abutting(final(tilemaps)@),
{
    let first_edge = tilemaps[0].position.0 + (tilemaps[0].dims.0 * TILE_SZ) as i32;
    if first_edge < camera_position.0 {
        let last_idx = tilemaps.len() - 1;
        let new_x = tilemaps[last_idx].position.0 + (tilemaps[last_idx].dims.0 * TILE_SZ) as i32;
        let mut first = tilemaps.remove(0);
        first.position = Vec2i(new_x, first.position.1);
        if is_obstacle {
            let numerator = refill_numerator(level);
            let fresh = Tilemap::generate_rand_map_2(
                numerator,
                100,
                first.dims,
                solid_id,
                empty_id,
            );
            let mut ids: Vec<TileID> = Vec::new();
            let mut k: usize = 0;
            while k < fresh.len()
                invariant
                    k <= fresh@.len(),
                    ids@.len() == k,
                    forall|j: int| 0 <= j < fresh@.len() ==> (#[trigger] fresh@[j]) == solid_id.0
                        || fresh@[j] == empty_id.0,
                    forall|j: int| 0 <= j < k ==> (#[trigger] ids@[j]) == solid_id
                        || ids@[j] == empty_id,
                decreases fresh@.len() - k,
            {
                ids.push(TileID(fresh[k]));
                k = k + 1;
            }
            first.map = ids;
        }
        tilemaps.push(first);
        proof {
            if abutting(old(tilemaps)@) {
                assert forall|j: int| 0 <= j < tilemaps@.len() - 1 implies (
                #[trigger] tilemaps@[j]).position.0 + tilemaps@[j].cols() * TILE_SZ == tilemaps@[j
                    + 1].position.0 by {
                    if j < tilemaps@.len() - 2 {
                        assert(tilemaps@[j] == old(tilemaps)@[j + 1]);
                        assert(tilemaps@[j + 1] == old(tilemaps)@[j + 2]);
                    }
                }
            }
        }
    }
}

/// The four corners of the screen in world space.
pub open spec fn screen_corners(camera: Vec2i, width: int, height: int) -> Seq<Vec2i> {
    seq![
        camera,
        Vec2i((camera.0 + width) as i32, camera.1),
        Vec2i(camera.0, (camera.1 + height) as i32),
        Vec2i((camera.0 + width) as i32, (camera.1 + height) as i32),
    ]
}

/// Append an index unless it is absent or already listed.
pub open spec fn add_unique(s: Seq<usize>, o: Option<int>) -> Seq<usize> {
    match o {
        None => s,
        Some(i) => if s.contains(i as usize) {
            s
        } else {
            s.push(i as usize)
        },
    }
}

/// The grids the first `n` corners land in, each listed once, in the order
/// first found.
pub open spec fn draw_list(maps: Seq<Tilemap>, corners: Seq<Vec2i>, n: int) -> Seq<usize>
    decreases n,
{
    if n <= 0 {
        Seq::empty()
    } else {
        add_unique(draw_list(maps, corners, n - 1), first_map_containing(maps, corners[n - 1], 0))
    }
}

/// Is `x` among the listed indices?
fn contains_index(v: &Vec<usize>, x: usize) -> (b: bool)
    ensures
        b == v@.contains(x),
{
    let mut i: usize = 0;
    while i < v.len()
        invariant
            i <= v@.len(),
            forall|j: int| 0 <= j < i ==> v@[j] != x,
        decreases v@.len() - i,
    {
        if v[i] == x {
            return true;
        }
        i = i + 1;
    }
    false
}

/// Which grids must be drawn this frame: those containing a corner of the
/// screen, each once, in the order first found.
pub fn maps_to_draw(camera: Vec2i, width: usize, height: usize, tilemaps: &Vec<Tilemap>) -> (r: Vec<
    usize,
>)
    requires
        forall|i: int| 0 <= i < tilemaps@.len() ==> (#[trigger] tilemaps@[i]).grid_wf(),
        width <= i32::MAX,
        height <= i32::MAX,
        camera.0 + width <= i32::MAX,
        camera.1 + height <= i32::MAX,
    ensures
        r@ == draw_list(tilemaps@, screen_corners(camera, width as int, height as int), 4),
{
    let ghost corners = screen_corners(camera, width as int, height as int);
    let cx = camera.0 + width as i32;
    let cy = camera.1 + height as i32;
    let mut r: Vec<usize> = Vec::new();
    let mut k: usize = 0;
    while k < 4
        invariant
            k <= 4,
            forall|i: int| 0 <= i < tilemaps@.len() ==> (#[trigger] tilemaps@[i]).grid_wf(),
            corners == screen_corners(camera, width as int, height as int),
            cx == camera.0 + width,
            cy == camera.1 + height,
            r@ == draw_list(tilemaps@, corners, k as int),
        decreases 4 - k,
    {
        let posn = if k == 0 {
            camera
        } else if k == 1 {
            Vec2i(cx, camera.1)
        } else if k == 2 {
            Vec2i(camera.0, cy)
        } else {
            Vec2i(cx, cy)
        };
        proof {
            assert(posn == corners[k as int]);
        }
        match tile_map_at(posn, tilemaps) {
            Some(i) => {
                proof {
                    crate::game::lemma_first_map_from(tilemaps@, posn, i as int);
                }
                if !contains_index(&r, i) {
                    r.push(i);
                }
            },
            None => {
                proof {
                    crate::game::lemma_first_map_absent(tilemaps@, posn);
                }
            },
        }
        k = k + 1;
    }
    r
}

} // verus!
