//! Tile catalogs and positioned tile grids: point lookup, in-place mutation,
//! and cascading destruction.

use vstd::prelude::*;
use vstd::arithmetic::div_mod::lemma_div_is_ordered;
use vstd::math::min;
use crate::types::Rect;
use crate::types::Vec2i;
use crate::random;

verus! {

/// Side length of a square tile, in pixels.
pub const TILE_SZ: usize = 32;

/// A graphical tile: collision and destruction flags.
#[derive(PartialEq, Eq, Clone, Copy, Debug, Structural)]
pub struct Tile {
    pub solid: bool,
    pub explode: bool,
    pub destructible: bool,
}

/// An index into a `Tileset`.
#[derive(PartialEq, Eq, Clone, Copy, Debug, Structural)]
pub struct TileID(pub usize);

/// A set of tiles shared by multiple tilemaps, drawn from one source image
/// laid out as a grid of `TILE_SZ`-sized cells.
#[derive(Clone)]
pub struct Tileset {
    pub tiles: Vec<Tile>,
    /// Width in pixels of the source image; an exact multiple of `TILE_SZ`.
    pub texture_width: usize,
}

/// Why constructing a tilemap was refused.
#[derive(PartialEq, Eq, Clone, Copy, Debug, Structural)]
pub enum TileError {
    /// The flat tile array does not have `columns * rows` entries.
    SizeMismatch,
    /// Some entry of the tile array is not an index into the catalog.
    InvalidTileReference,
}

impl Tileset {
    /// Shape constraints on a catalog: the source image is a non-empty grid of
    /// tiles, and every tile's source frame fits in `i32` coordinates.
    pub open spec fn wf(self) -> bool {
        &&& self.texture_width % TILE_SZ == 0
        &&& TILE_SZ <= self.texture_width <= i32::MAX
        &&& self.tiles.len() <= 0x0400_0000
    }

    pub open spec fn spec_contains(self, id: TileID) -> bool {
        id.0 < self.tiles.len()
    }

    /// Source frame of tile `id` inside the image: cells are filled row-major,
    /// `texture_width / TILE_SZ` per row.
    pub open spec fn frame_of(self, id: TileID) -> Rect {
        let tw = self.texture_width as int / TILE_SZ as int;
        let row = id.0 as int / tw;
        let col = id.0 as int % tw;
        Rect {
            x: (col * TILE_SZ) as i32,
            y: (row * TILE_SZ) as i32,
            w: TILE_SZ as u16,
            h: TILE_SZ as u16,
        }
    }

    /// Create a new tileset over an image of the given pixel width.
    pub fn new(tiles: Vec<Tile>, texture_width: usize) -> (r: Tileset)
        requires
            texture_width % TILE_SZ == 0,
            TILE_SZ <= texture_width <= i32::MAX,
            tiles.len() <= 0x0400_0000,
        ensures
            r == (Tileset { tiles, texture_width }),
            r.wf(),
    {
        Tileset { tiles, texture_width }
    }

    /// Get the source frame rect for a tile ID.
    pub fn get_rect(&self, id: TileID) -> (r: Rect)
        requires
            self.wf(),
            self.spec_contains(id),
        ensures
            r == self.frame_of(id),
    {
        let idx = id.0;
        let tw = self.texture_width / TILE_SZ;
        proof {
            assert(tw >= 1);
            assert((idx as int / tw as int) * tw <= idx) by (nonlinear_arith)
                requires tw >= 1, idx >= 0;
        }
        let row = idx / tw;
        let col = idx - (row * tw);
        proof {
            assert(col == idx as int % tw as int) by (nonlinear_arith)
                requires tw >= 1, row == idx as int / tw as int, col == idx - row * tw;
            assert(col < tw) by (nonlinear_arith)
                requires tw >= 1, col == idx as int % tw as int;
            assert(col * TILE_SZ < tw * TILE_SZ) by (nonlinear_arith)
                requires col < tw, TILE_SZ > 0;
            assert(tw * TILE_SZ == self.texture_width) by (nonlinear_arith)
                requires
                    tw == self.texture_width as int / TILE_SZ as int,
                    self.texture_width as int % TILE_SZ as int == 0,
                    TILE_SZ > 0;
            assert(row <= idx) by (nonlinear_arith)
                requires tw >= 1, idx >= 0, row == idx as int / tw as int;
            assert(row * TILE_SZ <= idx * TILE_SZ) by (nonlinear_arith)
                requires 0 <= row <= idx, TILE_SZ > 0;
            assert(idx * TILE_SZ <= i32::MAX) by (nonlinear_arith)
                requires 0 <= idx < 0x0400_0000, TILE_SZ == 32;
        }
        Rect {
            x: (col * TILE_SZ) as i32,
            y: (row * TILE_SZ) as i32,
            w: TILE_SZ as u16,
            h: TILE_SZ as u16,
        }
    }

    /// Does this tileset have a tile for `id`?
    pub fn contains(&self, id: TileID) -> (b: bool)
        ensures
            b == self.spec_contains(id),
    {
        id.0 < self.tiles.len()
    }
}

/// A positioned rectangular grid of tile references into a catalog.
pub struct Tilemap {
    /// World-space position of the grid's top-left corner.
    pub position: Vec2i,
    /// How big it is: (columns, rows).
    pub dims: (usize, usize),
    /// Which tileset is used for this tilemap.
    pub tileset: Tileset,
    /// A row-major grid of tile IDs in the tileset.
    pub map: Vec<TileID>,
}

impl Tilemap {
    pub open spec fn cols(self) -> int {
        self.dims.0 as int
    }

    pub open spec fn rows(self) -> int {
        self.dims.1 as int
    }

    /// Grid invariant: the array covers the grid exactly, every reference is
    /// into the catalog, and the world-space extent fits in `i32`.
    pub open spec fn grid_wf(self) -> bool {
        &&& self.map.len() == self.cols() * self.rows()
        &&& forall|i: int| 0 <= i < self.map.len() ==> (#[trigger] self.map[i]).0 < self.tileset.tiles.len()
        &&& self.tileset.wf()
        &&& self.cols() * TILE_SZ <= i32::MAX
        &&& self.rows() * TILE_SZ <= i32::MAX
        &&& self.position.0 + self.cols() * TILE_SZ <= i32::MAX
        &&& self.position.1 + self.rows() * TILE_SZ <= i32::MAX
    }

    /// Is the point inside the grid's world-space rectangle (both axis ranges,
    /// edges included)?
    pub open spec fn contains_point(self, p: Vec2i) -> bool {
        &&& self.position.0 <= p.0 <= self.position.0 + self.cols() * TILE_SZ
        &&& self.position.1 <= p.1 <= self.position.1 + self.rows() * TILE_SZ
    }

    /// A point query succeeds when the point is inside a non-degenerate grid.
    pub open spec fn lookup_ok(self, p: Vec2i) -> bool {
        &&& self.contains_point(p)
        &&& self.cols() >= 1
        &&& self.rows() >= 1
    }

    /// Column of a contained point, the far edge clamped to the last column.
    pub open spec fn col_of(self, p: Vec2i) -> int {
        min((p.0 - self.position.0) / (TILE_SZ as int), self.cols() - 1)
    }

    /// Row of a contained point, the far edge clamped to the last row.
    pub open spec fn row_of(self, p: Vec2i) -> int {
        min((p.1 - self.position.1) / (TILE_SZ as int), self.rows() - 1)
    }

    /// Row-major flat index of the cell a contained point falls in.
    pub open spec fn flat_index_of(self, p: Vec2i) -> int {
        self.row_of(p) * self.cols() + self.col_of(p)
    }

    /// Build a tilemap, checking the flat array against the dims and catalog.
    pub fn new(position: Vec2i, dims: (usize, usize), tileset: Tileset, map: Vec<usize>) -> (r:
        Result<Tilemap, TileError>)
        requires
            tileset.wf(),
            dims.0 * dims.1 <= usize::MAX,
            dims.0 * TILE_SZ <= i32::MAX,
            dims.1 * TILE_SZ <= i32::MAX,
            position.0 + dims.0 * TILE_SZ <= i32::MAX,
            position.1 + dims.1 * TILE_SZ <= i32::MAX,
        ensures
            r is Ok <==> (map@.len() == dims.0 * dims.1 && forall|i: int|
                0 <= i < map@.len() ==> (#[trigger] map@[i]) < tileset.tiles.len()),
            r == Err::<Tilemap, TileError>(TileError::SizeMismatch) <==> map@.len() != dims.0
                * dims.1,
            r matches Ok(t) ==> {
                &&& t.position == position
                &&& t.dims == dims
                &&& t.tileset == tileset
                &&& t.map@.len() == map@.len()
                &&& forall|i: int| 0 <= i < map@.len() ==> (#[trigger] t.map@[i]) == TileID(map@[i])
                &&& t.grid_wf()
            },
    {
        if map.len() != dims.0 * dims.1 {
            return Err(TileError::SizeMismatch);
        }
        let mut ids: Vec<TileID> = Vec::new();
        let mut i: usize = 0;
        while i < map.len()
            invariant
                i <= map.len(),
                map@.len() == dims.0 * dims.1,
                ids@.len() == i,
                forall|j: int| 0 <= j < i ==> (#[trigger] map@[j]) < tileset.tiles.len(),
                forall|j: int| 0 <= j < i ==> (#[trigger] ids@[j]) == TileID(map@[j]),
            decreases map.len() - i,
        {
            let id = map[i];
            if id >= tileset.tiles.len() {
                return Err(TileError::InvalidTileReference);
            }
            ids.push(TileID(id));
            i = i + 1;
        }
        Ok(Tilemap { position, dims, tileset, map: ids })
    }

    pub fn size(&self) -> (r: (usize, usize))
        ensures
            r == self.dims,
    {
        self.dims
    }

    /// Flat index of the cell containing a point known to be inside the grid.
    pub fn tile_index_at(&self, p: Vec2i) -> (idx: usize)
        requires
            self.grid_wf(),
            self.lookup_ok(p),
        ensures
            idx == self.flat_index_of(p),
            idx < self.map.len(),
    {
        let dx = (p.0 - self.position.0) as usize;
        let col0 = dx / TILE_SZ;
        let col = if col0 < self.dims.0 {
            col0
        } else {
            self.dims.0 - 1
        };
        let dy = (p.1 - self.position.1) as usize;
        let row0 = dy / TILE_SZ;
        let row = if row0 < self.dims.1 {
            row0
        } else {
            self.dims.1 - 1
        };
        proof {
            assert(dx as int / TILE_SZ as int <= self.cols()) by (nonlinear_arith)
                requires 0 <= dx as int <= self.cols() * TILE_SZ, TILE_SZ > 0;
            assert(dy as int / TILE_SZ as int <= self.rows()) by (nonlinear_arith)
                requires 0 <= dy as int <= self.rows() * TILE_SZ, TILE_SZ > 0;
            assert(col == self.col_of(p));
            assert(row == self.row_of(p));
            assert(0 <= row * self.cols() + col < self.cols() * self.rows()) by (nonlinear_arith)
                requires 0 <= col < self.cols(), 0 <= row < self.rows();
            assert(row * self.cols() + col < self.map.len());
        }
        row * self.dims.0 + col
    }

    /// ID of the tile under a point known to be inside the grid.
    pub fn tile_id_at(&self, p: Vec2i) -> (id: TileID)
        requires
            self.grid_wf(),
            self.lookup_ok(p),
        ensures
            id == self.map[self.flat_index_of(p)],
    {
        let idx = self.tile_index_at(p);
        self.map[idx]
    }

    /// Look up the tile under a world point: `None` outside the grid's
    /// world-space rectangle, otherwise exactly the catalog entry the cell
    /// refers to.
    pub fn tile_at(&self, p: Vec2i) -> (r: Option<Tile>)
        requires
            self.grid_wf(),
        ensures
            r is Some <==> self.lookup_ok(p),
            self.lookup_ok(p) ==> r == Some(
                self.tileset.tiles[self.map[self.flat_index_of(p)].0 as int],
            ),
    {
        if self.dims.0 == 0 || self.dims.1 == 0 {
            return None;
        }
        let right = self.position.0 + (self.dims.0 * TILE_SZ) as i32;
        let bottom = self.position.1 + (self.dims.1 * TILE_SZ) as i32;
        if p.0 < self.position.0 || p.0 > right || p.1 < self.position.1 || p.1 > bottom {
            return None;
        }
        let idx = self.tile_index_at(p);
        let id = self.map[idx];
        Some(self.tileset.tiles[id.0])
    }

    /// Fill a `dims`-sized flat tile array by independent Bernoulli trials
    /// with success probability `numerator / denominator`: `t1` on success,
    /// `t2` otherwise.
    pub fn generate_rand_map_2(
        numerator: u32,
        denominator: u32,
        dims: (usize, usize),
        t1: TileID,
        t2: TileID,
    ) -> (r: Vec<usize>)
        requires
            0 < denominator,
            numerator <= denominator,
            dims.0 * dims.1 <= usize::MAX,
        ensures
            r@.len() == dims.0 * dims.1,
            forall|i: int| 0 <= i < r@.len() ==> (#[trigger] r@[i]) == t1.0 || r@[i] == t2.0,
    {
        let m = random::bernoulli_from_ratio(numerator, denominator);
        let n = dims.0 * dims.1;
        let mut map: Vec<usize> = Vec::new();
        let mut i: usize = 0;
        while i < n
            invariant
                i <= n,
                map@.len() == i,
                forall|j: int| 0 <= j < i ==> (#[trigger] map@[j]) == t1.0 || map@[j] == t2.0,
            decreases n - i,
        {
            let v = random::bernoulli_sample(&m);
            if v {
                map.push(t1.0);
            } else {
                map.push(t2.0);
            }
            i = i + 1;
        }
        map
    }

    /// Unconditionally overwrite one cell with `new_id`.
    pub fn replace_tile(&mut self, index: usize, new_id: TileID)
        requires
            old(self).grid_wf(),
            index < old(self).map.len(),
            new_id.0 < old(self).tileset.tiles.len(),
        ensures
            final(self).map@ == old(self).map@.update(index as int, new_id),
            final(self).position == old(self).position,
            final(self).dims == old(self).dims,
            final(self).tileset == old(self).tileset,
            final(self).grid_wf(),
    {
        self.map.set(index, new_id);
    }

    /// Frame condition of a cascade started at cell `idx0` writing `new_id`:
    /// the grid keeps its shape, and a cell differs from `o` only if it now
    /// holds `new_id` and either is the starting cell or was destructible.
    /// The exact result is pinned separately by `spec_cascade`.
    pub open spec fn explosion_frame(o: Tilemap, s: Tilemap, idx0: int, new_id: TileID) -> bool {
        &&& s.position == o.position
        &&& s.dims == o.dims
        &&& s.tileset == o.tileset
        &&& s.map.len() == o.map.len()
        &&& forall|i: int|
            0 <= i < s.map.len() && (#[trigger] s.map[i]) != o.map[i] ==> s.map[i] == new_id && (i
                == idx0 || o.tileset.tiles[o.map[i].0 as int].destructible)
    }

    /// Probe one neighboring point of an exploded cell: if a destructible tile
    /// lies there it is overwritten with `new_id`, and if it is explosive and
    /// not yet part of the cascade it joins the worklist. The whole effect on
    /// the cell array, the visited set and the worklist is exactly one
    /// `cascade_probe` step.
    fn probe_explode(
        &mut self,
        q: Vec2i,
        dx: i32,
        new_id: TileID,
        visited: &mut Vec<bool>,
        work: &mut Vec<Vec2i>,
        Ghost(orig): Ghost<Tilemap>,
        Ghost(idx0): Ghost<int>,
    )
        requires
            old(self).grid_wf(),
            new_id.0 < old(self).tileset.tiles.len(),
            old(visited)@.len() == old(self).map.len(),
            Tilemap::explosion_frame(orig, *old(self), idx0, new_id),
        ensures
            final(self).grid_wf(),
            final(visited)@.len() == final(self).map.len(),
            Tilemap::explosion_frame(orig, *final(self), idx0, new_id),
            forall|i: int|
                0 <= i < final(self).map.len() && (#[trigger] old(self).map[i]) == new_id
                    ==> final(self).map[i] == new_id,
            count_false(final(visited)@) <= count_false(old(visited)@),
            count_false(final(visited)@) == count_false(old(visited)@) ==> *final(work) == *old(
                work,
            ) && *final(visited) == *old(visited) ,
            final(work)@.len() > old(work)@.len() ==> count_false(final(visited)@) < count_false(
                old(visited)@,
            ),
            final(work)@.len() >= old(work)@.len(),
            ({
                let st = cascade_probe(
                    old(self).tileset,
                    old(self).position,
                    old(self).dims,
                    new_id,
                    old(self).map@,
                    old(visited)@,
                    old(work)@,
                    q,
                    dx as int,
                );
                &&& final(self).map@ == st.0
                &&& final(visited)@ == st.1
                &&& final(work)@ == st.2
            }),
    {
        let ghost st = cascade_probe(
            old(self).tileset,
            old(self).position,
            old(self).dims,
            new_id,
            old(self).map@,
            old(visited)@,
            old(work)@,
            q,
            dx as int,
        );
        let px = match q.0.checked_add(dx) {
            Some(v) => v,
            None => {
                return ;
            },
        };
        let py = match q.1.checked_add(TILE_SZ as i32) {
            Some(v) => v,
            None => {
                return ;
            },
        };
        let pt = Vec2i(px, py);
        proof {
            assert(cell_lookup_ok(old(self).position, old(self).dims, pt) == self.lookup_ok(pt));
            if self.lookup_ok(pt) {
                assert(cell_index(old(self).position, old(self).dims, pt) == self.flat_index_of(
                    pt,
                ));
            }
        }
        if let Some(t) = self.tile_at(pt) {
            if t.destructible {
                let ti = self.tile_index_at(pt);
                let ghost before = *self;
                self.replace_tile(ti, new_id);
                proof {
                    assert forall|i: int|
                        0 <= i < self.map.len() && (#[trigger] self.map[i]) != orig.map[i] implies
                        self.map[i] == new_id && (i == idx0
                            || orig.tileset.tiles[orig.map[i].0 as int].destructible) by {
                        if i == ti as int {
                            if before.map[i] == orig.map[i] {
                                assert(t == orig.tileset.tiles[orig.map[i].0 as int]);
                            }
                        }
                    }
                }
                if t.explode && !visited[ti] {
                    proof {
                        lemma_count_false_update(visited@, ti as int);
                    }
                    visited.set(ti, true);
                    work.push(pt);
                    proof {
                        assert(visited@ == st.1 && work@ == st.2);
                    }
                }
            }
        }
        proof {
            assert(self.map@ == st.0 && visited@ == st.1 && work@ == st.2);
        }
    }

    /// The visited set a cascade starts from: only the starting cell marked.
    pub open spec fn cascade_start_visited(self, index: int) -> Seq<bool> {
        Seq::new(self.map@.len(), |i: int| false).update(index, true)
    }

    /// Overwrite the cell at `index` with `new_id`, then cascade: probe the
    /// three points one tile below, below-left, and below-right of each
    /// exploded cell's point, overwrite destructible neighbors, and let
    /// explosive neighbors explode in turn. A worklist with a visited set
    /// keyed by cell index lets each cell join the cascade at most once.
    /// The resulting cell array is pinned exactly: it is `spec_cascade` run
    /// from the overwritten start cell and the point `p` alone.
    pub fn explode_tiles(&mut self, index: usize, new_id: TileID, p: Vec2i)
        requires
            old(self).grid_wf(),
            index < old(self).map.len(),
            new_id.0 < old(self).tileset.tiles.len(),
        ensures
            final(self).grid_wf(),
            final(self).position == old(self).position,
            final(self).dims == old(self).dims,
            final(self).tileset == old(self).tileset,
            final(self).map[index as int] == new_id,
            Tilemap::explosion_frame(*old(self), *final(self), index as int, new_id),
            final(self).map@ == spec_cascade(
                old(self).tileset,
                old(self).position,
                old(self).dims,
                new_id,
                old(self).map@.update(index as int, new_id),
                old(self).cascade_start_visited(index as int),
                seq![p],
            ),
    {
        let ghost orig = *self;
        self.replace_tile(index, new_id);
        let n = self.map.len();
        let mut visited: Vec<bool> = Vec::new();
        while visited.len() < n
            invariant
                visited@.len() <= n,
                forall|k: int| 0 <= k < visited@.len() ==> !(#[trigger] visited@[k]),
            decreases n - visited@.len(),
        {
            visited.push(false);
        }
        visited.set(index, true);
        let mut work: Vec<Vec2i> = Vec::new();
        work.push(p);
        proof {
            assert(visited@ =~= orig.cascade_start_visited(index as int));
            assert(work@ =~= seq![p]);
        }
        let ghost target = spec_cascade(
            orig.tileset,
            orig.position,
            orig.dims,
            new_id,
            orig.map@.update(index as int, new_id),
            orig.cascade_start_visited(index as int),
            seq![p],
        );
        while work.len() > 0
            invariant
                self.grid_wf(),
                new_id.0 < self.tileset.tiles.len(),
                self.position == orig.position,
                self.dims == orig.dims,
                self.tileset == orig.tileset,
                visited@.len() == self.map.len(),
                self.map.len() == orig.map.len(),
                index < self.map.len(),
                self.map[index as int] == new_id,
                Tilemap::explosion_frame(orig, *self, index as int, new_id),
                spec_cascade(
                    orig.tileset,
                    orig.position,
                    orig.dims,
                    new_id,
                    self.map@,
                    visited@,
                    work@,
                ) == target,
            decreases count_false(visited@), work@.len(),
        {
            let ghost map0 = self.map@;
            let ghost vis0 = visited@;
            let ghost work_all = work@;
            let q = match work.pop() {
                Some(v) => v,
                None => {
                    return ;
                },
            };
            proof {
                assert(work@ =~= work_all.drop_last());
                assert(q == work_all.last());
            }
            let ghost idx_g = index as int;
            self.probe_explode(q, 0, new_id, &mut visited, &mut work, Ghost(orig), Ghost(idx_g));
            self.probe_explode(
                q,
                -(TILE_SZ as i32),
                new_id,
                &mut visited,
                &mut work,
                Ghost(orig),
                Ghost(idx_g),
            );
            self.probe_explode(
                q,
                TILE_SZ as i32,
                new_id,
                &mut visited,
                &mut work,
                Ghost(orig),
                Ghost(idx_g),
            );
            proof {
                let st = cascade_step(
                    orig.tileset,
                    orig.position,
                    orig.dims,
                    new_id,
                    map0,
                    vis0,
                    work_all.drop_last(),
                    q,
                );
                assert(self.map@ == st.0 && visited@ == st.1 && work@ == st.2);
            }
        }
    }
}

impl Tilemap {
    /// First visible column under the viewport.
    pub open spec fn visible_col_lo(self, screen: Rect) -> int {
        if screen.left() <= self.position.0 {
            0
        } else {
            min((screen.left() - self.position.0) / (TILE_SZ as int), self.cols())
        }
    }

    /// One past the last visible column, with one tile of padding so a tile
    /// partly off the right edge is still drawn.
    pub open spec fn visible_col_hi(self, screen: Rect) -> int {
        let e = screen.right() + TILE_SZ;
        if e <= self.position.0 {
            0
        } else {
            min((e - self.position.0) / (TILE_SZ as int), self.cols())
        }
    }

    /// First visible row under the viewport.
    pub open spec fn visible_row_lo(self, screen: Rect) -> int {
        if screen.top() <= self.position.1 {
            0
        } else {
            min((screen.top() - self.position.1) / (TILE_SZ as int), self.rows())
        }
    }

    /// One past the last visible row, with one tile of padding.
    pub open spec fn visible_row_hi(self, screen: Rect) -> int {
        let e = screen.bottom() + TILE_SZ;
        if e <= self.position.1 {
            0
        } else {
            min((e - self.position.1) / (TILE_SZ as int), self.rows())
        }
    }

    /// The one blit a cell asks for: its source frame in the tileset image,
    /// and its world position.
    pub open spec fn blit_of(self, row: int, col: int) -> (Rect, Vec2i) {
        (
            self.tileset.frame_of(self.map[row * self.cols() + col]),
            Vec2i(
                (self.position.0 + col * TILE_SZ) as i32,
                (self.position.1 + row * TILE_SZ) as i32,
            ),
        )
    }

    /// Blits of one row, columns `col` up to `hi`.
    pub open spec fn row_cmds(self, row: int, col: int, hi: int) -> Seq<(Rect, Vec2i)>
        decreases hi - col,
    {
        if col >= hi {
            Seq::empty()
        } else {
            seq![self.blit_of(row, col)] + self.row_cmds(row, col + 1, hi)
        }
    }

    /// Blits of the rows `row` up to `bot`, columns `lo` up to `hi`.
    pub open spec fn cmds_from(self, row: int, bot: int, lo: int, hi: int) -> Seq<(Rect, Vec2i)>
        decreases bot - row,
    {
        if row >= bot {
            Seq::empty()
        } else {
            self.row_cmds(row, lo, hi) + self.cmds_from(row + 1, bot, lo, hi)
        }
    }

    /// The visible window is well formed: within the grid, lower edge first.
    pub proof fn lemma_visible_range(self, screen: Rect)
        requires
            self.grid_wf(),
        ensures
            0 <= self.visible_col_lo(screen) <= self.visible_col_hi(screen) <= self.cols(),
            0 <= self.visible_row_lo(screen) <= self.visible_row_hi(screen) <= self.rows(),
    {
        if screen.left() > self.position.0 {
            lemma_div_is_ordered(
                screen.left() - self.position.0,
                screen.right() + TILE_SZ - self.position.0,
                TILE_SZ as int,
            );
        }
        if screen.top() > self.position.1 {
            lemma_div_is_ordered(
                screen.top() - self.position.1,
                screen.bottom() + TILE_SZ - self.position.1,
                TILE_SZ as int,
            );
        }
    }

    /// One clamped axis coordinate of the visible window: how many whole
    /// tiles of this grid lie before `edge`, at most `cells`.
    fn visible_index(grid_origin: i32, edge: i64, cells: usize) -> (r: usize)
        requires
            cells * TILE_SZ <= i32::MAX,
            -0x1_0000_0000 <= edge <= 0x1_0000_0000,
        ensures
            r == if edge <= grid_origin {
                0
            } else {
                min((edge - grid_origin) / (TILE_SZ as int), cells as int)
            },
    {
        if edge <= grid_origin as i64 {
            0
        } else {
            let d = (edge - grid_origin as i64) as u64;
            let q = d / (TILE_SZ as u64);
            if q >= cells as u64 {
                cells
            } else {
                q as usize
            }
        }
    }

    /// The blits needed to draw this grid under the given viewport: one per
    /// cell of the visible window, row-major. Cells outside the window —
    /// more than one tile away from the viewport — are culled.
    pub fn draw_commands(&self, screen: Rect) -> (cmds: Vec<(Rect, Vec2i)>)
        requires
            self.grid_wf(),
            screen.right() + TILE_SZ <= i32::MAX,
            screen.bottom() + TILE_SZ <= i32::MAX,
        ensures
            cmds@ == self.cmds_from(
                self.visible_row_lo(screen),
                self.visible_row_hi(screen),
                self.visible_col_lo(screen),
                self.visible_col_hi(screen),
            ),
    {
        proof {
            self.lemma_visible_range(screen);
        }
        let left = Self::visible_index(self.position.0, screen.x as i64, self.dims.0);
        let right = Self::visible_index(
            self.position.0,
            screen.x as i64 + screen.w as i64 + TILE_SZ as i64,
            self.dims.0,
        );
        let top = Self::visible_index(self.position.1, screen.y as i64, self.dims.1);
        let bot = Self::visible_index(
            self.position.1,
            screen.y as i64 + screen.h as i64 + TILE_SZ as i64,
            self.dims.1,
        );
        let ghost target = self.cmds_from(top as int, bot as int, left as int, right as int);
        let mut cmds: Vec<(Rect, Vec2i)> = Vec::new();
        let mut row = top;
        while row < bot
            invariant
                self.grid_wf(),
                top <= row <= bot <= self.dims.1,
                left <= right <= self.dims.0,
                cmds@ + self.cmds_from(row as int, bot as int, left as int, right as int)
                    == target,
            decreases bot - row,
        {
            let mut col = left;
            while col < right
                invariant
                    self.grid_wf(),
                    top <= row < bot <= self.dims.1,
                    left <= col <= right <= self.dims.0,
                    cmds@ + self.row_cmds(row as int, col as int, right as int) + self.cmds_from(
                        row + 1,
                        bot as int,
                        left as int,
                        right as int,
                    ) == target,
                decreases right - col,
            {
                proof {
                    assert(0 <= row * self.cols() + col < self.cols() * self.rows())
                        by (nonlinear_arith)
                        requires 0 <= col < self.cols(), 0 <= row < self.rows();
                    assert(col * TILE_SZ < self.cols() * TILE_SZ) by (nonlinear_arith)
                        requires 0 <= col < self.cols(), TILE_SZ > 0;
                    assert(row * TILE_SZ < self.rows() * TILE_SZ) by (nonlinear_arith)
                        requires 0 <= row < self.rows(), TILE_SZ > 0;
                }
                let idx = row * self.dims.0 + col;
                let id = self.map[idx];
                let frame = self.tileset.get_rect(id);
                let dest = Vec2i(
                    self.position.0 + (col * TILE_SZ) as i32,
                    self.position.1 + (row * TILE_SZ) as i32,
                );
                let ghost before = cmds@;
                cmds.push((frame, dest));
                proof {
                    assert(cmds@ =~= before + seq![self.blit_of(row as int, col as int)]);
                    assert(cmds@ + self.row_cmds(row as int, col + 1, right as int)
                        + self.cmds_from(row + 1, bot as int, left as int, right as int) =~= before
                        + self.row_cmds(row as int, col as int, right as int) + self.cmds_from(
                        row + 1,
                        bot as int,
                        left as int,
                        right as int,
                    ));
                }
                col = col + 1;
            }
            proof {
                assert(cmds@ + self.cmds_from(row as int, bot as int, left as int, right as int)
                    =~= cmds@ + self.row_cmds(row as int, left as int, right as int)
                    + self.cmds_from(row + 1, bot as int, left as int, right as int));
            }
            row = row + 1;
        }
        cmds
    }
}

/// Is the point inside a non-degenerate grid with this origin and size?
/// (The same test as `Tilemap::lookup_ok`, over the bare geometry.)
pub open spec fn cell_lookup_ok(pos: Vec2i, dims: (usize, usize), p: Vec2i) -> bool {
    &&& pos.0 <= p.0 <= pos.0 + dims.0 * TILE_SZ
    &&& pos.1 <= p.1 <= pos.1 + dims.1 * TILE_SZ
    &&& dims.0 >= 1
    &&& dims.1 >= 1
}

/// Row-major flat index of the cell a contained point falls in, the far
/// edges clamped. (The same formula as `Tilemap::flat_index_of`.)
pub open spec fn cell_index(pos: Vec2i, dims: (usize, usize), p: Vec2i) -> int {
    min((p.1 - pos.1) / (TILE_SZ as int), dims.1 - 1) * (dims.0 as int) + min(
        (p.0 - pos.0) / (TILE_SZ as int),
        dims.0 - 1,
    )
}

/// One probe of an explosion cascade, from the point `q` of a cell that just
/// exploded: the probed point lies one tile below `q`, offset horizontally
/// by `dx`. A probe outside `i32` range or outside the grid does nothing.
/// A destructible tile under the point is overwritten with `new_id`; if it
/// is also explosive and not yet part of the cascade, its cell is marked
/// visited and the point joins the worklist.
pub open spec fn cascade_probe(
    ts: Tileset,
    pos: Vec2i,
    dims: (usize, usize),
    new_id: TileID,
    map: Seq<TileID>,
    visited: Seq<bool>,
    work: Seq<Vec2i>,
    q: Vec2i,
    dx: int,
) -> (Seq<TileID>, Seq<bool>, Seq<Vec2i>) {
    let px = q.0 + dx;
    let py = q.1 + TILE_SZ;
    if px < i32::MIN || px > i32::MAX || py > i32::MAX {
        (map, visited, work)
    } else {
        let pt = Vec2i(px as i32, py as i32);
        if !cell_lookup_ok(pos, dims, pt) {
            (map, visited, work)
        } else {
            let idx = cell_index(pos, dims, pt);
            // a totality guard: on the states the cascade actually reaches,
            // the index is always in range and the visited set always spans
            // the grid
            if !(0 <= idx < map.len() && visited.len() == map.len()) {
                (map, visited, work)
            } else {
                let t = ts.tiles[map[idx].0 as int];
                if !t.destructible {
                    (map, visited, work)
                } else {
                    let map2 = map.update(idx, new_id);
                    if t.explode && !visited[idx] {
                        (map2, visited.update(idx, true), work.push(pt))
                    } else {
                        (map2, visited, work)
                    }
                }
            }
        }
    }
}

/// One worklist step of the cascade: the three probes below an exploded
/// cell's point, directly below first, then below-left, then below-right.
pub open spec fn cascade_step(
    ts: Tileset,
    pos: Vec2i,
    dims: (usize, usize),
    new_id: TileID,
    map: Seq<TileID>,
    visited: Seq<bool>,
    work: Seq<Vec2i>,
    q: Vec2i,
) -> (Seq<TileID>, Seq<bool>, Seq<Vec2i>) {
    let s1 = cascade_probe(ts, pos, dims, new_id, map, visited, work, q, 0);
    let s2 = cascade_probe(ts, pos, dims, new_id, s1.0, s1.1, s1.2, q, -(TILE_SZ as int));
    cascade_probe(ts, pos, dims, new_id, s2.0, s2.1, s2.2, q, TILE_SZ as int)
}

/// The cell array an explosion cascade leaves behind, given the starting
/// array, visited set and worklist: worklist points are taken newest first,
/// each contributing its three probes, until the worklist is empty.
pub open spec fn spec_cascade(
    ts: Tileset,
    pos: Vec2i,
    dims: (usize, usize),
    new_id: TileID,
    map: Seq<TileID>,
    visited: Seq<bool>,
    work: Seq<Vec2i>,
) -> Seq<TileID>
    decreases count_false(visited), work.len(),
    via spec_cascade_decreases
{
    if work.len() == 0 {
        map
    } else {
        let st = cascade_step(ts, pos, dims, new_id, map, visited, work.drop_last(), work.last());
        spec_cascade(ts, pos, dims, new_id, st.0, st.1, st.2)
    }
}

#[via_fn]
proof fn spec_cascade_decreases(
    ts: Tileset,
    pos: Vec2i,
    dims: (usize, usize),
    new_id: TileID,
    map: Seq<TileID>,
    visited: Seq<bool>,
    work: Seq<Vec2i>,
) {
    if work.len() > 0 {
        lemma_cascade_step_measure(
            ts,
            pos,
            dims,
            new_id,
            map,
            visited,
            work.drop_last(),
            work.last(),
        );
    }
}

/// One probe never grows the unvisited count, and grows the worklist only
/// while shrinking that count.
proof fn lemma_cascade_probe_measure(
    ts: Tileset,
    pos: Vec2i,
    dims: (usize, usize),
    new_id: TileID,
    map: Seq<TileID>,
    visited: Seq<bool>,
    work: Seq<Vec2i>,
    q: Vec2i,
    dx: int,
)
    ensures
        ({
            let st = cascade_probe(ts, pos, dims, new_id, map, visited, work, q, dx);
            &&& st.1.len() == visited.len()
            &&& count_false(st.1) <= count_false(visited)
            &&& (st.1 == visited && st.2 == work) || (st.2.len() == work.len() + 1 && count_false(
                st.1,
            ) < count_false(visited))
        }),
{
    let st = cascade_probe(ts, pos, dims, new_id, map, visited, work, q, dx);
    let px = q.0 + dx;
    let py = q.1 + TILE_SZ;
    if !(px < i32::MIN || px > i32::MAX || py > i32::MAX) {
        let pt = Vec2i(px as i32, py as i32);
        if cell_lookup_ok(pos, dims, pt) {
            let idx = cell_index(pos, dims, pt);
            if 0 <= idx < map.len() && visited.len() == map.len() {
                let t = ts.tiles[map[idx].0 as int];
                if t.destructible && t.explode && !visited[idx] {
                    lemma_count_false_update(visited, idx);
                }
            }
        }
    }
}

/// A worklist step keeps the measure falling: either some cell was newly
/// visited, or the visited set and worklist are untouched.
proof fn lemma_cascade_step_measure(
    ts: Tileset,
    pos: Vec2i,
    dims: (usize, usize),
    new_id: TileID,
    map: Seq<TileID>,
    visited: Seq<bool>,
    work: Seq<Vec2i>,
    q: Vec2i,
)
    ensures
        ({
            let st = cascade_step(ts, pos, dims, new_id, map, visited, work, q);
            &&& st.1.len() == visited.len()
            &&& count_false(st.1) <= count_false(visited)
            &&& (st.1 == visited && st.2 == work) || count_false(st.1) < count_false(visited)
        }),
{
    let s1 = cascade_probe(ts, pos, dims, new_id, map, visited, work, q, 0);
    let s2 = cascade_probe(ts, pos, dims, new_id, s1.0, s1.1, s1.2, q, -(TILE_SZ as int));
    lemma_cascade_probe_measure(ts, pos, dims, new_id, map, visited, work, q, 0);
    lemma_cascade_probe_measure(ts, pos, dims, new_id, s1.0, s1.1, s1.2, q, -(TILE_SZ as int));
    lemma_cascade_probe_measure(ts, pos, dims, new_id, s2.0, s2.1, s2.2, q, TILE_SZ as int);
}

/// How many entries of a boolean sequence are still `false`.
pub closed spec fn count_false(s: Seq<bool>) -> nat
    decreases s.len(),
{
    if s.len() == 0 {
        0
    } else {
        count_false(s.drop_last()) + (if s.last() {
            0nat
        } else {
            1nat
        })
    }
}

/// Marking a `false` entry `true` lowers `count_false` by exactly one.
proof fn lemma_count_false_update(s: Seq<bool>, i: int)
    requires
        0 <= i < s.len(),
        !s[i],
    ensures
        count_false(s.update(i, true)) + 1 == count_false(s),
    decreases s.len(),
{
    if i == s.len() - 1 {
        assert(s.update(i, true).drop_last() =~= s.drop_last());
        assert(s.update(i, true).last());
    } else {
        lemma_count_false_update(s.drop_last(), i);
        assert(s.update(i, true).drop_last() =~= s.drop_last().update(i, true));
        assert(s.update(i, true).last() == s.last());
    }
}

} // verus!
