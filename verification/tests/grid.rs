use anim2d::tiles::{Tile, TileError, TileID, Tilemap, Tileset, TILE_SZ};
use anim2d::types::{Rect, Vec2i};

fn plain_tile() -> Tile {
    Tile { solid: false, explode: false, destructible: true }
}

fn solid_tile() -> Tile {
    Tile { solid: true, explode: false, destructible: true }
}

fn catalog(n: usize) -> Tileset {
    let mut tiles = Vec::new();
    for _ in 0..n {
        tiles.push(plain_tile());
    }
    Tileset::new(tiles, 96)
}

#[test]
fn construction_succeeds_when_sized_and_referenced() {
    let ts = catalog(4);
    let map: Vec<usize> = vec![0; 16 * 8];
    let t = Tilemap::new(Vec2i(0, 0), (16, 8), ts, map).unwrap();
    assert_eq!(t.size(), (16, 8));
}

#[test]
fn construction_fails_on_size_mismatch() {
    let ts = catalog(4);
    let map: Vec<usize> = vec![0; 127];
    let r = Tilemap::new(Vec2i(0, 0), (16, 8), ts, map);
    assert!(matches!(r, Err(TileError::SizeMismatch)));
}

#[test]
fn construction_fails_on_bad_tile_reference() {
    let ts = catalog(4);
    let mut map: Vec<usize> = vec![0; 16 * 8];
    map[100] = 4;
    let r = Tilemap::new(Vec2i(0, 0), (16, 8), ts, map);
    assert!(matches!(r, Err(TileError::InvalidTileReference)));
}

#[test]
fn tile_at_matches_catalog_lookup() {
    let mut tiles = Vec::new();
    tiles.push(plain_tile());
    tiles.push(solid_tile());
    let ts = Tileset::new(tiles, 96);
    let mut map: Vec<usize> = vec![0; 16 * 8];
    // column 2, row 1 in a 16-wide grid is flat index 18
    map[18] = 1;
    let t = Tilemap::new(Vec2i(0, 0), (16, 8), ts, map).unwrap();
    let got = t.tile_at(Vec2i(65, 33)).unwrap();
    assert!(got.solid);
    assert_eq!(t.tile_index_at(Vec2i(65, 33)), 18);
    assert_eq!(t.tile_id_at(Vec2i(65, 33)), TileID(1));
    // a neighboring cell still reads the plain tile
    assert!(!t.tile_at(Vec2i(31, 33)).unwrap().solid);
}

#[test]
fn tile_at_clamps_the_far_edges() {
    let ts = catalog(2);
    let mut map: Vec<usize> = vec![0; 16 * 8];
    map[16 * 8 - 1] = 1;
    let t = Tilemap::new(Vec2i(0, 0), (16, 8), ts, map).unwrap();
    // the inclusive far corner lands in the last cell
    let corner = Vec2i((16 * TILE_SZ) as i32, (8 * TILE_SZ) as i32);
    assert_eq!(t.tile_index_at(corner), 16 * 8 - 1);
    assert!(t.tile_at(corner).is_some());
}

#[test]
fn tile_at_outside_is_none() {
    let ts = catalog(1);
    let map: Vec<usize> = vec![0; 16 * 8];
    let t = Tilemap::new(Vec2i(64, 0), (16, 8), ts, map).unwrap();
    assert!(t.tile_at(Vec2i(63, 10)).is_none());
    assert!(t.tile_at(Vec2i(64 + 16 * 32 + 1, 10)).is_none());
    assert!(t.tile_at(Vec2i(100, -1)).is_none());
    assert!(t.tile_at(Vec2i(100, 8 * 32 + 1)).is_none());
}

#[test]
fn replace_tile_overwrites_one_cell() {
    let ts = catalog(3);
    let map: Vec<usize> = vec![0; 4];
    let mut t = Tilemap::new(Vec2i(0, 0), (4, 1), ts, map).unwrap();
    t.replace_tile(2, TileID(1));
    assert_eq!(t.map, vec![TileID(0), TileID(0), TileID(1), TileID(0)]);
}

#[test]
fn explosion_in_single_row_changes_only_the_explosive_cell() {
    // destructible, destructible, explosive, destructible; tile size 32
    let mut tiles = Vec::new();
    tiles.push(Tile { solid: false, explode: false, destructible: true });
    tiles.push(Tile { solid: false, explode: true, destructible: true });
    tiles.push(Tile { solid: false, explode: false, destructible: false });
    let ts = Tileset::new(tiles, 96);
    let map: Vec<usize> = vec![0, 0, 1, 0];
    let mut t = Tilemap::new(Vec2i(0, 0), (4, 1), ts, map).unwrap();
    // the three probe points lie one tile below, outside this one-row grid
    t.explode_tiles(2, TileID(2), Vec2i(2 * 32 + 16, 16));
    assert_eq!(t.map, vec![TileID(0), TileID(0), TileID(2), TileID(0)]);
}

#[test]
fn explosion_cascades_to_destructible_neighbors_below() {
    // two rows: an explosive tile above a destructible row
    let mut tiles = Vec::new();
    tiles.push(Tile { solid: false, explode: false, destructible: true });
    tiles.push(Tile { solid: false, explode: true, destructible: true });
    tiles.push(Tile { solid: false, explode: false, destructible: false });
    let ts = Tileset::new(tiles, 96);
    let map: Vec<usize> = vec![
        0, 1, 0, //
        0, 0, 0, //
    ];
    let mut t = Tilemap::new(Vec2i(0, 0), (3, 2), ts, map).unwrap();
    t.explode_tiles(1, TileID(2), Vec2i(32 + 16, 16));
    // the explosive cell and the three probed cells below change
    assert_eq!(t.map[1], TileID(2));
    assert_eq!(t.map[3], TileID(2));
    assert_eq!(t.map[4], TileID(2));
    assert_eq!(t.map[5], TileID(2));
    assert_eq!(t.map[0], TileID(0));
    assert_eq!(t.map[2], TileID(0));
}

#[test]
fn get_rect_walks_the_sheet_row_major() {
    let ts = catalog(6);
    // 96-pixel sheet: three tiles per row
    assert_eq!(ts.get_rect(TileID(0)), Rect { x: 0, y: 0, w: 32, h: 32 });
    assert_eq!(ts.get_rect(TileID(2)), Rect { x: 64, y: 0, w: 32, h: 32 });
    assert_eq!(ts.get_rect(TileID(4)), Rect { x: 32, y: 32, w: 32, h: 32 });
    assert!(ts.contains(TileID(5)));
    assert!(!ts.contains(TileID(6)));
}

#[test]
fn generated_map_is_sized_and_drawn_from_both_ids() {
    let m = Tilemap::generate_rand_map_2(50, 100, (64, 8), TileID(8), TileID(7));
    assert_eq!(m.len(), 64 * 8);
    assert!(m.iter().all(|&id| id == 8 || id == 7));
}

#[test]
fn certain_trial_always_picks_the_success_tile() {
    let m = Tilemap::generate_rand_map_2(100, 100, (16, 4), TileID(3), TileID(9));
    assert!(m.iter().all(|&id| id == 3));
    let m2 = Tilemap::generate_rand_map_2(0, 100, (16, 4), TileID(3), TileID(9));
    assert!(m2.iter().all(|&id| id == 9));
}

#[test]
fn leading_edge_probe_finds_the_solid_tile() {
    // a body at (60,112), size 32x32, moving right; one solid tile with
    // world rectangle (160, 96, 32, 32)
    let mut tiles = Vec::new();
    tiles.push(solid_tile());
    let ts = Tileset::new(tiles, 96);
    let map: Vec<usize> = vec![0];
    let grid = Tilemap::new(Vec2i(160, 96), (1, 1), ts, map).unwrap();
    let mut body = Rect { x: 60, y: 112, w: 32, h: 32 };
    let mut hits: Vec<i32> = Vec::new();
    while body.x <= 200 {
        let probe = Vec2i(body.x + body.w as i32, body.y + 16);
        if let Some(t) = grid.tile_at(probe) {
            if t.solid {
                hits.push(body.x);
            }
        }
        body.x += 2;
    }
    // the probe enters the rectangle exactly when the leading edge reaches it
    assert_eq!(hits.first(), Some(&128));
}
