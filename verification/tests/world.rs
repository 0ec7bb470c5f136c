use anim2d::animation::{Animation, AnimationState};
use anim2d::background::Background;
use anim2d::game;
use anim2d::scroll;
use anim2d::sprite::Sprite;
use anim2d::text::{Font, Text};
use anim2d::tiles::{Tile, TileID, Tilemap, Tileset, TILE_SZ};
use anim2d::types::{Rect, Vec2i};

fn catalog() -> Tileset {
    let tiles = vec![
        Tile { solid: false, explode: false, destructible: true },
        Tile { solid: true, explode: false, destructible: true },
        Tile { solid: false, explode: false, destructible: false },
    ];
    Tileset::new(tiles, 96)
}

fn grid_at(x: i32, fill: usize) -> Tilemap {
    let map: Vec<usize> = vec![fill; 16 * 8];
    Tilemap::new(Vec2i(x, 0), (16, 8), catalog(), map).unwrap()
}

#[test]
fn scrolling_recycles_trailing_grids_without_gap_or_overlap() {
    // four grids of world-width 512 (tile size 32, 16 columns)
    let mut maps = vec![grid_at(0, 0), grid_at(512, 1), grid_at(1024, 0), grid_at(1536, 1)];
    let mut cam: i32 = 0;
    while cam <= 5000 {
        let recycles = maps[0].position.0 + 512 < cam;
        let last_pos = maps[maps.len() - 1].position.0;
        let first_map = maps[0].map.clone();
        scroll::update_tilemaps(Vec2i(cam, 0), &mut maps, false, 0, TileID(1), TileID(0));
        assert_eq!(maps.len(), 4);
        if recycles {
            // the trailing grid reappears exactly at the leading edge,
            // content verbatim
            assert_eq!(maps[3].position.0, last_pos + 512);
            assert_eq!(maps[3].map, first_map);
        }
        // no gap and no overlap after every advance
        for j in 0..3 {
            assert_eq!(
                maps[j].position.0 + (16 * TILE_SZ) as i32,
                maps[j + 1].position.0
            );
        }
        cam += 7;
    }
    // the window followed the camera across the sweep
    assert!(maps[0].position.0 > 2500);
}

#[test]
fn obstacle_recycling_generates_fresh_content() {
    let mut maps = vec![grid_at(0, 2), grid_at(512, 2)];
    scroll::update_tilemaps(Vec2i(600, 0), &mut maps, true, 0, TileID(1), TileID(0));
    assert_eq!(maps.len(), 2);
    assert_eq!(maps[1].position.0, 1024);
    assert!(maps[1].map.iter().all(|&id| id == TileID(1) || id == TileID(0)));
}

#[test]
fn obstacle_density_falls_three_points_per_level_to_a_floor() {
    assert_eq!(scroll::refill_numerator(0), 97);
    assert_eq!(scroll::refill_numerator(1), 94);
    assert_eq!(scroll::refill_numerator(10), 67);
    assert_eq!(scroll::refill_numerator(32), 1);
    assert_eq!(scroll::refill_numerator(100), 1);
}

#[test]
fn tile_collision_detonates_an_explosive_tile() {
    // an explosive tile under the bottom-middle probe, a destructible row
    // below it: the cascade reaches all three probed cells underneath
    let tiles = vec![
        Tile { solid: false, explode: false, destructible: true },
        Tile { solid: false, explode: true, destructible: true },
        Tile { solid: false, explode: false, destructible: false },
    ];
    let ts = Tileset::new(tiles, 96);
    let map: Vec<usize> = vec![
        0, 1, 0, //
        0, 0, 0, //
    ];
    let mut maps = vec![Tilemap::new(Vec2i(0, 0), (3, 2), ts, map).unwrap()];
    // the player stands so that its bottom probes land on the explosive cell
    let mut player = sprite_at(32, -16, 0, 0);
    let hit = game::tile_collision(&mut player, &mut maps, TileID(2));
    assert!(!hit);
    // the explosive cell and the three probed cells below it all change
    assert_eq!(maps[0].map[1], TileID(2));
    assert_eq!(maps[0].map[3], TileID(2));
    assert_eq!(maps[0].map[4], TileID(2));
    assert_eq!(maps[0].map[5], TileID(2));
    assert_eq!(maps[0].map[0], TileID(0));
    assert_eq!(maps[0].map[2], TileID(0));
}

#[test]
fn tile_map_at_picks_the_first_containing_grid() {
    let maps = vec![grid_at(0, 0), grid_at(512, 0)];
    assert_eq!(scroll::tile_map_at(Vec2i(100, 10), &maps), Some(0));
    assert_eq!(scroll::tile_map_at(Vec2i(600, 10), &maps), Some(1));
    // the shared edge belongs to the earlier grid
    assert_eq!(scroll::tile_map_at(Vec2i(512, 10), &maps), Some(0));
    assert_eq!(scroll::tile_map_at(Vec2i(-1, 10), &maps), None);
    assert_eq!(scroll::tile_map_at(Vec2i(100, 300), &maps), None);
}

#[test]
fn maps_to_draw_lists_each_visible_grid_once() {
    let maps = vec![grid_at(0, 0), grid_at(512, 0), grid_at(1024, 0)];
    // a screen straddling the first two grids
    assert_eq!(scroll::maps_to_draw(Vec2i(500, 0), 512, 256, &maps), vec![0, 1]);
    // a screen inside one grid
    assert_eq!(scroll::maps_to_draw(Vec2i(0, 0), 400, 200, &maps), vec![0]);
}

#[test]
fn draw_commands_cull_to_the_visible_window() {
    let map: Vec<usize> = vec![0; 4 * 2];
    let t = Tilemap::new(Vec2i(0, 0), (4, 2), catalog(), map).unwrap();
    let cmds = t.draw_commands(Rect { x: 0, y: 0, w: 32, h: 32 });
    // two columns (one of padding) by two rows are visible
    assert_eq!(cmds.len(), 4);
    assert_eq!(cmds[0].1, Vec2i(0, 0));
    assert_eq!(cmds[3].1, Vec2i(32, 32));
    // a viewport far away draws nothing
    let none = t.draw_commands(Rect { x: 4000, y: 0, w: 32, h: 32 });
    assert!(none.is_empty());
}

#[test]
fn tile_collision_digs_under_the_bottom_probes() {
    // a 2x2 grid of passable tiles under the player's feet
    let map: Vec<usize> = vec![0, 0, 0, 0];
    let mut maps = vec![Tilemap::new(Vec2i(0, 0), (2, 2), catalog(), map).unwrap()];
    let mut player = sprite_at(0, 0, 0, 0);
    let hit = game::tile_collision(&mut player, &mut maps, TileID(2));
    assert!(!hit);
    assert_eq!(player.rect.x, 0);
    assert_eq!(player.rect.y, 0);
    // the bottom probes land in the lower-left cell and dig it out
    assert_eq!(maps[0].map, vec![TileID(0), TileID(0), TileID(2), TileID(0)]);
}

#[test]
fn tile_collision_pushes_out_of_a_solid_tile() {
    // a solid tile to the right of the player, at the mid-height probe
    let map: Vec<usize> = vec![0, 1, 0, 0];
    let mut maps = vec![Tilemap::new(Vec2i(0, 0), (2, 2), catalog(), map).unwrap()];
    let mut player = sprite_at(0, 0, 0, 0);
    let hit = game::tile_collision(&mut player, &mut maps, TileID(2));
    assert!(hit);
    assert_eq!(player.rect.x, 2);
    assert_eq!(player.rect.y, 0);
}

fn sprite_at(x: i32, y: i32, vx: i32, vy: i32) -> Sprite {
    let frames = Rect::create_frames(0, 4, 32, 32);
    let anim = Animation::new(frames, vec![5, 5, 5, 5], true);
    Sprite::new(anim, AnimationState::new(), Rect { x, y, w: 32, h: 32 }, vx, vy)
}

#[test]
fn looping_animation_wraps_and_finite_animation_finishes() {
    let mut s = sprite_at(0, 0, 1, 0);
    for _ in 0..19 {
        s.tick_forward();
    }
    assert_eq!(s.animation_state.current_tick, 19);
    s.tick_forward();
    // duration 20, looping: the tick wraps to zero
    assert_eq!(s.animation_state.current_tick, 0);
    assert!(!s.animation_state.done);

    let frames = Rect::create_frames(0, 2, 32, 32);
    let anim = Animation::new(frames, vec![2, 1], false);
    let mut f = Sprite::new(anim, AnimationState::new(), Rect { x: 0, y: 0, w: 32, h: 32 }, 0, 0);
    for _ in 0..4 {
        f.tick_forward();
    }
    assert!(f.animation_state.done);
    assert_eq!(f.animation_state.current_tick, 4);
}

#[test]
fn current_frame_walks_the_timings() {
    let frames = Rect::create_frames(3, 7, 32, 32);
    assert_eq!(frames.len(), 7);
    assert_eq!(frames[2], Rect { x: 64, y: 96, w: 32, h: 32 });
    let anim = Animation::new(frames.clone(), vec![5, 5, 5, 5], true);
    assert_eq!(anim.duration, 20);
    assert_eq!(anim.current_frame(0), frames[0]);
    assert_eq!(anim.current_frame(6), frames[1]);
    assert_eq!(anim.current_frame(11), frames[2]);
    // past every timing: the last frame stays up
    assert_eq!(anim.current_frame(100), frames[6]);
}

#[test]
fn on_screen_tracks_the_camera() {
    let s = sprite_at(60, 112, 1, 0);
    assert!(s.on_screen(Vec2i(0, 0), 256, 512));
    assert!(!s.on_screen(Vec2i(200, 0), 256, 512));
    assert!(!s.on_screen(Vec2i(0, 400), 256, 512));
}

#[test]
fn camera_follows_the_player_edges() {
    let mut cam = Vec2i(0, 0);
    game::update_camera(Rect { x: 100, y: 50, w: 32, h: 32 }, &mut cam, 2, 512, 256);
    assert_eq!(cam, Vec2i(0, 0));
    game::update_camera(Rect { x: 2, y: 2, w: 32, h: 32 }, &mut cam, 2, 512, 256);
    assert_eq!(cam, Vec2i(-2, -2));
    let mut cam2 = Vec2i(0, 0);
    game::update_camera(Rect { x: 490, y: 230, w: 32, h: 32 }, &mut cam2, 3, 512, 256);
    assert_eq!(cam2, Vec2i(3, 3));
}

#[test]
fn scroll_camera_slides_along_the_axis() {
    let mut cam = Vec2i(10, 5);
    game::scroll_camera(&mut cam, 3);
    assert_eq!(cam, Vec2i(13, 5));
}

#[test]
fn new_level_speeds_everything_up() {
    let mut level: usize = 0;
    let mut speed: i32 = 2;
    let mut player = sprite_at(0, 0, 4, 0);
    game::new_level(&mut level, &mut speed, &mut player, 1);
    assert_eq!(level, 1);
    assert_eq!(speed, 3);
    assert_eq!(player.vx, 5);
}

#[test]
fn background_slides_until_the_image_ends() {
    let mut b = Background::new(514, 512, 256);
    assert_eq!(b.frame.x, 0);
    b.tick_right(512);
    assert_eq!(b.frame.x, 1);
    b.tick_right(512);
    assert_eq!(b.frame.x, 2);
    // 2 + 512 is not under 514: the backdrop stops
    b.tick_right(512);
    assert_eq!(b.frame.x, 2);
}

#[test]
fn glyph_positions_walk_the_ascii_sheet() {
    let font = Font {};
    assert_eq!(font.char_to_pos(' '), Rect { x: 0, y: 0, w: 16, h: 16 });
    assert_eq!(font.char_to_pos('a'), Rect { x: 16, y: 64, w: 16, h: 16 });
    // a first-column glyph wraps to the row's far end
    assert_eq!(font.char_to_pos('/'), Rect { x: 240, y: 0, w: 16, h: 16 });
}

#[test]
fn text_measures_one_cell_per_character() {
    let t = Text::new(Font {}, "hello", Vec2i(75, 50));
    assert_eq!(t.length, 80);
    assert_eq!(t.message, "hello");
    assert_eq!(t.pos, Vec2i(75, 50));
}
