pub mod animation;
pub mod background;
pub mod collision;
pub mod game;
pub mod obstacle;
pub mod random;
pub mod scroll;
pub mod sprite;
pub mod text;
pub mod tiles;
pub mod types;

pub use background::Background;
pub use collision::Collision;
pub use collision::Contact;
pub use collision::Mobile;
pub use collision::Wall;
pub use text::Font;
pub use text::Text;

pub use animation::Animation;
pub use animation::AnimationState;
pub use obstacle::Obstacle;
pub use obstacle::Obstacle2;
pub use obstacle::Terrain;
pub use sprite::Sprite;
pub use sprite::SpriteID;

pub use tiles::Tile;
pub use tiles::TileError;
pub use tiles::TileID;
pub use tiles::Tilemap;
pub use tiles::Tileset;
pub use tiles::TILE_SZ;
pub use types::Rect;
pub use types::Rgba;
pub use types::Vec2i;
