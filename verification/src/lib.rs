//! Game scenario asset generator: a tile-grid terrain model with a
//! slope-limited elevation cascade, a selection algebra for addressing
//! grid regions, plain entity records (players, units, resources) with
//! byte-exact serialization, and a scenario encoder that assembles the
//! whole binary file (a plaintext header followed by a deflated body).

pub mod bytes;
pub mod fbits;
pub mod map;
pub mod player;
pub mod scenario;
pub mod selection;
pub mod trigger;
pub mod unit;
pub mod world;

pub use map::MapTile;
pub use map::TileMap;
pub use player::BaseResources;
pub use player::Player;
pub use scenario::EncodeError;
pub use scenario::ScenHeader;
pub use scenario::ScenImage;
pub use scenario::ScenMessages;
pub use selection::Coordinate;
pub use selection::Rectangle;
pub use selection::Selection;
pub use trigger::Trigger;
pub use trigger::TriggerCondition;
pub use trigger::TriggerEffect;
pub use unit::Unit;
pub use world::World;
