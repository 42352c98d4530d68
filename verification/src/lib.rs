//! A tile-based 2D game core: a level-definition loader and a tile-grid
//! collision engine.
//!
//! The library has three parts. `grid` holds a dense row-major array of small
//! tile ids with bounds-checked access. `level` parses the textual level
//! format (metadata, legend, map and starts sections separated by `=` lines)
//! into an immutable [`Level`]. `collide` answers the spatial queries a
//! simulation tick makes against a loaded level: point lookup, the tiles
//! within a world-space rectangle, and the minimum-translation displacement
//! that pushes an entity out of solid terrain.
//!
//! World coordinates are integer pixels. Storage row 0 is the visually
//! topmost map row, while world-space y grows upward, so world/grid
//! conversions flip the row index; both directions live in `collide` so
//! rendering and collision cannot disagree.

use vstd::prelude::*;

pub mod collide;
pub mod entity;
pub mod geom;
pub mod grid;
pub mod level;
pub mod lex;
pub mod serial;

verus! {

/// Side length of one square tile, in world pixels.
pub const TILE_SZ: usize = 16;

/// Source rectangle of a tile's image inside the texture atlas, in atlas
/// pixels.
#[derive(Clone, Copy, Debug, PartialEq, Eq, Structural)]
pub struct SheetRect {
    pub x: u16,
    pub y: u16,
    pub w: u16,
    pub h: u16,
}

/// Static terrain data of one legend entry: whether the tile blocks movement,
/// and where its image sits in the atlas.
#[derive(Clone, Copy, Debug, PartialEq, Eq, Structural)]
pub struct TileData {
    pub solid: bool,
    pub sheet_region: SheetRect,
}

/// The kind of dynamic entity a level's starts section places, together with
/// a door's destination: level name and grid cell in the destination level.
#[derive(Debug, PartialEq, Eq)]
pub enum EntityType {
    Player,
    Enemy,
    Door(Vec<u8>, u16, u16),
    Gold,
}

/// Mathematical image of [`EntityType`]: the door name as a byte sequence.
pub enum EntityTypeView {
    Player,
    Enemy,
    Door(Seq<u8>, u16, u16),
    Gold,
}

impl View for EntityType {
    type V = EntityTypeView;

    open spec fn view(&self) -> EntityTypeView {
        match self {
            EntityType::Player => EntityTypeView::Player,
            EntityType::Enemy => EntityTypeView::Enemy,
            EntityType::Door(name, x, y) => EntityTypeView::Door(name@, *x, *y),
            EntityType::Gold => EntityTypeView::Gold,
        }
    }
}

/// How an animation's playback clock maps onto its frame timeline once it
/// passes the end: stop, wrap around, or bounce back and forth.
#[derive(Clone, Copy, Debug, PartialEq, Eq, Structural)]
pub enum RepeatMode {
    OneShot,
    Loop,
    PingPong,
}

} // verus!
