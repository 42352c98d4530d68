use tile_engine::entity::{Dir, Enemy};
use tile_engine::geom::{Rect, Vec2};
use tile_engine::level::Level;

fn load(text: &[u8]) -> Level {
    Level::from_str(text).expect("level text must parse")
}

/// 3 x 3 level whose center tile (storage cell (1, 1)) is the only solid
/// one. Its world footprint spans x in 16..32 and y in 16..32.
fn center_solid() -> Level {
    load(
        b"arena 3 3\n\
          ====\n\
          . o 0 0 16 16\n\
          # s 16 0 16 16\n\
          ====\n\
          . . .\n\
          . # .\n\
          . . .\n\
          ====\n",
    )
}

#[test]
fn rect_inside_open_tile_meets_no_solid_and_stays_put() {
    let level = center_solid();
    // Strictly inside the open cell at storage (0, 2): world x 0..16, y 0..16.
    let r = Rect { x: 3, y: 4, w: 8, h: 8 };
    let tiles = level.tiles_within(r);
    assert_eq!(tiles.len(), 1);
    assert!(!tiles[0].1.solid);
    assert_eq!(level.check_collision_with_walls(r), Vec2 { x: 0, y: 0 });
}

#[test]
fn smaller_overlap_axis_wins() {
    let level = center_solid();
    // Entity 16 x 16 left of and below the solid tile: overlaps it by
    // 2 px horizontally and 5 px vertically, so the correction is
    // horizontal, magnitude 2, pushing the entity further left.
    let r = Rect { x: 2, y: 5, w: 16, h: 16 };
    let mut solid_overlaps: u32 = 0;
    for (trect, tdata) in level.tiles_within(r) {
        if tdata.solid && r.overlap(trect).is_some() {
            solid_overlaps += 1;
            assert_eq!(r.overlap(trect), Some(Vec2 { x: 2, y: 5 }));
        }
    }
    assert_eq!(solid_overlaps, 1);
    assert_eq!(level.check_collision_with_walls(r), Vec2 { x: -2, y: 0 });
}

#[test]
fn displacement_pushes_toward_entity_center() {
    let level = center_solid();
    // Mirrored: entity right of the solid tile, same overlap extents,
    // so the push goes right.
    let r = Rect { x: 46 - 16, y: 5, w: 16, h: 16 };
    assert_eq!(level.check_collision_with_walls(r), Vec2 { x: 2, y: 0 });
}

#[test]
fn vertical_axis_wins_when_smaller() {
    let level = center_solid();
    // Overlaps 5 px horizontally and 2 px vertically: vertical wins,
    // pushing down.
    let r = Rect { x: 5, y: 2, w: 16, h: 16 };
    assert_eq!(level.check_collision_with_walls(r), Vec2 { x: 0, y: -2 });
}

#[test]
fn displacements_accumulate_over_tiles() {
    // Left column solid over two rows; an entity two tiles tall
    // overlapping that column by 3 px is pushed out by both tiles.
    let level = load(
        b"wall 2 2\n\
          ====\n\
          # s 0 0 16 16\n\
          . o 16 0 16 16\n\
          ====\n\
          # .\n\
          # .\n\
          ====\n",
    );
    let r = Rect { x: 13, y: 0, w: 16, h: 32 };
    assert_eq!(level.check_collision_with_walls(r), Vec2 { x: 6, y: 0 });
}

#[test]
fn far_away_rect_sees_no_tiles() {
    let level = center_solid();
    let r = Rect { x: 1000, y: 1000, w: 16, h: 16 };
    assert_eq!(level.tiles_within(r).len(), 0);
    assert_eq!(level.check_collision_with_walls(r), Vec2 { x: 0, y: 0 });
    let r2 = Rect { x: -1000, y: -1000, w: 16, h: 16 };
    assert_eq!(level.tiles_within(r2).len(), 0);
}

#[test]
fn tiles_within_reports_world_rects() {
    let level = center_solid();
    // Exactly the center cell's interior.
    let r = Rect { x: 17, y: 17, w: 10, h: 10 };
    let tiles = level.tiles_within(r);
    assert_eq!(tiles.len(), 1);
    assert_eq!(tiles[0].0, Rect { x: 16, y: 16, w: 16, h: 16 });
    assert!(tiles[0].1.solid);
}

#[test]
fn tile_at_present_inside_absent_outside() {
    let level = center_solid();
    for x in 0..3usize {
        for y in 0..3usize {
            assert!(level.get_tile(x, y).is_some());
        }
    }
    assert!(level.get_tile(3, 0).is_none());
    assert!(level.get_tile(0, 3).is_none());
    assert!(level.get_tile(usize::MAX, 0).is_none());
}

#[test]
fn grid_world_conversions_invert_each_other() {
    let level = center_solid();
    for x in 0..3usize {
        for y in 0..3usize {
            let w = level.grid_to_world((x, y));
            assert_eq!(level.world_to_grid(w), Some((x, y)));
            // Anywhere inside the cell's footprint maps back too.
            let inner = Vec2 { x: w.x + 15, y: w.y + 15 };
            assert_eq!(level.world_to_grid(inner), Some((x, y)));
        }
    }
    // Storage row 0 is topmost: its world y is the highest band.
    assert_eq!(level.grid_to_world((0, 0)), Vec2 { x: 0, y: 32 });
    assert_eq!(level.grid_to_world((2, 2)), Vec2 { x: 32, y: 0 });
}

#[test]
fn world_to_grid_rejects_outside_points() {
    let level = center_solid();
    assert_eq!(level.world_to_grid(Vec2 { x: -1, y: 0 }), None);
    assert_eq!(level.world_to_grid(Vec2 { x: 0, y: -1 }), None);
    assert_eq!(level.world_to_grid(Vec2 { x: 48, y: 0 }), None);
    assert_eq!(level.world_to_grid(Vec2 { x: 0, y: 48 }), None);
}

#[test]
fn open_spaces_lists_non_solid_cells_row_major() {
    let level = load(
        b"room1 3 2\n\
          ====\n\
          . o 0 0 16 16\n\
          # s 16 0 16 16\n\
          ====\n\
          . . #\n\
          # . .\n\
          ====\n",
    );
    assert_eq!(
        level.get_open_spaces(),
        vec![(0, 0), (1, 0), (1, 1), (2, 1)]
    );
}

#[test]
fn player_start_finds_first_player_record() {
    let level = load(
        b"lvl 0 0\n\
          ====\n\
          ====\n\
          ====\n\
          enemy 9 9\n\
          player 3 4\n\
          player 5 6\n",
    );
    assert_eq!(level.player_start(), Some(Vec2 { x: 3, y: 4 }));
    let empty = load(b"lvl 0 0\n====\n====\n====\n");
    assert_eq!(empty.player_start(), None);
}

#[test]
fn spawn_lists_split_doors_and_enemies() {
    let level = load(
        b"lvl 0 0\n\
          ====\n\
          ====\n\
          ====\n\
          player 1 1\n\
          door shop 2 3 4 5\n\
          enemy 6 7\n\
          enemy 8 9\n",
    );
    let (doors, enemies) = level.spawn_lists();
    assert_eq!(doors.len(), 1);
    assert_eq!(doors[0].0.as_slice(), b"shop");
    assert_eq!(doors[0].1, (2, 3));
    assert_eq!(doors[0].2, Vec2 { x: 4, y: 5 });
    assert_eq!(enemies.len(), 2);
    assert_eq!(enemies[0].pos, Vec2 { x: 6, y: 200 });
    assert_eq!(enemies[1].pos, Vec2 { x: 8, y: 200 });
    assert!(!enemies[0].dead);
}

#[test]
fn enemy_rect_and_death() {
    let mut e = Enemy { pos: Vec2 { x: 100, y: 50 }, dir: Dir::W, dead: false };
    assert_eq!(e.rect(), Rect { x: 88, y: 42, w: 24, h: 8 });
    e.die();
    assert!(e.dead);
    assert_eq!(e.rect(), Rect { x: 0, y: 0, w: 0, h: 0 });
}

#[test]
fn dir_unit_vectors() {
    assert_eq!(Dir::N.to_vec2(), Vec2 { x: 0, y: 1 });
    assert_eq!(Dir::E.to_vec2(), Vec2 { x: 1, y: 0 });
    assert_eq!(Dir::S.to_vec2(), Vec2 { x: 0, y: -1 });
    assert_eq!(Dir::W.to_vec2(), Vec2 { x: -1, y: 0 });
}

#[test]
fn rect_overlap_extents() {
    let a = Rect { x: 0, y: 0, w: 16, h: 16 };
    let b = Rect { x: 10, y: 12, w: 16, h: 16 };
    assert_eq!(a.overlap(b), Some(Vec2 { x: 6, y: 4 }));
    let c = Rect { x: 16, y: 0, w: 16, h: 16 };
    assert_eq!(a.overlap(c), None);
    let d = Rect { x: 40, y: 40, w: 16, h: 16 };
    assert_eq!(a.overlap(d), None);
}
