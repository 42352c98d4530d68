use tile_engine::geom::Vec2;
use tile_engine::level::{Level, ParseError};
use tile_engine::EntityType;

fn parse_ok(text: &[u8]) -> Level {
    match Level::from_str(text) {
        Ok(level) => level,
        Err(e) => panic!("expected a level, got {:?}", e),
    }
}

fn parse_err(text: &[u8]) -> ParseError {
    match Level::from_str(text) {
        Ok(_) => panic!("expected an error"),
        Err(e) => e,
    }
}

#[test]
fn parses_example_level() {
    let level = parse_ok(
        b"room1 3 2\n\
          ====\n\
          . o 0 0 16 16\n\
          # s 16 0 16 16\n\
          ====\n\
          . . #\n\
          # . .\n\
          ====\n\
          player 1 1\n",
    );
    assert_eq!(level.name().as_slice(), b"room1");
    assert_eq!(level.grid_width(), 3);
    assert_eq!(level.grid_height(), 2);
    assert_eq!(level.grid.data, vec![0, 0, 1, 1, 0, 0]);
    let tile = level.get_tile(2, 0).expect("tile present");
    assert!(tile.solid);
    assert_eq!(level.starts().len(), 1);
    assert_eq!(level.starts()[0].0, EntityType::Player);
    assert_eq!(level.starts()[0].1, Vec2 { x: 1, y: 1 });
}

#[test]
fn legend_ids_follow_declaration_order() {
    let level = parse_ok(
        b"lvl 3 1\n\
          ====\n\
          a o 1 0 16 16\n\
          b s 2 0 16 16\n\
          c o 3 0 16 16\n\
          ====\n\
          c a b\n\
          ====\n",
    );
    assert_eq!(level.tileset.tiles.len(), 3);
    assert_eq!(level.tileset.tiles[0].sheet_region.x, 1);
    assert_eq!(level.tileset.tiles[1].sheet_region.x, 2);
    assert_eq!(level.tileset.tiles[2].sheet_region.x, 3);
    assert_eq!(level.grid.data, vec![2, 0, 1]);
}

#[test]
fn parse_is_deterministic() {
    let text: &[u8] = b"room1 2 1\n\
          ====\n\
          . o 0 0 16 16\n\
          ====\n\
          . .\n\
          ====\n\
          enemy 0 5\n";
    let a = parse_ok(text);
    let b = parse_ok(text);
    assert_eq!(a.name(), b.name());
    assert_eq!(a.grid.data, b.grid.data);
    assert_eq!(a.tileset.tiles, b.tileset.tiles);
    assert_eq!(a.starts(), b.starts());
}

#[test]
fn short_map_row_is_dimension_mismatch() {
    let e = parse_err(
        b"lvl 3 2\n\
          ====\n\
          . o 0 0 16 16\n\
          ====\n\
          . .\n\
          . . .\n\
          ====\n",
    );
    assert_eq!(e, ParseError::DimensionMismatch { line: 5 });
}

#[test]
fn long_map_row_is_dimension_mismatch() {
    let e = parse_err(
        b"lvl 2 1\n\
          ====\n\
          . o 0 0 16 16\n\
          ====\n\
          . . .\n\
          ====\n",
    );
    assert_eq!(e, ParseError::DimensionMismatch { line: 5 });
}

#[test]
fn missing_map_row_is_dimension_mismatch() {
    let e = parse_err(
        b"lvl 2 2\n\
          ====\n\
          . o 0 0 16 16\n\
          ====\n\
          . .\n\
          ====\n",
    );
    assert_eq!(e, ParseError::DimensionMismatch { line: 0 });
}

#[test]
fn unknown_map_symbol_names_symbol_and_line() {
    let e = parse_err(
        b"lvl 3 2\n\
          ====\n\
          . o 0 0 16 16\n\
          ====\n\
          . . .\n\
          . z .\n\
          ====\n",
    );
    assert_eq!(
        e,
        ParseError::UnknownSymbol { line: 6, symbol: b"z".to_vec() }
    );
}

#[test]
fn duplicate_legend_symbol_rejected() {
    let e = parse_err(
        b"lvl 1 1\n\
          ====\n\
          . o 0 0 16 16\n\
          . s 1 1 16 16\n\
          ====\n\
          .\n\
          ====\n",
    );
    assert_eq!(
        e,
        ParseError::DuplicateSymbol { line: 4, symbol: b".".to_vec() }
    );
}

#[test]
fn bad_legend_flag_rejected() {
    let e = parse_err(
        b"lvl 1 1\n\
          ====\n\
          . x 0 0 16 16\n\
          ====\n\
          .\n\
          ====\n",
    );
    assert_eq!(e, ParseError::Field { line: 3 });
}

#[test]
fn legend_flags_are_case_insensitive() {
    let level = parse_ok(
        b"lvl 2 1\n\
          ====\n\
          . O 0 0 16 16\n\
          # S 1 0 16 16\n\
          ====\n\
          . #\n\
          ====\n",
    );
    assert!(!level.tileset.tiles[0].solid);
    assert!(level.tileset.tiles[1].solid);
}

#[test]
fn non_numeric_width_rejected() {
    let e = parse_err(b"lvl abc 2\n====\n====\n====\n");
    assert_eq!(e, ParseError::Field { line: 1 });
}

#[test]
fn oversized_dimension_rejected() {
    assert_eq!(
        parse_err(b"lvl 65536 1\n====\n====\n====\n"),
        ParseError::Field { line: 1 }
    );
    let level = parse_ok(b"lvl 65535 0\n====\n====\n====\n");
    assert_eq!(level.grid_width(), 65535);
    assert_eq!(level.grid_height(), 0);
}

#[test]
fn second_metadata_line_rejected() {
    let e = parse_err(b"lvl 1 1\nother 2 2\n====\n====\n====\n");
    assert_eq!(e, ParseError::Structure { line: 2 });
}

#[test]
fn content_after_final_section_rejected() {
    let e = parse_err(
        b"lvl 0 0\n\
          ====\n\
          ====\n\
          ====\n\
          ====\n\
          stray\n",
    );
    assert_eq!(e, ParseError::Structure { line: 6 });
}

#[test]
fn missing_delimiters_rejected() {
    assert_eq!(
        parse_err(b"lvl 0 0\n"),
        ParseError::Structure { line: 0 }
    );
    assert_eq!(
        parse_err(b"lvl 0 0\n====\n====\n"),
        ParseError::Structure { line: 0 }
    );
}

#[test]
fn empty_input_rejected() {
    assert_eq!(parse_err(b""), ParseError::Structure { line: 0 });
}

#[test]
fn empty_legend_with_empty_grid_accepted() {
    let level = parse_ok(b"void 0 0\n====\n====\n====\n");
    assert_eq!(level.name().as_slice(), b"void");
    assert_eq!(level.grid.data.len(), 0);
    assert_eq!(level.tileset.tiles.len(), 0);
    assert_eq!(level.starts().len(), 0);
}

#[test]
fn blank_lines_ignored_everywhere() {
    let level = parse_ok(
        b"\nlvl 1 1\n\n\
          ====\n\
          \n\
          . o 0 0 16 16\n\
          ====\n\
          .\n\
          \n\
          ====\n\
          \n",
    );
    assert_eq!(level.grid.data, vec![0]);
}

#[test]
fn crlf_input_parses_like_lf() {
    let level = parse_ok(
        b"lvl 1 1\r\n====\r\n. o 0 0 16 16\r\n====\r\n.\r\n====\r\nplayer 0 0\r\n",
    );
    assert_eq!(level.name().as_slice(), b"lvl");
    assert_eq!(level.starts().len(), 1);
}

#[test]
fn door_start_parsed() {
    let level = parse_ok(
        b"hall 1 1\n\
          ====\n\
          . o 0 0 16 16\n\
          ====\n\
          .\n\
          ====\n\
          door shop 2 3 4 5\n\
          enemy 6 7\n",
    );
    let starts = level.starts();
    assert_eq!(starts.len(), 2);
    assert_eq!(starts[0].0, EntityType::Door(b"shop".to_vec(), 2, 3));
    assert_eq!(starts[0].1, Vec2 { x: 4, y: 5 });
    assert_eq!(starts[1].0, EntityType::Enemy);
    assert_eq!(starts[1].1, Vec2 { x: 6, y: 7 });
}

#[test]
fn unrecognized_entity_kind_rejected() {
    let e = parse_err(
        b"lvl 0 0\n\
          ====\n\
          ====\n\
          ====\n\
          dragon 1 1\n",
    );
    assert_eq!(
        e,
        ParseError::UnrecognizedEntityKind { line: 5, kind: b"dragon".to_vec() }
    );
}

#[test]
fn start_missing_coordinates_rejected() {
    assert_eq!(
        parse_err(b"lvl 0 0\n====\n====\n====\nplayer 1\n"),
        ParseError::Structure { line: 5 }
    );
    assert_eq!(
        parse_err(b"lvl 0 0\n====\n====\n====\nplayer 1 x\n"),
        ParseError::Field { line: 5 }
    );
}

#[test]
fn metadata_extra_tokens_ignored() {
    let level = parse_ok(b"lvl 0 0 trailing words\n====\n====\n====\n");
    assert_eq!(level.name().as_slice(), b"lvl");
}

#[test]
fn sprite_count_is_grid_area() {
    let level = parse_ok(
        b"lvl 3 2\n\
          ====\n\
          . o 0 0 16 16\n\
          ====\n\
          . . .\n\
          . . .\n\
          ====\n",
    );
    assert_eq!(level.sprite_count(), 6);
}
