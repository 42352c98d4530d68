use tile_engine::level::Level;

fn reparse(level: &Level) -> Level {
    let text = level.to_text();
    match Level::from_str(text.as_slice()) {
        Ok(l) => l,
        Err(e) => panic!("written level text failed to parse: {:?}", e),
    }
}

fn assert_same(a: &Level, b: &Level) {
    assert_eq!(a.name(), b.name());
    assert_eq!(a.grid_width(), b.grid_width());
    assert_eq!(a.grid_height(), b.grid_height());
    assert_eq!(a.grid.data, b.grid.data);
    assert_eq!(a.tileset.tiles, b.tileset.tiles);
    assert_eq!(a.starts(), b.starts());
}

#[test]
fn round_trip_example_level() {
    let level = Level::from_str(
        b"room1 3 2\n\
          ====\n\
          . o 0 0 16 16\n\
          # s 16 0 16 16\n\
          ====\n\
          . . #\n\
          # . .\n\
          ====\n\
          player 1 1\n",
    )
    .expect("level must parse");
    let again = reparse(&level);
    assert_same(&level, &again);
}

#[test]
fn round_trip_all_start_kinds() {
    let level = Level::from_str(
        b"hall 2 2\n\
          ====\n\
          . o 3 4 16 16\n\
          # s 5 6 16 16\n\
          w S 7 8 9 10\n\
          ====\n\
          . #\n\
          w .\n\
          ====\n\
          player 0 1\n\
          door shop 1 0 15 14\n\
          enemy 65535 0\n",
    )
    .expect("level must parse");
    let again = reparse(&level);
    assert_same(&level, &again);
    // A second trip is already stable.
    assert_same(&again, &reparse(&again));
}

#[test]
fn round_trip_empty_level() {
    let level = Level::from_str(b"void 0 0\n====\n====\n====\n").expect("level must parse");
    let again = reparse(&level);
    assert_same(&level, &again);
}

#[test]
fn written_text_is_plain_level_text() {
    let level = Level::from_str(
        b"tiny 1 1\n====\n. o 1 2 3 4\n====\n.\n====\nplayer 0 0\n",
    )
    .expect("level must parse");
    let text = level.to_text();
    let s = String::from_utf8(text).expect("writer emits ASCII");
    assert_eq!(
        s,
        "tiny 1 1 \n====\nt0 o 1 2 3 4 \n====\nt0 \n====\nplayer 0 0 \n"
    );
}
