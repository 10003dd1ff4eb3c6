use maze_game::grid_coord::GridCoord;
use maze_game::save_format::format_coords;
use maze_game::save_format::insert_wall_coord;
use maze_game::save_format::missing_coords;
use maze_game::save_format::parse_coords;

#[test]
fn test_format_coords() {
    let coords = vec![GridCoord::new(3, 7), GridCoord::new(10, 0), GridCoord::new(250, 41)];
    assert_eq!(format_coords(&coords), "3,7 10,0 250,41 ");
    assert_eq!(format_coords(&vec![]), "");
}

#[test]
fn test_parse_coords() {
    let parsed = parse_coords("3,7 10,0 250,41 ").unwrap();
    assert_eq!(
        parsed,
        vec![GridCoord::new(3, 7), GridCoord::new(10, 0), GridCoord::new(250, 41)]
    );
}

#[test]
fn test_parse_coords_round_trip() {
    let coords = vec![
        GridCoord::new(0, 0),
        GridCoord::new(4294967295, 1),
        GridCoord::new(12, 3456),
    ];
    let text = format_coords(&coords);
    assert_eq!(parse_coords(&text), Some(coords));
}

#[test]
fn test_parse_coords_extra_whitespace() {
    let parsed = parse_coords("  1,2 \n 3,4\t").unwrap();
    assert_eq!(parsed, vec![GridCoord::new(1, 2), GridCoord::new(3, 4)]);
    assert_eq!(parse_coords(""), Some(vec![]));
    assert_eq!(parse_coords("   "), Some(vec![]));
}

#[test]
fn test_parse_coords_rejects_bad_tokens() {
    // no comma
    assert_eq!(parse_coords("12"), None);
    // a second comma lands in the digits of the second number
    assert_eq!(parse_coords("1,2,3"), None);
    // not a digit
    assert_eq!(parse_coords("1,a"), None);
    assert_eq!(parse_coords("-1,2"), None);
    // missing halves
    assert_eq!(parse_coords(",2"), None);
    assert_eq!(parse_coords("1,"), None);
    // too large for a u32
    assert_eq!(parse_coords("4294967296,0"), None);
    // one bad token spoils the file
    assert_eq!(parse_coords("1,2 oops 3,4"), None);
}

#[test]
fn test_missing_coords() {
    let parsed = vec![GridCoord::new(1, 1), GridCoord::new(2, 2), GridCoord::new(3, 3)];
    let existing = vec![GridCoord::new(2, 2)];
    assert_eq!(
        missing_coords(&parsed, &existing),
        vec![GridCoord::new(1, 1), GridCoord::new(3, 3)]
    );
    assert_eq!(missing_coords(&parsed, &parsed), vec![]);
}

#[test]
fn test_insert_wall_coord() {
    let mut blocked = vec![GridCoord::new(1, 1)];
    assert!(insert_wall_coord(&mut blocked, GridCoord::new(2, 2)));
    assert_eq!(blocked, vec![GridCoord::new(1, 1), GridCoord::new(2, 2)]);
    // a coordinate already on the list is not added twice
    assert!(!insert_wall_coord(&mut blocked, GridCoord::new(1, 1)));
    assert_eq!(blocked, vec![GridCoord::new(1, 1), GridCoord::new(2, 2)]);
}

#[test]
fn test_grid_coord_ops() {
    let a = GridCoord::new(5, 9);
    let b = GridCoord::from((2, 4));
    let d = a.sub(b);
    assert_eq!(d, GridCoord::new(3, 5));
    assert_eq!(GridCoord::default(), GridCoord::new(0, 0));
}
