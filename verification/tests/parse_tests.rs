use sokoban::{parse_level, Board, LevelParseError, MapError};

fn expect_err(r: Result<Board, LevelParseError>) -> LevelParseError {
    match r {
        Err(e) => e,
        Ok(_) => panic!("expected a parse failure"),
    }
}

#[test]
fn empty_source_is_missing_map() {
    assert_eq!(expect_err(parse_level("")), LevelParseError::MissingMap);
    assert_eq!(expect_err(parse_level("\n\n\n\n")), LevelParseError::MissingMap);
}

#[test]
fn source_without_player_block() {
    assert_eq!(expect_err(parse_level("##")), LevelParseError::MissingPlayerCoordinates);
}

#[test]
fn source_without_crates_block() {
    assert_eq!(expect_err(parse_level("##\n\n0,0")), LevelParseError::MissingCratesCoordinates);
}

#[test]
fn foreign_symbol_fails_the_map() {
    assert_eq!(expect_err(parse_level("#z\n\n0,0\n\n1,1")), LevelParseError::CantParseMap(MapError::UnknownSymbol('z')));
}

#[test]
fn malformed_player_line_is_reported_with_its_text() {
    assert_eq!(expect_err(parse_level("##\n\nfoo\n\n1,1")), LevelParseError::CantParsePlayerCoordinates(String::from(
            "foo"
        )));
    assert_eq!(expect_err(parse_level("##\n\n1\n\n1,1")), LevelParseError::CantParsePlayerCoordinates(String::from(
            "1"
        )));
}

#[test]
fn malformed_crate_line_is_reported_with_its_text() {
    assert_eq!(expect_err(parse_level("##\n\n1,1\n\n3,x")), LevelParseError::CantParseCrateCoordinates(String::from(
            "3,x"
        )));
}

#[test]
fn parses_a_small_level() {
    let board = parse_level("..X\n\n0,0\n\n1,0").unwrap();
    assert_eq!(board.player(), (0, 0));
    assert_eq!(board.crates().len(), 1);
    assert_eq!(board.crates()[0].pos(), (1, 0));
    assert_eq!(board.width(), 3);
    assert_eq!(board.height(), 1);
}

#[test]
fn coordinates_accept_the_full_u32_range_and_no_more() {
    let board = parse_level("#\n\n4294967295,0\n\n0,0").unwrap();
    assert_eq!(board.player(), (4294967295, 0));
    assert_eq!(expect_err(parse_level("#\n\n4294967296,0\n\n0,0")), LevelParseError::CantParsePlayerCoordinates(String::from(
            "4294967296,0"
        )));
}

#[test]
fn extra_coordinate_fields_are_ignored() {
    let board = parse_level("#\n\n1,2,9\n\n0,0").unwrap();
    assert_eq!(board.player(), (1, 2));
}

#[test]
fn crates_block_may_end_with_a_newline() {
    let board = parse_level("#\n\n0,0\n\n1,2\n").unwrap();
    assert_eq!(board.crates().len(), 1);
    assert_eq!(board.crates()[0].pos(), (1, 2));
}

#[test]
fn crates_keep_their_file_order() {
    let board = parse_level("....\n\n0,0\n\n3,0\n1,0\n2,0").unwrap();
    assert_eq!(board.crates()[0].pos(), (3, 0));
    assert_eq!(board.crates()[1].pos(), (1, 0));
    assert_eq!(board.crates()[2].pos(), (2, 0));
}
