use sokoban::parse::parse_map;
use sokoban::CellKind::{Floor, Target, Void, Wall};
use sokoban::{CellKind, Grid};

const TEST_MAP_STR: &str = "  #####
###...#
#X....#
###..X#
#X##..#
#.#.X.##
#..X..X#
#...X..#
########";

const WIDTH: u32 = 8;
const HEIGHT: u32 = 9;

fn chars(s: &str) -> Vec<char> {
    s.chars().collect()
}

fn test_map() -> Grid {
    Grid::from_cells(
        WIDTH,
        HEIGHT,
        vec![
            Void, Void, Wall, Wall, Wall, Wall, Wall, Void, Wall, Wall, Wall, Floor, Floor,
            Floor, Wall, Void, Wall, Target, Floor, Floor, Floor, Floor, Wall, Void, Wall,
            Wall, Wall, Floor, Floor, Target, Wall, Void, Wall, Target, Wall, Wall, Floor,
            Floor, Wall, Void, Wall, Floor, Wall, Floor, Target, Floor, Wall, Wall, Wall,
            Floor, Floor, Target, Floor, Floor, Target, Wall, Wall, Floor, Floor, Floor,
            Target, Floor, Floor, Wall, Wall, Wall, Wall, Wall, Wall, Wall, Wall, Wall,
        ],
    )
    .unwrap()
}

fn parsed_map() -> Grid {
    parse_map(&chars(TEST_MAP_STR)).unwrap()
}

#[test]
fn it_gets_correct_width_height() {
    let parsed = parsed_map();
    assert_eq!(WIDTH, parsed.width(), "Didn't extract correct width.");
    assert_eq!(HEIGHT, parsed.height(), "Didn't extract correct height.");
}

#[test]
fn it_correctly_parses_map() {
    let reference = test_map();
    let parsed = parsed_map();
    assert_eq!(reference, parsed);
}

#[test]
fn it_correctly_parses_and_displays_map() {
    // In case of trailing space, but this does overcomplicate things (more error prone...).
    let displayed_map = parsed_map()
        .to_text()
        .lines()
        .map(|l| l.trim())
        .collect::<Vec<_>>()
        .join("\n");
    let orig_test_map_str = TEST_MAP_STR
        .lines()
        .map(|l| l.trim())
        .collect::<Vec<_>>()
        .join("\n");
    assert_eq!(displayed_map, orig_test_map_str);
}

#[test]
fn it_gets_a_cell_from_ref_map() {
    let map = test_map();

    assert_eq!(map.try_get(0, 0), Some(Void));
    assert_eq!(map.get(0, 0), Void);

    assert_eq!(map.try_get(0, 1), Some(Wall));
    assert_eq!(map.get(0, 1), Wall);

    assert_eq!(map.try_get(3, 1), Some(Floor));
    assert_eq!(map.get(3, 1), Floor);

    assert_eq!(map.try_get(1, 2), Some(Target));
    assert_eq!(map.get(1, 2), Target);

    // Outside range:
    assert_eq!(map.try_get(WIDTH + 10, 1), None);
    assert_eq!(map.get(WIDTH + 10, 1), Void);
}

#[test]
fn it_gets_a_cell_from_parsed_map() {
    let map = parsed_map();

    assert_eq!(map.try_get(0, 0), Some(Void));
    assert_eq!(map.get(0, 0), Void);

    assert_eq!(map.try_get(0, 1), Some(Wall));
    assert_eq!(map.get(0, 1), Wall);

    assert_eq!(map.try_get(3, 1), Some(Floor));
    assert_eq!(map.get(3, 1), Floor);

    assert_eq!(map.try_get(1, 2), Some(Target));
    assert_eq!(map.get(1, 2), Target);

    // Outside range:
    assert_eq!(map.try_get(WIDTH + 10, 1), None);
    assert_eq!(map.get(WIDTH + 10, 1), Void);
}

#[test]
fn map_round_trips_through_text() {
    let map = parsed_map();
    let text = map.to_text();
    let reparsed = parse_map(&chars(&text)).unwrap();
    assert_eq!(map, reparsed);
    assert_eq!(reparsed.width(), WIDTH);
    assert_eq!(reparsed.height(), HEIGHT);
}

#[test]
fn short_lines_pad_with_void() {
    let map = parse_map(&chars("##\n#")).unwrap();
    assert_eq!(map.width(), 2);
    assert_eq!(map.height(), 2);
    assert_eq!(map.get(0, 1), Wall);
    assert_eq!(map.get(1, 1), Void);
}

#[test]
fn new_map_is_all_void_and_rejects_huge_dimensions() {
    let map = Grid::new(2, 3).unwrap();
    assert_eq!(map.width(), 2);
    assert_eq!(map.height(), 3);
    assert_eq!(map.get(0, 0), Void);
    assert_eq!(map.get(1, 2), Void);
    assert_eq!(
        Grid::new(65536, 65536),
        Err(sokoban::MapError::InvalidDimensions)
    );
}

#[test]
fn cell_crossability() {
    assert!(Floor.is_crossable());
    assert!(Target.is_crossable());
    assert!(!Wall.is_crossable());
    assert!(!CellKind::Void.is_crossable());
}
