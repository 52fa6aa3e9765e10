use sokoban::parse::parse_map;
use sokoban::{parse_level, Board, Crate, Direction, MovableItem};

fn chars(s: &str) -> Vec<char> {
    s.chars().collect()
}

/// A one-row corridor `..X` with the player at the left end and one crate in
/// the middle.
fn corridor_board() -> Board {
    parse_level("..X\n\n0,0\n\n1,0").unwrap()
}

/// The board invariants, checked from the outside through the public
/// accessors: crates pairwise distinct, the player on no crate, and the
/// player and every crate on crossable ground.
fn invariant_holds(board: &Board) -> bool {
    let crates = board.crates();
    let player = board.player();
    for (k, c) in crates.iter().enumerate() {
        for other in &crates[k + 1..] {
            if c.pos() == other.pos() {
                return false;
            }
        }
        if c.pos() == player {
            return false;
        }
        if !board.get(c.pos().0, c.pos().1).1.is_crossable() {
            return false;
        }
    }
    board.get(player.0, player.1).1.is_crossable()
}

#[test]
fn scenario_wall_above_blocks_up() {
    let grid = parse_map(&chars("##\n#.\n##")).unwrap();
    let mut board = Board::new(grid, (1, 1), vec![]);
    assert_eq!(board.do_move_player(Direction::Up), None);
    assert_eq!(board.player(), (1, 1));
}

#[test]
fn scenario_push_crate_onto_target_wins() {
    let mut board = corridor_board();
    assert!(!board.has_won());
    let outcome = board.do_move_player(Direction::Right);
    assert_eq!(outcome, Some(Some(0)));
    assert_eq!(board.player(), (1, 0));
    assert_eq!(board.crates()[0].pos(), (2, 0));
    assert!(board.has_won());
}

#[test]
fn scenario_second_crate_blocks_push() {
    let mut board = parse_level("....\n\n0,0\n\n1,0\n2,0").unwrap();
    assert_eq!(board.do_move_player(Direction::Right), None);
    assert_eq!(board.player(), (0, 0));
    assert_eq!(board.crates()[0].pos(), (1, 0));
    assert_eq!(board.crates()[1].pos(), (2, 0));
}

#[test]
fn boundary_moves_clamp_at_zero() {
    let grid = parse_map(&chars("..\n..")).unwrap();
    let mut board = Board::new(grid, (0, 0), vec![]);
    assert_eq!(board.do_move_player(Direction::Left), Some(None));
    assert_eq!(board.player(), (0, 0));
    assert_eq!(board.do_move_player(Direction::Up), Some(None));
    assert_eq!(board.player(), (0, 0));
}

#[test]
fn boundary_push_against_edge_is_blocked() {
    let grid = parse_map(&chars("..\n..")).unwrap();
    let mut board = Board::new(grid, (1, 0), vec![Crate::new(0, 0)]);
    assert_eq!(board.do_move_player(Direction::Left), None);
    assert_eq!(board.player(), (1, 0));
    assert_eq!(board.crates()[0].pos(), (0, 0));
}

#[test]
fn win_flips_off_when_crate_leaves_target() {
    let mut board = parse_level("XX.\n\n0,0\n\n1,0").unwrap();
    assert!(board.has_won());
    assert_eq!(board.do_move_player(Direction::Right), Some(Some(0)));
    assert!(!board.has_won());
}

#[test]
fn win_requires_every_crate_on_a_target() {
    let board = parse_level("XX.\n\n2,0\n\n0,0\n1,0").unwrap();
    assert!(board.has_won());
    let board = parse_level("XX..\n\n3,0\n\n0,0\n2,0").unwrap();
    assert!(!board.has_won());
}

#[test]
fn reset_restores_the_parsed_layout_and_is_idempotent() {
    let mut board = corridor_board();
    board.do_move_player(Direction::Right);
    assert_eq!(board.player(), (1, 0));
    board.reset();
    assert_eq!(board.player(), (0, 0));
    assert_eq!(board.crates()[0].pos(), (1, 0));
    let player_once = board.player();
    let crates_once: Vec<Crate> = board.crates().to_vec();
    board.reset();
    assert_eq!(board.player(), player_once);
    assert_eq!(board.crates().to_vec(), crates_once);
}

#[test]
fn invariants_hold_through_moves_and_resets() {
    let level = "  #####
###...#
#X....#
###..X#
#X##..#
#.#.X.##
#..X..X#
#...X..#
########

4,1

4,2
5,2";
    let mut board = parse_level(level).unwrap();
    assert!(invariant_holds(&board));
    let moves = [
        Direction::Down,
        Direction::Down,
        Direction::Left,
        Direction::Right,
        Direction::Up,
        Direction::Right,
        Direction::Down,
        Direction::Left,
        Direction::Up,
        Direction::Up,
    ];
    for d in moves {
        board.do_move_player(d);
        assert!(invariant_holds(&board));
    }
    board.reset();
    assert!(invariant_holds(&board));
    for d in moves {
        board.do_move_player(d);
        assert!(invariant_holds(&board));
    }
}

#[test]
fn get_reports_terrain_and_occupants() {
    let board = corridor_board();
    let elem = board.get(0, 0);
    assert_eq!(elem.0, Some(MovableItem::Player));
    assert!(elem.1.is_crossable());
    let elem = board.get(1, 0);
    assert_eq!(elem.0, Some(MovableItem::Crate(0)));
    let elem = board.get(2, 0);
    assert_eq!(elem.0, None);
    assert_eq!(elem.1, sokoban::CellKind::Target);
    let elem = board.get(7, 7);
    assert_eq!(elem.0, None);
    assert_eq!(elem.1, sokoban::CellKind::Void);
}

#[test]
fn board_dimensions_come_from_the_map() {
    let board = corridor_board();
    assert_eq!(board.width(), 3);
    assert_eq!(board.height(), 1);
}

#[test]
fn directions_step_one_cell_and_clamp() {
    assert_eq!(Direction::default(), Direction::Down);
    assert_eq!(Direction::Up.to_coords(5, 0), (5, 0));
    assert_eq!(Direction::Left.to_coords(0, 7), (0, 7));
    assert_eq!(Direction::Left.to_coords(4, 7), (3, 7));
    assert_eq!(Direction::Right.to_coords(1, 2), (2, 2));
    assert_eq!(Direction::Up.to_coords(1, 2), (1, 1));
    assert_eq!(Direction::Down.to_coords(1, 2), (1, 3));
}

#[test]
fn crates_move_and_report_placement() {
    let mut c = Crate::new(3, 4);
    assert_eq!(c.pos(), (3, 4));
    c.do_move(2, 0);
    assert_eq!(c.pos(), (2, 0));
    let board = corridor_board();
    assert!(Crate::new(2, 0).is_placed(&board));
    assert!(!Crate::new(1, 0).is_placed(&board));
}
