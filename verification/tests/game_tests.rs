use sokoban::{apply_action, parse_level, Action, Direction, StepOutcome};

#[test]
fn quit_changes_nothing() {
    let mut board = parse_level("..X\n\n0,0\n\n1,0").unwrap();
    assert_eq!(apply_action(&mut board, Action::Quit), StepOutcome::Quit);
    assert_eq!(board.player(), (0, 0));
    assert_eq!(board.crates()[0].pos(), (1, 0));
}

#[test]
fn reset_action_restores_the_layout() {
    let mut board = parse_level("...X\n\n0,0\n\n1,0").unwrap();
    apply_action(&mut board, Action::Movement(Direction::Right));
    assert_eq!(board.player(), (1, 0));
    assert_eq!(
        apply_action(&mut board, Action::ResetLevel),
        StepOutcome::Reset
    );
    assert_eq!(board.player(), (0, 0));
    assert_eq!(board.crates()[0].pos(), (1, 0));
}

#[test]
fn winning_push_ends_the_game() {
    let mut board = parse_level("..X\n\n0,0\n\n1,0").unwrap();
    assert_eq!(
        apply_action(&mut board, Action::Movement(Direction::Right)),
        StepOutcome::Won(Some(Some(0)))
    );
    assert!(board.has_won());
}

#[test]
fn ordinary_moves_continue_the_game() {
    let mut board = parse_level("...X\n\n0,0\n\n1,0").unwrap();
    assert_eq!(
        apply_action(&mut board, Action::Movement(Direction::Right)),
        StepOutcome::Moved(Some(Some(0)))
    );
    assert_eq!(
        apply_action(&mut board, Action::Movement(Direction::Down)),
        StepOutcome::Moved(None)
    );
    assert_eq!(
        apply_action(&mut board, Action::Movement(Direction::Up)),
        StepOutcome::Moved(Some(None))
    );
}
