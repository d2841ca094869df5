use hanoi::HanoiError;
use hanoi::LineOutcome;
use hanoi::ParsedCommand;
use hanoi::PegId;
use hanoi::TowerOfHanoi;

fn pegs(game: &TowerOfHanoi) -> (Vec<usize>, Vec<usize>, Vec<usize>) {
    (
        game.towers.a.clone(),
        game.towers.b.clone(),
        game.towers.c.clone(),
    )
}

#[test]
fn initial_state_stacks_everything_on_a() {
    let game = TowerOfHanoi::new(3);
    assert_eq!(game.size, 3);
    assert_eq!(game.towers.a, vec![3, 2, 1]);
    assert_eq!(game.towers.b, Vec::<usize>::new());
    assert_eq!(game.towers.c, Vec::<usize>::new());
}

#[test]
fn initial_state_of_other_sizes() {
    let game = TowerOfHanoi::new(5);
    assert_eq!(game.towers.a, vec![5, 4, 3, 2, 1]);
    let game = TowerOfHanoi::new(0);
    assert_eq!(game.towers.a, Vec::<usize>::new());
}

#[test]
fn reference_scenario_with_three_disks() {
    let mut game = TowerOfHanoi::new(3);

    assert_eq!(game.process_line("A>C"), LineOutcome::Applied);
    assert_eq!(pegs(&game), (vec![3, 2], vec![], vec![1]));

    assert_eq!(game.process_line("A>B"), LineOutcome::Applied);
    assert_eq!(pegs(&game), (vec![3], vec![2], vec![1]));

    assert_eq!(game.process_line("C>B"), LineOutcome::Applied);
    assert_eq!(pegs(&game), (vec![3], vec![2, 1], vec![]));

    assert_eq!(game.process_line("A>C"), LineOutcome::Applied);
    assert_eq!(pegs(&game), (vec![], vec![2, 1], vec![3]));

    assert_eq!(game.process_line("B>C"), LineOutcome::Applied);
    assert_eq!(pegs(&game), (vec![], vec![2], vec![3, 1]));

    assert_eq!(
        game.process_line("B>C"),
        LineOutcome::Rejected(HanoiError::IllegalMoveError {
            moving: 2,
            blocking: 1
        })
    );
    assert_eq!(pegs(&game), (vec![], vec![2], vec![3, 1]));
}

#[test]
fn quit_sentinel_terminates_without_moving() {
    let mut game = TowerOfHanoi::new(3);
    assert_eq!(game.process_line("X"), LineOutcome::Quit);
    assert_eq!(pegs(&game), (vec![3, 2, 1], vec![], vec![]));
    assert_eq!(game.process_line("x"), LineOutcome::Quit);
    assert_eq!(pegs(&game), (vec![3, 2, 1], vec![], vec![]));
}

#[test]
fn malformed_line_is_rejected_and_state_kept() {
    let mut game = TowerOfHanoi::new(3);
    assert_eq!(
        game.process_line("AC"),
        LineOutcome::Rejected(HanoiError::MalformedCommandError)
    );
    assert_eq!(pegs(&game), (vec![3, 2, 1], vec![], vec![]));
    assert_eq!(
        game.process_line(""),
        LineOutcome::Rejected(HanoiError::MalformedCommandError)
    );
    assert_eq!(pegs(&game), (vec![3, 2, 1], vec![], vec![]));
}

#[test]
fn unknown_source_peg_is_rejected() {
    let mut game = TowerOfHanoi::new(3);
    assert_eq!(
        game.process_line("D>A"),
        LineOutcome::Rejected(HanoiError::InvalidPegIdentifier)
    );
    assert_eq!(pegs(&game), (vec![3, 2, 1], vec![], vec![]));
}

#[test]
fn unknown_destination_peg_restores_the_lifted_disk() {
    let mut game = TowerOfHanoi::new(3);
    assert_eq!(
        game.process_line("A>D"),
        LineOutcome::Rejected(HanoiError::InvalidPegIdentifier)
    );
    assert_eq!(pegs(&game), (vec![3, 2, 1], vec![], vec![]));
}

#[test]
fn empty_source_peg_is_rejected() {
    let mut game = TowerOfHanoi::new(3);
    assert_eq!(
        game.process_line("B>A"),
        LineOutcome::Rejected(HanoiError::EmptyPegError)
    );
    assert_eq!(pegs(&game), (vec![3, 2, 1], vec![], vec![]));
}

#[test]
fn empty_source_is_reported_before_bad_destination() {
    let mut game = TowerOfHanoi::new(3);
    assert_eq!(
        game.process_line("B>D"),
        LineOutcome::Rejected(HanoiError::EmptyPegError)
    );
    assert_eq!(pegs(&game), (vec![3, 2, 1], vec![], vec![]));
}

#[test]
fn illegal_move_names_both_disks() {
    let mut game = TowerOfHanoi::new(3);
    assert_eq!(game.process_line("A>C"), LineOutcome::Applied);
    assert_eq!(
        game.process_line("A>C"),
        LineOutcome::Rejected(HanoiError::IllegalMoveError {
            moving: 2,
            blocking: 1
        })
    );
    assert_eq!(pegs(&game), (vec![3, 2], vec![], vec![1]));
}

#[test]
fn lowercase_identifiers_are_accepted() {
    let mut game = TowerOfHanoi::new(3);
    assert_eq!(game.process_line("a>c"), LineOutcome::Applied);
    assert_eq!(pegs(&game), (vec![3, 2], vec![], vec![1]));
}

#[test]
fn moving_a_disk_onto_its_own_peg_changes_nothing() {
    let mut game = TowerOfHanoi::new(3);
    assert_eq!(game.process_line("A>A"), LineOutcome::Applied);
    assert_eq!(pegs(&game), (vec![3, 2, 1], vec![], vec![]));
}

#[test]
fn apply_move_rejects_missing_pegs() {
    let mut game = TowerOfHanoi::new(2);
    assert_eq!(
        game.apply_move(None, Some(PegId::A)),
        Err(HanoiError::InvalidPegIdentifier)
    );
    assert_eq!(
        game.apply_move(Some(PegId::A), None),
        Err(HanoiError::InvalidPegIdentifier)
    );
    assert_eq!(pegs(&game), (vec![2, 1], vec![], vec![]));
}

#[test]
fn apply_move_relocates_the_top_disk() {
    let mut game = TowerOfHanoi::new(2);
    assert_eq!(game.apply_move(Some(PegId::A), Some(PegId::B)), Ok(()));
    assert_eq!(pegs(&game), (vec![2], vec![1], vec![]));
    assert_eq!(game.apply_move(Some(PegId::A), Some(PegId::C)), Ok(()));
    assert_eq!(pegs(&game), (vec![], vec![1], vec![2]));
    assert_eq!(game.apply_move(Some(PegId::B), Some(PegId::C)), Ok(()));
    assert_eq!(pegs(&game), (vec![], vec![], vec![2, 1]));
}

#[test]
fn parse_line_recognises_moves_quit_and_noise() {
    assert_eq!(
        hanoi::game::parse_line("A>C"),
        ParsedCommand::Move {
            src: Some(PegId::A),
            dst: Some(PegId::C),
        }
    );
    assert_eq!(
        hanoi::game::parse_line("b>a"),
        ParsedCommand::Move {
            src: Some(PegId::B),
            dst: Some(PegId::A),
        }
    );
    assert_eq!(hanoi::game::parse_line("X"), ParsedCommand::Quit);
    assert_eq!(hanoi::game::parse_line("x"), ParsedCommand::Quit);
    assert_eq!(hanoi::game::parse_line("AC"), ParsedCommand::Malformed);
    assert_eq!(hanoi::game::parse_line(""), ParsedCommand::Malformed);
    assert_eq!(hanoi::game::parse_line("xx"), ParsedCommand::Malformed);
    assert_eq!(
        hanoi::game::parse_line("A>B>C"),
        ParsedCommand::Move {
            src: Some(PegId::A),
            dst: Some(PegId::B),
        }
    );
    assert_eq!(
        hanoi::game::parse_line("AB>C"),
        ParsedCommand::Move {
            src: None,
            dst: Some(PegId::C),
        }
    );
    assert_eq!(
        hanoi::game::parse_line("A>"),
        ParsedCommand::Move {
            src: Some(PegId::A),
            dst: None,
        }
    );
    assert_eq!(
        hanoi::game::parse_line(">C"),
        ParsedCommand::Move {
            src: None,
            dst: Some(PegId::C),
        }
    );
    assert_eq!(
        hanoi::game::parse_line(">"),
        ParsedCommand::Move {
            src: None,
            dst: None,
        }
    );
}

#[test]
fn quit_sentinel_must_stand_alone() {
    let mut game = TowerOfHanoi::new(3);
    assert_eq!(
        game.process_line("X>A"),
        LineOutcome::Rejected(HanoiError::InvalidPegIdentifier)
    );
    assert_eq!(pegs(&game), (vec![3, 2, 1], vec![], vec![]));
}
