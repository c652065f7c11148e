use net15::game::game_loop;
use net15::game::Game;
use net15::game::MoveOutcome;
use net15::game::Status;
use net15::game::StepOutcome;

#[test]
fn fresh_game_state() {
    let g = Game::new();
    assert!(g.in_progress());
    assert_eq!(g.available_numbers(), vec![1, 2, 3, 4, 5, 6, 7, 8, 9]);
    assert!(g.human_numbers().is_empty());
    assert!(g.opponent_numbers().is_empty());
}

#[test]
fn immediate_human_win() {
    // The human claims 9, then 5, then 1; the opponent's replies stay clear
    // of both a win and those numbers.
    let mut g = Game::new();
    assert!(matches!(g.human_move(9), MoveOutcome::Continue));
    assert!(matches!(g.opponent_move(2), MoveOutcome::Continue));
    assert!(matches!(g.human_move(5), MoveOutcome::Continue));
    assert!(matches!(g.opponent_move(3), MoveOutcome::Continue));
    match g.human_move(1) {
        MoveOutcome::Win(t) => assert_eq!(t.elements(), vec![1, 5, 9]),
        _ => panic!("the human should have won"),
    }
    assert_eq!(g.current_status(), Status::HumanWon);
}

#[test]
fn opponent_can_win_too() {
    let mut g = Game::new();
    assert!(matches!(g.human_move(1), MoveOutcome::Continue));
    assert!(matches!(g.opponent_move(9), MoveOutcome::Continue));
    assert!(matches!(g.human_move(3), MoveOutcome::Continue));
    assert!(matches!(g.opponent_move(4), MoveOutcome::Continue));
    assert!(matches!(g.human_move(6), MoveOutcome::Continue));
    match g.opponent_move(2) {
        MoveOutcome::Win(t) => assert_eq!(t.elements(), vec![2, 4, 9]),
        _ => panic!("the opponent should have won with 2 + 4 + 9"),
    }
    assert_eq!(g.current_status(), Status::OpponentWon);
}

#[test]
fn unavailable_choice_is_rejected() {
    let mut g = Game::new();
    assert!(matches!(g.human_move(9), MoveOutcome::Continue));
    assert!(matches!(g.opponent_move(2), MoveOutcome::Continue));
    // claimed by the human
    assert!(matches!(g.human_move(9), MoveOutcome::Unavailable));
    // claimed by the opponent
    assert!(matches!(g.human_move(2), MoveOutcome::Unavailable));
    // outside 1..9, hence never available
    assert!(matches!(g.human_move(17), MoveOutcome::Unavailable));
    assert_eq!(g.human_numbers(), vec![9]);
    assert_eq!(g.opponent_numbers(), vec![2]);
    assert_eq!(g.available_numbers(), vec![1, 3, 4, 5, 6, 7, 8]);
    assert!(g.in_progress());
}

#[test]
fn draw_fills_the_board() {
    // The human takes 1..5 (its largest triple sums to 12), the opponent
    // 6..9 (its smallest triple sums to 21): nobody reaches 15.
    let mut g = Game::new();
    assert!(matches!(g.human_move(1), MoveOutcome::Continue));
    assert!(matches!(g.opponent_move(6), MoveOutcome::Continue));
    assert!(matches!(g.human_move(2), MoveOutcome::Continue));
    assert!(matches!(g.opponent_move(7), MoveOutcome::Continue));
    assert!(matches!(g.human_move(3), MoveOutcome::Continue));
    assert!(matches!(g.opponent_move(8), MoveOutcome::Continue));
    assert!(matches!(g.human_move(4), MoveOutcome::Continue));
    assert!(matches!(g.opponent_move(9), MoveOutcome::Continue));
    assert!(matches!(g.human_move(5), MoveOutcome::Drawn));
    assert_eq!(g.current_status(), Status::Drawn);
    assert!(g.available_numbers().is_empty());
}

#[test]
fn pools_partition_the_nine_numbers() {
    // Whatever has been claimed, the three pools together are exactly
    // {1..9}, with nothing duplicated and nothing lost.
    let mut g = Game::new();
    assert!(matches!(g.human_move(4), MoveOutcome::Continue));
    assert!(matches!(g.opponent_move(8), MoveOutcome::Continue));
    assert!(matches!(g.human_move(2), MoveOutcome::Continue));
    let mut all: Vec<u64> = Vec::new();
    all.extend(g.available_numbers());
    all.extend(g.human_numbers());
    all.extend(g.opponent_numbers());
    all.sort();
    assert_eq!(all, vec![1, 2, 3, 4, 5, 6, 7, 8, 9]);
}

#[test]
fn turn_accounting() {
    // An accepted move moves exactly one number; a rejected one moves none.
    let mut g = Game::new();
    assert!(matches!(g.human_move(4), MoveOutcome::Continue));
    assert_eq!(g.available_numbers().len(), 8);
    assert_eq!(g.human_numbers().len(), 1);
    assert_eq!(g.opponent_numbers().len(), 0);
    assert!(matches!(g.human_move(4), MoveOutcome::Unavailable));
    assert_eq!(g.available_numbers().len(), 8);
    assert_eq!(g.human_numbers().len(), 1);
    assert_eq!(g.opponent_numbers().len(), 0);
    assert!(matches!(g.opponent_move(6), MoveOutcome::Continue));
    assert_eq!(g.available_numbers().len(), 7);
    assert_eq!(g.human_numbers().len(), 1);
    assert_eq!(g.opponent_numbers().len(), 1);
}

#[test]
fn bad_input_then_valid_move() {
    let mut g = Game::new();
    let before = g.available_numbers();
    assert!(matches!(g.step(b"abc"), StepOutcome::BadChoice));
    assert_eq!(g.available_numbers(), before);
    assert!(g.human_numbers().is_empty());
    assert!(g.opponent_numbers().is_empty());
    match g.step(b"9") {
        StepOutcome::BadChoice | StepOutcome::Unavailable => panic!("9 is a valid move"),
        _ => {},
    }
    assert!(g.human_numbers().contains(&9));
}

#[test]
fn step_rejects_unavailable_number() {
    let mut g = Game::new();
    match g.step(b"5\n") {
        StepOutcome::Continue { choice } => {
            assert!((1..=9).contains(&choice) && choice != 5);
        },
        StepOutcome::BadChoice | StepOutcome::Unavailable => panic!("5 is available"),
        _ => panic!("the game cannot end on the first turn"),
    }
    assert!(matches!(g.step(b"5\n"), StepOutcome::Unavailable));
    assert_eq!(g.human_numbers(), vec![5]);
}

#[test]
fn full_session_reaches_a_terminal_state() {
    // Feeding the lowest available number every turn must end the game
    // within its nine numbers, whatever the opponent draws.
    let mut g = Game::new();
    let mut turns: u32 = 0;
    while g.in_progress() {
        assert!(turns < 9, "a game cannot outlast its nine numbers");
        let n = g.available_numbers()[0];
        let line = format!("{}\n", n);
        match g.step(line.as_bytes()) {
            StepOutcome::BadChoice | StepOutcome::Unavailable => {
                panic!("a number from the available list must be accepted")
            },
            _ => {},
        }
        turns += 1;
    }
    assert_ne!(g.current_status(), Status::InProgress);
}

#[test]
fn game_loop_processes_lines() {
    let lines: Vec<Vec<u8>> = vec![b"abc".to_vec(), b"1\n".to_vec()];
    let (g, outs) = game_loop(&lines);
    assert_eq!(outs.len(), 2);
    assert!(matches!(outs[0], StepOutcome::BadChoice));
    assert!(g.human_numbers().contains(&1));
}

#[test]
fn game_loop_accepts_at_most_five_moves() {
    // Offered every number in turn, the session ends within the nine
    // numbers; at most five offers are accepted, the rest of the lines
    // are either unavailable retries or never read.
    let lines: Vec<Vec<u8>> = (1..=9u64).map(|n| format!("{}\n", n).into_bytes()).collect();
    let (g, outs) = game_loop(&lines);
    let accepted = outs
        .iter()
        .filter(|o| !matches!(o, StepOutcome::BadChoice | StepOutcome::Unavailable))
        .count();
    assert!(accepted <= 5);
    if outs.len() < lines.len() {
        assert_ne!(g.current_status(), Status::InProgress);
    }
}
