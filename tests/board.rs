use mckalah::game::{Board, Move, Player};

fn total(b: &Board) -> u32 {
    b.holes.iter().map(|&x| x as u32).sum()
}

#[test]
fn new_board_layout() {
    let b = Board::new(3);
    assert_eq!(b.holes, [3, 3, 3, 3, 3, 3, 0, 3, 3, 3, 3, 3, 3, 0]);
    assert_eq!(b.player(), Player::First);
    assert_eq!(total(&b), 36);
}

#[test]
fn player_other_flips() {
    assert_eq!(Player::First.other(), Player::Second);
    assert_eq!(Player::Second.other(), Player::First);
}

#[test]
fn opening_move_sows_and_rotates() {
    let mut b = Board::new(3);
    b.apply_move(Move(0));
    assert_eq!(b.holes, [3, 3, 3, 3, 3, 3, 0, 0, 4, 4, 4, 3, 3, 0]);
    assert_eq!(b.player(), Player::Second);
}

#[test]
fn capture_into_empty_last_house() {
    let mut b = Board {
        holes: [2, 0, 0, 0, 1, 0, 0, 4, 1, 1, 1, 1, 1, 0],
        player: Player::First,
    };
    b.apply_move(Move(4));
    // landing house 5 and its opposite 7 are emptied; the store gets 1 + 4,
    // and the board is turned round for the second player.
    assert_eq!(b.holes, [0, 1, 1, 1, 1, 1, 0, 2, 0, 0, 0, 0, 0, 5]);
    assert_eq!(b.player(), Player::Second);
}

#[test]
fn capture_after_a_lap_counts_stones_after_sowing() {
    // 13 stones from house 2 go round once and end back in house 2.
    let mut b = Board {
        holes: [1, 0, 13, 0, 0, 0, 0, 1, 1, 1, 1, 1, 1, 0],
        player: Player::First,
    };
    b.apply_move(Move(2));
    // house 2 gets the last stone (1), across is house 10 with 1 + 1 stones.
    assert_eq!(b.holes[13], 1 + 1 + 2);
    assert_eq!(b.player(), Player::Second);
    assert_eq!(total(&b), 20);
}

#[test]
fn no_capture_across_empty_house() {
    let mut b = Board {
        holes: [2, 0, 0, 0, 1, 0, 0, 0, 1, 1, 1, 1, 1, 0],
        player: Player::First,
    };
    b.apply_move(Move(4));
    assert_eq!(b.holes, [0, 1, 1, 1, 1, 1, 0, 2, 0, 0, 0, 0, 1, 0]);
}

#[test]
fn bonus_turn_keeps_mover() {
    let mut b = Board {
        holes: [1, 0, 0, 0, 0, 1, 0, 1, 1, 1, 1, 1, 1, 0],
        player: Player::Second,
    };
    b.apply_move(Move(5));
    assert_eq!(b.holes, [1, 0, 0, 0, 0, 0, 1, 1, 1, 1, 1, 1, 1, 0]);
    assert_eq!(b.player(), Player::Second);
}

#[test]
fn endgame_sweep_of_opponent_row() {
    let mut b = Board {
        holes: [0, 0, 0, 0, 0, 1, 4, 2, 0, 3, 0, 1, 0, 5],
        player: Player::First,
    };
    b.apply_move(Move(5));
    assert_eq!(b.holes, [0, 0, 0, 0, 0, 0, 5, 0, 0, 0, 0, 0, 0, 11]);
    assert_eq!(b.player(), Player::First);
    assert!(b.is_game_over());
    assert_eq!(b.winner(), Some(Player::Second));
}

#[test]
fn endgame_sweep_of_mover_row() {
    let mut b = Board {
        holes: [1, 0, 0, 0, 0, 2, 3, 0, 0, 0, 0, 4, 0, 6],
        player: Player::First,
    };
    b.apply_move(Move(0));
    // the last stone lands in empty house 1 across from house 11: the capture
    // takes the opponent's last stones, and the mover's row is swept.
    assert_eq!(b.holes, [0, 0, 0, 0, 0, 0, 10, 0, 0, 0, 0, 0, 0, 6]);
    assert_eq!(b.player(), Player::First);
    assert_eq!(b.winner(), Some(Player::First));
}

#[test]
fn winner_when_mover_ahead() {
    let b = Board {
        holes: [0, 0, 0, 0, 0, 0, 20, 0, 0, 0, 0, 0, 0, 16],
        player: Player::Second,
    };
    assert_eq!(b.winner(), Some(Player::Second));
}

#[test]
fn winner_tie_goes_to_mover() {
    let b = Board {
        holes: [0, 0, 0, 0, 0, 0, 18, 0, 0, 0, 0, 0, 0, 18],
        player: Player::First,
    };
    assert_eq!(b.winner(), Some(Player::First));
}

#[test]
fn winner_when_opponent_ahead() {
    let b = Board {
        holes: [0, 0, 0, 0, 0, 0, 10, 0, 0, 0, 0, 0, 0, 26],
        player: Player::First,
    };
    assert_eq!(b.winner(), Some(Player::Second));
}

#[test]
fn no_winner_before_the_end() {
    assert_eq!(Board::new(3).winner(), None);
    assert!(!Board::new(3).is_game_over());
}

#[test]
fn possible_moves_ascending_nonempty() {
    let b = Board {
        holes: [0, 2, 0, 5, 0, 1, 0, 1, 1, 1, 1, 1, 1, 0],
        player: Player::First,
    };
    let moves = b.possible_moves();
    assert_eq!(moves, vec![Move(1), Move(3), Move(5)]);
    for m in &moves {
        assert!(b.is_valid_move(*m));
    }
    assert!(!b.is_valid_move(Move(0)));
    assert!(!b.is_valid_move(Move(6)));
}

#[test]
fn next_states_follow_moves() {
    let b = Board::new(4);
    let next = b.next_states();
    let moves = b.possible_moves();
    assert_eq!(next.len(), 6);
    for (m, n) in moves.iter().zip(next.iter()) {
        let mut c = b;
        c.apply_move(*m);
        assert_eq!(&c, n);
    }
    assert_eq!(b, Board::new(4));
}

#[test]
fn stones_are_conserved_through_a_game() {
    let mut b = Board::new(4);
    let mut turns = 0;
    while !b.is_game_over() {
        let moves = b.possible_moves();
        let m = moves[turns % moves.len()];
        b.apply_move(m);
        assert_eq!(total(&b), 48);
        turns += 1;
    }
    let houses: u32 = b.holes[0..6].iter().chain(b.holes[7..13].iter()).map(|&x| x as u32).sum();
    assert_eq!(houses, 0);
}

#[test]
fn move_from_text() {
    assert_eq!(Move::from_text("3"), Some(Move(2)));
    assert_eq!(Move::from_text("1"), Some(Move(0)));
    assert_eq!(Move::from_text("6"), Some(Move(5)));
    assert_eq!(Move::from_text("+2"), Some(Move(1)));
    assert_eq!(Move::from_text("0"), None);
    assert_eq!(Move::from_text("7"), None);
    assert_eq!(Move::from_text(""), None);
    assert_eq!(Move::from_text("x"), None);
    assert_eq!(Move::from_text(" 3"), None);
    assert_eq!(Move::from_text("99999999999999999999999"), None);
}

#[test]
fn move_from_str() {
    assert_eq!("4".parse::<Move>(), Ok(Move(3)));
    assert_eq!("-1".parse::<Move>(), Err(()));
    assert_eq!("0".parse::<Move>(), Err(()));
    assert_eq!("7".parse::<Move>(), Err(()));
}

#[test]
fn displayed_move_reads_back() {
    for i in 0..6 {
        let text = format!("{}", Move(i).0 + 1);
        assert_eq!(text.parse::<Move>(), Ok(Move(i)));
    }
}
