use mckalah::game::{Board, Player};
use mckalah::policy::mcts::{rate_greater, Stats};
use mckalah::policy::{HumanPolicy, MctsPolicy, Policy, RandomPolicy};
use rand::rngs::SmallRng;
use rand::SeedableRng;

fn rng(seed: u64) -> SmallRng {
    SmallRng::seed_from_u64(seed)
}

fn leaf_under(t: &MctsPolicy, mut i: usize) -> usize {
    while !t.is_leaf(i) {
        let kids = t.children(i);
        let mut pick = kids[0];
        for &c in kids.iter() {
            if t.stats(c).visits < t.stats(pick).visits {
                pick = c;
            }
        }
        i = pick;
    }
    i
}

fn check_counts(t: &MctsPolicy) {
    for i in 0..t.len() {
        let s = t.stats(i);
        assert!(s.wins + s.loses <= s.visits);
        let kids = t.children(i);
        let below: u64 = kids.iter().map(|&c| t.stats(c).visits).sum();
        assert!(below <= s.visits);
    }
}

#[test]
fn fresh_tree_is_one_leaf() {
    let t = MctsPolicy::new(3, rng(1));
    assert_eq!(t.len(), 1);
    assert_eq!(t.root(), 0);
    assert!(t.is_leaf(0));
    assert_eq!(t.node(0).board, Board::new(3));
    assert_eq!(t.node(0).parent_player, Player::Second);
}

#[test]
fn sync_on_start_expands_root() {
    let mut t = MctsPolicy::new(3, rng(2));
    t.descend_game_tree(&Board::new(3));
    assert_eq!(t.root(), 0);
    assert_eq!(t.children(0).len(), 6);
    let next = Board::new(3).next_states();
    for (k, &c) in t.children(0).iter().enumerate() {
        assert_eq!(t.node(c).board, next[k]);
        assert_eq!(t.node(c).parent_player, Player::First);
        assert!(t.is_leaf(c));
    }
}

#[test]
fn reachability_of_boards() {
    let t = MctsPolicy::new(3, rng(3));
    let start = Board::new(3);
    assert!(t.is_reachable(&start));
    let mut one = start;
    one.apply_move(mckalah::game::Move(4));
    assert!(t.is_reachable(&one));
    let mut far = start;
    far.apply_move(mckalah::game::Move(0));
    far.apply_move(mckalah::game::Move(0));
    assert!(!t.is_reachable(&far));
}

#[test]
fn sync_to_a_child_without_search() {
    let mut t = MctsPolicy::new(3, rng(10));
    let mut one = Board::new(3);
    one.apply_move(mckalah::game::Move(1));
    t.descend_game_tree(&one);
    let r = t.root();
    assert_eq!(t.node(r).board, one);
    assert_eq!(t.children(r).len(), one.possible_moves().len());
    for i in 0..t.len() {
        assert_eq!(t.stats(i).visits, 0);
    }
}

#[test]
fn search_keeps_counts_consistent() {
    let mut t = MctsPolicy::new(3, rng(4));
    t.descend_game_tree(&Board::new(3));
    for _ in 0..200 {
        let leaf = leaf_under(&t, t.root());
        t.search_iteration(leaf);
        check_counts(&t);
    }
    assert_eq!(t.stats(t.root()).visits, 200);
}

#[test]
fn search_iteration_counts_up_the_chain() {
    let mut t = MctsPolicy::new(3, rng(5));
    t.descend_game_tree(&Board::new(3));
    let c = t.children(0)[2];
    let w = t.search_iteration(c);
    assert_eq!(t.stats(c).visits, 1);
    assert_eq!(t.stats(0).visits, 1);
    let pp = t.node(c).parent_player;
    let s = t.stats(c);
    let w = w.expect("a playout always ends with a winner");
    if w == pp {
        assert_eq!((s.wins, s.loses), (1, 0));
    } else {
        assert_eq!((s.wins, s.loses), (0, 1));
    }
    assert!(!t.is_leaf(c));
    assert_eq!(t.stats(t.children(0)[0]).visits, 0);
}

#[test]
fn advancing_root_keeps_child_statistics() {
    let mut t = MctsPolicy::new(3, rng(6));
    t.descend_game_tree(&Board::new(3));
    for _ in 0..120 {
        let leaf = leaf_under(&t, t.root());
        t.search_iteration(leaf);
    }
    let c = t.children(0)[3];
    let before = t.stats(c);
    assert!(before.visits > 0);
    let board = t.node(c).board;
    t.descend_game_tree(&board);
    assert_eq!(t.root(), c);
    let after = t.stats(c);
    assert_eq!((after.visits, after.wins, after.loses), (before.visits, before.wins, before.loses));
}

#[test]
fn finish_turn_picks_best_rate() {
    let mut t = MctsPolicy::new(3, rng(7));
    t.descend_game_tree(&Board::new(3));
    for _ in 0..300 {
        let leaf = leaf_under(&t, t.root());
        t.search_iteration(leaf);
    }
    let kids: Vec<usize> = t.children(0).clone();
    let chosen = t.finish_turn();
    let c = t.root();
    assert!(kids.contains(&c));
    assert_eq!(t.node(c).board, chosen);
    for &k in &kids {
        assert!(!rate_greater(t.stats(k), t.stats(c)));
    }
}

#[test]
fn win_rate_comparison() {
    let unvisited = Stats { visits: 0, wins: 0, loses: 0 };
    let sure = Stats { visits: 2, wins: 2, loses: 0 };
    let even = Stats { visits: 4, wins: 1, loses: 1 };
    let lost = Stats { visits: 3, wins: 0, loses: 3 };
    assert!(rate_greater(sure, unvisited));
    assert!(!rate_greater(unvisited, even));
    assert!(!rate_greater(even, unvisited));
    assert!(rate_greater(even, lost));
    assert!(!rate_greater(lost, unvisited));
    let third = Stats { visits: 3, wins: 2, loses: 0 };
    let half = Stats { visits: 4, wins: 3, loses: 1 };
    assert!(rate_greater(third, half));
}

#[test]
fn random_policy_plays_a_legal_move() {
    let mut p = RandomPolicy::new(rng(9));
    let b = Board::new(3);
    let next = p.play(&b);
    assert!(b.next_states().contains(&next));
    p.on_opponents_move(&next);
}

#[test]
fn human_line_is_trimmed_and_checked() {
    let h = HumanPolicy;
    let b = Board::new(3);
    let mut expected = b;
    expected.apply_move(mckalah::game::Move(2));
    assert_eq!(h.respond(&b, "  3\n"), Some(expected));
    assert_eq!(h.respond(&b, "9\n"), None);
    assert_eq!(h.respond(&b, "three"), None);
    let empty = Board {
        holes: [0, 1, 0, 0, 0, 0, 0, 1, 1, 1, 1, 1, 1, 0],
        player: Player::First,
    };
    assert_eq!(h.respond(&empty, "1"), None);
    assert!(h.respond(&empty, " 2 ").is_some());
    assert!(h.respond(&empty, "\u{3000}\t2\u{a0}\r\n").is_some());
    assert_eq!(h.respond(&empty, "2 2"), None);
}
