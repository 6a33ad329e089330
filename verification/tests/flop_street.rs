//! Walking the flop street of a solved tree.

use wizgto_solver::tree::{
    action_token, extended_path, extract_flop_nodes, token_string, Action, CacheNode, FlopReport,
    FlopWalk,
};

/// A small street: check or bet 50; after a check, check through or bet 75
/// (then fold or call); after a bet, fold, call or go all in for 400 (then
/// fold or call). Two hands.
fn report(history: &[usize]) -> FlopReport {
    let (player, actions) = match history {
        [] => (0, vec![Action::Check, Action::Bet(50)]),
        [0] => (1, vec![Action::Check, Action::Bet(75)]),
        [0, 1] => (0, vec![Action::Fold, Action::Call]),
        [1] => (1, vec![Action::Fold, Action::Call, Action::AllIn(400)]),
        [1, 2] => (0, vec![Action::Fold, Action::Call]),
        _ => return FlopReport::Closed,
    };
    let base = 100 * history.len() as u32 + 10 * history.last().copied().unwrap_or(0) as u32;
    let n = 2 * actions.len() as u32;
    FlopReport::Decision {
        player,
        actions,
        num_hands: 2,
        strategy: (0..n).map(|i| base + i).collect(),
        evs: (0..n).map(|i| 1000 + base + i).collect(),
    }
}

fn walked() -> (Vec<CacheNode>, Vec<Vec<usize>>) {
    let mut walk = FlopWalk::new(Vec::new());
    let mut visited = Vec::new();
    while let Some(history) = walk.next_history() {
        walk.visit(&report(&history));
        visited.push(history);
    }
    (extract_flop_nodes(walk), visited)
}

#[test]
fn a_walk_summarizes_every_decision_in_order() {
    let (nodes, visited) = walked();
    let paths: Vec<&str> = nodes.iter().map(|n| n.path.as_str()).collect();
    assert_eq!(paths, vec!["", "check", "check/bet:75", "bet:50", "bet:50/allin:400"]);
    let players: Vec<u8> = nodes.iter().map(|n| n.player).collect();
    assert_eq!(players, vec![0, 1, 0, 1, 0]);
    // Every position is visited once, decisions and closed ones alike.
    assert_eq!(visited.len(), 12);
    assert_eq!(visited[0], Vec::<usize>::new());
    assert_eq!(visited[1], vec![0]);
    assert_eq!(visited[2], vec![0, 0]);
    assert_eq!(visited[11], vec![1, 2, 1]);
}

#[test]
fn a_summary_holds_the_rows_of_the_tables() {
    let (nodes, _) = walked();
    let root = &nodes[0];
    assert_eq!(root.actions.len(), 2);
    assert_eq!(root.actions[0].action, "check");
    assert_eq!(root.actions[0].amount, None);
    assert_eq!(root.actions[0].freqs, vec![0, 1]);
    assert_eq!(root.actions[0].evs, vec![1000, 1001]);
    assert_eq!(root.actions[1].action, "bet");
    assert_eq!(root.actions[1].amount, Some(50));
    assert_eq!(root.actions[1].freqs, vec![2, 3]);
    assert_eq!(root.actions[1].evs, vec![1002, 1003]);
    let facing = &nodes[3];
    assert_eq!(facing.actions[2].action, "allin");
    assert_eq!(facing.actions[2].amount, Some(400));
    assert_eq!(facing.actions[2].freqs, vec![114, 115]);
}

#[test]
fn a_street_without_decision_has_no_summary() {
    let mut walk = FlopWalk::new(vec![3, 1]);
    assert_eq!(walk.next_history(), Some(vec![3, 1]));
    walk.visit(&FlopReport::Closed);
    assert_eq!(walk.next_history(), None);
    assert!(extract_flop_nodes(walk).is_empty());
}

#[test]
fn a_walk_can_begin_below_other_moves() {
    let mut walk = FlopWalk::new(vec![7]);
    walk.visit(&FlopReport::Decision {
        player: 1,
        actions: vec![Action::Fold, Action::Raise(20)],
        num_hands: 0,
        strategy: Vec::new(),
        evs: Vec::new(),
    });
    assert_eq!(walk.next_history(), Some(vec![7, 0]));
    walk.visit(&FlopReport::Closed);
    assert_eq!(walk.next_history(), Some(vec![7, 1]));
    walk.visit(&FlopReport::Closed);
    let nodes = extract_flop_nodes(walk);
    assert_eq!(nodes.len(), 1);
    assert_eq!(nodes[0].path, "");
    assert!(nodes[0].actions[1].freqs.is_empty());
}

#[test]
fn actions_have_words_and_amounts() {
    let tokens: Vec<(String, Option<i32>)> = [
        Action::Fold,
        Action::Check,
        Action::Call,
        Action::Bet(50),
        Action::Raise(175),
        Action::AllIn(400),
        Action::Other,
    ]
    .iter()
    .map(action_token)
    .collect();
    let expected = [
        ("fold", None),
        ("check", None),
        ("call", None),
        ("bet", Some(50)),
        ("raise", Some(175)),
        ("allin", Some(400)),
        ("unknown", None),
    ];
    for ((word, amount), (want, size)) in tokens.iter().zip(expected) {
        assert_eq!(word, want);
        assert_eq!(*amount, size);
    }
}

#[test]
fn tokens_join_into_paths() {
    assert_eq!(token_string("check", None), "check");
    assert_eq!(token_string("bet", Some(50)), "bet:50");
    assert_eq!(token_string("bet", Some(-3)), "bet:-3");
    assert_eq!(extended_path("", "check"), "check");
    assert_eq!(extended_path("check", "bet:50"), "check/bet:50");
    assert_ne!(token_string("bet", Some(5)), token_string("bet", Some(50)));
    assert_ne!(token_string("bet", Some(50)), token_string("raise", Some(50)));
}

#[test]
fn no_two_decisions_share_a_path() {
    let (nodes, _) = walked();
    for (i, a) in nodes.iter().enumerate() {
        for b in &nodes[i + 1..] {
            assert_ne!(a.path, b.path);
        }
    }
}
