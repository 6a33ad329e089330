//! Cached and live sessions: events, queues and the solve loop.

use wizgto_solver::cache::{
    apply_cached_event, cached_strategy, entry_is_for, find_cached, name_hands, parse_hands,
    CacheEntry, CachedState, CACHE_FORMAT_VERSION,
};
use wizgto_solver::cards::card_to_string;
use wizgto_solver::events::{approximates, failure, failure_about, nearest_size, CardRead, EventReq};
use wizgto_solver::solver::{
    apply_event, apply_next_pending, needs_compression, post_event, GameNode, Queued, Session,
    SolveAction, SolveLoop, Status, StopReason,
};
use wizgto_solver::suits::{canonical_flop, map_card};
use wizgto_solver::tree::{Action, CacheAction, CacheNode};

fn stored(action: &str, amount: Option<i32>, first: u32) -> CacheAction {
    CacheAction {
        action: action.to_string(),
        amount,
        freqs: vec![first, first + 1],
        evs: vec![first + 100, first + 101],
    }
}

fn node(path: &str, player: u8, actions: Vec<CacheAction>) -> CacheNode {
    CacheNode { path: path.to_string(), player, actions }
}

/// Check or bet 50; after a bet, fold, call, raise to 175 or all in for 400.
fn entry() -> CacheEntry {
    CacheEntry {
        version: CACHE_FORMAT_VERSION,
        oop_range: "AA".to_string(),
        ip_range: "KK".to_string(),
        pot: 100,
        flop: "Tc9d6h".to_string(),
        oop_hands: vec!["AhAc".to_string(), "AsAd".to_string()],
        ip_hands: vec!["KcKd".to_string(), "KhKs".to_string()],
        nodes: vec![
            node("", 0, vec![stored("check", None, 10), stored("bet", Some(50), 20)]),
            node("check", 1, vec![stored("check", None, 30), stored("bet", Some(50), 40)]),
            node(
                "bet:50",
                1,
                vec![
                    stored("fold", None, 50),
                    stored("call", None, 60),
                    stored("raise", Some(175), 70),
                    stored("allin", Some(400), 80),
                ],
            ),
        ],
    }
}

/// The entry at twice its pot, for ten of diamonds, nine of hearts, six of
/// clubs.
fn cached() -> CachedState {
    let live = vec![vec![0, 100], vec![0, 100], vec![0, 0, 350, 800]];
    find_cached("AA", "KK", [16, 30, 33], entry(), live, "a note".to_string()).unwrap()
}

fn event(kind: &str, action: Option<&str>, amount: Option<i32>) -> EventReq {
    EventReq { kind: kind.to_string(), action: action.map(|a| a.to_string()), amount, card: None }
}

fn act(action: &str) -> EventReq {
    event("action", Some(action), None)
}

fn size(action: &str, amount: i32) -> EventReq {
    event("action", Some(action), Some(amount))
}

fn deal(text: &str, card: Result<u8, String>) -> EventReq {
    EventReq {
        kind: "card".to_string(),
        action: None,
        amount: None,
        card: Some(CardRead { text: text.to_string(), card }),
    }
}

const OVER: &str = "flop street is over (cached session) — re-root at the current street";

// ---- Lookup --------------------------------------------------------------------------------

#[test]
fn a_found_session_stands_at_the_root() {
    let state = cached();
    assert_eq!(state.path(), "");
    assert!(!state.is_done());
    assert!(state.at_node());
    assert_eq!(state.note(), "a note");
    for card in 0..52u8 {
        assert_eq!(state.is_on_flop(card), [16, 30, 33].contains(&card));
    }
}

#[test]
fn an_entry_for_something_else_is_not_used() {
    let live = || vec![vec![0, 100], vec![0, 100], vec![0, 0, 350, 800]];
    let flop = [16, 30, 33];
    assert!(find_cached("AA", "QQ", flop, entry(), live(), String::new()).is_none());
    assert!(find_cached("KK", "KK", flop, entry(), live(), String::new()).is_none());
    let old = CacheEntry { version: CACHE_FORMAT_VERSION + 1, ..entry() };
    assert!(find_cached("AA", "KK", flop, old, live(), String::new()).is_none());
    assert!(find_cached("AA", "KK", flop, entry(), live(), String::new()).is_some());
    assert!(entry_is_for(&entry(), "AA", "KK"));
    assert!(!entry_is_for(&entry(), "KK", "AA"));
}

#[test]
fn hand_texts_are_read_with_the_lower_card_first() {
    let texts: Vec<String> = ["AhKd", "2c2d", "zz3c", "Td9h rest", "éé"]
        .iter()
        .map(|s| s.to_string())
        .collect();
    assert_eq!(parse_hands(&texts), vec![(45, 50), (0, 1), (0, 4), (30, 33), (0, 0)]);
}

// ---- Cached events -------------------------------------------------------------------------

#[test]
fn a_check_leads_to_the_next_node() {
    let mut state = cached();
    assert_eq!(apply_cached_event(&mut state, &act("check")), Ok(false));
    assert_eq!(state.path(), "check");
    assert!(!state.is_done());
    // Checked through: no decision is left.
    assert_eq!(apply_cached_event(&mut state, &act("check")), Ok(false));
    assert_eq!(state.path(), "check/check");
    assert!(state.is_done());
    assert!(!state.at_node());
}

#[test]
fn a_bet_is_matched_in_live_units() {
    let mut state = cached();
    // The stored bet of 50 is a bet of 100 in this pot.
    assert_eq!(apply_cached_event(&mut state, &size("bet", 100)), Ok(false));
    assert_eq!(state.path(), "bet:50");
    // All in counts as a raise; 600 is nearer to 800 than to 350.
    assert_eq!(apply_cached_event(&mut state, &size("raise", 600)), Ok(true));
    assert_eq!(state.path(), "bet:50/allin:400");
    assert!(state.is_done());
}

#[test]
fn a_size_off_by_a_fifth_is_not_approximated() {
    let mut state = cached();
    assert_eq!(apply_cached_event(&mut state, &size("bet", 125)), Ok(false));
    let mut state = cached();
    assert_eq!(apply_cached_event(&mut state, &size("bet", 126)), Ok(true));
    let mut state = cached();
    assert_eq!(apply_cached_event(&mut state, &size("bet", 84)), Ok(false));
    let mut state = cached();
    assert_eq!(apply_cached_event(&mut state, &size("bet", 83)), Ok(true));
}

#[test]
fn refused_cached_events_change_nothing() {
    let cases = [
        (event("card", None, None), 409, "cached session covers the flop only — re-root at the current street"),
        (deal("2c", Ok(0)), 409, "cached session covers the flop only — re-root at the current street"),
        (event("shuffle", None, None), 400, "unknown event kind \"shuffle\""),
        (event("action", None, None), 400, "missing \"action\""),
        (act("fold"), 409, "fold is not available at this node"),
        (act("bet"), 400, "missing \"amount\""),
        (size("bet", 0), 400, "\"amount\" must be positive"),
        (size("bet", -5), 400, "\"amount\" must be positive"),
        (size("raise", 100), 409, "no raise is available at this node"),
        (act("dance"), 400, "unknown action \"dance\""),
    ];
    let mut state = cached();
    for (ev, status, message) in cases {
        let refused = apply_cached_event(&mut state, &ev);
        assert_eq!(refused, Err((status, message.to_string())));
        assert_eq!(state.path(), "");
        assert!(!state.is_done());
    }
}

#[test]
fn a_finished_cached_session_refuses_everything() {
    let mut state = cached();
    apply_cached_event(&mut state, &act("check")).unwrap();
    apply_cached_event(&mut state, &act("check")).unwrap();
    for ev in [act("check"), event("card", None, None), event("shuffle", None, None)] {
        assert_eq!(apply_cached_event(&mut state, &ev), Err((409, OVER.to_string())));
    }
    assert!(matches!(cached_strategy(&state, 0, 50, 51), Err((409, m)) if m == OVER));
}

#[test]
fn only_actions_are_matched_against_a_node() {
    let mut state = cached();
    assert!(state.needs_node(&act("check")));
    assert!(state.needs_node(&act("dance")));
    assert!(!state.needs_node(&event("action", None, None)));
    assert!(!state.needs_node(&event("card", Some("check"), None)));
    apply_cached_event(&mut state, &act("check")).unwrap();
    apply_cached_event(&mut state, &act("check")).unwrap();
    assert!(!state.needs_node(&act("check")));
}

#[test]
fn of_two_nodes_with_one_path_the_later_counts() {
    let mut doubled = entry();
    doubled.nodes.push(node("", 1, vec![stored("fold", None, 90)]));
    let live = vec![vec![0, 100], vec![0, 100], vec![0, 0, 350, 800], vec![0]];
    let mut state =
        find_cached("AA", "KK", [16, 30, 33], doubled, live, String::new()).unwrap();
    assert!(matches!(apply_cached_event(&mut state, &act("check")), Err((409, _))));
    assert_eq!(apply_cached_event(&mut state, &act("fold")), Ok(false));
}

// ---- Cached strategy -----------------------------------------------------------------------

#[test]
fn a_cached_answer_is_that_of_the_renamed_hand() {
    let state = cached();
    // Ace of spades and ace of clubs are spades and hearts in canonical suits,
    // which is no hand of the range; spades and hearts are spades and diamonds.
    assert!(matches!(
        cached_strategy(&state, 0, 51, 48),
        Err((404, m)) if m == "hand not in this player's range"
    ));
    let lines = cached_strategy(&state, 0, 51, 50).unwrap();
    assert_eq!(lines.len(), 2);
    assert_eq!(lines[0].action, "check");
    assert_eq!(lines[0].amount, None);
    assert_eq!(lines[0].freq, Some(11));
    assert_eq!(lines[0].ev, Some(111));
    assert_eq!(lines[1].action, "bet");
    assert_eq!(lines[1].amount, Some(100));
    assert_eq!(lines[1].freq, Some(21));
    // The order of the two cards is irrelevant.
    let swapped = cached_strategy(&state, 0, 50, 51).unwrap();
    assert_eq!(swapped[1].ev, lines[1].ev);
}

#[test]
fn cached_answers_are_refused_with_reasons() {
    let state = cached();
    assert!(matches!(
        cached_strategy(&state, 0, 33, 51),
        Err((404, m)) if m == "hand conflicts with the board"
    ));
    assert!(matches!(
        cached_strategy(&state, 1, 50, 51),
        Err((409, m)) if m == "not this player's turn"
    ));
}

#[test]
fn numbers_missing_from_an_entry_are_missing_from_the_answer() {
    let mut short = entry();
    short.nodes[0].actions[0].freqs.truncate(1);
    let live = vec![vec![0, 100], vec![0, 100], vec![0, 0, 350, 800]];
    let state = find_cached("AA", "KK", [16, 30, 33], short, live, String::new()).unwrap();
    let lines = cached_strategy(&state, 0, 51, 50).unwrap();
    assert_eq!(lines[0].freq, None);
    assert_eq!(lines[0].ev, Some(111));
}

// ---- Sizes ---------------------------------------------------------------------------------

#[test]
fn the_nearest_size_is_the_first_of_equals() {
    assert_eq!(nearest_size(&vec![], 10), None);
    assert_eq!(nearest_size(&vec![None, None], 10), None);
    assert_eq!(nearest_size(&vec![None, Some(5), Some(15)], 10), Some(1));
    assert_eq!(nearest_size(&vec![Some(15), None, Some(5)], 10), Some(0));
    assert_eq!(nearest_size(&vec![Some(15), Some(12), Some(10)], 10), Some(2));
    assert_eq!(nearest_size(&vec![Some(i32::MIN), Some(i32::MAX)], i32::MAX), Some(1));
}

#[test]
fn approximation_is_a_difference_of_more_than_a_fifth() {
    assert!(!approximates(100, 100));
    assert!(!approximates(120, 100));
    assert!(approximates(121, 100));
    assert!(!approximates(80, 100));
    assert!(approximates(79, 100));
    assert!(approximates(0, 1));
    assert!(approximates(i32::MIN, i32::MAX));
    // As a quotient of floating-point numbers, too.
    for amount in 1..200i32 {
        for size in 0..300i32 {
            let quotient = (size - amount).abs() as f64 / amount as f64;
            assert_eq!(approximates(size, amount), quotient > 0.20);
        }
    }
}

#[test]
fn failures_hold_a_status_and_a_message() {
    assert_eq!(failure(404, "gone"), (404, "gone".to_string()));
    assert_eq!(failure_about(400, "bad \"", "x", "\""), (400, "bad \"x\"".to_string()));
}

// ---- Live sessions -------------------------------------------------------------------------

fn decision(actions: Vec<Action>) -> GameNode {
    GameNode::Decision { player: 0, board: vec![16, 30, 33], hands: vec![(48, 49)], actions }
}

fn live(at: GameNode) -> Session {
    let mut s = Session::solving();
    s.solved(at);
    s
}

#[test]
fn a_live_action_names_the_move_to_play() {
    let actions = || vec![Action::Check, Action::Bet(50), Action::Bet(120), Action::AllIn(400)];
    let mut s = live(decision(actions()));
    let applied = apply_event(&mut s, &act("check")).unwrap();
    assert_eq!(applied.play, Some(0));
    assert!(!applied.approximated);
    assert!(!s.approximated_path);
    let applied = apply_event(&mut s, &size("bet", 110)).unwrap();
    assert_eq!(applied.play, Some(2));
    assert!(!applied.approximated);
    let applied = apply_event(&mut s, &size("bet", 300)).unwrap();
    assert_eq!(applied.play, Some(3));
    assert!(applied.approximated);
    assert!(s.approximated_path);
    // A later exact size does not take the mark back.
    let applied = apply_event(&mut s, &size("bet", 50)).unwrap();
    assert!(!applied.approximated);
    assert!(s.approximated_path);
}

#[test]
fn refused_live_actions_have_reasons() {
    let mut s = live(decision(vec![Action::Fold, Action::Call, Action::Raise(175)]));
    let cases = [
        (act("check"), 409, "check is not available at this node"),
        (size("bet", 50), 409, "no bet is available at this node"),
        (act("raise"), 400, "missing \"amount\""),
        (size("raise", 0), 400, "\"amount\" must be positive"),
        (act("dance"), 400, "unknown action \"dance\""),
        (event("action", None, None), 400, "missing \"action\""),
        (event("shuffle", None, None), 400, "unknown event kind \"shuffle\""),
        (deal("2c", Ok(0)), 409, "not awaiting a card at this node"),
    ];
    for (ev, status, message) in cases {
        let refused = apply_event(&mut s, &ev).err();
        assert_eq!(refused, Some((status, message.to_string())));
    }
    assert_eq!(apply_event(&mut s, &act("fold")).ok().and_then(|a| a.play), Some(0));
    assert_eq!(apply_event(&mut s, &size("raise", 175)).ok().and_then(|a| a.play), Some(2));
}

#[test]
fn cards_are_dealt_where_the_game_awaits_one() {
    let mut s = live(GameNode::Chance { possible_cards: 0b1011 });
    assert_eq!(apply_event(&mut s, &deal("2d", Ok(1))).ok().and_then(|a| a.play), Some(1));
    assert_eq!(
        apply_event(&mut s, &deal("2h", Ok(2))).err(),
        Some((409, "card 2h cannot be dealt here".to_string()))
    );
    assert_eq!(
        apply_event(&mut s, &deal("xx", Err("no such rank: x".to_string()))).err(),
        Some((400, "no such rank: x".to_string()))
    );
    assert_eq!(
        apply_event(&mut s, &event("card", None, None)).err(),
        Some((400, "missing \"card\"".to_string()))
    );
    assert_eq!(
        apply_event(&mut s, &act("check")).err(),
        Some((409, "awaiting a turn/river card (chance node)".to_string()))
    );
}

#[test]
fn a_finished_hand_refuses_everything() {
    let mut s = live(GameNode::Terminal);
    for ev in [act("check"), deal("2c", Ok(0)), event("shuffle", None, None)] {
        assert_eq!(
            apply_event(&mut s, &ev).err(),
            Some((409, "hand is over (terminal node)".to_string()))
        );
    }
}

#[test]
fn a_session_without_game_and_entry_is_not_ready() {
    let mut s = Session::solving();
    assert_eq!(
        apply_event(&mut s, &act("check")).err(),
        Some((409, "session not ready".to_string()))
    );
}

#[test]
fn a_cached_session_is_ready_at_once_and_plays_no_moves() {
    let mut s = Session::from_cache(cached());
    assert!(matches!(s.status, Status::Ready));
    let applied = post_event(&mut s, size("bet", 130)).unwrap();
    assert!(applied.approximated);
    assert_eq!(applied.play, None);
    assert!(s.approximated_path);
    assert_eq!(s.cached.as_ref().unwrap().path(), "bet:50");
}

#[test]
fn cached_and_live_matching_agree() {
    let live_actions = || {
        vec![Action::Fold, Action::Call, Action::Raise(350), Action::AllIn(800)]
    };
    for (action, amount) in [
        ("fold", None),
        ("call", None),
        ("check", None),
        ("raise", Some(300)),
        ("raise", Some(575)),
        ("raise", Some(576)),
        ("bet", Some(10)),
        ("bet", None),
        ("dance", None),
    ] {
        let ev = event("action", Some(action), amount);
        let mut tree = live(decision(live_actions()));
        let mut stored = Session::from_cache(cached());
        apply_event(&mut stored, &size("bet", 100)).unwrap();
        let played = apply_event(&mut tree, &ev);
        let matched = apply_event(&mut stored, &ev);
        match (played, matched) {
            (Ok(a), Ok(b)) => {
                assert_eq!(a.approximated, b.approximated);
                let tokens = ["fold", "call", "raise:175", "allin:400"];
                let path = format!("bet:50/{}", tokens[a.play.unwrap()]);
                assert_eq!(stored.cached.as_ref().unwrap().path(), path);
            }
            (Err(a), Err(b)) => assert_eq!(a, b),
            _ => panic!("{action} is matched differently"),
        }
    }
}

// ---- Queue ---------------------------------------------------------------------------------

#[test]
fn events_queue_up_while_solving_and_are_applied_in_order() {
    let mut s = Session::solving();
    for ev in [act("check"), size("bet", 90), act("call")] {
        let applied = post_event(&mut s, ev).unwrap();
        assert!(!applied.approximated);
        assert_eq!(applied.play, None);
    }
    assert_eq!(s.pending_events.len(), 3);

    s.solved(decision(vec![Action::Check, Action::Bet(50)]));
    assert!(matches!(apply_next_pending(&mut s), Queued::Applied(Some(0))));
    s.game = Some(decision(vec![Action::Check, Action::Bet(50)]));
    assert!(matches!(apply_next_pending(&mut s), Queued::Applied(Some(1))));
    assert!(s.approximated_path);
    s.game = Some(decision(vec![Action::Fold, Action::Call]));
    assert!(matches!(apply_next_pending(&mut s), Queued::Applied(Some(1))));
    assert!(matches!(apply_next_pending(&mut s), Queued::Finished));
    assert!(matches!(s.status, Status::Ready));
}

#[test]
fn a_queued_event_that_cannot_be_applied_fails_the_session() {
    let mut s = Session::solving();
    post_event(&mut s, act("fold")).unwrap();
    post_event(&mut s, act("check")).unwrap();
    s.solved(decision(vec![Action::Check, Action::Bet(50)]));
    assert!(matches!(apply_next_pending(&mut s), Queued::Finished));
    let reason = "queued event could not be applied: fold is not available at this node";
    assert!(matches!(&s.status, Status::Failed(e) if e == reason));
    assert!(s.pending_events.is_empty());
    assert_eq!(
        post_event(&mut s, act("check")).err(),
        Some((409, format!("session failed: {reason}")))
    );
}

// ---- Solve loop ----------------------------------------------------------------------------

#[test]
fn a_solve_measures_every_tenth_iteration_and_the_last() {
    let mut l = SolveLoop::new(25);
    let mut measured = Vec::new();
    while let SolveAction::Iterate(t) = l.next(false, false) {
        assert_eq!(t, l.done);
        if l.iterated() {
            measured.push(l.done);
        }
    }
    assert_eq!(measured, vec![10, 20, 25]);
    assert_eq!(l.done, 25);
    assert!(matches!(l.next(false, false), SolveAction::Stop(StopReason::Exhausted)));
    assert!(matches!(l.next(true, true), SolveAction::Stop(StopReason::Exhausted)));
}

#[test]
fn a_solve_stops_at_its_target_or_when_time_is_up() {
    let l = SolveLoop::new(10);
    assert!(matches!(l.next(true, true), SolveAction::Stop(StopReason::TargetReached)));
    assert!(matches!(l.next(false, true), SolveAction::Stop(StopReason::OutOfTime)));
    assert!(matches!(l.next(false, false), SolveAction::Iterate(0)));
    let none = SolveLoop::new(0);
    assert!(matches!(none.next(false, false), SolveAction::Stop(StopReason::Exhausted)));
}

#[test]
fn large_trees_are_compressed() {
    assert!(!needs_compression(0));
    assert!(!needs_compression(1 << 30));
    assert!(needs_compression((1 << 30) + 1));
}

#[test]
fn hand_texts_split_after_two_and_four_bytes() {
    let all = |texts: &[&str]| {
        name_hands(&texts.iter().map(|s| s.to_string()).collect())
    };
    assert!(all(&[]));
    assert!(all(&["AhKd", "éé", "AhKdQ", "AhKdé"]));
    assert!(!all(&["AhKd", "AhK"]));
    assert!(!all(&[""]));
    // A character across the second byte, and one across the fourth.
    assert!(!all(&["aéb"]));
    assert!(!all(&["AhKé"]));
}

#[test]
fn a_written_hand_is_read_back_and_found() {
    // The first hand of the entry is ace of hearts and ace of clubs in canonical suits.
    let state = cached();
    let real = [48, 49];
    let (_, perm) = canonical_flop([16, 30, 33]);
    let renamed = real.map(|c| map_card(c, &perm));
    let text = format!(
        "{}{}",
        card_to_string(renamed[0]).unwrap(),
        card_to_string(renamed[1]).unwrap()
    );
    assert_eq!(text, entry().oop_hands[0]);
    assert_eq!(parse_hands(&vec![text]), vec![(48, 50)]);
    assert_eq!(cached_strategy(&state, 0, real[0], real[1]).unwrap()[0].freq, Some(10));
}

#[test]
fn a_failed_solve_keeps_the_queue_and_fails_the_session() {
    let mut s = Session::solving();
    post_event(&mut s, act("check")).unwrap();
    s.failed("solver thread panicked".to_string());
    assert!(matches!(&s.status, Status::Failed(e) if e == "solver thread panicked"));
    assert!(s.game.is_none());
    assert!(s.cached.is_none());
    assert_eq!(s.pending_events.len(), 1);
    assert!(!s.approximated_path);
    assert_eq!(
        post_event(&mut s, act("check")).err(),
        Some((409, "session failed: solver thread panicked".to_string()))
    );
}

#[test]
fn the_mark_tells_of_any_approximated_event() {
    for (amounts, marked) in [
        (vec![50, 50, 50], false),
        (vec![90, 50, 50], true),
        (vec![50, 50, 90], true),
        // Refused, so not applied.
        (vec![50, 0, -90], false),
    ] {
        let mut s = live(decision(vec![Action::Check, Action::Bet(50)]));
        let mut some = false;
        for amount in amounts {
            if let Ok(applied) = apply_event(&mut s, &size("bet", amount)) {
                some = some || applied.approximated;
            }
            assert_eq!(s.approximated_path, some);
        }
        assert_eq!(s.approximated_path, marked);
    }
}

#[test]
fn a_card_is_looked_at_only_where_one_is_dealt() {
    let odd = || deal("??", Ok(200));
    let mut s = live(decision(vec![Action::Check]));
    assert_eq!(
        apply_event(&mut s, &odd()).err(),
        Some((409, "not awaiting a card at this node".to_string()))
    );
    let mut s = live(GameNode::Terminal);
    assert!(apply_event(&mut s, &odd()).is_err());
    let mut s = Session::from_cache(cached());
    assert!(apply_event(&mut s, &odd()).is_err());
}

#[test]
fn a_cached_session_is_over_or_at_a_node_at_any_time() {
    let mut s = Session::from_cache(cached());
    for ev in [size("raise", 5), size("bet", 100), act("check"), act("call"), act("fold")] {
        let _ = post_event(&mut s, ev);
        let state = s.cached.as_ref().unwrap();
        assert!(state.is_done() || state.at_node());
        assert!(matches!(s.status, Status::Ready));
    }
    assert!(s.cached.as_ref().unwrap().is_done());
}
