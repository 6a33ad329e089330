//! Routes, new sessions, status, strategy questions and the registry.

use wizgto_solver::cache::{find_cached, CacheEntry, CACHE_FORMAT_VERSION};
use wizgto_solver::events::{CardRead, EventReq};
use wizgto_solver::registry::{Registry, SESSION_TTL_SECS};
use wizgto_solver::routes::{query_param, route, Method, Route};
use wizgto_solver::server::{
    addressed_event, asked_session, create_session, get_strategy, hand_cards, live_strategy,
    session_status, strategy_params, BoardState, CreateSessionReq, SolveSpec, StatusReply, StrategySource,
};
use wizgto_solver::solver::{GameNode, Session, Status};
use wizgto_solver::tree::{Action, CacheAction, CacheNode};

// ---- Routes --------------------------------------------------------------------------------

#[test]
fn requests_are_routed_by_method_and_path() {
    assert!(matches!(route(&Method::Get, "/health"), Route::Health));
    assert!(matches!(route(&Method::Post, "/session"), Route::CreateSession));
    assert!(matches!(route(&Method::Get, "/session/a-1"), Route::SessionStatus(id) if id == "a-1"));
    assert!(matches!(route(&Method::Delete, "/session/a-1"), Route::DeleteSession(id) if id == "a-1"));
    assert!(matches!(route(&Method::Post, "/session/a-1/event"), Route::PostEvent(id) if id == "a-1"));
    assert!(matches!(
        route(&Method::Get, "/session/a-1/strategy?hand=AhKd&player=ip?"),
        Route::GetStrategy(id, query) if id == "a-1" && query == "hand=AhKd&player=ip?"
    ));
    assert!(matches!(
        route(&Method::Get, "/session/a-1/strategy"),
        Route::GetStrategy(_, query) if query.is_empty()
    ));
}

#[test]
fn empty_segments_do_not_count() {
    assert!(matches!(route(&Method::Get, "health/"), Route::Health));
    assert!(matches!(route(&Method::Get, "//session///x//"), Route::SessionStatus(id) if id == "x"));
}

#[test]
fn preflight_requests_have_no_path() {
    assert!(matches!(route(&Method::Options, "/anything"), Route::Preflight));
}

#[test]
fn everything_else_is_not_found() {
    for (method, url) in [
        (Method::Get, "/"),
        (Method::Get, ""),
        (Method::Post, "/health"),
        (Method::Get, "/session"),
        (Method::Post, "/session/a"),
        (Method::Delete, "/session/a/event"),
        (Method::Get, "/session/a/event"),
        (Method::Post, "/session/a/strategy"),
        (Method::Get, "/session/a/strategy/b"),
        (Method::Get, "/sessions/a"),
        (Method::Other, "/health"),
        (Method::Get, "/?/health"),
    ] {
        assert!(matches!(route(&method, url), Route::NotFound), "{url}");
    }
}

#[test]
fn query_parameters_are_found_by_name() {
    assert_eq!(query_param("hand=AhKd&player=oop", "hand").as_deref(), Some("AhKd"));
    assert_eq!(query_param("hand=AhKd&player=oop", "player").as_deref(), Some("oop"));
    assert_eq!(query_param("a=1&a=2", "a").as_deref(), Some("2"));
    assert_eq!(query_param("a=b=c", "a").as_deref(), Some("b=c"));
    assert_eq!(query_param("a&b=1", "a"), None);
    assert_eq!(query_param("a=1&a", "a").as_deref(), Some("1"));
    assert_eq!(query_param("", "a"), None);
}

// ---- New sessions --------------------------------------------------------------------------

fn card(text: &str, card: u8) -> CardRead {
    CardRead { text: text.to_string(), card: Ok(card) }
}

fn bad(words: &str) -> CardRead {
    CardRead { text: "??".to_string(), card: Err(words.to_string()) }
}

fn request() -> CreateSessionReq {
    CreateSessionReq {
        board: vec![card("6c", 16), card("9h", 30), card("Td", 33)],
        flop: Ok([16, 30, 33]),
        oop_range: Ok(()),
        ip_range: Ok(()),
        starting_pot: 100,
        effective_stack: 450,
        max_iterations: None,
        no_cache: None,
    }
}

fn refusal(req: CreateSessionReq) -> (u16, String) {
    match create_session(&req) {
        Ok(_) => panic!("accepted"),
        Err(e) => e,
    }
}

fn accepted(req: CreateSessionReq) -> SolveSpec {
    match create_session(&req) {
        Ok(spec) => spec,
        Err((_, message)) => panic!("{message}"),
    }
}

#[test]
fn the_board_roots_the_tree() {
    let flop = accepted(request());
    assert!(flop.initial_state == BoardState::Flop);
    assert_eq!(flop.flop, [16, 30, 33]);
    assert_eq!((flop.turn, flop.river), (None, None));
    assert_eq!((flop.starting_pot, flop.effective_stack), (100, 450));
    assert!(flop.may_use_cache);

    let mut req = request();
    req.board.push(card("2c", 0));
    let turn = accepted(req);
    assert!(turn.initial_state == BoardState::Turn);
    assert_eq!((turn.turn, turn.river), (Some(0), None));
    assert!(!turn.may_use_cache);

    let mut req = request();
    req.board.push(card("2c", 0));
    req.board.push(card("As", 51));
    let river = accepted(req);
    assert!(river.initial_state == BoardState::River);
    assert_eq!((river.turn, river.river), (Some(0), Some(51)));
    assert!(!river.may_use_cache);
}

#[test]
fn the_cache_can_be_refused() {
    assert!(!accepted(CreateSessionReq { no_cache: Some(true), ..request() }).may_use_cache);
    assert!(accepted(CreateSessionReq { no_cache: Some(false), ..request() }).may_use_cache);
}

#[test]
fn iterations_are_clamped() {
    let asked = |n| accepted(CreateSessionReq { max_iterations: n, ..request() }).max_iterations;
    assert_eq!(asked(None), 300);
    assert_eq!(asked(Some(0)), 10);
    assert_eq!(asked(Some(10)), 10);
    assert_eq!(asked(Some(777)), 777);
    assert_eq!(asked(Some(2000)), 2000);
    assert_eq!(asked(Some(u32::MAX)), 2000);
}

#[test]
fn bad_requests_are_refused_in_order() {
    let mut req = request();
    req.board.truncate(2);
    assert_eq!(refusal(req), (400, "board must have 3, 4, or 5 cards, got 2".to_string()));

    let mut req = request();
    req.flop = Err("x".to_string());
    req.board.push(bad("y"));
    assert_eq!(refusal(req), (400, "bad board: x".to_string()));

    let mut req = request();
    req.board.push(bad("y"));
    req.board.push(bad("z"));
    assert_eq!(refusal(req), (400, "bad turn card: y".to_string()));

    let mut req = request();
    req.board.push(card("2c", 0));
    req.board.push(bad("z"));
    assert_eq!(refusal(req), (400, "bad river card: z".to_string()));

    let mut req = request();
    req.board.push(card("Td", 33));
    assert_eq!(refusal(req), (400, "board contains duplicate cards".to_string()));

    let mut req = request();
    req.board.push(card("2c", 0));
    req.board.push(card("2c", 0));
    assert_eq!(refusal(req), (400, "board contains duplicate cards".to_string()));

    let mut req = request();
    req.oop_range = Err("o".to_string());
    req.ip_range = Err("i".to_string());
    assert_eq!(refusal(req), (400, "bad oopRange: o".to_string()));

    let mut req = request();
    req.ip_range = Err("i".to_string());
    req.starting_pot = 0;
    assert_eq!(refusal(req), (400, "bad ipRange: i".to_string()));

    let req = CreateSessionReq { starting_pot: 0, effective_stack: 0, ..request() };
    assert_eq!(refusal(req), (400, "startingPot must be positive".to_string()));

    let req = CreateSessionReq { effective_stack: -1, ..request() };
    assert_eq!(refusal(req), (400, "effectiveStack must be positive".to_string()));
}

// ---- Status --------------------------------------------------------------------------------

fn cached_session() -> Session {
    let entry = CacheEntry {
        version: CACHE_FORMAT_VERSION,
        oop_range: "AA".to_string(),
        ip_range: "KK".to_string(),
        pot: 100,
        flop: "Tc9d6h".to_string(),
        oop_hands: vec!["AsAd".to_string()],
        ip_hands: vec!["KcKd".to_string()],
        nodes: vec![CacheNode {
            path: String::new(),
            player: 0,
            actions: vec![CacheAction {
                action: "bet".to_string(),
                amount: Some(50),
                freqs: vec![7],
                evs: vec![8],
            }],
        }],
    };
    let state =
        find_cached("AA", "KK", [16, 30, 33], entry, vec![vec![150]], "from far".to_string());
    Session::from_cache(state.unwrap())
}

#[test]
fn a_status_tells_how_the_session_stands() {
    let mut s = Session::solving();
    assert!(matches!(session_status(&s), StatusReply::Solving));
    s.solved(GameNode::Terminal);
    assert!(matches!(session_status(&s), StatusReply::Ready { cache_note: None }));
    s.status = Status::Failed("solver thread panicked".to_string());
    assert!(matches!(session_status(&s), StatusReply::Failed(e) if e == "solver thread panicked"));
    assert!(matches!(
        session_status(&cached_session()),
        StatusReply::Ready { cache_note: Some(note) } if note == "from far"
    ));
}

// ---- Strategy questions --------------------------------------------------------------------

#[test]
fn strategy_parameters_name_a_hand_and_a_player() {
    let p = strategy_params("hand=AhKd&player=ip").unwrap_or_else(|e| panic!("{}", e.1));
    assert_eq!((p.hand.as_str(), p.player), ("AhKd", 1));
    let p = strategy_params("player=oop&hand=éé").unwrap_or_else(|e| panic!("{}", e.1));
    assert_eq!((p.hand.as_str(), p.player), ("éé", 0));
    for (query, message) in [
        ("player=oop", "missing \"hand\" query param"),
        ("hand=AhKd", "\"player\" must be \"oop\" or \"ip\""),
        ("hand=AhKd&player=bb", "\"player\" must be \"oop\" or \"ip\""),
        ("hand=AhK&player=ip", "\"hand\" must be two cards, e.g. AhKd"),
        ("hand=AhKdQ&player=ip", "\"hand\" must be two cards, e.g. AhKd"),
    ] {
        assert_eq!(strategy_params(query).err(), Some((400, message.to_string())));
    }
}

#[test]
fn a_hand_is_two_different_cards() {
    let err = |s: &str| Err::<u8, String>(s.to_string());
    assert_eq!(hand_cards(Ok(3), Ok(4)), Ok((3, 4)));
    assert_eq!(hand_cards(Ok(4), Ok(3)), Ok((4, 3)));
    assert_eq!(hand_cards(Ok(3), Ok(3)), Err((400, "hand cards must differ".to_string())));
    assert_eq!(hand_cards(err("a"), err("b")), Err((400, "bad hand: a".to_string())));
    assert_eq!(hand_cards(Ok(3), err("b")), Err((400, "bad hand: b".to_string())));
}

fn decision(board: Vec<u8>) -> GameNode {
    GameNode::Decision {
        player: 1,
        board,
        hands: vec![(44, 45), (46, 47)],
        actions: vec![Action::Check, Action::AllIn(400)],
    }
}

fn live(at: GameNode) -> Session {
    let mut s = Session::solving();
    s.solved(at);
    s
}

#[test]
fn a_live_question_finds_the_place_of_the_hand() {
    for (board, name) in [
        (vec![16, 30, 33], "flop"),
        (vec![16, 30, 33, 0], "turn"),
        (vec![16, 30, 33, 0, 1], "river"),
    ] {
        let s = live(decision(board));
        // Either order of the cards.
        for (a, b) in [(46, 47), (47, 46)] {
            assert!(matches!(
                get_strategy(&s, 1, a, b),
                Ok(StrategySource::Live { street, hand: 1, num_hands: 2 }) if street == name
            ));
        }
    }
}

#[test]
fn questions_are_refused_with_reasons() {
    let refused = |s: &Session, player, a, b| get_strategy(s, player, a, b).err();
    let failure = |status, message: &str| Some((status, message.to_string()));

    let mut s = Session::solving();
    assert_eq!(refused(&s, 1, 46, 47), failure(409, "session is still solving"));
    s.status = Status::Failed("x".to_string());
    assert_eq!(refused(&s, 1, 46, 47), failure(409, "session failed: x"));

    assert_eq!(
        refused(&live(GameNode::Terminal), 1, 46, 47),
        failure(409, "hand is over (terminal node)")
    );
    assert_eq!(
        refused(&live(GameNode::Chance { possible_cards: 1 }), 1, 46, 47),
        failure(409, "awaiting a turn/river card (chance node)")
    );
    let s = live(decision(vec![16, 30, 33]));
    assert_eq!(refused(&s, 0, 46, 47), failure(409, "not this player's turn"));
    assert_eq!(refused(&s, 1, 33, 47), failure(404, "hand conflicts with the board"));
    assert_eq!(refused(&s, 1, 44, 47), failure(404, "hand not in this player's range"));
}

#[test]
fn a_cached_question_is_answered_from_the_entry() {
    let s = cached_session();
    match get_strategy(&s, 0, 50, 51) {
        Ok(StrategySource::Cached { lines, note }) => {
            assert_eq!(note, "from far");
            assert_eq!(lines.len(), 1);
            assert_eq!(lines[0].action, "bet");
            assert_eq!(lines[0].amount, Some(150));
            assert_eq!(lines[0].freq, Some(7));
            assert_eq!(lines[0].ev, Some(8));
        }
        _ => panic!("not answered from the entry"),
    }
    assert_eq!(
        get_strategy(&s, 0, 48, 51).err(),
        Some((404, "hand not in this player's range".to_string()))
    );
}

#[test]
fn live_answers_are_read_from_the_tables() {
    let actions = vec![Action::Check, Action::Bet(50), Action::Other];
    let strategy = vec![10, 11, 20, 21, 30, 31];
    let evs = vec![110, 111, 120, 121, 130, 131];
    let lines = live_strategy(&actions, &strategy, &evs, 2, 1);
    let read: Vec<_> =
        lines.iter().map(|l| (l.action.as_str(), l.amount, l.freq, l.ev)).collect();
    assert_eq!(
        read,
        vec![
            ("check", None, Some(11), Some(111)),
            ("bet", Some(50), Some(21), Some(121)),
            ("unknown", None, Some(31), Some(131)),
        ]
    );
}

#[test]
fn live_answers_need_no_more_than_they_read() {
    let actions = vec![Action::Check, Action::Bet(50)];
    // The first hand of two: the last number of the tables is not read.
    let lines = live_strategy(&actions, &vec![10, 11, 20], &vec![110, 111, 120], 2, 0);
    assert_eq!(lines[0].freq, Some(10));
    assert_eq!(lines[1].freq, Some(20));
    assert_eq!(lines[1].ev, Some(120));
    assert!(live_strategy(&Vec::new(), &Vec::new(), &Vec::new(), 2, 1).is_empty());
}

// ---- Registry ------------------------------------------------------------------------------

#[test]
fn sessions_are_found_until_they_are_deleted() {
    let mut registry: Registry<u32> = Registry::new();
    let unknown = || (404, "unknown session".to_string());
    assert_eq!(registry.find_session("a").err(), Some(unknown()));
    registry.insert("a".to_string(), 5, 1);
    registry.insert("b".to_string(), 6, 2);
    assert_eq!(registry.find_session("a").ok(), Some(&1));
    assert_eq!(registry.find_session("b").ok(), Some(&2));
    registry.insert("a".to_string(), 7, 3);
    assert_eq!(registry.find_session("a").ok(), Some(&3));
    assert_eq!(registry.delete_session("a"), Ok(()));
    assert_eq!(registry.delete_session("a"), Err(unknown()));
    assert_eq!(registry.find_session("a").err(), Some(unknown()));
    assert_eq!(registry.find_session("b").ok(), Some(&2));
}

#[test]
fn sessions_are_evicted_at_thirty_minutes() {
    let second: u128 = 1_000_000_000;
    let mut registry: Registry<u32> = Registry::new();
    registry.insert("old".to_string(), 0, 1);
    registry.insert("new".to_string(), second, 2);
    registry.insert("later".to_string(), 9000 * second, 3);
    assert_eq!(SESSION_TTL_SECS, 1800);
    registry.evict_expired(1800 * second - 1);
    assert_eq!(registry.find_session("old").ok(), Some(&1));
    registry.evict_expired(1800 * second);
    assert!(registry.find_session("old").is_err());
    assert_eq!(registry.find_session("new").ok(), Some(&2));
    registry.evict_expired(1801 * second);
    assert!(registry.find_session("new").is_err());
    assert_eq!(registry.find_session("later").ok(), Some(&3));
}

#[test]
fn a_bad_question_is_refused_before_the_session_is_looked_up() {
    let mut known: Registry<u32> = Registry::new();
    known.insert("a".to_string(), 0, 7);
    let bad = || strategy_params("player=oop").map(|p| p.player);
    let missing = Some((400, "missing \"hand\" query param".to_string()));
    let unknown = Some((404, "unknown session".to_string()));
    assert_eq!(asked_session(&known, "a", bad()).err(), missing);
    assert_eq!(asked_session(&known, "b", bad()).err(), missing);
    assert_eq!(asked_session(&known, "b", Ok(1u8)).err(), unknown);
    assert_eq!(asked_session(&known, "a", Ok(1u8)), Ok((&7, 1)));
}

#[test]
fn an_unreadable_event_is_refused_before_the_session_is_looked_up() {
    let mut known: Registry<u32> = Registry::new();
    known.insert("a".to_string(), 0, 7);
    let event = || EventReq {
        kind: "card".to_string(),
        action: None,
        amount: None,
        card: Some(card("2c", 0)),
    };
    let bad = || Err("expected value".to_string());
    let invalid = Some((400, "invalid event: expected value".to_string()));
    assert_eq!(addressed_event(&known, "a", bad()).err(), invalid);
    assert_eq!(addressed_event(&known, "b", bad()).err(), invalid);
    assert_eq!(
        addressed_event(&known, "b", Ok(event())).err(),
        Some((404, "unknown session".to_string()))
    );
    match addressed_event(&known, "a", Ok(event())) {
        Ok((session, ev)) => {
            assert_eq!(*session, 7);
            assert_eq!(ev.kind, "card");
        }
        Err(e) => panic!("{}", e.1),
    }
}
