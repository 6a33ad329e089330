//! Answering requests: new sessions, their status, and strategy questions.

use crate::cache;
use crate::cache::StrategyLine;
use crate::events;
use crate::events::{CardRead, EventReq, Failure};
use crate::registry::Registry;
use crate::routes;
use crate::solver;
use crate::solver::{GameNode, Session, Status};
use crate::text;
use crate::tree;
use crate::tree::Action;
use vstd::prelude::*;

verus! {

// ---- New sessions --------------------------------------------------------------------------

/// A request for a new session.
pub struct CreateSessionReq {
    /// The cards of the board, each as the engine read it by itself.
    pub board: Vec<CardRead>,
    /// What the engine made of the first three cards together.
    pub flop: Result<[u8; 3], String>,
    /// Whether the engine could read the ranges, or its words for what is
    /// wrong with them.
    pub oop_range: Result<(), String>,
    pub ip_range: Result<(), String>,
    pub starting_pot: i32,
    pub effective_stack: i32,
    pub max_iterations: Option<u32>,
    /// Always solve, even if the cache has an entry.
    pub no_cache: Option<bool>,
}

/// The street on which a tree is rooted.
#[derive(Clone, Copy, PartialEq, Eq, Structural)]
pub enum BoardState {
    Flop,
    Turn,
    River,
}

/// What a solve needs to know.
pub struct SolveSpec {
    pub initial_state: BoardState,
    pub flop: [u8; 3],
    pub turn: Option<u8>,
    pub river: Option<u8>,
    pub starting_pot: i32,
    pub effective_stack: i32,
    /// Within the limits for requests.
    pub max_iterations: u32,
    /// Whether the cache may serve the session.
    pub may_use_cache: bool,
}

/// The cards that are dealt: the flop, then turn and river as far as given.
pub open spec fn dealt_cards(flop: Seq<u8>, turn: Option<u8>, river: Option<u8>) -> Seq<u8> {
    let with_turn = match turn {
        Some(c) => flop.push(c),
        None => flop,
    };
    match river {
        Some(c) => with_turn.push(c),
        None => with_turn,
    }
}

/// The iterations of a solve: as asked for, within the limits.
pub open spec fn clamped_iterations(asked: Option<u32>) -> u32 {
    match asked {
        None => 300,
        Some(n) => if n < 10 {
            10
        } else if n > 2000 {
            2000
        } else {
            n
        },
    }
}

/// The card at a position of the board, if the board reaches that far.
pub open spec fn board_card(req: CreateSessionReq, i: int) -> Option<Result<u8, String>> {
    if i < req.board@.len() {
        Some(req.board@[i].card)
    } else {
        None
    }
}

/// The card where one was read.
pub open spec fn read_card(read: Option<Result<u8, String>>) -> Option<u8> {
    match read {
        Some(Ok(c)) => Some(c),
        _ => None,
    }
}

/// Why a request for a session is refused, if it is.
pub open spec fn create_refusal(req: CreateSessionReq) -> Option<events::FailureView> {
    let n = req.board@.len();
    if n != 3 && n != 4 && n != 5 {
        Some((400, "board must have 3, 4, or 5 cards, got "@ + text::decimal(n as int)))
    } else if req.flop is Err {
        Some((400, "bad board: "@ + req.flop->Err_0@))
    } else if board_card(req, 3) matches Some(Err(words)) {
        Some((400, "bad turn card: "@ + board_card(req, 3)->0->Err_0@))
    } else if board_card(req, 4) matches Some(Err(words)) {
        Some((400, "bad river card: "@ + board_card(req, 4)->0->Err_0@))
    } else if !dealt_cards(
        req.flop->Ok_0@,
        read_card(board_card(req, 3)),
        read_card(board_card(req, 4)),
    ).no_duplicates() {
        Some((400, "board contains duplicate cards"@))
    } else if req.oop_range is Err {
        Some((400, "bad oopRange: "@ + req.oop_range->Err_0@))
    } else if req.ip_range is Err {
        Some((400, "bad ipRange: "@ + req.ip_range->Err_0@))
    } else if req.starting_pot <= 0 {
        Some((400, "startingPot must be positive"@))
    } else if req.effective_stack <= 0 {
        Some((400, "effectiveStack must be positive"@))
    } else {
        None
    }
}

/// The solve that an acceptable request asks for.
pub open spec fn spec_of(req: CreateSessionReq) -> SolveSpec {
    SolveSpec {
        initial_state: if req.board@.len() == 3 {
            BoardState::Flop
        } else if req.board@.len() == 4 {
            BoardState::Turn
        } else {
            BoardState::River
        },
        flop: req.flop->Ok_0,
        turn: read_card(board_card(req, 3)),
        river: read_card(board_card(req, 4)),
        starting_pot: req.starting_pot,
        effective_stack: req.effective_stack,
        max_iterations: clamped_iterations(req.max_iterations),
        may_use_cache: req.board@.len() == 3 && !(req.no_cache == Some(true)),
    }
}

fn all_differ(cards: &Vec<u8>) -> (r: bool)
    ensures
        r == cards@.no_duplicates(),
{
    let mut i: usize = 0;
    while i < cards.len()
        invariant
            i <= cards@.len(),
            forall|a: int, b: int| 0 <= a < b < i ==> cards@[a] != cards@[b],
        decreases cards@.len() - i,
    {
        let mut j: usize = 0;
        while j < i
            invariant
                j <= i < cards@.len(),
                forall|a: int| 0 <= a < j ==> cards@[a] != cards@[i as int],
            decreases i - j,
        {
            if cards[j] == cards[i] {
                return false;
            }
            j += 1;
        }
        i += 1;
    }
    true
}

fn dealt(flop: [u8; 3], turn: Option<u8>, river: Option<u8>) -> (cards: Vec<u8>)
    ensures
        cards@ == dealt_cards(flop@, turn, river),
{
    let mut cards: Vec<u8> = Vec::new();
    cards.push(flop[0]);
    cards.push(flop[1]);
    cards.push(flop[2]);
    assert(cards@ =~= flop@);
    if let Some(c) = turn {
        cards.push(c);
    }
    if let Some(c) = river {
        cards.push(c);
    }
    cards
}

/// Reads one of the later cards of a board.
fn later_card(req: &CreateSessionReq, i: usize, complaint: &str) -> (res: Result<
    Option<u8>,
    Failure,
>)
    ensures
        match board_card(*req, i as int) {
            Some(Err(words)) => res matches Err(e) && events::failure_is(
                e,
                (400, complaint@ + words@),
            ),
            other => res == Ok::<Option<u8>, Failure>(read_card(other)),
        },
{
    if i < req.board.len() {
        match &req.board[i].card {
            Ok(c) => Ok(Some(*c)),
            Err(words) => Err((400, text::joined(complaint, words.as_str()))),
        }
    } else {
        Ok(None)
    }
}

/// Checks a request for a session and works out the solve that it asks for.
pub fn create_session(req: &CreateSessionReq) -> (res: Result<SolveSpec, Failure>)
    ensures
        match create_refusal(*req) {
            Some(f) => res matches Err(e) && events::failure_is(e, f),
            None => res == Ok::<SolveSpec, Failure>(spec_of(*req)),
        },
        res matches Ok(spec) ==> solver::MIN_MAX_ITERATIONS <= spec.max_iterations
            <= solver::MAX_MAX_ITERATIONS,
{
    let n: usize = req.board.len();
    let initial_state: BoardState = if n == 3 {
        BoardState::Flop
    } else if n == 4 {
        BoardState::Turn
    } else if n == 5 {
        BoardState::River
    } else {
        let mut message: String = "board must have 3, 4, or 5 cards, got ".to_owned();
        text::push_numeral(&mut message, n as u128, 10);
        return Err((400, message));
    };
    let flop: [u8; 3] = match &req.flop {
        Ok(f) => *f,
        Err(words) => {
            return Err((400, text::joined("bad board: ", words.as_str())));
        },
    };
    let turn: Option<u8> = match later_card(req, 3, "bad turn card: ") {
        Ok(c) => c,
        Err(e) => {
            return Err(e);
        },
    };
    let river: Option<u8> = match later_card(req, 4, "bad river card: ") {
        Ok(c) => c,
        Err(e) => {
            return Err(e);
        },
    };
    if !all_differ(&dealt(flop, turn, river)) {
        return Err(events::failure(400, "board contains duplicate cards"));
    }
    if let Err(words) = &req.oop_range {
        return Err((400, text::joined("bad oopRange: ", words.as_str())));
    }
    if let Err(words) = &req.ip_range {
        return Err((400, text::joined("bad ipRange: ", words.as_str())));
    }
    if req.starting_pot <= 0 {
        return Err(events::failure(400, "startingPot must be positive"));
    }
    if req.effective_stack <= 0 {
        return Err(events::failure(400, "effectiveStack must be positive"));
    }
    let asked: u32 = match req.max_iterations {
        Some(k) => k,
        None => solver::DEFAULT_MAX_ITERATIONS,
    };
    let max_iterations: u32 = if asked < solver::MIN_MAX_ITERATIONS {
        solver::MIN_MAX_ITERATIONS
    } else if asked > solver::MAX_MAX_ITERATIONS {
        solver::MAX_MAX_ITERATIONS
    } else {
        asked
    };
    let no_cache: bool = match req.no_cache {
        Some(b) => b,
        None => false,
    };
    Ok(
        SolveSpec {
            initial_state,
            flop,
            turn,
            river,
            starting_pot: req.starting_pot,
            effective_stack: req.effective_stack,
            max_iterations,
            may_use_cache: n == 3 && !no_cache,
        },
    )
}

// ---- Addressed sessions --------------------------------------------------------------------

/// The session that a request is for, with what the request asks. A request
/// that is refused for what it asks is refused with that reason, whether or not
/// the session is known; only then is the session looked up.
pub fn asked_session<'a, S, T>(
    known: &'a Registry<S>,
    id: &str,
    asked: Result<T, Failure>,
) -> (res: Result<(&'a S, T), Failure>)
    requires
        known.inv(),
    ensures
        match asked {
            Err(f) => res matches Err(e) && e == f,
            Ok(question) => if known@.contains_key(id@) {
                res matches Ok((session, q)) && *session == known@[id@].1 && q == question
            } else {
                res matches Err(e) && events::failure_is(e, (404, "unknown session"@))
            },
        },
{
    match asked {
        Err(f) => Err(f),
        Ok(question) => match known.find_session(id) {
            Ok(session) => Ok((session, question)),
            Err(e) => Err(e),
        },
    }
}

/// The session that an event is for, with the event. A body that could not be
/// read is refused, with the words for what is wrong with it, before the
/// session is looked up.
pub fn addressed_event<'a, S>(
    known: &'a Registry<S>,
    id: &str,
    body: Result<EventReq, String>,
) -> (res: Result<(&'a S, EventReq), Failure>)
    requires
        known.inv(),
    ensures
        match body {
            Err(words) => res matches Err(e) && events::failure_is(
                e,
                (400, "invalid event: "@ + words@),
            ),
            Ok(ev) => if known@.contains_key(id@) {
                res matches Ok((session, e)) && *session == known@[id@].1 && e == ev
            } else {
                res matches Err(e) && events::failure_is(e, (404, "unknown session"@))
            },
        },
{
    let asked: Result<EventReq, Failure> = match body {
        Ok(ev) => Ok(ev),
        Err(words) => Err((400, text::joined("invalid event: ", words.as_str()))),
    };
    asked_session(known, id, asked)
}

// ---- Status --------------------------------------------------------------------------------

/// The status of a session as it is told to the client. A session that was
/// served from the cache says so, with a note.
pub enum StatusReply {
    Solving,
    Ready { cache_note: Option<String> },
    Failed(String),
}

/// The status of a session.
pub fn session_status(s: &Session) -> (reply: StatusReply)
    ensures
        match s.status {
            Status::Solving => reply is Solving,
            Status::Ready => reply matches StatusReply::Ready { cache_note } && match s.cached {
                Some(state) => cache_note matches Some(note) && note@ == state@.note,
                None => cache_note is None,
            },
            Status::Failed(reason) => reply matches StatusReply::Failed(e) && e@ == reason@,
        },
{
    match &s.status {
        Status::Solving => StatusReply::Solving,
        Status::Ready => match &s.cached {
            Some(state) => StatusReply::Ready { cache_note: Some(state.note().to_owned()) },
            None => StatusReply::Ready { cache_note: None },
        },
        Status::Failed(reason) => StatusReply::Failed(reason.clone()),
    }
}

// ---- Strategy questions --------------------------------------------------------------------

/// What a strategy question names: a hand, as text, and a player (0 out of
/// position, 1 in position).
pub struct StrategyParams {
    pub hand: String,
    pub player: usize,
}

/// The player that a parameter names.
pub open spec fn player_of(name: Option<Seq<char>>) -> Option<int> {
    match name {
        Some(t) => if t == "oop"@ {
            Some(0)
        } else if t == "ip"@ {
            Some(1)
        } else {
            None
        },
        None => None,
    }
}

/// Why the parameters of a strategy question are refused, if they are.
pub open spec fn params_refusal(query: Seq<char>) -> Option<events::FailureView> {
    if routes::param_of(query, "hand"@) is None {
        Some((400, "missing \"hand\" query param"@))
    } else if player_of(routes::param_of(query, "player"@)) is None {
        Some((400, "\"player\" must be \"oop\" or \"ip\""@))
    } else if vstd::utf8::encode_utf8(routes::param_of(query, "hand"@)->0).len() != 4 {
        Some((400, "\"hand\" must be two cards, e.g. AhKd"@))
    } else {
        None
    }
}

/// The parameters of a strategy question. A hand has four bytes.
pub fn strategy_params(query: &str) -> (res: Result<StrategyParams, Failure>)
    ensures
        match params_refusal(query@) {
            Some(f) => res matches Err(e) && events::failure_is(e, f),
            None => res matches Ok(p) && Some(p.hand@) == routes::param_of(query@, "hand"@)
                && Some(p.player as int) == player_of(routes::param_of(query@, "player"@)),
        },
        res matches Ok(p) ==> p.player < 2,
{
    let hand: String = match routes::query_param(query, "hand") {
        Some(h) => h,
        None => {
            return Err(events::failure(400, "missing \"hand\" query param"));
        },
    };
    let named: Option<String> = routes::query_param(query, "player");
    let player: usize = match &named {
        Some(t) => if text::same_text(t.as_str(), "oop") {
            0
        } else if text::same_text(t.as_str(), "ip") {
            1
        } else {
            return Err(events::failure(400, "\"player\" must be \"oop\" or \"ip\""));
        },
        None => {
            return Err(events::failure(400, "\"player\" must be \"oop\" or \"ip\""));
        },
    };
    if hand.as_str().as_bytes().len() != 4 {
        return Err(events::failure(400, "\"hand\" must be two cards, e.g. AhKd"));
    }
    Ok(StrategyParams { hand, player })
}

/// The two cards of a hand, from what the engine made of its halves.
pub fn hand_cards(first: Result<u8, String>, second: Result<u8, String>) -> (res: Result<
    (u8, u8),
    Failure,
>)
    ensures
        match (first, second) {
            (Ok(a), Ok(b)) => if a != b {
                res == Ok::<(u8, u8), Failure>((a, b))
            } else {
                res matches Err(e) && events::failure_is(e, (400, "hand cards must differ"@))
            },
            (Err(words), _) => res matches Err(e) && events::failure_is(
                e,
                (400, "bad hand: "@ + words@),
            ),
            (Ok(_), Err(words)) => res matches Err(e) && events::failure_is(
                e,
                (400, "bad hand: "@ + words@),
            ),
        },
{
    match (first, second) {
        (Ok(a), Ok(b)) => if a != b {
            Ok((a, b))
        } else {
            Err(events::failure(400, "hand cards must differ"))
        },
        (Err(words), _) => Err((400, text::joined("bad hand: ", words.as_str()))),
        (Ok(_), Err(words)) => Err((400, text::joined("bad hand: ", words.as_str()))),
    }
}

/// Where the answer to a strategy question comes from: the cache entry, with
/// the answer and the note of the session; or the engine's tables, at one hand
/// out of so many, on a street.
pub enum StrategySource {
    Cached { lines: Vec<StrategyLine>, note: String },
    Live { street: String, hand: usize, num_hands: usize },
}

/// The street that a board belongs to.
pub open spec fn street_of(board_len: int) -> Seq<char> {
    if board_len == 3 {
        "flop"@
    } else if board_len == 4 {
        "turn"@
    } else {
        "river"@
    }
}

/// A hand is two given cards, in either order.
pub open spec fn is_hand(pair: (u8, u8), c1: u8, c2: u8) -> bool {
    (pair.0 == c1 && pair.1 == c2) || (pair.0 == c2 && pair.1 == c1)
}

/// Position `k` is the first at which a list of hands has the two cards.
pub open spec fn is_hand_position(hands: Seq<(u8, u8)>, c1: u8, c2: u8, k: int) -> bool {
    &&& 0 <= k < hands.len()
    &&& is_hand(hands[k], c1, c2)
    &&& forall|j: int| 0 <= j < k ==> !is_hand(#[trigger] hands[j], c1, c2)
}

/// Why a strategy question cannot be answered at a position of the engine's
/// game, if so.
pub open spec fn live_refusal(node: GameNode, player: int, c1: u8, c2: u8) -> Option<
    events::FailureView,
> {
    match node {
        GameNode::Terminal => Some((409, "hand is over (terminal node)"@)),
        GameNode::Chance { .. } => Some((409, "awaiting a turn/river card (chance node)"@)),
        GameNode::Decision { player: to_act, board, hands, .. } => if to_act != player {
            Some((409, "not this player's turn"@))
        } else if board@.contains(c1) || board@.contains(c2) {
            Some((404, "hand conflicts with the board"@))
        } else if forall|k: int| 0 <= k < hands@.len() ==> !is_hand(#[trigger] hands@[k], c1, c2) {
            Some((404, "hand not in this player's range"@))
        } else {
            None
        },
    }
}

fn holds(cards: &Vec<u8>, card: u8) -> (r: bool)
    ensures
        r == cards@.contains(card),
{
    let mut i: usize = 0;
    while i < cards.len()
        invariant
            i <= cards@.len(),
            forall|k: int| 0 <= k < i ==> cards@[k] != card,
        decreases cards@.len() - i,
    {
        if cards[i] == card {
            return true;
        }
        i += 1;
    }
    false
}

fn hand_index(hands: &Vec<(u8, u8)>, c1: u8, c2: u8) -> (at: Option<usize>)
    ensures
        match at {
            Some(k) => is_hand_position(hands@, c1, c2, k as int),
            None => forall|k: int| 0 <= k < hands@.len() ==> !is_hand(#[trigger] hands@[k], c1, c2),
        },
{
    let mut i: usize = 0;
    while i < hands.len()
        invariant
            i <= hands@.len(),
            forall|k: int| 0 <= k < i ==> !is_hand(#[trigger] hands@[k], c1, c2),
        decreases hands@.len() - i,
    {
        let (a, b): (u8, u8) = hands[i];
        if (a == c1 && b == c2) || (a == c2 && b == c1) {
            return Some(i);
        }
        i += 1;
    }
    None
}

/// Where a hand stands in the tables of the engine, or why it has no place.
fn live_place(node: &GameNode, player: usize, c1: u8, c2: u8) -> (res: Result<
    StrategySource,
    Failure,
>)
    ensures
        match live_refusal(*node, player as int, c1, c2) {
            Some(f) => res matches Err(e) && events::failure_is(e, f),
            None => res matches Ok(StrategySource::Live { street, hand, num_hands }) && street@
                == street_of(node->board@.len() as int) && is_hand_position(
                node->hands@,
                c1,
                c2,
                hand as int,
            ) && num_hands == node->hands@.len(),
        },
{
    match node {
        GameNode::Terminal => Err(events::failure(409, "hand is over (terminal node)")),
        GameNode::Chance { .. } => Err(
            events::failure(409, "awaiting a turn/river card (chance node)"),
        ),
        GameNode::Decision { player: to_act, board, hands, .. } => {
            if *to_act != player {
                return Err(events::failure(409, "not this player's turn"));
            }
            if holds(board, c1) || holds(board, c2) {
                return Err(events::failure(404, "hand conflicts with the board"));
            }
            let street: String = if board.len() == 3 {
                "flop".to_owned()
            } else if board.len() == 4 {
                "turn".to_owned()
            } else {
                "river".to_owned()
            };
            match hand_index(hands, c1, c2) {
                Some(hand) => Ok(StrategySource::Live { street, hand, num_hands: hands.len() }),
                None => Err(events::failure(404, "hand not in this player's range")),
            }
        },
    }
}

/// Answers a strategy question for a player and a hand: from the cache entry
/// of a cached session, otherwise by where the hand stands in the engine's
/// tables. Only a session that is ready is asked.
pub fn get_strategy(s: &Session, player: usize, c1: u8, c2: u8) -> (res: Result<
    StrategySource,
    Failure,
>)
    requires
        player < 2,
        s.status is Ready ==> s.cached is Some || s.game is Some,
        s.status is Ready ==> (s.cached matches Some(state) ==> state@.can_be_asked(c1, c2)),
    ensures
        match s.status {
            Status::Solving => res matches Err(e) && events::failure_is(
                e,
                (409, "session is still solving"@),
            ),
            Status::Failed(reason) => res matches Err(e) && events::failure_is(
                e,
                (409, "session failed: "@ + reason@),
            ),
            Status::Ready => match s.cached {
                Some(state) => match state@.strategy_refusal(player as int, c1, c2) {
                    Some(f) => res matches Err(e) && events::failure_is(e, f),
                    None => res matches Ok(StrategySource::Cached { lines, note }) && note@
                        == state@.note && state@.is_answered(lines@, player as int, c1, c2),
                },
                None => match live_refusal(s.game->0, player as int, c1, c2) {
                    Some(f) => res matches Err(e) && events::failure_is(e, f),
                    None => res matches Ok(StrategySource::Live { street, hand, num_hands })
                        && street@ == street_of(s.game->0->board@.len() as int)
                        && is_hand_position(s.game->0->hands@, c1, c2, hand as int) && num_hands
                        == s.game->0->hands@.len(),
                },
            },
        },
        res matches Ok(StrategySource::Live { hand, .. }) ==> {
            let hands = s.game->0->hands@;
            &&& hand < hands.len()
            &&& hands[hand as int] == (c1, c2) || hands[hand as int] == (c2, c1)
            &&& forall|j: int|
                0 <= j < hand ==> #[trigger] hands[j] != (c1, c2) && hands[j] != (c2, c1)
        },
        res matches Ok(StrategySource::Cached { lines, .. }) ==> {
            let state = s.cached->0@;
            &&& lines@.len() == state.node().actions@.len()
            &&& forall|i: int|
                0 <= i < lines@.len() ==> (#[trigger] lines@[i]).action@
                    == state.node().actions@[i].action@ && lines@[i].amount == (
                match state.node().actions@[i].amount {
                    Some(_) => Some(state.live[state.node_position()]@[i]),
                    None => None,
                })
        },
{
    match &s.status {
        Status::Solving => Err(events::failure(409, "session is still solving")),
        Status::Failed(reason) => Err((409, text::joined("session failed: ", reason.as_str()))),
        Status::Ready => match &s.cached {
            Some(state) => match cache::cached_strategy(state, player, c1, c2) {
                Ok(lines) => Ok(StrategySource::Cached { lines, note: state.note().to_owned() }),
                Err(e) => Err(e),
            },
            None => {
                let node: &GameNode = s.game.as_ref().unwrap();
                live_place(node, player, c1, c2)
            },
        },
    }
}

/// A table that lists action after action the numbers of all hands reaches to
/// the number of a hand for the last action.
pub open spec fn reaches(table: Seq<u32>, num_actions: int, num_hands: int, hand: int) -> bool {
    num_actions > 0 ==> (num_actions - 1) * num_hands + hand < table.len()
}

/// The lines answer for every action with the numbers of one hand out of the
/// tables.
pub open spec fn is_live_answer(
    lines: Seq<StrategyLine>,
    actions: Seq<Action>,
    strategy: Seq<u32>,
    evs: Seq<u32>,
    num_hands: int,
    hand: int,
) -> bool {
    &&& lines.len() == actions.len()
    &&& forall|i: int|
        0 <= i < lines.len() ==> {
            &&& (#[trigger] lines[i]).action@ == tree::action_word(actions[i])
            &&& lines[i].amount == tree::action_amount(actions[i])
            &&& lines[i].freq == Some(strategy[i * num_hands + hand])
            &&& lines[i].ev == Some(evs[i * num_hands + hand])
        }
}

/// The strategy for one hand out of the engine's tables, which list action
/// after action the numbers of all hands.
pub fn live_strategy(
    actions: &Vec<Action>,
    strategy: &Vec<u32>,
    evs: &Vec<u32>,
    num_hands: usize,
    hand: usize,
) -> (lines: Vec<StrategyLine>)
    requires
        reaches(strategy@, actions@.len() as int, num_hands as int, hand as int),
        reaches(evs@, actions@.len() as int, num_hands as int, hand as int),
    ensures
        lines@.len() == actions@.len(),
        forall|i: int|
            0 <= i < lines@.len() ==> {
                &&& (#[trigger] lines@[i]).action@ == tree::action_word(actions@[i])
                &&& lines@[i].amount == tree::action_amount(actions@[i])
                &&& lines@[i].freq == Some(strategy@[i * num_hands + hand])
                &&& lines@[i].ev == Some(evs@[i * num_hands + hand])
            },
        is_live_answer(
            lines@,
            actions@,
            strategy@,
            evs@,
            num_hands as int,
            hand as int,
        ),
{
    let mut lines: Vec<StrategyLine> = Vec::new();
    let mut i: usize = 0;
    while i < actions.len()
        invariant
            i <= actions@.len(),
            lines@.len() == i,
            reaches(strategy@, actions@.len() as int, num_hands as int, hand as int),
            reaches(evs@, actions@.len() as int, num_hands as int, hand as int),
            forall|k: int|
                0 <= k < i ==> {
                    &&& (#[trigger] lines@[k]).action@ == tree::action_word(actions@[k])
                    &&& lines@[k].amount == tree::action_amount(actions@[k])
                    &&& lines@[k].freq == Some(strategy@[k * num_hands + hand])
                    &&& lines@[k].ev == Some(evs@[k * num_hands + hand])
                },
        decreases actions@.len() - i,
    {
        let (action, amount): (String, Option<i32>) = tree::action_token(&actions[i]);
        proof {
            let n = actions@.len() as int;
            assert(0 <= i * num_hands <= (n - 1) * num_hands) by (nonlinear_arith)
                requires
                    0 <= i < n,
                    0 <= num_hands,
            ;
            assert(strategy.len() <= usize::MAX);
        }
        let at: usize = i * num_hands + hand;
        lines.push(
            StrategyLine { action, amount, freq: Some(strategy[at]), ev: Some(evs[at]) },
        );
        i += 1;
    }
    lines
}

// ---- Laws ----------------------------------------------------------------------------------

/// A hand is two given cards exactly if it is made of the same cards.
pub proof fn law_hand_is_made_of_its_cards(pair: (u8, u8), c1: u8, c2: u8)
    ensures
        is_hand(pair, c1, c2) <==> set![pair.0, pair.1] == set![c1, c2],
{
    let a = set![pair.0, pair.1];
    let b = set![c1, c2];
    assert(a.contains(pair.0) && a.contains(pair.1) && b.contains(c1) && b.contains(c2));
    if is_hand(pair, c1, c2) {
        assert(a =~= b);
    }
    if a == b {
        assert(b.contains(pair.0) && b.contains(pair.1) && a.contains(c1) && a.contains(c2));
    }
}

/// A live question is answered exactly at a decision of the player asked about,
/// with no card of the hand on the board, and with the hand listed in either
/// order of its cards.
pub proof fn law_live_questions_are_refused_in_order(node: GameNode, player: int, c1: u8, c2: u8)
    ensures
        live_refusal(node, player, c1, c2) is None <==> node is Decision && node->player == player
            && !node->board@.contains(c1) && !node->board@.contains(c2) && (
        node->hands@.contains((c1, c2)) || node->hands@.contains((c2, c1))),
        live_refusal(node, player, c1, c2) matches Some(f) ==> (f.0 == 409 || f.0 == 404) && (f.0
            == 409 <==> !(node is Decision && node->player == player)),
{
    if let GameNode::Decision { hands, .. } = node {
        if hands@.contains((c1, c2)) {
            let k = choose|k: int| 0 <= k < hands@.len() && hands@[k] == (c1, c2);
            assert(is_hand(hands@[k], c1, c2));
        }
        if hands@.contains((c2, c1)) {
            let k = choose|k: int| 0 <= k < hands@.len() && hands@[k] == (c2, c1);
            assert(is_hand(hands@[k], c1, c2));
        }
        if exists|k: int| 0 <= k < hands@.len() && is_hand(#[trigger] hands@[k], c1, c2) {
            let k = choose|k: int| 0 <= k < hands@.len() && is_hand(#[trigger] hands@[k], c1, c2);
            assert(hands@[k] == (c1, c2) || hands@[k] == (c2, c1));
        }
    }
}

/// The iterations of a solve stay within the limits, are those asked for within
/// them, and are no fewer where more are asked for.
pub proof fn law_iterations_are_clamped(asked: u32, more: u32)
    ensures
        10 <= clamped_iterations(Some(asked)) <= 2000,
        10 <= asked <= 2000 ==> clamped_iterations(Some(asked)) == asked,
        asked <= more ==> clamped_iterations(Some(asked)) <= clamped_iterations(Some(more)),
        clamped_iterations(None) == 300,
{
}

/// The cards that are dealt are those of the flop, then the turn, then the
/// river, as far as they are given.
pub proof fn law_dealt_cards_are_all_cards(flop: Seq<u8>, turn: u8, river: u8)
    requires
        flop.len() == 3,
    ensures
        dealt_cards(flop, None, None) == flop,
        dealt_cards(flop, Some(turn), None) == seq![flop[0], flop[1], flop[2], turn],
        dealt_cards(flop, Some(turn), Some(river)) == seq![
            flop[0],
            flop[1],
            flop[2],
            turn,
            river,
        ],
{
    assert(dealt_cards(flop, Some(turn), None) =~= seq![flop[0], flop[1], flop[2], turn]);
    assert(dealt_cards(flop, Some(turn), Some(river)) =~= seq![
        flop[0],
        flop[1],
        flop[2],
        turn,
        river,
    ]);
}

/// A request is accepted exactly if its board has three to five cards, all read
/// and all different, both ranges were read, and pot and stack are positive. It
/// is refused as a bad request otherwise.
pub proof fn law_good_requests_are_accepted(req: CreateSessionReq)
    ensures
        ({
            let n = req.board@.len();
            let flop = req.flop->Ok_0@;
            let turn = req.board@[3].card->Ok_0;
            let river = req.board@[4].card->Ok_0;
            create_refusal(req) is None <==> {
                &&& 3 <= n <= 5
                &&& req.flop is Ok
                &&& n >= 4 ==> req.board@[3].card is Ok && turn != flop[0] && turn != flop[1]
                    && turn != flop[2]
                &&& n >= 5 ==> req.board@[4].card is Ok && river != flop[0] && river != flop[1]
                    && river != flop[2] && river != turn
                &&& flop[0] != flop[1] && flop[0] != flop[2] && flop[1] != flop[2]
                &&& req.oop_range is Ok
                &&& req.ip_range is Ok
                &&& req.starting_pot > 0
                &&& req.effective_stack > 0
            }
        }),
        create_refusal(req) matches Some(f) ==> f.0 == 400,
{
    let n = req.board@.len();
    if 3 <= n <= 5 && req.flop is Ok && (n >= 4 ==> req.board@[3].card is Ok) && (n >= 5
        ==> req.board@[4].card is Ok) {
        let flop = req.flop->Ok_0@;
        let cards = dealt_cards(flop, read_card(board_card(req, 3)), read_card(board_card(req, 4)));
        law_dealt_cards_are_all_cards(flop, req.board@[3].card->Ok_0, req.board@[4].card->Ok_0);
        assert(flop.len() == 3);
        assert(cards.len() == n);
        assert(cards[0] == flop[0] && cards[1] == flop[1] && cards[2] == flop[2]);
        if n >= 4 {
            assert(cards[3] == req.board@[3].card->Ok_0);
        }
        if n >= 5 {
            assert(cards[4] == req.board@[4].card->Ok_0);
        }
    }
}

/// The solve that is worked out is the one that was asked for: rooted on the
/// street of the board, with its cards, pot and stack; and the cache may serve
/// it exactly if it begins on the flop and the request does not forbid it.
pub proof fn law_solve_is_what_was_asked_for(req: CreateSessionReq)
    requires
        create_refusal(req) is None,
    ensures
        ({
            let spec = spec_of(req);
            let n = req.board@.len();
            &&& (spec.initial_state == BoardState::Flop <==> n == 3) && (spec.initial_state
                == BoardState::Turn <==> n == 4) && (spec.initial_state == BoardState::River <==> n
                == 5)
            &&& req.flop == Ok::<[u8; 3], String>(spec.flop)
            &&& spec.turn is Some <==> n >= 4
            &&& spec.river is Some <==> n >= 5
            &&& n >= 4 ==> req.board@[3].card == Ok::<u8, String>(spec.turn->0)
            &&& n >= 5 ==> req.board@[4].card == Ok::<u8, String>(spec.river->0)
            &&& spec.starting_pot == req.starting_pot && spec.starting_pot > 0
            &&& spec.effective_stack == req.effective_stack && spec.effective_stack > 0
            &&& 10 <= spec.max_iterations <= 2000
            &&& req.max_iterations is None ==> spec.max_iterations == 300
            &&& req.max_iterations matches Some(m) ==> (10 <= m <= 2000 ==> spec.max_iterations
                == m)
            &&& spec.may_use_cache <==> n == 3 && req.no_cache != Some(true)
        }),
{
}

/// The parameters of a question are accepted exactly if a hand of four bytes and
/// one of the two players are named.
pub proof fn law_good_parameters_are_accepted(query: Seq<char>)
    ensures
        params_refusal(query) is None <==> (routes::param_of(query, "hand"@) matches Some(h)
            && vstd::utf8::encode_utf8(h).len() == 4) && (routes::param_of(query, "player"@)
            == Some("oop"@) || routes::param_of(query, "player"@) == Some("ip"@)),
        params_refusal(query) matches Some(f) ==> f.0 == 400,
        player_of(Some("oop"@)) == Some(0int),
        player_of(Some("ip"@)) == Some(1int),
{
    reveal_strlit("oop");
    reveal_strlit("ip");
    assert("oop"@.len() != "ip"@.len());
}

/// The street is told by the number of cards on the board.
pub proof fn law_street_follows_the_board()
    ensures
        street_of(3) == "flop"@,
        street_of(4) == "turn"@,
        street_of(5) == "river"@,
{
}

/// A live answer and the summary of the same decision agree: for every action
/// they hold the same word, amount and numbers, at every hand.
pub proof fn law_live_answers_agree_with_summaries(
    lines: Seq<StrategyLine>,
    report: tree::ReportView,
    path: Seq<char>,
    i: int,
    hand: int,
)
    requires
        report is Decision,
        report.is_whole(),
        0 <= i < report->actions.len(),
        0 <= hand < report->num_hands,
        is_live_answer(
            lines,
            report->actions,
            report->strategy,
            report->evs,
            report->num_hands as int,
            hand,
        ),
    ensures
        lines.len() == report.summary(path).actions.len(),
        lines[i].action@ == report.summary(path).actions[i].action,
        lines[i].amount == report.summary(path).actions[i].amount,
        lines[i].freq == Some(report.summary(path).actions[i].freqs[hand]),
        lines[i].ev == Some(report.summary(path).actions[i].evs[hand]),
{
    tree::law_summary_keeps_the_tables(report, path, i, hand);
}

/// The first fault of a request is the one that is told: the number of cards,
/// the flop, the turn, the river, equal cards, the ranges, the pot, the stack.
pub proof fn law_first_fault_is_told(req: CreateSessionReq)
    ensures
        ({
            let n = req.board@.len();
            let told = create_refusal(req);
            let counted = 3 <= n <= 5;
            let flop_read = counted && req.flop is Ok;
            let turn_read = flop_read && (n >= 4 ==> req.board@[3].card is Ok);
            let all_read = turn_read && (n >= 5 ==> req.board@[4].card is Ok);
            let differ = all_read && dealt_cards(
                req.flop->Ok_0@,
                read_card(board_card(req, 3)),
                read_card(board_card(req, 4)),
            ).no_duplicates();
            let oop_read = differ && req.oop_range is Ok;
            let ip_read = oop_read && req.ip_range is Ok;
            &&& !counted ==> told == Some(
                (400u16, "board must have 3, 4, or 5 cards, got "@ + text::decimal(n as int)),
            )
            &&& counted && req.flop is Err ==> told == Some(
                (400u16, "bad board: "@ + req.flop->Err_0@),
            )
            &&& flop_read && n >= 4 && req.board@[3].card is Err ==> told == Some(
                (400u16, "bad turn card: "@ + req.board@[3].card->Err_0@),
            )
            &&& turn_read && n >= 5 && req.board@[4].card is Err ==> told == Some(
                (400u16, "bad river card: "@ + req.board@[4].card->Err_0@),
            )
            &&& all_read && !differ ==> told == Some((400u16, "board contains duplicate cards"@))
            &&& differ && req.oop_range is Err ==> told == Some(
                (400u16, "bad oopRange: "@ + req.oop_range->Err_0@),
            )
            &&& oop_read && req.ip_range is Err ==> told == Some(
                (400u16, "bad ipRange: "@ + req.ip_range->Err_0@),
            )
            &&& ip_read && req.starting_pot <= 0 ==> told == Some(
                (400u16, "startingPot must be positive"@),
            )
            &&& ip_read && req.starting_pot > 0 && req.effective_stack <= 0 ==> told == Some(
                (400u16, "effectiveStack must be positive"@),
            )
        }),
{
}

/// The first fault of a question is the one that is told: the hand is missing,
/// the player is not one of the two, the hand has not four bytes.
pub proof fn law_first_fault_of_a_question_is_told(query: Seq<char>)
    ensures
        ({
            let hand = routes::param_of(query, "hand"@);
            let player = routes::param_of(query, "player"@);
            let named = player == Some("oop"@) || player == Some("ip"@);
            let told = params_refusal(query);
            &&& hand is None ==> told == Some((400u16, "missing \"hand\" query param"@))
            &&& hand is Some && !named ==> told == Some(
                (400u16, "\"player\" must be \"oop\" or \"ip\""@),
            )
            &&& hand is Some && named && vstd::utf8::encode_utf8(hand->0).len() != 4 ==> told
                == Some((400u16, "\"hand\" must be two cards, e.g. AhKd"@))
        }),
{
}

/// Of a hand that conflicts with the board nothing else is told, and only of a
/// hand that does not conflict it is told that the range lacks it.
pub proof fn law_conflicts_are_told_before_ranges(
    node: GameNode,
    state: cache::CachedView,
    player: int,
    c1: u8,
    c2: u8,
)
    ensures
        node is Decision && node->player == player ==> {
            let told = live_refusal(node, player, c1, c2);
            let conflict = node->board@.contains(c1) || node->board@.contains(c2);
            &&& conflict <==> told == Some((404u16, "hand conflicts with the board"@))
            &&& !conflict && told is Some ==> told == Some(
                (404u16, "hand not in this player's range"@),
            )
        },
        !state.done ==> {
            let told = state.strategy_refusal(player, c1, c2);
            let conflict = state.real_flop.contains(c1) || state.real_flop.contains(c2);
            &&& conflict <==> told == Some((404u16, "hand conflicts with the board"@))
            &&& !conflict && state.node().player == player && told is Some ==> told == Some(
                (404u16, "hand not in this player's range"@),
            )
            &&& !conflict && state.node().player != player ==> told == Some(
                (409u16, "not this player's turn"@),
            )
        },
{
    reveal_strlit("hand conflicts with the board");
    reveal_strlit("hand not in this player's range");
    assert("hand conflicts with the board"@.len() != "hand not in this player's range"@.len());
}

} // verus!
