//! Sessions: one hand, heads-up, replayed against a cached or a live solve.

use crate::cache;
use crate::cache::CachedState;
use crate::events;
use crate::events::{EventReq, Failure};
use crate::text;
use crate::tree::Action;
use vstd::prelude::*;

verus! {

// ---- The engine's position -----------------------------------------------------------------

/// Where the engine's game stands: the hand is over; a card of the board is
/// dealt next, one of those whose bits are set; or a player is to act (0 out of
/// position, 1 in position), holding one of the listed hands.
pub enum GameNode {
    Terminal,
    Chance { possible_cards: u64 },
    Decision { player: usize, board: Vec<u8>, hands: Vec<(u8, u8)>, actions: Vec<Action> },
}

/// The action that an observed check, call or fold is.
pub open spec fn plain_action(observed: Seq<char>) -> Action {
    if observed == "check"@ {
        Action::Check
    } else if observed == "call"@ {
        Action::Call
    } else {
        Action::Fold
    }
}

/// The size that an action offers for an observed bet or raise.
pub open spec fn size_for(a: Action, observed: Seq<char>) -> Option<i32> {
    match a {
        Action::Bet(x) => if observed == "bet"@ {
            Some(x)
        } else {
            None
        },
        Action::Raise(x) => if observed == "raise"@ {
            Some(x)
        } else {
            None
        },
        Action::AllIn(x) => Some(x),
        _ => None,
    }
}

pub open spec fn sizes_for(actions: Seq<Action>, observed: Seq<char>) -> Seq<Option<i32>> {
    actions.map_values(|a: Action| size_for(a, observed))
}

/// The bit of a card is set.
pub open spec fn can_be_dealt(possible_cards: u64, card: u8) -> bool {
    possible_cards & (1u64 << card) != 0
}

/// What an event does at a position of the engine's game: the move to play and
/// whether a size was approximated, or why the event is refused.
pub open spec fn live_outcome(node: GameNode, ev: EventReq) -> Result<
    (int, bool),
    events::FailureView,
> {
    if node is Terminal {
        Err((409, "hand is over (terminal node)"@))
    } else if ev.kind@ == "card"@ {
        match node {
            GameNode::Chance { possible_cards } => match ev.card {
                None => Err((400, "missing \"card\""@)),
                Some(read) => match read.card {
                    Err(words) => Err((400, words@)),
                    Ok(card) => if can_be_dealt(possible_cards, card) {
                        Ok((card as int, false))
                    } else {
                        Err((409, "card "@ + read.text@ + " cannot be dealt here"@))
                    },
                },
            },
            _ => Err((409, "not awaiting a card at this node"@)),
        }
    } else if ev.kind@ == "action"@ {
        match node {
            GameNode::Decision { actions, .. } => match ev.action {
                None => Err((400, "missing \"action\""@)),
                Some(action) => decision_outcome(actions@, action@, ev.amount),
            },
            _ => Err((409, "awaiting a turn/river card (chance node)"@)),
        }
    } else {
        Err((400, "unknown event kind \""@ + ev.kind@ + "\""@))
    }
}

/// What an observed action does where the given actions are available.
pub open spec fn decision_outcome(
    actions: Seq<Action>,
    action: Seq<char>,
    amount: Option<i32>,
) -> Result<(int, bool), events::FailureView> {
    if action == "check"@ || action == "call"@ || action == "fold"@ {
        match actions.index_of_first(plain_action(action)) {
            Some(i) => Ok((i, false)),
            None => Err((409, action + " is not available at this node"@)),
        }
    } else if action == "bet"@ || action == "raise"@ {
        match amount {
            None => Err((400, "missing \"amount\""@)),
            Some(amount) => if amount <= 0 {
                Err((400, "\"amount\" must be positive"@))
            } else {
                let sizes = sizes_for(actions, action);
                match events::nearest(sizes, amount) {
                    Some(i) => Ok((i, events::is_approximate(sizes[i]->0, amount))),
                    None => Err((409, "no "@ + action + " is available at this node"@)),
                }
            },
        }
    } else {
        Err((400, "unknown action \""@ + action + "\""@))
    }
}

fn first_action(actions: &Vec<Action>, want: Action) -> (at: Option<usize>)
    ensures
        match at {
            Some(k) => actions@.index_of_first(want) == Some(k as int) && k < actions@.len(),
            None => actions@.index_of_first(want) is None,
        },
{
    proof {
        actions@.index_of_first_ensures(want);
    }
    let mut i: usize = 0;
    while i < actions.len()
        invariant
            i <= actions@.len(),
            forall|k: int| 0 <= k < i ==> actions@[k] != want,
            match actions@.index_of_first(want) {
                Some(index) => {
                    &&& actions@.contains(want)
                    &&& 0 <= index < actions@.len()
                    &&& actions@[index] == want
                    &&& forall|j: int| 0 <= j < index < actions@.len() ==> actions@[j] != want
                },
                None => !actions@.contains(want),
            },
        decreases actions@.len() - i,
    {
        if actions[i] == want {
            return Some(i);
        }
        i += 1;
    }
    None
}

fn offered_sizes(actions: &Vec<Action>, observed: &str) -> (sizes: Vec<Option<i32>>)
    ensures
        sizes@ == sizes_for(actions@, observed@),
{
    let bet: bool = text::same_text(observed, "bet");
    let raise: bool = text::same_text(observed, "raise");
    let mut sizes: Vec<Option<i32>> = Vec::new();
    let mut i: usize = 0;
    while i < actions.len()
        invariant
            i <= actions@.len(),
            bet == (observed@ == "bet"@),
            raise == (observed@ == "raise"@),
            sizes@ == sizes_for(actions@.take(i as int), observed@),
        decreases actions@.len() - i,
    {
        let size: Option<i32> = match actions[i] {
            Action::Bet(x) => if bet {
                Some(x)
            } else {
                None
            },
            Action::Raise(x) => if raise {
                Some(x)
            } else {
                None
            },
            Action::AllIn(x) => Some(x),
            _ => None,
        };
        sizes.push(size);
        i += 1;
        assert(sizes@ =~= sizes_for(actions@.take(i as int), observed@));
    }
    assert(actions@.take(i as int) =~= actions@);
    sizes
}

/// Matches an observed action against the available ones.
fn decide(actions: &Vec<Action>, action: &str, amount: Option<i32>) -> (res: Result<
    (usize, bool),
    Failure,
>)
    ensures
        match decision_outcome(actions@, action@, amount) {
            Ok((i, approximated)) => res matches Ok((k, a)) && k == i && a == approximated,
            Err(f) => res matches Err(e) && events::failure_is(e, f),
        },
{
    let check: bool = text::same_text(action, "check");
    let call: bool = text::same_text(action, "call");
    if check || call || text::same_text(action, "fold") {
        let want: Action = if check {
            Action::Check
        } else if call {
            Action::Call
        } else {
            Action::Fold
        };
        match first_action(actions, want) {
            Some(i) => Ok((i, false)),
            None => {
                let f: Failure = events::failure_about(
                    409,
                    "",
                    action,
                    " is not available at this node",
                );
                proof {
                    reveal_strlit("");
                    assert(""@ + action@ =~= action@);
                }
                Err(f)
            },
        }
    } else if text::same_text(action, "bet") || text::same_text(action, "raise") {
        match amount {
            None => Err(events::failure(400, "missing \"amount\"")),
            Some(amount) => {
                if amount <= 0 {
                    return Err(events::failure(400, "\"amount\" must be positive"));
                }
                let sizes: Vec<Option<i32>> = offered_sizes(actions, action);
                match events::nearest_size(&sizes, amount) {
                    Some(i) => {
                        let size: i32 = sizes[i].unwrap();
                        Ok((i, events::approximates(size, amount)))
                    },
                    None => Err(
                        events::failure_about(409, "no ", action, " is available at this node"),
                    ),
                }
            },
        }
    } else {
        Err(events::failure_about(400, "unknown action \"", action, "\""))
    }
}

/// Where the event deals a card, the engine read it as one of at most 64.
pub open spec fn has_dealable_card(node: GameNode, ev: EventReq) -> bool {
    node is Chance && ev.kind@ == "card"@ ==> (ev.card matches Some(read) ==> (
    read.card matches Ok(card) ==> card < 64))
}

/// What an event does at a position of the engine's game.
fn live_move(node: &GameNode, ev: &EventReq) -> (res: Result<(usize, bool), Failure>)
    requires
        has_dealable_card(*node, *ev),
    ensures
        match live_outcome(*node, *ev) {
            Ok((i, approximated)) => res matches Ok((k, a)) && k == i && a == approximated,
            Err(f) => res matches Err(e) && events::failure_is(e, f),
        },
{
    if let GameNode::Terminal = node {
        return Err(events::failure(409, "hand is over (terminal node)"));
    }
    if text::same_text(ev.kind.as_str(), "card") {
        match node {
            GameNode::Chance { possible_cards } => match &ev.card {
                None => Err(events::failure(400, "missing \"card\"")),
                Some(read) => match &read.card {
                    Err(words) => Err(events::failure(400, words.as_str())),
                    Ok(card) => {
                        if *possible_cards & (1u64 << *card) == 0 {
                            Err(
                                events::failure_about(
                                    409,
                                    "card ",
                                    read.text.as_str(),
                                    " cannot be dealt here",
                                ),
                            )
                        } else {
                            Ok((*card as usize, false))
                        }
                    },
                },
            },
            _ => Err(events::failure(409, "not awaiting a card at this node")),
        }
    } else if text::same_text(ev.kind.as_str(), "action") {
        match node {
            GameNode::Decision { actions, .. } => match &ev.action {
                None => Err(events::failure(400, "missing \"action\"")),
                Some(action) => decide(actions, action.as_str(), ev.amount),
            },
            _ => Err(events::failure(409, "awaiting a turn/river card (chance node)")),
        }
    } else {
        Err(events::failure_about(400, "unknown event kind \"", ev.kind.as_str(), "\""))
    }
}

// ---- Sessions ------------------------------------------------------------------------------

pub enum Status {
    Solving,
    Ready,
    Failed(String),
}

/// One hand. A session is served from the cache, or it has the position of the
/// engine's game once the solve is done; the program moves the engine and
/// stores the new position after every move it is told to play.
pub struct Session {
    pub status: Status,
    pub game: Option<GameNode>,
    pub cached: Option<CachedState>,
    /// Events received while solving; applied in order once ready.
    pub pending_events: Vec<EventReq>,
    /// Whether any applied bet or raise was approximated in size.
    pub approximated_path: bool,
}

/// What became of an event: whether its size was approximated, and the move
/// that the engine has to play, if any.
pub struct Applied {
    pub approximated: bool,
    pub play: Option<usize>,
}

/// What an event does to a session.
pub open spec fn session_outcome(s: Session, ev: EventReq) -> Result<
    (bool, Option<int>),
    events::FailureView,
> {
    match s.cached {
        Some(state) => match cache::cached_outcome(state@, ev) {
            Ok((_, approximated)) => Ok((approximated, None)),
            Err(f) => Err(f),
        },
        None => match s.game {
            None => Err((409, "session not ready"@)),
            Some(node) => match live_outcome(node, ev) {
                Ok((i, approximated)) => Ok((approximated, Some(i))),
                Err(f) => Err(f),
            },
        },
    }
}

/// The event can be applied: the cache entry has the node that it is matched
/// against; and where the game deals its card, the engine knows the card.
pub open spec fn can_apply(s: Session, ev: EventReq) -> bool {
    match s.cached {
        Some(state) => state@.consults_node(ev) ==> state@.is_at_node(),
        None => s.game matches Some(node) ==> has_dealable_card(node, ev),
    }
}

/// An answer says what an outcome says.
pub open spec fn applied_is(applied: Applied, approximated: bool, play: Option<int>) -> bool {
    &&& applied.approximated == approximated
    &&& match play {
        Some(i) => applied.play == Some(i as usize) && 0 <= i <= usize::MAX,
        None => applied.play is None,
    }
}

impl Session {
    /// A session that is ready has what it is served from; and a cached state
    /// is over or at a node of its entry.
    pub open spec fn wf(self) -> bool {
        &&& self.status is Ready ==> self.cached is Some || self.game is Some
        &&& self.cached matches Some(state) ==> state@.wf()
    }

    /// The session after an accepted event: a cached session moved along its
    /// path, and an approximated size is remembered.
    pub open spec fn moved_by(self, ev: EventReq, approximated: bool, from: Session) -> bool {
        &&& self.status == from.status
        &&& self.game == from.game
        &&& self.pending_events == from.pending_events
        &&& self.approximated_path == (from.approximated_path || approximated)
        &&& match from.cached {
            Some(state) => self.cached matches Some(next) && next@ == state@.moved_to(
                cache::cached_outcome(state@, ev)->Ok_0.0,
            ),
            None => self.cached is None,
        }
    }
}

proof fn lemma_moves_are_actions(actions: Seq<Action>, action: Seq<char>, amount: Option<i32>)
    ensures
        decision_outcome(actions, action, amount) matches Ok((i, _)) ==> 0 <= i < actions.len(),
{
    actions.index_of_first_ensures(plain_action(action));
    if let Some(x) = amount {
        let sizes = sizes_for(actions, action);
        if let Some(i) = events::nearest(sizes, x) {
            assert(events::is_nearest_size(sizes, x, i));
        }
    }
}

/// Applies an observed event to a session: to its cached state, or to the
/// position of the engine's game. A refused event changes nothing.
pub fn apply_event(s: &mut Session, ev: &EventReq) -> (res: Result<Applied, Failure>)
    requires
        can_apply(*old(s), *ev),
    ensures
        match session_outcome(*old(s), *ev) {
            Ok((approximated, play)) => (res matches Ok(applied) && applied_is(
                applied,
                approximated,
                play,
            )) && final(s).moved_by(*ev, approximated, *old(s)),
            Err(f) => *final(s) == *old(s) && (res matches Err(e) && events::failure_is(e, f)),
        },
        old(s).wf() ==> final(s).wf(),
        res matches Ok(applied) ==> {
            &&& final(s).approximated_path == (old(s).approximated_path || applied.approximated)
            &&& applied.play is Some <==> old(s).cached is None
            &&& old(s).cached is None ==> (old(s).game matches Some(GameNode::Decision {
                actions,
                ..
            }) ==> (applied.play matches Some(i) && i < actions@.len()))
            &&& old(s).cached is None ==> (old(s).game matches Some(GameNode::Chance { .. })
                ==> ev.card is Some && (ev.card->0.card matches Ok(card) && applied.play == Some(
                card as usize,
            )))
        },
{
    if let Some(state) = &mut s.cached {
        return match cache::apply_cached_event(state, ev) {
            Ok(approximated) => {
                if approximated {
                    s.approximated_path = true;
                }
                Ok(Applied { approximated, play: None })
            },
            Err(e) => Err(e),
        };
    }
    proof {
        if let Some(GameNode::Decision { actions, .. }) = &s.game {
            if let Some(action) = &ev.action {
                lemma_moves_are_actions(actions@, action@, ev.amount);
            }
        }
    }
    let (play, approximated): (usize, bool) = match &s.game {
        None => {
            return Err(events::failure(409, "session not ready"));
        },
        Some(node) => match live_move(node, ev) {
            Ok(r) => r,
            Err(e) => {
                return Err(e);
            },
        },
    };
    if approximated {
        s.approximated_path = true;
    }
    Ok(Applied { approximated, play: Some(play) })
}

impl Session {
    /// A session whose solve has just begun.
    pub fn solving() -> (s: Session)
        ensures
            s.status is Solving,
            s.game is None,
            s.cached is None,
            s.pending_events@ == Seq::<EventReq>::empty(),
            !s.approximated_path,
            s.wf(),
    {
        Session {
            status: Status::Solving,
            game: None,
            cached: None,
            pending_events: Vec::new(),
            approximated_path: false,
        }
    }

    /// A session that is served from the cache, ready at once.
    pub fn from_cache(state: CachedState) -> (s: Session)
        ensures
            s.status is Ready,
            s.game is None,
            s.cached == Some(state),
            s.pending_events@ == Seq::<EventReq>::empty(),
            !s.approximated_path,
            state@.wf() ==> s.wf(),
    {
        Session {
            status: Status::Ready,
            game: None,
            cached: Some(state),
            pending_events: Vec::new(),
            approximated_path: false,
        }
    }

    /// The solve is done: the game stands at its root.
    pub fn solved(&mut self, root: GameNode)
        ensures
            final(self).status is Ready,
            final(self).game == Some(root),
            final(self).cached == old(self).cached,
            final(self).pending_events == old(self).pending_events,
            final(self).approximated_path == old(self).approximated_path,
            old(self).wf() ==> final(self).wf(),
    {
        self.game = Some(root);
        self.status = Status::Ready;
    }

    /// The solve has failed, for the given reason.
    pub fn failed(&mut self, reason: String)
        ensures
            final(self).status matches Status::Failed(r) && r@ == reason@,
            final(self).game == old(self).game,
            final(self).cached == old(self).cached,
            final(self).pending_events == old(self).pending_events,
            final(self).approximated_path == old(self).approximated_path,
            old(self).wf() ==> final(self).wf(),
    {
        self.status = Status::Failed(reason);
    }
}

/// Takes an event for a session: queues it while the solve runs, refuses it
/// once the solve has failed, and applies it otherwise.
pub fn post_event(s: &mut Session, ev: EventReq) -> (res: Result<Applied, Failure>)
    requires
        old(s).status is Ready ==> can_apply(*old(s), ev),
    ensures
        match old(s).status {
            Status::Solving => {
                &&& res matches Ok(applied) && applied_is(applied, false, None)
                &&& final(s).pending_events@ == old(s).pending_events@.push(ev)
                &&& final(s).status == old(s).status
                &&& final(s).game == old(s).game
                &&& final(s).cached == old(s).cached
                &&& final(s).approximated_path == old(s).approximated_path
            },
            Status::Failed(reason) => {
                &&& *final(s) == *old(s)
                &&& res matches Err(e) && events::failure_is(
                    e,
                    (409, "session failed: "@ + reason@),
                )
            },
            Status::Ready => match session_outcome(*old(s), ev) {
                Ok((approximated, play)) => (res matches Ok(applied) && applied_is(
                    applied,
                    approximated,
                    play,
                )) && final(s).moved_by(ev, approximated, *old(s)),
                Err(f) => *final(s) == *old(s) && (res matches Err(e) && events::failure_is(e, f)),
            },
        },
        old(s).wf() ==> final(s).wf(),
{
    match &s.status {
        Status::Solving => {
            s.pending_events.push(ev);
            Ok(Applied { approximated: false, play: None })
        },
        Status::Failed(reason) => Err(
            (409, text::joined("session failed: ", reason.as_str())),
        ),
        Status::Ready => apply_event(s, &ev),
    }
}

/// What happened to the next queued event: there was none, or it could not be
/// applied; or it was applied, and the engine has to play a move, if any.
pub enum Queued {
    Finished,
    Applied(Option<usize>),
}

impl Session {
    /// The session after the next event of its queue was taken: an accepted
    /// event moves it and leaves the queue; a refused one fails it, with the
    /// words of the refusal, and drops the rest of the queue.
    pub open spec fn took_queued(self, from: Session) -> bool {
        let ev = from.pending_events@[0];
        match session_outcome(from, ev) {
            Ok((approximated, _)) => {
                &&& self.pending_events@ == from.pending_events@.drop_first()
                &&& (Session { pending_events: from.pending_events, ..self }).moved_by(
                    ev,
                    approximated,
                    from,
                )
            },
            Err(f) => {
                &&& self.status matches Status::Failed(reason) && reason@ == queue_failure(f)
                &&& self.pending_events@ == Seq::<EventReq>::empty()
                &&& self.game == from.game
                &&& self.cached == from.cached
                &&& self.approximated_path == from.approximated_path
            },
        }
    }
}

/// Why a session failed whose queued event was refused.
pub open spec fn queue_failure(f: events::FailureView) -> Seq<char> {
    "queued event could not be applied: "@ + f.1
}

/// Applies the next event that was queued while solving. One that cannot be
/// applied fails the session and drops the rest of the queue.
pub fn apply_next_pending(s: &mut Session) -> (res: Queued)
    requires
        old(s).pending_events@.len() > 0 ==> can_apply(*old(s), old(s).pending_events@[0]),
    ensures
        old(s).pending_events@.len() == 0 ==> res is Finished && *final(s) == *old(s),
        old(s).pending_events@.len() > 0 ==> final(s).took_queued(*old(s)) && (
        match session_outcome(*old(s), old(s).pending_events@[0]) {
            Ok((approximated, play)) => res matches Queued::Applied(next) && applied_is(
                (Applied { approximated, play: next }),
                approximated,
                play,
            ),
            Err(_) => res is Finished,
        }),
        old(s).wf() ==> final(s).wf(),
{
    if s.pending_events.len() == 0 {
        return Queued::Finished;
    }
    let ev: EventReq = s.pending_events.remove(0);
    assert(s.pending_events@ =~= old(s).pending_events@.drop_first());
    match apply_event(s, &ev) {
        Ok(applied) => Queued::Applied(applied.play),
        Err(e) => {
            s.status = Status::Failed(
                text::joined("queued event could not be applied: ", e.1.as_str()),
            );
            s.pending_events.clear();
            Queued::Finished
        },
    }
}

// ---- Solving -------------------------------------------------------------------------------

/// Default maximum number of iterations of a solve.
pub const DEFAULT_MAX_ITERATIONS: u32 = 300;

/// The least and the most iterations that a request can ask for.
pub const MIN_MAX_ITERATIONS: u32 = 10;

pub const MAX_MAX_ITERATIONS: u32 = 2000;

/// The exploitability is measured again after so many iterations.
pub const MEASURE_EVERY: u32 = 10;

/// Solver storage is compressed when the plain estimate exceeds this (1 GiB).
pub const MAX_UNCOMPRESSED_BYTES: u64 = 1073741824;

/// Whether a tree of the given plain size is stored compressed.
pub fn needs_compression(uncompressed_bytes: u64) -> (r: bool)
    ensures
        r == (uncompressed_bytes > 1024 * 1024 * 1024),
{
    uncompressed_bytes > MAX_UNCOMPRESSED_BYTES
}

/// Why a solve stops.
pub enum StopReason {
    /// It has run as many iterations as it may.
    Exhausted,
    /// It is as exact as asked for.
    TargetReached,
    /// Its time is up.
    OutOfTime,
}

/// What a solve does next.
pub enum SolveAction {
    Stop(StopReason),
    /// Run the iteration of this number.
    Iterate(u32),
}

/// The iterations of a solve: how many were run, of how many at most.
pub struct SolveLoop {
    pub done: u32,
    pub max_iterations: u32,
}

/// The number of iterations that were run when the exploitability was last
/// measured: every tenth and the last one; none at the start.
pub open spec fn last_measured(done: int, max_iterations: int) -> int {
    if done == max_iterations {
        done
    } else {
        done - done % 10
    }
}

/// What a solve does next, after `done` iterations.
pub open spec fn solve_action(
    done: u32,
    max_iterations: u32,
    target_reached: bool,
    out_of_time: bool,
) -> SolveAction {
    if done == max_iterations {
        SolveAction::Stop(StopReason::Exhausted)
    } else if target_reached {
        SolveAction::Stop(StopReason::TargetReached)
    } else if out_of_time {
        SolveAction::Stop(StopReason::OutOfTime)
    } else {
        SolveAction::Iterate(done)
    }
}

/// The exploitability is measured after so many iterations.
pub open spec fn is_measured(done: int, max_iterations: int) -> bool {
    done % 10 == 0 || done == max_iterations
}

impl SolveLoop {
    pub open spec fn inv(self) -> bool {
        self.done <= self.max_iterations
    }

    pub fn new(max_iterations: u32) -> (l: SolveLoop)
        ensures
            l.inv(),
            l.done == 0,
            l.max_iterations == max_iterations,
    {
        SolveLoop { done: 0, max_iterations }
    }

    /// What to do next, given whether the exploitability last measured meets
    /// the target and whether the time is up.
    pub fn next(&self, target_reached: bool, out_of_time: bool) -> (action: SolveAction)
        requires
            self.inv(),
        ensures
            action == (if self.done == self.max_iterations {
                SolveAction::Stop(StopReason::Exhausted)
            } else if target_reached {
                SolveAction::Stop(StopReason::TargetReached)
            } else if out_of_time {
                SolveAction::Stop(StopReason::OutOfTime)
            } else {
                SolveAction::Iterate(self.done)
            }),
            action == solve_action(
                self.done,
                self.max_iterations,
                target_reached,
                out_of_time,
            ),
    {
        if self.done >= self.max_iterations {
            SolveAction::Stop(StopReason::Exhausted)
        } else if target_reached {
            SolveAction::Stop(StopReason::TargetReached)
        } else if out_of_time {
            SolveAction::Stop(StopReason::OutOfTime)
        } else {
            SolveAction::Iterate(self.done)
        }
    }

    /// Counts an iteration that was run, and tells whether the exploitability
    /// is to be measured now: after every tenth iteration and after the last.
    pub fn iterated(&mut self) -> (measure: bool)
        requires
            old(self).inv(),
            old(self).done < old(self).max_iterations,
        ensures
            final(self).inv(),
            final(self).done == old(self).done + 1,
            final(self).max_iterations == old(self).max_iterations,
            measure == is_measured(final(self).done as int, final(self).max_iterations as int),
            measure == (final(self).done % 10 == 0 || final(self).done == final(self).max_iterations),
    {
        self.done = self.done + 1;
        self.done % MEASURE_EVERY == 0 || self.done == self.max_iterations
    }
}

// ---- Laws ----------------------------------------------------------------------------------

/// The exploitability in hand is never ten iterations old, and it is that of
/// the final strategy when a solve runs to its limit. It changes exactly when
/// a measurement is asked for.
pub proof fn law_measurement_is_recent(done: int, max_iterations: int)
    requires
        0 <= done < max_iterations,
    ensures
        last_measured(0, max_iterations) == 0,
        0 <= last_measured(done, max_iterations) <= done < last_measured(done, max_iterations) + 10,
        last_measured(max_iterations, max_iterations) == max_iterations,
        (done + 1) % 10 == 0 || done + 1 == max_iterations ==> last_measured(
            done + 1,
            max_iterations,
        ) == done + 1,
        !((done + 1) % 10 == 0 || done + 1 == max_iterations) ==> last_measured(
            done + 1,
            max_iterations,
        ) == last_measured(done, max_iterations),
{
}

/// The position of a live game with what a session remembers of the path to it.
pub struct LiveView {
    pub node: GameNode,
    pub approximated: bool,
}

/// An event at a position of a live game; `engine` gives the position after a
/// move.
pub open spec fn live_step(
    engine: spec_fn(GameNode, int) -> GameNode,
    at: LiveView,
    ev: EventReq,
) -> Result<LiveView, events::FailureView> {
    match live_outcome(at.node, ev) {
        Ok((i, approximated)) => Ok(
            LiveView {
                node: engine(at.node, i),
                approximated: at.approximated || approximated,
            },
        ),
        Err(f) => Err(f),
    }
}

/// A queue of events, applied from the front until one is refused.
pub open spec fn drained(
    engine: spec_fn(GameNode, int) -> GameNode,
    at: LiveView,
    queue: Seq<EventReq>,
) -> Result<LiveView, events::FailureView>
    decreases queue.len(),
{
    if queue.len() == 0 {
        Ok(at)
    } else {
        match live_step(engine, at, queue[0]) {
            Ok(next) => drained(engine, next, queue.drop_first()),
            Err(f) => Err(f),
        }
    }
}

/// Queueing one more event is the same as applying it once the queue before it
/// is worked off; if that fails, the event is not applied.
pub proof fn law_queued_is_applied_last(
    engine: spec_fn(GameNode, int) -> GameNode,
    at: LiveView,
    queue: Seq<EventReq>,
    ev: EventReq,
)
    ensures
        drained(engine, at, queue.push(ev)) == (match drained(engine, at, queue) {
            Ok(next) => live_step(engine, next, ev),
            Err(f) => Err(f),
        }),
    decreases queue.len(),
{
    let more = queue.push(ev);
    if queue.len() == 0 {
        assert(more.drop_first() =~= Seq::<EventReq>::empty());
        match live_step(engine, at, ev) {
            Ok(next) => {
                assert(drained(engine, next, more.drop_first()) == Ok::<
                    LiveView,
                    events::FailureView,
                >(next));
            },
            Err(f) => {},
        }
    } else {
        assert(more.drop_first() =~= queue.drop_first().push(ev));
        match live_step(engine, at, queue[0]) {
            Ok(next) => {
                law_queued_is_applied_last(engine, next, queue.drop_first(), ev);
            },
            Err(f) => {},
        }
    }
}

/// One step of a live session that works off its queue: the next event is
/// taken, and the program moves the game where the session asks for it.
pub open spec fn works_off(
    engine: spec_fn(GameNode, int) -> GameNode,
    s: Session,
    next: Session,
) -> bool {
    &&& s.pending_events@.len() > 0
    &&& (Session { game: s.game, ..next }).took_queued(s)
    &&& match session_outcome(s, s.pending_events@[0]) {
        Ok((_, play)) => next.game == Some(engine(s.game->0, play->0)),
        Err(_) => next.game == s.game,
    }
}

/// A session that is ready when its solve is done works off its whole queue:
/// in the end nothing is pending, and the session is ready, at the position
/// that the events lead to and with the mark that they leave; or it has failed,
/// with the words of the first refusal. It takes no more steps than it has
/// events.
pub proof fn law_session_works_off_its_queue(
    engine: spec_fn(GameNode, int) -> GameNode,
    states: Seq<Session>,
)
    requires
        states.len() > 0,
        states[0].status is Ready,
        states[0].cached is None,
        states[0].game is Some,
        forall|k: int|
            0 <= k < states.len() - 1 ==> works_off(engine, #[trigger] states[k], states[k + 1]),
        states.last().pending_events@.len() == 0,
    ensures
        states.len() - 1 <= states[0].pending_events@.len(),
        ({
            let first = states[0];
            let end = states.last();
            let at = LiveView { node: first.game->0, approximated: first.approximated_path };
            match drained(engine, at, first.pending_events@) {
                Ok(view) => {
                    &&& end.status is Ready
                    &&& end.game == Some(view.node)
                    &&& end.approximated_path == view.approximated
                },
                Err(f) => end.status matches Status::Failed(reason) && reason@ == queue_failure(f),
            }
        }),
    decreases states.len(),
{
    let first = states[0];
    if states.len() > 1 {
        let next = states[1];
        assert(works_off(engine, states[0], states[1]));
        let rest = states.drop_first();
        assert forall|k: int| 0 <= k < rest.len() - 1 implies works_off(
            engine,
            #[trigger] rest[k],
            rest[k + 1],
        ) by {
            assert(works_off(engine, states[k + 1], states[k + 1 + 1]));
        }
        match session_outcome(first, first.pending_events@[0]) {
            Ok((_, _)) => {
                law_session_works_off_its_queue(engine, rest);
            },
            Err(_) => {
                if states.len() > 2 {
                    assert(works_off(engine, states[1], states[2]));
                }
            },
        }
    }
}

/// A well-formed session can take every event, where the card that a game
/// deals is one that the engine knows, and can be asked for every hand.
pub proof fn law_sessions_stay_usable(s: Session, ev: EventReq, c1: u8, c2: u8)
    requires
        s.wf(),
        s.cached is None ==> (s.game matches Some(node) ==> has_dealable_card(node, ev)),
    ensures
        can_apply(s, ev),
        s.status is Ready ==> s.cached is Some || s.game is Some,
        s.cached matches Some(state) ==> state@.can_be_asked(c1, c2),
{
}

/// A session without a game and without a cache entry accepts no event.
pub proof fn law_unready_session_refuses(s: Session, ev: EventReq)
    requires
        s.game is None,
        s.cached is None,
    ensures
        session_outcome(s, ev) matches Err(f) && f.0 == 409,
{
}

/// A session before and after an event, whether posted or taken from the
/// queue: an accepted event moves it, and the program may have moved the game
/// since; a refused event leaves the path and the mark as they were.
pub open spec fn takes(s: Session, ev: EventReq, next: Session) -> bool {
    match session_outcome(s, ev) {
        Ok((approximated, _)) => (Session {
            game: s.game,
            pending_events: s.pending_events,
            ..next
        }).moved_by(ev, approximated, s),
        Err(_) => next.cached == s.cached && next.approximated_path == s.approximated_path,
    }
}

/// A session accepts the event and approximates its size.
pub open spec fn is_approximated_by(s: Session, ev: EventReq) -> bool {
    session_outcome(s, ev) matches Ok((approximated, _)) && approximated
}

/// The mark of a session is set exactly when it was set at first or when some
/// event that was applied since was approximated.
pub proof fn law_mark_tells_of_approximation(states: Seq<Session>, evs: Seq<EventReq>)
    requires
        states.len() == evs.len() + 1,
        forall|k: int|
            0 <= k < evs.len() ==> takes(states[k], #[trigger] evs[k], states[k + 1]),
    ensures
        states.last().approximated_path <==> states[0].approximated_path || exists|k: int|
            0 <= k < evs.len() && is_approximated_by(states[k], #[trigger] evs[k]),
{
    let marks = states.map_values(|s: Session| s.approximated_path);
    let hits = Seq::new(evs.len(), |k: int| is_approximated_by(states[k], evs[k]));
    assert forall|k: int| 0 <= k < hits.len() implies #[trigger] sets_mark(marks, hits, k) by {
        lemma_mark_after(states[k], evs[k], states[k + 1]);
    }
    lemma_marks(marks, hits);
    if exists|k: int| 0 <= k < hits.len() && #[trigger] is_hit(hits, k) {
        let k = choose|k: int| 0 <= k < hits.len() && #[trigger] is_hit(hits, k);
        assert(is_approximated_by(states[k], evs[k]));
    }
    if exists|k: int| 0 <= k < evs.len() && is_approximated_by(states[k], #[trigger] evs[k]) {
        let k = choose|k: int|
            0 <= k < evs.len() && is_approximated_by(states[k], #[trigger] evs[k]);
        assert(is_hit(hits, k));
    }
}

proof fn lemma_mark_after(s: Session, ev: EventReq, next: Session)
    requires
        takes(s, ev, next),
    ensures
        next.approximated_path == (s.approximated_path || is_approximated_by(s, ev)),
{
}

spec fn is_hit(hits: Seq<bool>, k: int) -> bool {
    hits[k]
}

spec fn sets_mark(marks: Seq<bool>, hits: Seq<bool>, k: int) -> bool {
    marks[k + 1] == (marks[k] || is_hit(hits, k))
}

/// A mark that each hit sets and nothing takes back.
proof fn lemma_marks(marks: Seq<bool>, hits: Seq<bool>)
    requires
        marks.len() == hits.len() + 1,
        forall|k: int|
            0 <= k < hits.len() ==> #[trigger] sets_mark(marks, hits, k),
    ensures
        marks.last() <==> marks[0] || exists|k: int| 0 <= k < hits.len() && #[trigger] is_hit(hits, k),
    decreases hits.len(),
{
    if hits.len() > 0 {
        let n = hits.len() - 1;
        let earlier = hits.drop_last();
        let before = marks.drop_last();
        assert forall|k: int| 0 <= k < earlier.len() implies #[trigger] sets_mark(
            before,
            earlier,
            k,
        ) by {
            assert(sets_mark(marks, hits, k));
        }
        lemma_marks(before, earlier);
        assert(sets_mark(marks, hits, n));
        if exists|k: int| 0 <= k < earlier.len() && #[trigger] is_hit(earlier, k) {
            let k = choose|k: int| 0 <= k < earlier.len() && #[trigger] is_hit(earlier, k);
            assert(is_hit(hits, k));
        }
        if exists|k: int| 0 <= k < hits.len() && #[trigger] is_hit(hits, k) {
            let k = choose|k: int| 0 <= k < hits.len() && #[trigger] is_hit(hits, k);
            if k < n {
                assert(is_hit(earlier, k));
            }
        }
    }
}

/// Whether a card may be dealt is a digit of the number that stands for the set
/// of possible cards: the digit of that card, in base two.
pub proof fn law_possible_cards_are_binary_digits(possible_cards: u64, card: u8)
    requires
        card < 64,
    ensures
        can_be_dealt(possible_cards, card) <==> (possible_cards as nat
            / vstd::arithmetic::power2::pow2(card as nat)) % 2 == 1,
{
    let shift = card as u64;
    assert((possible_cards & (1u64 << card) != 0) <==> (possible_cards >> shift) % 2 == 1)
        by (bit_vector)
        requires
            shift == card as u64,
            card < 64,
    ;
    vstd::bits::lemma_u64_shr_is_div(possible_cards, shift);
}

/// Where a card is awaited, an event that names one is accepted exactly if the
/// digit of that card is one in the set of possible cards; the move is the card,
/// and nothing is approximated.
pub proof fn law_possible_cards_are_dealt(possible_cards: u64, ev: EventReq, card: u8)
    requires
        card < 64,
        ev.kind@ == "card"@,
        ev.card is Some,
        ev.card->0.card == Ok::<u8, String>(card),
    ensures
        live_outcome(GameNode::Chance { possible_cards }, ev) == Ok::<
            (int, bool),
            events::FailureView,
        >((card as int, false)) <==> (possible_cards as nat / vstd::arithmetic::power2::pow2(
            card as nat,
        )) % 2 == 1,
        (possible_cards as nat / vstd::arithmetic::power2::pow2(card as nat)) % 2 != 1
            ==> live_outcome(GameNode::Chance { possible_cards }, ev) == Err::<
            (int, bool),
            events::FailureView,
        >((409, "card "@ + ev.card->0.text@ + " cannot be dealt here"@)),
{
    law_possible_cards_are_binary_digits(possible_cards, card);
}

/// Where all 52 cards are possible, every card of the deck is dealt.
pub proof fn law_full_deck_is_dealt(possible_cards: u64, ev: EventReq, card: u8)
    requires
        possible_cards == 0xf_ffff_ffff_ffff,
        card < 52,
        ev.kind@ == "card"@,
        ev.card is Some,
        ev.card->0.card == Ok::<u8, String>(card),
    ensures
        live_outcome(GameNode::Chance { possible_cards }, ev) == Ok::<
            (int, bool),
            events::FailureView,
        >((card as int, false)),
{
    assert(possible_cards & (1u64 << card) != 0) by (bit_vector)
        requires
            possible_cards == 0xf_ffff_ffff_ffff,
            card < 52,
    ;
}

/// An observed check, call or fold is accepted exactly where that action is
/// available; the move is its number, and nothing is approximated.
pub proof fn law_live_plain_action_is_matched(
    node: GameNode,
    ev: EventReq,
    word: Seq<char>,
    want: Action,
)
    requires
        node is Decision,
        ev.kind@ == "action"@,
        ev.action is Some,
        ev.action->0@ == word,
        (word == "check"@ && want == Action::Check) || (word == "call"@ && want == Action::Call) || (
        word == "fold"@ && want == Action::Fold),
    ensures
        live_outcome(node, ev) is Ok <==> node->actions@.contains(want),
        live_outcome(node, ev) matches Ok((i, approximated)) ==> !approximated && 0 <= i
            < node->actions@.len() && node->actions@[i] == want && forall|j: int|
            0 <= j < i ==> node->actions@[j] != want,
        live_outcome(node, ev) matches Err(f) ==> f == (
            409u16,
            word + " is not available at this node"@,
        ),
{
    reveal_strlit("action");
    reveal_strlit("card");
    reveal_strlit("check");
    reveal_strlit("call");
    reveal_strlit("fold");
    assert("action"@.len() != "card"@.len());
    assert("check"@[1] == 'h' && "call"@[1] == 'a' && "fold"@[1] == 'o');
    node->actions@.index_of_first_ensures(want);
}

/// An action stands for an observed bet or raise with a total: one of its kind,
/// or going all in.
pub open spec fn offers(actions: Seq<Action>, word: Seq<char>, i: int, x: i32) -> bool {
    0 <= i < actions.len() && (actions[i] == Action::AllIn(x) || (word == "bet"@ && actions[i]
        == Action::Bet(x)) || (word == "raise"@ && actions[i] == Action::Raise(x)))
}

/// An observed bet or raise of a positive amount is accepted exactly where an
/// action of its kind, or going all in, is available. The move is the number of
/// one of those whose total is nearest to what was observed, the first of
/// several; and it is approximated exactly if that total differs from what was
/// observed by more than a fifth of it.
pub proof fn law_live_size_is_matched(
    node: GameNode,
    ev: EventReq,
    word: Seq<char>,
    amount: i32,
) -> (x: i32)
    requires
        node is Decision,
        ev.kind@ == "action"@,
        ev.action is Some,
        ev.action->0@ == word,
        word == "bet"@ || word == "raise"@,
        ev.amount == Some(amount),
        amount > 0,
    ensures
        live_outcome(node, ev) is Ok <==> exists|i: int, x: i32| #[trigger]
            offers(node->actions@, word, i, x),
        live_outcome(node, ev) matches Ok((k, approximated)) ==> {
            &&& offers(node->actions@, word, k, x)
            &&& approximated <==> 5 * vstd::math::abs(x - amount) > amount
            &&& forall|j: int, y: i32| #[trigger]
                offers(node->actions@, word, j, y) ==> vstd::math::abs(x - amount)
                    <= vstd::math::abs(y - amount) && (j < k ==> vstd::math::abs(x - amount)
                    < vstd::math::abs(y - amount))
        },
        live_outcome(node, ev) matches Err(f) ==> f == (
            409u16,
            "no "@ + word + " is available at this node"@,
        ),
{
    reveal_strlit("action");
    reveal_strlit("card");
    reveal_strlit("check");
    reveal_strlit("call");
    reveal_strlit("fold");
    reveal_strlit("bet");
    reveal_strlit("raise");
    assert("action"@.len() != "card"@.len());
    assert("bet"@[0] == 'b' && "raise"@[0] == 'r');
    assert("check"@[0] == 'c' && "call"@[0] == 'c' && "fold"@[0] == 'f');
    let actions = node->actions@;
    let sizes = sizes_for(actions, word);
    assert forall|i: int, x: i32| 0 <= i < actions.len() implies (sizes[i] == Some(x))
        == #[trigger] offers(actions, word, i, x) by {}
    events::law_something_is_matched_if_offered(sizes, amount);
    if exists|i: int, x: i32| #[trigger] offers(actions, word, i, x) {
        let (i, x) = choose|i: int, x: i32| #[trigger] offers(actions, word, i, x);
        assert(sizes[i] is Some);
    }
    if exists|i: int| 0 <= i < sizes.len() && (#[trigger] sizes[i]) is Some {
        let i = choose|i: int| 0 <= i < sizes.len() && (#[trigger] sizes[i]) is Some;
        assert(offers(actions, word, i, sizes[i]->0));
    }
    match events::nearest(sizes, amount) {
        Some(k) => {
            assert(events::is_nearest_size(sizes, amount, k));
            let x = sizes[k]->0;
            assert(offers(actions, word, k, x));
            assert forall|j: int, y: i32| #[trigger] offers(actions, word, j, y) implies vstd::math::abs(
                x - amount,
            ) <= vstd::math::abs(y - amount) && (j < k ==> vstd::math::abs(x - amount)
                < vstd::math::abs(y - amount)) by {
                assert(sizes[j] == Some(y));
                events::law_matched_size_is_nearest(sizes, amount, k, j, x, y);
            }
            x
        },
        None => 0,
    }
}

/// An event that asks for nothing is refused as a bad request, and one that
/// comes at the wrong time as a conflict, whether the session is cached or live.
pub proof fn law_misplaced_events_are_refused(node: GameNode, ev: EventReq, state: cache::CachedView)
    ensures
        node is Terminal ==> (live_outcome(node, ev) matches Err(f) && f.0 == 409),
        !(node is Terminal) && ev.kind@ != "card"@ && ev.kind@ != "action"@ ==> (live_outcome(
            node,
            ev,
        ) matches Err(f) && f.0 == 400),
        node is Chance && ev.kind@ == "action"@ ==> (live_outcome(node, ev) matches Err(f) && f.0
            == 409),
        node is Decision && ev.kind@ == "card"@ ==> (live_outcome(node, ev) matches Err(f) && f.0
            == 409),
        node is Chance && ev.kind@ == "card"@ && ev.card is None ==> (live_outcome(
            node,
            ev,
        ) matches Err(f) && f.0 == 400),
        node is Chance && ev.kind@ == "card"@ && ev.card is Some && ev.card->0.card is Err
            ==> live_outcome(node, ev) == Err::<(int, bool), events::FailureView>(
            (400, ev.card->0.card->Err_0@),
        ),
        node is Decision && ev.kind@ == "action"@ && ev.action is None ==> (live_outcome(
            node,
            ev,
        ) matches Err(f) && f.0 == 400),
        ({
            let word = ev.action->0@;
            let sized = word == "bet"@ || word == "raise"@;
            let plain = word == "check"@ || word == "call"@ || word == "fold"@;
            let empty = ev.action is Some && ((!sized && !plain) || (sized && (ev.amount is None
                || ev.amount->0 <= 0)));
            &&& node is Decision && ev.kind@ == "action"@ && empty ==> (live_outcome(
                node,
                ev,
            ) matches Err(f) && f.0 == 400)
            &&& !state.done && ev.kind@ == "action"@ && (empty || ev.action is None) ==> (
            cache::cached_outcome(state, ev) matches Err(f) && f.0 == 400)
        }),
        state.done ==> (cache::cached_outcome(state, ev) matches Err(f) && f.0 == 409),
        !state.done && ev.kind@ != "card"@ && ev.kind@ != "action"@ ==> (cache::cached_outcome(
            state,
            ev,
        ) matches Err(f) && f.0 == 400),
{
    reveal_strlit("action");
    reveal_strlit("card");
    reveal_strlit("check");
    reveal_strlit("call");
    reveal_strlit("fold");
    reveal_strlit("bet");
    reveal_strlit("raise");
    assert("action"@.len() != "card"@.len());
    assert("bet"@[0] == 'b' && "raise"@[0] == 'r');
    assert("check"@[0] == 'c' && "call"@[0] == 'c' && "fold"@[0] == 'f');
}

/// A session answers events from one source: its cached state if it has one,
/// and the game otherwise. Only the game has moves to play.
pub proof fn law_session_has_one_source(s: Session, ev: EventReq)
    ensures
        s.cached matches Some(state) ==> match cache::cached_outcome(state@, ev) {
            Ok((_, approximated)) => session_outcome(s, ev) == Ok::<
                (bool, Option<int>),
                events::FailureView,
            >((approximated, None)),
            Err(f) => session_outcome(s, ev) == Err::<(bool, Option<int>), events::FailureView>(f),
        },
        s.cached is None && s.game is Some ==> match live_outcome(s.game->0, ev) {
            Ok((i, approximated)) => session_outcome(s, ev) == Ok::<
                (bool, Option<int>),
                events::FailureView,
            >((approximated, Some(i))),
            Err(f) => session_outcome(s, ev) == Err::<(bool, Option<int>), events::FailureView>(f),
        },
{
}

/// A solve goes on exactly while it may run more iterations, is not as exact as
/// asked for, and has time left; it runs the iterations in turn. Why it stops is
/// told in this order.
pub proof fn law_solve_goes_on_while_it_may(
    done: u32,
    max_iterations: u32,
    target_reached: bool,
    out_of_time: bool,
)
    requires
        done <= max_iterations,
    ensures
        ({
            let action = solve_action(done, max_iterations, target_reached, out_of_time);
            &&& action is Iterate <==> done < max_iterations && !target_reached && !out_of_time
            &&& action matches SolveAction::Iterate(t) ==> t == done
            &&& action matches SolveAction::Stop(reason) ==> {
                &&& reason is Exhausted <==> done == max_iterations
                &&& reason is TargetReached <==> done < max_iterations && target_reached
                &&& reason is OutOfTime <==> done < max_iterations && !target_reached
            }
        }),
{
}

/// Among any ten iterations one is measured, and so is the last one that a solve
/// may run; no other is.
pub proof fn law_every_tenth_iteration_is_measured(k: int, r: int, max_iterations: int)
    requires
        0 <= k,
        0 <= r < 10,
        0 < max_iterations,
    ensures
        is_measured(10 * k + r, max_iterations) <==> r == 0 || 10 * k + r == max_iterations,
        is_measured(max_iterations, max_iterations),
{
}

/// The answer to an event tells its outcome: whether the size was approximated,
/// and the move to play, if any.
pub proof fn law_answers_tell_the_outcome(applied: Applied, approximated: bool, play: Option<int>)
    requires
        applied_is(applied, approximated, play),
    ensures
        applied.approximated == approximated,
        applied.play is Some <==> play is Some,
        play matches Some(i) ==> applied.play->0 == i,
{
}

/// An accepted event leaves a session as it was, but for the path of its cached
/// state and the mark.
pub proof fn law_accepted_event_only_moves(
    next: Session,
    s: Session,
    ev: EventReq,
    approximated: bool,
)
    requires
        next.moved_by(ev, approximated, s),
    ensures
        next.status == s.status,
        next.game == s.game,
        next.pending_events == s.pending_events,
        next.approximated_path <==> s.approximated_path || approximated,
        next.cached is Some <==> s.cached is Some,
        s.cached matches Some(before) ==> {
            let after = next.cached->0@;
            &&& after.path == cache::cached_outcome(before@, ev)->Ok_0.0
            &&& after.entry == before@.entry
            &&& after.live == before@.live
            &&& after.real_flop == before@.real_flop
            &&& after.note == before@.note
        },
{
    if let Some(before) = s.cached {
        cache::law_move_only_moves(before@, cache::cached_outcome(before@, ev)->Ok_0.0);
    }
}

/// What a step of the queue does, in terms of its parts: an accepted event is
/// taken from the front and changes no other; a refused one leaves nothing
/// queued and fails the session with its words.
pub proof fn law_queue_is_worked_off_from_the_front(next: Session, s: Session)
    requires
        s.pending_events@.len() > 0,
        next.took_queued(s),
    ensures
        session_outcome(s, s.pending_events@[0]) is Ok ==> next.pending_events@
            == s.pending_events@.subrange(1, s.pending_events@.len() as int) && next.status
            == s.status,
        session_outcome(s, s.pending_events@[0]) matches Err(f) ==> next.pending_events@.len() == 0
            && (next.status matches Status::Failed(reason) && reason@
            == "queued event could not be applied: "@ + f.1),
        next.game == s.game,
{
    assert(s.pending_events@.drop_first() =~= s.pending_events@.subrange(
        1,
        s.pending_events@.len() as int,
    ));
}

} // verus!
