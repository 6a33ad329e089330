//! Sessions that are served from the precomputed flop cache.

use crate::cards;
use crate::events;
use crate::events::{EventReq, Failure};
use crate::suits;
use crate::text;
use crate::tree;
use crate::tree::{CacheAction, CacheNode};
use vstd::hash_map::StringHashMap;
use vstd::prelude::*;

verus! {

pub const CACHE_FORMAT_VERSION: u32 = 1;

/// One solved flop: for a pair of ranges, the strategy at every decision of
/// the flop street.
pub struct CacheEntry {
    pub version: u32,
    pub oop_range: String,
    pub ip_range: String,
    /// The pot that the solve started with.
    pub pot: i32,
    pub flop: String,
    /// The hands of each player, in the order of the solve and in canonical
    /// suits.
    pub oop_hands: Vec<String>,
    pub ip_hands: Vec<String>,
    pub nodes: Vec<CacheNode>,
}

// ---- Hands ---------------------------------------------------------------------------------

/// The text splits after its second and after its fourth byte.
pub open spec fn is_hand_text(s: Seq<char>) -> bool {
    &&& vstd::utf8::is_char_boundary(vstd::utf8::encode_utf8(s), 2)
    &&& vstd::utf8::is_char_boundary(vstd::utf8::encode_utf8(s), 4)
}

pub open spec fn are_hand_texts(strings: Seq<String>) -> bool {
    forall|i: int| 0 <= i < strings.len() ==> is_hand_text(#[trigger] strings[i]@)
}

/// The card in two bytes of a hand's text; what names no card counts as card
/// zero.
pub open spec fn card_at(bytes: Seq<u8>, i: int) -> u8 {
    match cards::card_of(bytes[i] as char, bytes[i + 1] as char) {
        Some(c) => c,
        None => 0,
    }
}

/// Two cards, the lower first.
pub open spec fn in_order(a: u8, b: u8) -> (u8, u8) {
    (suits::smaller(a, b), suits::larger(a, b))
}

/// The hand that a text names.
pub open spec fn hand_of(s: Seq<char>) -> (u8, u8) {
    let bytes = vstd::utf8::encode_utf8(s);
    in_order(card_at(bytes, 0), card_at(bytes, 2))
}

pub open spec fn hands_of(strings: Seq<String>) -> Seq<(u8, u8)> {
    strings.map_values(|s: String| hand_of(s@))
}

fn ordered(a: u8, b: u8) -> (pair: (u8, u8))
    ensures
        pair == in_order(a, b),
{
    if a <= b {
        (a, b)
    } else {
        (b, a)
    }
}

fn splits_into_cards(s: &str) -> (r: bool)
    ensures
        r == is_hand_text(s@),
{
    let bytes: &[u8] = s.as_bytes();
    proof {
        vstd::utf8::encode_utf8_valid_utf8(s@);
        vstd::utf8::is_char_boundary_start_end_of_seq(bytes@);
    }
    if bytes.len() < 4 {
        return false;
    }
    proof {
        vstd::utf8::is_char_boundary_iff_not_is_continuation_byte(bytes@, 2);
        if bytes@.len() > 4 {
            vstd::utf8::is_char_boundary_iff_not_is_continuation_byte(bytes@, 4);
        }
    }
    (bytes[2] < 0x80 || bytes[2] > 0xbf) && (bytes.len() == 4 || bytes[4] < 0x80 || bytes[4] > 0xbf)
}

/// Whether all texts split after their second and after their fourth byte.
pub fn name_hands(strings: &Vec<String>) -> (r: bool)
    ensures
        r == are_hand_texts(strings@),
{
    let mut i: usize = 0;
    while i < strings.len()
        invariant
            i <= strings@.len(),
            forall|k: int| 0 <= k < i ==> is_hand_text(#[trigger] strings@[k]@),
        decreases strings@.len() - i,
    {
        if !splits_into_cards(strings[i].as_str()) {
            return false;
        }
        i += 1;
    }
    true
}

/// The hands that texts such as `AhKd` name, each with its lower card first.
pub fn parse_hands(strings: &Vec<String>) -> (hands: Vec<(u8, u8)>)
    requires
        are_hand_texts(strings@),
    ensures
        hands@ == hands_of(strings@),
{
    let mut hands: Vec<(u8, u8)> = Vec::new();
    let mut i: usize = 0;
    while i < strings.len()
        invariant
            i <= strings@.len(),
            are_hand_texts(strings@),
            hands@ == hands_of(strings@.take(i as int)),
        decreases strings@.len() - i,
    {
        let bytes: &[u8] = strings[i].as_str().as_bytes();
        proof {
            assert(is_hand_text(strings@[i as int]@));
            vstd::utf8::encode_utf8_valid_utf8(strings@[i as int]@);
        }
        let a: u8 = cards::card_from_chars(bytes[0] as char, bytes[1] as char).unwrap_or(0);
        let b: u8 = cards::card_from_chars(bytes[2] as char, bytes[3] as char).unwrap_or(0);
        hands.push(ordered(a, b));
        i += 1;
        assert(hands@ =~= hands_of(strings@.take(i as int)));
    }
    assert(strings@.take(i as int) =~= strings@);
    hands
}

fn first_index(hands: &Vec<(u8, u8)>, pair: (u8, u8)) -> (at: Option<usize>)
    ensures
        match at {
            Some(k) => hands@.index_of_first(pair) == Some(k as int) && k < hands@.len(),
            None => hands@.index_of_first(pair) is None,
        },
{
    proof {
        hands@.index_of_first_ensures(pair);
    }
    let mut i: usize = 0;
    while i < hands.len()
        invariant
            i <= hands@.len(),
            forall|k: int| 0 <= k < i ==> hands@[k] != pair,
            match hands@.index_of_first(pair) {
                Some(index) => {
                    &&& hands@.contains(pair)
                    &&& 0 <= index < hands@.len()
                    &&& hands@[index] == pair
                    &&& forall|j: int| 0 <= j < index < hands@.len() ==> hands@[j] != pair
                },
                None => !hands@.contains(pair),
            },
        decreases hands@.len() - i,
    {
        let (a, b): (u8, u8) = hands[i];
        if a == pair.0 && b == pair.1 {
            assert(hands@[i as int] == pair);
            return Some(i);
        }
        assert(hands@[i as int] != pair);
        i += 1;
    }
    None
}

// ---- State ---------------------------------------------------------------------------------

/// The runtime state of a session that is served from the cache.
pub struct CachedState {
    entry: CacheEntry,
    /// From a path to the position of its node in the entry.
    node_index: StringHashMap<usize>,
    /// The hands of both players, in the order of the entry.
    hands: [Vec<(u8, u8)>; 2],
    path: String,
    /// Real suit to canonical suit.
    perm: [u8; 4],
    /// For each action of each node, its amount (zero if it has none) in the
    /// units of the live pot.
    live: Vec<Vec<i32>>,
    real_flop: [u8; 3],
    /// No decision is left on the flop: folded, called or checked through.
    done: bool,
    note: String,
}

/// The content of a `CachedState`. The index, the hands and the renaming of
/// suits follow from it.
#[verifier::ext_equal]
pub struct CachedView {
    pub entry: CacheEntry,
    pub live: Seq<Vec<i32>>,
    pub path: Seq<char>,
    pub real_flop: Seq<u8>,
    pub done: bool,
    pub note: Seq<char>,
}

impl View for CachedState {
    type V = CachedView;

    closed spec fn view(&self) -> CachedView {
        CachedView {
            entry: self.entry,
            live: self.live@,
            path: self.path@,
            real_flop: self.real_flop@,
            done: self.done,
            note: self.note@,
        }
    }
}

/// The paths of the nodes of an entry.
pub open spec fn paths_of(nodes: Seq<CacheNode>) -> Seq<Seq<char>> {
    nodes.map_values(|n: CacheNode| n.path@)
}

/// The words of the actions of a node.
pub open spec fn words_of(actions: Seq<CacheAction>) -> Seq<Seq<char>> {
    actions.map_values(|a: CacheAction| a.action@)
}

/// There is one live amount for each action of each node.
pub open spec fn live_fits(live: Seq<Vec<i32>>, nodes: Seq<CacheNode>) -> bool {
    &&& live.len() == nodes.len()
    &&& forall|k: int|
        0 <= k < nodes.len() ==> (#[trigger] live[k])@.len() == nodes[k].actions@.len()
}

/// An index holds exactly the paths of the nodes, each with the last node of
/// that path.
pub open spec fn indexes(index: Map<Seq<char>, usize>, nodes: Seq<CacheNode>) -> bool {
    forall|p: Seq<char>|
        match paths_of(nodes).index_of_last(p) {
            Some(k) => #[trigger] index.contains_key(p) && index[p] == k && 0 <= k < nodes.len()
                && nodes[k].path@ == p,
            None => !index.contains_key(p),
        }
}

impl CachedView {
    /// The entry has a node for the path that was played.
    pub open spec fn is_at_node(self) -> bool {
        paths_of(self.entry.nodes@).contains(self.path)
    }

    /// The session is over or at a node of its entry.
    pub open spec fn wf(self) -> bool {
        self.done || self.is_at_node()
    }

    /// The position of the node for the path that was played.
    pub open spec fn node_position(self) -> int {
        paths_of(self.entry.nodes@).index_of_last(self.path)->0
    }

    /// The node for the path that was played.
    pub open spec fn node(self) -> CacheNode {
        self.entry.nodes@[self.node_position()]
    }

    /// The amounts of the actions of that node, in the units of the live pot.
    pub open spec fn live_amounts(self) -> Seq<i32> {
        self.live[self.node_position()]@
    }
}

impl CachedState {
    #[verifier::type_invariant]
    spec fn holds_together(self) -> bool {
        &&& indexes(self.node_index@, self.entry.nodes@)
        &&& live_fits(self.live@, self.entry.nodes@)
        &&& self.hands@[0]@ == hands_of(self.entry.oop_hands@)
        &&& self.hands@[1]@ == hands_of(self.entry.ip_hands@)
        &&& self.perm@ == suits::canonical_perm(self.real_flop@)
    }

    /// Whether the entry has a node for the path that was played.
    pub fn at_node(&self) -> (r: bool)
        ensures
            r == self@.is_at_node(),
    {
        proof {
            use_type_invariant(self);
            lemma_indexed(*self);
        }
        self.node_index.contains_key(self.path.as_str())
    }

    /// The path that was played.
    pub fn path(&self) -> (path: &str)
        ensures
            path@ == self@.path,
    {
        self.path.as_str()
    }

    /// Whether no decision is left on the flop.
    pub fn is_done(&self) -> (r: bool)
        ensures
            r == self@.done,
    {
        self.done
    }

    /// What the session tells of the entry that it is served from.
    pub fn note(&self) -> (note: &str)
        ensures
            note@ == self@.note,
    {
        self.note.as_str()
    }

    /// Whether a card lies on the flop.
    pub fn is_on_flop(&self, card: u8) -> (r: bool)
        ensures
            r == self@.real_flop.contains(card),
    {
        is_on(&self.real_flop, card)
    }
}

proof fn lemma_indexed(state: CachedState)
    requires
        state.holds_together(),
    ensures
        state@.is_at_node() == state.node_index@.contains_key(state.path@),
        state@.is_at_node() ==> state.node_index@[state.path@] == state@.node_position() && 0
            <= state@.node_position() < state.entry.nodes@.len() && state@.node().path@
            == state.path@,
{
    let paths = paths_of(state.entry.nodes@);
    paths.index_of_last_ensures(state.path@);
    assert(match paths.index_of_last(state.path@) {
        Some(k) => state.node_index@.contains_key(state.path@),
        None => !state.node_index@.contains_key(state.path@),
    });
}

fn index_nodes(nodes: &Vec<CacheNode>) -> (index: StringHashMap<usize>)
    ensures
        indexes(index@, nodes@),
{
    let mut index: StringHashMap<usize> = StringHashMap::new();
    let mut i: usize = 0;
    proof {
        assert forall|p: Seq<char>| paths_of(nodes@.take(0)).index_of_last(p) is None by {
            paths_of(nodes@.take(0)).index_of_last_ensures(p);
        }
    }
    while i < nodes.len()
        invariant
            i <= nodes@.len(),
            indexes(index@, nodes@.take(i as int)),
        decreases nodes@.len() - i,
    {
        let ghost before = index@;
        index.insert(nodes[i].path.clone(), i);
        proof {
            let old_paths = paths_of(nodes@.take(i as int));
            let new_paths = paths_of(nodes@.take(i + 1));
            assert(new_paths =~= old_paths.push(nodes@[i as int].path@));
            assert forall|p: Seq<char>|
                match new_paths.index_of_last(p) {
                    Some(k) => #[trigger] index@.contains_key(p) && index@[p] == k && 0 <= k < i + 1
                        && nodes@.take(i + 1)[k].path@ == p,
                    None => !index@.contains_key(p),
                } by {
                old_paths.index_of_last_ensures(p);
                new_paths.index_of_last_ensures(p);
                lemma_last_of_push(old_paths, nodes@[i as int].path@, p);
                assert(before.contains_key(p) || !before.contains_key(p));
            }
        }
        i += 1;
    }
    assert(nodes@.take(i as int) =~= nodes@);
    index
}

proof fn lemma_last_of_push(s: Seq<Seq<char>>, x: Seq<char>, p: Seq<char>)
    ensures
        s.push(x).index_of_last(p) == (if x == p {
            Some(s.len() as int)
        } else {
            s.index_of_last(p)
        }),
{
    let t = s.push(x);
    s.index_of_last_ensures(p);
    t.index_of_last_ensures(p);
    if x == p {
        assert(t[s.len() as int] == p);
    } else {
        if s.contains(p) {
            let i = s.index_of_last(p)->0;
            assert(t[i] == p);
            let j = t.index_of_last(p)->0;
            assert(t[j] == p);
            assert(j < s.len() && s[j] == p);
        } else if t.contains(p) {
            let j = choose|j: int| 0 <= j < t.len() && t[j] == p;
            assert(s[j] == p);
        }
    }
}

/// An entry has the current format and is for a pair of ranges.
pub open spec fn is_for(entry: CacheEntry, oop_range: Seq<char>, ip_range: Seq<char>) -> bool {
    entry.version == CACHE_FORMAT_VERSION && entry.oop_range@ == oop_range && entry.ip_range@
        == ip_range
}

/// Whether an entry has the current format and is for a pair of ranges. The
/// ranges are compared in full: two pairs may share a hash.
pub fn entry_is_for(entry: &CacheEntry, oop_range: &str, ip_range: &str) -> (r: bool)
    ensures
        r == is_for(*entry, oop_range@, ip_range@),
{
    entry.version == CACHE_FORMAT_VERSION && text::same_text(entry.oop_range.as_str(), oop_range)
        && text::same_text(entry.ip_range.as_str(), ip_range)
}

/// The state of a session at the root of the flop, if the entry that was read
/// has the current format and is for these ranges.
pub fn find_cached(
    oop_range: &str,
    ip_range: &str,
    real_flop: [u8; 3],
    entry: CacheEntry,
    live: Vec<Vec<i32>>,
    note: String,
) -> (found: Option<CachedState>)
    requires
        live_fits(live@, entry.nodes@),
        is_for(entry, oop_range@, ip_range@) ==> are_hand_texts(entry.oop_hands@)
            && are_hand_texts(entry.ip_hands@),
    ensures
        found is Some <==> is_for(entry, oop_range@, ip_range@),
        found matches Some(state) ==> state@ == (CachedView {
            entry,
            live: live@,
            path: Seq::empty(),
            real_flop: real_flop@,
            done: false,
            note: note@,
        }),
{
    if !entry_is_for(&entry, oop_range, ip_range) {
        return None;
    }
    let (_canon, perm): ([u8; 3], [u8; 4]) = suits::canonical_flop(real_flop);
    let node_index: StringHashMap<usize> = index_nodes(&entry.nodes);
    let hands: [Vec<(u8, u8)>; 2] = [parse_hands(&entry.oop_hands), parse_hands(&entry.ip_hands)];
    Some(
        CachedState {
            entry,
            node_index,
            hands,
            path: String::new(),
            perm,
            live,
            real_flop,
            done: false,
            note,
        },
    )
}

// ---- Events --------------------------------------------------------------------------------

/// Whether an action of a node can stand for an observed bet or raise: one of
/// the same kind can, and so can going all in.
pub open spec fn stands_for(word: Seq<char>, observed: Seq<char>) -> bool {
    word == observed || word == "allin"@
}

/// The live sizes on offer for an observed bet or raise, action by action.
pub open spec fn sizes_for(
    actions: Seq<CacheAction>,
    live: Seq<i32>,
    observed: Seq<char>,
) -> Seq<Option<i32>> {
    Seq::new(
        actions.len(),
        |i: int|
            if stands_for(actions[i].action@, observed) {
                Some(live[i])
            } else {
                None
            },
    )
}

/// What an event does to a session: the path it leads to and whether the size
/// was approximated, or why it is refused.
pub open spec fn cached_outcome(state: CachedView, ev: EventReq) -> Result<
    (Seq<char>, bool),
    events::FailureView,
> {
    if state.done {
        Err((409, "flop street is over (cached session) — re-root at the current street"@))
    } else if ev.kind@ == "card"@ {
        Err((409, "cached session covers the flop only — re-root at the current street"@))
    } else if ev.kind@ != "action"@ {
        Err((400, "unknown event kind \""@ + ev.kind@ + "\""@))
    } else {
        match ev.action {
            None => Err((400, "missing \"action\""@)),
            Some(action) => observed_outcome(state, action@, ev.amount),
        }
    }
}

/// What an observed action does at the node of a session.
pub open spec fn observed_outcome(
    state: CachedView,
    action: Seq<char>,
    amount: Option<i32>,
) -> Result<(Seq<char>, bool), events::FailureView> {
    let actions = state.node().actions@;
    let live = state.live_amounts();
    if action == "check"@ || action == "call"@ || action == "fold"@ {
        match words_of(actions).index_of_first(action) {
            Some(i) => Ok((state.path_after(i), false)),
            None => Err((409, action + " is not available at this node"@)),
        }
    } else if action == "bet"@ || action == "raise"@ {
        match amount {
            None => Err((400, "missing \"amount\""@)),
            Some(amount) => if amount <= 0 {
                Err((400, "\"amount\" must be positive"@))
            } else {
                match events::nearest(sizes_for(actions, live, action), amount) {
                    Some(i) => Ok((state.path_after(i), events::is_approximate(live[i], amount))),
                    None => Err((409, "no "@ + action + " is available at this node"@)),
                }
            },
        }
    } else {
        Err((400, "unknown action \""@ + action + "\""@))
    }
}

impl CachedView {
    /// The path after the `i`-th action of the node.
    pub open spec fn path_after(self, i: int) -> Seq<char> {
        let a = self.node().actions@[i];
        tree::child_path(self.path, tree::token_text(a.action@, a.amount))
    }

    /// The event is matched against the node of the path that was played.
    pub open spec fn consults_node(self, ev: EventReq) -> bool {
        !self.done && ev.kind@ == "action"@ && ev.action is Some
    }

    /// The session after a move to a path: it is over if the entry has no node
    /// for that path.
    pub open spec fn moved_to(self, path: Seq<char>) -> CachedView {
        CachedView { path, done: !paths_of(self.entry.nodes@).contains(path), ..self }
    }
}

impl CachedState {
    /// Whether an event is matched against the node of the path that was
    /// played.
    pub fn needs_node(&self, ev: &EventReq) -> (r: bool)
        ensures
            r == self@.consults_node(*ev),
    {
        !self.done && text::same_text(ev.kind.as_str(), "action") && ev.action.is_some()
    }
}

fn first_word(actions: &Vec<CacheAction>, word: &str) -> (at: Option<usize>)
    ensures
        match at {
            Some(k) => words_of(actions@).index_of_first(word@) == Some(k as int) && k
                < actions@.len(),
            None => words_of(actions@).index_of_first(word@) is None,
        },
{
    let ghost words = words_of(actions@);
    proof {
        words.index_of_first_ensures(word@);
    }
    let mut i: usize = 0;
    while i < actions.len()
        invariant
            i <= actions@.len(),
            words == words_of(actions@),
            forall|k: int| 0 <= k < i ==> words[k] != word@,
            match words.index_of_first(word@) {
                Some(index) => {
                    &&& words.contains(word@)
                    &&& 0 <= index < words.len()
                    &&& words[index] == word@
                    &&& forall|j: int| 0 <= j < index < words.len() ==> words[j] != word@
                },
                None => !words.contains(word@),
            },
        decreases actions@.len() - i,
    {
        if text::same_text(actions[i].action.as_str(), word) {
            assert(words[i as int] == word@);
            return Some(i);
        }
        assert(words[i as int] != word@);
        i += 1;
    }
    None
}

fn live_sizes(actions: &Vec<CacheAction>, live: &Vec<i32>, observed: &str) -> (sizes: Vec<
    Option<i32>,
>)
    requires
        live@.len() == actions@.len(),
    ensures
        sizes@ == sizes_for(actions@, live@, observed@),
{
    let mut sizes: Vec<Option<i32>> = Vec::new();
    let mut i: usize = 0;
    while i < actions.len()
        invariant
            i <= actions@.len(),
            live@.len() == actions@.len(),
            sizes@ == sizes_for(actions@, live@, observed@).take(i as int),
        decreases actions@.len() - i,
    {
        let word: &str = actions[i].action.as_str();
        if text::same_text(word, observed) || text::same_text(word, "allin") {
            sizes.push(Some(live[i]));
        } else {
            sizes.push(None);
        }
        i += 1;
        assert(sizes@ =~= sizes_for(actions@, live@, observed@).take(i as int));
    }
    assert(sizes@ =~= sizes_for(actions@, live@, observed@));
    sizes
}

/// Matches an observed action against the node of a session: the position of
/// the action that stands for it, and whether its size was approximated.
fn matched_action(state: &CachedState, action: &str, amount: Option<i32>) -> (res: Result<
    (usize, bool),
    Failure,
>)
    requires
        state@.is_at_node(),
    ensures
        match observed_outcome(state@, action@, amount) {
            Ok((path, approximated)) => res matches Ok((i, a)) && i < state@.node().actions@.len()
                && state@.path_after(i as int) == path && a == approximated,
            Err(f) => res matches Err(e) && events::failure_is(e, f),
        },
{
    proof {
        use_type_invariant(state);
        lemma_indexed(*state);
    }
    let at: usize = *state.node_index.get(state.path.as_str()).unwrap();
    let node: &CacheNode = &state.entry.nodes[at];
    let live: &Vec<i32> = &state.live[at];
    assert(state.live@[at as int]@.len() == node.actions@.len());
    if text::same_text(action, "check") || text::same_text(action, "call") || text::same_text(
        action,
        "fold",
    ) {
        match first_word(&node.actions, action) {
            Some(i) => Ok((i, false)),
            None => {
                let f: Failure = events::failure_about(
                    409,
                    "",
                    action,
                    " is not available at this node",
                );
                proof {
                    reveal_strlit("");
                    assert(""@ + action@ =~= action@);
                }
                Err(f)
            },
        }
    } else if text::same_text(action, "bet") || text::same_text(action, "raise") {
        match amount {
            None => Err(events::failure(400, "missing \"amount\"")),
            Some(amount) => {
                if amount <= 0 {
                    return Err(events::failure(400, "\"amount\" must be positive"));
                }
                let sizes: Vec<Option<i32>> = live_sizes(&node.actions, live, action);
                match events::nearest_size(&sizes, amount) {
                    Some(i) => Ok((i, events::approximates(live[i], amount))),
                    None => Err(
                        events::failure_about(409, "no ", action, " is available at this node"),
                    ),
                }
            },
        }
    } else {
        Err(events::failure_about(400, "unknown action \"", action, "\""))
    }
}

/// Applies an observed flop event to a cached session by matching it against
/// the actions of the current node, the nearest size for a bet or a raise.
/// Cards are refused: a cached session ends with the flop. Returns whether the
/// size was approximated. A refused event changes nothing.
pub fn apply_cached_event(state: &mut CachedState, ev: &EventReq) -> (res: Result<bool, Failure>)
    requires
        old(state)@.consults_node(*ev) ==> old(state)@.is_at_node(),
    ensures
        match cached_outcome(old(state)@, *ev) {
            Ok((path, approximated)) => res == Ok::<bool, Failure>(approximated) && final(state)@
                == old(state)@.moved_to(path),
            Err(f) => *final(state) == *old(state) && (res matches Err(e) && events::failure_is(
                e,
                f,
            )),
        },
        old(state)@.wf() ==> final(state)@.wf(),
{
    if state.done {
        return Err(
            events::failure(
                409,
                "flop street is over (cached session) — re-root at the current street",
            ),
        );
    }
    if text::same_text(ev.kind.as_str(), "card") {
        return Err(
            events::failure(
                409,
                "cached session covers the flop only — re-root at the current street",
            ),
        );
    }
    if !text::same_text(ev.kind.as_str(), "action") {
        return Err(
            events::failure_about(400, "unknown event kind \"", ev.kind.as_str(), "\""),
        );
    }
    let action: &String = match &ev.action {
        Some(a) => a,
        None => {
            return Err(events::failure(400, "missing \"action\""));
        },
    };
    let (i, approximated): (usize, bool) = match matched_action(
        state,
        action.as_str(),
        ev.amount,
    ) {
        Ok(r) => r,
        Err(e) => {
            return Err(e);
        },
    };
    proof {
        use_type_invariant(&*state);
        lemma_indexed(*state);
    }
    let at: usize = *state.node_index.get(state.path.as_str()).unwrap();
    let a: &CacheAction = &state.entry.nodes[at].actions[i];
    let token: String = tree::token_string(a.action.as_str(), a.amount);
    let path: String = tree::extended_path(state.path.as_str(), token.as_str());
    state.path = path;
    proof {
        lemma_indexed(*state);
    }
    if !state.node_index.contains_key(state.path.as_str()) {
        state.done = true;
    }
    Ok(approximated)
}

// ---- Strategy ------------------------------------------------------------------------------

/// One action of a strategy answer: its word, its amount in units of the live
/// pot, and the numbers that are stored for the hand, as bit patterns; a number
/// is missing where the stored list is too short for the hand.
pub struct StrategyLine {
    pub action: String,
    pub amount: Option<i32>,
    pub freq: Option<u32>,
    pub ev: Option<u32>,
}

/// The number at a position, unless the list ends before it.
pub open spec fn number_at(list: Seq<u32>, i: int) -> Option<u32> {
    if i < list.len() {
        Some(list[i])
    } else {
        None
    }
}

/// A line answers for an action and a hand.
pub open spec fn line_is(line: StrategyLine, a: CacheAction, live: i32, hand: int) -> bool {
    &&& line.action@ == a.action@
    &&& line.amount == (if a.amount is Some {
        Some(live)
    } else {
        None
    })
    &&& line.freq == number_at(a.freqs@, hand)
    &&& line.ev == number_at(a.evs@, hand)
}

impl CachedView {
    /// The hands of a player, in the order of the entry.
    pub open spec fn hands(self, player: int) -> Seq<(u8, u8)> {
        if player == 0 {
            hands_of(self.entry.oop_hands@)
        } else {
            hands_of(self.entry.ip_hands@)
        }
    }

    /// Two real cards as a hand in canonical suits.
    pub open spec fn renamed_hand(self, c1: u8, c2: u8) -> (u8, u8) {
        let perm = suits::canonical_perm(self.real_flop);
        in_order(suits::mapped(c1, perm), suits::mapped(c2, perm))
    }

    /// The hand of a player that two real cards are, by its position in the
    /// entry.
    pub open spec fn hand_position(self, player: int, c1: u8, c2: u8) -> Option<int> {
        self.hands(player).index_of_first(self.renamed_hand(c1, c2))
    }

    /// A question for two cards is answered or refused without a look at a node
    /// that the entry lacks.
    pub open spec fn can_be_asked(self, c1: u8, c2: u8) -> bool {
        !self.done && !self.real_flop.contains(c1) && !self.real_flop.contains(c2)
            ==> self.is_at_node()
    }

    /// The lines answer for every action of the node and the hand that two real
    /// cards are.
    pub open spec fn is_answered(
        self,
        lines: Seq<StrategyLine>,
        player: int,
        c1: u8,
        c2: u8,
    ) -> bool {
        &&& lines.len() == self.node().actions@.len()
        &&& forall|i: int|
            0 <= i < lines.len() ==> line_is(
                #[trigger] lines[i],
                self.node().actions@[i],
                self.live_amounts()[i],
                self.hand_position(player, c1, c2)->0,
            )
    }

    /// Why a strategy question cannot be answered, if so.
    pub open spec fn strategy_refusal(self, player: int, c1: u8, c2: u8) -> Option<
        events::FailureView,
    > {
        if self.done {
            Some((409, "flop street is over (cached session) — re-root at the current street"@))
        } else if self.real_flop.contains(c1) || self.real_flop.contains(c2) {
            Some((404, "hand conflicts with the board"@))
        } else if self.node().player != player {
            Some((409, "not this player's turn"@))
        } else if self.hand_position(player, c1, c2) is None {
            Some((404, "hand not in this player's range"@))
        } else {
            None
        }
    }
}

fn is_on(board: &[u8; 3], card: u8) -> (r: bool)
    ensures
        r == board@.contains(card),
{
    if board[0] == card || board[1] == card || board[2] == card {
        assert(board@[0] == card || board@[1] == card || board@[2] == card);
        true
    } else {
        false
    }
}

fn stored_number(list: &Vec<u32>, i: usize) -> (r: Option<u32>)
    ensures
        r == number_at(list@, i as int),
{
    if i < list.len() {
        Some(list[i])
    } else {
        None
    }
}

/// The strategy for one hand of one player (0 out of position, 1 in position)
/// at the current node: an answer for each action, or why there is none.
pub fn cached_strategy(state: &CachedState, player: usize, c1: u8, c2: u8) -> (res: Result<
    Vec<StrategyLine>,
    Failure,
>)
    requires
        player < 2,
        state@.can_be_asked(c1, c2),
    ensures
        match state@.strategy_refusal(player as int, c1, c2) {
            Some(f) => res matches Err(e) && events::failure_is(e, f),
            None => res matches Ok(lines) && state@.is_answered(lines@, player as int, c1, c2),
        },
        res matches Ok(lines) ==> lines@.len() == state@.node().actions@.len() && forall|i: int|
            0 <= i < lines@.len() ==> (#[trigger] lines@[i]).action@
                == state@.node().actions@[i].action@ && lines@[i].amount == (
            match state@.node().actions@[i].amount {
                Some(_) => Some(state@.live[state@.node_position()]@[i]),
                None => None,
            }),
{
    if state.done {
        return Err(
            events::failure(
                409,
                "flop street is over (cached session) — re-root at the current street",
            ),
        );
    }
    if is_on(&state.real_flop, c1) || is_on(&state.real_flop, c2) {
        return Err(events::failure(404, "hand conflicts with the board"));
    }
    proof {
        use_type_invariant(state);
        lemma_indexed(*state);
    }
    let at: usize = *state.node_index.get(state.path.as_str()).unwrap();
    let node: &CacheNode = &state.entry.nodes[at];
    let live: &Vec<i32> = &state.live[at];
    assert(state.live@[at as int]@.len() == node.actions@.len());
    if node.player as usize != player {
        return Err(events::failure(409, "not this player's turn"));
    }
    let pair: (u8, u8) = ordered(
        suits::map_card(c1, &state.perm),
        suits::map_card(c2, &state.perm),
    );
    let hand: usize = match first_index(&state.hands[player], pair) {
        Some(k) => k,
        None => {
            return Err(events::failure(404, "hand not in this player's range"));
        },
    };
    let mut lines: Vec<StrategyLine> = Vec::new();
    let mut i: usize = 0;
    while i < node.actions.len()
        invariant
            i <= node.actions@.len(),
            live@.len() == node.actions@.len(),
            lines@.len() == i,
            forall|k: int|
                0 <= k < i ==> line_is(
                    #[trigger] lines@[k],
                    node.actions@[k],
                    live@[k],
                    hand as int,
                ),
        decreases node.actions@.len() - i,
    {
        let a: &CacheAction = &node.actions[i];
        let amount: Option<i32> = if a.amount.is_some() {
            Some(live[i])
        } else {
            None
        };
        lines.push(
            StrategyLine {
                action: a.action.clone(),
                amount,
                freq: stored_number(&a.freqs, hand),
                ev: stored_number(&a.evs, hand),
            },
        );
        i += 1;
    }
    Ok(lines)
}

// ---- Laws ----------------------------------------------------------------------------------

/// Writing the two cards of a hand and reading the text gives the hand back,
/// with its lower card first.
pub proof fn law_hand_text_reads_back(a: u8, b: u8)
    requires
        a < 52,
        b < 52,
    ensures
        is_hand_text(cards::card_text(a)->0 + cards::card_text(b)->0),
        hand_of(cards::card_text(a)->0 + cards::card_text(b)->0) == in_order(a, b),
{
    let s = cards::card_text(a)->0 + cards::card_text(b)->0;
    let bytes = vstd::utf8::encode_utf8(s);
    cards::law_card_text_reads_back(a);
    cards::law_card_text_reads_back(b);
    assert(vstd::utf8::is_ascii_chars(s));
    vstd::utf8::is_ascii_chars_encode_utf8(s);
    vstd::utf8::encode_utf8_valid_utf8(s);
    vstd::utf8::is_char_boundary_start_end_of_seq(bytes);
    assert(s[0] as u8 == bytes[0] && s[1] as u8 == bytes[1] && s[2] as u8 == bytes[2] && s[3] as u8
        == bytes[3]);
    assert(bytes[2] < 128);
    vstd::utf8::is_char_boundary_iff_not_is_continuation_byte(bytes, 2);
}

/// A hand that was solved is found: where the entry lists the renamed cards of
/// a hand, asking for the hand leads to those cards.
pub proof fn law_solved_hand_is_found(state: CachedView, player: int, h: int, c1: u8, c2: u8)
    requires
        player == 0 || player == 1,
        c1 < 52,
        c2 < 52,
        ({
            let listed = if player == 0 {
                state.entry.oop_hands@
            } else {
                state.entry.ip_hands@
            };
            let perm = suits::canonical_perm(state.real_flop);
            &&& 0 <= h < listed.len()
            &&& listed[h]@ == cards::card_text(suits::mapped(c1, perm))->0 + cards::card_text(
                suits::mapped(c2, perm),
            )->0
        }),
    ensures
        state.hand_position(player, c1, c2) matches Some(k) && 0 <= k <= h && state.hands(
            player,
        )[k] == state.renamed_hand(c1, c2),
{
    let perm = suits::canonical_perm(state.real_flop);
    suits::lemma_canonical_perm(state.real_flop);
    suits::lemma_mapped(c1, perm);
    suits::lemma_mapped(c2, perm);
    law_hand_text_reads_back(suits::mapped(c1, perm), suits::mapped(c2, perm));
    let hands = state.hands(player);
    assert(hands[h] == state.renamed_hand(c1, c2));
    hands.index_of_first_ensures(state.renamed_hand(c1, c2));
}

/// The node of a session has the path that was played, and no later node of the
/// entry has it.
pub proof fn law_node_has_the_path(state: CachedView, k: int)
    requires
        0 <= k < state.entry.nodes@.len(),
        state.entry.nodes@[k].path@ == state.path,
    ensures
        state.is_at_node(),
        0 <= state.node_position() < state.entry.nodes@.len(),
        state.node() == state.entry.nodes@[state.node_position()],
        state.node().path@ == state.path,
        k <= state.node_position(),
        state.live_amounts() == state.live[state.node_position()]@,
{
    let paths = paths_of(state.entry.nodes@);
    assert(paths[k] == state.path);
    paths.index_of_last_ensures(state.path);
    assert(paths[state.node_position()] == state.path);
}

/// A session is at a node exactly if some node of the entry has its path.
pub proof fn law_at_node_if_stored(state: CachedView)
    ensures
        state.is_at_node() <==> exists|k: int|
            0 <= k < state.entry.nodes@.len() && #[trigger] state.entry.nodes@[k].path@
                == state.path,
{
    let paths = paths_of(state.entry.nodes@);
    if state.is_at_node() {
        let k = choose|k: int| 0 <= k < paths.len() && paths[k] == state.path;
        assert(state.entry.nodes@[k].path@ == state.path);
    }
    if exists|k: int|
        0 <= k < state.entry.nodes@.len() && #[trigger] state.entry.nodes@[k].path@ == state.path {
        let k = choose|k: int|
            0 <= k < state.entry.nodes@.len() && #[trigger] state.entry.nodes@[k].path@
                == state.path;
        assert(paths[k] == state.path);
    }
}

/// A move changes where a session stands and nothing else; the session is over
/// exactly if no node of the entry has the new path.
pub proof fn law_move_only_moves(state: CachedView, path: Seq<char>)
    ensures
        state.moved_to(path).path == path,
        state.moved_to(path).entry == state.entry,
        state.moved_to(path).live == state.live,
        state.moved_to(path).real_flop == state.real_flop,
        state.moved_to(path).note == state.note,
        state.moved_to(path).done <==> !exists|k: int|
            0 <= k < state.entry.nodes@.len() && #[trigger] state.entry.nodes@[k].path@ == path,
{
    law_at_node_if_stored(state.moved_to(path));
}

/// Every line of an answer tells of its action: the word; for an action that
/// stores an amount, bet, raise and all-in alike, the amount in units of the
/// live pot; and the numbers that are stored for the hand.
pub proof fn law_answer_is_in_live_units(
    state: CachedView,
    lines: Seq<StrategyLine>,
    player: int,
    c1: u8,
    c2: u8,
    i: int,
)
    requires
        state.is_answered(lines, player, c1, c2),
        state.hand_position(player, c1, c2) is Some,
        0 <= i < state.node().actions@.len(),
    ensures
        lines.len() == state.node().actions@.len(),
        ({
            let a = state.node().actions@[i];
            let hand = state.hand_position(player, c1, c2)->0;
            &&& lines[i].action@ == a.action@
            &&& a.amount is Some ==> lines[i].amount == Some(
                state.live[state.node_position()]@[i],
            )
            &&& a.amount is None ==> lines[i].amount is None
            &&& 0 <= hand
            &&& hand < a.freqs@.len() ==> lines[i].freq == Some(a.freqs@[hand])
            &&& hand >= a.freqs@.len() ==> lines[i].freq is None
            &&& hand < a.evs@.len() ==> lines[i].ev == Some(a.evs@[hand])
            &&& hand >= a.evs@.len() ==> lines[i].ev is None
        }),
{
    assert(line_is(
        lines[i],
        state.node().actions@[i],
        state.live_amounts()[i],
        state.hand_position(player, c1, c2)->0,
    ));
    state.hands(player).index_of_first_ensures(state.renamed_hand(c1, c2));
}

/// What an answer tells is what an event is matched against: a bet or a raise of
/// exactly the amount that a line tells for an action of its kind, or for going
/// all in, is accepted without approximation, and leads to an action for which
/// that very amount is told.
pub proof fn law_told_amounts_are_matched_exactly(
    state: CachedView,
    lines: Seq<StrategyLine>,
    player: int,
    c1: u8,
    c2: u8,
    i: int,
    ev: EventReq,
) -> (k: int)
    requires
        state.is_answered(lines, player, c1, c2),
        !state.done,
        0 <= i < lines.len(),
        lines[i].amount is Some,
        lines[i].amount->0 > 0,
        ev.kind@ == "action"@,
        ev.action is Some,
        ev.action->0@ == "bet"@ || ev.action->0@ == "raise"@,
        lines[i].action@ == ev.action->0@ || lines[i].action@ == "allin"@,
        ev.amount == lines[i].amount,
        forall|j: int|
            0 <= j < lines.len() ==> (#[trigger] lines[j]).amount is Some || !(lines[j].action@
                == ev.action->0@ || lines[j].action@ == "allin"@),
    ensures
        0 <= k < lines.len(),
        lines[k].amount == lines[i].amount,
        cached_outcome(state, ev) == Ok::<(Seq<char>, bool), events::FailureView>(
            (state.path_after(k), false),
        ),
{
    reveal_strlit("action");
    reveal_strlit("card");
    reveal_strlit("check");
    reveal_strlit("call");
    reveal_strlit("fold");
    reveal_strlit("bet");
    reveal_strlit("raise");
    assert("action"@.len() != "card"@.len());
    let actions = state.node().actions@;
    let live = state.live_amounts();
    let observed = ev.action->0@;
    let x = lines[i].amount->0;
    let hand = state.hand_position(player, c1, c2)->0;
    assert(line_is(lines[i], actions[i], live[i], hand));
    let sizes = sizes_for(actions, live, observed);
    assert(sizes[i] == Some(x));
    events::law_offered_size_is_exact(sizes, x, i);
    let k = events::nearest(sizes, x)->0;
    events::law_some_size_is_nearest(sizes, x, i);
    assert(sizes[k] == Some(x));
    assert(line_is(lines[k], actions[k], live[k], hand));
    assert(observed[0] == 'b' || observed[0] == 'r');
    assert("check"@[0] == 'c' && "call"@[0] == 'c' && "fold"@[0] == 'f');
    k
}

/// An observed check, call or fold is accepted exactly where an action of that
/// word is stored; it is never approximated, and leads down by the first such
/// action.
pub proof fn law_plain_action_is_matched(state: CachedView, ev: EventReq, word: Seq<char>)
    requires
        !state.done,
        ev.kind@ == "action"@,
        ev.action is Some,
        ev.action->0@ == word,
        word == "check"@ || word == "call"@ || word == "fold"@,
    ensures
        cached_outcome(state, ev) is Ok <==> exists|i: int|
            0 <= i < state.node().actions@.len() && #[trigger] state.node().actions@[i].action@
                == word,
        cached_outcome(state, ev) matches Ok((path, approximated)) ==> !approximated && exists|
            i: int,
        |
            {
                &&& 0 <= i < state.node().actions@.len()
                &&& #[trigger] state.node().actions@[i].action@ == word
                &&& path == tree::child_path(
                    state.path,
                    tree::token_text(word, state.node().actions@[i].amount),
                )
                &&& forall|j: int| 0 <= j < i ==> state.node().actions@[j].action@ != word
            },
        cached_outcome(state, ev) matches Err(f) ==> f == (
            409u16,
            word + " is not available at this node"@,
        ),
{
    reveal_strlit("action");
    reveal_strlit("card");
    assert("action"@.len() != "card"@.len());
    let actions = state.node().actions@;
    let words = words_of(actions);
    words.index_of_first_ensures(word);
    if exists|i: int| 0 <= i < actions.len() && #[trigger] actions[i].action@ == word {
        let i = choose|i: int| 0 <= i < actions.len() && #[trigger] actions[i].action@ == word;
        assert(words[i] == word);
    }
    if let Some(i) = words.index_of_first(word) {
        assert(words[i] == word);
        assert(actions[i].action@ == word);
        assert forall|j: int| 0 <= j < i implies actions[j].action@ != word by {
            assert(words[j] != word);
        }
    }
}

/// An observed bet or raise of a positive amount is accepted exactly where an
/// action of its kind, or going all in, is stored. It leads down by an action of
/// those whose live amount is nearest to what was observed, the first of several;
/// and it is approximated exactly if that amount differs from what was observed
/// by more than a fifth of it.
pub proof fn law_size_is_matched(
    state: CachedView,
    ev: EventReq,
    word: Seq<char>,
    amount: i32,
) -> (k: int)
    requires
        !state.done,
        ev.kind@ == "action"@,
        ev.action is Some,
        ev.action->0@ == word,
        word == "bet"@ || word == "raise"@,
        ev.amount == Some(amount),
        amount > 0,
    ensures
        cached_outcome(state, ev) is Ok <==> exists|i: int| #[trigger] is_offer(state, word, i),
        cached_outcome(state, ev) matches Ok((path, approximated)) ==> {
            let a = state.node().actions@[k];
            let live = state.live[state.node_position()]@;
            &&& is_offer(state, word, k)
            &&& path == tree::child_path(state.path, tree::token_text(a.action@, a.amount))
            &&& approximated <==> 5 * vstd::math::abs(live[k] - amount) > amount
            &&& forall|j: int| #[trigger]
                is_offer(state, word, j) ==> vstd::math::abs(live[k] - amount) <= vstd::math::abs(
                    live[j] - amount,
                ) && (j < k ==> vstd::math::abs(live[k] - amount) < vstd::math::abs(
                    live[j] - amount,
                ))
        },
        cached_outcome(state, ev) matches Err(f) ==> f == (
            409u16,
            "no "@ + word + " is available at this node"@,
        ),
{
    reveal_strlit("action");
    reveal_strlit("card");
    reveal_strlit("check");
    reveal_strlit("call");
    reveal_strlit("fold");
    reveal_strlit("bet");
    reveal_strlit("raise");
    assert("action"@.len() != "card"@.len());
    assert(word[0] == 'b' || word[0] == 'r');
    assert("check"@[0] == 'c' && "call"@[0] == 'c' && "fold"@[0] == 'f');
    let actions = state.node().actions@;
    let live = state.live_amounts();
    let sizes = sizes_for(actions, live, word);
    assert forall|i: int| 0 <= i < actions.len() implies (#[trigger] sizes[i]) == (if is_offer(
        state,
        word,
        i,
    ) {
        Some(live[i])
    } else {
        None
    }) by {}
    events::law_something_is_matched_if_offered(sizes, amount);
    if exists|i: int| #[trigger] is_offer(state, word, i) {
        let i = choose|i: int| #[trigger] is_offer(state, word, i);
        assert(sizes[i] is Some);
    }
    if exists|i: int| 0 <= i < sizes.len() && (#[trigger] sizes[i]) is Some {
        let i = choose|i: int| 0 <= i < sizes.len() && (#[trigger] sizes[i]) is Some;
        assert(is_offer(state, word, i));
    }
    match events::nearest(sizes, amount) {
        Some(k) => {
            assert(events::is_nearest_size(sizes, amount, k));
            assert(sizes[k] is Some);
            assert(is_offer(state, word, k));
            assert forall|j: int| #[trigger] is_offer(state, word, j) implies vstd::math::abs(
                live[k] - amount,
            ) <= vstd::math::abs(live[j] - amount) && (j < k ==> vstd::math::abs(live[k] - amount)
                < vstd::math::abs(live[j] - amount)) by {
                assert(sizes[j] == Some(live[j]));
                events::law_matched_size_is_nearest(sizes, amount, k, j, live[k], live[j]);
            }
            k
        },
        None => 0,
    }
}

/// An action of the node that an observed bet or raise could be: one of that
/// word, or going all in.
pub open spec fn is_offer(state: CachedView, word: Seq<char>, i: int) -> bool {
    let actions = state.node().actions@;
    0 <= i < actions.len() && (actions[i].action@ == word || actions[i].action@ == "allin"@)
}

/// The hand that is found for two real cards is listed by the cards of their
/// ranks, with their suits renamed; and a hand that is listed so is found.
pub proof fn law_found_hand_has_the_renamed_cards(
    state: CachedView,
    player: int,
    h: int,
    c1: u8,
    c2: u8,
    x: u8,
    y: u8,
)
    requires
        player == 0 || player == 1,
        c1 < 52,
        c2 < 52,
        x < 52,
        y < 52,
        ({
            let listed = if player == 0 {
                state.entry.oop_hands@
            } else {
                state.entry.ip_hands@
            };
            &&& 0 <= h < listed.len()
            &&& listed[h]@ == cards::card_text(x)->0 + cards::card_text(y)->0
        }),
    ensures
        ({
            let perm = suits::canonical_perm(state.real_flop);
            let m1 = 4 * (c1 / 4) + perm[(c1 % 4) as int];
            let m2 = 4 * (c2 / 4) + perm[(c2 % 4) as int];
            let same = (x == m1 && y == m2) || (x == m2 && y == m1);
            &&& state.hand_position(player, c1, c2) == Some(h) ==> same
            &&& same ==> (state.hand_position(player, c1, c2) matches Some(k) && 0 <= k <= h)
        }),
{
    let perm = suits::canonical_perm(state.real_flop);
    suits::lemma_canonical_perm(state.real_flop);
    suits::lemma_mapped(c1, perm);
    suits::lemma_mapped(c2, perm);
    law_hand_text_reads_back(x, y);
    let hands = state.hands(player);
    assert(hands[h] == in_order(x, y));
    hands.index_of_first_ensures(state.renamed_hand(c1, c2));
    if let Some(k) = state.hand_position(player, c1, c2) {
        assert(hands[k] == state.renamed_hand(c1, c2));
    }
}

/// A strategy question is refused exactly if the session is over, a card lies
/// on the flop, another player is to act, or the hand is not listed, in this
/// order.
pub proof fn law_questions_are_refused_in_order(state: CachedView, player: int, c1: u8, c2: u8)
    requires
        state.real_flop.len() == 3,
    ensures
        ({
            let flop = state.real_flop;
            let on_flop = c1 == flop[0] || c1 == flop[1] || c1 == flop[2] || c2 == flop[0] || c2
                == flop[1] || c2 == flop[2];
            let refusal = state.strategy_refusal(player, c1, c2);
            &&& refusal is None <==> !state.done && !on_flop && state.node().player == player
                && state.hand_position(player, c1, c2) is Some
            &&& refusal matches Some(f) ==> (f.0 == 404 <==> !state.done && (on_flop
                || state.node().player == player)) && (f.0 == 404 || f.0 == 409)
        }),
{
    let flop = state.real_flop;
    assert(flop.contains(flop[0]) && flop.contains(flop[1]) && flop.contains(flop[2]));
}

/// An entry serves a session exactly if it has the current format and both its
/// ranges are those asked for.
pub proof fn law_entries_serve_their_own_ranges(
    entry: CacheEntry,
    oop_range: Seq<char>,
    ip_range: Seq<char>,
)
    ensures
        is_for(entry, oop_range, ip_range) <==> entry.version == 1 && entry.oop_range@
            == oop_range && entry.ip_range@ == ip_range,
{
}

/// Half a hand's text that names no card counts as the lowest card.
pub proof fn law_unreadable_halves_count_as_zero(s: Seq<char>)
    requires
        s.len() == 4,
        vstd::utf8::is_ascii_chars(s),
    ensures
        ({
            let first = match cards::card_of(s[0], s[1]) {
                Some(c) => c,
                None => 0,
            };
            let second = match cards::card_of(s[2], s[3]) {
                Some(c) => c,
                None => 0,
            };
            &&& hand_of(s).0 <= hand_of(s).1
            &&& hand_of(s) == (first, second) || hand_of(s) == (second, first)
        }),
{
    vstd::utf8::is_ascii_chars_encode_utf8(s);
    let bytes = vstd::utf8::encode_utf8(s);
    assert(s[0] as u8 == bytes[0] && s[1] as u8 == bytes[1] && s[2] as u8 == bytes[2] && s[3] as u8
        == bytes[3]);
}

} // verus!
