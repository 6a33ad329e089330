//! The flop street of a solved game tree, and the summary of it that a cache
//! entry stores.

use crate::text;
use vstd::prelude::*;

verus! {

// ---- Actions -------------------------------------------------------------------------------

/// An action of the solved tree. Amounts are totals: the whole bet, the sum
/// raised to, the whole stack.
#[derive(Clone, Copy, PartialEq, Eq, Structural)]
pub enum Action {
    Fold,
    Check,
    Call,
    Bet(i32),
    Raise(i32),
    AllIn(i32),
    Other,
}

/// The word for an action.
pub open spec fn action_word(a: Action) -> Seq<char> {
    match a {
        Action::Fold => "fold"@,
        Action::Check => "check"@,
        Action::Call => "call"@,
        Action::Bet(_) => "bet"@,
        Action::Raise(_) => "raise"@,
        Action::AllIn(_) => "allin"@,
        Action::Other => "unknown"@,
    }
}

/// The amount of an action that has one.
pub open spec fn action_amount(a: Action) -> Option<i32> {
    match a {
        Action::Bet(x) => Some(x),
        Action::Raise(x) => Some(x),
        Action::AllIn(x) => Some(x),
        _ => None,
    }
}

/// An action within a path, such as `check` or `bet:50`.
pub open spec fn token_text(word: Seq<char>, amount: Option<i32>) -> Seq<char> {
    match amount {
        Some(x) => word + ":"@ + text::decimal(x as int),
        None => word,
    }
}

/// The path one action further down.
pub open spec fn child_path(path: Seq<char>, token: Seq<char>) -> Seq<char> {
    if path.len() == 0 {
        token
    } else {
        path + "/"@ + token
    }
}

/// The token of an action of the tree.
pub open spec fn action_token_text(a: Action) -> Seq<char> {
    token_text(action_word(a), action_amount(a))
}

/// The word and the amount of an action.
pub fn action_token(a: &Action) -> (res: (String, Option<i32>))
    ensures
        res.0@ == action_word(*a),
        res.1 == action_amount(*a),
{
    match a {
        Action::Fold => ("fold".to_owned(), None),
        Action::Check => ("check".to_owned(), None),
        Action::Call => ("call".to_owned(), None),
        Action::Bet(x) => ("bet".to_owned(), Some(*x)),
        Action::Raise(x) => ("raise".to_owned(), Some(*x)),
        Action::AllIn(x) => ("allin".to_owned(), Some(*x)),
        Action::Other => ("unknown".to_owned(), None),
    }
}

/// The token of an action within a path.
pub fn token_string(action: &str, amount: Option<i32>) -> (token: String)
    ensures
        token@ == token_text(action@, amount),
{
    let mut token: String = action.to_owned();
    if let Some(x) = amount {
        token.append(":");
        text::push_decimal(&mut token, x as i64);
    }
    token
}

/// The path one token further down.
pub fn extended_path(path: &str, token: &str) -> (res: String)
    ensures
        res@ == child_path(path@, token@),
{
    if path.is_empty() {
        token.to_owned()
    } else {
        let mut res: String = path.to_owned();
        res.append("/");
        res.append(token);
        res
    }
}

// ---- Summary -------------------------------------------------------------------------------

/// What is stored of one action at one decision: its frequency and its
/// expected value for each hand of the player, in the order of the player's
/// hands, as bit patterns of single-precision numbers.
pub struct CacheAction {
    pub action: String,
    /// Bet, raise-to or all-in total in normalized units.
    pub amount: Option<i32>,
    pub freqs: Vec<u32>,
    pub evs: Vec<u32>,
}

/// What is stored of one decision.
pub struct CacheNode {
    /// The tokens that lead from the root of the flop to this decision, joined
    /// by slashes, as in `check/bet:50`.
    pub path: String,
    /// The player to act: 0 out of position, 1 in position.
    pub player: u8,
    pub actions: Vec<CacheAction>,
}

/// The content of a `CacheAction`.
#[verifier::ext_equal]
pub struct ActionView {
    pub action: Seq<char>,
    pub amount: Option<i32>,
    pub freqs: Seq<u32>,
    pub evs: Seq<u32>,
}

/// The content of a `CacheNode`.
#[verifier::ext_equal]
pub struct NodeView {
    pub path: Seq<char>,
    pub player: u8,
    pub actions: Seq<ActionView>,
}

impl View for CacheAction {
    type V = ActionView;

    open spec fn view(&self) -> ActionView {
        ActionView {
            action: self.action@,
            amount: self.amount,
            freqs: self.freqs@,
            evs: self.evs@,
        }
    }
}

impl View for CacheNode {
    type V = NodeView;

    open spec fn view(&self) -> NodeView {
        NodeView {
            path: self.path@,
            player: self.player,
            actions: self.actions@.map_values(|a: CacheAction| a@),
        }
    }
}

/// The numbers of one action out of a table that lists action after action.
pub open spec fn row(table: Seq<u32>, num_hands: nat, i: int) -> Seq<u32> {
    table.subrange(i * num_hands, (i + 1) * num_hands)
}

fn copied_row(table: &Vec<u32>, num_hands: usize, i: usize, Ghost(rows): Ghost<int>) -> (out: Vec<
    u32,
>)
    requires
        i < rows,
        rows * num_hands <= table@.len(),
    ensures
        out@ == row(table@, num_hands as nat, i as int),
{
    proof {
        assert(0 <= i * num_hands && (i + 1) * num_hands <= rows * num_hands && (i + 1) * num_hands
            == i * num_hands + num_hands) by (nonlinear_arith)
            requires
                0 <= i < rows,
                0 <= num_hands,
        ;
        assert(table.len() <= usize::MAX);
    }
    let from: usize = i * num_hands;
    let mut out: Vec<u32> = Vec::new();
    let mut k: usize = 0;
    while k < num_hands
        invariant
            k <= num_hands,
            from + num_hands <= table.len(),
            out@ == table@.subrange(from as int, from + k),
        decreases num_hands - k,
    {
        out.push(table[from + k]);
        k += 1;
        assert(out@ =~= table@.subrange(from as int, from + k));
    }
    out
}

// ---- Walking the tree ----------------------------------------------------------------------

/// What the engine shows at one position of the flop street: a position
/// without decision (the hand is over, or the turn is dealt next), or the
/// player to act with the actions, and the tables of frequencies and expected
/// values, action after action.
pub enum FlopReport {
    Closed,
    Decision {
        player: u8,
        actions: Vec<Action>,
        num_hands: usize,
        strategy: Vec<u32>,
        evs: Vec<u32>,
    },
}

/// The content of a `FlopReport`.
pub enum ReportView {
    Closed,
    Decision {
        player: u8,
        actions: Seq<Action>,
        num_hands: nat,
        strategy: Seq<u32>,
        evs: Seq<u32>,
    },
}

impl View for FlopReport {
    type V = ReportView;

    open spec fn view(&self) -> ReportView {
        match self {
            FlopReport::Closed => ReportView::Closed,
            FlopReport::Decision { player, actions, num_hands, strategy, evs } =>
                ReportView::Decision {
                    player: *player,
                    actions: actions@,
                    num_hands: *num_hands as nat,
                    strategy: strategy@,
                    evs: evs@,
                },
        }
    }
}

impl ReportView {
    /// The tables have a number for every action and hand.
    pub open spec fn is_whole(self) -> bool {
        match self {
            ReportView::Closed => true,
            ReportView::Decision { actions, num_hands, strategy, evs, .. } => {
                &&& actions.len() * num_hands <= strategy.len()
                &&& actions.len() * num_hands <= evs.len()
            },
        }
    }

    /// What is stored of a decision that is reached by `path`.
    pub open spec fn summary(self, path: Seq<char>) -> NodeView {
        NodeView {
            path,
            player: self->player,
            actions: Seq::new(
                self->actions.len(),
                |i: int|
                    ActionView {
                        action: action_word(self->actions[i]),
                        amount: action_amount(self->actions[i]),
                        freqs: row(self->strategy, self->num_hands, i),
                        evs: row(self->evs, self->num_hands, i),
                    },
            ),
        }
    }
}

/// Where a walk stands: the positions still to be visited, the next one last,
/// each by the moves that lead to it and its path; and the decisions that were
/// summarized so far.
#[verifier::ext_equal]
pub struct WalkView {
    pub pending: Seq<(Seq<usize>, Seq<char>)>,
    pub nodes: Seq<NodeView>,
}

/// The positions one move below a decision, the first one last.
pub open spec fn children_of(history: Seq<usize>, path: Seq<char>, actions: Seq<Action>) -> Seq<
    (Seq<usize>, Seq<char>),
> {
    Seq::new(
        actions.len(),
        |k: int|
            {
                let i = actions.len() - 1 - k;
                (history.push(i as usize), child_path(path, action_token_text(actions[i])))
            },
    )
}

impl WalkView {
    /// A walk that has only the root to visit.
    pub open spec fn start(root: Seq<usize>) -> WalkView {
        WalkView { pending: seq![(root, Seq::empty())], nodes: Seq::empty() }
    }

    /// The walk after its next position was visited and gave a report.
    pub open spec fn after(self, report: ReportView) -> WalkView {
        let (history, path) = self.pending.last();
        match report {
            ReportView::Closed => WalkView {
                pending: self.pending.drop_last(),
                nodes: self.nodes,
            },
            ReportView::Decision { actions, .. } => WalkView {
                pending: self.pending.drop_last() + children_of(history, path, actions),
                nodes: self.nodes.push(report.summary(path)),
            },
        }
    }
}

/// A walk over every decision of the flop street, from the root down, each
/// action before the next. The engine moves, the walk says where to: visit
/// `next_history` and report, until there is none.
pub struct FlopWalk {
    pending: Vec<(Vec<usize>, String)>,
    nodes: Vec<CacheNode>,
}

impl View for FlopWalk {
    type V = WalkView;

    closed spec fn view(&self) -> WalkView {
        WalkView {
            pending: self.pending@.map_values(|e: (Vec<usize>, String)| (e.0@, e.1@)),
            nodes: self.nodes@.map_values(|n: CacheNode| n@),
        }
    }
}

impl FlopWalk {
    /// A walk that begins at the position the given moves lead to.
    pub fn new(root: Vec<usize>) -> (walk: FlopWalk)
        ensures
            walk@ == WalkView::start(root@),
    {
        let mut pending: Vec<(Vec<usize>, String)> = Vec::new();
        pending.push((root, String::new()));
        let walk = FlopWalk { pending, nodes: Vec::new() };
        assert(walk@ =~= WalkView::start(root@)) by {
            assert(walk@.pending =~= seq![(root@, Seq::<char>::empty())]);
        }
        walk
    }

    /// The moves that lead to the next position, unless the walk is over.
    pub fn next_history(&self) -> (next: Option<Vec<usize>>)
        ensures
            match next {
                Some(h) => self@.pending.len() > 0 && h@ == self@.pending.last().0,
                None => self@.pending.len() == 0,
            },
    {
        let n: usize = self.pending.len();
        if n == 0 {
            None
        } else {
            Some(self.pending[n - 1].0.clone())
        }
    }

    /// Takes the report on the next position.
    pub fn visit(&mut self, report: &FlopReport)
        requires
            old(self)@.pending.len() > 0,
            report@.is_whole(),
        ensures
            final(self)@ == old(self)@.after(report@),
    {
        let ghost before = self@;
        let (history, path): (Vec<usize>, String) = self.pending.pop().unwrap();
        assert(before.pending.last() == (history@, path@));
        assert(self@.pending =~= before.pending.drop_last());
        match report {
            FlopReport::Closed => {},
            FlopReport::Decision { player, actions, num_hands, strategy, evs } => {
                let node: CacheNode = summarized(
                    path.as_str(),
                    *player,
                    actions,
                    *num_hands,
                    strategy,
                    evs,
                );
                self.nodes.push(node);
                assert(self@.nodes =~= before.nodes.push(report@.summary(path@)));
                let ghost rest = self@.pending;
                let ghost children = children_of(history@, path@, actions@);
                let mut i: usize = actions.len();
                assert(children.take(0) =~= Seq::empty());
                while i > 0
                    invariant
                        i <= actions@.len(),
                        children == children_of(history@, path@, actions@),
                        self@.pending == rest + children.take(actions@.len() - i),
                        self@.nodes == before.nodes.push(report@.summary(path@)),
                    decreases i,
                {
                    i -= 1;
                    let (word, amount): (String, Option<i32>) = action_token(&actions[i]);
                    let token: String = token_string(word.as_str(), amount);
                    let child: String = extended_path(path.as_str(), token.as_str());
                    let mut moves: Vec<usize> = history.clone();
                    moves.push(i);
                    let ghost so_far = self@.pending;
                    self.pending.push((moves, child));
                    proof {
                        let k = actions@.len() - 1 - i;
                        assert(children[k] == (history@.push(i), child@));
                        assert(self@.pending =~= so_far.push((moves@, child@)));
                        assert(children.take(k + 1) =~= children.take(k).push(children[k]));
                        assert(self@.pending =~= rest + children.take(k + 1));
                    }
                }
                assert(children.take(actions@.len() as int) =~= children);
            },
        }
    }
}

fn summarized(
    path: &str,
    player: u8,
    actions: &Vec<Action>,
    num_hands: usize,
    strategy: &Vec<u32>,
    evs: &Vec<u32>,
) -> (node: CacheNode)
    requires
        actions@.len() * num_hands <= strategy@.len(),
        actions@.len() * num_hands <= evs@.len(),
    ensures
        node@ == (ReportView::Decision {
            player,
            actions: actions@,
            num_hands: num_hands as nat,
            strategy: strategy@,
            evs: evs@,
        }).summary(path@),
{
    let ghost report = ReportView::Decision {
        player,
        actions: actions@,
        num_hands: num_hands as nat,
        strategy: strategy@,
        evs: evs@,
    };
    let ghost whole = report.summary(path@);
    let mut out: Vec<CacheAction> = Vec::new();
    let mut i: usize = 0;
    while i < actions.len()
        invariant
            i <= actions@.len(),
            out@.len() == i,
            actions@.len() * num_hands <= strategy@.len(),
            actions@.len() * num_hands <= evs@.len(),
            report == (ReportView::Decision {
                player,
                actions: actions@,
                num_hands: num_hands as nat,
                strategy: strategy@,
                evs: evs@,
            }),
            whole == report.summary(path@),
            forall|k: int| 0 <= k < i ==> (#[trigger] out@[k])@ == whole.actions[k],
        decreases actions@.len() - i,
    {
        let (action, amount): (String, Option<i32>) = action_token(&actions[i]);
        let freqs: Vec<u32> = copied_row(strategy, num_hands, i, Ghost(actions@.len() as int));
        let ev_row: Vec<u32> = copied_row(evs, num_hands, i, Ghost(actions@.len() as int));
        let entry = CacheAction { action, amount, freqs, evs: ev_row };
        assert(entry@ == whole.actions[i as int]);
        out.push(entry);
        i += 1;
    }
    let node = CacheNode { path: path.to_owned(), player, actions: out };
    assert(node@.actions =~= whole.actions);
    node
}

/// The decisions that a finished walk summarized, in the order of the walk.
pub fn extract_flop_nodes(walk: FlopWalk) -> (nodes: Vec<CacheNode>)
    requires
        walk@.pending.len() == 0,
    ensures
        nodes@.map_values(|n: CacheNode| n@) == walk@.nodes,
{
    walk.nodes
}

// ---- Laws ----------------------------------------------------------------------------------

/// A flop street as a whole: what the engine reports at a position, and the
/// streets below it, one for each action.
pub enum FlopTree {
    Closed,
    Decision { report: ReportView, children: Seq<FlopTree> },
}

impl FlopTree {
    pub open spec fn report(self) -> ReportView {
        match self {
            FlopTree::Closed => ReportView::Closed,
            FlopTree::Decision { report, .. } => report,
        }
    }

    pub open spec fn width(self) -> nat {
        match self {
            FlopTree::Closed => 0,
            FlopTree::Decision { children, .. } => children.len(),
        }
    }

    /// Every decision has one street below it for each of its actions.
    pub open spec fn is_street(self) -> bool
        decreases self,
    {
        match self {
            FlopTree::Closed => true,
            FlopTree::Decision { report, children } => {
                &&& report is Decision
                &&& report->actions.len() == children.len()
                &&& forall|i: int|
                    0 <= i < children.len() ==> (#[trigger] children[i]).is_street()
            },
        }
    }

    /// The path of the `i`-th street below.
    pub open spec fn path_below(self, path: Seq<char>, i: int) -> Seq<char> {
        child_path(path, action_token_text(self.report()->actions[i]))
    }

    /// All decisions of a street that is reached by `path`, each before those
    /// below it, and those below an action before those below the next.
    pub open spec fn decisions(self, path: Seq<char>) -> Seq<NodeView>
        decreases self, self.width() + 1,
    {
        match self {
            FlopTree::Closed => Seq::empty(),
            FlopTree::Decision { report, .. } => seq![report.summary(path)] + self.decisions_below(
                path,
                0,
            ),
        }
    }

    /// The decisions below the actions from number `from` on.
    pub open spec fn decisions_below(self, path: Seq<char>, from: nat) -> Seq<NodeView>
        decreases self, self.width() - from,
    {
        match self {
            FlopTree::Closed => Seq::empty(),
            FlopTree::Decision { children, .. } => if from < children.len() {
                children[from as int].decisions(self.path_below(path, from as int))
                    + self.decisions_below(path, from + 1)
            } else {
                Seq::empty()
            },
        }
    }

    /// The number of positions of a street.
    pub open spec fn size(self) -> nat
        decreases self, self.width() + 1,
    {
        1 + self.size_below(0)
    }

    pub open spec fn size_below(self, from: nat) -> nat
        decreases self, self.width() - from,
    {
        match self {
            FlopTree::Closed => 0,
            FlopTree::Decision { children, .. } => if from < children.len() {
                children[from as int].size() + self.size_below(from + 1)
            } else {
                0
            },
        }
    }
}

/// `game` gives the street below each position: a move leads from a street to
/// the one below the action of that number.
pub open spec fn is_game(game: spec_fn(Seq<usize>) -> FlopTree) -> bool {
    &&& forall|h: Seq<usize>| (#[trigger] game(h)).is_street()
    &&& forall|h: Seq<usize>, i: usize|
        (i as int) < game(h).width() ==> #[trigger] game(h.push(i)) == game(h)->children[i as int]
}

/// The decisions that the pending positions of a walk still hold.
pub open spec fn decisions_pending(
    game: spec_fn(Seq<usize>) -> FlopTree,
    pending: Seq<(Seq<usize>, Seq<char>)>,
) -> Seq<NodeView>
    decreases pending.len(),
{
    if pending.len() == 0 {
        Seq::empty()
    } else {
        game(pending.last().0).decisions(pending.last().1) + decisions_pending(
            game,
            pending.drop_last(),
        )
    }
}

/// The number of positions that the pending positions of a walk still hold.
pub open spec fn size_pending(
    game: spec_fn(Seq<usize>) -> FlopTree,
    pending: Seq<(Seq<usize>, Seq<char>)>,
) -> nat
    decreases pending.len(),
{
    if pending.len() == 0 {
        0
    } else {
        game(pending.last().0).size() + size_pending(game, pending.drop_last())
    }
}

proof fn lemma_pending_children(
    game: spec_fn(Seq<usize>) -> FlopTree,
    rest: Seq<(Seq<usize>, Seq<char>)>,
    history: Seq<usize>,
    path: Seq<char>,
    k: int,
)
    requires
        is_game(game),
        game(history) is Decision,
        game(history).width() <= usize::MAX,
        0 <= k <= game(history).width(),
    ensures
        ({
            let street = game(history);
            let children = children_of(history, path, street.report()->actions);
            let from = (street.width() - k) as nat;
            &&& decisions_pending(game, rest + children.take(k)) == street.decisions_below(
                path,
                from,
            ) + decisions_pending(game, rest)
            &&& size_pending(game, rest + children.take(k)) == street.size_below(from)
                + size_pending(game, rest)
        }),
    decreases k,
{
    let street = game(history);
    let actions = street.report()->actions;
    let children = children_of(history, path, actions);
    assert(street.is_street());
    if k == 0 {
        assert(rest + children.take(0) =~= rest);
        assert(street.decisions_below(path, street.width()) =~= Seq::<NodeView>::empty());
        assert(Seq::<NodeView>::empty() + decisions_pending(game, rest) =~= decisions_pending(
            game,
            rest,
        ));
    } else {
        lemma_pending_children(game, rest, history, path, k - 1);
        let i = street.width() - k;
        let now = rest + children.take(k);
        assert(now.drop_last() =~= rest + children.take(k - 1));
        assert(now.last() == children[k - 1]);
        assert(children[k - 1] == (history.push(i as usize), street.path_below(path, i)));
        assert(game(history.push(i as usize)) == street->children[i]);
        let head = street->children[i].decisions(street.path_below(path, i));
        let tail = street.decisions_below(path, (i + 1) as nat);
        assert(street.decisions_below(path, i as nat) == head + tail);
        assert(head + (tail + decisions_pending(game, rest)) =~= (head + tail) + decisions_pending(
            game,
            rest,
        ));
    }
}

/// A walk begins with nothing summarized and the whole street pending.
proof fn lemma_walk_start(game: spec_fn(Seq<usize>) -> FlopTree, root: Seq<usize>)
    ensures
        ({
            let walk = WalkView::start(root);
            &&& walk.nodes + decisions_pending(game, walk.pending) == game(root).decisions(
                Seq::empty(),
            )
            &&& size_pending(game, walk.pending) == game(root).size()
        }),
{
    let walk = WalkView::start(root);
    assert(walk.pending.last() == (root, Seq::<char>::empty()));
    assert(walk.pending.drop_last() =~= Seq::empty());
    assert(decisions_pending(game, walk.pending.drop_last()) =~= Seq::<NodeView>::empty());
    assert(size_pending(game, walk.pending.drop_last()) == 0);
    let all = game(root).decisions(Seq::empty());
    assert(Seq::<NodeView>::empty() + (all + Seq::<NodeView>::empty()) =~= all);
}

/// A visit that reports what the game holds keeps the sum of what is
/// summarized and what is pending, and leaves one position less to visit.
pub proof fn law_walk_visit(game: spec_fn(Seq<usize>) -> FlopTree, walk: WalkView)
    requires
        is_game(game),
        walk.pending.len() > 0,
        game(walk.pending.last().0).width() <= usize::MAX,
    ensures
        ({
            let next = walk.after(game(walk.pending.last().0).report());
            &&& next.nodes + decisions_pending(game, next.pending) == walk.nodes
                + decisions_pending(game, walk.pending)
            &&& size_pending(game, next.pending) + 1 == size_pending(game, walk.pending)
        }),
{
    let (history, path) = walk.pending.last();
    let street = game(history);
    let rest = walk.pending.drop_last();
    let next = walk.after(street.report());
    assert(street.is_street());
    match street {
        FlopTree::Closed => {
            assert(street.decisions(path) =~= Seq::<NodeView>::empty());
            assert(Seq::<NodeView>::empty() + decisions_pending(game, rest) =~= decisions_pending(
                game,
                rest,
            ));
            assert(street.size_below(0) == 0);
        },
        FlopTree::Decision { report, children } => {
            let below = children_of(history, path, report->actions);
            lemma_pending_children(game, rest, history, path, children.len() as int);
            assert(below.take(children.len() as int) =~= below);
            let pending = decisions_pending(game, rest);
            let under = street.decisions_below(path, 0);
            assert(next.nodes + (under + pending) =~= walk.nodes + ((seq![report.summary(path)]
                + under) + pending));
        },
    }
}

/// A walk after `n` more visits that report what the game holds.
pub open spec fn after_visits(
    game: spec_fn(Seq<usize>) -> FlopTree,
    walk: WalkView,
    n: nat,
) -> WalkView
    decreases n,
{
    if n == 0 {
        walk
    } else {
        after_visits(game, walk.after(game(walk.pending.last().0).report()), (n - 1) as nat)
    }
}

proof fn lemma_walk_ends(game: spec_fn(Seq<usize>) -> FlopTree, walk: WalkView)
    requires
        is_game(game),
        forall|h: Seq<usize>| (#[trigger] game(h)).width() <= usize::MAX,
    ensures
        ({
            let end = after_visits(game, walk, size_pending(game, walk.pending));
            &&& end.pending.len() == 0
            &&& end.nodes == walk.nodes + decisions_pending(game, walk.pending)
        }),
    decreases size_pending(game, walk.pending),
{
    if walk.pending.len() == 0 {
        assert(walk.nodes + decisions_pending(game, walk.pending) =~= walk.nodes);
    } else {
        law_walk_visit(game, walk);
        let next = walk.after(game(walk.pending.last().0).report());
        lemma_walk_ends(game, next);
    }
}

/// A walk over a game ends after as many visits as the flop street has
/// positions, and has then summarized every decision of the street, once, in
/// the order of the street.
pub proof fn law_walk_summarizes_the_street(
    game: spec_fn(Seq<usize>) -> FlopTree,
    root: Seq<usize>,
)
    requires
        is_game(game),
        forall|h: Seq<usize>| (#[trigger] game(h)).width() <= usize::MAX,
    ensures
        ({
            let end = after_visits(game, WalkView::start(root), game(root).size());
            &&& end.pending.len() == 0
            &&& end.nodes == game(root).decisions(Seq::empty())
        }),
{
    lemma_walk_start(game, root);
    lemma_walk_ends(game, WalkView::start(root));
}

/// The numbers of an action stand in the table one after the other, one for
/// each hand, after those of the actions before it.
pub proof fn law_row_holds_the_numbers_of_an_action(
    table: Seq<u32>,
    num_hands: nat,
    num_actions: nat,
    i: int,
    hand: int,
)
    requires
        num_actions * num_hands <= table.len(),
        0 <= i < num_actions,
        0 <= hand < num_hands,
    ensures
        row(table, num_hands, i).len() == num_hands,
        row(table, num_hands, i)[hand] == table[i * num_hands + hand],
{
    assert(0 <= i * num_hands && (i + 1) * num_hands <= num_actions * num_hands && (i + 1)
        * num_hands == i * num_hands + num_hands) by (nonlinear_arith)
        requires
            0 <= i < num_actions,
            0 <= num_hands,
    ;
}

/// A summary keeps the player, and for every action and hand the numbers that
/// the tables hold for them.
pub proof fn law_summary_keeps_the_tables(report: ReportView, path: Seq<char>, i: int, hand: int)
    requires
        report is Decision,
        report.is_whole(),
        0 <= i < report->actions.len(),
        0 <= hand < report->num_hands,
    ensures
        report.summary(path).path == path,
        report.summary(path).player == report->player,
        report.summary(path).actions.len() == report->actions.len(),
        report.summary(path).actions[i].freqs.len() == report->num_hands,
        report.summary(path).actions[i].evs.len() == report->num_hands,
        report.summary(path).actions[i].freqs[hand] == report->strategy[i * report->num_hands
            + hand],
        report.summary(path).actions[i].evs[hand] == report->evs[i * report->num_hands + hand],
{
    law_row_holds_the_numbers_of_an_action(
        report->strategy,
        report->num_hands,
        report->actions.len(),
        i,
        hand,
    );
    law_row_holds_the_numbers_of_an_action(
        report->evs,
        report->num_hands,
        report->actions.len(),
        i,
        hand,
    );
}

/// Bets, raises and all-ins have their total for an amount, whatever it is; the
/// other actions have none.
pub proof fn law_amounts_are_totals(x: i32)
    ensures
        action_amount(Action::Bet(x)) == Some(x),
        action_amount(Action::Raise(x)) == Some(x),
        action_amount(Action::AllIn(x)) == Some(x),
        action_amount(Action::Fold) is None,
        action_amount(Action::Check) is None,
        action_amount(Action::Call) is None,
        action_amount(Action::Other) is None,
{
}

/// A stored amount is told apart from its word by the first colon, and is
/// written in decimal.
pub proof fn law_token_holds_word_and_amount(word: Seq<char>, x: i32)
    requires
        !word.contains(':'),
    ensures
        token_text(word, None) == word,
        text::split_once(token_text(word, Some(x)), ':') == Some((word, text::decimal(x as int))),
{
    reveal_strlit(":");
    let token = token_text(word, Some(x));
    assert(token =~= word + seq![':'] + text::decimal(x as int));
    text::law_split_once_divides(token, ':', word, text::decimal(x as int));
}

/// A path is the list of its tokens: a step down adds one token at the end and
/// changes none before it.
pub proof fn law_path_lists_its_tokens(path: Seq<char>, token: Seq<char>)
    requires
        !token.contains('/'),
    ensures
        path.len() == 0 ==> child_path(path, token) == token,
        path.len() > 0 ==> text::split_all(child_path(path, token), '/') == text::split_all(
            path,
            '/',
        ).push(token),
{
    reveal_strlit("/");
    if path.len() > 0 {
        assert(child_path(path, token) =~= path + seq!['/'] + token);
        text::law_splitting_goes_on(path, '/', token);
    }
}

} // verus!
