//! Replaying a hand from the cache is walking the tree that was solved.

use crate::cache;
use crate::cache::CachedView;
use crate::events;
use crate::events::EventReq;
use crate::solver;
use crate::text;
use crate::tree;
use crate::tree::{Action, FlopTree, NodeView};
use vstd::prelude::*;

verus! {

// ---- Tokens --------------------------------------------------------------------------------

/// A text without slashes that is not empty.
pub open spec fn is_token(t: Seq<char>) -> bool {
    t.len() > 0 && forall|i: int| 0 <= i < t.len() ==> #[trigger] t[i] != '/'
}

proof fn lemma_decimal_token(i: int)
    ensures
        is_token(text::decimal(i)),
{
    let n = if i < 0 {
        (-i) as nat
    } else {
        i as nat
    };
    let s = text::numeral(n, 10);
    text::lemma_numeral_len(n, 10);
    assert forall|k: int| 0 <= k < s.len() implies #[trigger] s[k] != '/' by {
        text::lemma_numeral_digits(n, 10, k);
    }
    if i < 0 {
        assert(text::decimal(i) =~= seq!['-'] + s);
    }
}

proof fn lemma_words()
    ensures
        "fold"@ =~= seq!['f', 'o', 'l', 'd'],
        "check"@ =~= seq!['c', 'h', 'e', 'c', 'k'],
        "call"@ =~= seq!['c', 'a', 'l', 'l'],
        "bet"@ =~= seq!['b', 'e', 't'],
        "raise"@ =~= seq!['r', 'a', 'i', 's', 'e'],
        "allin"@ =~= seq!['a', 'l', 'l', 'i', 'n'],
        "unknown"@ =~= seq!['u', 'n', 'k', 'n', 'o', 'w', 'n'],
        ":"@ =~= seq![':'],
        "/"@ =~= seq!['/'],
{
    reveal_strlit("fold");
    reveal_strlit("check");
    reveal_strlit("call");
    reveal_strlit("bet");
    reveal_strlit("raise");
    reveal_strlit("allin");
    reveal_strlit("unknown");
    reveal_strlit(":");
    reveal_strlit("/");
}

proof fn lemma_action_token(a: Action)
    ensures
        is_token(tree::action_token_text(a)),
{
    lemma_words();
    match tree::action_amount(a) {
        Some(x) => {
            lemma_decimal_token(x as int);
        },
        None => {},
    }
}

/// Different actions have different tokens.
pub proof fn law_tokens_differ(a: Action, b: Action)
    requires
        tree::action_token_text(a) == tree::action_token_text(b),
    ensures
        a == b,
{
    lemma_words();
    let s = tree::action_token_text(a);
    let t = tree::action_token_text(b);
    let wa = tree::action_word(a);
    let wb = tree::action_word(b);
    lemma_action_token(a);
    lemma_action_token(b);
    assert(s[0] == wa[0] && t[0] == wb[0]);
    assert(s[1] == wa[1] && t[1] == wb[1]);
    assert(wa == wb);
    match (tree::action_amount(a), tree::action_amount(b)) {
        (Some(x), Some(y)) => {
            let n = wa.len() + 1;
            assert(s.subrange(n as int, s.len() as int) =~= text::decimal(x as int));
            assert(t.subrange(n as int, t.len() as int) =~= text::decimal(y as int));
            text::law_decimals_differ(x as int, y as int);
        },
        _ => {},
    }
}

// ---- Paths ---------------------------------------------------------------------------------

/// A path that goes through the position that `start` leads to.
pub open spec fn extends(start: Seq<char>, path: Seq<char>) -> bool {
    ||| start.len() == 0
    ||| path == start
    ||| path.len() > start.len() && path.take(start.len() as int) == start && path[start.len() as int]
        == '/'
}

proof fn lemma_child_longer(path: Seq<char>, t: Seq<char>)
    requires
        is_token(t),
    ensures
        tree::child_path(path, t).len() > path.len(),
        extends(path, tree::child_path(path, t)),
{
    lemma_words();
    let c = tree::child_path(path, t);
    if path.len() > 0 {
        assert(c.take(path.len() as int) =~= path);
        assert(c[path.len() as int] == '/');
    }
}

proof fn lemma_extends_transitive(a: Seq<char>, b: Seq<char>, c: Seq<char>)
    requires
        extends(a, b),
        extends(b, c),
        b.len() > 0,
    ensures
        extends(a, c),
{
    if a.len() > 0 && a != b && b != c {
        assert(c.take(a.len() as int) =~= b.take(a.len() as int)) by {
            assert(c.take(b.len() as int).take(a.len() as int) =~= c.take(a.len() as int));
        }
        assert(c.take(b.len() as int)[a.len() as int] == c[a.len() as int]);
    }
}

/// A path goes through at most one child of a position.
proof fn lemma_one_child(path: Seq<char>, t: Seq<char>, u: Seq<char>, q: Seq<char>)
    requires
        is_token(t),
        is_token(u),
        extends(tree::child_path(path, t), q),
        extends(tree::child_path(path, u), q),
    ensures
        t == u,
{
    lemma_words();
    lemma_child_longer(path, t);
    lemma_child_longer(path, u);
    let k: int = if path.len() == 0 {
        0
    } else {
        path.len() as int + 1
    };
    let a = tree::child_path(path, t);
    let b = tree::child_path(path, u);
    assert(a.len() == k + t.len() && b.len() == k + u.len());
    assert(q.take(a.len() as int) =~= a);
    assert(q.take(b.len() as int) =~= b);
    assert forall|i: int| 0 <= i < t.len() implies q[k + i] == t[i] by {
        assert(a[k + i] == t[i]);
        assert(q.take(a.len() as int)[k + i] == q[k + i]);
    }
    assert forall|i: int| 0 <= i < u.len() implies q[k + i] == u[i] by {
        assert(b[k + i] == u[i]);
        assert(q.take(b.len() as int)[k + i] == q[k + i]);
    }
    if t.len() < u.len() {
        assert(q[k + t.len()] == u[t.len() as int]);
    } else if u.len() < t.len() {
        assert(q[k + u.len()] == t[u.len() as int]);
    }
    assert(t =~= u);
}

// ---- Positions -----------------------------------------------------------------------------

/// At every decision of the street the actions are different.
pub open spec fn actions_differ(street: FlopTree) -> bool
    decreases street,
{
    match street {
        FlopTree::Closed => true,
        FlopTree::Decision { report, children } => {
            &&& forall|i: int, j: int|
                0 <= i < j < report->actions.len() ==> report->actions[i] != report->actions[j]
            &&& forall|i: int| 0 <= i < children.len() ==> actions_differ(#[trigger] children[i])
        },
    }
}

/// The moves lead to a position of the street.
pub open spec fn is_position(street: FlopTree, moves: Seq<int>) -> bool
    decreases moves.len(),
{
    moves.len() == 0 || (0 <= moves[0] < street.width() && is_position(
        street->children[moves[0]],
        moves.drop_first(),
    ))
}

/// The street below a position.
pub open spec fn street_at(street: FlopTree, moves: Seq<int>) -> FlopTree
    decreases moves.len(),
{
    if moves.len() == 0 {
        street
    } else {
        street_at(street->children[moves[0]], moves.drop_first())
    }
}

/// The path of a position, below a street that `path` leads to.
pub open spec fn path_at(street: FlopTree, path: Seq<char>, moves: Seq<int>) -> Seq<char>
    decreases moves.len(),
{
    if moves.len() == 0 {
        path
    } else {
        path_at(street->children[moves[0]], street.path_below(path, moves[0]), moves.drop_first())
    }
}

proof fn lemma_path_below(street: FlopTree, path: Seq<char>, i: int)
    requires
        0 <= i < street.width(),
    ensures
        street.path_below(path, i).len() > path.len(),
        extends(path, street.path_below(path, i)),
{
    lemma_action_token(street.report()->actions[i]);
    lemma_child_longer(path, tree::action_token_text(street.report()->actions[i]));
}

proof fn lemma_path_at_extends(street: FlopTree, path: Seq<char>, moves: Seq<int>)
    requires
        is_position(street, moves),
    ensures
        extends(path, path_at(street, path, moves)),
    decreases moves.len(),
{
    if moves.len() > 0 {
        let below = street.path_below(path, moves[0]);
        lemma_path_below(street, path, moves[0]);
        lemma_path_at_extends(street->children[moves[0]], below, moves.drop_first());
        lemma_extends_transitive(path, below, path_at(street, path, moves));
    }
}

proof fn lemma_below_is_in_a_child(street: FlopTree, path: Seq<char>, from: nat, n: NodeView) -> (j: int)
    requires
        street.decisions_below(path, from).contains(n),
    ensures
        from <= j < street.width(),
        street->children[j].decisions(street.path_below(path, j)).contains(n),
    decreases street.width() - from,
{
    if from < street.width() {
        let head = street->children[from as int].decisions(street.path_below(path, from as int));
        let tail = street.decisions_below(path, from + 1);
        let k = choose|k: int| 0 <= k < (head + tail).len() && (head + tail)[k] == n;
        assert((head + tail)[k] == n);
        if k < head.len() {
            assert(head[k] == n);
            from as int
        } else {
            assert(tail[k - head.len()] == n);
            lemma_below_is_in_a_child(street, path, from + 1, n)
        }
    } else {
        0
    }
}

proof fn lemma_child_is_below(street: FlopTree, path: Seq<char>, from: nat, j: int, n: NodeView)
    requires
        from <= j < street.width(),
        street->children[j].decisions(street.path_below(path, j)).contains(n),
    ensures
        street.decisions_below(path, from).contains(n),
    decreases street.width() - from,
{
    let head = street->children[from as int].decisions(street.path_below(path, from as int));
    let tail = street.decisions_below(path, from + 1);
    let all = street.decisions_below(path, from);
    assert(all == head + tail);
    if from == j {
        let k = choose|k: int| 0 <= k < head.len() && head[k] == n;
        assert(all[k] == n);
    } else {
        lemma_child_is_below(street, path, from + 1, j, n);
        let k = choose|k: int| 0 <= k < tail.len() && tail[k] == n;
        assert(all[head.len() + k] == n);
    }
}

proof fn lemma_decision_cases(street: FlopTree, path: Seq<char>, n: NodeView)
    requires
        street.decisions(path).contains(n),
    ensures
        street is Decision,
        n == street.report().summary(path) || street.decisions_below(path, 0).contains(n),
{
    let all = street.decisions(path);
    let k = choose|k: int| 0 <= k < all.len() && all[k] == n;
    if street is Decision {
        let below = street.decisions_below(path, 0);
        assert(all == seq![street.report().summary(path)] + below);
        if k > 0 {
            assert(below[k - 1] == n);
        }
    }
}

proof fn lemma_decisions_extend(street: FlopTree, path: Seq<char>, n: NodeView)
    requires
        street.decisions(path).contains(n),
    ensures
        extends(path, n.path),
    decreases street,
{
    lemma_decision_cases(street, path, n);
    if n != street.report().summary(path) {
        let j = lemma_below_is_in_a_child(street, path, 0, n);
        let below = street.path_below(path, j);
        lemma_path_below(street, path, j);
        lemma_decisions_extend(street->children[j], below, n);
        lemma_extends_transitive(path, below, n.path);
    }
}

/// The decision at a position is the only one that is stored under its path.
pub proof fn law_stored_decisions_are_those_of_the_street(street: FlopTree, path: Seq<char>, moves: Seq<int>, n: NodeView)
    requires
        street.is_street(),
        actions_differ(street),
        is_position(street, moves),
        street.decisions(path).contains(n),
        n.path == path_at(street, path, moves),
    ensures
        street_at(street, moves) is Decision,
        n == street_at(street, moves).report().summary(n.path),
    decreases street,
{
    lemma_decision_cases(street, path, n);
    let actions = street.report()->actions;
    if n == street.report().summary(path) {
        if moves.len() > 0 {
            let below = street.path_below(path, moves[0]);
            lemma_path_below(street, path, moves[0]);
            lemma_path_at_extends(street->children[moves[0]], below, moves.drop_first());
            assert(n.path.len() >= below.len());
        }
    } else {
        let j = lemma_below_is_in_a_child(street, path, 0, n);
        let below = street.path_below(path, j);
        lemma_path_below(street, path, j);
        lemma_decisions_extend(street->children[j], below, n);
        assert(n.path.len() >= below.len());
        if moves.len() > 0 {
            let i = moves[0];
            lemma_path_at_extends(
                street->children[i],
                street.path_below(path, i),
                moves.drop_first(),
            );
            lemma_action_token(actions[i]);
            lemma_action_token(actions[j]);
            lemma_one_child(
                path,
                tree::action_token_text(actions[i]),
                tree::action_token_text(actions[j]),
                n.path,
            );
            law_tokens_differ(actions[i], actions[j]);
            assert(i == j);
            assert(street->children[j].is_street());
            law_stored_decisions_are_those_of_the_street(street->children[j], below, moves.drop_first(), n);
        }
    }
}

/// The decision at a position is stored.
pub proof fn law_every_decision_is_stored(street: FlopTree, path: Seq<char>, moves: Seq<int>)
    requires
        street.is_street(),
        is_position(street, moves),
        street_at(street, moves) is Decision,
    ensures
        street.decisions(path).contains(
            street_at(street, moves).report().summary(path_at(street, path, moves)),
        ),
    decreases moves.len(),
{
    let n = street_at(street, moves).report().summary(path_at(street, path, moves));
    if moves.len() == 0 {
        assert(street.decisions(path)[0] == n);
    } else {
        let i = moves[0];
        assert(street->children[i].is_street());
        law_every_decision_is_stored(
            street->children[i],
            street.path_below(path, i),
            moves.drop_first(),
        );
        lemma_child_is_below(street, path, 0, i, n);
        let below = street.decisions_below(path, 0);
        let k = choose|k: int| 0 <= k < below.len() && below[k] == n;
        assert(street.decisions(path)[k + 1] == n);
    }
}

/// Different positions of a street have different paths.
pub proof fn law_paths_differ(street: FlopTree, path: Seq<char>, a: Seq<int>, b: Seq<int>)
    requires
        street.is_street(),
        actions_differ(street),
        is_position(street, a),
        is_position(street, b),
        path_at(street, path, a) == path_at(street, path, b),
    ensures
        a == b,
    decreases a.len(),
{
    if a.len() > 0 {
        lemma_path_below(street, path, a[0]);
        lemma_path_at_extends(street->children[a[0]], street.path_below(path, a[0]), a.drop_first());
    }
    if b.len() > 0 {
        lemma_path_below(street, path, b[0]);
        lemma_path_at_extends(street->children[b[0]], street.path_below(path, b[0]), b.drop_first());
    }
    if a.len() > 0 && b.len() > 0 {
        let actions = street.report()->actions;
        lemma_action_token(actions[a[0]]);
        lemma_action_token(actions[b[0]]);
        lemma_one_child(
            path,
            tree::action_token_text(actions[a[0]]),
            tree::action_token_text(actions[b[0]]),
            path_at(street, path, a),
        );
        law_tokens_differ(actions[a[0]], actions[b[0]]);
        assert(a[0] == b[0]);
        assert(street->children[a[0]].is_street());
        law_paths_differ(
            street->children[a[0]],
            street.path_below(path, a[0]),
            a.drop_first(),
            b.drop_first(),
        );
        assert(a =~= seq![a[0]] + a.drop_first());
        assert(b =~= seq![b[0]] + b.drop_first());
    } else {
        assert(a =~= b);
    }
}

/// The decisions below the actions from number `from` on go through the
/// children of those numbers.
proof fn lemma_below_paths_differ(street: FlopTree, path: Seq<char>, from: nat, i: int, j: int)
    requires
        street.is_street(),
        actions_differ(street),
        street is Decision,
        0 <= i < j < street.decisions_below(path, from).len(),
    ensures
        street.decisions_below(path, from)[i].path != street.decisions_below(path, from)[j].path,
    decreases street, street.width() - from,
{
    let all = street.decisions_below(path, from);
    let here = street.path_below(path, from as int);
    let head = street->children[from as int].decisions(here);
    let tail = street.decisions_below(path, from + 1);
    assert(all == head + tail);
    assert(street->children[from as int].is_street());
    assert(actions_differ(street->children[from as int]));
    if j < head.len() {
        assert(all[i] == head[i] && all[j] == head[j]);
        law_stored_paths_differ(street->children[from as int], here, i, j);
    } else if i >= head.len() {
        let i0 = i - head.len();
        let j0 = j - head.len();
        assert(all[i] == tail[i0] && all[j] == tail[j0]);
        lemma_below_paths_differ(street, path, from + 1, i0, j0);
    } else {
        let a = all[i];
        let b = all[j];
        assert(head[i] == a && tail[j - head.len()] == b);
        assert(head.contains(a) && tail.contains(b));
        lemma_decisions_extend(street->children[from as int], here, a);
        let c = lemma_below_is_in_a_child(street, path, from + 1, b);
        lemma_decisions_extend(street->children[c], street.path_below(path, c), b);
        let actions = street.report()->actions;
        lemma_action_token(actions[from as int]);
        lemma_action_token(actions[c]);
        if a.path == b.path {
            lemma_one_child(
                path,
                tree::action_token_text(actions[from as int]),
                tree::action_token_text(actions[c]),
                a.path,
            );
            law_tokens_differ(actions[from as int], actions[c]);
        }
    }
}

/// No two decisions of a street are stored under the same path.
pub proof fn law_stored_paths_differ(street: FlopTree, path: Seq<char>, i: int, j: int)
    requires
        street.is_street(),
        actions_differ(street),
        0 <= i < j < street.decisions(path).len(),
    ensures
        street.decisions(path)[i].path != street.decisions(path)[j].path,
    decreases street, street.width() + 1,
{
    let all = street.decisions(path);
    let below = street.decisions_below(path, 0);
    assert(street is Decision);
    assert(all == seq![street.report().summary(path)] + below);
    assert(all[j] == below[j - 1]);
    if i > 0 {
        assert(all[i] == below[i - 1]);
        lemma_below_paths_differ(street, path, 0, i - 1, j - 1);
    } else {
        let b = all[j];
        assert(below.contains(b));
        let c = lemma_below_is_in_a_child(street, path, 0, b);
        lemma_path_below(street, path, c);
        lemma_decisions_extend(street->children[c], street.path_below(path, c), b);
        assert(b.path.len() >= street.path_below(path, c).len());
    }
}

// ---- Sessions ------------------------------------------------------------------------------

/// A cached session whose entry summarizes a street stands at a position of
/// that street.
pub open spec fn stands_at(state: CachedView, street: FlopTree, moves: Seq<int>) -> bool {
    &&& state.entry.nodes@.map_values(|n: tree::CacheNode| n@) == street.decisions(Seq::empty())
    &&& street.is_street()
    &&& actions_differ(street)
    &&& is_position(street, moves)
    &&& state.path == path_at(street, Seq::empty(), moves)
    &&& state.done == !(street_at(street, moves) is Decision)
}

proof fn lemma_one_more_move(street: FlopTree, path: Seq<char>, moves: Seq<int>, i: int)
    requires
        is_position(street, moves),
        0 <= i < street_at(street, moves).width(),
    ensures
        is_position(street, moves.push(i)),
        street_at(street, moves.push(i)) == street_at(street, moves)->children[i],
        path_at(street, path, moves.push(i)) == street_at(street, moves).path_below(
            path_at(street, path, moves),
            i,
        ),
    decreases moves.len(),
{
    let more = moves.push(i);
    if moves.len() == 0 {
        assert(more.drop_first() =~= Seq::<int>::empty());
        assert(is_position(street->children[i], more.drop_first()));
        assert(street_at(street->children[i], more.drop_first()) == street->children[i]);
        assert(path_at(street->children[i], street.path_below(path, i), more.drop_first())
            == street.path_below(path, i));
    } else {
        assert(more.drop_first() =~= moves.drop_first().push(i));
        lemma_one_more_move(
            street->children[moves[0]],
            street.path_below(path, moves[0]),
            moves.drop_first(),
            i,
        );
    }
}

proof fn lemma_path_is_stored(state: CachedView, street: FlopTree, moves: Seq<int>, path: Seq<char>)
    requires
        state.entry.nodes@.map_values(|n: tree::CacheNode| n@) == street.decisions(Seq::empty()),
        street.is_street(),
        actions_differ(street),
        is_position(street, moves),
        path == path_at(street, Seq::empty(), moves),
    ensures
        cache::paths_of(state.entry.nodes@).contains(path) <==> street_at(street, moves) is Decision,
{
    let nodes = state.entry.nodes@;
    let views = nodes.map_values(|n: tree::CacheNode| n@);
    let paths = cache::paths_of(nodes);
    if paths.contains(path) {
        let k = choose|k: int| 0 <= k < paths.len() && paths[k] == path;
        assert(views[k].path == path);
        assert(views.contains(views[k]));
        law_stored_decisions_are_those_of_the_street(street, Seq::empty(), moves, views[k]);
    }
    if street_at(street, moves) is Decision {
        law_every_decision_is_stored(street, Seq::empty(), moves);
        let n = street_at(street, moves).report().summary(path);
        let k = choose|k: int| 0 <= k < views.len() && views[k] == n;
        assert(paths[k] == path);
    }
}

/// A session that was just found in the cache stands at the root of the street
/// that its entry summarizes.
pub proof fn law_cached_session_starts_at_the_root(state: CachedView, street: FlopTree)
    requires
        state.entry.nodes@.map_values(|n: tree::CacheNode| n@) == street.decisions(Seq::empty()),
        street.is_street(),
        actions_differ(street),
        street is Decision,
        state.path == Seq::<char>::empty(),
        !state.done,
    ensures
        stands_at(state, street, Seq::empty()),
{
}

/// The node of a session is what was stored of the decision at its position.
pub proof fn law_cached_node_is_the_decision(state: CachedView, street: FlopTree, moves: Seq<int>)
    requires
        stands_at(state, street, moves),
        !state.done,
    ensures
        state.is_at_node(),
        state.node()@ == street_at(street, moves).report().summary(state.path),
{
    let nodes = state.entry.nodes@;
    let views = nodes.map_values(|n: tree::CacheNode| n@);
    let paths = cache::paths_of(nodes);
    lemma_path_is_stored(state, street, moves, state.path);
    paths.index_of_last_ensures(state.path);
    let k = state.node_position();
    assert(views[k].path == state.path);
    assert(views.contains(views[k]));
    law_stored_decisions_are_those_of_the_street(street, Seq::empty(), moves, views[k]);
}

/// An accepted event is a move of the street: the session then stands one move
/// further down, and is over exactly when no decision is left there. The move is
/// the action that was observed; for a bet or a raise it is an action of that
/// kind, or going all in, whose live amount none of those is nearer to.
pub proof fn law_cached_event_is_a_move(
    state: CachedView,
    street: FlopTree,
    moves: Seq<int>,
    ev: EventReq,
    next: CachedView,
) -> (i: int)
    requires
        stands_at(state, street, moves),
        cache::cached_outcome(state, ev) is Ok,
        next == state.moved_to(cache::cached_outcome(state, ev)->Ok_0.0),
    ensures
        stands_at(next, street, moves.push(i)),
        0 <= i < street_at(street, moves).report()->actions.len(),
        ({
            let a = street_at(street, moves).report()->actions[i];
            let word = ev.action->0@;
            &&& word == "check"@ ==> a == Action::Check
            &&& word == "call"@ ==> a == Action::Call
            &&& word == "fold"@ ==> a == Action::Fold
            &&& word == "bet"@ ==> a is Bet || a is AllIn
            &&& word == "raise"@ ==> a is Raise || a is AllIn
        }),
        forall|j: int|
            0 <= j < street_at(street, moves).report()->actions.len() && could_be(
                #[trigger] street_at(street, moves).report()->actions[j],
                ev.action->0@,
            ) ==> vstd::math::abs(state.live[state.node_position()]@[i] - ev.amount->0)
                <= vstd::math::abs(state.live[state.node_position()]@[j] - ev.amount->0),
{
    lemma_words();
    law_cached_node_is_the_decision(state, street, moves);
    let here = street_at(street, moves);
    let actions = state.node().actions@;
    let word = ev.action->0@;
    let live = state.live_amounts();
    let sizes = cache::sizes_for(actions, live, word);
    let plain = word == "check"@ || word == "call"@ || word == "fold"@;
    let i = if plain {
        cache::words_of(actions).index_of_first_ensures(word);
        cache::words_of(actions).index_of_first(word)->0
    } else {
        assert(events::nearest(sizes, ev.amount->0) is Some);
        events::nearest(sizes, ev.amount->0)->0
    };
    assert(0 <= i < actions.len());
    lemma_street_at(street, moves);
    let stored = here.report().summary(state.path);
    assert(here is Decision && here.is_street());
    assert(stored.actions.len() == here.width());
    assert(state.node()@.actions.len() == actions.len());
    assert forall|j: int| 0 <= j < actions.len() implies actions[j].action@ == tree::action_word(
        here.report()->actions[j],
    ) && actions[j].amount == tree::action_amount(here.report()->actions[j]) by {
        assert(stored.actions[j] == actions[j]@);
    }
    lemma_one_more_move(street, Seq::empty(), moves, i);
    assert(next.path == here.path_below(state.path, i));
    lemma_path_is_stored(next, street, moves.push(i), next.path);
    if plain {
        assert(cache::words_of(actions)[i] == word);
    } else {
        assert(events::is_nearest_size(sizes, ev.amount->0, i));
        assert(sizes[i] is Some);
        assert forall|j: int|
            0 <= j < actions.len() && could_be(
                #[trigger] here.report()->actions[j],
                word,
            ) implies vstd::math::abs(live[i] - ev.amount->0) <= vstd::math::abs(
            live[j] - ev.amount->0,
        ) by {
            assert(sizes[j] == Some(live[j]));
        }
    }
    i
}

/// An action that an observed bet or raise could be.
pub open spec fn could_be(a: Action, word: Seq<char>) -> bool {
    (word == "bet"@ && (a is Bet || a is AllIn)) || (word == "raise"@ && (a is Raise || a is AllIn))
}

proof fn lemma_street_at(street: FlopTree, moves: Seq<int>)
    requires
        street.is_street(),
        is_position(street, moves),
    ensures
        street_at(street, moves).is_street(),
    decreases moves.len(),
{
    if moves.len() > 0 {
        assert(street->children[moves[0]].is_street());
        lemma_street_at(street->children[moves[0]], moves.drop_first());
    }
}

/// A session that is over stays over: it refuses every event and every
/// strategy question with status 409.
pub proof fn law_finished_session_refuses_everything(
    state: CachedView,
    ev: EventReq,
    player: int,
    c1: u8,
    c2: u8,
)
    requires
        state.done,
    ensures
        cache::cached_outcome(state, ev) matches Err(f) && f.0 == 409,
        state.strategy_refusal(player, c1, c2) matches Some(f) && f.0 == 409,
{
}

/// A cached session never accepts a card.
pub proof fn law_cards_are_refused(state: CachedView, ev: EventReq)
    requires
        ev.kind@ == "card"@,
    ensures
        cache::cached_outcome(state, ev) matches Err(f) && f.0 == 409,
{
}

/// Checks, calls and folds are never approximated.
pub proof fn law_only_sizes_are_approximated(state: CachedView, ev: EventReq)
    requires
        cache::cached_outcome(state, ev) matches Ok((path, approximated)) && approximated,
    ensures
        ev.action matches Some(a) && (a@ == "bet"@ || a@ == "raise"@),
        ev.amount matches Some(x) && x > 0,
{
}

/// The order in which the two cards of a hand are given is irrelevant.
pub proof fn law_hand_order_is_irrelevant(state: CachedView, player: int, c1: u8, c2: u8)
    ensures
        state.hand_position(player, c1, c2) == state.hand_position(player, c2, c1),
        state.strategy_refusal(player, c1, c2) == state.strategy_refusal(player, c2, c1),
{
}

/// An answer from the cache is the one that the solve gave: for each action,
/// the numbers that the engine's tables hold for the hand at that decision.
pub proof fn law_cached_answer_is_the_solved_one(
    state: CachedView,
    street: FlopTree,
    moves: Seq<int>,
    line: cache::StrategyLine,
    live: i32,
    i: int,
    hand: int,
)
    requires
        stands_at(state, street, moves),
        !state.done,
        0 <= i < state.node().actions@.len(),
        cache::line_is(line, state.node().actions@[i], live, hand),
        street_at(street, moves).report().is_whole(),
        0 <= hand < street_at(street, moves).report()->num_hands,
    ensures
        ({
            let report = street_at(street, moves).report();
            &&& 0 <= i < report->actions.len()
            &&& line.action@ == tree::action_word(report->actions[i])
            &&& line.freq == Some(tree::row(report->strategy, report->num_hands, i)[hand])
            &&& line.ev == Some(tree::row(report->evs, report->num_hands, i)[hand])
        }),
{
    law_cached_node_is_the_decision(state, street, moves);
    let report = street_at(street, moves).report();
    let stored = report.summary(state.path);
    assert(state.node()@.actions.len() == state.node().actions@.len());
    assert(state.node().actions@[i]@ == stored.actions[i]);
    lemma_street_at(street, moves);
    let n = report->num_hands;
    assert(0 <= i * n && (i + 1) * n <= report->actions.len() * n && (i + 1) * n == i * n + n)
        by (nonlinear_arith)
        requires
            0 <= i < report->actions.len(),
            0 <= n,
    ;
}

/// An observed action is matched against a cache entry as it is against a live
/// tree: at a node that stores given actions with their amounts, the cached
/// session and the live game choose the same action, find it approximated
/// alike, and refuse with the same words.
pub proof fn law_cached_matching_is_live_matching(
    state: CachedView,
    actions: Seq<Action>,
    action: Seq<char>,
    amount: Option<i32>,
)
    requires
        ({
            let stored = state.node().actions@;
            let live = state.live_amounts();
            &&& stored.len() == actions.len()
            &&& live.len() == actions.len()
            &&& forall|i: int|
                0 <= i < actions.len() ==> (#[trigger] stored[i]).action@ == tree::action_word(
                    actions[i],
                )
            &&& forall|i: int|
                0 <= i < actions.len() ==> (tree::action_amount(#[trigger] actions[i]) matches Some(
                    x,
                ) ==> live[i] == x)
        }),
    ensures
        match (
            cache::observed_outcome(state, action, amount),
            solver::decision_outcome(actions, action, amount),
        ) {
            (Ok((path, cached)), Ok((i, live))) => path == state.path_after(i) && cached == live,
            (Err(f), Err(g)) => f == g,
            _ => false,
        },
{
    lemma_words();
    let stored = state.node().actions@;
    let live = state.live_amounts();
    if action == "check"@ || action == "call"@ || action == "fold"@ {
        let words = cache::words_of(stored);
        let want = solver::plain_action(action);
        assert forall|i: int| 0 <= i < actions.len() implies (words[i] == action) == (actions[i]
            == want) by {
            assert(words[i] == tree::action_word(actions[i]));
        }
        lemma_same_first(words, action, actions, want);
    } else if action == "bet"@ || action == "raise"@ {
        let sizes = cache::sizes_for(stored, live, action);
        assert forall|i: int| 0 <= i < actions.len() implies sizes[i] == solver::size_for(
            actions[i],
            action,
        ) by {
            assert(stored[i].action@ == tree::action_word(actions[i]));
        }
        assert(sizes =~= solver::sizes_for(actions, action));
        if let Some(x) = amount {
            if let Some(i) = events::nearest(sizes, x) {
                assert(events::is_nearest_size(sizes, x, i));
            }
        }
    }
}

proof fn lemma_same_first<A, B>(s: Seq<A>, x: A, t: Seq<B>, y: B)
    requires
        s.len() == t.len(),
        forall|i: int| 0 <= i < s.len() ==> (s[i] == x) == (t[i] == y),
    ensures
        s.index_of_first(x) == t.index_of_first(y),
{
    s.index_of_first_ensures(x);
    t.index_of_first_ensures(y);
    if s.contains(x) {
        let k = s.index_of_first(x)->0;
        assert(t[k] == y);
        assert(t.contains(y));
    }
    if t.contains(y) {
        let k = t.index_of_first(y)->0;
        assert(s[k] == x);
        assert(s.contains(x));
    }
}

} // verus!
