//! What a request asks for: its route, and the parameters of a query.

use crate::text;
use vstd::prelude::*;

verus! {

/// The method of a request.
pub enum Method {
    Get,
    Post,
    Delete,
    Options,
    Other,
}

/// What a request asks for. Sessions are named by their id; a strategy
/// question has its query besides.
pub enum Route {
    /// A browser asks what it may ask: any path, no content.
    Preflight,
    Health,
    CreateSession,
    SessionStatus(String),
    DeleteSession(String),
    PostEvent(String),
    GetStrategy(String, String),
    NotFound,
}

/// The content of a `Route`.
pub enum RouteView {
    Preflight,
    Health,
    CreateSession,
    SessionStatus(Seq<char>),
    DeleteSession(Seq<char>),
    PostEvent(Seq<char>),
    GetStrategy(Seq<char>, Seq<char>),
    NotFound,
}

impl View for Route {
    type V = RouteView;

    open spec fn view(&self) -> RouteView {
        match self {
            Route::Preflight => RouteView::Preflight,
            Route::Health => RouteView::Health,
            Route::CreateSession => RouteView::CreateSession,
            Route::SessionStatus(id) => RouteView::SessionStatus(id@),
            Route::DeleteSession(id) => RouteView::DeleteSession(id@),
            Route::PostEvent(id) => RouteView::PostEvent(id@),
            Route::GetStrategy(id, query) => RouteView::GetStrategy(id@, query@),
            Route::NotFound => RouteView::NotFound,
        }
    }
}

/// The path and the query of a URL, divided by its first question mark.
pub open spec fn path_and_query(url: Seq<char>) -> (Seq<char>, Seq<char>) {
    match text::split_once(url, '?') {
        Some(parts) => parts,
        None => (url, Seq::empty()),
    }
}

/// The segments of a path: what stands between slashes, unless it is empty.
pub open spec fn segments(path: Seq<char>) -> Seq<Seq<char>> {
    text::split_all(path, '/').filter(|s: Seq<char>| s.len() > 0)
}

/// The route of a request.
pub open spec fn route_of(method: Method, url: Seq<char>) -> RouteView {
    let (path, query) = path_and_query(url);
    let s = segments(path);
    if method is Options {
        RouteView::Preflight
    } else if method is Get && s =~= seq!["health"@] {
        RouteView::Health
    } else if method is Post && s =~= seq!["session"@] {
        RouteView::CreateSession
    } else if method is Get && s.len() == 2 && s[0] == "session"@ {
        RouteView::SessionStatus(s[1])
    } else if method is Delete && s.len() == 2 && s[0] == "session"@ {
        RouteView::DeleteSession(s[1])
    } else if method is Post && s.len() == 3 && s[0] == "session"@ && s[2] == "event"@ {
        RouteView::PostEvent(s[1])
    } else if method is Get && s.len() == 3 && s[0] == "session"@ && s[2] == "strategy"@ {
        RouteView::GetStrategy(s[1], query)
    } else {
        RouteView::NotFound
    }
}

fn path_segments(path: &str) -> (res: Vec<String>)
    ensures
        text::views(res@) == segments(path@),
{
    let pieces: Vec<String> = text::split_text(path, '/');
    let ghost all = text::views(pieces@);
    let ghost filled = |s: Seq<char>| s.len() > 0;
    let mut res: Vec<String> = Vec::new();
    let mut i: usize = 0;
    reveal(Seq::filter);
    assert(all.take(0).filter(filled) =~= Seq::empty());
    while i < pieces.len()
        invariant
            i <= pieces@.len(),
            all == text::views(pieces@),
            filled == (|s: Seq<char>| s.len() > 0),
            text::views(res@) == all.take(i as int).filter(filled),
        decreases pieces@.len() - i,
    {
        let ghost so_far = text::views(res@);
        proof {
            reveal(Seq::filter);
            assert(all.take(i + 1).drop_last() =~= all.take(i as int));
            assert(all.take(i + 1).last() == pieces@[i as int]@);
        }
        if !pieces[i].as_str().is_empty() {
            res.push(pieces[i].clone());
            assert(text::views(res@) =~= so_far.push(pieces@[i as int]@));
        }
        i += 1;
    }
    assert(all.take(i as int) =~= all);
    res
}

/// The route of a request.
pub fn route(method: &Method, url: &str) -> (r: Route)
    ensures
        r@ == route_of(*method, url@),
{
    if let Method::Options = method {
        return Route::Preflight;
    }
    let (path, query): (String, String) = match text::split_at_first(url, '?') {
        Some(parts) => parts,
        None => (url.to_owned(), String::new()),
    };
    let s: Vec<String> = path_segments(path.as_str());
    let ghost v = text::views(s@);
    assert(v.len() == s@.len());
    assert(v == segments(path_and_query(url@).0));
    if s.len() == 1 {
        assert(v =~= seq![s@[0]@]);
        let first: &str = s[0].as_str();
        match method {
            Method::Get => {
                if text::same_text(first, "health") {
                    return Route::Health;
                }
                assert(v[0] != seq!["health"@][0]);
            },
            Method::Post => {
                if text::same_text(first, "session") {
                    return Route::CreateSession;
                }
                assert(v[0] != seq!["session"@][0]);
            },
            _ => {},
        }
        return Route::NotFound;
    }
    assert(v != seq!["health"@] && v != seq!["session"@]);
    if s.len() < 2 || !text::same_text(s[0].as_str(), "session") {
        return Route::NotFound;
    }
    let id: String = s[1].clone();
    if s.len() == 2 {
        return match method {
            Method::Get => Route::SessionStatus(id),
            Method::Delete => Route::DeleteSession(id),
            _ => Route::NotFound,
        };
    }
    if s.len() == 3 {
        let last: &str = s[2].as_str();
        match method {
            Method::Post => {
                if text::same_text(last, "event") {
                    return Route::PostEvent(id);
                }
            },
            Method::Get => {
                if text::same_text(last, "strategy") {
                    return Route::GetStrategy(id, query);
                }
            },
            _ => {},
        }
    }
    Route::NotFound
}

// ---- Queries -------------------------------------------------------------------------------

/// The value of a parameter in the pieces of a query: that of the last piece
/// with its name. A piece without an equals sign counts for nothing.
pub open spec fn value_in(pieces: Seq<Seq<char>>, name: Seq<char>) -> Option<Seq<char>>
    decreases pieces.len(),
{
    if pieces.len() == 0 {
        None
    } else {
        match text::split_once(pieces.last(), '=') {
            Some((k, v)) => if k == name {
                Some(v)
            } else {
                value_in(pieces.drop_last(), name)
            },
            None => value_in(pieces.drop_last(), name),
        }
    }
}

/// The value of a parameter in a query.
pub open spec fn param_of(query: Seq<char>, name: Seq<char>) -> Option<Seq<char>> {
    value_in(text::split_all(query, '&'), name)
}

/// The value of a parameter in a query, the last one if it is given twice.
pub fn query_param(query: &str, name: &str) -> (value: Option<String>)
    ensures
        match value {
            Some(v) => param_of(query@, name@) == Some(v@),
            None => param_of(query@, name@) is None,
        },
{
    let pieces: Vec<String> = text::split_text(query, '&');
    let ghost all = text::views(pieces@);
    let mut i: usize = pieces.len();
    assert(all.take(i as int) =~= all);
    while i > 0
        invariant
            i <= pieces@.len(),
            all == text::views(pieces@),
            value_in(all.take(i as int), name@) == param_of(query@, name@),
        decreases i,
    {
        i -= 1;
        proof {
            assert(all.take(i + 1).drop_last() =~= all.take(i as int));
            assert(all.take(i + 1).last() == pieces@[i as int]@);
        }
        match text::split_at_first(pieces[i].as_str(), '=') {
            Some((k, v)) => {
                if text::same_text(k.as_str(), name) {
                    return Some(v);
                }
            },
            None => {},
        }
    }
    None
}

// ---- Laws ----------------------------------------------------------------------------------

proof fn lemma_filter_push(s: Seq<Seq<char>>, x: Seq<char>)
    ensures
        s.push(x).filter(|p: Seq<char>| p.len() > 0) == (if x.len() > 0 {
            s.filter(|p: Seq<char>| p.len() > 0).push(x)
        } else {
            s.filter(|p: Seq<char>| p.len() > 0)
        }),
{
    reveal(Seq::filter);
    assert(s.push(x).drop_last() =~= s);
}

/// A slash and a text without one add a segment to a path, unless the text is
/// empty; an empty path has no segments.
pub proof fn law_segments_stand_between_slashes(path: Seq<char>, last: Seq<char>)
    requires
        !last.contains('/'),
    ensures
        segments(Seq::empty()) == Seq::<Seq<char>>::empty(),
        segments(path + seq!['/'] + last) == (if last.len() > 0 {
            segments(path).push(last)
        } else {
            segments(path)
        }),
{
    let none = Seq::<char>::empty();
    none.index_of_first_ensures('/');
    reveal(Seq::filter);
    assert(text::split_all(none, '/') == seq![none]);
    assert(seq![none] =~= Seq::<Seq<char>>::empty().push(none));
    lemma_filter_push(Seq::empty(), none);
    assert(Seq::<Seq<char>>::empty().filter(|p: Seq<char>| p.len() > 0) =~= Seq::empty());
    text::law_splitting_goes_on(path, '/', last);
    lemma_filter_push(text::split_all(path, '/'), last);
}

/// A URL ends in its query, which begins after the first question mark.
pub proof fn law_query_follows_the_path(path: Seq<char>, query: Seq<char>)
    requires
        !path.contains('?'),
    ensures
        path_and_query(path) == (path, Seq::<char>::empty()),
        path_and_query(path + seq!['?'] + query) == (path, query),
{
    text::law_split_once_divides(path, '?', path, query);
    text::law_split_once_divides(path + seq!['?'] + query, '?', path, query);
}

proof fn lemma_one_segment(path: Seq<char>, word: Seq<char>)
    requires
        path == seq!['/'] + word,
        !word.contains('/'),
        word.len() > 0,
    ensures
        segments(path) == seq![word],
{
    let none = Seq::<char>::empty();
    law_segments_stand_between_slashes(none, word);
    assert(none + seq!['/'] + word =~= path);
    assert(segments(path) =~= seq![word]);
}

/// The paths of the server lead where they say, for every session id: an id is
/// any text without slash and question mark.
pub proof fn law_paths_lead_where_they_say(id: Seq<char>, query: Seq<char>)
    requires
        id.len() > 0,
        !id.contains('/'),
        !id.contains('?'),
    ensures
        route_of(Method::Get, "/health"@) == RouteView::Health,
        route_of(Method::Post, "/session"@) == RouteView::CreateSession,
        route_of(Method::Get, "/session/"@ + id) == RouteView::SessionStatus(id),
        route_of(Method::Delete, "/session/"@ + id) == RouteView::DeleteSession(id),
        route_of(Method::Post, "/session/"@ + id + "/event"@) == RouteView::PostEvent(id),
        route_of(Method::Get, "/session/"@ + id + "/strategy"@) == RouteView::GetStrategy(
            id,
            Seq::empty(),
        ),
        route_of(Method::Get, "/session/"@ + id + "/strategy?"@ + query)
            == RouteView::GetStrategy(id, query),
{
    reveal_strlit("/health");
    reveal_strlit("health");
    reveal_strlit("/session");
    reveal_strlit("session");
    reveal_strlit("/session/");
    reveal_strlit("/event");
    reveal_strlit("event");
    reveal_strlit("/strategy");
    reveal_strlit("strategy");
    reveal_strlit("/strategy?");
    assert("session"@[0] == 's' && "health"@[0] == 'h');
    assert(seq!["health"@][0] != seq!["session"@][0]);
    law_query_follows_the_path("/health"@, query);
    assert("/health"@ =~= seq!['/'] + "health"@);
    lemma_one_segment("/health"@, "health"@);
    law_query_follows_the_path("/session"@, query);
    assert("/session"@ =~= seq!['/'] + "session"@);
    lemma_one_segment("/session"@, "session"@);
    let one = "/session/"@ + id;
    assert(one =~= "/session"@ + seq!['/'] + id);
    law_segments_stand_between_slashes("/session"@, id);
    assert(segments(one) =~= seq!["session"@, id]);
    assert(!one.contains('?')) by {
        if one.contains('?') {
            let i = choose|i: int| 0 <= i < one.len() && one[i] == '?';
            if i >= 9 {
                assert(id[i - 9] == '?');
            }
        }
    }
    law_query_follows_the_path(one, query);
    let event = one + "/event"@;
    assert(event =~= one + seq!['/'] + "event"@);
    law_segments_stand_between_slashes(one, "event"@);
    assert(segments(event) =~= seq!["session"@, id, "event"@]);
    lemma_no_question_mark(one, "/event"@);
    law_query_follows_the_path(event, query);
    let strategy = one + "/strategy"@;
    assert(strategy =~= one + seq!['/'] + "strategy"@);
    law_segments_stand_between_slashes(one, "strategy"@);
    assert(segments(strategy) =~= seq!["session"@, id, "strategy"@]);
    lemma_no_question_mark(one, "/strategy"@);
    law_query_follows_the_path(strategy, query);
    assert(one + "/strategy?"@ + query =~= strategy + seq!['?'] + query);
    assert("event"@.len() != "strategy"@.len());
}

proof fn lemma_no_question_mark(a: Seq<char>, b: Seq<char>)
    requires
        !a.contains('?'),
        !b.contains('?'),
    ensures
        !(a + b).contains('?'),
{
    let s = a + b;
    if s.contains('?') {
        let i = choose|i: int| 0 <= i < s.len() && s[i] == '?';
        if i < a.len() {
            assert(a[i] == '?');
        } else {
            assert(b[i - a.len()] == '?');
        }
    }
}

/// Whatever is not a path of the server is not found, and a preflight request
/// has no path.
pub proof fn law_other_paths_are_not_found(method: Method, url: Seq<char>)
    ensures
        ({
            let s = segments(path_and_query(url).0);
            &&& method is Options <==> route_of(method, url) is Preflight
            &&& !(method is Options) && (s.len() == 0 || s.len() > 3) ==> route_of(
                method,
                url,
            ) is NotFound
            &&& !(method is Options) && s.len() > 0 && s[0] != "session"@ && s[0] != "health"@
                ==> route_of(method, url) is NotFound
            &&& s.len() > 1 && s[0] == "health"@ && !(method is Options) ==> route_of(
                method,
                url,
            ) is NotFound
            &&& method is Other ==> route_of(method, url) is NotFound
            &&& method is Delete && s.len() != 2 ==> route_of(method, url) is NotFound
            &&& method is Post && s.len() == 2 ==> route_of(method, url) is NotFound
            &&& method is Post && s.len() == 3 && s[2] != "event"@ ==> route_of(
                method,
                url,
            ) is NotFound
            &&& method is Get && s.len() == 3 && s[2] != "strategy"@ ==> route_of(
                method,
                url,
            ) is NotFound
        }),
{
    reveal_strlit("session");
    reveal_strlit("health");
    assert("session"@[0] == 's' && "health"@[0] == 'h');
    let s = segments(path_and_query(url).0);
    if s =~= seq!["health"@] {
        assert(s[0] == "health"@);
    }
    if s =~= seq!["session"@] {
        assert(s[0] == "session"@);
    }
}

/// What is added to a query counts: a parameter has the value that is given
/// last, pieces for other parameters do not matter, and neither do pieces
/// without an equals sign. An empty query has no parameters.
pub proof fn law_last_value_counts(
    query: Seq<char>,
    name: Seq<char>,
    other: Seq<char>,
    value: Seq<char>,
    bare: Seq<char>,
)
    requires
        !name.contains('&'),
        !name.contains('='),
        !other.contains('&'),
        !other.contains('='),
        other != name,
        !value.contains('&'),
        !bare.contains('&'),
        !bare.contains('='),
    ensures
        param_of(Seq::empty(), name) is None,
        param_of(name + seq!['='] + value, name) == Some(value),
        param_of(query + seq!['&'] + (name + seq!['='] + value), name) == Some(value),
        param_of(query + seq!['&'] + (other + seq!['='] + value), name) == param_of(query, name),
        param_of(query + seq!['&'] + bare, name) == param_of(query, name),
{
    let own = name + seq!['='] + value;
    let foreign = other + seq!['='] + value;
    lemma_no_ampersand(name, value);
    lemma_no_ampersand(other, value);
    text::law_splitting_goes_on(query, '&', own);
    text::law_splitting_goes_on(query, '&', foreign);
    text::law_splitting_goes_on(query, '&', bare);
    text::law_split_once_divides(own, '=', name, value);
    text::law_split_once_divides(foreign, '=', other, value);
    text::law_split_once_divides(bare, '=', bare, value);
    let pieces = text::split_all(query, '&');
    assert(pieces.push(own).drop_last() =~= pieces);
    assert(pieces.push(foreign).drop_last() =~= pieces);
    assert(pieces.push(bare).drop_last() =~= pieces);
    let none = Seq::<char>::empty();
    none.index_of_first_ensures('&');
    none.index_of_first_ensures('=');
    own.index_of_first_ensures('&');
    assert(text::split_all(none, '&') == seq![none]);
    assert(text::split_all(own, '&') == seq![own]);
    assert(seq![none].drop_last() =~= Seq::<Seq<char>>::empty());
    assert(seq![own].drop_last() =~= Seq::<Seq<char>>::empty());
    assert(value_in(Seq::empty(), name) is None);
    assert(seq![none].last() == none && seq![own].last() == own);
}

proof fn lemma_no_ampersand(name: Seq<char>, value: Seq<char>)
    requires
        !name.contains('&'),
        !value.contains('&'),
    ensures
        !(name + seq!['='] + value).contains('&'),
{
    let s = name + seq!['='] + value;
    if s.contains('&') {
        let i = choose|i: int| 0 <= i < s.len() && s[i] == '&';
        if i < name.len() {
            assert(name[i] == '&');
        } else if i > name.len() {
            assert(value[i - name.len() - 1] == '&');
        }
    }
}

} // verus!
