//! The sessions that the server knows, by id.

use crate::events;
use crate::events::Failure;
use crate::text;
use vstd::prelude::*;

verus! {

/// Sessions are evicted at this age (30 minutes).
pub const SESSION_TTL_SECS: u64 = 1800;

const NANOS_PER_SEC: u64 = 1000000000;

/// A session of the given age, in nanoseconds, is kept.
pub open spec fn is_fresh(created_at: u128, now: u128) -> bool {
    now - created_at < SESSION_TTL_SECS * 1000000000
}

// ---- Ids -----------------------------------------------------------------------------------

/// A session id: the time and the number of the session, in hexadecimal.
pub open spec fn id_text(millis: u128, count: u64) -> Seq<char> {
    text::numeral(millis as nat, 16) + "-"@ + text::numeral(count as nat, 16)
}

/// The id of the session with the given number, created at the given time in
/// milliseconds.
pub fn new_session_id(millis: u128, count: u64) -> (id: String)
    ensures
        id@ == id_text(millis, count),
{
    let mut id: String = String::new();
    text::push_numeral(&mut id, millis, 16);
    id.append("-");
    text::push_numeral(&mut id, count as u128, 16);
    assert(id@ =~= id_text(millis, count));
    id
}

proof fn lemma_dash_position(millis: u128, count: u64)
    ensures
        ({
            let n = text::numeral(millis as nat, 16).len();
            &&& id_text(millis, count)[n as int] == '-'
            &&& forall|i: int| 0 <= i < n ==> id_text(millis, count)[i] != '-'
        }),
{
    reveal_strlit("-");
    let a = text::numeral(millis as nat, 16);
    assert forall|i: int| 0 <= i < a.len() implies id_text(millis, count)[i] != '-' by {
        text::lemma_numeral_digits(millis as nat, 16, i);
    }
}

/// Sessions with different numbers have different ids, whatever the time.
pub proof fn law_ids_differ(m1: u128, c1: u64, m2: u128, c2: u64)
    requires
        id_text(m1, c1) == id_text(m2, c2),
    ensures
        m1 == m2,
        c1 == c2,
{
    reveal_strlit("-");
    lemma_dash_position(m1, c1);
    lemma_dash_position(m2, c2);
    let s = id_text(m1, c1);
    let a1 = text::numeral(m1 as nat, 16);
    let a2 = text::numeral(m2 as nat, 16);
    let b1 = text::numeral(c1 as nat, 16);
    let b2 = text::numeral(c2 as nat, 16);
    if a1.len() < a2.len() {
        assert(id_text(m2, c2)[a1.len() as int] != '-');
    } else if a2.len() < a1.len() {
        assert(id_text(m1, c1)[a2.len() as int] != '-');
    }
    let n = a1.len() as int;
    assert(a1 =~= s.take(n));
    assert(a2 =~= s.take(n));
    assert(b1 =~= s.skip(n + 1));
    assert(b2 =~= s.skip(n + 1));
    text::law_numerals_differ(m1 as nat, m2 as nat, 16);
    text::law_numerals_differ(c1 as nat, c2 as nat, 16);
}

// ---- Registry ------------------------------------------------------------------------------

/// A session in the registry: its id, when it was created (in nanoseconds of
/// a clock that never runs back), and the session itself.
pub struct Registered<S> {
    pub id: String,
    pub created_at: u128,
    pub session: S,
}

/// The sessions that the server knows. No id occurs twice.
pub struct Registry<S> {
    entries: Vec<Registered<S>>,
}

spec fn ids_of<S>(entries: Seq<Registered<S>>) -> Seq<Seq<char>> {
    entries.map_values(|e: Registered<S>| e.id@)
}

spec fn ids_unique<S>(entries: Seq<Registered<S>>) -> bool {
    forall|i: int, j: int|
        0 <= i < j < entries.len() ==> (#[trigger] entries[i]).id@ != (#[trigger] entries[j]).id@
}

/// An entry is fresh and stands at position `n` or later.
spec fn is_fresh_among<S>(
    entries: Seq<Registered<S>>,
    n: int,
    now: u128,
    e: Registered<S>,
) -> bool {
    is_fresh(e.created_at, now) && exists|i: int| n <= i < entries.len() && #[trigger] entries[i]
        == e
}

spec fn as_map<S>(entries: Seq<Registered<S>>) -> Map<Seq<char>, (u128, S)> {
    Map::new(
        |id: Seq<char>| ids_of(entries).contains(id),
        |id: Seq<char>|
            {
                let e = entries[ids_of(entries).index_of_first(id)->0];
                (e.created_at, e.session)
            },
    )
}

impl<S> View for Registry<S> {
    type V = Map<Seq<char>, (u128, S)>;

    closed spec fn view(&self) -> Map<Seq<char>, (u128, S)> {
        as_map(self.entries@)
    }
}

proof fn lemma_as_map<S>(entries: Seq<Registered<S>>, i: int)
    requires
        ids_unique(entries),
        0 <= i < entries.len(),
    ensures
        as_map(entries).contains_key(entries[i].id@),
        as_map(entries)[entries[i].id@] == (entries[i].created_at, entries[i].session),
{
    let ids = ids_of(entries);
    let id = entries[i].id@;
    ids.index_of_first_ensures(id);
    assert(ids[i] == id);
    let k = ids.index_of_first(id)->0;
    assert(ids[k] == id && entries[k].id@ == id);
    if k < i {
        assert(entries[k].id@ != entries[i].id@);
    } else if i < k {
        assert(entries[i].id@ != entries[k].id@);
    }
}

proof fn lemma_map_key<S>(entries: Seq<Registered<S>>, id: Seq<char>) -> (i: int)
    requires
        as_map(entries).contains_key(id),
    ensures
        0 <= i < entries.len(),
        entries[i].id@ == id,
{
    let ids = ids_of(entries);
    let i = choose|i: int| 0 <= i < ids.len() && ids[i] == id;
    assert(ids[i] == id);
    i
}

impl<S> Registry<S> {
    pub closed spec fn inv(self) -> bool {
        ids_unique(self.entries@)
    }

    /// A registry without sessions.
    pub fn new() -> (r: Registry<S>)
        ensures
            r.inv(),
            r@ == Map::<Seq<char>, (u128, S)>::empty(),
    {
        let r = Registry { entries: Vec::new() };
        assert(r@ =~= Map::<Seq<char>, (u128, S)>::empty());
        r
    }

    fn position(&self, id: &str) -> (at: Option<usize>)
        requires
            self.inv(),
        ensures
            match at {
                Some(k) => k < self.entries@.len() && self.entries@[k as int].id@ == id@,
                None => forall|i: int|
                    0 <= i < self.entries@.len() ==> (#[trigger] self.entries@[i]).id@ != id@,
            },
    {
        let mut i: usize = 0;
        while i < self.entries.len()
            invariant
                i <= self.entries@.len(),
                forall|k: int| 0 <= k < i ==> (#[trigger] self.entries@[k]).id@ != id@,
            decreases self.entries@.len() - i,
        {
            if text::same_text(self.entries[i].id.as_str(), id) {
                return Some(i);
            }
            i += 1;
        }
        None
    }

    /// Adds a session; one with the same id is replaced.
    pub fn insert(&mut self, id: String, created_at: u128, session: S)
        requires
            old(self).inv(),
        ensures
            final(self).inv(),
            final(self)@ == old(self)@.insert(id@, (created_at, session)),
    {
        let ghost before = self.entries@;
        let at: Option<usize> = self.position(id.as_str());
        let entry = Registered { id, created_at, session };
        match at {
            Some(k) => {
                self.entries.set(k, entry);
                assert(self.entries@ == before.update(k as int, entry));
            },
            None => {
                self.entries.push(entry);
                assert(self.entries@ == before.push(entry));
            },
        }
        proof {
            let now = self.entries@;
            let target = as_map(before).insert(id@, (created_at, session));
            assert(ids_unique(now));
            assert forall|key: Seq<char>| as_map(now).contains_key(key) == target.contains_key(
                key,
            ) by {
                if as_map(now).contains_key(key) {
                    let i = lemma_map_key(now, key);
                    if key != id@ {
                        assert(before[i] == now[i]);
                        lemma_as_map(before, i);
                    }
                }
                if target.contains_key(key) {
                    if key == id@ {
                        let i = match at {
                            Some(k) => k as int,
                            None => before.len() as int,
                        };
                        lemma_as_map(now, i);
                    } else {
                        let i = lemma_map_key(before, key);
                        assert(now[i] == before[i]);
                        lemma_as_map(now, i);
                    }
                }
            }
            assert forall|key: Seq<char>| as_map(now).contains_key(key) implies as_map(now)[key]
                == target[key] by {
                let i = lemma_map_key(now, key);
                lemma_as_map(now, i);
                if key != id@ {
                    assert(before[i] == now[i]);
                    lemma_as_map(before, i);
                }
            }
            assert(self@ =~= target);
        }
    }

    /// The session with an id.
    pub fn find_session(&self, id: &str) -> (found: Result<&S, Failure>)
        requires
            self.inv(),
        ensures
            match found {
                Ok(session) => self@.contains_key(id@) && self@[id@].1 == *session,
                Err(e) => !self@.contains_key(id@) && events::failure_is(
                    e,
                    (404, "unknown session"@),
                ),
            },
    {
        match self.position(id) {
            Some(k) => {
                proof {
                    lemma_as_map(self.entries@, k as int);
                }
                Ok(&self.entries[k].session)
            },
            None => {
                proof {
                    if self@.contains_key(id@) {
                        let i = lemma_map_key(self.entries@, id@);
                    }
                }
                Err(events::failure(404, "unknown session"))
            },
        }
    }

    /// Removes the session with an id.
    pub fn delete_session(&mut self, id: &str) -> (res: Result<(), Failure>)
        requires
            old(self).inv(),
        ensures
            final(self).inv(),
            final(self)@ == old(self)@.remove(id@),
            match res {
                Ok(_) => old(self)@.contains_key(id@),
                Err(e) => !old(self)@.contains_key(id@) && events::failure_is(
                    e,
                    (404, "unknown session"@),
                ),
            },
    {
        let ghost before = self.entries@;
        match self.position(id) {
            Some(k) => {
                proof {
                    lemma_as_map(before, k as int);
                }
                let _removed: Registered<S> = self.entries.remove(k);
                proof {
                    let now = self.entries@;
                    assert(now == before.remove(k as int));
                    assert forall|i: int, j: int| 0 <= i < j < now.len() implies (
                    #[trigger] now[i]).id@ != (#[trigger] now[j]).id@ by {
                        let i0 = if i < k {
                            i
                        } else {
                            i + 1
                        };
                        let j0 = if j < k {
                            j
                        } else {
                            j + 1
                        };
                        assert(now[i] == before[i0] && now[j] == before[j0]);
                    }
                    let target = as_map(before).remove(id@);
                    assert forall|key: Seq<char>| as_map(now).contains_key(key)
                        == target.contains_key(key) by {
                        if as_map(now).contains_key(key) {
                            let i = lemma_map_key(now, key);
                            let i0 = if i < k {
                                i
                            } else {
                                i + 1
                            };
                            assert(now[i] == before[i0]);
                            lemma_as_map(before, i0);
                            assert(before[i0].id@ != before[k as int].id@);
                        }
                        if target.contains_key(key) {
                            let i = lemma_map_key(before, key);
                            let i0 = if i < k {
                                i
                            } else {
                                i - 1
                            };
                            assert(now[i0] == before[i]);
                            lemma_as_map(now, i0);
                        }
                    }
                    assert forall|key: Seq<char>| as_map(now).contains_key(key) implies as_map(
                        now,
                    )[key] == target[key] by {
                        let i = lemma_map_key(now, key);
                        lemma_as_map(now, i);
                        let i0 = if i < k {
                            i
                        } else {
                            i + 1
                        };
                        assert(now[i] == before[i0]);
                        lemma_as_map(before, i0);
                    }
                    assert(self@ =~= target);
                }
                Ok(())
            },
            None => {
                proof {
                    if self@.contains_key(id@) {
                        let i = lemma_map_key(self.entries@, id@);
                    }
                    assert(self@ =~= old(self)@.remove(id@));
                }
                Err(events::failure(404, "unknown session"))
            },
        }
    }

    /// Drops the sessions that have reached the age of eviction.
    pub fn evict_expired(&mut self, now: u128)
        requires
            old(self).inv(),
        ensures
            final(self).inv(),
            forall|id: Seq<char>| #[trigger]
                final(self)@.contains_key(id) <==> old(self)@.contains_key(id) && is_fresh(
                    old(self)@[id].0,
                    now,
                ),
            forall|id: Seq<char>| #[trigger]
                final(self)@.contains_key(id) ==> final(self)@[id] == old(self)@[id],
    {
        let ghost before = self.entries@;
        let ttl: u128 = SESSION_TTL_SECS as u128 * NANOS_PER_SEC as u128;
        let mut kept: Vec<Registered<S>> = Vec::new();
        let ghost mut n: int = before.len() as int;
        assert(before.take(n) =~= before);
        while self.entries.len() > 0
            invariant
                ids_unique(before),
                ttl == SESSION_TTL_SECS * 1000000000,
                0 <= n <= before.len(),
                self.entries@ == before.take(n),
                ids_unique(kept@),
                forall|j: int|
                    0 <= j < kept@.len() ==> is_fresh_among(before, n, now, #[trigger] kept@[j]),
                forall|i: int|
                    n <= i < before.len() && is_fresh((#[trigger] before[i]).created_at, now)
                        ==> kept@.contains(before[i]),
            decreases self.entries@.len(),
        {
            let ghost kept_before = kept@;
            let e: Registered<S> = self.entries.pop().unwrap();
            proof {
                n = n - 1;
            }
            assert(e == before[n]);
            assert(self.entries@ =~= before.take(n));
            if now < e.created_at || now - e.created_at < ttl {
                kept.push(e);
                proof {
                    assert(kept@[kept_before.len() as int] == e);
                    assert forall|i: int, j: int| 0 <= i < j < kept@.len() implies (
                    #[trigger] kept@[i]).id@ != (#[trigger] kept@[j]).id@ by {
                        if j == kept_before.len() {
                            assert(kept@[i] == kept_before[i]);
                            assert(is_fresh_among(before, n + 1, now, kept_before[i]));
                            let k = choose|k: int|
                                n + 1 <= k < before.len() && #[trigger] before[k] == kept_before[i];
                            assert(before[n].id@ != before[k].id@);
                        } else {
                            assert(kept@[i] == kept_before[i] && kept@[j] == kept_before[j]);
                        }
                    }
                    assert forall|i: int|
                        n <= i < before.len() && is_fresh(
                            (#[trigger] before[i]).created_at,
                            now,
                        ) implies kept@.contains(before[i]) by {
                        if i > n {
                            assert(kept_before.contains(before[i]));
                            let k = choose|k: int|
                                0 <= k < kept_before.len() && kept_before[k] == before[i];
                            assert(kept@[k] == before[i]);
                        }
                    }
                }
            }
            assert forall|j: int| 0 <= j < kept@.len() implies is_fresh_among(
                before,
                n,
                now,
                #[trigger] kept@[j],
            ) by {
                if j < kept_before.len() {
                    assert(kept@[j] == kept_before[j]);
                    assert(is_fresh_among(before, n + 1, now, kept_before[j]));
                } else {
                    assert(before[n] == kept@[j]);
                }
            }
        }
        self.entries = kept;
        proof {
            let after = self.entries@;
            assert forall|id: Seq<char>| #[trigger] self@.contains_key(id) implies as_map(
                before,
            ).contains_key(id) && is_fresh(as_map(before)[id].0, now) && as_map(after)[id]
                == as_map(before)[id] by {
                let j = lemma_map_key(after, id);
                assert(is_fresh_among(before, n, now, after[j]));
                let i = choose|i: int| n <= i < before.len() && #[trigger] before[i] == after[j];
                lemma_as_map(after, j);
                lemma_as_map(before, i);
            }
            assert forall|id: Seq<char>|
                as_map(before).contains_key(id) && is_fresh(
                    as_map(before)[id].0,
                    now,
                ) implies #[trigger] self@.contains_key(id) by {
                let i = lemma_map_key(before, id);
                lemma_as_map(before, i);
                assert(after.contains(before[i]));
                let j = choose|j: int| 0 <= j < after.len() && after[j] == before[i];
                lemma_as_map(after, j);
            }
        }
    }
}

/// A session is kept while it is less than thirty minutes old, in nanoseconds.
pub proof fn law_sessions_live_thirty_minutes(created_at: u128, now: u128)
    ensures
        is_fresh(created_at, now) <==> now < created_at + 1_800_000_000_000,
{
}

/// An id is the time and the number of its session in hexadecimal, divided by
/// its only dash.
pub proof fn law_id_spells_time_and_number(millis: u128, count: u64)
    ensures
        ({
            let parts = text::split_once(id_text(millis, count), '-');
            &&& parts matches Some((a, b)) && text::value_of(a, 16) == millis && text::value_of(
                b,
                16,
            ) == count
        }),
{
    reveal_strlit("-");
    let a = text::numeral(millis as nat, 16);
    let b = text::numeral(count as nat, 16);
    let id = id_text(millis, count);
    lemma_dash_position(millis, count);
    assert(!a.contains('-')) by {
        if a.contains('-') {
            let i = choose|i: int| 0 <= i < a.len() && a[i] == '-';
            assert(id[i] == '-');
        }
    }
    assert(id =~= a + seq!['-'] + b);
    text::law_split_once_divides(id, '-', a, b);
    text::law_numeral_spells_its_number(millis as nat, 16);
    text::law_numeral_spells_its_number(count as nat, 16);
}

} // verus!
