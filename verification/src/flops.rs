//! How often each canonical flop is dealt.

use crate::suits;
use vstd::prelude::*;

verus! {

/// A flop as it is dealt: three cards of the deck, in ascending order.
pub open spec fn is_raw_flop(t: (u8, u8, u8)) -> bool {
    t.0 < t.1 < t.2 < 52
}

pub open spec fn raw_cards(t: (u8, u8, u8)) -> Seq<u8> {
    seq![t.0, t.1, t.2]
}

/// The raw flops with a given canonical form.
pub open spec fn raw_flops_of(form: Seq<u8>) -> Set<(u8, u8, u8)> {
    Set::new(|t: (u8, u8, u8)| is_raw_flop(t) && suits::canonical_form(raw_cards(t)) == form)
}

/// The order of the list: frequent flops first, and among equally frequent
/// ones the lexicographically larger first.
pub open spec fn comes_before(x: ([u8; 3], u32), y: ([u8; 3], u32)) -> bool {
    x.1 > y.1 || (x.1 == y.1 && suits::flop_rank(x.0@) > suits::flop_rank(y.0@))
}

/// Whether a canonical form is on the list.
pub open spec fn is_listed(list: Seq<([u8; 3], u32)>, form: Seq<u8>) -> bool {
    exists|k: int| 0 <= k < list.len() && #[trigger] list[k].0@ == form
}

/// A list of canonical flops with their weights: each weight is the number of
/// raw flops of that form; the form of every raw flop is listed; and the list
/// is in order.
pub open spec fn is_weighted_list(list: Seq<([u8; 3], u32)>) -> bool {
    &&& forall|k: int|
        0 <= k < list.len() ==> raw_flops_of((#[trigger] list[k]).0@).finite() && list[k].1
            == raw_flops_of(list[k].0@).len() && list[k].1 > 0
    &&& forall|t: (u8, u8, u8)| #[trigger]
        is_raw_flop(t) ==> is_listed(list, suits::canonical_form(raw_cards(t)))
    &&& forall|i: int, j: int|
        0 <= i < j < list.len() ==> comes_before(#[trigger] list[i], #[trigger] list[j])
}

// ---- Counting ------------------------------------------------------------------------------

const SLOTS: u32 = 140608;

spec fn slot_of(form: Seq<u8>) -> int {
    2704 * form[0] + 52 * form[1] + form[2]
}

spec fn is_form(form: Seq<u8>) -> bool {
    form.len() == 3 && form[0] < 52 && form[1] < 52 && form[2] < 52
}

spec fn raw_slot(t: (u8, u8, u8)) -> int {
    2704 * t.0 + 52 * t.1 + t.2
}

spec fn raw_flops_below(form: Seq<u8>, n: int) -> Set<(u8, u8, u8)> {
    Set::new(
        |t: (u8, u8, u8)|
            is_raw_flop(t) && raw_slot(t) < n && suits::canonical_form(raw_cards(t)) == form,
    )
}

proof fn lemma_form_of_raw(t: (u8, u8, u8))
    requires
        is_raw_flop(t),
    ensures
        is_form(suits::canonical_form(raw_cards(t))),
{
    let s = raw_cards(t);
    suits::lemma_canonical_perm(s);
    let p = suits::canonical_perm(s);
    suits::lemma_mapped(s[0], p);
    suits::lemma_mapped(s[1], p);
    suits::lemma_mapped(s[2], p);
    reveal(suits::image);
    suits::lemma_descending(suits::mapped_flop(s, p));
}

proof fn lemma_slot_injective(a: Seq<u8>, b: Seq<u8>)
    requires
        is_form(a),
        is_form(b),
        slot_of(a) == slot_of(b),
    ensures
        a == b,
{
    assert(a =~= b);
}

/// Counting one more slot adds the raw flop of that slot, if there is one, to
/// its form and changes no other form.
proof fn lemma_count_next(form: Seq<u8>, n: int, t: (u8, u8, u8))
    requires
        0 <= n < SLOTS,
        raw_slot(t) == n,
        t.0 < 52 && t.1 < 52 && t.2 < 52,
        raw_flops_below(form, n).finite(),
    ensures
        raw_flops_below(form, n + 1).finite(),
        raw_flops_below(form, n + 1).len() == raw_flops_below(form, n).len() + (if is_raw_flop(t)
            && suits::canonical_form(raw_cards(t)) == form {
            1int
        } else {
            0int
        }),
{
    let old_set = raw_flops_below(form, n);
    let new_set = raw_flops_below(form, n + 1);
    assert forall|u: (u8, u8, u8)| is_raw_flop(u) && raw_slot(u) == n implies u == t by {
        assert(u.0 == t.0 && u.1 == t.1 && u.2 == t.2);
    }
    if is_raw_flop(t) && suits::canonical_form(raw_cards(t)) == form {
        assert(new_set =~= old_set.insert(t));
        assert(!old_set.contains(t));
    } else {
        assert(new_set =~= old_set);
    }
}

/// For every slot, how many raw flops have the canonical form of that slot.
fn count_forms() -> (weights: Vec<u32>)
    ensures
        weights@.len() == SLOTS,
        forall|form: Seq<u8>| #[trigger]
            is_form(form) ==> raw_flops_of(form).finite() && weights@[slot_of(form)]
                == raw_flops_of(form).len(),
        forall|k: int| 0 <= k < SLOTS ==> #[trigger] weights@[k] <= SLOTS,
{
    let mut weights: Vec<u32> = vec![0u32; SLOTS as usize];
    let mut n: u32 = 0;
    proof {
        assert forall|form: Seq<u8>| #[trigger] is_form(form) implies raw_flops_below(
            form,
            0,
        ).finite() && weights@[slot_of(form)] == raw_flops_below(form, 0).len() by {
            assert(raw_flops_below(form, 0) =~= Set::empty());
        }
    }
    while n < SLOTS
        invariant
            n <= SLOTS,
            weights@.len() == SLOTS,
            forall|form: Seq<u8>| #[trigger]
                is_form(form) ==> raw_flops_below(form, n as int).finite()
                    && weights@[slot_of(form)] == raw_flops_below(form, n as int).len(),
            forall|k: int| 0 <= k < SLOTS ==> #[trigger] weights@[k] <= n,
        decreases SLOTS - n,
    {
        let a: u8 = (n / 2704) as u8;
        let b: u8 = (n / 52 % 52) as u8;
        let c: u8 = (n % 52) as u8;
        let ghost t = (a, b, c);
        let ghost before = weights@;
        assert(raw_slot(t) == n);
        if a < b && b < c {
            let (form, _perm): ([u8; 3], [u8; 4]) = suits::canonical_flop([a, b, c]);
            proof {
                assert([a, b, c]@ =~= raw_cards(t));
                lemma_form_of_raw(t);
            }
            let slot: usize = 2704 * form[0] as usize + 52 * form[1] as usize + form[2] as usize;
            weights.set(slot, weights[slot] + 1);
            proof {
                assert forall|f: Seq<u8>| #[trigger] is_form(f) implies raw_flops_below(
                    f,
                    n + 1,
                ).finite() && weights@[slot_of(f)] == raw_flops_below(f, n + 1).len() by {
                    lemma_count_next(f, n as int, t);
                    if slot_of(f) == slot {
                        lemma_slot_injective(f, form@);
                    }
                }
            }
        } else {
            proof {
                assert forall|f: Seq<u8>| #[trigger] is_form(f) implies raw_flops_below(
                    f,
                    n + 1,
                ).finite() && weights@[slot_of(f)] == raw_flops_below(f, n + 1).len() by {
                    lemma_count_next(f, n as int, t);
                }
            }
        }
        n += 1;
    }
    proof {
        assert forall|form: Seq<u8>| #[trigger] is_form(form) implies raw_flops_of(form).finite()
            && weights@[slot_of(form)] == raw_flops_of(form).len() by {
            assert(raw_flops_below(form, SLOTS as int) =~= raw_flops_of(form));
        }
    }
    weights
}

// ---- The list ------------------------------------------------------------------------------

spec fn is_sorted(list: Seq<([u8; 3], u32)>) -> bool {
    forall|i: int, j: int|
        0 <= i < j < list.len() ==> comes_before(#[trigger] list[i], #[trigger] list[j])
}

/// Where a flop belongs in the list when its form is larger than every listed
/// one: in front of the first that is no more frequent.
fn position_for(list: &Vec<([u8; 3], u32)>, weight: u32) -> (at: usize)
    ensures
        at <= list@.len(),
        forall|i: int| 0 <= i < at ==> (#[trigger] list@[i]).1 > weight,
        at < list@.len() ==> list@[at as int].1 <= weight,
{
    let mut at: usize = 0;
    while at < list.len() && list[at].1 > weight
        invariant
            at <= list@.len(),
            forall|i: int| 0 <= i < at ==> (#[trigger] list@[i]).1 > weight,
        decreases list@.len() - at,
    {
        at += 1;
    }
    at
}

proof fn lemma_slot_order(a: Seq<u8>, b: Seq<u8>)
    requires
        is_form(a),
        is_form(b),
        slot_of(a) < slot_of(b),
    ensures
        suits::flop_rank(a) < suits::flop_rank(b),
{
}

proof fn lemma_sorted_insert(list: Seq<([u8; 3], u32)>, at: int, item: ([u8; 3], u32))
    requires
        is_sorted(list),
        0 <= at <= list.len(),
        forall|i: int| 0 <= i < at ==> (#[trigger] list[i]).1 > item.1,
        at < list.len() ==> list[at].1 <= item.1,
        forall|i: int|
            0 <= i < list.len() ==> suits::flop_rank((#[trigger] list[i]).0@) < suits::flop_rank(
                item.0@,
            ),
    ensures
        is_sorted(list.insert(at, item)),
{
    let new = list.insert(at, item);
    assert forall|i: int, j: int| 0 <= i < j < new.len() implies comes_before(
        #[trigger] new[i],
        #[trigger] new[j],
    ) by {
        if j == at {
            assert(new[i] == list[i]);
        } else if i == at {
            assert(new[j] == list[j - 1]);
            if j - 1 > at {
                assert(comes_before(list[at], list[j - 1]));
            }
        } else {
            let i0 = if i < at {
                i
            } else {
                i - 1
            };
            let j0 = if j < at {
                j
            } else {
                j - 1
            };
            assert(new[i] == list[i0] && new[j] == list[j0]);
            assert(comes_before(list[i0], list[j0]));
        }
    }
}

/// All canonical flops with their frequency weights (how many raw flops have
/// that form), the most frequent first, so that a partial run over the list
/// covers as many deals as it can.
pub fn canonical_flops_by_weight() -> (out: Vec<([u8; 3], u32)>)
    ensures
        is_weighted_list(out@),
{
    let weights: Vec<u32> = count_forms();
    let mut out: Vec<([u8; 3], u32)> = Vec::new();
    let mut n: u32 = 0;
    while n < SLOTS
        invariant
            n <= SLOTS,
            weights@.len() == SLOTS,
            is_sorted(out@),
            forall|k: int|
                0 <= k < out@.len() ==> is_form((#[trigger] out@[k]).0@) && slot_of(out@[k].0@) < n
                    && out@[k].1 == weights@[slot_of(out@[k].0@)] && out@[k].1 > 0,
            forall|form: Seq<u8>| #[trigger]
                is_form(form) && slot_of(form) < n && weights@[slot_of(form)] > 0 ==> exists|k: int|
                    0 <= k < out@.len() && #[trigger] out@[k].0@ == form,
        decreases SLOTS - n,
    {
        let weight: u32 = weights[n as usize];
        let ghost before = out@;
        let form: [u8; 3] = [(n / 2704) as u8, (n / 52 % 52) as u8, (n % 52) as u8];
        assert(is_form(form@) && slot_of(form@) == n);
        if weight > 0 {
            let at: usize = position_for(&out, weight);
            proof {
                assert forall|i: int| 0 <= i < out@.len() implies suits::flop_rank(
                    (#[trigger] out@[i]).0@,
                ) < suits::flop_rank(form@) by {
                    lemma_slot_order(out@[i].0@, form@);
                }
                lemma_sorted_insert(out@, at as int, (form, weight));
            }
            out.insert(at, (form, weight));
            proof {
                assert forall|k: int| 0 <= k < out@.len() implies is_form((#[trigger] out@[k]).0@)
                    && slot_of(out@[k].0@) < n + 1 && out@[k].1 == weights@[slot_of(out@[k].0@)]
                    && out@[k].1 > 0 by {
                    if k < at {
                        assert(out@[k] == before[k]);
                    } else if k > at {
                        assert(out@[k] == before[k - 1]);
                    }
                }
                assert(out@[at as int].0@ == form@);
            }
        }
        proof {
            assert forall|f: Seq<u8>| #[trigger]
                is_form(f) && slot_of(f) < n + 1 && weights@[slot_of(f)] > 0 implies exists|k: int|
                0 <= k < out@.len() && #[trigger] out@[k].0@ == f by {
                if slot_of(f) == n {
                    lemma_slot_injective(f, form@);
                } else {
                    let k = choose|k: int| 0 <= k < before.len() && #[trigger] before[k].0@ == f;
                    if weight > 0 {
                        let at = choose|at: int|
                            0 <= at <= before.len() && out@ == #[trigger] before.insert(
                                at,
                                (form, weight),
                            );
                        if k < at {
                            assert(out@[k].0@ == f);
                        } else {
                            assert(out@[k + 1].0@ == f);
                        }
                    } else {
                        assert(out@[k].0@ == f);
                    }
                }
            }
        }
        n += 1;
    }
    proof {
        assert forall|t: (u8, u8, u8)| #[trigger] is_raw_flop(t) implies is_listed(
            out@,
            suits::canonical_form(raw_cards(t)),
        ) by {
            let form = suits::canonical_form(raw_cards(t));
            lemma_form_of_raw(t);
            assert(raw_flops_of(form).contains(t));
            assert(raw_flops_of(form).len() > 0);
        }
    }
    out
}

// ---- Laws ----------------------------------------------------------------------------------

/// The raw flops whose cards are all lower than `n`.
pub open spec fn raw_flops_under(n: int) -> Set<(u8, u8, u8)> {
    Set::new(|t: (u8, u8, u8)| t.0 < t.1 < t.2 && t.2 < n)
}

/// The raw flops with a given highest card and the others lower than `m`.
pub open spec fn with_top(m: int, c: u8) -> Set<(u8, u8, u8)> {
    Set::new(|t: (u8, u8, u8)| t.0 < t.1 && t.1 < m && t.2 == c)
}

/// The raw flops with two given highest cards and the lowest below `m`.
pub open spec fn with_top_two(m: int, b: u8, c: u8) -> Set<(u8, u8, u8)> {
    Set::new(|t: (u8, u8, u8)| t.0 < m && t.1 == b && t.2 == c)
}

pub proof fn lemma_top_two_len(m: int, b: u8, c: u8)
    requires
        0 <= m <= 256,
    ensures
        with_top_two(m, b, c).finite(),
        with_top_two(m, b, c).len() == m,
    decreases m,
{
    if m == 0 {
        assert(with_top_two(0, b, c) =~= Set::empty());
    } else {
        lemma_top_two_len(m - 1, b, c);
        let t = ((m - 1) as u8, b, c);
        assert(with_top_two(m, b, c) =~= with_top_two(m - 1, b, c).insert(t));
    }
}

pub proof fn lemma_top_len(m: int, c: u8)
    requires
        0 <= m <= 256,
    ensures
        with_top(m, c).finite(),
        2 * with_top(m, c).len() == m * (m - 1),
    decreases m,
{
    if m == 0 {
        assert(with_top(0, c) =~= Set::empty());
    } else {
        lemma_top_len(m - 1, c);
        let b = (m - 1) as u8;
        lemma_top_two_len(m - 1, b, c);
        let rest = with_top(m - 1, c);
        let row = with_top_two(m - 1, b, c);
        assert(with_top(m, c) =~= rest.union(row));
        assert(rest.disjoint(row));
        vstd::set_lib::lemma_set_disjoint_lens(rest, row);
        assert((m - 1) * (m - 2) + 2 * (m - 1) == m * (m - 1)) by (nonlinear_arith);
    }
}

pub proof fn lemma_raw_len(n: int)
    requires
        0 <= n <= 256,
    ensures
        raw_flops_under(n).finite(),
        6 * raw_flops_under(n).len() == n * (n - 1) * (n - 2),
    decreases n,
{
    if n == 0 {
        assert(raw_flops_under(0) =~= Set::empty());
    } else {
        lemma_raw_len(n - 1);
        let c = (n - 1) as u8;
        lemma_top_len(n - 1, c);
        let rest = raw_flops_under(n - 1);
        let top = with_top(n - 1, c);
        assert(raw_flops_under(n) =~= rest.union(top));
        assert(rest.disjoint(top));
        vstd::set_lib::lemma_set_disjoint_lens(rest, top);
        assert((n - 1) * (n - 2) * (n - 3) + 3 * ((n - 1) * (n - 2)) == n * (n - 1) * (n - 2))
            by (nonlinear_arith);
    }
}

/// The sum of the weights on a list.
pub open spec fn total_weight(list: Seq<([u8; 3], u32)>) -> nat
    decreases list.len(),
{
    if list.len() == 0 {
        0
    } else {
        total_weight(list.drop_last()) + list.last().1 as nat
    }
}

spec fn listed_raw_flops(list: Seq<([u8; 3], u32)>) -> Set<(u8, u8, u8)> {
    Set::new(
        |t: (u8, u8, u8)|
            is_raw_flop(t) && is_listed(list, suits::canonical_form(raw_cards(t))),
    )
}

proof fn lemma_total_is_count(list: Seq<([u8; 3], u32)>)
    requires
        forall|k: int|
            0 <= k < list.len() ==> raw_flops_of((#[trigger] list[k]).0@).finite() && list[k].1
                == raw_flops_of(list[k].0@).len(),
        forall|i: int, j: int|
            0 <= i < j < list.len() ==> comes_before(#[trigger] list[i], #[trigger] list[j]),
    ensures
        listed_raw_flops(list).finite(),
        listed_raw_flops(list).len() == total_weight(list),
    decreases list.len(),
{
    let all = listed_raw_flops(list);
    if list.len() == 0 {
        assert(all =~= Set::empty());
    } else {
        let front = list.drop_last();
        lemma_total_is_count(front);
        let last = list.last();
        let rest = listed_raw_flops(front);
        let own = raw_flops_of(last.0@);
        assert forall|t: (u8, u8, u8)| all.contains(t) implies rest.union(own).contains(t) by {
            let form = suits::canonical_form(raw_cards(t));
            let k = choose|k: int| 0 <= k < list.len() && #[trigger] list[k].0@ == form;
            if k < front.len() {
                assert(front[k].0@ == form);
            }
        }
        assert forall|t: (u8, u8, u8)| rest.union(own).contains(t) implies all.contains(t) by {
            let form = suits::canonical_form(raw_cards(t));
            if rest.contains(t) {
                let k = choose|k: int| 0 <= k < front.len() && #[trigger] front[k].0@ == form;
                assert(list[k].0@ == form);
            } else {
                assert(list[list.len() - 1].0@ == form);
            }
        }
        assert(all =~= rest.union(own));
        assert forall|t: (u8, u8, u8)| !(rest.contains(t) && own.contains(t)) by {
            if rest.contains(t) && own.contains(t) {
                let form = suits::canonical_form(raw_cards(t));
                let k = choose|k: int| 0 <= k < front.len() && #[trigger] front[k].0@ == form;
                assert(comes_before(list[k], list[list.len() - 1]));
                assert(list[k].1 == raw_flops_of(form).len());
                assert(list[list.len() - 1].1 == raw_flops_of(form).len());
            }
        }
        assert(rest.disjoint(own));
        vstd::set_lib::lemma_set_disjoint_lens(rest, own);
    }
}

/// The weights add up to the number of raw flops: every deal is counted once.
pub proof fn law_weights_count_every_deal(list: Seq<([u8; 3], u32)>)
    requires
        is_weighted_list(list),
    ensures
        total_weight(list) == 22100,
        raw_flops_under(52).len() == 22100,
{
    lemma_total_is_count(list);
    lemma_raw_len(52);
    assert forall|t: (u8, u8, u8)| raw_flops_under(52).contains(t) implies listed_raw_flops(
        list,
    ).contains(t) by {
        assert(is_raw_flop(t));
    }
    assert(listed_raw_flops(list) =~= raw_flops_under(52));
}

/// No canonical flop is listed twice.
pub proof fn law_listed_flops_differ(list: Seq<([u8; 3], u32)>, i: int, j: int)
    requires
        is_weighted_list(list),
        0 <= i < j < list.len(),
    ensures
        list[i].0@ != list[j].0@,
{
    assert(comes_before(list[i], list[j]));
}

/// Every listed flop is its own canonical form, made of cards of the deck.
pub proof fn law_listed_flops_are_canonical(list: Seq<([u8; 3], u32)>, k: int)
    requires
        is_weighted_list(list),
        0 <= k < list.len(),
    ensures
        suits::canonical_form(list[k].0@) == list[k].0@,
        forall|i: int| 0 <= i < 3 ==> #[trigger] list[k].0@[i] < 52,
{
    let set = raw_flops_of(list[k].0@);
    assert(set.len() > 0);
    let t = set.choose();
    assert(set.contains(t));
    suits::law_form_is_canonical(raw_cards(t));
    lemma_form_of_raw(t);
}

/// A flop stands before another on the list exactly if it is more frequent, or
/// as frequent and larger card by card.
pub proof fn law_list_is_ordered(list: Seq<([u8; 3], u32)>, i: int, j: int)
    requires
        is_weighted_list(list),
        0 <= i < j < list.len(),
    ensures
        ({
            let a = list[i].0@;
            let b = list[j].0@;
            &&& list[i].1 >= list[j].1
            &&& list[i].1 == list[j].1 ==> a[0] > b[0] || (a[0] == b[0] && (a[1] > b[1] || (a[1]
                == b[1] && a[2] > b[2])))
        }),
{
    assert(comes_before(list[i], list[j]));
}

/// The weight of a listed flop counts the deals that can be renamed into it:
/// three cards of the deck are counted for it exactly if some renaming of suits
/// makes them its cards.
pub proof fn law_weight_counts_renamed_deals(list: Seq<([u8; 3], u32)>, k: int, t: (u8, u8, u8))
    requires
        is_weighted_list(list),
        0 <= k < list.len(),
    ensures
        list[k].1 == raw_flops_of(list[k].0@).len(),
        raw_flops_of(list[k].0@).contains(t) <==> t.0 < t.1 < t.2 < 52 && exists|q: Seq<u8>|
            suits::is_suit_perm(q) && #[trigger] suits::reordered(
                suits::mapped_flop(raw_cards(t), q),
                list[k].0@,
            ),
{
    let f = list[k].0@;
    let cards = raw_cards(t);
    law_listed_flops_are_canonical(list, k);
    if raw_flops_of(f).contains(t) {
        suits::lemma_canonical_perm(cards);
        let q = suits::canonical_perm(cards);
        reveal(suits::image);
        suits::lemma_descending(suits::mapped_flop(cards, q));
        assert(suits::reordered(suits::mapped_flop(cards, q), f));
    }
    if exists|q: Seq<u8>|
        suits::is_suit_perm(q) && #[trigger] suits::reordered(suits::mapped_flop(cards, q), f) {
        let q = choose|q: Seq<u8>|
            suits::is_suit_perm(q) && #[trigger] suits::reordered(suits::mapped_flop(cards, q), f);
        suits::law_renamed_flops_share_a_form(cards, q);
        suits::law_card_order_is_irrelevant(suits::mapped_flop(cards, q), f);
    }
}

} // verus!
