//! Observed events, and how an observed bet size is matched to the sizes that
//! a tree offers.

use vstd::prelude::*;

verus! {

/// A card as an event or a request names it, with what the engine made of the
/// text: the card, or the engine's words for what is wrong with it.
pub struct CardRead {
    pub text: String,
    pub card: Result<u8, String>,
}

/// An observed event: an action of a player, or a card of the board.
pub struct EventReq {
    /// `action` or `card`.
    pub kind: String,
    /// For an action: `check`, `bet`, `raise`, `call` or `fold`.
    pub action: Option<String>,
    /// For a bet the total bet, for a raise the total raised to.
    pub amount: Option<i32>,
    /// For a card.
    pub card: Option<CardRead>,
}

/// An HTTP status with a message.
pub type Failure = (u16, String);

/// A failure as a specification speaks of it.
pub type FailureView = (u16, Seq<char>);

/// Whether a failure has a given status and message.
pub open spec fn failure_is(f: Failure, view: FailureView) -> bool {
    f.0 == view.0 && f.1@ == view.1
}

/// A failure with a fixed message.
pub fn failure(status: u16, message: &str) -> (f: Failure)
    ensures
        failure_is(f, (status, message@)),
{
    (status, message.to_owned())
}

/// A failure whose message has a text in the middle.
pub fn failure_about(status: u16, before: &str, subject: &str, after: &str) -> (f: Failure)
    ensures
        failure_is(f, (status, before@ + subject@ + after@)),
{
    let mut message: String = before.to_owned();
    message.append(subject);
    message.append(after);
    (status, message)
}

// ---- Sizes ---------------------------------------------------------------------------------

/// How far a size lies from an observed amount.
pub open spec fn distance(size: i32, amount: i32) -> int {
    if size >= amount {
        size - amount
    } else {
        amount - size
    }
}

/// Size `k` is on offer, none on offer is nearer to the amount, and none
/// before it is as near.
pub open spec fn is_nearest_size(sizes: Seq<Option<i32>>, amount: i32, k: int) -> bool {
    &&& 0 <= k < sizes.len()
    &&& sizes[k] is Some
    &&& forall|j: int|
        0 <= j < sizes.len() && (#[trigger] sizes[j]) is Some ==> distance(sizes[k]->0, amount)
            <= distance(sizes[j]->0, amount)
    &&& forall|j: int|
        0 <= j < k && (#[trigger] sizes[j]) is Some ==> distance(sizes[k]->0, amount) < distance(
            sizes[j]->0,
            amount,
        )
}

/// The size nearest to an amount, the first of several, among those on offer.
pub open spec fn nearest(sizes: Seq<Option<i32>>, amount: i32) -> Option<int> {
    if exists|k: int| is_nearest_size(sizes, amount, k) {
        Some(choose|k: int| is_nearest_size(sizes, amount, k))
    } else {
        None
    }
}

/// An observed amount counts as approximated when the size it was matched to
/// differs from it by more than a fifth of it.
pub open spec fn is_approximate(size: i32, amount: i32) -> bool {
    5 * distance(size, amount) > amount
}

proof fn lemma_nearest(sizes: Seq<Option<i32>>, amount: i32, k: int)
    requires
        is_nearest_size(sizes, amount, k),
    ensures
        nearest(sizes, amount) == Some(k),
{
    let c = choose|c: int| is_nearest_size(sizes, amount, c);
    assert(is_nearest_size(sizes, amount, c));
    assert(sizes[c] is Some && sizes[k] is Some);
}

fn distance_to(size: i32, amount: i32) -> (d: i64)
    ensures
        d == distance(size, amount),
{
    if size >= amount {
        size as i64 - amount as i64
    } else {
        amount as i64 - size as i64
    }
}

/// Whether matching an amount to a size is an approximation.
pub fn approximates(size: i32, amount: i32) -> (r: bool)
    ensures
        r == is_approximate(size, amount),
{
    5 * distance_to(size, amount) > amount as i64
}

/// The position of the size nearest to an amount, if any size is on offer.
pub fn nearest_size(sizes: &Vec<Option<i32>>, amount: i32) -> (best: Option<usize>)
    ensures
        match best {
            Some(k) => nearest(sizes@, amount) == Some(k as int) && is_nearest_size(
                sizes@,
                amount,
                k as int,
            ),
            None => nearest(sizes@, amount) is None && forall|j: int|
                0 <= j < sizes@.len() ==> (#[trigger] sizes@[j]) is None,
        },
{
    let mut best: Option<(usize, i64)> = None;
    let mut i: usize = 0;
    while i < sizes.len()
        invariant
            i <= sizes@.len(),
            match best {
                Some((k, d)) => {
                    &&& k < i
                    &&& sizes@[k as int] is Some
                    &&& d == distance(sizes@[k as int]->0, amount)
                    &&& forall|j: int|
                        0 <= j < i && (#[trigger] sizes@[j]) is Some ==> d <= distance(
                            sizes@[j]->0,
                            amount,
                        )
                    &&& forall|j: int|
                        0 <= j < k && (#[trigger] sizes@[j]) is Some ==> d < distance(
                            sizes@[j]->0,
                            amount,
                        )
                },
                None => forall|j: int| 0 <= j < i ==> (#[trigger] sizes@[j]) is None,
            },
        decreases sizes@.len() - i,
    {
        if let Some(size) = sizes[i] {
            let d: i64 = distance_to(size, amount);
            let nearer: bool = match best {
                Some((_, b)) => d < b,
                None => true,
            };
            if nearer {
                best = Some((i, d));
            }
        }
        i += 1;
    }
    match best {
        Some((k, _)) => {
            assert(is_nearest_size(sizes@, amount, k as int));
            proof {
                lemma_nearest(sizes@, amount, k as int);
            }
            Some(k)
        },
        None => None,
    }
}

// ---- Laws ----------------------------------------------------------------------------------

/// Where any size is on offer, one is nearest.
pub proof fn law_some_size_is_nearest(sizes: Seq<Option<i32>>, amount: i32, k: int)
    requires
        0 <= k < sizes.len(),
        sizes[k] is Some,
    ensures
        nearest(sizes, amount) is Some,
        is_nearest_size(sizes, amount, nearest(sizes, amount)->0),
    decreases distance(sizes[k]->0, amount), k,
{
    let d = distance(sizes[k]->0, amount);
    if exists|j: int|
        0 <= j < sizes.len() && (#[trigger] sizes[j]) is Some && (distance(sizes[j]->0, amount) < d
            || (distance(sizes[j]->0, amount) == d && j < k)) {
        let j = choose|j: int|
            0 <= j < sizes.len() && (#[trigger] sizes[j]) is Some && (distance(sizes[j]->0, amount)
                < d || (distance(sizes[j]->0, amount) == d && j < k));
        law_some_size_is_nearest(sizes, amount, j);
    } else {
        assert(is_nearest_size(sizes, amount, k));
    }
}

/// A size that is on offer is matched to itself, and that is no
/// approximation.
pub proof fn law_offered_size_is_exact(sizes: Seq<Option<i32>>, amount: i32, k: int)
    requires
        amount > 0,
        0 <= k < sizes.len(),
        sizes[k] == Some(amount),
    ensures
        nearest(sizes, amount) is Some,
        sizes[nearest(sizes, amount)->0] == Some(amount),
        !is_approximate(amount, amount),
{
    law_some_size_is_nearest(sizes, amount, k);
    let c = nearest(sizes, amount)->0;
    assert(is_nearest_size(sizes, amount, c));
    assert(sizes[k] is Some);
}

/// What an amount is matched to is at no greater distance from it than anything
/// on offer, and at a smaller one than what is offered before it.
pub proof fn law_matched_size_is_nearest(
    sizes: Seq<Option<i32>>,
    amount: i32,
    k: int,
    j: int,
    size: i32,
    other: i32,
)
    requires
        nearest(sizes, amount) == Some(k),
        0 <= j < sizes.len(),
        sizes[j] == Some(other),
    ensures
        0 <= k < sizes.len(),
        sizes[k] is Some,
        sizes[k] == Some(size) ==> vstd::math::abs(size - amount) <= vstd::math::abs(
            other - amount,
        ),
        sizes[k] == Some(size) && j < k ==> vstd::math::abs(size - amount) < vstd::math::abs(
            other - amount,
        ),
{
    assert(is_nearest_size(sizes, amount, k));
}

/// An amount is matched wherever anything is on offer, and only there.
pub proof fn law_something_is_matched_if_offered(sizes: Seq<Option<i32>>, amount: i32)
    ensures
        nearest(sizes, amount) is Some <==> exists|k: int|
            0 <= k < sizes.len() && (#[trigger] sizes[k]) is Some,
{
    if exists|k: int| 0 <= k < sizes.len() && (#[trigger] sizes[k]) is Some {
        let k = choose|k: int| 0 <= k < sizes.len() && (#[trigger] sizes[k]) is Some;
        law_some_size_is_nearest(sizes, amount, k);
    }
    if nearest(sizes, amount) is Some {
        let k = choose|k: int| is_nearest_size(sizes, amount, k);
        assert(sizes[k] is Some);
    }
}

/// A size stands for an amount without approximation exactly if it lies between
/// four and six fifths of it.
pub proof fn law_a_fifth_is_tolerated(size: i32, amount: i32)
    ensures
        is_approximate(size, amount) <==> 5 * size > 6 * amount || 5 * size < 4 * amount,
{
}

/// A failure has a status and a message exactly if both are the same.
pub proof fn law_failures_keep_status_and_words(f: Failure, status: u16, words: Seq<char>)
    ensures
        failure_is(f, (status, words)) <==> f.0 == status && f.1@ == words,
{
}

} // verus!
