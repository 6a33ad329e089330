//! Suit canonicalization.
//!
//! A card is a number: four times its rank plus its suit. Two flops that
//! differ only in the names of their suits play alike, so each flop is
//! stored under one canonical form.

use vstd::prelude::*;

verus! {

// ---- Suit permutations ---------------------------------------------------------------------

/// A permutation of the four suits: position is the real suit, value the
/// mapped one.
pub open spec fn is_suit_perm(p: Seq<u8>) -> bool {
    &&& p.len() == 4
    &&& p[0] < 4 && p[1] < 4 && p[2] < 4 && p[3] < 4
    &&& p[0] != p[1] && p[0] != p[2] && p[0] != p[3]
    &&& p[1] != p[2] && p[1] != p[3]
    &&& p[2] != p[3]
}

/// Lexicographic order on permutations is the order of these numbers.
pub open spec fn perm_rank(p: Seq<u8>) -> int {
    64 * p[0] + 16 * p[1] + 4 * p[2] + p[3]
}

/// Doing `q` first and `p` after it.
pub open spec fn compose(p: Seq<u8>, q: Seq<u8>) -> Seq<u8> {
    Seq::new(4, |i: int| p[q[i] as int])
}

/// The position at which a permutation holds a suit.
pub open spec fn suit_source(p: Seq<u8>, suit: int) -> u8 {
    if p[0] == suit {
        0
    } else if p[1] == suit {
        1
    } else if p[2] == suit {
        2
    } else {
        3
    }
}

/// The permutation that undoes `p`.
pub open spec fn inverse(p: Seq<u8>) -> Seq<u8> {
    Seq::new(4, |i: int| suit_source(p, i))
}

proof fn lemma_compose_perm(p: Seq<u8>, q: Seq<u8>)
    requires
        is_suit_perm(p),
        is_suit_perm(q),
    ensures
        is_suit_perm(compose(p, q)),
{
    let r = compose(p, q);
    assert(r[0] == p[q[0] as int] && r[1] == p[q[1] as int] && r[2] == p[q[2] as int] && r[3]
        == p[q[3] as int]);
}

proof fn lemma_inverse_perm(p: Seq<u8>)
    requires
        is_suit_perm(p),
    ensures
        is_suit_perm(inverse(p)),
        compose(inverse(p), p) =~= seq![0u8, 1, 2, 3],
        compose(p, inverse(p)) =~= seq![0u8, 1, 2, 3],
{
    let r = inverse(p);
    assert(r[0] == suit_source(p, 0) && r[1] == suit_source(p, 1) && r[2] == suit_source(p, 2)
        && r[3] == suit_source(p, 3));
}

// ---- Cards ---------------------------------------------------------------------------------

/// A card with its suit renamed and its rank kept.
pub open spec fn mapped(card: u8, p: Seq<u8>) -> u8 {
    (card & !3u8) | p[(card & 3u8) as int]
}

/// Renaming suits keeps the rank: `mapped` in terms of rank and suit.
pub proof fn lemma_mapped(card: u8, p: Seq<u8>)
    requires
        is_suit_perm(p),
    ensures
        mapped(card, p) == 4 * (card / 4) + p[(card % 4) as int],
        (card & 3u8) as int == card % 4,
{
    let s = p[(card & 3u8) as int];
    assert(card & 3u8 == card % 4u8) by (bit_vector);
    assert(s < 4u8 ==> (card & !3u8) | s == 4u8 * (card / 4u8) + s) by (bit_vector);
}

/// A card with its suit renamed by a permutation.
pub fn map_card(card: u8, perm: &[u8; 4]) -> (res: u8)
    ensures
        res == mapped(card, perm@),
        is_suit_perm(perm@) ==> res == 4 * (card / 4) + perm@[(card % 4) as int],
{
    proof {
        assert(card & 3u8 < 4u8) by (bit_vector);
        if is_suit_perm(perm@) {
            lemma_mapped(card, perm@);
        }
    }
    (card & !3u8) | perm[(card & 3u8) as usize]
}

// ---- Flops ---------------------------------------------------------------------------------

pub open spec fn larger(a: u8, b: u8) -> u8 {
    if a >= b {
        a
    } else {
        b
    }
}

pub open spec fn smaller(a: u8, b: u8) -> u8 {
    if a <= b {
        a
    } else {
        b
    }
}

/// Three cards from the highest to the lowest.
pub open spec fn descending(s: Seq<u8>) -> Seq<u8> {
    let high = larger(larger(s[0], s[1]), s[2]);
    let low = smaller(smaller(s[0], s[1]), s[2]);
    seq![high, (s[0] + s[1] + s[2] - high - low) as u8, low]
}

/// Lexicographic order on three cards is the order of these numbers.
pub open spec fn flop_rank(s: Seq<u8>) -> int {
    65536 * s[0] + 256 * s[1] + s[2]
}

/// Three cards with their suits renamed, in place.
pub open spec fn mapped_flop(cards: Seq<u8>, p: Seq<u8>) -> Seq<u8> {
    seq![mapped(cards[0], p), mapped(cards[1], p), mapped(cards[2], p)]
}

/// What a permutation makes of a flop: the renamed cards in descending order.
#[verifier::opaque]
pub open spec fn image(cards: Seq<u8>, p: Seq<u8>) -> Seq<u8> {
    descending(mapped_flop(cards, p))
}

/// Orders permutations by their image of the flop, then by themselves.
pub open spec fn choice_rank(cards: Seq<u8>, p: Seq<u8>) -> int {
    256 * flop_rank(image(cards, p)) + perm_rank(p)
}

/// Among all suit permutations `p` has the smallest image of the flop, and
/// among those with that image it is itself the smallest.
pub open spec fn is_canonical_perm(cards: Seq<u8>, p: Seq<u8>) -> bool {
    &&& is_suit_perm(p)
    &&& forall|q: Seq<u8>| #[trigger]
        is_suit_perm(q) ==> choice_rank(cards, p) <= choice_rank(cards, q)
}

/// The permutation that maps a flop onto its canonical form.
pub open spec fn canonical_perm(cards: Seq<u8>) -> Seq<u8> {
    choose|p: Seq<u8>| is_canonical_perm(cards, p)
}

/// The canonical form of a flop.
pub open spec fn canonical_form(cards: Seq<u8>) -> Seq<u8> {
    image(cards, canonical_perm(cards))
}

proof fn lemma_least_perm(cards: Seq<u8>, p: Seq<u8>)
    requires
        is_suit_perm(p),
    ensures
        exists|q: Seq<u8>| is_canonical_perm(cards, q),
    decreases choice_rank(cards, p),
{
    if exists|q: Seq<u8>| #[trigger]
        is_suit_perm(q) && choice_rank(cards, q) < choice_rank(cards, p) {
        let q = choose|q: Seq<u8>| #[trigger]
            is_suit_perm(q) && choice_rank(cards, q) < choice_rank(cards, p);
        lemma_least_perm(cards, q);
    } else {
        assert(is_canonical_perm(cards, p));
    }
}

proof fn lemma_perm_rank(p: Seq<u8>)
    requires
        is_suit_perm(p),
    ensures
        0 <= perm_rank(p) < 256,
{
}

proof fn lemma_perm_rank_injective(p: Seq<u8>, q: Seq<u8>)
    requires
        is_suit_perm(p),
        is_suit_perm(q),
        perm_rank(p) == perm_rank(q),
    ensures
        p == q,
{
    assert(p =~= q);
}

proof fn lemma_same_low_digit(x: int, a: int, y: int, b: int)
    requires
        256 * x + a == 256 * y + b,
        0 <= a < 256,
        0 <= b < 256,
    ensures
        x == y,
        a == b,
{
}

/// Exactly one permutation is canonical for a flop.
pub proof fn lemma_canonical_perm(cards: Seq<u8>)
    ensures
        is_canonical_perm(cards, canonical_perm(cards)),
        forall|p: Seq<u8>|
            is_canonical_perm(cards, p) ==> p == canonical_perm(cards),
{
    assert(is_suit_perm(seq![0u8, 1, 2, 3]));
    lemma_least_perm(cards, seq![0u8, 1, 2, 3]);
    let c = canonical_perm(cards);
    assert forall|p: Seq<u8>| is_canonical_perm(cards, p) implies p == c by {
        assert(is_suit_perm(p) && is_suit_perm(c));
        assert(choice_rank(cards, p) == choice_rank(cards, c));
        lemma_perm_rank(p);
        lemma_perm_rank(c);
        lemma_same_low_digit(
            flop_rank(image(cards, p)),
            perm_rank(p),
            flop_rank(image(cards, c)),
            perm_rank(c),
        );
        lemma_perm_rank_injective(p, c);
    }
}

/// Whether three suits, written as one number in base four, are different.
spec fn suits_differ(t: int) -> bool {
    t / 16 != t / 4 % 4 && t / 16 != t % 4 && t / 4 % 4 != t % 4
}

/// How many of the numbers below `t` are three different suits.
spec fn differing_below(t: int) -> nat
    decreases t,
{
    if t <= 0 {
        0
    } else {
        differing_below(t - 1) + (if suits_differ(t - 1) {
            1nat
        } else {
            0nat
        })
    }
}

/// All 24 permutations of the four suits, in lexicographic order.
fn suit_perms() -> (out: Vec<[u8; 4]>)
    ensures
        out@.len() == 24,
        forall|k: int| 0 <= k < out@.len() ==> is_suit_perm(#[trigger] out@[k]@),
        forall|p: Seq<u8>| #[trigger]
            is_suit_perm(p) ==> exists|k: int| 0 <= k < out@.len() && #[trigger] out@[k]@ == p,
        forall|j: int, k: int|
            0 <= j < k < out@.len() ==> perm_rank(#[trigger] out@[j]@) < perm_rank(
                #[trigger] out@[k]@,
            ),
{
    let mut out: Vec<[u8; 4]> = Vec::with_capacity(24);
    let mut t: u8 = 0;
    while t < 64
        invariant
            t <= 64,
            out@.len() == differing_below(t as int),
            forall|k: int| 0 <= k < out@.len() ==> is_suit_perm(#[trigger] out@[k]@),
            forall|k: int| 0 <= k < out@.len() ==> perm_rank(#[trigger] out@[k]@) < 4 * t,
            forall|p: Seq<u8>| #[trigger]
                is_suit_perm(p) && perm_rank(p) < 4 * t ==> exists|k: int|
                    0 <= k < out@.len() && #[trigger] out@[k]@ == p,
            forall|j: int, k: int|
                0 <= j < k < out@.len() ==> perm_rank(#[trigger] out@[j]@) < perm_rank(
                    #[trigger] out@[k]@,
                ),
        decreases 64 - t,
    {
        let a: u8 = t / 16;
        let b: u8 = t / 4 % 4;
        let c: u8 = t % 4;
        let ghost before = out@;
        if a != b && a != c && b != c {
            let d: u8 = 6 - a - b - c;
            let perm: [u8; 4] = [a, b, c, d];
            assert(is_suit_perm(perm@));
            out.push(perm);
            assert(out@[before.len() as int]@ == perm@);
        }
        assert forall|p: Seq<u8>| #[trigger]
            is_suit_perm(p) && perm_rank(p) < 4 * (t + 1) implies exists|k: int|
            0 <= k < out@.len() && #[trigger] out@[k]@ == p by {
            if perm_rank(p) < 4 * t {
                let k = choose|k: int| 0 <= k < before.len() && #[trigger] before[k]@ == p;
                assert(out@[k]@ == p);
            } else {
                assert(p[0] == a && p[1] == b && p[2] == c);
                assert(out@[before.len() as int]@ =~= p);
            }
        }
        t += 1;
    }
    assert(out@.len() == 24) by {
        reveal_with_fuel(differing_below, 65);
    }
    out
}

/// Three cards from the highest to the lowest.
pub fn sorted_descending(a: u8, b: u8, c: u8) -> (res: [u8; 3])
    ensures
        res@ == descending(seq![a, b, c]),
{
    let (x, y): (u8, u8) = if a >= b {
        (a, b)
    } else {
        (b, a)
    };
    let res: [u8; 3] = if c >= x {
        [c, x, y]
    } else if c >= y {
        [x, c, y]
    } else {
        [x, y, c]
    };
    assert(res@ =~= descending(seq![a, b, c]));
    res
}

fn rank_of_flop(flop: &[u8; 3]) -> (r: u32)
    ensures
        r == flop_rank(flop@),
{
    65536 * (flop[0] as u32) + 256 * (flop[1] as u32) + flop[2] as u32
}

fn image_of(cards: &[u8; 3], perm: &[u8; 4]) -> (res: [u8; 3])
    ensures
        res@ == image(cards@, perm@),
{
    proof {
        reveal(image);
    }
    sorted_descending(map_card(cards[0], perm), map_card(cards[1], perm), map_card(cards[2], perm))
}

proof fn lemma_least_listed(cards: Seq<u8>, perms: Seq<[u8; 4]>, best: Seq<u8>)
    requires
        is_suit_perm(best),
        forall|p: Seq<u8>| #[trigger]
            is_suit_perm(p) ==> exists|k: int| 0 <= k < perms.len() && #[trigger] perms[k]@ == p,
        forall|j: int|
            0 <= j < perms.len() ==> choice_rank(cards, best) <= choice_rank(
                cards,
                #[trigger] perms[j]@,
            ),
    ensures
        is_canonical_perm(cards, best),
        best == canonical_perm(cards),
{
    assert forall|q: Seq<u8>| #[trigger] is_suit_perm(q) implies choice_rank(cards, best)
        <= choice_rank(cards, q) by {
        let j = choose|j: int| 0 <= j < perms.len() && #[trigger] perms[j]@ == q;
        assert(choice_rank(cards, best) <= choice_rank(cards, perms[j]@));
    }
    lemma_canonical_perm(cards);
}

/// The canonical form of a flop, with the suit permutation (real suit to
/// canonical suit) that leads to it: its image of the flop, sorted descending,
/// is lexicographically smallest, and of several permutations with that image
/// it is the smallest. So a lookup renames suits, those off the board
/// included, exactly as the solve did that filled the cache.
pub fn canonical_flop(cards: [u8; 3]) -> (res: ([u8; 3], [u8; 4]))
    ensures
        is_canonical_perm(cards@, res.1@),
        res.1@ == canonical_perm(cards@),
        res.0@ == image(cards@, res.1@),
        res.0@ == canonical_form(cards@),
{
    let perms: Vec<[u8; 4]> = suit_perms();
    let mut best_perm: [u8; 4] = perms[0];
    let mut best: [u8; 3] = image_of(&cards, &best_perm);
    let mut at: usize = 0;
    let mut k: usize = 1;
    while k < perms.len()
        invariant
            1 <= k <= perms@.len(),
            at < k,
            best_perm == perms@[at as int],
            best@ == image(cards@, best_perm@),
            forall|j: int|
                0 <= j < k ==> choice_rank(cards@, best_perm@) <= choice_rank(
                    cards@,
                    #[trigger] perms@[j]@,
                ),
            forall|j: int| 0 <= j < perms@.len() ==> is_suit_perm(#[trigger] perms@[j]@),
            forall|i: int, j: int|
                0 <= i < j < perms@.len() ==> perm_rank(#[trigger] perms@[i]@) < perm_rank(
                    #[trigger] perms@[j]@,
                ),
        decreases perms@.len() - k,
    {
        let perm: [u8; 4] = perms[k];
        let next: [u8; 3] = image_of(&cards, &perm);
        proof {
            lemma_perm_rank(perm@);
            lemma_perm_rank(best_perm@);
        }
        let ghost old_rank = choice_rank(cards@, best_perm@);
        let ghost next_rank = choice_rank(cards@, perm@);
        if rank_of_flop(&next) < rank_of_flop(&best) {
            best = next;
            best_perm = perm;
            at = k;
            assert(next_rank < old_rank);
        } else {
            assert(old_rank <= next_rank);
        }
        k += 1;
    }
    proof {
        lemma_least_listed(cards@, perms@, best_perm@);
    }
    (best, best_perm)
}

// ---- Laws ----------------------------------------------------------------------------------

/// The same three cards, perhaps in another order.
pub open spec fn reordered(a: Seq<u8>, b: Seq<u8>) -> bool {
    ||| b =~= seq![a[0], a[1], a[2]]
    ||| b =~= seq![a[0], a[2], a[1]]
    ||| b =~= seq![a[1], a[0], a[2]]
    ||| b =~= seq![a[1], a[2], a[0]]
    ||| b =~= seq![a[2], a[0], a[1]]
    ||| b =~= seq![a[2], a[1], a[0]]
}

/// `descending` orders cards and neither adds nor drops any.
pub proof fn lemma_descending(s: Seq<u8>)
    requires
        s.len() == 3,
    ensures
        descending(s).len() == 3,
        descending(s)[0] >= descending(s)[1] >= descending(s)[2],
        reordered(s, descending(s)),
{
}

proof fn lemma_descending_of_reordered(a: Seq<u8>, b: Seq<u8>)
    requires
        reordered(a, b),
    ensures
        descending(a) == descending(b),
{
    assert(descending(a) =~= descending(b));
}

proof fn lemma_descending_equal(a: Seq<u8>, b: Seq<u8>)
    requires
        a.len() == 3,
        b.len() == 3,
        descending(a) == descending(b),
    ensures
        reordered(a, b),
{
    lemma_descending(a);
    lemma_descending(b);
    let d = descending(a);
    assert(d =~= seq![d[0], d[1], d[2]]);
}

proof fn lemma_mapped_reordered(a: Seq<u8>, b: Seq<u8>, p: Seq<u8>)
    requires
        reordered(a, b),
    ensures
        reordered(mapped_flop(a, p), mapped_flop(b, p)),
{
}

proof fn lemma_flop_rank_injective(a: Seq<u8>, b: Seq<u8>)
    requires
        a.len() == 3,
        b.len() == 3,
        flop_rank(a) == flop_rank(b),
    ensures
        a == b,
{
    assert(a =~= b);
}

proof fn lemma_image_len(cards: Seq<u8>, p: Seq<u8>)
    ensures
        image(cards, p).len() == 3,
{
    reveal(image);
}

/// Renaming suits twice is renaming them once by the composed permutation.
pub proof fn lemma_mapped_twice(card: u8, p: Seq<u8>, q: Seq<u8>)
    requires
        is_suit_perm(p),
        is_suit_perm(q),
    ensures
        is_suit_perm(compose(p, q)),
        mapped(mapped(card, q), p) == mapped(card, compose(p, q)),
{
    lemma_compose_perm(p, q);
    lemma_mapped(card, q);
    lemma_mapped(mapped(card, q), p);
    lemma_mapped(card, compose(p, q));
    let m = mapped(card, q);
    assert(m == 4 * (card / 4) + q[(card % 4) as int]);
    assert(m / 4 == card / 4 && m % 4 == q[(card % 4) as int]);
    assert(compose(p, q)[(card % 4) as int] == p[q[(card % 4) as int] as int]);
}

proof fn lemma_image_of_mapped(cards: Seq<u8>, p: Seq<u8>, q: Seq<u8>)
    requires
        is_suit_perm(p),
        is_suit_perm(q),
    ensures
        is_suit_perm(compose(p, q)),
        image(mapped_flop(cards, q), p) == image(cards, compose(p, q)),
{
    reveal(image);
    lemma_mapped_twice(cards[0], p, q);
    lemma_mapped_twice(cards[1], p, q);
    lemma_mapped_twice(cards[2], p, q);
    assert(mapped_flop(mapped_flop(cards, q), p) =~= mapped_flop(cards, compose(p, q)));
}

proof fn lemma_form_below(cards: Seq<u8>, p: Seq<u8>)
    requires
        is_suit_perm(p),
    ensures
        flop_rank(canonical_form(cards)) <= flop_rank(image(cards, p)),
{
    lemma_canonical_perm(cards);
    let c = canonical_perm(cards);
    lemma_perm_rank(c);
    lemma_perm_rank(p);
    assert(choice_rank(cards, c) <= choice_rank(cards, p));
}

/// A flop that no renaming of suits makes smaller is its own canonical form.
pub proof fn lemma_least_image(cards: Seq<u8>)
    requires
        cards.len() == 3,
        cards[0] >= cards[1] >= cards[2],
        forall|q: Seq<u8>| #[trigger]
            is_suit_perm(q) ==> flop_rank(cards) <= flop_rank(image(cards, q)),
    ensures
        canonical_form(cards) == cards,
{
    lemma_canonical_perm(cards);
    lemma_identity_image(cards);
    lemma_form_below(cards, seq![0u8, 1, 2, 3]);
    lemma_image_len(cards, canonical_perm(cards));
    lemma_flop_rank_injective(canonical_form(cards), cards);
}

/// Renaming suits back restores every card.
pub proof fn law_renaming_is_undone(card: u8, p: Seq<u8>)
    requires
        is_suit_perm(p),
    ensures
        is_suit_perm(inverse(p)),
        mapped(mapped(card, p), inverse(p)) == card,
        mapped(mapped(card, inverse(p)), p) == card,
{
    lemma_inverse_perm(p);
    lemma_mapped_twice(card, inverse(p), p);
    lemma_mapped_twice(card, p, inverse(p));
    let id = seq![0u8, 1, 2, 3];
    assert(compose(inverse(p), p) =~= id && compose(p, inverse(p)) =~= id);
    lemma_mapped(card, id);
}

/// Flops that differ only in the names of their suits share a canonical form.
pub proof fn law_renamed_flops_share_a_form(cards: Seq<u8>, q: Seq<u8>)
    requires
        cards.len() == 3,
        is_suit_perm(q),
    ensures
        canonical_form(mapped_flop(cards, q)) == canonical_form(cards),
{
    let other = mapped_flop(cards, q);
    lemma_canonical_perm(cards);
    lemma_canonical_perm(other);
    lemma_inverse_perm(q);
    let p = canonical_perm(cards);
    let r = canonical_perm(other);
    // The form of `other` is an image of `cards`.
    lemma_image_of_mapped(cards, r, q);
    lemma_form_below(cards, compose(r, q));
    // The form of `cards` is an image of `other`.
    lemma_image_of_mapped(other, p, inverse(q));
    assert(mapped_flop(other, inverse(q)) =~= cards) by {
        law_renaming_is_undone(cards[0], q);
        law_renaming_is_undone(cards[1], q);
        law_renaming_is_undone(cards[2], q);
    }
    lemma_form_below(other, compose(p, inverse(q)));
    lemma_image_len(cards, p);
    lemma_image_len(other, r);
    lemma_flop_rank_injective(canonical_form(cards), canonical_form(other));
}

/// The order in which a flop's cards are given matters neither for its form
/// nor for the permutation.
pub proof fn law_card_order_is_irrelevant(a: Seq<u8>, b: Seq<u8>)
    requires
        reordered(a, b),
    ensures
        canonical_form(a) == canonical_form(b),
        canonical_perm(a) == canonical_perm(b),
{
    assert forall|p: Seq<u8>| image(a, p) == image(b, p) by {
        reveal(image);
        lemma_mapped_reordered(a, b, p);
        lemma_descending_of_reordered(mapped_flop(a, p), mapped_flop(b, p));
    }
    lemma_canonical_perm(a);
    lemma_canonical_perm(b);
    let p = canonical_perm(a);
    assert forall|q: Seq<u8>| #[trigger] is_suit_perm(q) implies choice_rank(b, p) <= choice_rank(
        b,
        q,
    ) by {
        assert(image(a, q) == image(b, q));
        assert(image(a, p) == image(b, p));
        assert(choice_rank(a, p) <= choice_rank(a, q));
    }
    assert(is_canonical_perm(b, p));
}

/// Flops that share a canonical form differ only in the names of their suits
/// and in the order of their cards.
pub proof fn law_form_tells_textures_apart(a: Seq<u8>, b: Seq<u8>) -> (q: Seq<u8>)
    requires
        a.len() == 3,
        b.len() == 3,
        canonical_form(a) == canonical_form(b),
    ensures
        is_suit_perm(q),
        reordered(mapped_flop(a, q), b),
{
    lemma_canonical_perm(a);
    lemma_canonical_perm(b);
    let p = canonical_perm(a);
    let r = canonical_perm(b);
    lemma_inverse_perm(r);
    let q = compose(inverse(r), p);
    lemma_compose_perm(inverse(r), p);
    let ma = mapped_flop(a, p);
    let mb = mapped_flop(b, r);
    assert(descending(ma) == descending(mb)) by {
        reveal(image);
    }
    lemma_descending_equal(ma, mb);
    lemma_mapped_reordered(ma, mb, inverse(r));
    assert(mapped_flop(ma, inverse(r)) =~= mapped_flop(a, q)) by {
        lemma_mapped_twice(a[0], inverse(r), p);
        lemma_mapped_twice(a[1], inverse(r), p);
        lemma_mapped_twice(a[2], inverse(r), p);
    }
    assert(mapped_flop(mb, inverse(r)) =~= b) by {
        law_renaming_is_undone(b[0], r);
        law_renaming_is_undone(b[1], r);
        law_renaming_is_undone(b[2], r);
    }
    q
}

proof fn lemma_identity_image(cards: Seq<u8>)
    requires
        cards.len() == 3,
        cards[0] >= cards[1] >= cards[2],
    ensures
        is_suit_perm(seq![0u8, 1, 2, 3]),
        image(cards, seq![0u8, 1, 2, 3]) == cards,
{
    let id = seq![0u8, 1, 2, 3];
    lemma_mapped(cards[0], id);
    lemma_mapped(cards[1], id);
    lemma_mapped(cards[2], id);
    reveal(image);
    assert(mapped_flop(cards, id) =~= cards);
    assert(descending(cards) =~= cards);
}

proof fn lemma_identity_rank(q: Seq<u8>)
    requires
        is_suit_perm(q),
    ensures
        perm_rank(seq![0u8, 1, 2, 3]) <= perm_rank(q),
{
}

/// A canonical form is its own canonical form, and no suit is renamed on the
/// way.
pub proof fn law_form_is_canonical(cards: Seq<u8>)
    requires
        cards.len() == 3,
    ensures
        canonical_form(canonical_form(cards)) == canonical_form(cards),
        canonical_perm(canonical_form(cards)) == seq![0u8, 1, 2, 3],
{
    lemma_canonical_perm(cards);
    let p = canonical_perm(cards);
    let m = mapped_flop(cards, p);
    law_renamed_flops_share_a_form(cards, p);
    reveal(image);
    lemma_descending(m);
    let f = canonical_form(cards);
    law_card_order_is_irrelevant(m, f);
    let id = seq![0u8, 1, 2, 3];
    lemma_identity_image(f);
    assert forall|q: Seq<u8>| #[trigger] is_suit_perm(q) implies choice_rank(f, id) <= choice_rank(
        f,
        q,
    ) by {
        lemma_form_below(f, q);
        lemma_identity_rank(q);
    }
    assert(is_canonical_perm(f, id));
    lemma_canonical_perm(f);
}

/// A card lies on the board exactly when its renamed card lies on the
/// canonical board.
pub proof fn law_board_conflicts_are_kept(cards: Seq<u8>, card: u8)
    requires
        cards.len() == 3,
    ensures
        cards.contains(card) <==> canonical_form(cards).contains(
            mapped(card, canonical_perm(cards)),
        ),
{
    lemma_canonical_perm(cards);
    let p = canonical_perm(cards);
    reveal(image);
    let m = mapped_flop(cards, p);
    let f = canonical_form(cards);
    lemma_descending(m);
    law_renaming_is_undone(card, p);
    law_renaming_is_undone(cards[0], p);
    law_renaming_is_undone(cards[1], p);
    law_renaming_is_undone(cards[2], p);
    if cards.contains(card) {
        let i = choose|i: int| 0 <= i < cards.len() && cards[i] == card;
        assert(m[i] == mapped(card, p));
        assert(f[0] == m[i] || f[1] == m[i] || f[2] == m[i]);
    }
    if f.contains(mapped(card, p)) {
        let i = choose|i: int| 0 <= i < f.len() && f[i] == mapped(card, p);
        assert(f[i] == m[0] || f[i] == m[1] || f[i] == m[2]);
        assert(cards[0] == card || cards[1] == card || cards[2] == card);
    }
}

/// Three cards with their ranks kept and their suits renamed.
pub open spec fn renamed_cards(cards: Seq<u8>, p: Seq<u8>) -> Seq<u8> {
    seq![
        (4 * (cards[0] / 4) + p[(cards[0] % 4) as int]) as u8,
        (4 * (cards[1] / 4) + p[(cards[1] % 4) as int]) as u8,
        (4 * (cards[2] / 4) + p[(cards[2] % 4) as int]) as u8,
    ]
}

/// Renaming suits keeps ranks.
pub proof fn law_renaming_keeps_ranks(cards: Seq<u8>, p: Seq<u8>)
    requires
        is_suit_perm(p),
    ensures
        mapped_flop(cards, p) == renamed_cards(cards, p),
{
    lemma_mapped(cards[0], p);
    lemma_mapped(cards[1], p);
    lemma_mapped(cards[2], p);
}

proof fn lemma_image_of_reordered(cards: Seq<u8>, q: Seq<u8>, f: Seq<u8>)
    requires
        reordered(mapped_flop(cards, q), f),
        f[0] >= f[1] >= f[2],
    ensures
        image(cards, q) == f,
{
    reveal(image);
    lemma_descending_of_reordered(mapped_flop(cards, q), f);
    assert(descending(f) =~= f);
}

/// The canonical form of a flop is descending, and the canonical permutation
/// makes the cards of the flop those of its form.
pub proof fn law_canonical_perm_leads_to_the_form(cards: Seq<u8>)
    requires
        cards.len() == 3,
    ensures
        is_suit_perm(canonical_perm(cards)),
        reordered(renamed_cards(cards, canonical_perm(cards)), canonical_form(cards)),
        canonical_form(cards)[0] >= canonical_form(cards)[1] >= canonical_form(cards)[2],
{
    lemma_canonical_perm(cards);
    let p = canonical_perm(cards);
    law_renaming_keeps_ranks(cards, p);
    lemma_descending(mapped_flop(cards, p));
    reveal(image);
}

/// Of all permutations that make the cards of a flop those of its form, the
/// canonical one is lexicographically the first.
pub proof fn law_canonical_perm_is_the_first(cards: Seq<u8>, q: Seq<u8>)
    requires
        cards.len() == 3,
        is_suit_perm(q),
        reordered(renamed_cards(cards, q), canonical_form(cards)),
    ensures
        ({
            let p = canonical_perm(cards);
            p == q || p[0] < q[0] || (p[0] == q[0] && (p[1] < q[1] || (p[1] == q[1] && p[2]
                < q[2])))
        }),
{
    lemma_canonical_perm(cards);
    let p = canonical_perm(cards);
    law_renaming_keeps_ranks(cards, q);
    law_canonical_perm_leads_to_the_form(cards);
    lemma_image_of_reordered(cards, q, canonical_form(cards));
    assert(choice_rank(cards, p) <= choice_rank(cards, q));
    lemma_perm_order(p, q);
}

/// No permutation makes the sorted cards of a flop smaller, card by card, than
/// its canonical form.
pub proof fn law_form_is_the_smallest(cards: Seq<u8>, q: Seq<u8>, other: Seq<u8>)
    requires
        cards.len() == 3,
        is_suit_perm(q),
        reordered(renamed_cards(cards, q), other),
        other[0] >= other[1] >= other[2],
    ensures
        ({
            let f = canonical_form(cards);
            f[0] < other[0] || (f[0] == other[0] && (f[1] < other[1] || (f[1] == other[1] && f[2]
                <= other[2])))
        }),
{
    law_renaming_keeps_ranks(cards, q);
    lemma_image_of_reordered(cards, q, other);
    lemma_form_below(cards, q);
}

proof fn lemma_perm_order(p: Seq<u8>, q: Seq<u8>)
    requires
        is_suit_perm(p),
        is_suit_perm(q),
        perm_rank(p) <= perm_rank(q),
    ensures
        p == q || p[0] < q[0] || (p[0] == q[0] && (p[1] < q[1] || (p[1] == q[1] && p[2] < q[2]))),
{
    if p[0] == q[0] && p[1] == q[1] && p[2] == q[2] {
        assert(p[3] == q[3]);
        assert(p =~= q);
    }
}

} // verus!
