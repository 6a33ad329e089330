//! The textures of flops: which canonical forms there are, and how many.
//!
//! A texture tells which cards of a flop share a rank and which share a suit.
//! Its canonical flops are determined by their ranks alone.

use crate::flops;
use crate::suits;
use vstd::prelude::*;

verus! {

/// The number of textures.
pub const TEXTURES: u8 = 10;

/// The canonical suits of a texture, from the highest card to the lowest.
pub open spec fn texture_suits(k: int) -> (u8, u8, u8) {
    if k == 0 {
        (0, 1, 2)
    } else if k == 1 {
        (0, 0, 0)
    } else if k == 2 {
        (0, 0, 1)
    } else if k == 3 {
        (0, 1, 0)
    } else if k == 4 {
        (0, 1, 1)
    } else if k == 5 {
        (1, 0, 2)
    } else if k == 6 {
        (1, 0, 0)
    } else if k == 7 {
        (0, 1, 0)
    } else if k == 8 {
        (0, 2, 1)
    } else {
        (2, 1, 0)
    }
}

/// The ranks of a flop of a texture, from the highest card to the lowest, for
/// one choice of ranks: three different ones, a pair above a card, a pair below
/// a card, or three of a kind.
pub open spec fn texture_ranks(k: int, t: (u8, u8, u8)) -> (u8, u8, u8) {
    if k < 5 {
        (t.2, t.1, t.0)
    } else if k < 7 {
        (t.1, t.1, t.0)
    } else if k < 9 {
        (t.1, t.0, t.0)
    } else {
        (t.0, t.0, t.0)
    }
}

/// The choices of ranks for a texture: three ranks, two or one, in ascending
/// order, and zero for what is not chosen.
pub open spec fn rank_choices(k: int) -> Set<(u8, u8, u8)> {
    if k < 5 {
        flops::raw_flops_under(13)
    } else if k < 9 {
        flops::with_top(13, 0)
    } else {
        flops::with_top_two(13, 0, 0)
    }
}

/// The flop of a texture with the chosen ranks.
pub open spec fn texture_flop(k: int, t: (u8, u8, u8)) -> Seq<u8> {
    let r = texture_ranks(k, t);
    let s = texture_suits(k);
    seq![(4 * r.0 + s.0) as u8, (4 * r.1 + s.1) as u8, (4 * r.2 + s.2) as u8]
}

/// All canonical flops of a texture.
pub open spec fn texture(k: int) -> Set<Seq<u8>> {
    rank_choices(k).map(|t: (u8, u8, u8)| texture_flop(k, t))
}

/// All flops of the first `k` textures.
pub open spec fn textures_below(k: int) -> Set<Seq<u8>>
    decreases k,
{
    if k <= 0 {
        Set::empty()
    } else {
        textures_below(k - 1).union(texture(k - 1))
    }
}

// ---- Texture flops are canonical -----------------------------------------------------------

/// The cards of a texture flop, by rank and suit.
proof fn lemma_texture_cards(k: int, t: (u8, u8, u8))
    requires
        0 <= k < TEXTURES,
        rank_choices(k).contains(t),
    ensures
        ({
            let f = texture_flop(k, t);
            let r = texture_ranks(k, t);
            let s = texture_suits(k);
            &&& f.len() == 3
            &&& f[0] == 4 * r.0 + s.0 && f[1] == 4 * r.1 + s.1 && f[2] == 4 * r.2 + s.2
            &&& r.0 < 13 && r.1 < 13 && r.2 < 13
            &&& s.0 < 3 && s.1 < 3 && s.2 < 3
            &&& 52 > f[0] > f[1] > f[2]
        }),
{
}

proof fn lemma_no_smaller_image(k: int, t: (u8, u8, u8), q: Seq<u8>)
    requires
        0 <= k < TEXTURES,
        rank_choices(k).contains(t),
        suits::is_suit_perm(q),
    ensures
        suits::flop_rank(texture_flop(k, t)) <= suits::flop_rank(
            suits::image(texture_flop(k, t), q),
        ),
{
    lemma_texture_cards(k, t);
    let f = texture_flop(k, t);
    let r = texture_ranks(k, t);
    let s = texture_suits(k);
    suits::lemma_mapped(f[0], q);
    suits::lemma_mapped(f[1], q);
    suits::lemma_mapped(f[2], q);
    reveal(suits::image);
    let m = suits::mapped_flop(f, q);
    assert(m[0] == 4 * r.0 + q[s.0 as int]);
    assert(m[1] == 4 * r.1 + q[s.1 as int]);
    assert(m[2] == 4 * r.2 + q[s.2 as int]);
    let d = suits::descending(m);
    if k < 5 {
        assert(r.0 > r.1 && r.1 > r.2);
        assert(d[0] == m[0] && d[1] == m[1] && d[2] == m[2]);
    } else if k < 7 {
        assert(r.0 == r.1 && r.1 > r.2);
        assert(d[2] == m[2]);
    } else if k < 9 {
        assert(r.0 > r.1 && r.1 == r.2);
        assert(d[0] == m[0]);
    }
}

proof fn lemma_texture_is_canonical(k: int, t: (u8, u8, u8))
    requires
        0 <= k < TEXTURES,
        rank_choices(k).contains(t),
    ensures
        suits::canonical_form(texture_flop(k, t)) == texture_flop(k, t),
{
    let f = texture_flop(k, t);
    lemma_texture_cards(k, t);
    assert forall|q: Seq<u8>| #[trigger] suits::is_suit_perm(q) implies suits::flop_rank(f)
        <= suits::flop_rank(suits::image(f, q)) by {
        lemma_no_smaller_image(k, t, q);
    }
    suits::lemma_least_image(f);
}

// ---- Every flop has a texture --------------------------------------------------------------

/// The permutation that puts three suits first, in the given order.
spec fn leading(x: int, y: int, z: int) -> Seq<u8> {
    Seq::new(
        4,
        |i: int|
            if i == x {
                0u8
            } else if i == y {
                1u8
            } else if i == z {
                2u8
            } else {
                3u8
            },
    )
}

/// The lowest suit besides two given ones.
spec fn another(x: int, y: int) -> int {
    if x != 0 && y != 0 {
        0
    } else if x != 1 && y != 1 {
        1
    } else {
        2
    }
}

proof fn lemma_leading(x: int, y: int, z: int)
    requires
        0 <= x < 4,
        0 <= y < 4,
        0 <= z < 4,
        x != y,
        x != z,
        y != z,
    ensures
        suits::is_suit_perm(leading(x, y, z)),
        leading(x, y, z)[x] == 0,
        leading(x, y, z)[y] == 1,
        leading(x, y, z)[z] == 2,
{
    let p = leading(x, y, z);
    assert(p.len() == 4);
    assert(p[0] < 4 && p[1] < 4 && p[2] < 4 && p[3] < 4);
}

/// A flop that can be renamed into a texture flop has that flop for its form.
proof fn lemma_form_by_renaming(cards: Seq<u8>, q: Seq<u8>, k: int, u: (u8, u8, u8))
    requires
        cards.len() == 3,
        suits::is_suit_perm(q),
        0 <= k < TEXTURES,
        rank_choices(k).contains(u),
        suits::descending(suits::mapped_flop(cards, q)) == texture_flop(k, u),
    ensures
        suits::canonical_form(cards) == texture_flop(k, u),
{
    let m = suits::mapped_flop(cards, q);
    suits::law_renamed_flops_share_a_form(cards, q);
    suits::lemma_descending(m);
    suits::law_card_order_is_irrelevant(m, suits::descending(m));
    lemma_texture_is_canonical(k, u);
}

/// What a permutation makes of a raw flop, by rank and suit.
proof fn lemma_renamed_raw(t: (u8, u8, u8), q: Seq<u8>)
    requires
        flops::is_raw_flop(t),
        suits::is_suit_perm(q),
    ensures
        ({
            let m = suits::mapped_flop(flops::raw_cards(t), q);
            &&& m.len() == 3
            &&& m[0] == 4 * (t.0 / 4) + q[(t.0 % 4) as int]
            &&& m[1] == 4 * (t.1 / 4) + q[(t.1 % 4) as int]
            &&& m[2] == 4 * (t.2 / 4) + q[(t.2 % 4) as int]
        }),
{
    suits::lemma_mapped(t.0, q);
    suits::lemma_mapped(t.1, q);
    suits::lemma_mapped(t.2, q);
}

/// The texture, the ranks and the renaming of a raw flop with three ranks.
proof fn lemma_three_ranks(t: (u8, u8, u8)) -> (res: (int, (u8, u8, u8)))
    requires
        flops::is_raw_flop(t),
        t.0 / 4 < t.1 / 4 < t.2 / 4,
    ensures
        0 <= res.0 < TEXTURES,
        rank_choices(res.0).contains(res.1),
        suits::canonical_form(flops::raw_cards(t)) == texture_flop(res.0, res.1),
{
    let x = (t.2 % 4) as int;
    let y = (t.1 % 4) as int;
    let z = (t.0 % 4) as int;
    let u = ((t.0 / 4) as u8, (t.1 / 4) as u8, (t.2 / 4) as u8);
    let (k, a, b): (int, int, int) = if x == y && x == z {
        (1, another(x, x), another(x, another(x, x)))
    } else if x == y {
        (2, z, another(x, z))
    } else if z == x {
        (3, y, another(x, y))
    } else if z == y {
        (4, y, another(x, y))
    } else {
        (0, y, z)
    };
    lemma_leading(x, a, b);
    let q = leading(x, a, b);
    lemma_renamed_raw(t, q);
    assert(suits::descending(suits::mapped_flop(flops::raw_cards(t), q)) =~= texture_flop(k, u));
    lemma_form_by_renaming(flops::raw_cards(t), q, k, u);
    (k, u)
}

/// The same for a raw flop with a pair above its lowest card.
proof fn lemma_high_pair(t: (u8, u8, u8)) -> (res: (int, (u8, u8, u8)))
    requires
        flops::is_raw_flop(t),
        t.0 / 4 < t.1 / 4 == t.2 / 4,
    ensures
        0 <= res.0 < TEXTURES,
        rank_choices(res.0).contains(res.1),
        suits::canonical_form(flops::raw_cards(t)) == texture_flop(res.0, res.1),
{
    let x = (t.2 % 4) as int;
    let y = (t.1 % 4) as int;
    let z = (t.0 % 4) as int;
    let u = ((t.0 / 4) as u8, (t.2 / 4) as u8, 0u8);
    assert(x != y);
    let (k, a, b, c): (int, int, int, int) = if z == x {
        (6, x, y, another(x, y))
    } else if z == y {
        (6, y, x, another(x, y))
    } else {
        (5, x, y, z)
    };
    lemma_leading(a, b, c);
    let q = leading(a, b, c);
    lemma_renamed_raw(t, q);
    assert(suits::descending(suits::mapped_flop(flops::raw_cards(t), q)) =~= texture_flop(k, u));
    lemma_form_by_renaming(flops::raw_cards(t), q, k, u);
    (k, u)
}

/// The same for a raw flop with a pair below its highest card.
proof fn lemma_low_pair(t: (u8, u8, u8)) -> (res: (int, (u8, u8, u8)))
    requires
        flops::is_raw_flop(t),
        t.0 / 4 == t.1 / 4 < t.2 / 4,
    ensures
        0 <= res.0 < TEXTURES,
        rank_choices(res.0).contains(res.1),
        suits::canonical_form(flops::raw_cards(t)) == texture_flop(res.0, res.1),
{
    let x = (t.2 % 4) as int;
    let y = (t.1 % 4) as int;
    let z = (t.0 % 4) as int;
    let u = ((t.0 / 4) as u8, (t.2 / 4) as u8, 0u8);
    assert(y != z);
    let (k, b, c): (int, int, int) = if x == y {
        (7, z, another(x, z))
    } else if x == z {
        (7, y, another(x, y))
    } else {
        (8, y, z)
    };
    lemma_leading(x, b, c);
    let q = leading(x, b, c);
    lemma_renamed_raw(t, q);
    assert(suits::descending(suits::mapped_flop(flops::raw_cards(t), q)) =~= texture_flop(k, u));
    lemma_form_by_renaming(flops::raw_cards(t), q, k, u);
    (k, u)
}

/// The same for three of a kind.
proof fn lemma_three_of_a_kind(t: (u8, u8, u8)) -> (res: (int, (u8, u8, u8)))
    requires
        flops::is_raw_flop(t),
        t.0 / 4 == t.1 / 4 == t.2 / 4,
    ensures
        0 <= res.0 < TEXTURES,
        rank_choices(res.0).contains(res.1),
        suits::canonical_form(flops::raw_cards(t)) == texture_flop(res.0, res.1),
{
    let x = (t.2 % 4) as int;
    let y = (t.1 % 4) as int;
    let z = (t.0 % 4) as int;
    let u = ((t.0 / 4) as u8, 0u8, 0u8);
    lemma_leading(x, y, z);
    let q = leading(x, y, z);
    lemma_renamed_raw(t, q);
    assert(suits::descending(suits::mapped_flop(flops::raw_cards(t), q)) =~= texture_flop(9, u));
    lemma_form_by_renaming(flops::raw_cards(t), q, 9, u);
    (9, u)
}

/// The canonical form of every raw flop is the flop of a texture.
pub proof fn law_every_flop_has_a_texture(t: (u8, u8, u8)) -> (res: (int, (u8, u8, u8)))
    requires
        flops::is_raw_flop(t),
    ensures
        0 <= res.0 < TEXTURES,
        rank_choices(res.0).contains(res.1),
        suits::canonical_form(flops::raw_cards(t)) == texture_flop(res.0, res.1),
{
    assert(t.0 / 4 <= t.1 / 4 <= t.2 / 4);
    if t.0 / 4 < t.1 / 4 {
        if t.1 / 4 < t.2 / 4 {
            lemma_three_ranks(t)
        } else {
            lemma_high_pair(t)
        }
    } else if t.1 / 4 < t.2 / 4 {
        lemma_low_pair(t)
    } else {
        lemma_three_of_a_kind(t)
    }
}

/// The flop of a texture is the canonical form of a raw flop: of its own cards.
pub proof fn law_every_texture_flop_is_dealt(k: int, u: (u8, u8, u8)) -> (t: (u8, u8, u8))
    requires
        0 <= k < TEXTURES,
        rank_choices(k).contains(u),
    ensures
        flops::is_raw_flop(t),
        suits::canonical_form(flops::raw_cards(t)) == texture_flop(k, u),
{
    lemma_texture_cards(k, u);
    lemma_texture_is_canonical(k, u);
    let f = texture_flop(k, u);
    let t = (f[2], f[1], f[0]);
    assert(f =~= seq![f[0], f[1], f[2]]);
    assert(suits::reordered(f, flops::raw_cards(t)));
    suits::law_card_order_is_irrelevant(f, flops::raw_cards(t));
    t
}

// ---- Counting ------------------------------------------------------------------------------

/// The number of flops of a texture.
pub open spec fn texture_size(k: int) -> nat {
    if k < 5 {
        286
    } else if k < 9 {
        78
    } else {
        13
    }
}

/// The number of flops of the first `k` textures.
pub open spec fn sizes_below(k: int) -> nat
    decreases k,
{
    if k <= 0 {
        0
    } else {
        sizes_below(k - 1) + texture_size(k - 1)
    }
}

proof fn lemma_texture_size(k: int)
    requires
        0 <= k < TEXTURES,
    ensures
        texture(k).finite(),
        texture(k).len() == texture_size(k),
{
    let choices = rank_choices(k);
    if k < 5 {
        flops::lemma_raw_len(13);
    } else if k < 9 {
        flops::lemma_top_len(13, 0);
    } else {
        flops::lemma_top_two_len(13, 0, 0);
    }
    let f = |t: (u8, u8, u8)| texture_flop(k, t);
    assert forall|a: (u8, u8, u8), b: (u8, u8, u8)|
        choices.contains(a) && choices.contains(b) && #[trigger] f(a) == #[trigger] f(b) implies a
        == b by {
        lemma_texture_cards(k, a);
        lemma_texture_cards(k, b);
        assert(texture_flop(k, a)[0] == texture_flop(k, b)[0]);
        assert(texture_flop(k, a)[1] == texture_flop(k, b)[1]);
        assert(texture_flop(k, a)[2] == texture_flop(k, b)[2]);
        assert(texture_ranks(k, a) == texture_ranks(k, b));
    }
    vstd::set_lib::lemma_map_size(choices, texture(k), f);
}

proof fn lemma_in_texture(f: Seq<u8>, k: int) -> (t: (u8, u8, u8))
    requires
        texture(k).contains(f),
    ensures
        rank_choices(k).contains(t),
        f == texture_flop(k, t),
{
    choose|t: (u8, u8, u8)| rank_choices(k).contains(t) && f == texture_flop(k, t)
}

proof fn lemma_textures_differ(f: Seq<u8>, j: int, k: int)
    requires
        0 <= j < TEXTURES,
        0 <= k < TEXTURES,
        texture(j).contains(f),
        texture(k).contains(f),
    ensures
        j == k,
{
    let a = lemma_in_texture(f, j);
    let b = lemma_in_texture(f, k);
    lemma_texture_cards(j, a);
    lemma_texture_cards(k, b);
    assert(texture_suits(j) == texture_suits(k));
    assert(texture_ranks(j, a) == texture_ranks(k, b));
}

proof fn lemma_textures_below(f: Seq<u8>, k: int)
    requires
        0 <= k,
    ensures
        textures_below(k).contains(f) <==> exists|j: int|
            0 <= j < k && #[trigger] texture(j).contains(f),
    decreases k,
{
    if k > 0 {
        lemma_textures_below(f, k - 1);
        if textures_below(k).contains(f) && !textures_below(k - 1).contains(f) {
            assert(texture(k - 1).contains(f));
        }
    }
}

proof fn lemma_sizes_below(k: int)
    requires
        0 <= k <= TEXTURES,
    ensures
        textures_below(k).finite(),
        textures_below(k).len() == sizes_below(k),
    decreases k,
{
    if k > 0 {
        lemma_sizes_below(k - 1);
        lemma_texture_size(k - 1);
        let rest = textures_below(k - 1);
        let own = texture(k - 1);
        assert forall|f: Seq<u8>| !(rest.contains(f) && own.contains(f)) by {
            if rest.contains(f) && own.contains(f) {
                lemma_textures_below(f, k - 1);
                let j = choose|j: int| 0 <= j < k - 1 && #[trigger] texture(j).contains(f);
                lemma_textures_differ(f, j, k - 1);
            }
        }
        assert(rest.disjoint(own));
        vstd::set_lib::lemma_set_disjoint_lens(rest, own);
    }
}

/// There are 1755 canonical flops.
pub proof fn law_there_are_1755_canonical_flops(list: Seq<([u8; 3], u32)>)
    requires
        flops::is_weighted_list(list),
    ensures
        list.len() == 1755,
{
    let forms = list.map_values(|e: ([u8; 3], u32)| e.0@);
    assert(forms.no_duplicates()) by {
        assert forall|i: int, j: int| 0 <= i < forms.len() && 0 <= j < forms.len() && i
            != j implies forms[i] != forms[j] by {
            if i < j {
                flops::law_listed_flops_differ(list, i, j);
            } else {
                flops::law_listed_flops_differ(list, j, i);
            }
        }
    }
    forms.unique_seq_to_set();
    assert forall|f: Seq<u8>| #[trigger] forms.to_set().contains(f) implies textures_below(
        TEXTURES as int,
    ).contains(f) by {
        let i = choose|i: int| 0 <= i < forms.len() && forms[i] == f;
        assert(list[i].0@ == f);
        let dealt = flops::raw_flops_of(f);
        assert(dealt.len() > 0);
        let t = dealt.choose();
        assert(dealt.contains(t));
        let (k, u) = law_every_flop_has_a_texture(t);
        assert(texture(k).contains(f));
        lemma_textures_below(f, TEXTURES as int);
    }
    assert forall|f: Seq<u8>| #[trigger]
        textures_below(TEXTURES as int).contains(f) implies forms.to_set().contains(f) by {
        lemma_textures_below(f, TEXTURES as int);
        let k = choose|k: int| 0 <= k < TEXTURES && #[trigger] texture(k).contains(f);
        let u = lemma_in_texture(f, k);
        let t = law_every_texture_flop_is_dealt(k, u);
        assert(flops::is_listed(list, f));
        let i = choose|i: int| 0 <= i < list.len() && #[trigger] list[i].0@ == f;
        assert(forms[i] == f);
    }
    assert(forms.to_set() =~= textures_below(TEXTURES as int));
    lemma_sizes_below(TEXTURES as int);
    reveal_with_fuel(sizes_below, 11);
}

} // verus!
