//! Suit canonicalization, card texts and the list of canonical flops.

use wizgto_solver::cards::{card_from_chars, card_to_string, flop_string};
use wizgto_solver::flops::canonical_flops_by_weight;
use wizgto_solver::suits::{canonical_flop, map_card, sorted_descending};

fn cards(s: &str) -> [u8; 3] {
    let chars: Vec<char> = s.chars().collect();
    let mut flop = [
        card_from_chars(chars[0], chars[1]).unwrap(),
        card_from_chars(chars[2], chars[3]).unwrap(),
        card_from_chars(chars[4], chars[5]).unwrap(),
    ];
    flop.sort_unstable();
    flop
}

#[test]
fn there_are_1755_canonical_flops() {
    assert_eq!(canonical_flops_by_weight().len(), 1755);
}

#[test]
fn suit_permuted_flops_share_a_canonical_form() {
    // Same ranks, suits permuted every which way.
    let variants = ["Td9h6c", "Th9d6c", "Ts9c6d", "Tc9s6h", "Td9c6h"];
    let forms: Vec<_> = variants.iter().map(|v| canonical_flop(cards(v)).0).collect();
    assert!(forms.windows(2).all(|w| w[0] == w[1]), "forms differ: {forms:?}");
    // Different texture (two-tone) must not collide.
    let two_tone = canonical_flop(cards("Td9d6c")).0;
    assert_ne!(two_tone, forms[0]);
}

#[test]
fn perm_maps_the_real_flop_onto_the_canonical_flop() {
    for s in ["Td9h6c", "AsKs2s", "7h7d2c", "QdJd8c", "5c5d5h"] {
        let real = cards(s);
        let (canon, perm) = canonical_flop(real);
        let mut mapped = real.map(|c| map_card(c, &perm));
        mapped.sort_unstable_by(|a, b| b.cmp(a));
        assert_eq!(mapped, canon, "flop {s}");
    }
}

#[test]
fn canonical_forms_and_permutations_are_exact() {
    assert_eq!(canonical_flop(cards("Td9h6c")), ([32, 29, 18], [2, 0, 1, 3]));
    assert_eq!(canonical_flop(cards("AsKs2s")), ([48, 44, 0], [1, 2, 3, 0]));
    assert_eq!(canonical_flop(cards("7h7d2c")), ([21, 20, 2], [2, 0, 1, 3]));
    assert_eq!(canonical_flop(cards("QdJd8c")), ([40, 36, 25], [1, 0, 2, 3]));
    assert_eq!(canonical_flop(cards("5c5d5h")), ([14, 13, 12], [0, 1, 2, 3]));
}

#[test]
fn a_canonical_form_is_its_own_form() {
    let (form, _) = canonical_flop(cards("Ts9c6d"));
    assert_eq!(canonical_flop(form).0, form);
}

#[test]
fn card_order_is_irrelevant_for_the_form() {
    let [a, b, c] = cards("QdJd8c");
    let first = canonical_flop([a, b, c]);
    assert_eq!(canonical_flop([c, a, b]), first);
    assert_eq!(canonical_flop([b, a, c]), first);
}

#[test]
fn renaming_suits_keeps_the_rank_and_can_be_undone() {
    let perm = [2u8, 0, 3, 1];
    let back = [1u8, 3, 0, 2];
    for card in 0..52u8 {
        let renamed = map_card(card, &perm);
        assert_eq!(renamed / 4, card / 4);
        assert_eq!(renamed % 4, perm[(card % 4) as usize]);
        assert_eq!(map_card(renamed, &back), card);
    }
}

#[test]
fn board_conflicts_survive_renaming() {
    let real = cards("Td9h6c");
    let (form, perm) = canonical_flop(real);
    for card in 0..52u8 {
        assert_eq!(real.contains(&card), form.contains(&map_card(card, &perm)));
    }
}

#[test]
fn three_cards_are_sorted_from_high_to_low() {
    for (a, b, c) in [(1, 2, 3), (1, 3, 2), (2, 1, 3), (2, 3, 1), (3, 1, 2), (3, 2, 1)] {
        assert_eq!(sorted_descending(a, b, c), [3, 2, 1]);
    }
    assert_eq!(sorted_descending(7, 9, 7), [9, 7, 7]);
}

#[test]
fn weights_count_every_deal() {
    let list = canonical_flops_by_weight();
    assert_eq!(list.iter().map(|(_, w)| *w).sum::<u32>(), 22100);
    assert_eq!(list[0], ([48, 45, 42], 24));
    assert_eq!(list[1], ([48, 45, 38], 24));
    assert_eq!(list[1754], ([2, 1, 0], 4));
    assert_eq!(list.iter().filter(|(_, w)| *w == 24).count(), 286);
    assert_eq!(list.iter().filter(|(_, w)| *w == 12).count(), 1170);
    assert_eq!(list.iter().filter(|(_, w)| *w == 4).count(), 299);
}

#[test]
fn frequent_flops_come_first_and_are_canonical() {
    let list = canonical_flops_by_weight();
    for pair in list.windows(2) {
        let (x, y) = (pair[0], pair[1]);
        assert!(x.1 > y.1 || (x.1 == y.1 && x.0 > y.0));
    }
    for (flop, _) in list.iter().step_by(50) {
        assert_eq!(canonical_flop(*flop).0, *flop);
    }
}

#[test]
fn card_texts_read_back() {
    for card in 0..52u8 {
        let text: Vec<char> = card_to_string(card).unwrap().chars().collect();
        assert_eq!(text.len(), 2);
        assert_eq!(card_from_chars(text[0], text[1]), Some(card));
    }
    assert_eq!(card_to_string(0).as_deref(), Some("2c"));
    assert_eq!(card_to_string(33).as_deref(), Some("Td"));
    assert_eq!(card_to_string(51).as_deref(), Some("As"));
    assert_eq!(card_to_string(52), None);
}

#[test]
fn only_a_rank_and_a_suit_name_a_card() {
    assert_eq!(card_from_chars('t', 'd'), Some(33));
    assert_eq!(card_from_chars('a', 'S'), None);
    assert_eq!(card_from_chars('1', 'c'), None);
    assert_eq!(card_from_chars('d', 'T'), None);
    assert_eq!(card_from_chars('9', 'h'), Some(30));
    assert_eq!(card_from_chars('9', 'x'), None);
}

#[test]
fn flop_texts_list_the_cards() {
    assert_eq!(flop_string([48, 45, 42]), "AcKdQh");
    assert_eq!(flop_string([48, 200, 42]), "AcQh");
    assert_ne!(flop_string([48, 45, 42]), flop_string([45, 48, 42]));
}

#[test]
fn a_canonical_form_renames_no_suit() {
    for s in ["Td9h6c", "AsKs2s", "7h7d2c", "QdJd8c", "5c5d5h", "Kc7d7s", "Kc7d7c"] {
        let (form, _) = canonical_flop(cards(s));
        assert_eq!(canonical_flop(form), (form, [0, 1, 2, 3]), "flop {s}");
    }
}

#[test]
fn textures_have_the_forms_they_should() {
    for (flop, form) in [
        ("AhKs2d", "AcKd2h"),
        ("AhKh2h", "AcKc2c"),
        ("AhKh2s", "AcKc2d"),
        ("AhKs2h", "AcKd2c"),
        ("AhKs2s", "AcKd2d"),
        ("AhAs2d", "AdAc2h"),
        ("AhAs2s", "AdAc2c"),
        ("Ah2s2h", "Ac2d2c"),
        ("Ah2s2d", "Ac2h2d"),
        ("2h2s2d", "2h2d2c"),
    ] {
        assert_eq!(flop_string(canonical_flop(cards(flop)).0), form);
    }
}
