//! Range hashes, entry names, the choice of an entry, and numbers as text.

use wizgto_solver::keys::{
    entry_name, key_prefix, lookup_prefix, nearest_entry, range_hash, spr_of_name, SprProbe,
};
use wizgto_solver::registry::new_session_id;
use wizgto_solver::suits::canonical_flop;
use wizgto_solver::text::{
    chars_of, joined, push_decimal, push_fixed_hex, push_numeral, same_text, split_at_first,
    split_text, text_of,
};

#[test]
fn range_hash_is_order_sensitive() {
    assert_ne!(range_hash("AA", "KK"), range_hash("KK", "AA"));
}

#[test]
fn range_hashes_are_exact() {
    assert_eq!(range_hash("AA", "KK"), "fe8dca3eb3708a7f");
    // A leading zero is kept.
    assert_eq!(range_hash("KK", "AA"), "01de17980f937baf");
    assert_eq!(range_hash("", ""), "af63f14c8602103b");
    // Bytes are hashed, not characters.
    assert_eq!(range_hash("é", ""), "5feb9f1c1dfbce67");
}

#[test]
fn every_range_hash_has_sixteen_digits() {
    for range in ["", "22+", "AKs,QQ+", "A2s+,K9o+"] {
        assert_eq!(range_hash(range, "random").len(), 16);
    }
}

#[test]
fn a_stored_entry_is_found_from_every_renamed_flop() {
    // Ten of diamonds, nine of hearts, six of clubs; and the same with the suits renamed.
    let solved = canonical_flop([16, 30, 33]).0;
    let name = entry_name(&range_hash("AA", "KK"), solved, "4.5");
    assert_eq!(name, "fe8dca3eb3708a7f-Tc9d6h-spr4.5.json");
    for flop in [[16, 30, 33], [17, 28, 35], [16, 29, 34]] {
        let prefix = lookup_prefix("AA", "KK", flop);
        assert_eq!(prefix, "fe8dca3eb3708a7f-Tc9d6h-spr");
        assert_eq!(spr_of_name(&name, &prefix).as_deref(), Some("4.5"));
    }
}

#[test]
fn entries_of_other_keys_are_passed_over() {
    let prefix = lookup_prefix("AA", "KK", [16, 30, 33]);
    let other_range = entry_name(&range_hash("KK", "AA"), [32, 29, 18], "4.5");
    let other_flop = entry_name(&range_hash("AA", "KK"), [32, 28, 17], "4.5");
    assert_eq!(spr_of_name(&other_range, &prefix), None);
    assert_eq!(spr_of_name(&other_flop, &prefix), None);
    assert_eq!(spr_of_name("fe8dca3eb3708a7f-Tc9d6h-spr4.5.json.tmp", &prefix), None);
    assert_eq!(spr_of_name("fe8dca3eb3708a7f-Tc9d6h-spr", &prefix), None);
    assert_eq!(spr_of_name("fe8dca3eb3708a7f-Tc9d6h-spr.json", &prefix).as_deref(), Some(""));
    assert_eq!(spr_of_name("", &prefix), None);
}

#[test]
fn entry_names_differ() {
    let names = [
        entry_name("fe8dca3eb3708a7f", [32, 29, 18], "4"),
        entry_name("fe8dca3eb3708a7f", [32, 29, 18], "4.5"),
        entry_name("fe8dca3eb3708a7f", [32, 28, 17], "4"),
        entry_name("01de17980f937baf", [32, 29, 18], "4"),
    ];
    for (i, a) in names.iter().enumerate() {
        for b in &names[i + 1..] {
            assert_ne!(a, b);
        }
    }
}

#[test]
fn a_key_prefix_joins_hash_and_flop() {
    assert_eq!(key_prefix("0123", [48, 45, 42]), "0123-AcKdQh-spr");
}

#[test]
fn the_nearest_entry_is_chosen() {
    let near = |d| SprProbe::Near(d);
    assert_eq!(nearest_entry(&vec![]), None);
    assert_eq!(nearest_entry(&vec![SprProbe::TooFar, SprProbe::TooFar]), None);
    assert_eq!(nearest_entry(&vec![near(7), SprProbe::TooFar, near(3), near(5)]), Some(2));
    // The earlier of two equally near ones.
    assert_eq!(nearest_entry(&vec![near(7), near(3), near(3)]), Some(1));
    // One unreadable name fails the lookup.
    assert_eq!(nearest_entry(&vec![near(3), SprProbe::Unreadable]), None);
}

#[test]
fn session_ids_are_exact_and_differ() {
    assert_eq!(new_session_id(255, 0), "ff-0");
    assert_eq!(new_session_id(1_700_000_000_000, 26), "18bcfe56800-1a");
    assert_eq!(new_session_id(0, u64::MAX), "0-ffffffffffffffff");
    assert_ne!(new_session_id(1, 18), new_session_id(17, 2));
    assert_ne!(new_session_id(255, 1), new_session_id(255, 2));
}

#[test]
fn numbers_are_written_exactly() {
    let mut out = String::from("x");
    push_numeral(&mut out, 0, 10);
    push_numeral(&mut out, 255, 16);
    push_numeral(&mut out, 5, 2);
    assert_eq!(out, "x0ff101");
    for i in [0i64, 9, 10, -1, -10, 2147483647, -2147483648, i64::MIN, i64::MAX] {
        let mut out = String::new();
        push_decimal(&mut out, i);
        assert_eq!(out, format!("{i}"));
    }
    for n in [0u64, 1, 0xabc, u64::MAX] {
        let mut out = String::new();
        push_fixed_hex(&mut out, n, 16);
        assert_eq!(out, format!("{n:016x}"));
    }
    let mut out = String::new();
    push_fixed_hex(&mut out, 0x1234, 2);
    assert_eq!(out, "34");
}

#[test]
fn texts_are_compared_joined_and_cut() {
    assert!(same_text("flop", "flop"));
    assert!(!same_text("flop", "Flop"));
    assert!(!same_text("flop", "flo"));
    assert_eq!(joined("a—", "b"), "a—b");
    let chars = chars_of("añb");
    assert_eq!(chars, vec!['a', 'ñ', 'b']);
    assert_eq!(text_of(&chars, 1, 3), "ñb");
    assert_eq!(text_of(&chars, 2, 2), "");
}

#[test]
fn texts_are_split_like_in_urls() {
    assert_eq!(split_at_first("a=b=c", '='), Some(("a".to_string(), "b=c".to_string())));
    assert_eq!(split_at_first("=", '='), Some((String::new(), String::new())));
    assert_eq!(split_at_first("abc", '='), None);
    assert_eq!(split_text("/a//b", '/'), vec!["", "a", "", "b"]);
    assert_eq!(split_text("", '/'), vec![""]);
    assert_eq!(split_text("abc", '/'), vec!["abc"]);
}
