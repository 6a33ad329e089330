//! Where a solved flop lives in the cache: the key of its file, and the choice
//! among the files of one key.

use crate::cards;
use crate::suits;
use crate::text;
use vstd::prelude::*;

verus! {

// ---- Range hash ----------------------------------------------------------------------------

/// One step of FNV-1a.
pub open spec fn fnv_step(h: u64, b: u8) -> u64 {
    vstd::wrapping::u64_specs::wrapping_mul(h ^ (b as u64), 0x100000001b3)
}

/// FNV-1a over a sequence of bytes.
pub open spec fn fnv1a(bytes: Seq<u8>) -> u64
    decreases bytes.len(),
{
    if bytes.len() == 0 {
        0xcbf29ce484222325
    } else {
        fnv_step(fnv1a(bytes.drop_last()), bytes.last())
    }
}

/// The bytes that are hashed: both ranges with a bar between them.
pub open spec fn hashed_bytes(oop_range: Seq<char>, ip_range: Seq<char>) -> Seq<u8> {
    vstd::utf8::encode_utf8(oop_range).push(124) + vstd::utf8::encode_utf8(ip_range)
}

/// The hash of a pair of ranges, as sixteen hexadecimal digits.
pub open spec fn hash_text(oop_range: Seq<char>, ip_range: Seq<char>) -> Seq<char> {
    text::fixed_numeral(fnv1a(hashed_bytes(oop_range, ip_range)) as nat, 16, 16)
}

fn step(h: u64, b: u8) -> (r: u64)
    ensures
        r == fnv_step(h, b),
{
    (h ^ (b as u64)).wrapping_mul(0x100000001b3)
}

/// Continues a hash over more bytes.
fn fnv_over(start: u64, Ghost(before): Ghost<Seq<u8>>, bytes: &[u8]) -> (h: u64)
    requires
        start == fnv1a(before),
    ensures
        h == fnv1a(before + bytes@),
{
    let mut h: u64 = start;
    let mut i: usize = 0;
    assert(before + bytes@.take(0) =~= before);
    while i < bytes.len()
        invariant
            i <= bytes@.len(),
            h == fnv1a(before + bytes@.take(i as int)),
        decreases bytes@.len() - i,
    {
        h = step(h, bytes[i]);
        proof {
            let next = before + bytes@.take(i + 1);
            assert(next.drop_last() =~= before + bytes@.take(i as int));
            assert(next.last() == bytes@[i as int]);
        }
        i += 1;
    }
    assert(bytes@.take(i as int) =~= bytes@);
    h
}

/// FNV-1a over the two range texts. The key of an entry holds no SPR: that is
/// compared when an entry is looked up.
pub fn range_hash(oop_range: &str, ip_range: &str) -> (hash: String)
    ensures
        hash@ == hash_text(oop_range@, ip_range@),
{
    let start: u64 = 0xcbf29ce484222325;
    let h1: u64 = fnv_over(start, Ghost(Seq::<u8>::empty()), oop_range.as_bytes());
    let ghost first = vstd::utf8::encode_utf8(oop_range@);
    assert(Seq::<u8>::empty() + first =~= first);
    let h2: u64 = step(h1, 124);
    assert(first.push(124).drop_last() =~= first);
    let h: u64 = fnv_over(h2, Ghost(first.push(124)), ip_range.as_bytes());
    let mut hash: String = String::new();
    text::push_fixed_hex(&mut hash, h, 16);
    assert(hash@ =~= hash_text(oop_range@, ip_range@));
    hash
}

// ---- File names ----------------------------------------------------------------------------

/// What the names of all entries for one pair of ranges and one canonical flop
/// begin with.
pub open spec fn prefix_text(hash: Seq<char>, canon: Seq<u8>) -> Seq<char> {
    hash + "-"@ + cards::flop_text(canon) + "-spr"@
}

/// The name of one entry's file.
pub open spec fn name_text(hash: Seq<char>, canon: Seq<u8>, spr: Seq<char>) -> Seq<char> {
    prefix_text(hash, canon) + spr + ".json"@
}

/// The SPR in the name of a file that belongs to a key, as text.
pub open spec fn spr_in_name(name: Seq<char>, prefix: Seq<char>) -> Option<Seq<char>> {
    if prefix.is_prefix_of(name) && ".json"@.is_suffix_of(name) {
        Some(name.subrange(prefix.len() as int, name.len() - 5))
    } else {
        None
    }
}

/// The name prefix for a pair of ranges (by hash) and a canonical flop.
pub fn key_prefix(hash: &str, canon: [u8; 3]) -> (prefix: String)
    ensures
        prefix@ == prefix_text(hash@, canon@),
        ends_as_prefix(prefix@),
{
    let mut prefix: String = hash.to_owned();
    prefix.append("-");
    prefix.append(cards::flop_string(canon).as_str());
    prefix.append("-spr");
    proof {
        let front = prefix@.len() - "-spr"@.len();
        assert(prefix@.subrange(front, prefix@.len() as int) =~= "-spr"@);
    }
    prefix
}

/// The name prefix under which a real flop is looked up.
pub fn lookup_prefix(oop_range: &str, ip_range: &str, real_flop: [u8; 3]) -> (prefix: String)
    ensures
        prefix@ == prefix_text(
            hash_text(oop_range@, ip_range@),
            suits::canonical_form(real_flop@),
        ),
        ends_as_prefix(prefix@),
{
    let hash: String = range_hash(oop_range, ip_range);
    let (canon, _perm): ([u8; 3], [u8; 4]) = suits::canonical_flop(real_flop);
    key_prefix(hash.as_str(), canon)
}

/// The name of the file that a solve of a canonical flop is stored in.
pub fn entry_name(hash: &str, canon: [u8; 3], spr: &str) -> (name: String)
    ensures
        name@ == name_text(hash@, canon@, spr@),
{
    let mut name: String = key_prefix(hash, canon);
    name.append(spr);
    name.append(".json");
    name
}

fn begins_with(chars: &Vec<char>, start: &Vec<char>) -> (r: bool)
    ensures
        r == start@.is_prefix_of(chars@),
{
    if start.len() > chars.len() {
        return false;
    }
    let mut i: usize = 0;
    while i < start.len()
        invariant
            i <= start@.len() <= chars@.len(),
            forall|j: int| 0 <= j < i ==> start@[j] == chars@[j],
        decreases start@.len() - i,
    {
        if start[i] != chars[i] {
            assert(start@[i as int] != chars@.subrange(0, start@.len() as int)[i as int]);
            return false;
        }
        i += 1;
    }
    assert(start@ =~= chars@.subrange(0, start@.len() as int));
    true
}

fn ends_in(chars: &Vec<char>, end: &Vec<char>) -> (r: bool)
    ensures
        r == end@.is_suffix_of(chars@),
{
    if end.len() > chars.len() {
        return false;
    }
    let from: usize = chars.len() - end.len();
    let mut i: usize = 0;
    let ghost tail = chars@.subrange(from as int, chars@.len() as int);
    while i < end.len()
        invariant
            i <= end@.len() <= chars@.len(),
            from + end.len() == chars.len(),
            tail == chars@.subrange(from as int, chars@.len() as int),
            forall|j: int| 0 <= j < i ==> end@[j] == tail[j],
        decreases end@.len() - i,
    {
        if end[i] != chars[from + i] {
            assert(end@[i as int] != tail[i as int]);
            return false;
        }
        i += 1;
    }
    assert(end@ =~= tail);
    true
}

/// A text that ends as every key prefix does.
pub open spec fn ends_as_prefix(prefix: Seq<char>) -> bool {
    "-spr"@.is_suffix_of(prefix)
}

/// The SPR in a file's name, as text, if the file belongs to the key.
pub fn spr_of_name(name: &str, prefix: &str) -> (spr: Option<String>)
    requires
        ends_as_prefix(prefix@),
    ensures
        match spr {
            Some(t) => spr_in_name(name@, prefix@) == Some(t@),
            None => spr_in_name(name@, prefix@) is None,
        },
        spr is Some ==> prefix@.len() + 5 <= name@.len(),
{
    let chars: Vec<char> = text::chars_of(name);
    let start: Vec<char> = text::chars_of(prefix);
    let end: Vec<char> = text::chars_of(".json");
    if begins_with(&chars, &start) && ends_in(&chars, &end) {
        proof {
            reveal_strlit(".json");
            reveal_strlit("-spr");
            // The prefix ends in a letter that ".json" lacks, so the two cannot overlap.
            if prefix@.len() + 5 > name@.len() {
                let last = prefix@.len() - 1;
                assert(prefix@[last] == 'r') by {
                    assert(prefix@.subrange(prefix@.len() - 4, prefix@.len() as int)[3] == 'r');
                }
                assert(prefix@[last] == name@.subrange(0, prefix@.len() as int)[last]);
                let at = last - (name@.len() - 5);
                assert(0 <= at < 5);
                assert(name@.subrange(name@.len() - 5, name@.len() as int)[at] == name@[last]);
                assert(".json"@[at] == 'r');
            }
        }
        Some(text::text_of(&chars, start.len(), chars.len() - 5))
    } else {
        None
    }
}

// ---- The nearest entry ---------------------------------------------------------------------

/// What is known of one file of a key, from the SPR in its name: the SPR is
/// no number; it is too far from the SPR asked for; or it is near enough, at a
/// distance that is given as a number in the order of the distances.
pub enum SprProbe {
    Unreadable,
    TooFar,
    Near(u64),
}

/// File `k` is near enough, none is nearer, and none before it is as near.
pub open spec fn is_nearest(probes: Seq<SprProbe>, k: int) -> bool {
    &&& 0 <= k < probes.len()
    &&& probes[k] is Near
    &&& forall|j: int|
        0 <= j < probes.len() && (#[trigger] probes[j]) is Near ==> probes[k]->Near_0
            <= probes[j]->Near_0
    &&& forall|j: int|
        0 <= j < k && (#[trigger] probes[j]) is Near ==> probes[k]->Near_0 < probes[j]->Near_0
}

/// Chooses the file to read: the nearest, the earlier of two equally near. One
/// unreadable name makes the lookup fail as a whole.
pub fn nearest_entry(probes: &Vec<SprProbe>) -> (best: Option<usize>)
    ensures
        match best {
            Some(k) => is_nearest(probes@, k as int) && forall|j: int|
                0 <= j < probes@.len() ==> !((#[trigger] probes@[j]) is Unreadable),
            None => (exists|j: int| 0 <= j < probes@.len() && (#[trigger] probes@[j]) is Unreadable)
                || (forall|j: int| 0 <= j < probes@.len() ==> !((#[trigger] probes@[j]) is Near)),
        },
        best matches Some(k) ==> k < probes@.len() && (probes@[k as int] matches SprProbe::Near(a)
            && forall|j: int|
            0 <= j < probes@.len() ==> (#[trigger] probes@[j] matches SprProbe::Near(b) ==> a <= b
                && (j < k ==> a < b))),
{
    let mut best: Option<(u64, usize)> = None;
    let mut i: usize = 0;
    while i < probes.len()
        invariant
            i <= probes@.len(),
            forall|j: int| 0 <= j < i ==> !((#[trigger] probes@[j]) is Unreadable),
            match best {
                Some((d, k)) => k < i && probes@[k as int] == SprProbe::Near(d) && is_nearest(
                    probes@.take(i as int),
                    k as int,
                ),
                None => forall|j: int| 0 <= j < i ==> !((#[trigger] probes@[j]) is Near),
            },
        decreases probes@.len() - i,
    {
        let ghost seen = probes@.take(i as int);
        let ghost now = probes@.take(i + 1);
        assert(forall|j: int| 0 <= j < i ==> seen[j] == now[j]);
        assert(forall|j: int| 0 <= j < i ==> now[j] == #[trigger] probes@[j]);
        match &probes[i] {
            SprProbe::Unreadable => {
                return None;
            },
            SprProbe::TooFar => {},
            SprProbe::Near(dist) => {
                let nearer: bool = match best {
                    Some((d, _)) => *dist < d,
                    None => true,
                };
                if nearer {
                    best = Some((*dist, i));
                }
            },
        }
        i += 1;
    }
    assert(probes@.take(i as int) =~= probes@);
    match best {
        Some((_, k)) => Some(k),
        None => None,
    }
}

// ---- Laws ----------------------------------------------------------------------------------

proof fn lemma_fixed_numeral_len(n: nat, base: nat, width: nat)
    requires
        base > 0,
    ensures
        text::fixed_numeral(n, base, width).len() == width,
    decreases width,
{
    if width > 0 {
        lemma_fixed_numeral_len(n / base, base, (width - 1) as nat);
    }
}

/// Every range hash is sixteen characters long.
pub proof fn law_hash_has_sixteen_digits(oop_range: Seq<char>, ip_range: Seq<char>)
    ensures
        hash_text(oop_range, ip_range).len() == 16,
{
    lemma_fixed_numeral_len(fnv1a(hashed_bytes(oop_range, ip_range)) as nat, 16, 16);
}

/// A lookup finds what was stored: the file written for a pair of ranges and
/// the canonical form of one flop belongs to the key under which any flop with
/// that form is looked up for the same ranges, and its name gives back the SPR.
pub proof fn law_stored_entry_is_found(
    oop_range: Seq<char>,
    ip_range: Seq<char>,
    solved: Seq<u8>,
    looked_up: Seq<u8>,
    spr: Seq<char>,
)
    requires
        suits::canonical_form(solved) == suits::canonical_form(looked_up),
    ensures
        spr_in_name(
            name_text(hash_text(oop_range, ip_range), suits::canonical_form(solved), spr),
            prefix_text(hash_text(oop_range, ip_range), suits::canonical_form(looked_up)),
        ) == Some(spr),
{
    let prefix = prefix_text(hash_text(oop_range, ip_range), suits::canonical_form(solved));
    let name = prefix + spr + ".json"@;
    reveal_strlit(".json");
    assert(name.subrange(0, prefix.len() as int) =~= prefix);
    assert(name.subrange(name.len() - 5, name.len() as int) =~= ".json"@);
    assert(name.subrange(prefix.len() as int, name.len() - 5) =~= spr);
}

/// A lookup passes over entries of other keys: a stored file belongs to a key
/// only if both have the same hash and the same canonical flop.
pub proof fn law_other_entries_are_passed_over(
    hash: Seq<char>,
    canon: Seq<u8>,
    other_hash: Seq<char>,
    other_canon: Seq<u8>,
    spr: Seq<char>,
)
    requires
        hash.len() == 16,
        other_hash.len() == 16,
        canon.len() == 3,
        other_canon.len() == 3,
        forall|i: int| 0 <= i < 3 ==> #[trigger] canon[i] < 52,
        forall|i: int| 0 <= i < 3 ==> #[trigger] other_canon[i] < 52,
        spr_in_name(name_text(other_hash, other_canon, spr), prefix_text(hash, canon)) is Some,
    ensures
        other_hash == hash,
        other_canon == canon,
{
    let prefix = prefix_text(hash, canon);
    let name = name_text(other_hash, other_canon, spr);
    cards::law_flop_texts_differ(canon, other_canon);
    cards::law_flop_texts_differ(other_canon, canon);
    reveal_strlit("-");
    reveal_strlit("-spr");
    assert(prefix.len() == 27);
    assert(name.subrange(0, 27) =~= prefix_text(other_hash, other_canon));
    assert(prefix =~= prefix_text(other_hash, other_canon));
    assert(hash =~= prefix.subrange(0, 16));
    assert(other_hash =~= prefix_text(other_hash, other_canon).subrange(0, 16));
    assert(cards::flop_text(canon) =~= prefix.subrange(17, 23));
    assert(cards::flop_text(other_canon) =~= prefix_text(other_hash, other_canon).subrange(17, 23));
}

/// Each entry has a file of its own: names agree only where the hash, the
/// canonical flop and the SPR agree.
pub proof fn law_entry_names_differ(
    hash: Seq<char>,
    canon: Seq<u8>,
    spr: Seq<char>,
    other_hash: Seq<char>,
    other_canon: Seq<u8>,
    other_spr: Seq<char>,
)
    requires
        hash.len() == 16,
        other_hash.len() == 16,
        canon.len() == 3,
        other_canon.len() == 3,
        forall|i: int| 0 <= i < 3 ==> #[trigger] canon[i] < 52,
        forall|i: int| 0 <= i < 3 ==> #[trigger] other_canon[i] < 52,
        name_text(hash, canon, spr) == name_text(other_hash, other_canon, other_spr),
    ensures
        other_hash == hash,
        other_canon == canon,
        other_spr == spr,
{
    let prefix = prefix_text(hash, canon);
    let name = name_text(hash, canon, spr);
    reveal_strlit(".json");
    assert(name.subrange(0, prefix.len() as int) =~= prefix);
    assert(name.subrange(name.len() - 5, name.len() as int) =~= ".json"@);
    assert(spr_in_name(name, prefix) is Some);
    law_other_entries_are_passed_over(hash, canon, other_hash, other_canon, other_spr);
    assert(name.subrange(prefix.len() as int, name.len() - 5) =~= spr);
    assert(name.subrange(prefix.len() as int, name.len() - 5) =~= other_spr);
}

/// The modulus of the hash.
spec fn two_to_64() -> int {
    0x1_0000_0000_0000_0000
}

/// The hash of bytes: it begins at the offset, and each byte is mixed in by an
/// exclusive or and a multiplication by the prime, modulo two to the 64.
pub proof fn law_hash_mixes_each_byte(bytes: Seq<u8>, b: u8)
    ensures
        fnv1a(Seq::empty()) == 14695981039346656037u64,
        fnv1a(bytes.push(b)) as int == ((fnv1a(bytes) ^ (b as u64)) as int * 1099511628211)
            % 0x1_0000_0000_0000_0000,
{
    assert(bytes.push(b).drop_last() =~= bytes);
}

/// Multiplication by the prime can be undone modulo two to the 64.
proof fn lemma_product_determines(x: u64, y: u64)
    requires
        (x as int * 1099511628211) % two_to_64() == (y as int * 1099511628211) % two_to_64(),
    ensures
        x == y,
{
    lemma_undo_product(x);
    lemma_undo_product(y);
}

proof fn lemma_undo_product(x: u64)
    ensures
        ((x as int * 1099511628211) % two_to_64()) * 14886173955864302971 % two_to_64() == x,
{
    let m = two_to_64();
    let p = 1099511628211int;
    let r = 14886173955864302971int;
    let k = (p * r) / m;
    assert(p * r == 1 + k * m) by (nonlinear_arith)
        requires
            p == 1099511628211int,
            r == 14886173955864302971int,
            m == 0x1_0000_0000_0000_0000int,
            k == (p * r) / m,
    ;
    vstd::arithmetic::div_mod::lemma_mul_mod_noop_left(x as int * p, r, m);
    let a = x as int;
    assert((a * p) * r == m * (a * k) + a) by (nonlinear_arith)
        requires
            p * r == 1 + k * m,
    ;
    vstd::arithmetic::div_mod::lemma_mod_multiples_vanish(a * k, a, m);
}

/// One step of the hash tells bytes apart, and states before it.
pub proof fn law_hash_step_is_injective(before: Seq<u8>, other: Seq<u8>, a: u8, b: u8)
    ensures
        a != b ==> fnv1a(before.push(a)) != fnv1a(before.push(b)),
        fnv1a(before) != fnv1a(other) ==> fnv1a(before.push(a)) != fnv1a(other.push(a)),
{
    law_hash_mixes_each_byte(before, a);
    law_hash_mixes_each_byte(before, b);
    law_hash_mixes_each_byte(other, a);
    let h = fnv1a(before);
    let g = fnv1a(other);
    let x = a as u64;
    let y = b as u64;
    if fnv1a(before.push(a)) == fnv1a(before.push(b)) {
        lemma_product_determines(h ^ x, h ^ y);
        assert(h ^ x == h ^ y ==> x == y) by (bit_vector);
    }
    if fnv1a(before.push(a)) == fnv1a(other.push(a)) {
        lemma_product_determines(h ^ x, g ^ x);
        assert(h ^ x == g ^ x ==> h == g) by (bit_vector);
    }
}

/// Every byte counts: bytes that differ at exactly one place have different
/// hashes.
pub proof fn law_every_byte_counts(a: Seq<u8>, b: Seq<u8>, at: int)
    requires
        a.len() == b.len(),
        0 <= at < a.len(),
        a[at] != b[at],
        forall|i: int| 0 <= i < a.len() && i != at ==> a[i] == b[i],
    ensures
        fnv1a(a) != fnv1a(b),
    decreases a.len(),
{
    let front_a = a.drop_last();
    let front_b = b.drop_last();
    assert(a =~= front_a.push(a.last()));
    assert(b =~= front_b.push(b.last()));
    if at == a.len() - 1 {
        assert(front_a =~= front_b);
        law_hash_step_is_injective(front_a, front_b, a.last(), b.last());
    } else {
        law_every_byte_counts(front_a, front_b, at);
        law_hash_step_is_injective(front_a, front_b, a.last(), b.last());
    }
}

/// What is hashed of two ranges: the bytes of the first, a bar, and the bytes
/// of the second, all of them and nothing else.
pub proof fn law_both_ranges_are_hashed(oop_range: Seq<char>, ip_range: Seq<char>)
    ensures
        ({
            let bytes = hashed_bytes(oop_range, ip_range);
            let first = vstd::utf8::encode_utf8(oop_range);
            let second = vstd::utf8::encode_utf8(ip_range);
            &&& bytes.len() == first.len() + 1 + second.len()
            &&& bytes.take(first.len() as int) == first
            &&& bytes[first.len() as int] == '|' as u8
            &&& bytes.skip(first.len() as int + 1) == second
        }),
{
    let bytes = hashed_bytes(oop_range, ip_range);
    let first = vstd::utf8::encode_utf8(oop_range);
    assert(bytes.take(first.len() as int) =~= first);
    assert(bytes.skip(first.len() as int + 1) =~= vstd::utf8::encode_utf8(ip_range));
}

/// The text of a hash spells the hash, in hexadecimal.
pub proof fn law_hash_text_spells_the_hash(oop_range: Seq<char>, ip_range: Seq<char>)
    ensures
        hash_text(oop_range, ip_range).len() == 16,
        text::value_of(hash_text(oop_range, ip_range), 16) == fnv1a(
            hashed_bytes(oop_range, ip_range),
        ),
{
    assert(vstd::arithmetic::power::pow(16, 16) == 0x1_0000_0000_0000_0000) by {
        reveal_with_fuel(vstd::arithmetic::power::pow, 17);
    }
    text::law_fixed_numeral_spells_its_number(
        fnv1a(hashed_bytes(oop_range, ip_range)) as nat,
        16,
        16,
    );
}

/// Ranges of the same length that differ in one byte have different keys,
/// whichever of the two ranges it is.
pub proof fn law_ranges_that_differ_in_a_byte_have_other_keys(
    oop: Seq<char>,
    ip: Seq<char>,
    other: Seq<char>,
    at: int,
)
    requires
        ({
            let a = vstd::utf8::encode_utf8(oop);
            let b = vstd::utf8::encode_utf8(other);
            &&& a.len() == b.len()
            &&& 0 <= at < a.len()
            &&& a[at] != b[at]
            &&& forall|i: int| 0 <= i < a.len() && i != at ==> a[i] == b[i]
        }),
    ensures
        hash_text(oop, ip) != hash_text(other, ip),
        hash_text(ip, oop) != hash_text(ip, other),
{
    law_hash_text_spells_the_hash(oop, ip);
    law_hash_text_spells_the_hash(other, ip);
    law_hash_text_spells_the_hash(ip, oop);
    law_hash_text_spells_the_hash(ip, other);
    law_every_byte_counts(hashed_bytes(oop, ip), hashed_bytes(other, ip), at);
    let n = vstd::utf8::encode_utf8(ip).len() + 1;
    law_every_byte_counts(hashed_bytes(ip, oop), hashed_bytes(ip, other), n + at);
}

/// A file belongs to a key exactly if its name is the prefix of the key, then a
/// text, then `.json`; that text is the SPR.
pub proof fn law_name_holds_the_spr(name: Seq<char>, prefix: Seq<char>, spr: Seq<char>)
    requires
        ends_as_prefix(prefix),
    ensures
        spr_in_name(name, prefix) == Some(spr) <==> name == prefix + spr + ".json"@,
{
    reveal_strlit(".json");
    reveal_strlit("-spr");
    let whole = prefix + spr + ".json"@;
    if name == whole {
        assert(name.subrange(0, prefix.len() as int) =~= prefix);
        assert(name.subrange(name.len() - 5, name.len() as int) =~= ".json"@);
        assert(name.subrange(prefix.len() as int, name.len() - 5) =~= spr);
    }
    if spr_in_name(name, prefix) == Some(spr) {
        let n = name.len() as int;
        let p = prefix.len() as int;
        assert(name.subrange(0, p) == prefix);
        assert(name.subrange(n - 5, n) == ".json"@);
        if p + 5 > n {
            assert(prefix.subrange(p - 4, p)[3] == 'r');
            assert(name.subrange(0, p)[p - 1] == name[p - 1]);
            assert(name.subrange(n - 5, n)[p - 1 - (n - 5)] == name[p - 1]);
        }
        assert forall|i: int| 0 <= i < n implies name[i] == whole[i] by {
            if i < p {
                assert(name.subrange(0, p)[i] == name[i]);
            } else if i >= n - 5 {
                assert(name.subrange(n - 5, n)[i - (n - 5)] == name[i]);
            } else {
                assert(name.subrange(p, n - 5)[i - p] == name[i]);
            }
        }
        assert(name =~= whole);
    }
}

/// The nearest file is at no greater distance than any other that is near
/// enough, and at a smaller one than those before it; there is one wherever any
/// file is near enough.
pub proof fn law_nearest_is_least(probes: Seq<SprProbe>, k: int, j: int, a: u64, b: u64)
    requires
        is_nearest(probes, k),
        probes[k] == SprProbe::Near(a),
        0 <= j < probes.len(),
        probes[j] == SprProbe::Near(b),
    ensures
        0 <= k < probes.len(),
        a <= b,
        j < k ==> a < b,
{
}

} // verus!
