//! Text: comparing, splitting and writing numbers.

use vstd::prelude::*;

verus! {

/// `String::push` appends one character at the end of the string and changes
/// nothing else in it.
pub assume_specification[ String::push ](s: &mut String, c: char)
    ensures
        final(s)@ == old(s)@.push(c),
;

// ---- Numerals ------------------------------------------------------------------------------

/// The character for one digit, in lower case above nine.
pub open spec fn digit_char(d: int) -> char {
    if d < 10 {
        (d + '0' as int) as char
    } else {
        (d - 10 + 'a' as int) as char
    }
}

/// A number written in the given base, without leading zeros.
pub open spec fn numeral(n: nat, base: nat) -> Seq<char>
    decreases n,
{
    if base < 2 || n < base {
        seq![digit_char(n as int)]
    } else {
        proof {
            assert(n / base < n) by (nonlinear_arith)
                requires
                    n >= base,
                    base >= 2,
            ;
        }
        numeral(n / base, base).push(digit_char((n % base) as int))
    }
}

/// A number written with exactly `width` digits; higher digits are dropped.
pub open spec fn fixed_numeral(n: nat, base: nat, width: nat) -> Seq<char>
    decreases width,
{
    if width == 0 {
        Seq::empty()
    } else {
        fixed_numeral(n / base, base, (width - 1) as nat).push(digit_char((n % base) as int))
    }
}

/// An integer in decimal, with a leading minus sign where it is negative.
pub open spec fn decimal(i: int) -> Seq<char> {
    if i < 0 {
        seq!['-'] + numeral((-i) as nat, 10)
    } else {
        numeral(i as nat, 10)
    }
}

fn digit(d: u8) -> (c: char)
    requires
        d < 16,
    ensures
        c == digit_char(d as int),
{
    if d < 10 {
        (d + 48) as char
    } else {
        (d - 10 + 97) as char
    }
}

/// Appends `n` in the given base.
pub fn push_numeral(out: &mut String, n: u128, base: u8)
    requires
        2 <= base <= 16,
    ensures
        final(out)@ == old(out)@ + numeral(n as nat, base as nat),
    decreases n,
{
    if n < base as u128 {
        out.push(digit(n as u8));
    } else {
        let b: u128 = base as u128;
        let rest: u128 = n / b;
        let last: u128 = n % b;
        proof {
            assert(n / b < n && n % b < b) by (nonlinear_arith)
                requires
                    n >= b,
                    b >= 2,
            ;
        }
        push_numeral(out, rest, base);
        out.push(digit(last as u8));
    }
    assert(out@ =~= old(out)@ + numeral(n as nat, base as nat));
}

/// Appends the lowest `width` hexadecimal digits of `n`, leading zeros kept.
pub fn push_fixed_hex(out: &mut String, n: u64, width: u8)
    ensures
        final(out)@ == old(out)@ + fixed_numeral(n as nat, 16, width as nat),
    decreases width,
{
    if width > 0 {
        push_fixed_hex(out, n / 16, width - 1);
        out.push(digit((n % 16) as u8));
    }
    assert(out@ =~= old(out)@ + fixed_numeral(n as nat, 16, width as nat));
}

/// Appends `i` in decimal.
pub fn push_decimal(out: &mut String, i: i64)
    ensures
        final(out)@ == old(out)@ + decimal(i as int),
{
    if i < 0 {
        out.push('-');
        push_numeral(out, (-(i as i128)) as u128, 10);
    } else {
        push_numeral(out, i as u128, 10);
    }
    assert(out@ =~= old(out)@ + decimal(i as int));
}

// ---- Characters ----------------------------------------------------------------------------

/// Whether two texts are the same.
pub fn same_text(a: &str, b: &str) -> (same: bool)
    ensures
        same == (a@ == b@),
{
    a.to_owned() == b.to_owned()
}

/// The characters of a text, in order.
pub fn chars_of(s: &str) -> (chars: Vec<char>)
    ensures
        chars@ == s@,
{
    let mut chars: Vec<char> = Vec::new();
    for c in it: s.chars()
        invariant
            it.seq() == s@,
            chars@ == s@.take(it.index()),
    {
        chars.push(c);
    }
    assert(s@.take(s@.len() as int) =~= s@);
    chars
}

/// The text made of the characters from position `from` up to position `to`.
pub fn text_of(chars: &Vec<char>, from: usize, to: usize) -> (text: String)
    requires
        from <= to <= chars@.len(),
    ensures
        text@ == chars@.subrange(from as int, to as int),
{
    let mut text: String = String::new();
    let mut i: usize = from;
    while i < to
        invariant
            from <= i <= to <= chars@.len(),
            text@ == chars@.subrange(from as int, i as int),
        decreases to - i,
    {
        text.push(chars[i]);
        i += 1;
        assert(text@ =~= chars@.subrange(from as int, i as int));
    }
    text
}

/// Two texts, one after the other.
pub fn joined(a: &str, b: &str) -> (text: String)
    ensures
        text@ == a@ + b@,
{
    let mut text: String = a.to_owned();
    text.append(b);
    text
}

// ---- Splitting -----------------------------------------------------------------------------

/// The texts before and after the first separator.
pub open spec fn split_once(s: Seq<char>, sep: char) -> Option<(Seq<char>, Seq<char>)> {
    match s.index_of_first(sep) {
        Some(i) => Some((s.take(i), s.skip(i + 1))),
        None => None,
    }
}

/// The pieces between separators, empty ones included.
pub open spec fn split_all(s: Seq<char>, sep: char) -> Seq<Seq<char>>
    decreases s.len(),
{
    match s.index_of_first(sep) {
        Some(i) => {
            proof {
                s.index_of_first_ensures(sep);
            }
            seq![s.take(i)] + split_all(s.skip(i + 1), sep)
        },
        None => seq![s],
    }
}

/// The contents of a list of texts.
pub open spec fn views(texts: Seq<String>) -> Seq<Seq<char>> {
    texts.map_values(|t: String| t@)
}

/// The first position of a character at or after `from`.
fn find_char(chars: &Vec<char>, from: usize, sep: char) -> (at: Option<usize>)
    requires
        from <= chars@.len(),
    ensures
        match at {
            Some(k) => from <= k < chars.len() && chars@.skip(from as int).index_of_first(sep)
                == Some(k - from),
            None => chars@.skip(from as int).index_of_first(sep) is None,
        },
{
    let ghost rest = chars@.skip(from as int);
    proof {
        rest.index_of_first_ensures(sep);
    }
    let mut i: usize = from;
    while i < chars.len()
        invariant
            from <= i <= chars@.len(),
            rest == chars@.skip(from as int),
            forall|k: int| 0 <= k < i - from ==> rest[k] != sep,
            match rest.index_of_first(sep) {
                Some(index) => {
                    &&& rest.contains(sep)
                    &&& 0 <= index < rest.len()
                    &&& rest[index] == sep
                    &&& forall|j: int| 0 <= j < index < rest.len() ==> rest[j] != sep
                },
                None => !rest.contains(sep),
            },
        decreases chars@.len() - i,
    {
        assert(rest[i - from] == chars@[i as int]);
        if chars[i] == sep {
            assert(rest.contains(sep));
            return Some(i);
        }
        i += 1;
    }
    None
}

/// The texts before and after the first separator, if there is one.
pub fn split_at_first(s: &str, sep: char) -> (res: Option<(String, String)>)
    ensures
        match res {
            Some((a, b)) => split_once(s@, sep) == Some((a@, b@)),
            None => split_once(s@, sep) is None,
        },
{
    let chars: Vec<char> = chars_of(s);
    assert(chars@.skip(0) =~= chars@);
    match find_char(&chars, 0, sep) {
        Some(k) => {
            let a: String = text_of(&chars, 0, k);
            let b: String = text_of(&chars, k + 1, chars.len());
            assert(a@ =~= s@.take(k as int));
            assert(b@ =~= s@.skip(k + 1));
            Some((a, b))
        },
        None => None,
    }
}

/// The pieces of a text between separators, empty ones included.
pub fn split_text(s: &str, sep: char) -> (pieces: Vec<String>)
    ensures
        views(pieces@) == split_all(s@, sep),
{
    let chars: Vec<char> = chars_of(s);
    let mut pieces: Vec<String> = Vec::new();
    let mut start: usize = 0;
    let mut more: bool = true;
    assert(chars@.skip(0) =~= chars@);
    assert(views(pieces@) =~= Seq::empty());
    assert(views(pieces@) + split_all(chars@, sep) =~= split_all(chars@, sep));
    while more
        invariant
            chars@ == s@,
            more ==> start <= chars@.len() && views(pieces@) + split_all(
                chars@.skip(start as int),
                sep,
            ) == split_all(s@, sep),
            !more ==> views(pieces@) == split_all(s@, sep),
        decreases more as int, chars@.len() - start,
    {
        let ghost rest = chars@.skip(start as int);
        let ghost so_far = views(pieces@);
        match find_char(&chars, start, sep) {
            Some(k) => {
                let piece: String = text_of(&chars, start, k);
                pieces.push(piece);
                proof {
                    rest.index_of_first_ensures(sep);
                    let i = k - start;
                    assert(piece@ =~= rest.take(i));
                    assert(rest.skip(i + 1) =~= chars@.skip(k + 1));
                    assert(views(pieces@) =~= so_far.push(piece@));
                    let tail = split_all(chars@.skip(k + 1), sep);
                    assert(so_far + (seq![piece@] + tail) =~= so_far.push(piece@) + tail);
                }
                start = k + 1;
            },
            None => {
                let piece: String = text_of(&chars, start, chars.len());
                pieces.push(piece);
                proof {
                    assert(piece@ =~= rest);
                    assert(views(pieces@) =~= so_far.push(piece@));
                    assert(so_far + seq![rest] =~= so_far.push(rest));
                }
                more = false;
            },
        }
    }
    pieces
}

// ---- Laws ----------------------------------------------------------------------------------

proof fn lemma_digits_differ(a: int, b: int)
    requires
        0 <= a < 16,
        0 <= b < 16,
        digit_char(a) == digit_char(b),
    ensures
        a == b,
{
}

/// Every character of a numeral is a digit.
pub proof fn lemma_numeral_digits(n: nat, base: nat, i: int)
    requires
        2 <= base <= 16,
        0 <= i < numeral(n, base).len(),
    ensures
        exists|d: int| 0 <= d < base && numeral(n, base)[i] == #[trigger] digit_char(d),
    decreases n,
{
    if n < base {
        assert(numeral(n, base)[i] == digit_char(n as int));
    } else {
        assert(n / base < n && n % base < base) by (nonlinear_arith)
            requires
                n >= base,
                base >= 2,
        ;
        if i == numeral(n, base).len() - 1 {
            assert(numeral(n, base)[i] == digit_char((n % base) as int));
        } else {
            lemma_numeral_digits(n / base, base, i);
        }
    }
}

pub proof fn lemma_numeral_len(n: nat, base: nat)
    requires
        2 <= base,
    ensures
        numeral(n, base).len() >= 1,
        n >= base ==> numeral(n, base).len() >= 2,
    decreases n,
{
    if n >= base {
        assert(n / base < n) by (nonlinear_arith)
            requires
                n >= base,
                base >= 2,
        ;
        lemma_numeral_len(n / base, base);
    }
}

/// Different numbers have different numerals.
pub proof fn law_numerals_differ(n: nat, m: nat, base: nat)
    requires
        2 <= base <= 16,
        numeral(n, base) == numeral(m, base),
    ensures
        n == m,
    decreases n,
{
    lemma_numeral_len(n, base);
    lemma_numeral_len(m, base);
    let s = numeral(n, base);
    let t = numeral(m, base);
    if n < base || m < base {
        assert(n < base && m < base);
        assert(s[0] == digit_char(n as int) && t[0] == digit_char(m as int));
        lemma_digits_differ(n as int, m as int);
    } else {
        assert(n / base < n && 0 <= n % base < base && 0 <= m % base < base && n == base * (n
            / base) + n % base && m == base * (m / base) + m % base) by (nonlinear_arith)
            requires
                n >= base,
                base >= 2,
        ;
        assert(s.last() == digit_char((n % base) as int));
        assert(t.last() == digit_char((m % base) as int));
        lemma_digits_differ((n % base) as int, (m % base) as int);
        assert(s.drop_last() =~= numeral(n / base, base));
        assert(t.drop_last() =~= numeral(m / base, base));
        law_numerals_differ(n / base, m / base, base);
    }
}

/// Different integers have different decimal texts.
pub proof fn law_decimals_differ(i: int, j: int)
    requires
        decimal(i) == decimal(j),
    ensures
        i == j,
{
    lemma_numeral_len(if i < 0 { (-i) as nat } else { i as nat }, 10);
    lemma_numeral_len(if j < 0 { (-j) as nat } else { j as nat }, 10);
    if i < 0 {
        assert(decimal(i)[0] == '-');
        assert(decimal(i).drop_first() =~= numeral((-i) as nat, 10));
    } else {
        lemma_numeral_digits(i as nat, 10, 0);
    }
    if j < 0 {
        assert(decimal(j)[0] == '-');
        assert(decimal(j).drop_first() =~= numeral((-j) as nat, 10));
    } else {
        lemma_numeral_digits(j as nat, 10, 0);
    }
    if i < 0 && j < 0 {
        law_numerals_differ((-i) as nat, (-j) as nat, 10);
    } else if i >= 0 && j >= 0 {
        law_numerals_differ(i as nat, j as nat, 10);
    }
}

/// The value of a digit character.
pub open spec fn digit_value(c: char) -> int {
    if '0' <= c <= '9' {
        c as int - 48
    } else {
        c as int - 87
    }
}

/// The number that digits spell in a base.
pub open spec fn value_of(digits: Seq<char>, base: int) -> int
    decreases digits.len(),
{
    if digits.len() == 0 {
        0
    } else {
        base * value_of(digits.drop_last(), base) + digit_value(digits.last())
    }
}

/// Digits are those of the usual notation.
pub proof fn law_digits_are_the_usual_ones(d: int)
    requires
        0 <= d < 16,
    ensures
        digit_char(d) == "0123456789abcdef"@[d],
        digit_value(digit_char(d)) == d,
{
    reveal_strlit("0123456789abcdef");
}

/// A numeral spells its number, without a zero in front.
pub proof fn law_numeral_spells_its_number(n: nat, base: nat)
    requires
        2 <= base <= 16,
    ensures
        value_of(numeral(n, base), base as int) == n,
        numeral(n, base).len() > 0,
        numeral(n, base)[0] == '0' ==> n == 0,
        forall|i: int|
            0 <= i < numeral(n, base).len() ==> 0 <= #[trigger] digit_value(numeral(n, base)[i])
                < base,
    decreases n,
{
    let s = numeral(n, base);
    if n < base {
        assert(s.drop_last() =~= Seq::<char>::empty());
        assert(value_of(s.drop_last(), base as int) == 0);
        assert(base * 0 == 0) by (nonlinear_arith);
        law_digits_are_the_usual_ones(n as int);
        reveal_strlit("0123456789abcdef");
    } else {
        assert(n / base < n && 0 < n / base && n % base < base && n == base * (n / base) + n % base)
            by (nonlinear_arith)
            requires
                n >= base,
                base >= 2,
        ;
        law_numeral_spells_its_number(n / base, base);
        law_digits_are_the_usual_ones((n % base) as int);
        let front = numeral(n / base, base);
        assert(s.drop_last() =~= front);
        assert(s[0] == front[0]);
        assert forall|i: int| 0 <= i < s.len() implies 0 <= #[trigger] digit_value(s[i]) < base by {
            if i < front.len() {
                assert(s[i] == front[i]);
            }
        }
    }
}

/// A numeral of fixed width has that many digits and spells its number, as far
/// as the number fits.
pub proof fn law_fixed_numeral_spells_its_number(n: nat, base: nat, width: nat)
    requires
        2 <= base <= 16,
        n < vstd::arithmetic::power::pow(base as int, width),
    ensures
        fixed_numeral(n, base, width).len() == width,
        value_of(fixed_numeral(n, base, width), base as int) == n,
    decreases width,
{
    reveal(vstd::arithmetic::power::pow);
    if width > 0 {
        let w = (width - 1) as nat;
        let p = vstd::arithmetic::power::pow(base as int, w);
        assert(vstd::arithmetic::power::pow(base as int, width) == base * p);
        assert(n / base < p && n % base < base && n == base * (n / base) + n % base)
            by (nonlinear_arith)
            requires
                n < base * p,
                base >= 2,
        ;
        law_fixed_numeral_spells_its_number(n / base, base, w);
        law_digits_are_the_usual_ones((n % base) as int);
        let s = fixed_numeral(n, base, width);
        assert(s.drop_last() =~= fixed_numeral(n / base, base, w));
    }
}

/// An integer in decimal is its sign and the digits of its absolute value.
pub proof fn law_decimal_spells_its_number(i: int)
    ensures
        i >= 0 ==> value_of(decimal(i), 10) == i && decimal(i)[0] != '-',
        i < 0 ==> decimal(i)[0] == '-' && value_of(decimal(i).drop_first(), 10) == -i,
        i != 0 && i >= 0 ==> decimal(i)[0] != '0',
{
    if i >= 0 {
        law_numeral_spells_its_number(i as nat, 10);
        lemma_numeral_digits(i as nat, 10, 0);
    } else {
        law_numeral_spells_its_number((-i) as nat, 10);
        assert(decimal(i).drop_first() =~= numeral((-i) as nat, 10));
    }
}

/// A text is divided where the separator first stands: the parts make up the
/// text, and the first part has no separator.
pub proof fn law_split_once_divides(s: Seq<char>, sep: char, a: Seq<char>, b: Seq<char>)
    ensures
        split_once(s, sep) == Some((a, b)) <==> s == a + seq![sep] + b && !a.contains(sep),
        split_once(s, sep) is None <==> !s.contains(sep),
{
    s.index_of_first_ensures(sep);
    if split_once(s, sep) == Some((a, b)) {
        let i = s.index_of_first(sep)->0;
        assert(s =~= a + seq![sep] + b);
    }
    if s == a + seq![sep] + b && !a.contains(sep) {
        let n = a.len() as int;
        assert(s[n] == sep);
        assert(s.contains(sep));
        let i = s.index_of_first(sep)->0;
        if i < n {
            assert(a[i] == sep);
        }
        assert(i == n);
        assert(s.take(n) =~= a);
        assert(s.skip(n + 1) =~= b);
    }
}

/// Texts with a separator between each two.
pub open spec fn joined_by(pieces: Seq<Seq<char>>, sep: char) -> Seq<char>
    decreases pieces.len(),
{
    if pieces.len() == 0 {
        Seq::empty()
    } else if pieces.len() == 1 {
        pieces[0]
    } else {
        pieces[0] + seq![sep] + joined_by(pieces.drop_first(), sep)
    }
}

/// Splitting undoes joining: texts without the separator come back as they
/// were.
pub proof fn law_splitting_undoes_joining(pieces: Seq<Seq<char>>, sep: char)
    requires
        pieces.len() > 0,
        forall|i: int| 0 <= i < pieces.len() ==> !(#[trigger] pieces[i]).contains(sep),
    ensures
        split_all(joined_by(pieces, sep), sep) == pieces,
    decreases pieces.len(),
{
    let s = joined_by(pieces, sep);
    s.index_of_first_ensures(sep);
    if pieces.len() == 1 {
        assert(!pieces[0].contains(sep));
        assert(split_all(s, sep) =~= pieces);
    } else {
        let rest = pieces.drop_first();
        assert forall|i: int| 0 <= i < rest.len() implies !(#[trigger] rest[i]).contains(sep) by {
            assert(rest[i] == pieces[i + 1]);
        }
        law_splitting_undoes_joining(rest, sep);
        assert(!pieces[0].contains(sep));
        law_split_once_divides(s, sep, pieces[0], joined_by(rest, sep));
        assert(split_all(s, sep) =~= seq![pieces[0]] + split_all(joined_by(rest, sep), sep));
        assert(split_all(s, sep) =~= pieces);
    }
}

/// Joining undoes splitting: the pieces of a text have no separator and make up
/// the text.
pub proof fn law_joining_undoes_splitting(s: Seq<char>, sep: char)
    ensures
        split_all(s, sep).len() > 0,
        joined_by(split_all(s, sep), sep) == s,
        forall|i: int|
            0 <= i < split_all(s, sep).len() ==> !(#[trigger] split_all(s, sep)[i]).contains(sep),
    decreases s.len(),
{
    s.index_of_first_ensures(sep);
    let pieces = split_all(s, sep);
    match s.index_of_first(sep) {
        Some(i) => {
            let rest = split_all(s.skip(i + 1), sep);
            law_joining_undoes_splitting(s.skip(i + 1), sep);
            assert(pieces == seq![s.take(i)] + rest);
            assert(pieces.drop_first() =~= rest);
            assert(s =~= s.take(i) + seq![sep] + s.skip(i + 1));
            assert forall|k: int| 0 <= k < pieces.len() implies !(#[trigger] pieces[k]).contains(
                sep,
            ) by {
                if k > 0 {
                    assert(pieces[k] == rest[k - 1]);
                } else {
                    assert(pieces[0] == s.take(i));
                    if s.take(i).contains(sep) {
                        let j = choose|j: int| 0 <= j < i && s.take(i)[j] == sep;
                        assert(s[j] == sep);
                    }
                }
            }
        },
        None => {},
    }
}

proof fn lemma_joined_push(pieces: Seq<Seq<char>>, sep: char, last: Seq<char>)
    requires
        pieces.len() > 0,
    ensures
        joined_by(pieces.push(last), sep) == joined_by(pieces, sep) + seq![sep] + last,
    decreases pieces.len(),
{
    let all = pieces.push(last);
    if pieces.len() == 1 {
        assert(all.drop_first() =~= seq![last]);
        assert(joined_by(all.drop_first(), sep) == last);
    } else {
        assert(all.drop_first() =~= pieces.drop_first().push(last));
        lemma_joined_push(pieces.drop_first(), sep, last);
        assert(joined_by(all, sep) =~= joined_by(pieces, sep) + seq![sep] + last);
    }
}

/// A separator and a text without one add that text to the pieces, and change
/// none of them.
pub proof fn law_splitting_goes_on(s: Seq<char>, sep: char, last: Seq<char>)
    requires
        !last.contains(sep),
    ensures
        split_all(s + seq![sep] + last, sep) == split_all(s, sep).push(last),
{
    let pieces = split_all(s, sep);
    law_joining_undoes_splitting(s, sep);
    lemma_joined_push(pieces, sep, last);
    let more = pieces.push(last);
    assert forall|i: int| 0 <= i < more.len() implies !(#[trigger] more[i]).contains(sep) by {
        if i < pieces.len() {
            assert(more[i] == pieces[i]);
        }
    }
    law_splitting_undoes_joining(more, sep);
}

} // verus!
