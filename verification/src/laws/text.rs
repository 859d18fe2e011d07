//! Numbers and blanks in texts.

use vstd::arithmetic::power::{lemma_pow0, lemma_pow_positive, pow};
use vstd::prelude::*;

use crate::text::{
    digits_value, int_text, is_blank, is_digit, nat_text, padded_text, parse_int, trim, trim_back, trim_front,
    without_blanks,
};

verus! {

/// Ten times a power of ten is the next one.
pub proof fn lemma_ten(k: nat)
    ensures
        pow(10, k + 1) == 10 * pow(10, k),
        pow(10, k) > 0,
{
    reveal(pow);
    lemma_pow_positive(10, k);
}

/// Digits are worth their place values: those in front of `n` others count ten to the `n`th times
/// as much, one digit is worth its distance from `0`, and none are worth nothing.
pub proof fn law_digits_have_place_values(a: Seq<char>, b: Seq<char>, c: char)
    ensures
        digits_value(a + b) == digits_value(a) * pow(10, b.len()) + digits_value(b),
        digits_value(seq![c]) == c as int - '0' as int,
        digits_value(Seq::empty()) == 0,
    decreases b.len(),
{
    assert(seq![c].drop_last() =~= Seq::empty());
    assert(digits_value(Seq::<char>::empty()) == 0);
    if b.len() == 0 {
        lemma_pow0(10);
        assert(a + b =~= a);
        assert(b =~= Seq::empty());
    } else {
        let n = (b.len() - 1) as nat;
        law_digits_have_place_values(a, b.drop_last(), c);
        assert((a + b).drop_last() =~= a + b.drop_last());
        lemma_ten(n);
        let (x, p) = (digits_value(a), pow(10, n));
        assert((x * p) * 10 == x * (10 * p)) by (nonlinear_arith);
    }
}

/// Dividing by a power of ten and then by ten is dividing by the next power.
proof fn lemma_shift(n: int, i: nat)
    requires
        n >= 0,
    ensures
        (n / 10) / pow(10, i) == n / pow(10, i + 1),
{
    lemma_ten(i);
    vstd::arithmetic::div_mod::lemma_div_denominator(n, 10, pow(10, i));
}

/// The text of a whole number has the digit of every power of ten at its place, and no more digits
/// than the number needs.
pub proof fn law_text_has_every_digit(n: nat, i: int)
    requires
        0 <= i < nat_text(n).len(),
    ensures
        nat_text(n)[nat_text(n).len() - 1 - i] as int == '0' as int + (n as int / pow(10, i as nat)) % 10,
        n < pow(10, nat_text(n).len()),
        n > 0 ==> n >= pow(10, (nat_text(n).len() - 1) as nat),
        n == 0 ==> nat_text(n).len() == 1,
    decreases n,
{
    let len = nat_text(n).len();
    lemma_pow0(10);
    lemma_ten(0);
    if n >= 10 {
        let less = nat_text(n / 10);
        crate::text::lemma_nat_text(n / 10);
        law_text_has_every_digit(n / 10, if i > 0 { i - 1 } else { 0 });
        lemma_ten((len - 1) as nat);
        lemma_ten((len - 2) as nat);
        if i > 0 {
            assert(nat_text(n)[len - 1 - i] == less[less.len() - 1 - (i - 1)]);
            lemma_shift(n as int, (i - 1) as nat);
        }
    } else {
        assert(n as int / 1 == n) by (nonlinear_arith);
    }
}

/// The text of a negative number is that of its opposite behind a minus sign.
pub proof fn law_minus_stands_in_front(n: int)
    ensures
        n >= 0 ==> int_text(n) == nat_text(n as nat),
        n < 0 ==> int_text(n).len() == nat_text((-n) as nat).len() + 1 && int_text(n)[0] == '-' && int_text(n).skip(1)
            == nat_text((-n) as nat),
{
    if n < 0 {
        assert(int_text(n).skip(1) =~= nat_text((-n) as nat));
    }
}

/// A number filled up with zeros has the digit of every power of ten at its place, is at least as wide
/// as asked for, and no wider than that and the number itself.
pub proof fn law_padding_keeps_every_digit(n: nat, width: nat, i: int)
    requires
        0 <= i < padded_text(n as int, width as int).len(),
    ensures
        padded_text(n as int, width as int).len() == if nat_text(n).len() < width {
            width
        } else {
            nat_text(n).len()
        },
        padded_text(n as int, width as int)[padded_text(n as int, width as int).len() - 1 - i] as int == '0' as int + (
        n as int / pow(10, i as nat)) % 10,
{
    let (t, p) = (nat_text(n), padded_text(n as int, width as int));
    crate::text::lemma_nat_text(n);
    law_text_has_every_digit(n, 0);
    if i < t.len() {
        law_text_has_every_digit(n, i);
        assert(p[p.len() - 1 - i] == t[t.len() - 1 - i]);
    } else {
        assert(p[p.len() - 1 - i] == '0');
        vstd::arithmetic::power::lemma_pow_increases(10, t.len(), i as nat);
        vstd::arithmetic::div_mod::lemma_basic_div(n as int, pow(10, i as nat));
    }
}

/// Digits within bounds are read as what they are worth, with or without a plus sign, and with a minus
/// sign as the opposite where negative numbers are asked for.
pub proof fn law_spelled_number_is_read(digits: Seq<char>, lo: int, hi: int)
    requires
        digits.len() > 0,
        forall|i: int| 0 <= i < digits.len() ==> '0' <= #[trigger] digits[i] <= '9',
    ensures
        lo <= digits_value(digits) <= hi ==> parse_int(digits, lo, hi) == Some(digits_value(digits)),
        lo <= digits_value(digits) <= hi ==> parse_int(seq!['+'] + digits, lo, hi) == Some(digits_value(digits)),
        lo < 0 && lo <= -digits_value(digits) <= hi ==> parse_int(seq!['-'] + digits, lo, hi) == Some(
            -digits_value(digits),
        ),
{
    assert(is_digit(digits[0]));
    assert((seq!['+'] + digits).skip(1) =~= digits);
    assert((seq!['-'] + digits).skip(1) =~= digits);
}

/// What is read as a number spells it: digits behind at most one sign, within the bounds.
pub proof fn law_number_was_spelled(s: Seq<char>, lo: int, hi: int, n: int)
    requires
        parse_int(s, lo, hi) == Some(n),
    ensures
        lo <= n <= hi,
        s.len() > 0,
        forall|i: int| 1 <= i < s.len() ==> '0' <= #[trigger] s[i] <= '9',
        '0' <= s[0] <= '9' ==> n == digits_value(s),
        !('0' <= s[0] <= '9') ==> {
            &&& s.len() > 1
            &&& s[0] == '+' && n == digits_value(s.skip(1)) || s[0] == '-' && n == -digits_value(s.skip(1))
        },
{
    if '0' <= s[0] <= '9' {
        assert forall|i: int| 1 <= i < s.len() implies '0' <= #[trigger] s[i] <= '9' by {
            assert(is_digit(s[i]));
        }
    } else {
        let rest = s.skip(1);
        if s.len() > 0 && s[0] != '+' && !(s[0] == '-' && lo < 0) {
            assert(is_digit(s[0]));
        }
        assert forall|i: int| 1 <= i < s.len() implies '0' <= #[trigger] s[i] <= '9' by {
            assert(is_digit(rest[i - 1]));
        }
    }
}

/// Of the characters below 128, the blanks are space, tab, line feed, vertical tab, form feed and
/// carriage return. No letter, digit or sign is one, and no character above the ideographic space.
pub proof fn law_blanks_are_white_space(c: char)
    ensures
        (c as int) < 128 ==> (is_blank(c) <==> c == ' ' || c == '\t' || c == '\n' || c as int == 11 || c as int == 12 || c
            == '\r'),
        (c as int) > 0x3000 ==> !is_blank(c),
{
}

/// Trimming takes blanks from both ends and nothing else: what is left begins and ends with no blank.
pub proof fn law_trimming_takes_blanks_from_the_ends(s: Seq<char>) -> (cut: (int, int))
    ensures
        0 <= cut.0 <= cut.1 <= s.len(),
        trim(s) == s.subrange(cut.0, cut.1),
        forall|i: int| 0 <= i < cut.0 || cut.1 <= i < s.len() ==> is_blank(#[trigger] s[i]),
        trim(s).len() > 0 ==> !is_blank(trim(s)[0]) && !is_blank(trim(s).last()),
{
    let a = lemma_front(s);
    let b = lemma_back(trim_front(s));
    let front = trim_front(s);
    assert(trim(s) =~= s.subrange(a, a + b));
    assert forall|i: int| 0 <= i < a || a + b <= i < s.len() implies is_blank(#[trigger] s[i]) by {
        if i >= a + b {
            assert(front[i - a] == s[i]);
        }
    }
    if trim(s).len() > 0 {
        assert(trim(s)[0] == front[0]);
    }
    (a, a + b)
}

/// What trimming takes from the front.
proof fn lemma_front(s: Seq<char>) -> (a: int)
    ensures
        0 <= a <= s.len(),
        trim_front(s) == s.skip(a),
        forall|i: int| 0 <= i < a ==> is_blank(#[trigger] s[i]),
        trim_front(s).len() > 0 ==> !is_blank(trim_front(s)[0]),
    decreases s.len(),
{
    if s.len() > 0 && is_blank(s[0]) {
        let a = lemma_front(s.skip(1));
        assert(s.skip(1).skip(a) =~= s.skip(a + 1));
        assert forall|i: int| 0 <= i < a + 1 implies is_blank(#[trigger] s[i]) by {
            if i > 0 {
                assert(s.skip(1)[i - 1] == s[i]);
            }
        }
        a + 1
    } else {
        assert(s.skip(0) =~= s);
        0
    }
}

/// What trimming leaves at the back.
proof fn lemma_back(s: Seq<char>) -> (b: int)
    ensures
        0 <= b <= s.len(),
        trim_back(s) == s.take(b),
        forall|i: int| b <= i < s.len() ==> is_blank(#[trigger] s[i]),
        trim_back(s).len() > 0 ==> !is_blank(trim_back(s).last()),
    decreases s.len(),
{
    if s.len() > 0 && is_blank(s.last()) {
        let b = lemma_back(s.drop_last());
        assert(s.drop_last().take(b) =~= s.take(b));
        assert forall|i: int| b <= i < s.len() implies is_blank(#[trigger] s[i]) by {
            if i < s.len() - 1 {
                assert(s.drop_last()[i] == s[i]);
            }
        }
        b
    } else {
        assert(s.take(s.len() as int) =~= s);
        s.len() as int
    }
}

/// A text that neither begins nor ends with a blank is trimmed to itself.
pub proof fn law_trimmed_text_stays(s: Seq<char>)
    requires
        s.len() > 0 ==> !is_blank(s[0]) && !is_blank(s.last()),
    ensures
        trim(s) == s,
{
}

/// Blanks are taken out one by one, wherever they stand, and every other character stays in its order.
pub proof fn law_blanks_are_taken_out(a: Seq<char>, b: Seq<char>, c: char)
    ensures
        without_blanks(a + b) == without_blanks(a) + without_blanks(b),
        without_blanks(seq![c]) == if is_blank(c) {
            Seq::empty()
        } else {
            seq![c]
        },
        without_blanks(Seq::empty()) == Seq::<char>::empty(),
    decreases b.len(),
{
    reveal(Seq::filter);
    let keep = |c: char| !is_blank(c);
    assert(seq![c].drop_last() =~= Seq::empty());
    assert(Seq::<char>::empty().filter(keep) =~= Seq::empty());
    assert(without_blanks(seq![c]) =~= if is_blank(c) {
        Seq::empty()
    } else {
        seq![c]
    });
    if b.len() == 0 {
        assert(a + b =~= a);
        assert(without_blanks(a + b) =~= without_blanks(a) + without_blanks(b));
    } else {
        law_blanks_are_taken_out(a, b.drop_last(), c);
        assert((a + b).drop_last() =~= a + b.drop_last());
        assert(without_blanks(a + b) =~= without_blanks(a) + without_blanks(b));
    }
}

} // verus!
