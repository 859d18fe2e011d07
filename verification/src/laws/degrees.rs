//! Decimal degrees: which spellings are the same number, and which are none.

use vstd::arithmetic::power::pow;
use vstd::prelude::*;

use crate::basinmask::{
    behind_point, billionths_of, decimal, digits_of, exponent_of, first_e, lemma_first_e, unsigned_decimal, window,
};
use crate::laws::basin::{lemma_window, lemma_worth, plain_digits};
use crate::laws::text::{law_digits_have_place_values, lemma_ten};
use crate::text::{all_digits, digits_value, first_mark, is_digit, lemma_first_mark, lemma_first_mark_at};

verus! {

/// Nothing, or an exponent with its mark.
pub open spec fn tail(t: Seq<char>) -> bool {
    t.len() > 0 ==> t[0] == 'e' || t[0] == 'E'
}

/// The parts of a spelling.
proof fn lemma_parts_of(w: Seq<char>, f: Seq<char>, t: Seq<char>)
    requires
        plain_digits(w),
        plain_digits(f),
        tail(t),
    ensures
        ({
            let m = w + seq!['.'] + f;
            &&& first_e(m + t) == m.len()
            &&& (m + t).take(m.len() as int) == m
            &&& t.len() > 0 ==> (m + t).skip(m.len() as int + 1) == t.skip(1)
            &&& first_mark(m, '.') == w.len()
            &&& digits_of(m) == w + f
        }),
{
    let m = w + seq!['.'] + f;
    let s = m + t;
    assert forall|i: int| 0 <= i < m.len() implies s[i] != 'e' && s[i] != 'E' && (i < w.len() ==> m[i] != '.') by {
        if i < w.len() {
            assert(s[i] == w[i]);
        } else if i > w.len() {
            assert(s[i] == f[i - w.len() - 1]);
        }
    }
    lemma_first_e(s, m.len() as int);
    assert(s.take(m.len() as int) =~= m);
    if t.len() > 0 {
        assert(s.skip(m.len() as int + 1) =~= t.skip(1));
    }
    lemma_first_mark_at(m, '.', w.len() as int);
    assert(digits_of(m) =~= w + f);
}

/// The same without a point.
proof fn lemma_parts_without_point(w: Seq<char>, t: Seq<char>)
    requires
        plain_digits(w),
        tail(t),
    ensures
        first_e(w + t) == w.len(),
        (w + t).take(w.len() as int) == w,
        t.len() > 0 ==> (w + t).skip(w.len() as int + 1) == t.skip(1),
        first_mark(w, '.') == w.len(),
        digits_of(w) == w,
{
    let s = w + t;
    assert forall|i: int| 0 <= i < w.len() implies s[i] != 'e' && s[i] != 'E' && w[i] != '.' by {
        assert(s[i] == w[i]);
    }
    lemma_first_e(s, w.len() as int);
    assert(s.take(w.len() as int) =~= w);
    if t.len() > 0 {
        assert(s.skip(w.len() as int + 1) =~= t.skip(1));
    }
    lemma_first_mark_at(w, '.', w.len() as int);
    assert(digits_of(w) =~= w);
}

/// A minus sign turns a number, a plus sign leaves it as it is, and a number without a sign is positive.
pub proof fn law_sign_turns_the_number(s: Seq<char>)
    ensures
        decimal(seq!['+'] + s) == match decimal(seq!['-'] + s) {
            Some(n) => Some(-n),
            None => None,
        },
        (s.len() == 0 || (s[0] != '+' && s[0] != '-')) ==> decimal(s) == decimal(seq!['+'] + s),
{
    assert((seq!['+'] + s).skip(1) =~= s);
    assert((seq!['-'] + s).skip(1) =~= s);
}

/// Zeros in front of the digits and behind them change nothing, whatever the exponent.
pub proof fn law_zeros_at_the_ends_change_nothing(w: Seq<char>, f: Seq<char>, t: Seq<char>)
    requires
        plain_digits(w),
        plain_digits(f),
        w.len() + f.len() > 0,
        tail(t),
    ensures
        unsigned_decimal((w + seq!['.'] + f.push('0')) + t) == unsigned_decimal((w + seq!['.'] + f) + t),
        unsigned_decimal((seq!['0'] + w + seq!['.'] + f) + t) == unsigned_decimal((w + seq!['.'] + f) + t),
{
    let (more, lead) = (f.push('0'), seq!['0'] + w);
    assert(plain_digits(more)) by {
        assert forall|i: int| 0 <= i < more.len() implies '0' <= #[trigger] more[i] <= '9' by {
            if i < f.len() {
                assert(more[i] == f[i]);
            }
        }
    }
    assert(plain_digits(lead)) by {
        assert forall|i: int| 0 <= i < lead.len() implies '0' <= #[trigger] lead[i] <= '9' by {
            if i > 0 {
                assert(lead[i] == w[i - 1]);
            }
        }
    }
    lemma_parts_of(w, f, t);
    lemma_parts_of(w, more, t);
    lemma_parts_of(lead, f, t);
    let point = if t.len() > 0 && exponent_of(t.skip(1)) is Some {
        w.len() + exponent_of(t.skip(1))->0
    } else {
        w.len() as int
    };
    lemma_zeros(w + f, point);
    assert(w + more =~= (w + f).push('0'));
    assert(lead + f =~= seq!['0'] + (w + f));
    assert forall|i: int| 0 <= i < (w + f).len() implies '0' <= #[trigger] (w + f)[i] <= '9' by {
        if i < w.len() {
            assert((w + f)[i] == w[i]);
        } else {
            assert((w + f)[i] == f[i - w.len()]);
        }
    }
}

/// A zero more at either end of some digits is worth nothing.
proof fn lemma_zeros(d: Seq<char>, point: int)
    requires
        d.len() > 0,
    ensures
        billionths_of(d.push('0'), point) == billionths_of(d, point),
        billionths_of(seq!['0'] + d, point + 1) == billionths_of(d, point),
{
    let (a, b) = (d.push('0'), seq!['0'] + d);
    assert(window(a, point) =~= window(d, point));
    assert(window(b, point + 1) =~= window(d, point));
    assert(all_digits(a) <==> all_digits(d)) by {
        if all_digits(d) {
            assert forall|i: int| 0 <= i < a.len() implies is_digit(#[trigger] a[i]) by {
                if i < d.len() {
                    assert(a[i] == d[i]);
                }
            }
        }
        if all_digits(a) {
            assert forall|i: int| 0 <= i < d.len() implies is_digit(#[trigger] d[i]) by {
                assert(a[i] == d[i]);
            }
        }
    }
    assert(all_digits(b) <==> all_digits(d)) by {
        if all_digits(d) {
            assert forall|i: int| 0 <= i < b.len() implies is_digit(#[trigger] b[i]) by {
                if i > 0 {
                    assert(b[i] == d[i - 1]);
                }
            }
        }
        if all_digits(b) {
            assert forall|i: int| 0 <= i < d.len() implies is_digit(#[trigger] d[i]) by {
                assert(b[i + 1] == d[i]);
            }
        }
    }
    let far = |s: Seq<char>, p: int|
        exists|i: int| 0 <= i < s.len() && !(p - 4 <= i <= p + 8) && #[trigger] s[i] != '0';
    assert(far(a, point) <==> far(d, point)) by {
        if far(a, point) {
            let i = choose|i: int| 0 <= i < a.len() && !(point - 4 <= i <= point + 8) && #[trigger] a[i] != '0';
            assert(a[i] == d[i] && d[i] != '0');
        }
        if far(d, point) {
            let i = choose|i: int| 0 <= i < d.len() && !(point - 4 <= i <= point + 8) && #[trigger] d[i] != '0';
            assert(a[i] == d[i] && a[i] != '0');
        }
    }
    assert(far(b, point + 1) <==> far(d, point)) by {
        if far(b, point + 1) {
            let i = choose|i: int| 0 <= i < b.len() && !(point - 3 <= i <= point + 9) && #[trigger] b[i] != '0';
            assert(b[i] == d[i - 1] && d[i - 1] != '0');
        }
        if far(d, point) {
            let i = choose|i: int| 0 <= i < d.len() && !(point - 4 <= i <= point + 8) && #[trigger] d[i] != '0';
            assert(b[i + 1] == d[i] && b[i + 1] != '0');
        }
    }
}

/// A number without a point has it behind its digits.
pub proof fn law_point_may_be_left_out(w: Seq<char>, t: Seq<char>)
    requires
        plain_digits(w),
        tail(t),
    ensures
        unsigned_decimal(w + t) == unsigned_decimal((w + seq!['.']) + t),
{
    let none = Seq::<char>::empty();
    lemma_parts_of(w, none, t);
    lemma_parts_without_point(w, t);
    assert(w + seq!['.'] + none =~= w + seq!['.']);
    assert(w + none =~= w);
}

/// The mark of an exponent may be a capital, and the exponent may have a plus sign.
pub proof fn law_exponents_may_be_marked_otherwise(w: Seq<char>, f: Seq<char>, x: Seq<char>)
    requires
        plain_digits(w),
        plain_digits(f),
    ensures
        ({
            let m = w + seq!['.'] + f;
            &&& unsigned_decimal(m + (seq!['E'] + x)) == unsigned_decimal(m + (seq!['e'] + x))
            &&& x.len() > 0 && x[0] != '+' && x[0] != '-' ==> unsigned_decimal(m + (seq!['e', '+'] + x)) == unsigned_decimal(
                m + (seq!['e'] + x),
            )
        }),
{
    let (big, small, plus) = (seq!['E'] + x, seq!['e'] + x, seq!['e', '+'] + x);
    lemma_parts_of(w, f, big);
    lemma_parts_of(w, f, small);
    lemma_parts_of(w, f, plus);
    assert(big.skip(1) =~= x);
    assert(small.skip(1) =~= x);
    assert(plus.skip(1).skip(1) =~= x);
}

/// An exponent that is not made of digits behind an optional sign is none, and so is the number.
pub proof fn law_exponent_needs_its_digits(w: Seq<char>, f: Seq<char>, x: Seq<char>)
    requires
        plain_digits(w),
        plain_digits(f),
    ensures
        ({
            let s = w + seq!['.'] + f + (seq!['e'] + x);
            let digits = if x.len() > 0 && (x[0] == '+' || x[0] == '-') {
                x.skip(1)
            } else {
                x
            };
            &&& digits.len() == 0 ==> unsigned_decimal(s) is None
            &&& !plain_digits(digits) ==> unsigned_decimal(s) is None
        }),
{
    let t = seq!['e'] + x;
    lemma_parts_of(w, f, t);
    assert(t.skip(1) =~= x);
    let digits = if x.len() > 0 && (x[0] == '+' || x[0] == '-') {
        x.skip(1)
    } else {
        x
    };
    if !plain_digits(digits) {
        let i = choose|i: int| 0 <= i < digits.len() && !('0' <= #[trigger] digits[i] <= '9');
        assert(!is_digit(digits[i]));
    }
}

/// A number is made of digits, signs, a point and a mark, has a digit, and is at most a thousand degrees.
pub proof fn law_number_is_made_of_digits(s: Seq<char>, n: int)
    requires
        decimal(s) == Some(n),
    ensures
        -1_000_000_000_000 <= n <= 1_000_000_000_000,
        forall|i: int|
            0 <= i < s.len() ==> ('0' <= #[trigger] s[i] <= '9') || s[i] == '.' || s[i] == '+' || s[i] == '-' || s[i] == 'e'
                || s[i] == 'E',
        exists|i: int| 0 <= i < s.len() && '0' <= #[trigger] s[i] <= '9',
{
    let signed = s.len() > 0 && (s[0] == '-' || s[0] == '+');
    let u = if signed {
        s.skip(1)
    } else {
        s
    };
    lemma_unsigned_is_made_of_digits(u);
    assert forall|i: int| 0 <= i < s.len() implies ('0' <= #[trigger] s[i] <= '9') || s[i] == '.' || s[i] == '+' || s[i]
        == '-' || s[i] == 'e' || s[i] == 'E' by {
        if signed && i > 0 {
            assert(s[i] == u[i - 1]);
        }
    }
    let i = choose|i: int| 0 <= i < u.len() && '0' <= #[trigger] u[i] <= '9';
    if signed {
        assert(s[i + 1] == u[i]);
    } else {
        assert(s[i] == u[i]);
    }
}

/// The same of a number without a sign.
proof fn lemma_unsigned_is_made_of_digits(s: Seq<char>)
    requires
        unsigned_decimal(s) is Some,
    ensures
        0 <= unsigned_decimal(s)->0 <= 1_000_000_000_000,
        forall|i: int|
            0 <= i < s.len() ==> ('0' <= #[trigger] s[i] <= '9') || s[i] == '.' || s[i] == '+' || s[i] == '-' || s[i] == 'e'
                || s[i] == 'E',
        exists|i: int| 0 <= i < s.len() && '0' <= #[trigger] s[i] <= '9',
{
    lemma_first_e_splits(s);
    let e = first_e(s);
    let m = s.take(e);
    let d = digits_of(m);
    lemma_first_mark(m, '.');
    let p = first_mark(m, '.');
    assert(all_digits(d));
    let point = if e == s.len() {
        p
    } else {
        p + exponent_of(s.skip(e + 1))->0
    };
    let win = window(d, point);
    assert forall|k: int| 0 <= k < win.len() implies '0' <= #[trigger] win[k] <= '9' by {
        let i = point - 4 + k;
        if 0 <= i < d.len() {
            assert(is_digit(d[i]));
        }
    }
    lemma_worth(win);
    assert forall|i: int| 0 <= i < s.len() implies ('0' <= #[trigger] s[i] <= '9') || s[i] == '.' || s[i] == '+' || s[i]
        == '-' || s[i] == 'e' || s[i] == 'E' by {
        if i < e {
            assert(m[i] == s[i]);
            if i < p {
                assert(d[i] == s[i]);
                assert(is_digit(d[i]));
            } else if i > p {
                assert(behind_point(m)[i - p - 1] == s[i]);
                assert(d[i - 1] == s[i]);
                assert(is_digit(d[i - 1]));
            }
        } else if i > e {
            let x = s.skip(e + 1);
            assert(x[i - e - 1] == s[i]);
            if i > e + 1 || !(x[0] == '+' || x[0] == '-') {
                let digits = if x.len() > 0 && (x[0] == '+' || x[0] == '-') {
                    x.skip(1)
                } else {
                    x
                };
                let k = if x[0] == '+' || x[0] == '-' {
                    i - e - 2
                } else {
                    i - e - 1
                };
                assert(digits[k] == s[i]);
                assert(is_digit(digits[k]));
            }
        }
    }
    assert(is_digit(d[0]));
    if p > 0 {
        assert(d[0] == s[0]);
    } else {
        assert(d[0] == behind_point(m)[0]);
        assert(m[1] == s[1]);
        assert(s[1] == d[0]);
    }
}

/// The place of the first mark of an exponent.
proof fn lemma_first_e_splits(s: Seq<char>)
    ensures
        0 <= first_e(s) <= s.len(),
        first_e(s) < s.len() ==> s[first_e(s)] == 'e' || s[first_e(s)] == 'E',
    decreases s.len(),
{
    if s.len() > 0 && s[0] != 'e' && s[0] != 'E' {
        lemma_first_e_splits(s.skip(1));
    }
}

/// A number that is no whole number of billionths is none: a digit that is not zero further behind the
/// point than the ninth.
pub proof fn law_too_fine_a_number_is_none(w: Seq<char>, f: Seq<char>, i: int)
    requires
        plain_digits(w),
        plain_digits(f),
        9 <= i < f.len(),
        f[i] != '0',
    ensures
        unsigned_decimal(w + seq!['.'] + f) is None,
{
    let none = Seq::<char>::empty();
    lemma_parts_of(w, f, none);
    assert(w + seq!['.'] + f + none =~= w + seq!['.'] + f);
    assert((w + f)[w.len() + i] == f[i]);
}

/// A number beyond a thousand degrees is none.
pub proof fn law_too_large_a_number_is_none(w: Seq<char>, f: Seq<char>)
    requires
        plain_digits(w),
        plain_digits(f),
        f.len() <= 9,
        digits_value(w) * 1_000_000_000 + digits_value(f) * pow(10, (9 - f.len()) as nat) > 1_000_000_000_000,
    ensures
        unsigned_decimal(w + seq!['.'] + f) is None,
{
    let none = Seq::<char>::empty();
    lemma_parts_of(w, f, none);
    assert(w + seq!['.'] + f + none =~= w + seq!['.'] + f);
    if digits_value(w) < 10_000 {
        lemma_window(w, f);
    } else {
        let four = w.len() - 4;
        if four <= 0 {
            lemma_worth(w);
            lemma_four(w);
        } else {
            let (head, last) = (w.take(four), w.skip(four));
            assert(w =~= head + last);
            assert forall|i: int| 0 <= i < head.len() implies '0' <= #[trigger] head[i] <= '9' by {
                assert(w[i] == head[i]);
            }
            assert forall|i: int| 0 <= i < last.len() implies '0' <= #[trigger] last[i] <= '9' by {
                assert(w[four + i] == last[i]);
            }
            law_digits_have_place_values(head, last, '0');
            lemma_worth(head);
            lemma_worth(last);
            lemma_four(last);
            if forall|i: int| 0 <= i < head.len() ==> #[trigger] head[i] == '0' {
                assert(digits_value(head) == 0);
                assert(0 * pow(10, last.len()) == 0);
            } else {
                let i = choose|i: int| 0 <= i < head.len() && #[trigger] head[i] != '0';
                assert((w + f)[i] == head[i]);
            }
        }
    }
}

/// Four digits are worth less than ten thousand.
proof fn lemma_four(s: Seq<char>)
    requires
        plain_digits(s),
        s.len() <= 4,
    ensures
        digits_value(s) < 10_000,
{
    lemma_worth(s);
    vstd::arithmetic::power::lemma_pow0(10);
    lemma_ten(0);
    lemma_ten(1);
    lemma_ten(2);
    lemma_ten(3);
}

} // verus!
