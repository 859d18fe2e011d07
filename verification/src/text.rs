//! Text: the characters of a string, whole numbers in decimal, blanks, and splitting.

use vstd::prelude::*;

verus! {

/// `String::push` appends one character.
pub assume_specification[ String::push ](s: &mut String, c: char)
    ensures
        final(s)@ == old(s)@.push(c),
;

/// The characters of a string.
pub fn chars_of(s: &str) -> (r: Vec<char>)
    ensures
        r@ == s@,
{
    let mut v: Vec<char> = Vec::new();
    for c in it: s.chars()
        invariant
            it.seq() == s@,
            v@ == s@.take(it.index()),
    {
        v.push(c);
        assert(s@.take(it.index() + 1) == s@.take(it.index()).push(c));
    }
    assert(s@.take(s@.len() as int) == s@);
    v
}

/// The character of a decimal digit.
pub open spec fn digit_char(d: int) -> char {
    (48 + d) as char
}

/// Whether a character is an ASCII decimal digit.
pub open spec fn is_digit(c: char) -> bool {
    '0' <= c <= '9'
}

/// What a decimal digit is worth.
pub open spec fn digit_value(c: char) -> int {
    c as int - 48
}

/// A whole number in decimal, without leading zeros.
pub open spec fn nat_text(n: nat) -> Seq<char>
    decreases n,
{
    if n < 10 {
        seq![digit_char(n as int)]
    } else {
        nat_text(n / 10).push(digit_char((n % 10) as int))
    }
}

/// A whole number in decimal, with a minus sign where it is negative.
pub open spec fn int_text(n: int) -> Seq<char> {
    if n < 0 {
        seq!['-'] + nat_text((-n) as nat)
    } else {
        nat_text(n as nat)
    }
}

/// `count` zeros.
pub open spec fn zeros(count: int) -> Seq<char> {
    Seq::new(if count < 0 { 0 } else { count as nat }, |i: int| '0')
}

/// A whole number in decimal, filled up to `width` characters with zeros behind the sign.
pub open spec fn padded_text(n: int, width: int) -> Seq<char> {
    if n < 0 {
        seq!['-'] + zeros(width - 1 - nat_text((-n) as nat).len()) + nat_text((-n) as nat)
    } else {
        zeros(width - nat_text(n as nat).len()) + nat_text(n as nat)
    }
}

/// What a run of decimal digits is worth.
pub open spec fn digits_value(s: Seq<char>) -> int
    decreases s.len(),
{
    if s.len() == 0 {
        0
    } else {
        digits_value(s.drop_last()) * 10 + digit_value(s.last())
    }
}

/// A non-empty run of decimal digits.
pub open spec fn all_digits(s: Seq<char>) -> bool {
    s.len() > 0 && forall|i: int| 0 <= i < s.len() ==> is_digit(#[trigger] s[i])
}

/// The whole number that a text spells, where it spells one from `lo` to `hi`: decimal digits
/// behind an optional plus sign, or behind a minus sign where `lo` is negative.
pub open spec fn parse_int(s: Seq<char>, lo: int, hi: int) -> Option<int> {
    let signed = s.len() > 0 && (s[0] == '+' || (s[0] == '-' && lo < 0));
    let digits = if signed {
        s.skip(1)
    } else {
        s
    };
    if !all_digits(digits) {
        None
    } else {
        let n = if signed && s[0] == '-' {
            -digits_value(digits)
        } else {
            digits_value(digits)
        };
        if lo <= n <= hi {
            Some(n)
        } else {
            None
        }
    }
}

/// Digits are worth at least nothing, and more digits are worth at least as much.
pub proof fn lemma_digits_grow(s: Seq<char>, i: int)
    requires
        0 <= i <= s.len(),
        forall|k: int| 0 <= k < s.len() ==> is_digit(#[trigger] s[k]),
    ensures
        0 <= digits_value(s.take(i)) <= digits_value(s),
    decreases s.len(),
{
    if s.len() == 0 {
        assert(s.take(i) == s);
    } else if i == s.len() {
        assert(s.take(i) == s);
        lemma_digits_grow(s.drop_last(), s.len() - 1);
        assert(s.drop_last().take(s.len() - 1) == s.drop_last());
    } else {
        lemma_digits_grow(s.drop_last(), i);
        assert(s.drop_last().take(i) == s.take(i));
    }
}

/// Reads the whole number that the characters `from..to` spell, within bounds.
pub fn read_int(chars: &Vec<char>, from: usize, to: usize, lo: i64, hi: i64) -> (r: Option<i64>)
    requires
        from <= to <= chars.len(),
        -0x1_0000_0000 <= lo <= 0,
        0 <= hi <= 0x1_0000_0000,
    ensures
        match r {
            Some(n) => parse_int(chars@.subrange(from as int, to as int), lo as int, hi as int) == Some(n as int),
            None => parse_int(chars@.subrange(from as int, to as int), lo as int, hi as int) is None,
        },
{
    let ghost s = chars@.subrange(from as int, to as int);
    let minus: bool = from < to && chars[from] == '-' && lo < 0;
    let signed: bool = minus || (from < to && chars[from] == '+');
    let start: usize = if signed { from + 1 } else { from };
    let ghost digits = if signed { s.skip(1) } else { s };
    assert(digits == chars@.subrange(start as int, to as int));
    if start == to {
        return None;
    }
    let mut n: i64 = 0;
    let mut i: usize = start;
    while i < to
        invariant
            start <= i <= to <= chars.len(),
            digits == chars@.subrange(start as int, to as int),
            0 <= n <= 0x1_0000_0000,
            n == digits_value(digits.take(i - start)),
            forall|k: int| 0 <= k < i - start ==> is_digit(#[trigger] digits[k]),
            -0x1_0000_0000 <= lo <= 0,
            0 <= hi <= 0x1_0000_0000,
            signed == (s.len() > 0 && (s[0] == '+' || (s[0] == '-' && lo < 0))),
            digits == (if signed { s.skip(1) } else { s }),
            s == chars@.subrange(from as int, to as int),
        decreases to - i,
    {
        let c: char = chars[i];
        assert(c == digits[i - start]);
        if c < '0' || c > '9' {
            return None;
        }
        let next: i64 = n * 10 + (c as u32 - 48) as i64;
        proof {
            let t = digits.take(i + 1 - start);
            assert(t.drop_last() == digits.take(i - start));
            assert(next == digits_value(t));
        }
        if next > 0x1_0000_0000 {
            proof {
                if all_digits(digits) {
                    lemma_digits_grow(digits, i + 1 - start);
                }
            }
            return None;
        }
        n = next;
        i = i + 1;
    }
    assert(digits.take(to - start) == digits);
    let m: i64 = if minus { -n } else { n };
    if lo <= m && m <= hi {
        Some(m)
    } else {
        None
    }
}

/// Appends a whole number in decimal.
pub fn push_nat(out: &mut String, n: u64)
    ensures
        final(out)@ == old(out)@ + nat_text(n as nat),
    decreases n,
{
    if n >= 10 {
        push_nat(out, n / 10);
    }
    let d: u8 = 48 + (n % 10) as u8;
    out.push(d as char);
    assert(out@ == old(out)@ + nat_text(n as nat));
}

/// Appends a whole number in decimal, with its sign where it is negative.
pub fn push_int(out: &mut String, n: i64)
    ensures
        final(out)@ == old(out)@ + int_text(n as int),
{
    if n < 0 {
        out.push('-');
        push_nat(out, (-(n + 1)) as u64 + 1);
        assert(out@ == old(out)@ + int_text(n as int));
    } else {
        push_nat(out, n as u64);
    }
}

/// How many characters a whole number has in decimal.
fn nat_width(n: u64) -> (r: u64)
    ensures
        r == nat_text(n as nat).len(),
        r <= n + 1,
{
    let mut m: u64 = n;
    let mut w: u64 = 1;
    while m >= 10
        invariant
            nat_text(n as nat).len() == nat_text(m as nat).len() + (w - 1),
            1 <= w <= 1 + (n - m),
            m <= n,
        decreases m,
    {
        m = m / 10;
        w = w + 1;
    }
    w
}

/// Appends a whole number in decimal, filled up to `width` characters with zeros behind the sign.
pub fn push_padded(out: &mut String, n: i64, width: u64)
    ensures
        final(out)@ == old(out)@ + padded_text(n as int, width as int),
{
    let size: u64 = if n < 0 { (-(n + 1)) as u64 + 1 } else { n as u64 };
    let mut used: u64 = nat_width(size);
    if n < 0 {
        out.push('-');
        used = used + 1;
    }
    let ghost start = out@;
    let ghost fill = width - nat_text(size as nat).len() - (if n < 0 { 1int } else { 0 });
    let ghost mut placed: int = 0;
    while used < width
        invariant
            out@ == start + zeros(placed),
            0 <= placed,
            placed == 0 || placed <= fill,
            used < width ==> used - placed == width - fill,
            used >= width ==> placed >= fill,
        decreases width - used,
    {
        out.push('0');
        used = used + 1;
        proof {
            placed = placed + 1;
            assert(zeros(placed) == zeros(placed - 1).push('0'));
        }
    }
    assert(zeros(placed) == zeros(fill));
    push_nat(out, size);
    assert(out@ == old(out)@ + padded_text(n as int, width as int));
}

/// Whether a character is a blank: the Unicode property White_Space.
pub open spec fn is_blank(c: char) -> bool {
    let n = c as u32;
    ||| 0x09 <= n <= 0x0d
    ||| n == 0x20
    ||| n == 0x85
    ||| n == 0xa0
    ||| n == 0x1680
    ||| 0x2000 <= n <= 0x200a
    ||| n == 0x2028
    ||| n == 0x2029
    ||| n == 0x202f
    ||| n == 0x205f
    ||| n == 0x3000
}

/// Whether a character is a blank.
pub fn blank(c: char) -> (r: bool)
    ensures
        r == is_blank(c),
{
    let n: u32 = c as u32;
    (0x09 <= n && n <= 0x0d) || n == 0x20 || n == 0x85 || n == 0xa0 || n == 0x1680 || (0x2000 <= n && n <= 0x200a) || n
        == 0x2028 || n == 0x2029 || n == 0x202f || n == 0x205f || n == 0x3000
}

/// A text without the blanks in front.
pub open spec fn trim_front(s: Seq<char>) -> Seq<char>
    decreases s.len(),
{
    if s.len() > 0 && is_blank(s[0]) {
        trim_front(s.skip(1))
    } else {
        s
    }
}

/// A text without the blanks behind.
pub open spec fn trim_back(s: Seq<char>) -> Seq<char>
    decreases s.len(),
{
    if s.len() > 0 && is_blank(s.last()) {
        trim_back(s.drop_last())
    } else {
        s
    }
}

/// A text without the blanks at either end.
pub open spec fn trim(s: Seq<char>) -> Seq<char> {
    trim_back(trim_front(s))
}

/// Where the characters `from..to` begin and end without their outer blanks.
pub fn trimmed(chars: &Vec<char>, from: usize, to: usize) -> (r: (usize, usize))
    requires
        from <= to <= chars.len(),
    ensures
        from <= r.0 <= r.1 <= to,
        chars@.subrange(r.0 as int, r.1 as int) == trim(chars@.subrange(from as int, to as int)),
{
    let ghost s = chars@.subrange(from as int, to as int);
    let mut a: usize = from;
    while a < to && blank(chars[a])
        invariant
            from <= a <= to <= chars.len(),
            trim_front(s) == trim_front(chars@.subrange(a as int, to as int)),
        decreases to - a,
    {
        assert(chars@.subrange(a as int, to as int).skip(1) == chars@.subrange(a + 1, to as int));
        a = a + 1;
    }
    let ghost f = chars@.subrange(a as int, to as int);
    assert(trim_front(s) == f);
    let mut b: usize = to;
    while a < b && blank(chars[b - 1])
        invariant
            from <= a <= b <= to <= chars.len(),
            trim_back(f) == trim_back(chars@.subrange(a as int, b as int)),
        decreases b,
    {
        assert(chars@.subrange(a as int, b as int).drop_last() == chars@.subrange(a as int, b - 1));
        b = b - 1;
    }
    (a, b)
}

/// A text without any blank.
pub open spec fn without_blanks(s: Seq<char>) -> Seq<char> {
    s.filter(|c: char| !is_blank(c))
}

/// Takes every blank out of a text.
pub fn strip_blanks(s: &str) -> (r: String)
    ensures
        r@ == without_blanks(s@),
{
    let chars: Vec<char> = chars_of(s);
    let mut out = String::new();
    let mut i: usize = 0;
    let ghost keep = |c: char| !is_blank(c);
    while i < chars.len()
        invariant
            i <= chars.len(),
            chars@ == s@,
            keep == (|c: char| !is_blank(c)),
            out@ == s@.take(i as int).filter(keep),
        decreases chars.len() - i,
    {
        let c: char = chars[i];
        proof {
            reveal(Seq::filter);
            let t = s@.take(i + 1);
            assert(t.drop_last() == s@.take(i as int));
            assert(t.last() == c);
        }
        if !blank(c) {
            out.push(c);
        }
        i = i + 1;
    }
    assert(s@.take(i as int) == s@);
    out
}

/// The place of the first `mark` in a text, or its length.
pub open spec fn first_mark(s: Seq<char>, mark: char) -> int
    decreases s.len(),
{
    if s.len() == 0 || s[0] == mark {
        0
    } else {
        1 + first_mark(s.skip(1), mark)
    }
}

/// What the first mark has in front of it.
pub proof fn lemma_first_mark(s: Seq<char>, mark: char)
    ensures
        0 <= first_mark(s, mark) <= s.len(),
        first_mark(s, mark) < s.len() ==> s[first_mark(s, mark)] == mark,
        forall|i: int| 0 <= i < first_mark(s, mark) ==> s[i] != mark,
    decreases s.len(),
{
    if s.len() > 0 && s[0] != mark {
        lemma_first_mark(s.skip(1), mark);
        assert forall|i: int| 0 <= i < first_mark(s, mark) implies s[i] != mark by {
            if i > 0 {
                assert(s.skip(1)[i - 1] == s[i]);
            }
        }
    }
}

/// The first mark is where a mark stands with none in front of it.
pub proof fn lemma_first_mark_at(s: Seq<char>, mark: char, k: int)
    requires
        0 <= k <= s.len(),
        k < s.len() ==> s[k] == mark,
        forall|i: int| 0 <= i < k ==> s[i] != mark,
    ensures
        first_mark(s, mark) == k,
{
    lemma_first_mark(s, mark);
    let f = first_mark(s, mark);
    if f < k {
        assert(s[f] != mark);
    }
}

/// Finds the first `mark` among the characters `from..to`, or `to`.
pub fn find_mark(chars: &Vec<char>, from: usize, to: usize, mark: char) -> (r: usize)
    requires
        from <= to <= chars.len(),
    ensures
        from <= r <= to,
        r - from == first_mark(chars@.subrange(from as int, to as int), mark),
{
    let mut i: usize = from;
    while i < to && chars[i] != mark
        invariant
            from <= i <= to <= chars.len(),
            forall|k: int| from <= k < i ==> chars@[k] != mark,
        decreases to - i,
    {
        i = i + 1;
    }
    proof {
        lemma_first_mark_at(chars@.subrange(from as int, to as int), mark, i - from);
    }
    i
}

/// A whole number's text is made of digits and is worth the number.
pub proof fn lemma_nat_text(n: nat)
    ensures
        all_digits(nat_text(n)),
        digits_value(nat_text(n)) == n,
    decreases n,
{
    if n < 10 {
        let s = nat_text(n);
        assert(s.drop_last() =~= Seq::empty());
        assert(digits_value(Seq::empty()) == 0);
    } else {
        lemma_nat_text(n / 10);
        let s = nat_text(n);
        assert(s.drop_last() =~= nat_text(n / 10));
        assert forall|i: int| 0 <= i < s.len() implies is_digit(#[trigger] s[i]) by {
            if i < s.len() - 1 {
                assert(s[i] == nat_text(n / 10)[i]);
            }
        }
    }
}

/// Zeros in front are worth nothing.
proof fn lemma_leading_zeros(count: int, s: Seq<char>)
    requires
        forall|i: int| 0 <= i < s.len() ==> is_digit(#[trigger] s[i]),
    ensures
        digits_value(zeros(count) + s) == digits_value(s),
        forall|i: int| 0 <= i < (zeros(count) + s).len() ==> is_digit(#[trigger] (zeros(count) + s)[i]),
    decreases zeros(count).len() + s.len(),
{
    let t = zeros(count) + s;
    if s.len() > 0 {
        lemma_leading_zeros(count, s.drop_last());
        assert(t.drop_last() =~= zeros(count) + s.drop_last());
    } else if zeros(count).len() > 0 {
        lemma_leading_zeros(count - 1, s);
        assert(t.drop_last() =~= zeros(count - 1) + s);
        assert(t.last() == '0');
    } else {
        assert(t =~= s);
    }
}

/// A whole number's text, filled up with zeros, is made of digits and is worth the number.
pub proof fn lemma_padded_text(n: int, width: int)
    requires
        n >= 0,
    ensures
        all_digits(padded_text(n, width)),
        digits_value(padded_text(n, width)) == n,
{
    lemma_nat_text(n as nat);
    lemma_leading_zeros(width - nat_text(n as nat).len(), nat_text(n as nat));
}

/// A whole number is read back from its text.
pub proof fn law_int_text_reads_back(n: int, lo: int, hi: int)
    requires
        lo <= n <= hi,
    ensures
        parse_int(int_text(n), lo, hi) == Some(n),
{
    let s = int_text(n);
    if n < 0 {
        lemma_nat_text((-n) as nat);
        assert(s.skip(1) =~= nat_text((-n) as nat));
    } else {
        lemma_nat_text(n as nat);
        assert(is_digit(s[0]));
    }
}

/// A whole number is read back from its text filled up with zeros.
pub proof fn law_padded_text_reads_back(n: int, width: int, lo: int, hi: int)
    requires
        0 <= n,
        lo <= n <= hi,
    ensures
        parse_int(padded_text(n, width), lo, hi) == Some(n),
{
    lemma_padded_text(n, width);
    assert(is_digit(padded_text(n, width)[0]));
}

/// A whole number's text is made of digits, with at most a minus sign in front.
pub proof fn lemma_int_text_chars(n: int)
    ensures
        int_text(n).len() > 0,
        forall|i: int| 0 <= i < int_text(n).len() ==> is_digit(#[trigger] int_text(n)[i]) || (i == 0 && int_text(n)[i] == '-'),
        n >= 0 ==> all_digits(int_text(n)),
{
    if n < 0 {
        lemma_nat_text((-n) as nat);
        let s = int_text(n);
        assert forall|i: int| 0 <= i < s.len() implies is_digit(#[trigger] s[i]) || (i == 0 && s[i] == '-') by {
            if i > 0 {
                assert(s[i] == nat_text((-n) as nat)[i - 1]);
            }
        }
    } else {
        lemma_nat_text(n as nat);
    }
}

} // verus!
