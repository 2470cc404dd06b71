//! Decimal numbers and message text.
use vstd::prelude::*;
use vstd::string::*;

verus! {

/// The decimal digit of a number below ten.
pub open spec fn digit_char(d: int) -> char {
    (48 + d) as char
}

/// The value of a decimal digit.
pub open spec fn digit_value(c: char) -> int {
    c as int - 48
}

/// A decimal digit.
pub open spec fn is_digit(c: char) -> bool {
    '0' <= c && c <= '9'
}

/// A number in decimal digits, without leading zeros.
pub open spec fn decimal(n: int) -> Seq<char>
    decreases n,
{
    if n < 10 {
        seq![digit_char(n)]
    } else {
        decimal(n / 10).push(digit_char(n % 10))
    }
}

/// The number that a run of decimal digits stands for.
pub open spec fn number(s: Seq<char>) -> int
    decreases s.len(),
{
    if s.len() == 0 {
        0
    } else {
        number(s.drop_last()) * 10 + digit_value(s.last())
    }
}

/// Only decimal digits, and at least one.
pub open spec fn is_number(s: Seq<char>) -> bool {
    s.len() > 0 && forall|i: int| 0 <= i < s.len() ==> is_digit(#[trigger] s[i])
}

/// Reading back a number that was written in decimal gives the number.
pub proof fn law_decimal_round_trip(n: int)
    requires
        0 <= n,
    ensures
        is_number(decimal(n)),
        number(decimal(n)) == n,
    decreases n,
{
    let s = decimal(n);
    if n < 10 {
        assert(s.drop_last() =~= Seq::<char>::empty());
        assert(number(s.drop_last()) == 0);
    } else {
        law_decimal_round_trip(n / 10);
        let t = decimal(n / 10);
        assert(s.drop_last() =~= t);
        assert forall|i: int| 0 <= i < s.len() implies is_digit(#[trigger] s[i]) by {
            if i < t.len() {
                assert(s[i] == t[i]);
            }
        }
    }
}

/// A run of digits never stands for a negative number.
pub proof fn lemma_number_nonneg(s: Seq<char>)
    requires
        forall|i: int| 0 <= i < s.len() ==> is_digit(#[trigger] s[i]),
    ensures
        number(s) >= 0,
    decreases s.len(),
{
    if s.len() > 0 {
        assert(is_digit(s[s.len() - 1]));
        let t = s.drop_last();
        assert forall|i: int| 0 <= i < t.len() implies is_digit(#[trigger] t[i]) by {
            assert(is_digit(s[i]));
        }
        lemma_number_nonneg(t);
    }
}

/// The text of one digit.
fn digit_str(d: u64) -> (s: &'static str)
    requires
        d < 10,
    ensures
        s@ == seq![digit_char(d as int)],
{
    proof {
        reveal_strlit("0");
        reveal_strlit("1");
        reveal_strlit("2");
        reveal_strlit("3");
        reveal_strlit("4");
        reveal_strlit("5");
        reveal_strlit("6");
        reveal_strlit("7");
        reveal_strlit("8");
        reveal_strlit("9");
    }
    let s: &'static str = if d == 0 {
        "0"
    } else if d == 1 {
        "1"
    } else if d == 2 {
        "2"
    } else if d == 3 {
        "3"
    } else if d == 4 {
        "4"
    } else if d == 5 {
        "5"
    } else if d == 6 {
        "6"
    } else if d == 7 {
        "7"
    } else if d == 8 {
        "8"
    } else {
        "9"
    };
    assert(s@ =~= seq![digit_char(d as int)]);
    s
}

/// Writes a number in decimal.
pub fn decimal_string(n: u64) -> (s: String)
    ensures
        s@ == decimal(n as int),
    decreases n,
{
    if n < 10 {
        let s = digit_str(n).to_owned();
        s
    } else {
        let mut s = decimal_string(n / 10);
        s.append(digit_str(n % 10));
        assert(s@ =~= decimal(n as int));
        s
    }
}

/// A number in decimal digits, with a sign if it is negative.
pub open spec fn signed(n: int) -> Seq<char> {
    if n < 0 {
        "-"@ + decimal(-n)
    } else {
        decimal(n)
    }
}

/// Writes a number in decimal, with a sign if it is negative.
pub fn signed_string(n: i64) -> (s: String)
    ensures
        s@ == signed(n as int),
{
    if n < 0 {
        let mut s = "-".to_owned();
        // The magnitude of the least number is not an `i64`.
        let digits = decimal_string((-(n + 1)) as u64 + 1);
        s.append(digits.as_str());
        s
    } else {
        decimal_string(n as u64)
    }
}

/// Reads a run of decimal digits as a number of at most `limit`.
pub fn parse_decimal(s: &str, limit: u64) -> (r: Option<u64>)
    ensures
        r == (if is_number(s@) && number(s@) <= limit {
            Some(number(s@) as u64)
        } else {
            None
        }),
{
    let n: usize = s.unicode_len();
    if n == 0 {
        return None;
    }
    // Every digit is looked at, so that a stray character is found even behind
    // a number that is already too large.
    let mut value: u64 = 0;
    let mut fits: bool = true;
    let mut i: usize = 0;
    while i < n
        invariant
            i <= n,
            n == s@.len(),
            forall|k: int| 0 <= k < i ==> is_digit(#[trigger] s@[k]),
            fits ==> value == number(s@.take(i as int)) && value <= limit,
            !fits ==> number(s@.take(i as int)) > limit,
        decreases n - i,
    {
        let c: char = s.get_char(i);
        if c < '0' || c > '9' {
            assert(!is_digit(s@[i as int]));
            return None;
        }
        let d: u64 = (c as u32 - 48) as u64;
        proof {
            let t = s@.take(i + 1);
            assert(t.drop_last() =~= s@.take(i as int));
            assert(t.last() == c);
            let u = s@.take(i as int);
            assert forall|k: int| 0 <= k < u.len() implies is_digit(#[trigger] u[k]) by {
                assert(is_digit(s@[k]));
            }
            lemma_number_nonneg(u);
        }
        if fits {
            if value > limit / 10 || d > limit - value * 10 {
                fits = false;
            } else {
                value = value * 10 + d;
            }
        }
        i = i + 1;
    }
    assert(s@.take(n as int) =~= s@);
    if fits {
        Some(value)
    } else {
        None
    }
}

/// How many characters stand before the first `c`; all of them if there is none.
pub open spec fn until(s: Seq<char>, c: char) -> int
    decreases s.len(),
{
    if s.len() == 0 || s[0] == c {
        0
    } else {
        1 + until(s.skip(1), c)
    }
}

/// `until` stops at the first `c`, and nowhere else.
pub proof fn lemma_until(s: Seq<char>, c: char)
    ensures
        0 <= until(s, c) <= s.len(),
        forall|i: int| 0 <= i < until(s, c) ==> #[trigger] s[i] != c,
        until(s, c) < s.len() ==> s[until(s, c)] == c,
    decreases s.len(),
{
    if s.len() > 0 && s[0] != c {
        let t = s.skip(1);
        lemma_until(t, c);
        assert forall|i: int| 0 <= i < until(s, c) implies #[trigger] s[i] != c by {
            if i > 0 {
                assert(t[i - 1] == s[i]);
            }
        }
        if until(s, c) < s.len() {
            assert(t[until(t, c)] == s[until(s, c)]);
        }
    }
}

/// Where the first `c` stands, it is the first one.
pub proof fn lemma_until_unique(s: Seq<char>, c: char, n: int)
    requires
        0 <= n <= s.len(),
        forall|i: int| 0 <= i < n ==> #[trigger] s[i] != c,
        n < s.len() ==> s[n] == c,
    ensures
        n == until(s, c),
{
    lemma_until(s, c);
    let m = until(s, c);
    if n < m {
        assert(s[n] != c);
    } else if m < n {
        assert(s[m] != c);
    }
}

/// Counts the characters before the first `c`.
pub fn find_char(s: &str, c: char) -> (n: usize)
    ensures
        n == until(s@, c),
        n <= s@.len(),
{
    let len: usize = s.unicode_len();
    let mut n: usize = 0;
    while n < len
        invariant
            len == s@.len(),
            n <= len,
            forall|i: int| 0 <= i < n ==> #[trigger] s@[i] != c,
        decreases len - n,
    {
        if s.get_char(n) == c {
            proof {
                lemma_until_unique(s@, c, n as int);
            }
            return n;
        }
        n = n + 1;
    }
    proof {
        lemma_until_unique(s@, c, n as int);
    }
    n
}

/// Tests whether two texts are the same.
pub fn same_text(a: &str, b: &str) -> (r: bool)
    ensures
        r == (a@ == b@),
{
    let len: usize = a.unicode_len();
    if b.unicode_len() != len {
        return false;
    }
    let mut i: usize = 0;
    while i < len
        invariant
            len == a@.len(),
            len == b@.len(),
            i <= len,
            forall|k: int| 0 <= k < i ==> #[trigger] a@[k] == b@[k],
        decreases len - i,
    {
        if a.get_char(i) != b.get_char(i) {
            return false;
        }
        i = i + 1;
    }
    assert(a@ =~= b@);
    true
}

/// The text begins with `p`.
pub open spec fn has_prefix(s: Seq<char>, p: Seq<char>) -> bool {
    p.len() <= s.len() && s.take(p.len() as int) == p
}

/// The text ends with `p`.
pub open spec fn has_suffix(s: Seq<char>, p: Seq<char>) -> bool {
    p.len() <= s.len() && s.skip(s.len() - p.len()) == p
}

/// Tests whether a text begins with another.
pub fn starts_with(s: &str, p: &str) -> (r: bool)
    ensures
        r == has_prefix(s@, p@),
{
    let n: usize = p.unicode_len();
    if n > s.unicode_len() {
        return false;
    }
    let head: &str = s.substring_char(0, n);
    assert(head@ =~= s@.take(n as int));
    same_text(head, p)
}

/// Tests whether a text ends with another.
pub fn ends_with(s: &str, p: &str) -> (r: bool)
    ensures
        r == has_suffix(s@, p@),
{
    let len: usize = s.unicode_len();
    let n: usize = p.unicode_len();
    if n > len {
        return false;
    }
    let tail: &str = s.substring_char(len - n, len);
    assert(tail@ =~= s@.skip(len - n));
    same_text(tail, p)
}

/// Reading goes from left to right: each further digit is worth ten times less, and
/// nothing but the digits from '0' to '9', at least one, is a number.
pub proof fn law_number_reads_digits(s: Seq<char>, c: char)
    ensures
        number(Seq::<char>::empty()) == 0,
        number(s.push(c)) == 10 * number(s) + (c as int - '0' as int),
        is_number(s.push(c)) <==> '0' <= c && c <= '9' && (s.len() == 0 || is_number(s)),
        !is_number(Seq::<char>::empty()),
{
    let t = s.push(c);
    assert(t.drop_last() =~= s);
    assert(t.last() == c);
    if is_number(t) {
        assert(is_digit(t[s.len() as int]));
        assert forall|i: int| 0 <= i < s.len() implies is_digit(#[trigger] s[i]) by {
            assert(t[i] == s[i]);
        }
    }
    if '0' <= c && c <= '9' && (s.len() == 0 || is_number(s)) {
        assert forall|i: int| 0 <= i < t.len() implies is_digit(#[trigger] t[i]) by {
            if i < s.len() {
                assert(t[i] == s[i]);
            }
        }
    }
}

/// A run of digits without a leading zero is how its number is written: there is
/// one such text for a number, and it is the one that is written.
pub proof fn law_decimal_is_the_only_text(s: Seq<char>)
    requires
        is_number(s),
        s.len() > 1 ==> s[0] != '0',
    ensures
        decimal(number(s)) == s,
    decreases s.len(),
{
    let t = s.drop_last();
    let c = s.last();
    assert(is_digit(s[s.len() - 1]));
    assert forall|i: int| 0 <= i < t.len() implies is_digit(#[trigger] t[i]) by {
        assert(is_digit(s[i]));
    }
    lemma_number_nonneg(t);
    assert(digit_char(digit_value(c)) == c);
    if t.len() == 0 {
        assert(number(t) == 0);
        assert(decimal(number(s)) =~= s);
    } else {
        assert(t[0] == s[0]);
        law_decimal_is_the_only_text(t);
        assert(number(t) > 0) by {
            if number(t) == 0 {
                assert(t == decimal(0));
                assert(t[0] == digit_char(0));
            }
        }
        let n = number(s);
        assert(n / 10 == number(t) && n % 10 == digit_value(c));
        assert(decimal(n) =~= s);
    }
}

/// Numbers are written without leading zeros.
pub proof fn law_decimal_has_no_leading_zero(n: int)
    requires
        0 <= n,
    ensures
        decimal(n).len() > 0,
        decimal(n).len() > 1 ==> decimal(n)[0] != '0',
        n > 0 ==> decimal(n)[0] != '0',
    decreases n,
{
    if n >= 10 {
        law_decimal_has_no_leading_zero(n / 10);
        assert(decimal(n)[0] == decimal(n / 10)[0]);
    }
}

/// A negative number is its magnitude behind a minus sign.
pub proof fn law_signed_numbers(n: int)
    requires
        0 < n,
    ensures
        signed(-n).len() == signed(n).len() + 1,
        signed(-n)[0] == '-',
        signed(-n).skip(1) == signed(n),
        number(signed(n)) == n,
        number(signed(0)) == 0,
{
    reveal_strlit("-");
    law_decimal_round_trip(n);
    law_decimal_round_trip(0);
    assert(signed(-n).skip(1) =~= signed(n));
}

/// A text begins and ends with another exactly where it is that text and more.
pub proof fn law_prefix_and_suffix(p: Seq<char>, x: Seq<char>, s: Seq<char>)
    ensures
        has_prefix(p + x, p),
        has_suffix(x + p, p),
        has_prefix(s, p) ==> s == p + s.skip(p.len() as int),
        has_suffix(s, p) ==> s == s.take(s.len() - p.len()) + p,
{
    assert((p + x).take(p.len() as int) =~= p);
    assert((x + p).skip((x + p).len() - p.len()) =~= p);
    if has_prefix(s, p) {
        assert(s =~= s.take(p.len() as int) + s.skip(p.len() as int));
    }
    if has_suffix(s, p) {
        assert(s =~= s.take(s.len() - p.len()) + s.skip(s.len() - p.len()));
    }
}

} // verus!
