//! Decimal text: how numbers appear in cache file names and messages, and how
//! they are read back.

use vstd::prelude::*;
use vstd::string::*;

verus! {

/// The character of a decimal digit.
pub open spec fn digit_char(d: nat) -> char {
    (48 + d) as char
}

/// The shortest decimal numeral of `n`, most significant digit first.
pub open spec fn decimal(n: nat) -> Seq<char>
    decreases n,
{
    if n < 10 {
        seq![digit_char(n)]
    } else {
        decimal(n / 10).push(digit_char(n % 10))
    }
}

/// `count` zeros.
pub open spec fn zeros(count: nat) -> Seq<char> {
    Seq::new(count, |i: int| '0')
}

/// The decimal numeral of `n`, filled with zeros on the left to at least `width`
/// characters.
pub open spec fn zero_padded(n: nat, width: nat) -> Seq<char> {
    let digits = decimal(n);
    if digits.len() < width {
        zeros((width - digits.len()) as nat) + digits
    } else {
        digits
    }
}

pub open spec fn is_digit(c: char) -> bool {
    '0' <= c <= '9'
}

/// The number that a string of decimal digits stands for; leading zeros count
/// for nothing.
pub open spec fn digits_value(s: Seq<char>) -> nat
    decreases s.len(),
{
    if s.len() == 0 {
        0
    } else {
        10 * digits_value(s.drop_last()) + (s.last() as nat - '0' as nat) as nat
    }
}

pub open spec fn all_digits(s: Seq<char>) -> bool {
    forall|i: int| 0 <= i < s.len() ==> is_digit(#[trigger] s[i])
}

/// The unsigned integer of at most `max` that `s` spells: an optional plus sign and at
/// least one digit.
pub open spec fn parsed_number(s: Seq<char>, max: nat) -> Option<nat> {
    let digits = if s.len() > 0 && s[0] == '+' {
        s.skip(1)
    } else {
        s
    };
    if digits.len() > 0 && all_digits(digits) && digits_value(digits) <= max {
        Some(digits_value(digits))
    } else {
        None
    }
}

/// The `u64` that `s` spells.
pub open spec fn parsed_u64(s: Seq<char>) -> Option<u64> {
    match parsed_number(s, u64::MAX as nat) {
        Some(n) => Some(n as u64),
        None => None,
    }
}

/// The `usize` that `s` spells.
pub open spec fn parsed_usize(s: Seq<char>) -> Option<usize> {
    match parsed_number(s, usize::MAX as nat) {
        Some(n) => Some(n as usize),
        None => None,
    }
}

/// `String::push`: one more character at the end.
#[verifier::external_body]
pub(crate) fn push_char(s: &mut String, c: char)
    ensures
        final(s)@ == old(s)@.push(c),
{
    s.push(c)
}

fn digit_text(d: u64) -> (r: &'static str)
    requires
        d < 10,
    ensures
        r@ == seq![digit_char(d as nat)],
{
    proof {
        reveal_strlit("0");
        reveal_strlit("1");
        reveal_strlit("2");
        reveal_strlit("3");
        reveal_strlit("4");
        reveal_strlit("5");
        reveal_strlit("6");
        reveal_strlit("7");
        reveal_strlit("8");
        reveal_strlit("9");
    }
    let r: &'static str = match d {
        0 => "0",
        1 => "1",
        2 => "2",
        3 => "3",
        4 => "4",
        5 => "5",
        6 => "6",
        7 => "7",
        8 => "8",
        _ => "9",
    };
    assert(r@ =~= seq![digit_char(d as nat)]);
    r
}

/// The decimal numeral of `n`.
pub fn decimal_text(n: u64) -> (r: String)
    ensures
        r@ == decimal(n as nat),
    decreases n,
{
    if n < 10 {
        String::from_str(digit_text(n))
    } else {
        let mut r = decimal_text(n / 10);
        r.append(digit_text(n % 10));
        assert(r@ =~= decimal(n as nat));
        r
    }
}

/// The decimal numeral of `n`, filled with zeros on the left to `width` characters.
pub fn zero_padded_text(n: u64, width: usize) -> (r: String)
    ensures
        r@ == zero_padded(n as nat, width as nat),
{
    let digits = decimal_text(n);
    let len: usize = digits.as_str().unicode_len();
    let mut r = String::new();
    let mut filled: usize = len;
    proof {
        reveal_strlit("0");
    }
    assert(r@ =~= zeros(0));
    while filled < width
        invariant
            len <= filled,
            filled <= width || filled == len,
            r@ == zeros((filled - len) as nat),
            "0"@ =~= seq!['0'],
        decreases width - filled,
    {
        r.append("0");
        filled = filled + 1;
        assert(r@ =~= zeros((filled - len) as nat));
    }
    r.append(digits.as_str());
    assert(r@ =~= zero_padded(n as nat, width as nat));
    r
}

/// The characters of `s`.
pub fn chars_of(s: &str) -> (r: Vec<char>)
    ensures
        r@ == s@,
{
    let mut r: Vec<char> = Vec::new();
    for c in it: s.chars()
        invariant
            r@ == it.seq().take(it.index()),
            it.seq() == s@,
    {
        r.push(c);
        assert(r@ =~= it.seq().take(it.index() + 1));
    }
    assert(r@ =~= s@);
    r
}

/// The `u64` that `s` spells, if it spells one.
pub fn parse_u64(s: &str) -> (r: Option<u64>)
    ensures
        r == parsed_u64(s@),
{
    let chars = chars_of(s);
    let len: usize = chars.len();
    let start: usize = if len > 0 && chars[0] == '+' {
        1
    } else {
        0
    };
    let ghost digits = if s@.len() > 0 && s@[0] == '+' {
        s@.skip(1)
    } else {
        s@
    };
    if start == len {
        return None;
    }
    let mut value: u64 = 0;
    let mut i: usize = start;
    assert(digits.take(0) =~= Seq::<char>::empty());
    while i < len
        invariant
            chars@ == s@,
            len == chars@.len(),
            start <= 1,
            start <= i <= len,
            start < len,
            digits.len() == len - start,
            forall|k: int| 0 <= k < digits.len() ==> digits[k] == #[trigger] chars@[k + start],
            digits == (if s@.len() > 0 && s@[0] == '+' {
                s@.skip(1)
            } else {
                s@
            }),
            all_digits(digits.take(i - start)),
            value == digits_value(digits.take(i - start)),
        decreases len - i,
    {
        let c: char = chars[i];
        let ghost k = i - start;
        assert(digits[k] == chars@[k + start]);
        if c < '0' || c > '9' {
            assert(!is_digit(digits[k]));
            return None;
        }
        let d: u64 = c as u64 - '0' as u64;
        proof {
            let next = digits.take(k + 1);
            assert(next.drop_last() =~= digits.take(k));
            assert(next.last() == c);
            assert(digits_value(next) == 10 * digits_value(digits.take(k)) + d);
            lemma_digits_value_prefix(digits, k + 1);
        }
        let tens = match value.checked_mul(10) {
            Some(v) => v,
            None => {
                return None;
            },
        };
        value = match tens.checked_add(d) {
            Some(v) => v,
            None => {
                return None;
            },
        };
        assert(all_digits(digits.take(k + 1))) by {
            assert forall|j: int| 0 <= j < k + 1 implies is_digit(#[trigger] digits.take(k + 1)[j]) by {
                if j < k {
                    assert(digits.take(k)[j] == digits[j]);
                }
            }
        }
        i = i + 1;
    }
    assert(digits.take(i - start) =~= digits);
    Some(value)
}

/// The `usize` that `s` spells, if it spells one.
pub fn parse_usize(s: &str) -> (r: Option<usize>)
    ensures
        r == parsed_usize(s@),
{
    match parse_u64(s) {
        Some(n) => if n <= usize::MAX as u64 {
            Some(n as usize)
        } else {
            None
        },
        None => None,
    }
}

/// The value of a prefix of digits is at most the value of the whole.
proof fn lemma_digits_value_prefix(s: Seq<char>, k: int)
    requires
        0 <= k <= s.len(),
    ensures
        digits_value(s.take(k)) <= digits_value(s),
    decreases s.len() - k,
{
    if k < s.len() {
        lemma_digits_value_prefix(s, k + 1);
        assert(s.take(k + 1).drop_last() =~= s.take(k));
    } else {
        assert(s.take(k) =~= s);
    }
}

/// A decimal numeral is made of digits, and stands for its number.
pub proof fn lemma_decimal_value(n: nat)
    ensures
        decimal(n).len() > 0,
        all_digits(decimal(n)),
        digits_value(decimal(n)) == n,
    decreases n,
{
    if n < 10 {
        let s = decimal(n);
        assert(s.drop_last() =~= Seq::<char>::empty());
        assert(s.last() == digit_char(n));
        assert(digits_value(s.drop_last()) == 0);
    } else {
        lemma_decimal_value(n / 10);
        let s = decimal(n);
        assert(s.drop_last() =~= decimal(n / 10));
        assert forall|i: int| 0 <= i < s.len() implies is_digit(#[trigger] s[i]) by {
            if i < s.len() - 1 {
                assert(s[i] == decimal(n / 10)[i]);
            }
        }
    }
}

/// Ten to the power of `k`.
pub open spec fn ten_to(k: nat) -> nat
    decreases k,
{
    if k == 0 {
        1
    } else {
        10 * ten_to((k - 1) as nat)
    }
}

/// A number below ten to the power of `k` has at most `k` digits.
pub proof fn lemma_decimal_len(n: nat, k: nat)
    requires
        k > 0,
        n < ten_to(k),
    ensures
        decimal(n).len() <= k,
    decreases k,
{
    if n >= 10 {
        if k == 1 {
            reveal_with_fuel(ten_to, 2);
        } else {
            lemma_decimal_len(n / 10, (k - 1) as nat);
        }
    }
}

/// Different numbers have different numerals.
pub proof fn lemma_decimal_injective(a: nat, b: nat)
    requires
        decimal(a) == decimal(b),
    ensures
        a == b,
{
    lemma_decimal_value(a);
    lemma_decimal_value(b);
}

/// Zeros on the left change neither that a string is made of digits nor its value.
proof fn lemma_zeros_in_front(count: nat, s: Seq<char>)
    requires
        all_digits(s),
    ensures
        all_digits(zeros(count) + s),
        digits_value(zeros(count) + s) == digits_value(s),
    decreases s.len(), count,
{
    let t = zeros(count) + s;
    assert forall|i: int| 0 <= i < t.len() implies is_digit(#[trigger] t[i]) by {
        if i >= count {
            assert(t[i] == s[i - count]);
        }
    }
    if s.len() > 0 {
        assert(t.drop_last() =~= zeros(count) + s.drop_last());
        lemma_zeros_in_front(count, s.drop_last());
    } else if count > 0 {
        let fewer = (count - 1) as nat;
        assert(t.drop_last() =~= zeros(fewer) + s);
        lemma_zeros_in_front(fewer, s);
    } else {
        assert(t =~= s);
    }
}

/// A numeral filled with zeros is made of digits, and reads back as its number.
pub proof fn lemma_zero_padded_value(n: nat, width: nat)
    ensures
        zero_padded(n, width).len() > 0,
        all_digits(zero_padded(n, width)),
        digits_value(zero_padded(n, width)) == n,
{
    lemma_decimal_value(n);
    let digits = decimal(n);
    if digits.len() < width {
        lemma_zeros_in_front((width - digits.len()) as nat, digits);
    }
}

/// Different numbers have different numerals, filled with zeros to the same width or not.
pub proof fn lemma_zero_padded_injective(a: nat, b: nat, width: nat)
    requires
        zero_padded(a, width) == zero_padded(b, width),
    ensures
        a == b,
{
    lemma_zero_padded_value(a, width);
    lemma_zero_padded_value(b, width);
}

/// A number that fits is read back from its numeral.
pub proof fn lemma_parse_zero_padded(n: usize, width: nat)
    ensures
        parsed_usize(zero_padded(n as nat, width)) == Some(n),
{
    lemma_zero_padded_value(n as nat, width);
    let s = zero_padded(n as nat, width);
    assert(is_digit(s[0]));
}

/// A decimal numeral is the shortest: it does not begin with a zero, but for zero itself.
pub proof fn lemma_decimal_is_shortest(n: nat)
    ensures
        n > 0 ==> decimal(n)[0] != '0',
        decimal(0) == seq!['0'],
    decreases n,
{
    if n >= 10 {
        lemma_decimal_value(n / 10);
        lemma_decimal_is_shortest(n / 10);
    } else {
        assert(decimal(0) =~= seq!['0']);
    }
}

/// The value of digits is positional: what stands in front counts ten times for every digit
/// behind it, and a single digit counts its distance from zero.
pub proof fn lemma_digits_value_is_positional(a: Seq<char>, b: Seq<char>, c: char)
    ensures
        digits_value(a + b) == digits_value(a) * ten_to(b.len()) + digits_value(b),
        is_digit(c) ==> digits_value(seq![c]) == c as int - '0' as int,
        digits_value(Seq::<char>::empty()) == 0,
    decreases b.len(),
{
    reveal_with_fuel(digits_value, 2);
    assert(seq![c].drop_last() =~= Seq::<char>::empty());
    assert(seq![c].last() == c);
    if b.len() == 0 {
        assert(a + b =~= a);
        assert(digits_value(a) * 1 == digits_value(a)) by (nonlinear_arith);
    } else {
        let d = b.drop_last();
        lemma_digits_value_is_positional(a, d, c);
        assert((a + b).drop_last() =~= a + d);
        assert((a + b).last() == b.last());
        let x = digits_value(a);
        let t = ten_to(d.len());
        assert(ten_to(b.len()) == 10 * t);
        assert(10 * (x * t) == x * (10 * t)) by (nonlinear_arith);
    }
}

/// A numeral that is filled up has the width, or its own length where that is more, and
/// nothing but zeros in front of the digits.
pub proof fn lemma_zero_padded_len(n: nat, width: nat, i: int)
    ensures
        ({
            let s = zero_padded(n, width);
            let digits = decimal(n);
            &&& s.len() >= width && s.len() >= digits.len()
            &&& s.len() == width || s.len() == digits.len()
            &&& s.skip(s.len() - digits.len()) == digits
            &&& 0 <= i < s.len() - digits.len() ==> s[i] == '0'
        }),
{
    let s = zero_padded(n, width);
    assert(s.skip(s.len() - decimal(n).len()) =~= decimal(n));
}

/// A text spells a number exactly if it is made of digits, at least one, with a plus sign in
/// front or not, and its value is not too large. It then spells that value.
pub proof fn lemma_parse_tells_numbers(digits: Seq<char>, max: nat, i: int)
    ensures
        digits.len() > 0 && all_digits(digits) && digits_value(digits) <= max ==> parsed_number(
            digits,
            max,
        ) == Some(digits_value(digits)) && parsed_number(seq!['+'] + digits, max) == Some(
            digits_value(digits),
        ),
        digits_value(digits) > max && all_digits(digits) ==> parsed_number(digits, max) is None
            && parsed_number(seq!['+'] + digits, max) is None,
        0 <= i < digits.len() && !('0' <= digits[i] <= '9') && !(i == 0 && digits[0] == '+')
            ==> parsed_number(digits, max) is None,
        parsed_number(Seq::<char>::empty(), max) is None,
        parsed_number(seq!['+'], max) is None,
{
    assert((seq!['+'] + digits).skip(1) =~= digits);
    assert(seq!['+'].skip(1) =~= Seq::<char>::empty());
    if digits.len() > 0 && all_digits(digits) {
        assert(is_digit(digits[0]));
    }
    if 0 <= i < digits.len() && !('0' <= digits[i] <= '9') && !(i == 0 && digits[0] == '+') {
        if digits[0] == '+' {
            assert(digits.skip(1)[i - 1] == digits[i]);
            assert(!is_digit(digits.skip(1)[i - 1]));
        } else {
            assert(!is_digit(digits[i]));
        }
    }
}

/// Every number that fits is read back from its numeral, and one that does not fit is not.
pub proof fn lemma_parse_reads_back(n: nat)
    ensures
        n <= u64::MAX ==> parsed_u64(decimal(n)) == Some(n as u64),
        n <= usize::MAX ==> parsed_usize(decimal(n)) == Some(n as usize),
        n > u64::MAX ==> parsed_u64(decimal(n)) is None,
        n > usize::MAX ==> parsed_usize(decimal(n)) is None,
{
    lemma_decimal_value(n);
    assert(is_digit(decimal(n)[0]));
}

} // verus!
