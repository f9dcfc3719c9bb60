//! Text forms of numbers: the spec functions that say how a number is spelled,
//! the proofs that the spellings are unambiguous, and the functions that spell.

use vstd::prelude::*;
use vstd::string::{StrSliceExecFns, StringExecFns};

verus! {

/// The character of one digit below sixteen, lower case.
pub open spec fn digit_char(d: int) -> char {
    if d < 10 {
        (48 + d) as char
    } else {
        (87 + d) as char
    }
}

/// `n` in base ten, without leading zeros.
pub open spec fn decimal(n: nat) -> Seq<char>
    decreases n,
{
    if n < 10 {
        seq![digit_char(n as int)]
    } else {
        decimal(n / 10).push(digit_char((n % 10) as int))
    }
}

/// A signed number in base ten: a minus sign before the magnitude of a
/// negative one.
pub open spec fn signed_decimal(n: int) -> Seq<char> {
    if n < 0 {
        seq!['-'] + decimal((-n) as nat)
    } else {
        decimal(n as nat)
    }
}

/// The last `count` base-sixteen digits of `n`, lower case.
pub open spec fn hex_digits(n: nat, count: nat) -> Seq<char>
    decreases count,
{
    if count == 0 {
        Seq::empty()
    } else {
        hex_digits(n / 16, (count - 1) as nat).push(digit_char((n % 16) as int))
    }
}

/// `n` as `0x` and `count` base-sixteen digits, lower case.
pub open spec fn prefixed_hex(n: nat, count: nat) -> Seq<char> {
    seq!['0', 'x'] + hex_digits(n, count)
}

/// `base` to the power `exp`.
pub open spec fn power(base: nat, exp: nat) -> nat
    decreases exp,
{
    if exp == 0 {
        1
    } else {
        base * power(base, (exp - 1) as nat)
    }
}

proof fn lemma_digit_char_injective(a: int, b: int)
    requires
        0 <= a < 16,
        0 <= b < 16,
        digit_char(a) == digit_char(b),
    ensures
        a == b,
{
    assert(digit_char(a) as int == if a < 10 { 48 + a } else { 87 + a });
    assert(digit_char(b) as int == if b < 10 { 48 + b } else { 87 + b });
}

/// A decimal text has at least one character.
pub proof fn lemma_decimal_nonempty(n: nat)
    ensures
        decimal(n).len() > 0,
    decreases n,
{
    if n >= 10 {
        lemma_decimal_nonempty(n / 10);
    }
}

/// Two numbers with the same decimal text are the same number.
pub proof fn lemma_decimal_injective(a: nat, b: nat)
    requires
        decimal(a) == decimal(b),
    ensures
        a == b,
    decreases a,
{
    if a < 10 && b < 10 {
        assert(seq![digit_char(a as int)][0] == seq![digit_char(b as int)][0]);
        lemma_digit_char_injective(a as int, b as int);
    } else if a < 10 {
        lemma_decimal_nonempty(b / 10);
        assert(decimal(b).len() == decimal(b / 10).len() + 1);
        assert(decimal(a).len() == 1);
    } else if b < 10 {
        lemma_decimal_nonempty(a / 10);
        assert(decimal(a).len() == decimal(a / 10).len() + 1);
        assert(decimal(b).len() == 1);
    } else {
        let pa = decimal(a / 10).push(digit_char((a % 10) as int));
        let pb = decimal(b / 10).push(digit_char((b % 10) as int));
        assert(pa.last() == pb.last());
        lemma_digit_char_injective((a % 10) as int, (b % 10) as int);
        assert(pa.drop_last() == decimal(a / 10));
        assert(pb.drop_last() == decimal(b / 10));
        lemma_decimal_injective(a / 10, b / 10);
    }
}

pub proof fn lemma_hex_digits_len(n: nat, count: nat)
    ensures
        hex_digits(n, count).len() == count,
    decreases count,
{
    if count > 0 {
        lemma_hex_digits_len(n / 16, (count - 1) as nat);
    }
}

/// No letter of base-sixteen digits is upper case.
pub proof fn lemma_hex_digits_lower(n: nat, count: nat)
    ensures
        forall|i: int| 0 <= i < count ==> !('A' <= #[trigger] hex_digits(n, count)[i] <= 'Z'),
    decreases count,
{
    if count > 0 {
        let rest = (count - 1) as nat;
        let head = hex_digits(n / 16, rest);
        let d = (n % 16) as int;
        lemma_hex_digits_lower(n / 16, rest);
        lemma_hex_digits_len(n / 16, rest);
        assert(digit_char(d) as int == if d < 10 {
            48 + d
        } else {
            87 + d
        });
        assert forall|i: int| 0 <= i < count implies !('A' <= #[trigger] hex_digits(n, count)[i]
            <= 'Z') by {
            if i < rest {
                assert(hex_digits(n, count)[i] == head[i]);
            }
        }
    }
}

/// Two numbers that fit in `count` digits and have the same digits are the
/// same number.
pub proof fn lemma_hex_digits_injective(a: nat, b: nat, count: nat)
    requires
        a < power(16, count),
        b < power(16, count),
        hex_digits(a, count) == hex_digits(b, count),
    ensures
        a == b,
    decreases count,
{
    if count > 0 {
        let rest = (count - 1) as nat;
        let pa = hex_digits(a / 16, rest).push(digit_char((a % 16) as int));
        let pb = hex_digits(b / 16, rest).push(digit_char((b % 16) as int));
        assert(pa.last() == pb.last());
        lemma_digit_char_injective((a % 16) as int, (b % 16) as int);
        assert(pa.drop_last() == hex_digits(a / 16, rest));
        assert(pb.drop_last() == hex_digits(b / 16, rest));
        assert(a / 16 < power(16, rest));
        assert(b / 16 < power(16, rest));
        lemma_hex_digits_injective(a / 16, b / 16, rest);
    }
}

/// Two numbers that fit in `count` digits and have the same prefixed text are
/// the same number.
pub proof fn lemma_prefixed_hex_injective(a: nat, b: nat, count: nat)
    requires
        a < power(16, count),
        b < power(16, count),
        prefixed_hex(a, count) == prefixed_hex(b, count),
    ensures
        a == b,
{
    assert(prefixed_hex(a, count).skip(2) =~= hex_digits(a, count));
    assert(prefixed_hex(b, count).skip(2) =~= hex_digits(b, count));
    lemma_hex_digits_injective(a, b, count);
}

/// The text of one decimal digit.
fn digit_text(d: u128) -> (r: &'static str)
    requires
        d < 10,
    ensures
        r@ == seq![digit_char(d as int)],
{
    proof {
        reveal_strlit("0");
        reveal_strlit("1");
        reveal_strlit("2");
        reveal_strlit("3");
        reveal_strlit("4");
        reveal_strlit("5");
        reveal_strlit("6");
        reveal_strlit("7");
        reveal_strlit("8");
        reveal_strlit("9");
    }
    match d {
        0 => "0",
        1 => "1",
        2 => "2",
        3 => "3",
        4 => "4",
        5 => "5",
        6 => "6",
        7 => "7",
        8 => "8",
        _ => "9",
    }
}

/// `n` in base ten.
pub fn decimal_text(n: u128) -> (r: String)
    ensures
        r@ == decimal(n as nat),
    decreases n,
{
    if n < 10 {
        let d = digit_text(n);
        d.to_owned()
    } else {
        let mut head = decimal_text(n / 10);
        head.append(digit_text(n % 10));
        proof {
            assert(head@ == decimal((n / 10) as nat) + seq![digit_char((n % 10) as int)]);
            assert(head@ == decimal(n as nat));
        }
        head
    }
}

/// [`signed_decimal`].
pub fn signed_decimal_text(n: i128) -> (r: String)
    ensures
        r@ == signed_decimal(n as int),
{
    if n >= 0 {
        decimal_text(n as u128)
    } else {
        let magnitude: u128 = (-(n + 1)) as u128 + 1;
        let digits = decimal_text(magnitude);
        proof {
            reveal_strlit("-");
            assert("-"@ =~= seq!['-']);
        }
        joined("-", digits.as_str())
    }
}

/// Whether two texts are the same.
pub fn same_text(a: &str, b: &str) -> (r: bool)
    ensures
        r == (a@ == b@),
{
    a.to_owned() == b.to_owned()
}

/// Whether a text begins with `tx:`.
pub open spec fn has_tx_prefix(s: Seq<char>) -> bool {
    s.len() >= 3 && s[0] == 't' && s[1] == 'x' && s[2] == ':'
}

pub fn starts_with_tx(s: &str) -> (r: bool)
    ensures
        r == has_tx_prefix(s@),
{
    s.unicode_len() >= 3 && s.get_char(0) == 't' && s.get_char(1) == 'x' && s.get_char(2) == ':'
}

/// Two texts one after the other.
pub fn joined(a: &str, b: &str) -> (r: String)
    ensures
        r@ == a@ + b@,
{
    let mut r = a.to_owned();
    r.append(b);
    r
}

/// Whether a character is a decimal digit.
pub open spec fn is_digit(c: char) -> bool {
    '0' <= c <= '9'
}

/// The number that decimal digits spell.
pub open spec fn digits_value(s: Seq<char>) -> nat
    decreases s.len(),
{
    if s.len() == 0 {
        0
    } else {
        digits_value(s.drop_last()) * 10 + (s.last() as int - 48) as nat
    }
}

/// What may follow a plus sign, or stand alone.
pub open spec fn unsigned_part(s: Seq<char>) -> Seq<char> {
    if s.len() > 0 && s[0] == '+' {
        s.skip(1)
    } else {
        s
    }
}

/// The number that a text spells: decimal digits, at least one, after an optional
/// plus sign.
pub open spec fn parsed_u64(s: Seq<char>) -> Option<u64> {
    let digits = unsigned_part(s);
    if digits.len() == 0 || (exists|i: int| 0 <= i < digits.len() && !is_digit(#[trigger] digits[i]))
        || digits_value(digits) > u64::MAX {
        None
    } else {
        Some(digits_value(digits) as u64)
    }
}

/// A prefix of digits spells no more than the whole.
proof fn lemma_digits_value_prefix(s: Seq<char>, n: int)
    requires
        0 <= n <= s.len(),
    ensures
        digits_value(s.take(n)) <= digits_value(s),
    decreases s.len() - n,
{
    if n < s.len() {
        lemma_digits_value_prefix(s, n + 1);
        assert(s.take(n + 1).drop_last() =~= s.take(n));
    } else {
        assert(s.take(n) =~= s);
    }
}

/// A decimal text is digits that spell its number.
proof fn lemma_decimal_value(n: nat)
    ensures
        decimal(n).len() > 0,
        forall|i: int| 0 <= i < decimal(n).len() ==> is_digit(#[trigger] decimal(n)[i]),
        digits_value(decimal(n)) == n,
    decreases n,
{
    let d = (n % 10) as int;
    assert(digit_char(d) as int == 48 + d);
    if n < 10 {
        assert(decimal(n).drop_last() =~= Seq::<char>::empty());
        assert(decimal(n).last() == digit_char(n as int));
        assert(digits_value(Seq::<char>::empty()) == 0);
    } else {
        lemma_decimal_value(n / 10);
        let head = decimal(n / 10);
        assert(decimal(n) == head.push(digit_char(d)));
        assert(decimal(n).drop_last() =~= head);
        assert forall|i: int| 0 <= i < decimal(n).len() implies is_digit(
            #[trigger] decimal(n)[i],
        ) by {
            if i < head.len() {
                assert(decimal(n)[i] == head[i]);
            }
        }
    }
}

/// The decimal text of a number spells that number.
pub proof fn lemma_decimal_reads_back(n: u64)
    ensures
        parsed_u64(decimal(n as nat)) == Some(n),
{
    lemma_decimal_value(n as nat);
    let s = decimal(n as nat);
    assert(is_digit(s[0]));
    assert(unsigned_part(s) == s);
}

/// [`parsed_u64`].
pub fn parse_u64(s: &str) -> (r: Option<u64>)
    ensures
        r == parsed_u64(s@),
{
    let len: usize = s.unicode_len();
    let start: usize = if len > 0 && s.get_char(0) == '+' {
        1
    } else {
        0
    };
    let ghost digits = unsigned_part(s@);
    assert(digits =~= s@.skip(start as int));
    if start == len {
        return None;
    }
    let mut value: u64 = 0;
    let mut k: usize = start;
    while k < len
        invariant
            start <= k <= len,
            len == s@.len(),
            start == 0 || start == 1,
            digits == s@.skip(start as int),
            digits == unsigned_part(s@),
            digits.len() > 0,
            forall|i: int| 0 <= i < k - start ==> is_digit(#[trigger] digits[i]),
            value == digits_value(digits.take(k - start)),
        decreases len - k,
    {
        let c = s.get_char(k);
        assert(digits[k - start] == c);
        if !(c >= '0' && c <= '9') {
            return None;
        }
        let d: u64 = (c as u32 - 48) as u64;
        proof {
            let next = digits.take(k - start + 1);
            assert(next.drop_last() =~= digits.take(k - start));
            assert(next.last() == c);
            lemma_digits_value_prefix(digits, k - start + 1);
        }
        if value > 1844674407370955161 || (value == 1844674407370955161 && d > 5) {
            return None;
        }
        value = value * 10 + d;
        k += 1;
    }
    assert(digits.take(k - start) =~= digits);
    Some(value)
}

/// Whether a character has the Unicode property White_Space.
pub open spec fn is_white(c: char) -> bool {
    let n = c as int;
    9 <= n <= 13 || n == 0x20 || n == 0x85 || n == 0xa0 || n == 0x1680 || 0x2000 <= n <= 0x200a
        || n == 0x2028 || n == 0x2029 || n == 0x202f || n == 0x205f || n == 0x3000
}

fn white(c: char) -> (r: bool)
    ensures
        r == is_white(c),
{
    let n: u32 = c as u32;
    (9 <= n && n <= 13) || n == 0x20 || n == 0x85 || n == 0xa0 || n == 0x1680 || (0x2000 <= n && n
        <= 0x200a) || n == 0x2028 || n == 0x2029 || n == 0x202f || n == 0x205f || n == 0x3000
}

/// How many white characters a text begins with.
pub open spec fn leading_white(s: Seq<char>) -> nat
    decreases s.len(),
{
    if s.len() == 0 || !is_white(s[0]) {
        0
    } else {
        1 + leading_white(s.skip(1))
    }
}

/// A text without the white characters at its end.
pub open spec fn trimmed_end(s: Seq<char>) -> Seq<char>
    decreases s.len(),
{
    if s.len() == 0 || !is_white(s.last()) {
        s
    } else {
        trimmed_end(s.drop_last())
    }
}

/// A text without the white characters at its beginning and its end.
pub open spec fn trimmed(s: Seq<char>) -> Seq<char> {
    trimmed_end(s.skip(leading_white(s) as int))
}

proof fn lemma_leading_white(s: Seq<char>, k: int)
    requires
        0 <= k <= s.len(),
        forall|i: int| 0 <= i < k ==> is_white(#[trigger] s[i]),
        k == s.len() || !is_white(s[k]),
    ensures
        leading_white(s) == k,
    decreases k,
{
    if k > 0 {
        let t = s.skip(1);
        assert forall|i: int| 0 <= i < k - 1 implies is_white(#[trigger] t[i]) by {
            assert(is_white(s[i + 1]));
        }
        assert(is_white(s[0]));
        if k < s.len() {
            assert(t[k - 1] == s[k]);
        }
        lemma_leading_white(t, k - 1);
    }
}

/// [`trimmed`].
pub fn trim(s: &str) -> (r: &str)
    ensures
        r@ == trimmed(s@),
{
    let len: usize = s.unicode_len();
    let mut start: usize = 0;
    while start < len && white(s.get_char(start))
        invariant
            start <= len == s@.len(),
            forall|i: int| 0 <= i < start ==> is_white(#[trigger] s@[i]),
        decreases len - start,
    {
        start += 1;
    }
    proof {
        lemma_leading_white(s@, start as int);
    }
    let ghost tail = s@.skip(start as int);
    let mut end: usize = len;
    assert(s@.subrange(start as int, end as int) =~= tail);
    while start < end && white(s.get_char(end - 1))
        invariant
            start <= end <= len == s@.len(),
            tail == s@.skip(start as int),
            trimmed_end(tail) == trimmed_end(s@.subrange(start as int, end as int)),
        decreases end,
    {
        let ghost now = s@.subrange(start as int, end as int);
        assert(now.last() == s@[end - 1]);
        assert(now.drop_last() =~= s@.subrange(start as int, end - 1));
        end -= 1;
    }
    proof {
        let now = s@.subrange(start as int, end as int);
        if start < end {
            assert(now.last() == s@[end - 1]);
        }
        assert(trimmed_end(now) == now);
    }
    s.substring_char(start, end)
}

/// The text of `{:?}` of a text.
pub uninterp spec fn quoted_text(s: Seq<char>) -> Seq<char>;

/// `format!("{:?}")` of a `str`: the text in quotes, with what needs it escaped.
/// It depends on the text alone; it is given a name.
#[verifier::external_body]
pub(crate) fn quoted(s: &str) -> (r: String)
    ensures
        r@ == quoted_text(s@),
{
    format!("{:?}", s)
}

/// The decimal text of a number is its digits, without a zero in front.
pub proof fn decimal_texts_are_digits(n: nat)
    ensures
        digits_value(decimal(n)) == n,
        decimal(n).len() > 0,
        forall|i: int| 0 <= i < decimal(n).len() ==> '0' <= #[trigger] decimal(n)[i] <= '9',
        n > 0 ==> decimal(n)[0] != '0',
        n < 10 ==> decimal(n).len() == 1,
    decreases n,
{
    lemma_decimal_value(n);
    if n >= 10 {
        decimal_texts_are_digits(n / 10);
        assert(decimal(n)[0] == decimal(n / 10)[0]);
    }
    assert forall|i: int| 0 <= i < decimal(n).len() implies '0' <= #[trigger] decimal(n)[i]
        <= '9' by {
        assert(is_digit(decimal(n)[i]));
    }
}

/// A signed number is written as its magnitude, behind a minus sign if it is negative.
pub proof fn signed_texts_carry_the_sign(n: int)
    ensures
        n >= 0 ==> signed_decimal(n) == decimal(n as nat),
        n < 0 ==> signed_decimal(n) == "-"@ + decimal((-n) as nat),
{
    reveal_strlit("-");
    if n < 0 {
        assert(signed_decimal(n) =~= "-"@ + decimal((-n) as nat));
    }
}

proof fn lemma_leading_white_is_white(s: Seq<char>)
    ensures
        leading_white(s) <= s.len(),
        forall|i: int| 0 <= i < leading_white(s) ==> is_white(#[trigger] s[i]),
        leading_white(s) < s.len() ==> !is_white(s[leading_white(s) as int]),
    decreases s.len(),
{
    if s.len() > 0 && is_white(s[0]) {
        let t = s.skip(1);
        lemma_leading_white_is_white(t);
        assert forall|i: int| 0 <= i < leading_white(s) implies is_white(#[trigger] s[i]) by {
            if i > 0 {
                assert(is_white(t[i - 1]));
            }
        }
        if leading_white(s) < s.len() {
            assert(t[leading_white(t) as int] == s[leading_white(s) as int]);
        }
    }
}

proof fn lemma_trimmed_end(s: Seq<char>)
    ensures
        trimmed_end(s).len() <= s.len(),
        trimmed_end(s) == s.take(trimmed_end(s).len() as int),
        forall|i: int| trimmed_end(s).len() <= i < s.len() ==> is_white(#[trigger] s[i]),
        trimmed_end(s).len() > 0 ==> !is_white(trimmed_end(s).last()),
    decreases s.len(),
{
    if s.len() > 0 && is_white(s.last()) {
        let init = s.drop_last();
        lemma_trimmed_end(init);
        assert(trimmed_end(s) =~= s.take(trimmed_end(s).len() as int));
        assert forall|i: int| trimmed_end(s).len() <= i < s.len() implies is_white(
            #[trigger] s[i],
        ) by {
            if i < init.len() {
                assert(is_white(init[i]));
            }
        }
    } else {
        assert(s.take(s.len() as int) =~= s);
    }
}

/// Trimming takes the white characters off both ends and nothing else: what is left
/// is what stood between them, and neither begins nor ends with one.
pub proof fn trimming_takes_white_off_the_ends(s: Seq<char>)
    ensures
        ({
            let t = trimmed(s);
            let from = leading_white(s) as int;
            &&& from + t.len() <= s.len()
            &&& t == s.subrange(from, from + t.len())
            &&& forall|i: int| 0 <= i < from ==> is_white(#[trigger] s[i])
            &&& forall|i: int| from + t.len() <= i < s.len() ==> is_white(#[trigger] s[i])
            &&& t.len() > 0 ==> !is_white(t[0]) && !is_white(t.last())
        }),
{
    let from = leading_white(s) as int;
    let rest = s.skip(from);
    let t = trimmed(s);
    lemma_leading_white_is_white(s);
    lemma_trimmed_end(rest);
    assert(t =~= s.subrange(from, from + t.len()));
    assert forall|i: int| from + t.len() <= i < s.len() implies is_white(#[trigger] s[i]) by {
        assert(is_white(rest[i - from]));
    }
    if t.len() > 0 {
        assert(t[0] == s[from]);
    }
}

/// Whether a text holds another somewhere.
pub open spec fn mentions(s: Seq<char>, part: Seq<char>) -> bool {
    exists|i: int|
        0 <= i <= s.len() - part.len() && #[trigger] s.subrange(i, i + part.len()) == part
}

pub(crate) proof fn lemma_mentions(s: Seq<char>, head: Seq<char>, part: Seq<char>, tail: Seq<char>)
    requires
        s == head + part + tail,
    ensures
        mentions(s, part),
{
    let i = head.len() as int;
    assert(s.subrange(i, i + part.len()) =~= part);
}

} // verus!
