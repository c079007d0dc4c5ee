//! Integers in texts.

use vstd::prelude::*;
use vstd::string::{StrSliceExecFns, StringExecFns};
use crate::text::skipped;

verus! {

/// Unicode white space.
pub open spec fn is_white(c: char) -> bool {
    ||| 0x9 <= c as int <= 0xd
    ||| c as int == 0x20
    ||| c as int == 0x85
    ||| c as int == 0xa0
    ||| c as int == 0x1680
    ||| 0x2000 <= c as int <= 0x200a
    ||| c as int == 0x2028
    ||| c as int == 0x2029
    ||| c as int == 0x202f
    ||| c as int == 0x205f
    ||| c as int == 0x3000
}

fn white(c: char) -> (yes: bool)
    ensures
        yes == is_white(c),
{
    let code: u32 = c as u32;
    (0x9 <= code && code <= 0xd) || code == 0x20 || code == 0x85 || code == 0xa0 || code == 0x1680
        || (0x2000 <= code && code <= 0x200a) || code == 0x2028 || code == 0x2029 || code == 0x202f
        || code == 0x205f || code == 0x3000
}

/// A text without the white space at its start.
pub open spec fn trimmed_start(text: Seq<char>) -> Seq<char>
    decreases text.len(),
{
    if text.len() > 0 && is_white(text[0]) {
        trimmed_start(text.skip(1))
    } else {
        text
    }
}

/// A text without the white space at its end.
pub open spec fn trimmed_end(text: Seq<char>) -> Seq<char>
    decreases text.len(),
{
    if text.len() > 0 && is_white(text.last()) {
        trimmed_end(text.drop_last())
    } else {
        text
    }
}

/// A text without the white space around it.
pub open spec fn trimmed(text: Seq<char>) -> Seq<char> {
    trimmed_end(trimmed_start(text))
}

/// A text without the white space around it.
pub fn trim(text: &str) -> (inner: &str)
    ensures
        inner@ == trimmed(text@),
{
    let n: usize = text.unicode_len();
    let mut from: usize = 0;
    assert(text@.skip(0) =~= text@);
    while from < n && white(text.get_char(from))
        invariant
            from <= n,
            n == text@.len(),
            trimmed_start(text@.skip(from as int)) == trimmed_start(text@),
        decreases n - from,
    {
        assert(text@.skip(from as int).skip(1) =~= text@.skip(from + 1));
        from = from + 1;
    }
    let mut to: usize = n;
    assert(text@.subrange(from as int, n as int) =~= text@.skip(from as int));
    while to > from && white(text.get_char(to - 1))
        invariant
            from <= to <= n,
            n == text@.len(),
            trimmed_end(text@.subrange(from as int, to as int)) == trimmed(text@),
        decreases to,
    {
        assert(text@.subrange(from as int, to as int).drop_last() =~= text@.subrange(
            from as int,
            to - 1,
        ));
        to = to - 1;
    }
    text.substring_char(from, to)
}

/// The value of a digit: 0 to 9, then the letters from 10 on.
pub open spec fn digit_value(c: char) -> Option<int> {
    if '0' <= c <= '9' {
        Some(c as int - '0' as int)
    } else if 'a' <= c <= 'z' {
        Some(c as int - 'a' as int + 10)
    } else if 'A' <= c <= 'Z' {
        Some(c as int - 'A' as int + 10)
    } else {
        None
    }
}

/// A digit of numbers to the base `radix`.
pub open spec fn is_digit(c: char, radix: int) -> bool {
    digit_value(c) matches Some(d) && d < radix
}

/// A text of digits.
pub open spec fn all_digits(text: Seq<char>, radix: int) -> bool {
    forall|i: int| 0 <= i < text.len() ==> is_digit(#[trigger] text[i], radix)
}

/// The number that a text of digits writes.
pub open spec fn number(text: Seq<char>, radix: int) -> int
    decreases text.len(),
{
    if text.len() == 0 {
        0
    } else {
        number(text.drop_last(), radix) * radix + digit_value(text.last())->0
    }
}

/// The 64-bit number that a text of digits, with or without a sign before it, writes.
pub open spec fn signed_number(text: Seq<char>, radix: int) -> Option<int> {
    let negative = text.len() > 0 && text[0] == '-';
    let body = if text.len() > 0 && (text[0] == '-' || text[0] == '+') {
        text.skip(1)
    } else {
        text
    };
    let value = if negative {
        -number(body, radix)
    } else {
        number(body, radix)
    };
    if body.len() > 0 && all_digits(body, radix) && i64::MIN <= value <= i64::MAX {
        Some(value)
    } else {
        None
    }
}

proof fn lemma_number_grows(text: Seq<char>, n: int, radix: int)
    requires
        0 <= n <= text.len(),
        radix >= 1,
        all_digits(text, radix),
    ensures
        0 <= number(text.take(n), radix) <= number(text, radix),
    decreases text.len(),
{
    if n < text.len() {
        let less = text.drop_last();
        assert(less.take(n) =~= text.take(n));
        assert(all_digits(less, radix)) by {
            assert forall|i: int| 0 <= i < less.len() implies is_digit(#[trigger] less[i], radix) by {
                assert(is_digit(text[i], radix));
            }
        }
        lemma_number_grows(less, n, radix);
        assert(is_digit(text[text.len() - 1], radix));
        let value = number(less, radix);
        assert(value * radix >= value) by (nonlinear_arith)
            requires
                value >= 0,
                radix >= 1,
        ;
    } else if n > 0 {
        let less = text.drop_last();
        assert(text.take(n) =~= text);
        assert(all_digits(less, radix)) by {
            assert forall|i: int| 0 <= i < less.len() implies is_digit(#[trigger] less[i], radix) by {
                assert(is_digit(text[i], radix));
            }
        }
        lemma_number_grows(less, less.len() as int, radix);
        assert(less.take(less.len() as int) =~= less);
        assert(is_digit(text[text.len() - 1], radix));
        let value = number(less, radix);
        assert(value * radix >= 0) by (nonlinear_arith)
            requires
                value >= 0,
                radix >= 1,
        ;
    }
}

fn digit(c: char) -> (value: u32)
    ensures
        value == (match digit_value(c) {
            Some(d) => d,
            None => 99,
        }),
{
    if '0' <= c && c <= '9' {
        c as u32 - 48
    } else if 'a' <= c && c <= 'z' {
        c as u32 - 97 + 10
    } else if 'A' <= c && c <= 'Z' {
        c as u32 - 65 + 10
    } else {
        99
    }
}

/// Read a 64-bit number to the base `radix`.
pub fn parse_signed(text: &str, radix: u32) -> (value: Option<i64>)
    requires
        2 <= radix <= 36,
    ensures
        value is Some == signed_number(text@, radix as int) is Some,
        value matches Some(v) ==> signed_number(text@, radix as int) == Some(v as int),
{
    let n: usize = text.unicode_len();
    let negative: bool = n > 0 && text.get_char(0) == '-';
    let start: usize = if n > 0 && (negative || text.get_char(0) == '+') {
        1
    } else {
        0
    };
    let ghost body = text@.skip(start as int);
    assert(text@.skip(0) =~= text@);
    if start == n {
        return None;
    }
    let limit: u128 = if negative {
        0x8000_0000_0000_0000
    } else {
        0x7fff_ffff_ffff_ffff
    };
    let mut total: u128 = 0;
    let mut i: usize = start;
    assert(body.take(0) =~= Seq::<char>::empty());
    while i < n
        invariant
            2 <= radix <= 36,
            n == text@.len(),
            start <= i <= n,
            body == text@.skip(start as int),
            start == 0 ==> body == text@,
            limit <= 0x8000_0000_0000_0000,
            negative == (text@.len() > 0 && text@[0] == '-'),
            limit == (if negative {
                0x8000_0000_0000_0000int
            } else {
                0x7fff_ffff_ffff_ffff
            }),
            start == (if text@.len() > 0 && (text@[0] == '-' || text@[0] == '+') {
                1int
            } else {
                0
            }),
            total <= limit,
            all_digits(body.take(i - start), radix as int),
            total == number(body.take(i - start), radix as int),
        decreases n - i,
    {
        let c: char = text.get_char(i);
        let d: u32 = digit(c);
        let ghost now = body.take(i + 1 - start);
        proof {
            assert(now.drop_last() =~= body.take(i - start));
            assert(now.last() == c);
            assert(body[i - start] == c);
        }
        if d >= radix {
            proof {
                assert(!is_digit(body[i - start], radix as int));
            }
            return None;
        }
        proof {
            assert(total * radix <= 0x8000_0000_0000_0000 * 36) by (nonlinear_arith)
                requires
                    total <= 0x8000_0000_0000_0000,
                    radix <= 36,
            ;
            assert forall|j: int| 0 <= j < now.len() implies is_digit(
                #[trigger] now[j],
                radix as int,
            ) by {
                if j < i - start {
                    assert(body.take(i - start)[j] == now[j]);
                }
            }
        }
        total = total * radix as u128 + d as u128;
        assert(total == number(now, radix as int));
        if total > limit {
            proof {
                if all_digits(body, radix as int) {
                    lemma_number_grows(body, i + 1 - start, radix as int);
                }
            }
            return None;
        }
        i = i + 1;
    }
    assert(body.take(n - start) =~= body);
    if negative {
        if total == 0x8000_0000_0000_0000 {
            Some(i64::MIN)
        } else {
            Some(-(total as i64))
        }
    } else {
        Some(total as i64)
    }
}

/// How an integer text, trimmed, is read: whether it is negative, the base, and the digits that
/// are left.
pub open spec fn integer_parts(text: Seq<char>) -> (bool, int, Seq<char>) {
    let negative = text.len() > 0 && text[0] == '-';
    let digits = if text.len() > 0 && (text[0] == '-' || text[0] == '+') {
        text.skip(1)
    } else {
        text
    };
    if digits.len() >= 2 && digits[0] == '0' && (digits[1] == 'x' || digits[1] == 'X') {
        (negative, 16, digits.skip(2))
    } else if digits.len() > 1 && digits[0] == '0' {
        (negative, 8, digits)
    } else {
        (negative, 10, digits)
    }
}

/// How an integer text fails or succeeds.
pub enum IntegerText {
    /// Nothing but white space.
    Blank,
    /// These are not the digits of a 64-bit number.
    BadDigits(String),
    /// A number outside the 32-bit range.
    OutOfRange,
    /// A 32-bit number.
    Value(i32),
}

/// What [`read_integer`] makes of a text.
pub open spec fn reads_as(text: Seq<char>, result: IntegerText) -> bool {
    let inner = trimmed(text);
    let (negative, radix, digits) = integer_parts(inner);
    if inner.len() == 0 {
        result is Blank
    } else {
        match signed_number(digits, radix) {
            None => result matches IntegerText::BadDigits(bad) && bad@ == digits,
            Some(magnitude) => {
                let value = if negative {
                    -magnitude
                } else {
                    magnitude
                };
                if i32::MIN <= value <= i32::MAX {
                    result matches IntegerText::Value(v) && v == value
                } else {
                    result is OutOfRange
                }
            },
        }
    }
}

/// Read a 32-bit integer: white space around it is skipped, `0x` starts a hexadecimal number and
/// another leading `0` an octal one.
pub fn read_integer(text: &str) -> (result: IntegerText)
    ensures
        reads_as(text@, result),
{
    let inner = trim(text);
    let n: usize = inner.unicode_len();
    if n == 0 {
        return IntegerText::Blank;
    }
    let first: char = inner.get_char(0);
    let negative: bool = first == '-';
    let digits = if negative || first == '+' {
        skipped(inner, 1)
    } else {
        inner
    };
    let len: usize = digits.unicode_len();
    let leading_zero: bool = len > 1 && digits.get_char(0) == '0';
    let hex: bool = leading_zero && (digits.get_char(1) == 'x' || digits.get_char(1) == 'X');
    let body = if hex {
        skipped(digits, 2)
    } else {
        digits
    };
    let radix: u32 = if hex {
        16
    } else if leading_zero {
        8
    } else {
        10
    };
    assert(integer_parts(inner@).1 == radix && integer_parts(inner@).2 == body@);
    match parse_signed(body, radix) {
        None => IntegerText::BadDigits(body.to_owned()),
        Some(magnitude) => {
            let value: i128 = if negative {
                -(magnitude as i128)
            } else {
                magnitude as i128
            };
            if -0x8000_0000 <= value && value <= 0x7fff_ffff {
                IntegerText::Value(value as i32)
            } else {
                IntegerText::OutOfRange
            }
        },
    }
}

/// The digits of numbers to the bases up to 16.
pub const DIGITS: &'static str = "0123456789abcdef";

/// A number to a base up to 16, without leading zeros.
pub open spec fn written(n: nat, radix: nat) -> Seq<char>
    decreases n,
{
    if radix < 2 {
        Seq::empty()
    } else if n < radix {
        seq![DIGITS@[n as int]]
    } else {
        proof {
            vstd::arithmetic::div_mod::lemma_div_decreases(n as int, radix as int);
        }
        written(n / radix, radix).push(DIGITS@[(n % radix) as int])
    }
}

/// A number to a base up to 16, without leading zeros.
pub fn write_number(n: u32, radix: u32) -> (text: String)
    requires
        2 <= radix <= 16,
    ensures
        text@ == written(n as nat, radix as nat),
    decreases n,
{
    proof {
        reveal_strlit("0123456789abcdef");
        assert(n as int / radix as int <= n as int / 2) by (nonlinear_arith)
            requires
                radix >= 2,
        ;
    }
    let last: usize = (n % radix) as usize;
    let digit = DIGITS.substring_char(last, last + 1);
    assert(digit@ =~= seq![DIGITS@[last as int]]);
    if n < radix {
        digit.to_owned()
    } else {
        let mut text: String = write_number(n / radix, radix);
        text.append(digit);
        assert(text@ =~= written(n as nat / radix as nat, radix as nat).push(DIGITS@[last as int]));
        text
    }
}

/// Nothing but white space.
pub open spec fn blank(text: Seq<char>) -> bool {
    forall|i: int| 0 <= i < text.len() ==> is_white(#[trigger] text[i])
}

/// Trimming takes off what white space there is at the start and at the end, and nothing else: what
/// is left neither starts nor ends with white space.
pub proof fn law_trimmed(text: Seq<char>) -> (around: (Seq<char>, Seq<char>))
    ensures
        text == around.0 + trimmed(text) + around.1,
        blank(around.0),
        blank(around.1),
        trimmed(text).len() > 0 ==> !is_white(trimmed(text)[0]) && !is_white(trimmed(text).last()),
        (trimmed(text).len() == 0) == blank(text),
{
    let middle = trimmed_start(text);
    let a = lemma_trimmed_start(text);
    let b = lemma_trimmed_end(middle);
    let inner = trimmed_end(middle);
    assert(text =~= a + inner + b);
    if inner.len() > 0 {
        assert(middle[0] == inner[0]);
        assert(text[a.len() as int] == inner[0]);
    } else {
        assert forall|i: int| 0 <= i < text.len() implies is_white(#[trigger] text[i]) by {
            if i < a.len() {
                assert(text[i] == a[i]);
            } else {
                assert(text[i] == b[i - a.len()]);
            }
        }
    }
    (a, b)
}

proof fn lemma_trimmed_start(text: Seq<char>) -> (head: Seq<char>)
    ensures
        text == head + trimmed_start(text),
        blank(head),
        trimmed_start(text).len() > 0 ==> !is_white(trimmed_start(text)[0]),
    decreases text.len(),
{
    if text.len() > 0 && is_white(text[0]) {
        let rest = lemma_trimmed_start(text.skip(1));
        let head = seq![text[0]] + rest;
        assert(text =~= seq![text[0]] + text.skip(1));
        assert(seq![text[0]] + (rest + trimmed_start(text)) =~= head + trimmed_start(text));
        head
    } else {
        assert(text =~= Seq::<char>::empty() + text);
        Seq::empty()
    }
}

proof fn lemma_trimmed_end(text: Seq<char>) -> (end: Seq<char>)
    ensures
        text == trimmed_end(text) + end,
        blank(end),
        trimmed_end(text).len() > 0 ==> !is_white(trimmed_end(text).last()),
    decreases text.len(),
{
    if text.len() > 0 && is_white(text.last()) {
        let rest = lemma_trimmed_end(text.drop_last());
        let end = rest.push(text.last());
        assert(text =~= text.drop_last().push(text.last()));
        assert((trimmed_end(text) + rest).push(text.last()) =~= trimmed_end(text) + end);
        end
    } else {
        assert(text =~= text + Seq::<char>::empty());
        Seq::empty()
    }
}

/// White space around a text that neither starts nor ends with any is trimmed.
proof fn lemma_trim_around(a: Seq<char>, inner: Seq<char>, b: Seq<char>)
    requires
        blank(a),
        blank(b),
        inner.len() > 0,
        !is_white(inner[0]),
        !is_white(inner.last()),
    ensures
        trimmed(a + inner + b) == inner,
{
    let text = a + inner + b;
    let (c, d) = law_trimmed(text);
    let found = trimmed(text);
    assert(text[a.len() as int] == inner[0]);
    if found.len() == 0 {
        assert(is_white(text[a.len() as int]));
    }
    assert(found.len() > 0);
    assert(text[c.len() as int] == found[0]);
    if c.len() < a.len() {
        assert(text[c.len() as int] == a[c.len() as int]);
    }
    if c.len() > a.len() {
        assert(text[a.len() as int] == c[a.len() as int]);
    }
    let last = a.len() + inner.len() - 1;
    let other = c.len() + found.len() - 1;
    assert(text[last] == inner.last());
    assert(text[other] == found.last());
    if other > last {
        assert(text[other] == b[other - last - 1]);
    }
    if other < last {
        assert(text[last] == d[last - other - 1]);
    }
    assert(text.subrange(a.len() as int, last + 1) =~= inner);
    assert(text.subrange(c.len() as int, other + 1) =~= found);
}

/// The digits: 0 to 9 for themselves, the letters of either case from 10 on, and no other
/// characters.
pub proof fn law_digits(c: char)
    ensures
        48 <= c as int <= 57 ==> digit_value(c) == Some(c as int - 48),
        97 <= c as int <= 122 ==> digit_value(c) == Some(c as int - 87),
        65 <= c as int <= 90 ==> digit_value(c) == Some(c as int - 55),
        !(48 <= c as int <= 57 || 97 <= c as int <= 122 || 65 <= c as int <= 90) ==> digit_value(c)
            is None,
{
}

/// A digit counts `radix` times as much as the same digit one place further right.
pub proof fn law_place_values(a: Seq<char>, b: Seq<char>, radix: int)
    requires
        radix >= 1,
    ensures
        number(a + b, radix) == number(a, radix) * vstd::arithmetic::power::pow(radix, b.len())
            + number(b, radix),
        b.len() == 1 ==> number(b, radix) == digit_value(b[0])->0,
    decreases b.len(),
{
    reveal_with_fuel(number, 2);
    if b.len() == 0 {
        assert(a + b =~= a);
        vstd::arithmetic::power::lemma_pow0(radix);
    } else {
        let less = b.drop_last();
        law_place_values(a, less, radix);
        assert((a + b).drop_last() =~= a + less);
        assert((a + b).last() == b.last());
        let p = vstd::arithmetic::power::pow(radix, less.len());
        let x = number(a, radix);
        let y = number(less, radix);
        reveal(vstd::arithmetic::power::pow);
        assert(vstd::arithmetic::power::pow(radix, b.len()) == radix * p);
        assert((x * p + y) * radix == x * (radix * p) + y * radix) by (nonlinear_arith);
        if b.len() == 1 {
            assert(less =~= Seq::<char>::empty());
        }
    }
}

/// A number that is written to a base is read back as itself; it is written in digits of the base,
/// letters among them in lower case, without leading zeros.
pub proof fn law_written_reads_back(n: nat, radix: nat)
    requires
        2 <= radix <= 16,
    ensures
        number(written(n, radix), radix as int) == n,
        all_digits(written(n, radix), radix as int),
        forall|i: int|
            0 <= i < written(n, radix).len() ==> !('A' <= #[trigger] written(n, radix)[i] <= 'Z'),
        written(n, radix).len() > 0,
        n > 0 ==> written(n, radix)[0] != '0',
        n == 0 ==> written(n, radix) == seq!['0'],
    decreases n,
{
    reveal_strlit("0123456789abcdef");
    reveal_with_fuel(number, 2);
    let text = written(n, radix);
    if n < radix {
        assert(text.drop_last() =~= Seq::<char>::empty());
        assert(number(text.drop_last(), radix as int) == 0);
    } else {
        vstd::arithmetic::div_mod::lemma_div_decreases(n as int, radix as int);
        vstd::arithmetic::div_mod::lemma_fundamental_div_mod(n as int, radix as int);
        assert(n / radix > 0) by (nonlinear_arith)
            requires
                n >= radix,
                radix >= 2,
        ;
        law_written_reads_back(n / radix, radix);
        let less = written(n / radix, radix);
        assert(text.drop_last() =~= less);
        assert((n / radix) * radix == radix * (n / radix)) by (nonlinear_arith);
        assert forall|i: int| 0 <= i < text.len() implies is_digit(
            #[trigger] text[i],
            radix as int,
        ) by {
            if i < less.len() {
                assert(is_digit(less[i], radix as int));
            }
        }
        assert forall|i: int| 0 <= i < text.len() implies !('A' <= #[trigger] text[i] <= 'Z') by {
            if i < less.len() {
                assert(text[i] == less[i]);
            }
        }
        assert(text[0] == less[0]);
    }
}

/// The number of a text of digits with a sign, or without one, before it; beyond 64 bits, or with
/// anything else in it, there is none.
pub proof fn law_signed_number(digits: Seq<char>, radix: int)
    requires
        2 <= radix <= 36,
    ensures
        digits.len() > 0 && all_digits(digits, radix) ==> {
            let n = number(digits, radix);
            &&& n <= i64::MAX ==> signed_number(digits, radix) == Some(n) && signed_number(
                seq!['+'] + digits,
                radix,
            ) == Some(n)
            &&& n > i64::MAX ==> signed_number(digits, radix) is None
            &&& -n >= i64::MIN ==> signed_number(seq!['-'] + digits, radix) == Some(-n)
            &&& -n < i64::MIN ==> signed_number(seq!['-'] + digits, radix) is None
            &&& n >= 0
        },
        signed_number(Seq::empty(), radix) is None,
        forall|i: int|
            0 < i < digits.len() && !is_digit(#[trigger] digits[i], radix) ==> signed_number(
                digits,
                radix,
            ) is None,
{
    if digits.len() > 0 && all_digits(digits, radix) {
        assert(is_digit(digits[0], radix));
        lemma_number_grows(digits, 0, radix);
        assert(digits.take(0) =~= Seq::<char>::empty());
        assert((seq!['+'] + digits).skip(1) =~= digits);
        assert((seq!['-'] + digits).skip(1) =~= digits);
    }
    assert forall|i: int| 0 < i < digits.len() && !is_digit(
        #[trigger] digits[i],
        radix,
    ) implies signed_number(digits, radix) is None by {
        let body = digits.skip(1);
        assert(body[i - 1] == digits[i]);
    }
}

/// How integers are read: white space around them does not count, a sign may stand before them, and
/// they are decimal, or hexadecimal after `0x`, or octal after another `0`. What fits into 32 bits is
/// a value, what fits into 64 is out of range, and what does not is no number; nothing but white
/// space is blank.
pub proof fn law_read_integer(
    a: Seq<char>,
    sign: Seq<char>,
    lead: Seq<char>,
    digits: Seq<char>,
    b: Seq<char>,
    result: IntegerText,
)
    requires
        blank(a),
        blank(b),
        sign == Seq::<char>::empty() || sign == seq!['-'] || sign == seq!['+'],
        lead == Seq::<char>::empty() || lead == seq!['0', 'x'] || lead == seq!['0', 'X'] || lead
            == seq!['0'],
        digits.len() > 0,
        all_digits(
            digits,
            if lead.len() == 2 {
                16
            } else if lead.len() == 1 {
                8
            } else {
                10
            },
        ),
        lead.len() == 0 ==> digits[0] != '0' || digits.len() == 1,
        reads_as(a + (sign + lead + digits) + b, result),
    ensures
        ({
            let n = number(
                digits,
                if lead.len() == 2 {
                    16
                } else if lead.len() == 1 {
                    8
                } else {
                    10
                },
            );
            let value = if sign == seq!['-'] {
                -n
            } else {
                n
            };
            &&& n <= i64::MAX && i32::MIN <= value <= i32::MAX ==> result == IntegerText::Value(
                value as i32,
            )
            &&& n <= i64::MAX && !(i32::MIN <= value <= i32::MAX) ==> result is OutOfRange
            &&& n > i64::MAX ==> result is BadDigits
        }),
{
    let radix = base_of(lead);
    let inner = sign + lead + digits;
    lemma_lead(lead, digits);
    let read = lemma_integer_parts(sign, lead, digits);
    assert(inner.last() == digits.last());
    assert(is_digit(digits[0], radix) && is_digit(digits[digits.len() - 1], radix));
    lemma_trim_around(a, inner, b);
    law_signed_number(read, radix);
}

/// The base that the start of a number stands for.
spec fn base_of(lead: Seq<char>) -> int {
    if lead.len() == 2 {
        16
    } else if lead.len() == 1 {
        8
    } else {
        10
    }
}

/// A leading zero counts nothing.
proof fn lemma_lead(lead: Seq<char>, digits: Seq<char>)
    requires
        lead.len() == 1 ==> lead == seq!['0'],
        all_digits(digits, base_of(lead)),
    ensures
        lead.len() == 1 ==> {
            &&& number(lead + digits, 8) == number(digits, 8)
            &&& all_digits(lead + digits, 8)
        },
{
    if lead.len() == 1 {
        let body = lead + digits;
        law_place_values(lead, digits, 8);
        assert(number(lead, 8) == 0) by {
            reveal_with_fuel(number, 2);
            assert(lead.drop_last() =~= Seq::<char>::empty());
        }
        assert(0 * vstd::arithmetic::power::pow(8, digits.len()) == 0);
        assert forall|i: int| 0 <= i < body.len() implies is_digit(#[trigger] body[i], 8) by {
            if i > 0 {
                assert(body[i] == digits[i - 1]);
            }
        }
    }
}

proof fn lemma_integer_parts(sign: Seq<char>, lead: Seq<char>, digits: Seq<char>) -> (read: Seq<
    char,
>)
    requires
        sign == Seq::<char>::empty() || sign == seq!['-'] || sign == seq!['+'],
        lead == Seq::<char>::empty() || lead == seq!['0', 'x'] || lead == seq!['0', 'X'] || lead
            == seq!['0'],
        digits.len() > 0,
        all_digits(digits, base_of(lead)),
        lead.len() == 0 ==> digits[0] != '0' || digits.len() == 1,
    ensures
        read == (if lead.len() == 1 {
            lead + digits
        } else {
            digits
        }),
        integer_parts(sign + lead + digits) == (sign == seq!['-'], base_of(lead), read),
        !is_white((sign + lead + digits)[0]),
{
    let body = lead + digits;
    let inner = sign + lead + digits;
    assert(is_digit(digits[0], base_of(lead)));
    if sign.len() > 0 {
        assert(inner.skip(1) =~= body);
        assert(inner[0] == sign[0]);
        if sign[0] == '+' {
            assert(seq!['-'][0] == '-');
        }
    } else {
        assert(inner =~= body);
        assert(seq!['-'].len() == 1);
    }
    if lead.len() == 2 {
        assert(body.skip(2) =~= digits);
        assert(body[0] == lead[0] && body[1] == lead[1]);
    } else if lead.len() == 1 {
        assert(body[0] == lead[0] && body[1] == digits[0]);
    } else {
        assert(body =~= digits);
        if digits.len() > 1 {
            assert(digits[0] != '0');
        }
    }
    if lead.len() == 1 {
        body
    } else {
        digits
    }
}

/// A text is blank to the reader of integers exactly where it is nothing but white space.
pub proof fn law_read_blank(text: Seq<char>, result: IntegerText)
    requires
        reads_as(text, result),
    ensures
        (result is Blank) == blank(text),
{
    law_trimmed(text);
}

/// What counts as white space: below 128 the space and the five controls from the tabulator to the
/// carriage return, and nothing that a number is written with; above, some spaces and ends of lines.
pub proof fn law_white(c: char)
    ensures
        (c as int) < 128 ==> is_white(c) == (c == ' ' || 9 <= c as int <= 13),
        is_white(c) ==> digit_value(c) is None && c != '-' && c != '+',
        128 <= (c as int) < 0x2000 ==> is_white(c) == (c as int == 0x85 || c as int == 0xa0
            || c as int == 0x1680),
        0x2000 <= (c as int) < 0x2028 ==> is_white(c) == (c as int <= 0x200a),
        0x2028 <= (c as int) <= 0x3000 ==> is_white(c) == (c as int <= 0x2029 || c as int == 0x202f
            || c as int == 0x205f || c as int == 0x3000),
        (c as int) > 0x3000 ==> !is_white(c),
{
}

} // verus!
