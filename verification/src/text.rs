//! Numbers and white space in text.

use vstd::prelude::*;
use vstd::string::*;

verus! {

/// The characters with the Unicode property White_Space.
pub open spec fn is_white_space(c: char) -> bool {
    let n = c as u32;
    ||| 0x9 <= n <= 0xd
    ||| n == 0x20
    ||| n == 0x85
    ||| n == 0xa0
    ||| n == 0x1680
    ||| 0x2000 <= n <= 0x200a
    ||| n == 0x2028
    ||| n == 0x2029
    ||| n == 0x202f
    ||| n == 0x205f
    ||| n == 0x3000
}

fn white_space(c: char) -> (r: bool)
    ensures
        r == is_white_space(c),
{
    let n: u32 = c as u32;
    (0x9 <= n && n <= 0xd) || n == 0x20 || n == 0x85 || n == 0xa0 || n == 0x1680 || (0x2000 <= n
        && n <= 0x200a) || n == 0x2028 || n == 0x2029 || n == 0x202f || n == 0x205f || n == 0x3000
}

/// `s` without the white space in front.
pub open spec fn without_leading_space(s: Seq<char>) -> Seq<char>
    decreases s.len(),
{
    if s.len() > 0 && is_white_space(s.first()) {
        without_leading_space(s.drop_first())
    } else {
        s
    }
}

/// `s` without the white space behind.
pub open spec fn without_trailing_space(s: Seq<char>) -> Seq<char>
    decreases s.len(),
{
    if s.len() > 0 && is_white_space(s.last()) {
        without_trailing_space(s.drop_last())
    } else {
        s
    }
}

/// `s` without the white space around it.
pub open spec fn trimmed(s: Seq<char>) -> Seq<char> {
    without_trailing_space(without_leading_space(s))
}

/// `text` without the white space around it.
pub fn trim(text: &str) -> (r: &str)
    ensures
        r@ == trimmed(text@),
{
    let ghost s = text@;
    let len: usize = text.unicode_len();
    let mut from: usize = 0;
    assert(s.subrange(0, len as int) =~= s);
    while from < len && white_space(text.get_char(from))
        invariant
            s == text@,
            len == s.len(),
            from <= len,
            without_leading_space(s.subrange(from as int, len as int)) == without_leading_space(s),
        decreases len - from,
    {
        assert(s.subrange(from as int, len as int).drop_first() =~= s.subrange(
            from + 1,
            len as int,
        ));
        from = from + 1;
    }
    let ghost rest = s.subrange(from as int, len as int);
    assert(rest == without_leading_space(s));
    let mut to: usize = len;
    while from < to && white_space(text.get_char(to - 1))
        invariant
            s == text@,
            from <= to <= s.len(),
            without_trailing_space(s.subrange(from as int, to as int)) == without_trailing_space(rest),
        decreases to - from,
    {
        assert(s.subrange(from as int, to as int).drop_last() =~= s.subrange(from as int, to - 1));
        to = to - 1;
    }
    text.substring_char(from, to)
}

/// Text that has no white space at either end is left as it is.
pub proof fn trimming_keeps_bare_text(s: Seq<char>)
    requires
        s.len() == 0 || (!is_white_space(s.first()) && !is_white_space(s.last())),
    ensures
        trimmed(s) == s,
{
}

pub open spec fn is_digit(c: char) -> bool {
    '0' <= c <= '9'
}

/// The character of a single digit.
pub open spec fn digit_char(d: int) -> char {
    ('0' as int + d) as char
}

/// The digits of `n`.
pub open spec fn decimal(n: nat) -> Seq<char>
    decreases n,
{
    if n < 10 {
        seq![digit_char(n as int)]
    } else {
        decimal(n / 10).push(digit_char((n % 10) as int))
    }
}

fn digit_text(d: u64) -> (r: &'static str)
    requires
        d < 10,
    ensures
        r@ == seq![digit_char(d as int)],
{
    proof {
        reveal_strlit("0");
        reveal_strlit("1");
        reveal_strlit("2");
        reveal_strlit("3");
        reveal_strlit("4");
        reveal_strlit("5");
        reveal_strlit("6");
        reveal_strlit("7");
        reveal_strlit("8");
        reveal_strlit("9");
    }
    let r = match d {
        0 => "0",
        1 => "1",
        2 => "2",
        3 => "3",
        4 => "4",
        5 => "5",
        6 => "6",
        7 => "7",
        8 => "8",
        _ => "9",
    };
    assert(r@ =~= seq![digit_char(d as int)]);
    r
}

/// `n` in decimal.
pub fn decimal_text(n: u64) -> (r: String)
    ensures
        r@ == decimal(n as nat),
    decreases n,
{
    if n < 10 {
        digit_text(n).to_owned()
    } else {
        let mut r: String = decimal_text(n / 10);
        let ghost front = r@;
        let last: &str = digit_text(n % 10);
        r.append(last);
        assert(r@ =~= front.push(digit_char((n % 10) as int)));
        r
    }
}

/// `n` in decimal, with a minus sign if it is negative.
pub open spec fn signed_decimal(n: int) -> Seq<char> {
    if n < 0 {
        seq!['-'] + decimal((-n) as nat)
    } else {
        decimal(n as nat)
    }
}

/// How far `n` is from zero.
pub fn magnitude(n: i64) -> (r: u64)
    ensures
        r == if n < 0 {
            -n
        } else {
            n as int
        },
{
    if n >= 0 {
        n as u64
    } else {
        (-(n + 1)) as u64 + 1
    }
}

/// `n` in decimal, with a minus sign if it is negative.
pub fn signed_text(n: i64) -> (r: String)
    ensures
        r@ == signed_decimal(n as int),
{
    if n < 0 {
        proof {
            reveal_strlit("-");
        }
        assert("-"@ =~= seq!['-']);
        "-".to_owned().concat(decimal_text(magnitude(n)).as_str())
    } else {
        decimal_text(n as u64)
    }
}

/// `n` in decimal, with its sign unless it is zero.
pub open spec fn change_text_of(n: int) -> Seq<char> {
    if n > 0 {
        seq!['+'] + decimal(n as nat)
    } else {
        signed_decimal(n)
    }
}

/// `n` in decimal, with its sign unless it is zero.
pub fn change_text(n: i64) -> (r: String)
    ensures
        r@ == change_text_of(n as int),
{
    if n > 0 {
        proof {
            reveal_strlit("+");
        }
        assert("+"@ =~= seq!['+']);
        "+".to_owned().concat(signed_text(n).as_str())
    } else {
        signed_text(n)
    }
}

/// What a run of digits stands for.
pub open spec fn digits_value(s: Seq<char>) -> int
    decreases s.len(),
{
    if s.len() == 0 {
        0
    } else {
        digits_value(s.drop_last()) * 10 + (s.last() as int - '0' as int)
    }
}

pub open spec fn all_digits(s: Seq<char>) -> bool {
    forall|i: int| 0 <= i < s.len() ==> is_digit(#[trigger] s[i])
}

/// `s` without a plus sign in front.
pub open spec fn unsigned_part(s: Seq<char>) -> Seq<char> {
    if s.len() > 0 && s[0] == '+' {
        s.drop_first()
    } else {
        s
    }
}

/// The number that `s` spells, if it is one that a counter can hold: at least
/// one digit and nothing else, but for one plus sign in front.
pub open spec fn whole_number(s: Seq<char>) -> Option<u64> {
    let digits = unsigned_part(s);
    if digits.len() > 0 && all_digits(digits) && digits_value(digits) <= u64::MAX {
        Some(digits_value(digits) as u64)
    } else {
        None
    }
}

proof fn digits_value_grows(s: Seq<char>, n: int)
    requires
        all_digits(s),
        0 <= n <= s.len(),
    ensures
        0 <= digits_value(s.take(n)) <= digits_value(s),
    decreases s.len(),
{
    if n < s.len() {
        let t = s.drop_last();
        assert forall|i: int| 0 <= i < t.len() implies is_digit(#[trigger] t[i]) by {
            assert(is_digit(s[i]));
        }
        digits_value_grows(t, n);
        assert(t.take(n) =~= s.take(n));
        assert(is_digit(s[s.len() - 1]));
    } else {
        assert(s.take(n) =~= s);
        if n > 0 {
            let t = s.drop_last();
            assert forall|i: int| 0 <= i < t.len() implies is_digit(#[trigger] t[i]) by {
                assert(is_digit(s[i]));
            }
            digits_value_grows(t, n - 1);
            assert(t.take(n - 1) =~= t);
            assert(is_digit(s[s.len() - 1]));
        }
    }
}

/// Read a whole number.
pub fn parse_whole(text: &str) -> (r: Option<u64>)
    ensures
        r == whole_number(text@),
{
    let ghost s = text@;
    let len: usize = text.unicode_len();
    let start: usize = if len > 0 && text.get_char(0) == '+' {
        1
    } else {
        0
    };
    let ghost digits = unsigned_part(s);
    assert(digits =~= s.subrange(start as int, len as int));
    if start == len {
        return None;
    }
    let mut value: u64 = 0;
    let mut i: usize = start;
    assert(digits.take(0) =~= Seq::empty());
    while i < len
        invariant
            s == text@,
            len == s.len(),
            start <= i <= len,
            start < len,
            digits == unsigned_part(s),
            digits == s.subrange(start as int, len as int),
            all_digits(digits.take(i - start)),
            value == digits_value(digits.take(i - start)),
        decreases len - i,
    {
        let c: char = text.get_char(i);
        let ghost n = i - start;
        assert(digits[n] == c);
        if c < '0' || c > '9' {
            assert(!is_digit(digits[n]));
            return None;
        }
        proof {
            let longer = digits.take(n + 1);
            assert(longer.drop_last() =~= digits.take(n));
            assert(longer.last() == c);
            assert forall|k: int| 0 <= k < longer.len() implies is_digit(#[trigger] longer[k]) by {
                if k < n {
                    assert(is_digit(digits.take(n)[k]));
                }
            }
            if all_digits(digits) {
                digits_value_grows(digits, n + 1);
            }
        }
        let digit: u64 = (c as u32 - 48) as u64;
        match value.checked_mul(10) {
            Some(tens) => match tens.checked_add(digit) {
                Some(sum) => {
                    value = sum;
                },
                None => {
                    return None;
                },
            },
            None => {
                return None;
            },
        }
        i = i + 1;
    }
    assert(digits.take(i - start) =~= digits);
    Some(value)
}

proof fn decimal_is_digits(n: nat)
    ensures
        decimal(n).len() > 0,
        all_digits(decimal(n)),
        digits_value(decimal(n)) == n,
    decreases n,
{
    if n < 10 {
        let s = decimal(n);
        assert(s.drop_last() =~= Seq::empty());
        assert(digits_value(s.drop_last()) == 0);
        assert(is_digit(s[0]));
    } else {
        decimal_is_digits(n / 10);
        let front = decimal(n / 10);
        let s = decimal(n);
        assert(s.drop_last() =~= front);
        assert forall|i: int| 0 <= i < s.len() implies is_digit(#[trigger] s[i]) by {
            if i < front.len() {
                assert(is_digit(front[i]));
            }
        }
    }
}

/// A number is written with decimal digits, the last of them its remainder by
/// ten and the rest the number without it, and no zeros in front.
pub proof fn numbers_are_written_in_decimal(n: nat)
    ensures
        all_digits(decimal(n)),
        decimal(n).last() as int == 48 + n % 10,
        n < 10 ==> decimal(n).len() == 1,
        n >= 10 ==> decimal(n).drop_last() == decimal(n / 10),
        n > 0 ==> decimal(n)[0] != '0',
        forall|i: int| 0 <= i < decimal(n).len() ==> '0' <= #[trigger] decimal(n)[i] <= '9',
    decreases n,
{
    decimal_is_digits(n);
    if n >= 10 {
        numbers_are_written_in_decimal(n / 10);
        assert(decimal(n).drop_last() =~= decimal(n / 10));
        decimal_is_digits(n / 10);
        assert(decimal(n)[0] == decimal(n / 10)[0]);
    }
}

/// A signed number is its digits with a minus sign in front if it is negative,
/// and a change carries a plus sign as well if it is an increase.
pub proof fn signs_stand_in_front(n: int)
    ensures
        n >= 0 ==> signed_decimal(n) == decimal(n as nat),
        n < 0 ==> signed_decimal(n).len() > 0 && signed_decimal(n)[0] == '-' && signed_decimal(
            n,
        ).drop_first() == decimal((-n) as nat),
        n > 0 ==> change_text_of(n).len() > 0 && change_text_of(n)[0] == '+' && change_text_of(
            n,
        ).drop_first() == decimal(n as nat),
        n <= 0 ==> change_text_of(n) == signed_decimal(n),
{
    if n < 0 {
        assert(signed_decimal(n).drop_first() =~= decimal((-n) as nat));
    }
    if n > 0 {
        assert(change_text_of(n).drop_first() =~= decimal(n as nat));
    }
}

/// White space in front of text and behind it is dropped, and nothing else is.
pub proof fn only_white_space_is_trimmed(s: Seq<char>, c: char)
    ensures
        is_white_space(c) ==> trimmed(s.push(c)) == trimmed(s),
        is_white_space(c) ==> trimmed(seq![c] + s) == trimmed(s),
        s.len() > 0 && !is_white_space(s[0]) && !is_white_space(s[s.len() - 1]) ==> trimmed(s)
            == s,
        is_white_space(c) <==> {
            ||| c == '\t' || c == '\n' || c == '\u{b}' || c == '\u{c}' || c == '\r'
            ||| c == ' ' || c == '\u{85}' || c == '\u{a0}' || c == '\u{1680}'
            ||| '\u{2000}' <= c <= '\u{200a}'
            ||| c == '\u{2028}' || c == '\u{2029}' || c == '\u{202f}'
            ||| c == '\u{205f}' || c == '\u{3000}'
        },
{
    assert((seq![c] + s).drop_first() =~= s);
    if is_white_space(c) {
        trimming_behind(s, c);
    }
    assert(c as u32 as int == c as int);
}

proof fn trimming_behind(s: Seq<char>, c: char)
    requires
        is_white_space(c),
    ensures
        trimmed(s.push(c)) == trimmed(s),
    decreases s.len(),
{
    let t = s.push(c);
    if s.len() > 0 && is_white_space(s.first()) {
        assert(t.drop_first() =~= s.drop_first().push(c));
        assert(t.first() == s.first());
        trimming_behind(s.drop_first(), c);
    } else if s.len() > 0 {
        assert(t.first() == s.first());
        assert(t.drop_last() =~= s);
    } else {
        assert(t.drop_first() =~= Seq::<char>::empty());
        assert(s =~= Seq::<char>::empty());
    }
}

/// What reads as a whole number: one or more digits, with zeros in front or
/// not, and a plus sign in front of them or not. Anything else is none, and
/// neither is a number past the range of a counter.
pub proof fn only_digits_read_as_a_number(n: nat, s: Seq<char>, at: int)
    ensures
        n <= u64::MAX ==> whole_number(decimal(n)) == Some(n as u64),
        n > u64::MAX ==> whole_number(decimal(n)) is None,
        whole_number(Seq::empty()) is None,
        whole_number(seq!['+']) is None,
        s.len() > 0 && s[0] != '+' ==> whole_number(seq!['+'] + s) == whole_number(s),
        s.len() > 0 && s[0] != '+' ==> whole_number(seq!['0'] + s) == whole_number(s),
        0 <= at < s.len() && !('0' <= s[at] <= '9') && !(at == 0 && s[at] == '+') ==> whole_number(
            s,
        ) is None,
{
    decimal_is_digits(n);
    numbers_are_written_in_decimal(n);
    assert(is_digit(decimal(n)[0]));
    assert(unsigned_part(decimal(n)) == decimal(n));
    assert(seq!['+'].drop_first() =~= Seq::<char>::empty());
    if s.len() > 0 && s[0] != '+' {
        assert((seq!['+'] + s).drop_first() =~= s);
        let longer = seq!['0'] + s;
        assert(unsigned_part(longer) == longer);
        leading_zeros_count_for_nothing(s);
        if all_digits(s) {
            assert forall|i: int| 0 <= i < longer.len() implies is_digit(#[trigger] longer[i]) by {
                if i > 0 {
                    assert(is_digit(s[i - 1]));
                }
            }
        }
        if all_digits(longer) {
            assert forall|i: int| 0 <= i < s.len() implies is_digit(#[trigger] s[i]) by {
                assert(is_digit(longer[i + 1]));
            }
        }
    }
    if 0 <= at < s.len() && !('0' <= s[at] <= '9') && !(at == 0 && s[at] == '+') {
        let digits = unsigned_part(s);
        if s[0] == '+' {
            assert(!is_digit(digits[at - 1]));
        } else {
            assert(!is_digit(digits[at]));
        }
    }
}

proof fn leading_zeros_count_for_nothing(s: Seq<char>)
    ensures
        digits_value(seq!['0'] + s) == digits_value(s),
    decreases s.len(),
{
    let longer = seq!['0'] + s;
    if s.len() == 0 {
        assert(longer.drop_last() =~= Seq::<char>::empty());
        assert(digits_value(longer.drop_last()) == 0);
    } else {
        leading_zeros_count_for_nothing(s.drop_last());
        assert(longer.drop_last() =~= seq!['0'] + s.drop_last());
    }
}

/// A number that is written out reads back as itself.
pub proof fn written_numbers_read_back(n: u64)
    ensures
        whole_number(trimmed(decimal(n as nat))) == Some(n),
{
    let s = decimal(n as nat);
    decimal_is_digits(n as nat);
    assert(is_digit(s[0]));
    assert(is_digit(s[s.len() - 1]));
    trimming_keeps_bare_text(s);
    assert(unsigned_part(s) == s);
}

/// The last `width` digits of `n`, with zeros in front where it has fewer.
pub open spec fn padded(n: nat, width: nat) -> Seq<char>
    decreases width,
{
    if width == 0 {
        Seq::empty()
    } else {
        padded(n / 10, (width - 1) as nat).push(digit_char((n % 10) as int))
    }
}

/// The last `width` digits of `n`, with zeros in front where it has fewer.
pub fn padded_text(n: u64, width: usize) -> (r: String)
    ensures
        r@ == padded(n as nat, width as nat),
    decreases width,
{
    if width == 0 {
        let r: String = String::new();
        assert(r@ =~= Seq::<char>::empty());
        r
    } else {
        let mut r: String = padded_text(n / 10, width - 1);
        let ghost front = r@;
        let last: &str = digit_text(n % 10);
        r.append(last);
        assert(r@ =~= front.push(digit_char((n % 10) as int)));
        r
    }
}

/// Ten to the power of `width`.
pub open spec fn power_of_ten(width: nat) -> nat
    decreases width,
{
    if width == 0 {
        1
    } else {
        10 * power_of_ten((width - 1) as nat)
    }
}

/// A number with enough room keeps every digit.
pub proof fn padding_loses_nothing(n: nat, width: nat)
    requires
        n < power_of_ten(width),
    ensures
        padded(n, width).len() == width,
        all_digits(padded(n, width)),
        digits_value(padded(n, width)) == n,
    decreases width,
{
    if width > 0 {
        padding_loses_nothing(n / 10, (width - 1) as nat);
        let front = padded(n / 10, (width - 1) as nat);
        let s = padded(n, width);
        assert(s.drop_last() =~= front);
        assert forall|i: int| 0 <= i < s.len() implies is_digit(#[trigger] s[i]) by {
            if i < front.len() {
                assert(is_digit(front[i]));
            }
        }
    }
}

/// Texts one after another, with `between` between them.
pub open spec fn joined_texts(parts: Seq<Seq<char>>, between: Seq<char>) -> Seq<char>
    decreases parts.len(),
{
    if parts.len() == 0 {
        Seq::empty()
    } else if parts.len() == 1 {
        parts[0]
    } else {
        joined_texts(parts.drop_last(), between) + between + parts.last()
    }
}

/// Texts are joined in order, with one separator between each two and none at
/// either end.
pub proof fn separators_stand_between_texts(
    parts: Seq<Seq<char>>,
    part: Seq<char>,
    between: Seq<char>,
)
    ensures
        joined_texts(Seq::empty(), between) == Seq::<char>::empty(),
        joined_texts(seq![part], between) == part,
        parts.len() > 0 ==> joined_texts(parts.push(part), between) == joined_texts(parts, between)
            + between + part,
{
    assert(parts.push(part).drop_last() =~= parts);
}

/// `text` in quotes, with what would not show escaped.
pub uninterp spec fn quoted_of(text: Seq<char>) -> Seq<char>;

/// Whether `text` is printable ASCII without quotes of either kind or
/// backslashes, so that there is nothing to escape in it.
pub open spec fn is_plain(text: Seq<char>) -> bool {
    forall|i: int|
        0 <= i < text.len() ==> {
            let c = #[trigger] text[i];
            ' ' <= c <= '~' && c != '"' && c != '\'' && c != '\\'
        }
}

/// `text` between quotes, as it stands.
pub open spec fn between_quotes(text: Seq<char>) -> Seq<char> {
    seq!['"'] + text + seq!['"']
}

/// `text` in quotes, by the `Debug` format of `str`. What comes back depends on
/// `text` alone, and where there is nothing to escape it is `text` between
/// quotes. How any other character is written is not stated.
#[verifier::external_body]
pub(crate) fn quoted(text: &str) -> (r: String)
    ensures
        r@ == quoted_of(text@),
        is_plain(text@) ==> r@ == between_quotes(text@),
{
    format!("{:?}", text)
}

} // verus!
