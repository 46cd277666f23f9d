use vstd::prelude::*;
use vstd::string::StringExecFns;

verus! {

/// The decimal digit `d` as a character.
pub open spec fn digit_char(d: int) -> char {
    if d == 0 {
        '0'
    } else if d == 1 {
        '1'
    } else if d == 2 {
        '2'
    } else if d == 3 {
        '3'
    } else if d == 4 {
        '4'
    } else if d == 5 {
        '5'
    } else if d == 6 {
        '6'
    } else if d == 7 {
        '7'
    } else if d == 8 {
        '8'
    } else {
        '9'
    }
}

/// The decimal notation of `n`, without leading zeros.
pub open spec fn decimal(n: nat) -> Seq<char>
    decreases n,
{
    if n < 10 {
        seq![digit_char(n as int)]
    } else {
        decimal(n / 10).push(digit_char((n % 10) as int))
    }
}

/// The pair `(a, b)` in decimal notation.
pub open spec fn pair_text(a: nat, b: nat) -> Seq<char> {
    "("@ + decimal(a) + ", "@ + decimal(b) + ")"@
}

/// `c` is one of the characters `0` to `9`.
pub open spec fn is_digit(c: char) -> bool {
    '0' as int <= c as int <= '9' as int
}

/// `s` is a non-empty run of decimal digits.
pub open spec fn is_digits(s: Seq<char>) -> bool {
    s.len() >= 1 && forall|i: int| 0 <= i < s.len() ==> is_digit(#[trigger] s[i])
}

/// The number that the digits `s` denote, read most significant first.
pub open spec fn digits_value(s: Seq<char>) -> int
    decreases s.len(),
{
    if s.len() == 0 {
        0
    } else {
        digits_value(s.drop_last()) * 10 + (s.last() as int - '0' as int)
    }
}

/// `text` holds `label` followed by the decimal digits of `count`, the whole run of them.
pub open spec fn reports_count(text: Seq<char>, label: Seq<char>, count: int) -> bool {
    exists|before: Seq<char>, digits: Seq<char>, after: Seq<char>|
        #![trigger is_digits(digits), before + label + digits + after]
        text == before + label + digits + after && is_digits(digits) && digits_value(digits) == count && (
        after.len() == 0 || !is_digit(after[0]))
}

/// Law: the decimal notation of `n` is a run of digits that reads back as `n`.
pub proof fn lemma_decimal_reads_back(n: nat)
    ensures
        is_digits(decimal(n)),
        digits_value(decimal(n)) == n,
    decreases n,
{
    if n < 10 {
        lemma_digit_char(n as int);
        let s = decimal(n);
        assert(s.drop_last() =~= Seq::<char>::empty());
        assert(digits_value(s.drop_last()) == 0);
        assert(digits_value(s) == digits_value(s.drop_last()) * 10 + (s.last() as int - '0' as int));
    } else {
        lemma_decimal_reads_back(n / 10);
        lemma_digit_char((n % 10) as int);
        let head = decimal(n / 10);
        let s = decimal(n);
        assert(s == head.push(digit_char((n % 10) as int)));
        assert(s.drop_last() =~= head);
        assert(digits_value(s) == digits_value(head) * 10 + (s.last() as int - '0' as int));
        assert(n == (n / 10) * 10 + n % 10);
        assert forall|i: int| 0 <= i < s.len() implies is_digit(#[trigger] s[i]) by {
            if i < head.len() {
                assert(s[i] == head[i]);
            }
        }
    }
}

/// Law: two numbers with the same decimal notation are equal.
pub proof fn lemma_decimal_injective(a: nat, b: nat)
    requires
        decimal(a) == decimal(b),
    ensures
        a == b,
{
    lemma_decimal_reads_back(a);
    lemma_decimal_reads_back(b);
}

/// A text made of `before`, `label`, the decimal notation of `n` and something that does
/// not start with a digit reports `n` after `label`.
pub proof fn lemma_reports_decimal(before: Seq<char>, label: Seq<char>, n: nat, after: Seq<char>)
    requires
        after.len() == 0 || !is_digit(after[0]),
    ensures
        reports_count(before + label + decimal(n) + after, label, n as int),
{
    lemma_decimal_reads_back(n);
    let digits = decimal(n);
    assert(is_digits(digits) && digits_value(digits) == n);
}

proof fn lemma_digit_char(d: int)
    requires
        0 <= d < 10,
    ensures
        is_digit(digit_char(d)),
        digit_char(d) as int - '0' as int == d,
{
}

/// Two runs of digits each followed by a non-digit split the same text at the same place.
pub proof fn lemma_digits_split_unique(digits: Seq<char>, rest: Seq<char>, other_digits: Seq<char>, other_rest: Seq<char>)
    requires
        is_digits(digits),
        is_digits(other_digits),
        rest.len() > 0 && !is_digit(rest[0]),
        other_rest.len() > 0 && !is_digit(other_rest[0]),
        digits + rest == other_digits + other_rest,
    ensures
        digits == other_digits,
        rest == other_rest,
{
    let whole = digits + rest;
    if digits.len() < other_digits.len() {
        assert(whole[digits.len() as int] == rest[0]);
        assert(whole[digits.len() as int] == other_digits[digits.len() as int]);
    } else if digits.len() > other_digits.len() {
        assert(whole[other_digits.len() as int] == other_rest[0]);
        assert(whole[other_digits.len() as int] == digits[other_digits.len() as int]);
    }
    assert(digits =~= whole.subrange(0, digits.len() as int));
    assert(other_digits =~= whole.subrange(0, digits.len() as int));
    assert(rest =~= whole.subrange(digits.len() as int, whole.len() as int));
    assert(other_rest =~= whole.subrange(digits.len() as int, whole.len() as int));
}

fn digit_text(d: usize) -> (text: &'static str)
    requires
        d < 10,
    ensures
        text@ == seq![digit_char(d as int)],
{
    proof {
        reveal_strlit("0");
        reveal_strlit("1");
        reveal_strlit("2");
        reveal_strlit("3");
        reveal_strlit("4");
        reveal_strlit("5");
        reveal_strlit("6");
        reveal_strlit("7");
        reveal_strlit("8");
        reveal_strlit("9");
    }
    match d {
        0 => "0",
        1 => "1",
        2 => "2",
        3 => "3",
        4 => "4",
        5 => "5",
        6 => "6",
        7 => "7",
        8 => "8",
        _ => "9",
    }
}

/// Appends the decimal notation of `n` to `text`.
pub fn push_decimal(text: &mut String, n: usize)
    ensures
        final(text)@ == old(text)@ + decimal(n as nat),
    decreases n,
{
    if n >= 10 {
        push_decimal(text, n / 10);
    }
    text.append(digit_text(n % 10));
    proof {
        if n >= 10 {
            assert(decimal(n as nat) == decimal((n / 10) as nat).push(digit_char((n % 10) as int)));
        }
    }
}

/// The decimal notation of `n`.
pub fn decimal_string(n: usize) -> (text: String)
    ensures
        text@ == decimal(n as nat),
{
    let mut text = String::new();
    push_decimal(&mut text, n);
    proof {
        assert(text@ =~= decimal(n as nat));
    }
    text
}

} // verus!
