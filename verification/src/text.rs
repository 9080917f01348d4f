//! Numbers as text, and letter case.

use vstd::prelude::*;

verus! {

/// The character of a decimal digit.
pub open spec fn digit(d: nat) -> char {
    if d == 0 {
        '0'
    } else if d == 1 {
        '1'
    } else if d == 2 {
        '2'
    } else if d == 3 {
        '3'
    } else if d == 4 {
        '4'
    } else if d == 5 {
        '5'
    } else if d == 6 {
        '6'
    } else if d == 7 {
        '7'
    } else if d == 8 {
        '8'
    } else {
        '9'
    }
}

/// Whether `c` is one of the ten decimal digits.
pub open spec fn is_digit(c: char) -> bool {
    '0' <= c <= '9'
}

/// The decimal digits of `n`, without leading zeros.
pub open spec fn digits(n: nat) -> Seq<char>
    decreases n,
{
    if n < 10 {
        seq![digit(n)]
    } else {
        digits(n / 10).push(digit(n % 10))
    }
}

/// `v` in decimal notation.
pub open spec fn decimal(v: i32) -> Seq<char> {
    if v < 0 {
        seq!['-'] + digits((-v) as nat)
    } else {
        digits(v as nat)
    }
}

fn digit_text(d: u32) -> (res: &'static str)
    requires
        d < 10,
    ensures
        res@ == seq![digit(d as nat)],
{
    proof {
        reveal_strlit("0");
        reveal_strlit("1");
        reveal_strlit("2");
        reveal_strlit("3");
        reveal_strlit("4");
        reveal_strlit("5");
        reveal_strlit("6");
        reveal_strlit("7");
        reveal_strlit("8");
        reveal_strlit("9");
    }
    if d == 0 {
        "0"
    } else if d == 1 {
        "1"
    } else if d == 2 {
        "2"
    } else if d == 3 {
        "3"
    } else if d == 4 {
        "4"
    } else if d == 5 {
        "5"
    } else if d == 6 {
        "6"
    } else if d == 7 {
        "7"
    } else if d == 8 {
        "8"
    } else {
        "9"
    }
}

fn push_digits(text: &mut String, n: u32)
    ensures
        final(text)@ == old(text)@ + digits(n as nat),
    decreases n,
{
    if n >= 10 {
        push_digits(text, n / 10);
    }
    text.append(digit_text(n % 10));
    assert(text@ == old(text)@ + digits(n as nat));
}

/// Appends `v` in decimal notation.
pub fn push_decimal(text: &mut String, v: i32)
    ensures
        final(text)@ == old(text)@ + decimal(v),
{
    if v < 0 {
        proof {
            reveal_strlit("-");
        }
        text.append("-");
        push_digits(text, (-(v as i64)) as u32);
    } else {
        push_digits(text, v as u32);
    }
    assert(text@ == old(text)@ + decimal(v));
}

proof fn lemma_digits_are_digits(n: nat)
    ensures
        digits(n).len() >= 1,
        n >= 10 ==> digits(n).len() >= 2,
        forall|i: int| 0 <= i < digits(n).len() ==> is_digit(#[trigger] digits(n)[i]),
    decreases n,
{
    if n >= 10 {
        lemma_digits_are_digits(n / 10);
    }
}

proof fn lemma_digits_differ(a: nat, b: nat)
    requires
        digits(a) == digits(b),
    ensures
        a == b,
    decreases a,
{
    lemma_digits_are_digits(a);
    lemma_digits_are_digits(b);
    if a < 10 {
        assert(digits(a).len() == 1);
        assert(b < 10);
        assert(digits(a)[0] == digit(a));
        assert(digits(b)[0] == digit(b));
    } else {
        assert(b >= 10);
        assert(digits(a).drop_last() == digits(a / 10));
        assert(digits(b).drop_last() == digits(b / 10));
        assert(digits(a).last() == digit(a % 10));
        assert(digits(b).last() == digit(b % 10));
        lemma_digits_differ(a / 10, b / 10);
    }
}

proof fn lemma_digits_end_where_they_end(a: nat, rest_a: Seq<char>, b: nat, rest_b: Seq<char>)
    requires
        digits(a) + rest_a == digits(b) + rest_b,
        rest_a.len() > 0,
        rest_b.len() > 0,
        !is_digit(rest_a[0]),
        !is_digit(rest_b[0]),
    ensures
        a == b,
        rest_a == rest_b,
{
    lemma_digits_are_digits(a);
    lemma_digits_are_digits(b);
    let whole = digits(a) + rest_a;
    let la = digits(a).len() as int;
    let lb = digits(b).len() as int;
    assert(whole[la] == rest_a[0]);
    assert(whole[lb] == rest_b[0]);
    if la < lb {
        assert(whole[la] == digits(b)[la]);
    }
    if lb < la {
        assert(whole[lb] == digits(a)[lb]);
    }
    assert(whole.subrange(0, la) == digits(a));
    assert(whole.subrange(0, lb) == digits(b));
    lemma_digits_differ(a, b);
    assert(rest_a == whole.subrange(la, whole.len() as int));
    assert(rest_b == whole.subrange(lb, whole.len() as int));
}

/// Decimal notation is unambiguous: where it is followed by something that is
/// no digit, the number and what follows can be read back.
pub proof fn lemma_decimal_reads_back(v: i32, rest_v: Seq<char>, w: i32, rest_w: Seq<char>)
    requires
        decimal(v) + rest_v == decimal(w) + rest_w,
        rest_v.len() > 0,
        rest_w.len() > 0,
        !is_digit(rest_v[0]),
        !is_digit(rest_w[0]),
    ensures
        v == w,
        rest_v == rest_w,
{
    let av = if v < 0 { (-v) as nat } else { v as nat };
    let aw = if w < 0 { (-w) as nat } else { w as nat };
    lemma_digits_are_digits(av);
    lemma_digits_are_digits(aw);
    let whole_v = decimal(v) + rest_v;
    let whole_w = decimal(w) + rest_w;
    assert(whole_v[0] == decimal(v)[0]);
    assert(whole_w[0] == decimal(w)[0]);
    assert(v >= 0 ==> whole_v[0] == digits(av)[0]);
    assert(w >= 0 ==> whole_w[0] == digits(aw)[0]);
    assert((v < 0) == (w < 0));
    if v < 0 {
        assert(whole_v.skip(1) == digits(av) + rest_v);
        assert(whole_w.skip(1) == digits(aw) + rest_w);
    }
    lemma_digits_end_where_they_end(av, rest_v, aw, rest_w);
}

/// Whether two texts have the same characters.
pub fn same_text(a: &str, b: &str) -> (res: bool)
    ensures
        res == (a@ == b@),
{
    String::from_str(a) == String::from_str(b)
}

/// The lower case of an ASCII letter; other characters stay as they are.
pub open spec fn ascii_lower(c: char) -> char {
    if 'A' <= c <= 'Z' {
        (c as u32 + 32) as char
    } else {
        c
    }
}

/// The lower case of a text, by the Unicode rules of `str::to_lowercase`.
pub uninterp spec fn lower_case(text: Seq<char>) -> Seq<char>;

/// `str::to_lowercase`: the lower-case equivalent of `text`, which is a function
/// of its characters alone. For ASCII text it is that of each letter. Which other
/// characters it maps to which is not stated here.
#[verifier::external_body]
pub(crate) fn to_lower_case(text: &str) -> (res: String)
    ensures
        res@ == lower_case(text@),
        vstd::utf8::is_ascii_chars(text@) ==> res@ == text@.map_values(|c: char| ascii_lower(c)),
{
    text.to_lowercase()
}

/// The number that a decimal digit stands for.
pub open spec fn digit_value(c: char) -> nat {
    (c as u32 - '0' as u32) as nat
}

/// The number that decimal digits stand for, the most significant first.
pub open spec fn value_of(digits: Seq<char>) -> nat
    decreases digits.len(),
{
    if digits.len() == 0 {
        0
    } else {
        10 * value_of(digits.drop_last()) + digit_value(digits.last())
    }
}

/// The digits of a number are digits, stand for that number, and have no zero in front.
pub proof fn lemma_digits_stand_for_the_number(n: nat)
    ensures
        value_of(digits(n)) == n,
        digits(n).len() >= 1,
        forall|i: int| 0 <= i < digits(n).len() ==> '0' <= #[trigger] digits(n)[i] <= '9',
        n > 0 ==> digits(n)[0] != '0',
    decreases n,
{
    lemma_digits_are_digits(n);
    let last = if n < 10 { n } else { n % 10 };
    assert(digit_value(digit(last)) == last);
    if n < 10 {
        assert(digits(n).drop_last() =~= Seq::<char>::empty());
        assert(value_of(Seq::<char>::empty()) == 0);
    } else {
        lemma_digits_stand_for_the_number(n / 10);
        assert(digits(n).drop_last() =~= digits(n / 10));
        assert(digits(n)[0] == digits(n / 10)[0]);
    }
}

/// A number in decimal notation: its digits, and a minus sign before them where it is
/// below zero.
pub proof fn lemma_decimal_stands_for_the_number(v: i32)
    ensures
        v >= 0 ==> value_of(decimal(v)) == v && '0' <= decimal(v)[0] <= '9',
        v < 0 ==> decimal(v)[0] == '-' && value_of(decimal(v).skip(1)) == -v,
{
    if v >= 0 {
        lemma_digits_stand_for_the_number(v as nat);
    } else {
        lemma_digits_stand_for_the_number((-v) as nat);
        assert(decimal(v).skip(1) =~= digits((-v) as nat));
    }
}

/// The lower case of an ASCII letter is the letter 32 places on; nothing else changes.
pub proof fn lemma_ascii_lower(c: char)
    ensures
        'A' <= c <= 'Z' ==> ascii_lower(c) as u32 == c as u32 + 32 && 'a' <= ascii_lower(c)
            <= 'z',
        !('A' <= c <= 'Z') ==> ascii_lower(c) == c,
{
}

} // verus!
