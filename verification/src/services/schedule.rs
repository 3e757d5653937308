//! The tests to run and the rounds of each test.
use vstd::prelude::*;
use crate::models::epoch::Epoch;

verus! {

/// The character of the decimal digit `d`.
pub open spec fn digit_char(d: nat) -> char {
    if d == 0 {
        '0'
    } else if d == 1 {
        '1'
    } else if d == 2 {
        '2'
    } else if d == 3 {
        '3'
    } else if d == 4 {
        '4'
    } else if d == 5 {
        '5'
    } else if d == 6 {
        '6'
    } else if d == 7 {
        '7'
    } else if d == 8 {
        '8'
    } else {
        '9'
    }
}

/// The value of the decimal digit `c`.
pub open spec fn digit_value(c: char) -> nat {
    if c == '1' {
        1
    } else if c == '2' {
        2
    } else if c == '3' {
        3
    } else if c == '4' {
        4
    } else if c == '5' {
        5
    } else if c == '6' {
        6
    } else if c == '7' {
        7
    } else if c == '8' {
        8
    } else if c == '9' {
        9
    } else {
        0
    }
}

/// The decimal notation of `n`, without leading zeros.
pub open spec fn decimal(n: nat) -> Seq<char>
    decreases n,
{
    if n < 10 {
        seq![digit_char(n)]
    } else {
        decimal(n / 10).push(digit_char(n % 10))
    }
}

/// The number that the decimal digits `s` write.
pub open spec fn decimal_value(s: Seq<char>) -> nat
    decreases s.len(),
{
    if s.len() == 0 {
        0
    } else {
        10 * decimal_value(s.drop_last()) + digit_value(s.last())
    }
}

/// The name of the test numbered `n`.
pub open spec fn test_name(n: nat) -> Seq<char> {
    "test_"@ + decimal(n)
}

/// Reading back the decimal notation of a number gives the number.
pub proof fn lemma_decimal_value(n: nat)
    ensures
        decimal_value(decimal(n)) == n,
    decreases n,
{
    let r = n % 10;
    assert(digit_value(digit_char(r)) == r);
    if n >= 10 {
        lemma_decimal_value(n / 10);
        let d = decimal(n / 10);
        let full = d.push(digit_char(r));
        assert(full.drop_last() =~= d);
        assert(full.last() == digit_char(r));
        assert(decimal(n) == full);
        assert(decimal_value(full) == 10 * decimal_value(d) + digit_value(digit_char(r)));
        assert(n == 10 * (n / 10) + r);
    } else {
        let one = seq![digit_char(n)];
        assert(one.drop_last() =~= Seq::<char>::empty());
        assert(decimal(n) == one);
        assert(decimal_value(one) == 10 * decimal_value(one.drop_last()) + digit_value(one.last()));
    }
}

/// Tests with different numbers have different names.
pub proof fn lemma_test_names_distinct(a: nat, b: nat)
    requires
        a != b,
    ensures
        test_name(a) != test_name(b),
{
    lemma_decimal_value(a);
    lemma_decimal_value(b);
    let p = "test_"@;
    if test_name(a) == test_name(b) {
        assert(test_name(a).skip(p.len() as int) =~= decimal(a));
        assert(test_name(b).skip(p.len() as int) =~= decimal(b));
    }
}

/// The text of the decimal digit `d`.
fn digit_str(d: u64) -> (s: &'static str)
    requires
        d < 10,
    ensures
        s@ == seq![digit_char(d as nat)],
{
    proof {
        reveal_strlit("0");
        reveal_strlit("1");
        reveal_strlit("2");
        reveal_strlit("3");
        reveal_strlit("4");
        reveal_strlit("5");
        reveal_strlit("6");
        reveal_strlit("7");
        reveal_strlit("8");
        reveal_strlit("9");
    }
    if d == 0 {
        "0"
    } else if d == 1 {
        "1"
    } else if d == 2 {
        "2"
    } else if d == 3 {
        "3"
    } else if d == 4 {
        "4"
    } else if d == 5 {
        "5"
    } else if d == 6 {
        "6"
    } else if d == 7 {
        "7"
    } else if d == 8 {
        "8"
    } else {
        "9"
    }
}

/// Appends the decimal notation of `n` to `s`.
pub(crate) fn append_decimal(s: &mut String, n: u64)
    ensures
        final(s)@ == old(s)@ + decimal(n as nat),
    decreases n,
{
    if n >= 10 {
        append_decimal(s, n / 10);
    }
    s.append(digit_str(n % 10));
    assert(final(s)@ =~= old(s)@ + decimal(n as nat));
}

/// The name of the test numbered `test_number`: `test_` and the number.
pub fn test_name_from_int(test_number: u32) -> (name: String)
    ensures
        name@ == test_name(test_number as nat),
{
    let mut name = String::from_str("test_");
    append_decimal(&mut name, test_number as u64);
    name
}

/// The epoch of the next round of a test, given the test system's answer to
/// a submission: none where that round was the last.
pub fn next_round(answer: (Epoch, bool)) -> (next: Option<Epoch>)
    ensures
        answer.1 ==> next is None,
        !answer.1 ==> (next matches Some(e) && e.content@ == answer.0.content@),
{
    let (epoch, is_last_epoch) = answer;
    if is_last_epoch {
        None
    } else {
        Some(epoch)
    }
}

} // verus!
