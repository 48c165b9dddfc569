//! Numbers written out.

use vstd::prelude::*;
use vstd::string::StringExecFns;

verus! {

/// The character of a decimal digit.
pub open spec fn digit(d: nat) -> char {
    (48 + d) as char
}

/// A number written in decimal.
pub open spec fn decimal(n: nat) -> Seq<char>
    decreases n,
{
    if n < 10 {
        seq![digit(n)]
    } else {
        decimal(n / 10).push(digit(n % 10))
    }
}

/// A number written in decimal, with a minus sign in front where it is negative.
pub open spec fn signed_decimal(n: int) -> Seq<char> {
    if n < 0 {
        "-"@ + decimal((-n) as nat)
    } else {
        decimal(n as nat)
    }
}

fn digit_text(d: u64) -> (text: &'static str)
    requires
        d < 10,
    ensures
        text@ == seq![digit(d as nat)],
{
    proof {
        reveal_strlit("0");
        reveal_strlit("1");
        reveal_strlit("2");
        reveal_strlit("3");
        reveal_strlit("4");
        reveal_strlit("5");
        reveal_strlit("6");
        reveal_strlit("7");
        reveal_strlit("8");
        reveal_strlit("9");
    }
    let text = match d {
        0 => "0",
        1 => "1",
        2 => "2",
        3 => "3",
        4 => "4",
        5 => "5",
        6 => "6",
        7 => "7",
        8 => "8",
        _ => "9",
    };
    assert(text@ =~= seq![digit(d as nat)]);
    text
}

/// A number written in decimal.
pub fn decimal_text(n: u64) -> (text: String)
    ensures
        text@ == decimal(n as nat),
    decreases n,
{
    if n < 10 {
        String::from_str(digit_text(n))
    } else {
        let mut text = decimal_text(n / 10);
        text.append(digit_text(n % 10));
        assert(text@ =~= decimal(n as nat));
        text
    }
}

/// A number written in decimal, with a minus sign in front where it is negative.
pub fn signed_text(n: i32) -> (text: String)
    ensures
        text@ == signed_decimal(n as int),
{
    if n < 0 {
        let mut text = String::from_str("-");
        text.append(decimal_text((-(n as i64)) as u64).as_str());
        text
    } else {
        decimal_text(n as u64)
    }
}

/// The number that decimal digits stand for.
pub open spec fn digits_value(text: Seq<char>) -> int
    decreases text.len(),
{
    if text.len() == 0 {
        0
    } else {
        10 * digits_value(text.drop_last()) + (text.last() as int - 48)
    }
}

/// A number that is written out reads back as the number, is made of digits alone, and
/// has no zero in front but its only digit.
pub proof fn lemma_decimal_reads_back(n: nat)
    ensures
        digits_value(decimal(n)) == n,
        decimal(n).len() > 0,
        forall|i: int|
            0 <= i < decimal(n).len() ==> 48 <= #[trigger] decimal(n)[i] as int && decimal(
                n,
            )[i] as int <= 57,
        n > 0 ==> decimal(n)[0] != '0',
    decreases n,
{
    if n < 10 {
        let text = seq![digit(n)];
        assert(text.drop_last() =~= Seq::empty());
        assert(digits_value(text.drop_last()) == 0);
        assert(text.last() as int == 48 + n);
    } else {
        lemma_decimal_reads_back(n / 10);
        let rest = decimal(n / 10);
        let text = rest.push(digit(n % 10));
        assert(text.drop_last() =~= rest);
        assert(text.last() as int == 48 + n % 10);
        assert(text[0] == rest[0]);
        assert forall|i: int| 0 <= i < text.len() implies 48 <= #[trigger] text[i] as int
            && text[i] as int <= 57 by {
            if i < rest.len() {
                assert(text[i] == rest[i]);
            }
        }
    }
}

/// A negative number is its magnitude behind a minus sign.
pub proof fn lemma_signed_decimal(n: int)
    ensures
        n >= 0 ==> signed_decimal(n) == decimal(n as nat),
        n < 0 ==> signed_decimal(n) == seq!['-'] + decimal((-n) as nat),
{
    reveal_strlit("-");
    assert("-"@ =~= seq!['-']);
}

} // verus!
