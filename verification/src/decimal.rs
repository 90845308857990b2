//! Integers in decimal, as messages show them.

use vstd::prelude::*;
use vstd::string::*;

verus! {

/// The character of the digit `d`.
pub open spec fn digit_char(d: nat) -> char {
    (('0' as nat) + d) as char
}

/// `n` in decimal, without leading zeros.
pub open spec fn decimal(n: nat) -> Seq<char>
    decreases n,
{
    if n < 10 {
        seq![digit_char(n)]
    } else {
        decimal(n / 10).push(digit_char(n % 10))
    }
}

/// `n` in decimal, after a minus sign where it is negative.
pub open spec fn signed_decimal(n: int) -> Seq<char> {
    if n < 0 {
        seq!['-'] + decimal((-n) as nat)
    } else {
        decimal(n as nat)
    }
}

/// Puts the digit `d` behind `text`.
fn append_digit(text: &mut String, d: u64)
    requires
        d < 10,
    ensures
        final(text)@ == old(text)@.push(digit_char(d as nat)),
{
    proof {
        reveal_strlit("0");
        reveal_strlit("1");
        reveal_strlit("2");
        reveal_strlit("3");
        reveal_strlit("4");
        reveal_strlit("5");
        reveal_strlit("6");
        reveal_strlit("7");
        reveal_strlit("8");
        reveal_strlit("9");
    }
    let digit: &str = match d {
        0 => "0",
        1 => "1",
        2 => "2",
        3 => "3",
        4 => "4",
        5 => "5",
        6 => "6",
        7 => "7",
        8 => "8",
        _ => "9",
    };
    assert(digit@ =~= seq![digit_char(d as nat)]);
    text.append(digit);
    assert(old(text)@ + digit@ =~= old(text)@.push(digit_char(d as nat)));
}

/// Puts `n` in decimal behind `text`.
pub(crate) fn append_decimal(text: &mut String, n: u64)
    ensures
        final(text)@ == old(text)@ + decimal(n as nat),
    decreases n,
{
    if n >= 10 {
        append_decimal(text, n / 10);
    }
    append_digit(text, n % 10);
    assert(text@ =~= old(text)@ + decimal(n as nat));
}

/// Puts `n` in decimal behind `text`, with its sign where it is negative.
pub(crate) fn append_signed_decimal(text: &mut String, n: i32)
    ensures
        final(text)@ == old(text)@ + signed_decimal(n as int),
{
    let wide: i64 = n as i64;
    if wide < 0 {
        proof {
            reveal_strlit("-");
        }
        text.append("-");
        append_decimal(text, (-wide) as u64);
        assert(text@ =~= old(text)@ + signed_decimal(n as int));
    } else {
        append_decimal(text, wide as u64);
    }
}

/// The number that `text` shows, read from the left, ten times as much for each further digit.
pub open spec fn shown(text: Seq<char>) -> int
    decreases text.len(),
{
    if text.len() == 0 {
        0
    } else {
        10 * shown(text.drop_last()) + (text.last() as int - '0' as int)
    }
}

/// A number in decimal is made of digits, shows that number, and has no leading zero unless it is
/// zero itself, which is a single digit.
pub proof fn law_decimal_shows_the_number(n: nat)
    ensures
        decimal(n).len() > 0,
        shown(decimal(n)) == n,
        forall|i: int| 0 <= i < decimal(n).len() ==> '0' <= #[trigger] decimal(n)[i] <= '9',
        n > 0 ==> decimal(n)[0] != '0',
        n < 10 ==> decimal(n).len() == 1,
    decreases n,
{
    reveal_with_fuel(shown, 2);
    if n < 10 {
        assert(decimal(n).drop_last() =~= Seq::<char>::empty());
    } else {
        law_decimal_shows_the_number(n / 10);
        assert(decimal(n).drop_last() =~= decimal(n / 10));
        assert(decimal(n)[0] == decimal(n / 10)[0]);
        assert forall|i: int| 0 <= i < decimal(n).len() implies '0' <= #[trigger] decimal(n)[i]
            <= '9' by {
            if i < decimal(n / 10).len() {
                assert(decimal(n)[i] == decimal(n / 10)[i]);
            }
        }
    }
}

/// A negative number is shown behind a minus sign, any other one as it is.
pub proof fn law_sign_is_shown(n: int)
    ensures
        n >= 0 ==> signed_decimal(n) == decimal(n as nat),
        n < 0 ==> signed_decimal(n) == seq!['-'] + decimal((-n) as nat),
{
}

} // verus!
