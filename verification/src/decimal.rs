//! Whole numbers, written in decimal.

use vstd::prelude::*;
use vstd::string::*;

use crate::pieces::strip_prefix;

verus! {

/// A digit.
pub open spec fn digit(d: int) -> char {
    (48 + d) as char
}

/// A number in decimal.
pub open spec fn decimal_of(n: nat) -> Seq<char>
    decreases n,
{
    if n < 10 {
        seq![digit(n as int)]
    } else {
        decimal_of(n / 10).push(digit((n % 10) as int))
    }
}

/// Whether a character is a decimal digit.
pub open spec fn is_digit(c: char) -> bool {
    '0' <= c <= '9'
}

/// What digits come to.
pub open spec fn value_of(digits: Seq<char>) -> nat
    decreases digits.len(),
{
    if digits.len() == 0 {
        0
    } else {
        value_of(digits.drop_last()) * 10 + (digits.last() as u32 - 48) as nat
    }
}

/// The number that digits are, if they are digits and it fits.
pub open spec fn number_from(digits: Seq<char>) -> Option<nat> {
    if digits.len() > 0 && (forall|i: int| 0 <= i < digits.len() ==> is_digit(#[trigger] digits[i]))
        && value_of(digits) <= usize::MAX {
        Some(value_of(digits))
    } else {
        None
    }
}

/// The number that a text is in decimal, if it is one that fits: digits, after
/// a `+` that may be there.
pub open spec fn number_in(text: Seq<char>) -> Option<nat> {
    number_from(
        if text.len() > 0 && text[0] == '+' {
            text.drop_first()
        } else {
            text
        },
    )
}

/// `n` in decimal.
pub fn decimal(n: usize) -> (r: String)
    ensures
        r@ == decimal_of(n as nat),
    decreases n,
{
    if n < 10 {
        digit_text(n)
    } else {
        let mut text = decimal(n / 10);
        let last = digit_text(n % 10);
        text.append(last.as_str());
        assert(text@ =~= decimal_of(n as nat));
        text
    }
}

fn digit_text(d: usize) -> (r: String)
    requires
        d < 10,
    ensures
        r@ == seq![digit(d as int)],
{
    proof {
        reveal_strlit("0");
        reveal_strlit("1");
        reveal_strlit("2");
        reveal_strlit("3");
        reveal_strlit("4");
        reveal_strlit("5");
        reveal_strlit("6");
        reveal_strlit("7");
        reveal_strlit("8");
        reveal_strlit("9");
    }
    let text = match d {
        0 => "0",
        1 => "1",
        2 => "2",
        3 => "3",
        4 => "4",
        5 => "5",
        6 => "6",
        7 => "7",
        8 => "8",
        _ => "9",
    };
    assert(text@ =~= seq![digit(d as int)]);
    text.to_owned()
}

/// The number that `text` is in decimal.
pub fn parse(text: &str) -> (r: Option<usize>)
    ensures
        match (r, number_in(text@)) {
            (Some(a), Some(b)) => a == b,
            (None, None) => true,
            _ => false,
        },
{
    proof {
        reveal_strlit("+");
        crate::pieces::lemma_one_char(text@, "+"@, '+');
    }
    let digits = match strip_prefix(text, "+") {
        Some(digits) => digits,
        None => text,
    };
    let mut total: Option<usize> = Some(0);
    let mut any = false;
    proof {
        assert(digits@.take(0) =~= Seq::<char>::empty());
    }
    for c in it: digits.chars()
        invariant
            it.seq() == digits@,
            any == (it.index() > 0),
            forall|i: int| 0 <= i < it.index() ==> is_digit(#[trigger] digits@[i]),
            match total {
                Some(n) => n == value_of(digits@.take(it.index())),
                None => value_of(digits@.take(it.index())) > usize::MAX,
            },
            number_in(text@) == number_from(digits@),
    {
        let ghost k = it.index();
        assert(digits@[k] == c);
        if !('0' <= c && c <= '9') {
            assert(!is_digit(digits@[k]));
            return None;
        }
        proof {
            assert(digits@.take(k + 1).drop_last() =~= digits@.take(k));
            assert(digits@.take(k + 1).last() == c);
        }
        any = true;
        let d: usize = (c as u32 - 48) as usize;
        total = match total {
            Some(n) => match n.checked_mul(10) {
                Some(tens) => tens.checked_add(d),
                None => None,
            },
            None => None,
        };
    }
    assert(digits@.take(digits@.len() as int) =~= digits@);
    if any {
        total
    } else {
        None
    }
}

/// What is written in decimal is all digits, and reads back as the number.
pub proof fn law_decimals_read_back(n: usize)
    ensures
        number_in(decimal_of(n as nat)) == Some(n as nat),
{
    lemma_decimal(n as nat);
    assert(is_digit(decimal_of(n as nat)[0]));
}

pub proof fn lemma_decimal(n: nat)
    ensures
        decimal_of(n).len() > 0,
        value_of(decimal_of(n)) == n,
        forall|i: int| 0 <= i < decimal_of(n).len() ==> is_digit(#[trigger] decimal_of(n)[i]),
    decreases n,
{
    reveal_with_fuel(value_of, 2);
    if n < 10 {
        assert(decimal_of(n).drop_last() =~= Seq::<char>::empty());
    } else {
        lemma_decimal(n / 10);
        assert(decimal_of(n).drop_last() =~= decimal_of(n / 10));
    }
}

} // verus!
