//! Whole numbers as decimal text.

use vstd::prelude::*;
use crate::text::{chars_of, push_char};

verus! {

/// The character is a decimal digit.
pub open spec fn is_digit(c: char) -> bool {
    '0' <= c && c <= '9'
}

/// The digit that stands for a value below ten.
pub open spec fn digit_of(value: nat) -> char {
    if value == 0 {
        '0'
    } else if value == 1 {
        '1'
    } else if value == 2 {
        '2'
    } else if value == 3 {
        '3'
    } else if value == 4 {
        '4'
    } else if value == 5 {
        '5'
    } else if value == 6 {
        '6'
    } else if value == 7 {
        '7'
    } else if value == 8 {
        '8'
    } else {
        '9'
    }
}

/// The value of a decimal digit.
pub open spec fn digit_value(c: char) -> nat {
    (c as int - '0' as int) as nat
}

/// The decimal text of a number, without leading zeros.
pub open spec fn decimal(n: nat) -> Seq<char>
    decreases n,
{
    if n < 10 {
        seq![digit_of(n)]
    } else {
        decimal(n / 10).push(digit_of(n % 10))
    }
}

/// The number that a run of digits stands for.
pub open spec fn digits_value(s: Seq<char>) -> nat
    decreases s.len(),
{
    if s.len() == 0 {
        0
    } else {
        digits_value(s.drop_last()) * 10 + digit_value(s.last())
    }
}

/// The text is a number as [`decimal`] writes it: digits only, at least one,
/// and no leading zero before another digit.
pub open spec fn is_decimal(s: Seq<char>) -> bool {
    &&& s.len() > 0
    &&& forall|i: int| 0 <= i < s.len() ==> is_digit(#[trigger] s[i])
    &&& s.len() > 1 ==> s[0] != '0'
}

/// The number that a decimal text stands for, if it is one.
pub open spec fn number_of(s: Seq<char>) -> Option<nat> {
    if is_decimal(s) {
        Some(digits_value(s))
    } else {
        None
    }
}

/// The decimal text of a number stands for that number.
pub proof fn lemma_decimal_read_back(n: nat)
    ensures
        number_of(decimal(n)) == Some(n),
        n > 0 ==> decimal(n)[0] != '0',
    decreases n,
{
    if n < 10 {
        let s = decimal(n);
        assert(s.drop_last() =~= Seq::<char>::empty());
        assert(digits_value(s.drop_last()) == 0);
    } else {
        lemma_decimal_read_back(n / 10);
        let shorter = decimal(n / 10);
        let s = decimal(n);
        assert(s.drop_last() =~= shorter);
        assert(s[0] == shorter[0]);
        assert forall|i: int| 0 <= i < s.len() implies is_digit(#[trigger] s[i]) by {
            if i < shorter.len() {
                assert(s[i] == shorter[i]);
            }
        }
    }
}

/// The value of a digit, or nothing for another character.
fn value_of_digit(c: char) -> (r: Option<u64>)
    ensures
        r matches Some(v) ==> is_digit(c) && v == digit_value(c),
        r is None ==> !is_digit(c),
{
    match c {
        '0' => Some(0),
        '1' => Some(1),
        '2' => Some(2),
        '3' => Some(3),
        '4' => Some(4),
        '5' => Some(5),
        '6' => Some(6),
        '7' => Some(7),
        '8' => Some(8),
        '9' => Some(9),
        _ => None,
    }
}

/// Reads a decimal text as a number that fits 32 bits.
pub fn parse_u32(text: &str) -> (r: Option<u32>)
    ensures
        r matches Some(n) ==> number_of(text@) == Some(n as nat),
        r is None ==> (number_of(text@) matches Some(n) ==> n > u32::MAX),
{
    let chars = chars_of(text);
    let ghost s = chars@;
    if chars.len() == 0 {
        return None;
    }
    if chars.len() > 1 && chars[0] == '0' {
        return None;
    }
    let mut value: u64 = 0;
    let mut i: usize = 0;
    let mut over = false;
    proof {
        assert(s.take(0) =~= Seq::<char>::empty());
    }
    while i < chars.len()
        invariant
            i <= chars.len(),
            s == chars@,
            s == text@,
            forall|j: int| 0 <= j < i ==> is_digit(#[trigger] s[j]),
            !over ==> value == digits_value(s.take(i as int)) && value <= u32::MAX,
            over ==> digits_value(s.take(i as int)) > u32::MAX,
        decreases chars.len() - i,
    {
        proof {
            assert(s.take(i + 1).drop_last() =~= s.take(i as int));
        }
        match value_of_digit(chars[i]) {
            Some(d) => {
                if !over {
                    value = value * 10 + d;
                    if value > 0xffff_ffff {
                        over = true;
                    }
                }
            },
            None => {
                proof {
                    assert(!is_digit(s[i as int]));
                }
                return None;
            },
        }
        i += 1;
    }
    proof {
        assert(s.take(i as int) =~= s);
    }
    if over {
        None
    } else {
        Some(value as u32)
    }
}

/// The digit for a value below ten.
fn digit_for(value: u64) -> (c: char)
    requires
        value < 10,
    ensures
        c == digit_of(value as nat),
{
    if value == 0 {
        '0'
    } else if value == 1 {
        '1'
    } else if value == 2 {
        '2'
    } else if value == 3 {
        '3'
    } else if value == 4 {
        '4'
    } else if value == 5 {
        '5'
    } else if value == 6 {
        '6'
    } else if value == 7 {
        '7'
    } else if value == 8 {
        '8'
    } else {
        '9'
    }
}

/// Appends the decimal text of a number.
pub fn push_decimal(out: &mut String, n: u64)
    ensures
        final(out)@ == old(out)@ + decimal(n as nat),
    decreases n,
{
    if n >= 10 {
        push_decimal(out, n / 10);
    }
    push_char(out, digit_for(n % 10));
    proof {
        if n >= 10 {
            assert(old(out)@ + decimal(n as nat) =~= (old(out)@ + decimal((n / 10) as nat)).push(
                digit_of((n % 10) as nat),
            ));
        } else {
            assert(old(out)@ + decimal(n as nat) =~= old(out)@.push(digit_of(n as nat)));
        }
    }
}

/// The decimal text of a number.
pub fn decimal_text(n: u64) -> (r: String)
    ensures
        r@ == decimal(n as nat),
{
    let mut out = String::new();
    push_decimal(&mut out, n);
    proof {
        assert(Seq::<char>::empty() + decimal(n as nat) =~= decimal(n as nat));
    }
    out
}

} // verus!
