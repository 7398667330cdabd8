//! Decimal and boolean text used by human-readable evidence snapshots.
use vstd::prelude::*;

verus! {

/// The character of decimal digit `digit`.
pub open spec fn digit_char(digit: nat) -> char {
    if digit == 0 {
        '0'
    } else if digit == 1 {
        '1'
    } else if digit == 2 {
        '2'
    } else if digit == 3 {
        '3'
    } else if digit == 4 {
        '4'
    } else if digit == 5 {
        '5'
    } else if digit == 6 {
        '6'
    } else if digit == 7 {
        '7'
    } else if digit == 8 {
        '8'
    } else {
        '9'
    }
}

/// The decimal digits of `value`, most significant first, without leading
/// zeros.
pub open spec fn decimal(value: nat) -> Seq<char>
    decreases value,
{
    if value < 10 {
        seq![digit_char(value)]
    } else {
        decimal(value / 10) + seq![digit_char(value % 10)]
    }
}

/// The text of a boolean.
pub open spec fn bool_text(value: bool) -> Seq<char> {
    if value {
        "true"@
    } else {
        "false"@
    }
}

fn digit_text(digit: usize) -> (text: &'static str)
    requires
        digit < 10,
    ensures
        text@ == seq![digit_char(digit as nat)],
{
    if digit == 0 {
        proof {
            reveal_strlit("0");
        }
        "0"
    } else if digit == 1 {
        proof {
            reveal_strlit("1");
        }
        "1"
    } else if digit == 2 {
        proof {
            reveal_strlit("2");
        }
        "2"
    } else if digit == 3 {
        proof {
            reveal_strlit("3");
        }
        "3"
    } else if digit == 4 {
        proof {
            reveal_strlit("4");
        }
        "4"
    } else if digit == 5 {
        proof {
            reveal_strlit("5");
        }
        "5"
    } else if digit == 6 {
        proof {
            reveal_strlit("6");
        }
        "6"
    } else if digit == 7 {
        proof {
            reveal_strlit("7");
        }
        "7"
    } else if digit == 8 {
        proof {
            reveal_strlit("8");
        }
        "8"
    } else {
        proof {
            reveal_strlit("9");
        }
        "9"
    }
}

/// Appends the decimal text of `value`.
pub fn push_decimal(text: &mut String, value: usize)
    ensures
        final(text)@ == old(text)@ + decimal(value as nat),
    decreases value,
{
    if value >= 10 {
        push_decimal(text, value / 10);
    }
    text.append(digit_text(value % 10));
    proof {
        if value >= 10 {
            assert(old(text)@ + decimal((value / 10) as nat) + seq![digit_char((value % 10) as nat)]
                == old(text)@ + decimal(value as nat));
        }
    }
}

/// Appends `true` or `false`.
pub fn push_bool(text: &mut String, value: bool)
    ensures
        final(text)@ == old(text)@ + bool_text(value),
{
    if value {
        text.append("true");
    } else {
        text.append("false");
    }
}

} // verus!
