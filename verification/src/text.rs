//! Small text helpers shared by the formatter: decimal rendering of numbers,
//! and dropping the last character of a text.

use vstd::prelude::*;
use vstd::string::*;

verus! {

/// The ASCII digit for `d`, for `0 <= d < 10`.
pub open spec fn digit_spec(d: nat) -> char {
    if d == 0 {
        '0'
    } else if d == 1 {
        '1'
    } else if d == 2 {
        '2'
    } else if d == 3 {
        '3'
    } else if d == 4 {
        '4'
    } else if d == 5 {
        '5'
    } else if d == 6 {
        '6'
    } else if d == 7 {
        '7'
    } else if d == 8 {
        '8'
    } else {
        '9'
    }
}

/// The decimal representation of `n`, most significant digit first, without
/// leading zeros (zero is written `0`).
pub open spec fn decimal(n: nat) -> Seq<char>
    decreases n,
{
    if n < 10 {
        seq![digit_spec(n)]
    } else {
        decimal(n / 10).push(digit_spec(n % 10))
    }
}

/// `s` without its last character, or `s` itself when it is empty.
pub open spec fn without_last(s: Seq<char>) -> Seq<char> {
    if s.len() > 0 {
        s.drop_last()
    } else {
        s
    }
}

/// A copy of `s` without its last character (all of `s` when it is empty).
pub fn without_last_char(s: &str) -> (r: String)
    ensures
        r@ == without_last(s@),
{
    let n = s.unicode_len();
    if n == 0 {
        String::from_str(s)
    } else {
        String::from_str(s.substring_char(0, n - 1))
    }
}

/// The one-character text of the digit `d`.
pub fn digit_text(d: u32) -> (t: &'static str)
    requires
        d < 10,
    ensures
        t@ == seq![digit_spec(d as nat)],
{
    if d == 0 {
        proof {
            reveal_strlit("0");
        }
        "0"
    } else if d == 1 {
        proof {
            reveal_strlit("1");
        }
        "1"
    } else if d == 2 {
        proof {
            reveal_strlit("2");
        }
        "2"
    } else if d == 3 {
        proof {
            reveal_strlit("3");
        }
        "3"
    } else if d == 4 {
        proof {
            reveal_strlit("4");
        }
        "4"
    } else if d == 5 {
        proof {
            reveal_strlit("5");
        }
        "5"
    } else if d == 6 {
        proof {
            reveal_strlit("6");
        }
        "6"
    } else if d == 7 {
        proof {
            reveal_strlit("7");
        }
        "7"
    } else if d == 8 {
        proof {
            reveal_strlit("8");
        }
        "8"
    } else {
        proof {
            reveal_strlit("9");
        }
        "9"
    }
}

/// Renders `n` in decimal, as `{}` formats an unsigned integer.
pub fn decimal_string(n: u32) -> (s: String)
    ensures
        s@ == decimal(n as nat),
        decimal_value(s@) == n as int,
        forall|i: int| 0 <= i < s@.len() ==> '0' as int <= (#[trigger] s@[i]) as int <= '9' as int,
    decreases n,
{
    proof {
        law_decimal_reads_back(n as nat);
    }
    if n < 10 {
        String::from_str(digit_text(n))
    } else {
        let mut s = decimal_string(n / 10);
        s.append(digit_text(n % 10));
        s
    }
}

} // verus!

verus! {

/// The value of an ASCII digit character.
pub open spec fn digit_value(c: char) -> int {
    c as int - '0' as int
}

/// The number that a text of decimal digits denotes, read in base 10 with
/// the most significant digit first.
pub open spec fn decimal_value(s: Seq<char>) -> int
    decreases s.len(),
{
    if s.len() == 0 {
        0
    } else {
        decimal_value(s.drop_last()) * 10 + digit_value(s.last())
    }
}

/// The digit for `d` is the ASCII character whose code is that of `0` plus `d`.
pub proof fn law_digit_is_ascii(d: nat)
    requires
        d < 10,
    ensures
        digit_spec(d) as int == '0' as int + d,
        digit_value(digit_spec(d)) == d,
{
}

/// The decimal text of `n` is made of ASCII digits only, has no leading
/// zero (zero itself is `0`), and read back in base 10 it gives `n`.
pub proof fn law_decimal_reads_back(n: nat)
    ensures
        decimal(n).len() >= 1,
        forall|i: int|
            0 <= i < decimal(n).len() ==> '0' as int <= (#[trigger] decimal(n)[i]) as int <= '9' as int,
        decimal(n)[0] == '0' ==> n == 0,
        decimal_value(decimal(n)) == n,
    decreases n,
{
    if n < 10 {
        law_digit_is_ascii(n);
        assert(seq![digit_spec(n)].drop_last() =~= Seq::<char>::empty());
        assert(decimal_value(Seq::<char>::empty()) == 0);
        assert(decimal_value(decimal(n)) == decimal_value(Seq::<char>::empty()) * 10 + digit_value(
            digit_spec(n),
        ));
    } else {
        law_decimal_reads_back(n / 10);
        law_digit_is_ascii(n % 10);
        let prefix = decimal(n / 10);
        assert(decimal(n) == prefix.push(digit_spec(n % 10)));
        assert(decimal(n).drop_last() =~= prefix);
        assert(decimal(n)[0] == prefix[0]);
        assert forall|i: int| 0 <= i < decimal(n).len() implies '0' as int <= (#[trigger] decimal(
            n,
        )[i]) as int <= '9' as int by {
            if i < prefix.len() {
                assert(decimal(n)[i] == prefix[i]);
            }
        }
        assert(decimal_value(decimal(n)) == decimal_value(prefix) * 10 + digit_value(
            digit_spec(n % 10),
        ));
        assert(n == (n / 10) * 10 + n % 10);
    }
}

/// Dropping the last character of a non-empty text leaves everything before
/// it, one character shorter; an empty text stays empty.
pub proof fn law_without_last(s: Seq<char>)
    ensures
        s.len() > 0 ==> without_last(s).push(s.last()) == s && without_last(s).len() == s.len() - 1,
        s.len() == 0 ==> without_last(s).len() == 0,
{
    if s.len() > 0 {
        assert(without_last(s).push(s.last()) =~= s);
    }
}

} // verus!
