//! Small text tools: decimal numbers and searching for a character.

use vstd::prelude::*;
use vstd::string::*;

verus! {

/// Whether `c` is one of the ten decimal digits.
pub open spec fn is_digit(c: char) -> bool {
    48 <= c as u32 <= 57
}

/// The value of a decimal digit.
pub open spec fn digit_value(c: char) -> nat {
    (c as u32 - 48) as nat
}

/// Whether the text holds decimal digits only.
pub open spec fn all_digits(s: Seq<char>) -> bool {
    forall|i: int| 0 <= i < s.len() ==> is_digit(#[trigger] s[i])
}

/// The number that a text of decimal digits writes, most significant digit
/// first.
pub open spec fn decimal_value(s: Seq<char>) -> nat
    decreases s.len(),
{
    if s.len() == 0 {
        0
    } else {
        decimal_value(s.drop_last()) * 10 + digit_value(s.last())
    }
}

/// The decimal digit for a value below ten.
pub open spec fn digit_char(d: nat) -> char {
    (48 + d) as u8 as char
}

/// How a number is written in decimal, without leading zeros.
pub open spec fn decimal_digits(n: nat) -> Seq<char>
    decreases n,
{
    if n < 10 {
        seq![digit_char(n)]
    } else {
        decimal_digits(n / 10).push(digit_char(n % 10))
    }
}

/// The index of the first `c` in `s`, or the length of `s` without one.
pub open spec fn first_at(s: Seq<char>, c: char) -> int {
    match s.index_of_first(c) {
        Some(i) => i,
        None => s.len() as int,
    }
}

/// The first occurrence is the only index that holds `c` with none before it.
pub proof fn lemma_first_at(s: Seq<char>, c: char, at: int)
    requires
        0 <= at <= s.len(),
        forall|j: int| 0 <= j < at ==> s[j] != c,
        at < s.len() ==> s[at] == c,
    ensures
        first_at(s, c) == at,
{
    s.index_of_first_ensures(c);
    match s.index_of_first(c) {
        Some(i) => {
            if at < s.len() {
                if i < at {
                    assert(s[i] != c);
                } else if at < i {
                    assert(s[at] != c);
                }
            } else {
                assert(s[i] != c);
            }
        },
        None => {
            if at < s.len() {
                assert(s.contains(s[at]));
            }
        },
    }
}

/// A number written with more digits is no smaller.
pub proof fn lemma_decimal_value_prefix(s: Seq<char>, n: int)
    requires
        0 <= n <= s.len(),
    ensures
        decimal_value(s.take(n)) <= decimal_value(s),
    decreases s.len() - n,
{
    if n < s.len() {
        assert(s.take(n + 1).drop_last() =~= s.take(n));
        lemma_decimal_value_prefix(s, n + 1);
    } else {
        assert(s.take(n) =~= s);
    }
}

/// The text of one decimal digit.
fn digit_text(d: usize) -> (text: &'static str)
    requires
        d < 10,
    ensures
        text@ == seq![digit_char(d as nat)],
{
    proof {
        reveal_strlit("0");
        reveal_strlit("1");
        reveal_strlit("2");
        reveal_strlit("3");
        reveal_strlit("4");
        reveal_strlit("5");
        reveal_strlit("6");
        reveal_strlit("7");
        reveal_strlit("8");
        reveal_strlit("9");
    }
    let text: &'static str = if d == 0 {
        "0"
    } else if d == 1 {
        "1"
    } else if d == 2 {
        "2"
    } else if d == 3 {
        "3"
    } else if d == 4 {
        "4"
    } else if d == 5 {
        "5"
    } else if d == 6 {
        "6"
    } else if d == 7 {
        "7"
    } else if d == 8 {
        "8"
    } else {
        "9"
    };
    proof {
        assert(text@ =~= seq![digit_char(d as nat)]);
    }
    text
}

/// Writes a number in decimal, without leading zeros.
pub fn decimal_string(n: usize) -> (s: String)
    ensures
        s@ == decimal_digits(n as nat),
    decreases n,
{
    if n < 10 {
        String::from_str(digit_text(n))
    } else {
        let mut s: String = decimal_string(n / 10);
        s.append(digit_text(n % 10));
        proof {
            assert(s@ =~= decimal_digits((n / 10) as nat).push(digit_char((n % 10) as nat)));
        }
        s
    }
}

/// The index of the first `c` in `text` at or after `from`, or the length of
/// `text` when there is none.
pub fn find_char(text: &str, c: char, from: usize) -> (at: usize)
    requires
        from <= text@.len(),
    ensures
        from <= at <= text@.len(),
        forall|j: int| from <= j < at ==> text@[j] != c,
        at < text@.len() ==> text@[at as int] == c,
        from == 0 ==> at == first_at(text@, c),
{
    let len: usize = text.unicode_len();
    let mut at: usize = from;
    while at < len && text.get_char(at) != c
        invariant
            from <= at <= len,
            len == text@.len(),
            forall|j: int| from <= j < at ==> text@[j] != c,
        decreases len - at,
    {
        at += 1;
    }
    proof {
        if from == 0 {
            lemma_first_at(text@, c, at as int);
        }
    }
    at
}

/// Reads a non-empty text of decimal digits as a number; `None` when the
/// text is empty, holds anything but digits, or writes a number that does
/// not fit.
pub fn parse_decimal(text: &str) -> (r: Option<u64>)
    ensures
        r == if text@.len() > 0 && all_digits(text@) && decimal_value(text@) <= u64::MAX {
            Some(decimal_value(text@) as u64)
        } else {
            None
        },
{
    let len: usize = text.unicode_len();
    if len == 0 {
        return None;
    }
    let mut value: u64 = 0;
    let mut n: usize = 0;
    while n < len
        invariant
            n <= len,
            len == text@.len(),
            all_digits(text@.take(n as int)),
            value == decimal_value(text@.take(n as int)),
        decreases len - n,
    {
        let c: char = text.get_char(n);
        if !('0' <= c && c <= '9') {
            proof {
                assert(!is_digit(text@[n as int]));
            }
            return None;
        }
        let digit: u64 = (c as u32 - 48) as u64;
        proof {
            assert(text@.take(n + 1).drop_last() =~= text@.take(n as int));
            assert(text@.take(n + 1).last() == c);
            assert(decimal_value(text@.take(n + 1)) == value * 10 + digit);
            lemma_decimal_value_prefix(text@, n + 1);
        }
        if value > (u64::MAX - digit) / 10 {
            return None;
        }
        value = value * 10 + digit;
        proof {
            assert forall|i: int| 0 <= i < n + 1 implies is_digit(#[trigger] text@.take(n + 1)[i]) by {
                if i < n {
                    assert(text@.take(n as int)[i] == text@[i]);
                }
            }
        }
        n += 1;
    }
    proof {
        assert(text@.take(n as int) =~= text@);
    }
    Some(value)
}

/// Whether two texts hold the same characters.
pub fn same_text(a: &str, b: &str) -> (same: bool)
    ensures
        same == (a@ == b@),
{
    let len: usize = a.unicode_len();
    if len != b.unicode_len() {
        return false;
    }
    let mut n: usize = 0;
    while n < len
        invariant
            n <= len,
            len == a@.len(),
            len == b@.len(),
            forall|i: int| 0 <= i < n ==> a@[i] == b@[i],
        decreases len - n,
    {
        if a.get_char(n) != b.get_char(n) {
            return false;
        }
        n += 1;
    }
    proof {
        assert(a@ =~= b@);
    }
    true
}

} // verus!
