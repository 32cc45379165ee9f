//! Strings that grow and shrink by a character.

use vstd::prelude::*;

verus! {

/// `String::push` appends the given character to the end of the string.
pub assume_specification[ String::push ](s: &mut String, ch: char)
    ensures
        final(s)@ == old(s)@.push(ch),
;

/// `String::pop` removes the last character from the string and returns it. It returns `None`, and
/// leaves the string as it is, if the string is empty.
pub assume_specification[ String::pop ](s: &mut String) -> (ch: Option<char>)
    ensures
        old(s)@.len() == 0 ==> ch is None && final(s)@ == old(s)@,
        old(s)@.len() > 0 ==> ch == Some(old(s)@.last()) && final(s)@ == old(s)@.drop_last(),
;

/// The string of one character.
pub fn of_char(c: char) -> (s: String)
    ensures
        s@ == seq![c],
{
    let mut s: String = String::new();
    s.push(c);
    assert(s@ =~= seq![c]);
    s
}

/// The digits of a number in the decimal system.
pub open spec fn decimal(n: nat) -> Seq<char>
    decreases n,
{
    if n < 10 {
        seq![digit(n as int)]
    } else {
        decimal(n / 10).push(digit(n as int % 10))
    }
}

/// The character of a digit.
pub open spec fn digit(d: int) -> char {
    if d == 0 {
        '0'
    } else if d == 1 {
        '1'
    } else if d == 2 {
        '2'
    } else if d == 3 {
        '3'
    } else if d == 4 {
        '4'
    } else if d == 5 {
        '5'
    } else if d == 6 {
        '6'
    } else if d == 7 {
        '7'
    } else if d == 8 {
        '8'
    } else {
        '9'
    }
}

fn digit_char(d: u64) -> (c: char)
    requires
        d < 10,
    ensures
        c == digit(d as int),
{
    if d == 0 {
        '0'
    } else if d == 1 {
        '1'
    } else if d == 2 {
        '2'
    } else if d == 3 {
        '3'
    } else if d == 4 {
        '4'
    } else if d == 5 {
        '5'
    } else if d == 6 {
        '6'
    } else if d == 7 {
        '7'
    } else if d == 8 {
        '8'
    } else {
        '9'
    }
}

/// Writes a number in the decimal system.
pub fn to_decimal(n: u64) -> (s: String)
    ensures
        s@ == decimal(n as nat),
    decreases n,
{
    if n < 10 {
        of_char(digit_char(n))
    } else {
        let mut s: String = to_decimal(n / 10);
        s.push(digit_char(n % 10));
        s
    }
}

/// What a row of digits amounts to.
pub open spec fn value_of(s: Seq<char>) -> int {
    s.fold_left(0int, |v: int, c: char| 10 * v + (c as u32 - 0x30))
}

/// A number is written with the digits from 0 to 9, which amount to it, and with no zero in front.
pub proof fn digits_amount_to_the_number(n: nat)
    ensures
        value_of(decimal(n)) == n,
        decimal(n).len() > 0,
        forall|i: int| 0 <= i < decimal(n).len() ==> 0x30 <= (#[trigger] decimal(n)[i]) as u32 <= 0x39,
        n > 0 ==> decimal(n)[0] != '0',
        n == 0 ==> decimal(n) == seq!['0'],
    decreases n,
{
    let s = decimal(n);
    let append = |v: int, c: char| 10 * v + (c as u32 - 0x30);
    if n < 10 {
        assert(s.drop_last() =~= Seq::empty());
        assert(s.drop_last().fold_left(0int, append) == 0);
        assert(s.fold_left(0int, append) == append(0, s.last()));
    } else {
        digits_amount_to_the_number(n / 10);
        let front = decimal(n / 10);
        assert(s.drop_last() =~= front);
        assert(s.fold_left(0int, append) == append(front.fold_left(0int, append), s.last()));
        assert(s[0] == front[0]);
        assert forall|i: int| 0 <= i < s.len() implies 0x30 <= (#[trigger] s[i]) as u32 <= 0x39 by {
            if i < front.len() {
                assert(s[i] == front[i]);
            }
        }
    }
}

} // verus!
