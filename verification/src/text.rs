//! Text: decimal numerals and padding.
use vstd::prelude::*;

verus! {

/// The numeral of a digit.
pub open spec fn numeral(d: nat) -> char {
    if d == 0 {
        '0'
    } else if d == 1 {
        '1'
    } else if d == 2 {
        '2'
    } else if d == 3 {
        '3'
    } else if d == 4 {
        '4'
    } else if d == 5 {
        '5'
    } else if d == 6 {
        '6'
    } else if d == 7 {
        '7'
    } else if d == 8 {
        '8'
    } else {
        '9'
    }
}

/// A number in decimal, without leading zeros.
pub open spec fn decimal(n: nat) -> Seq<char>
    decreases n,
{
    if n < 10 {
        seq![numeral(n)]
    } else {
        decimal(n / 10).push(numeral(n % 10))
    }
}

/// The last `width` decimal digits of a number, with leading zeros.
pub open spec fn decimal_tail(n: nat, width: nat) -> Seq<char>
    decreases width,
{
    if width == 0 {
        Seq::empty()
    } else {
        decimal_tail(n / 10, (width - 1) as nat).push(numeral(n % 10))
    }
}

/// The text of one digit.
pub(crate) fn digit_text(d: u8) -> (s: &'static str)
    requires
        d < 10,
    ensures
        s@ == seq![numeral(d as nat)],
{
    proof {
        reveal_strlit("0");
        reveal_strlit("1");
        reveal_strlit("2");
        reveal_strlit("3");
        reveal_strlit("4");
        reveal_strlit("5");
        reveal_strlit("6");
        reveal_strlit("7");
        reveal_strlit("8");
        reveal_strlit("9");
    }
    let s = match d {
        0 => "0",
        1 => "1",
        2 => "2",
        3 => "3",
        4 => "4",
        5 => "5",
        6 => "6",
        7 => "7",
        8 => "8",
        _ => "9",
    };
    assert(s@ =~= seq![numeral(d as nat)]);
    s
}

/// Appends a number in decimal.
pub fn append_decimal(text: &mut String, n: u128)
    ensures
        final(text)@ == old(text)@ + decimal(n as nat),
    decreases n,
{
    if n >= 10 {
        append_decimal(text, n / 10);
    }
    text.append(digit_text((n % 10) as u8));
    assert(text@ =~= old(text)@ + decimal(n as nat));
}

/// Appends the last `width` decimal digits of a number.
pub fn append_tail(text: &mut String, n: u128, width: u32)
    ensures
        final(text)@ == old(text)@ + decimal_tail(n as nat, width as nat),
    decreases width,
{
    if width > 0 {
        append_tail(text, n / 10, width - 1);
        text.append(digit_text((n % 10) as u8));
    }
    assert(text@ =~= old(text)@ + decimal_tail(n as nat, width as nat));
}

/// So many spaces.
pub open spec fn spaces(n: nat) -> Seq<char>
    decreases n,
{
    if n == 0 {
        Seq::empty()
    } else {
        spaces((n - 1) as nat).push(' ')
    }
}

/// The spaces that a text lacks of a width.
pub open spec fn padding(s: Seq<char>, width: nat) -> Seq<char> {
    if s.len() < width {
        spaces((width - s.len()) as nat)
    } else {
        Seq::empty()
    }
}

/// A text at the left of a column.
pub open spec fn at_left(s: Seq<char>, width: nat) -> Seq<char> {
    s + padding(s, width)
}

/// A text at the right of a column.
pub open spec fn at_right(s: Seq<char>, width: nat) -> Seq<char> {
    padding(s, width) + s
}

fn append_padding(text: &mut String, s: &str, width: usize)
    ensures
        final(text)@ == old(text)@ + padding(s@, width as nat),
{
    let n = s.unicode_len();
    let mut i: usize = n;
    assert(text@ =~= old(text)@ + spaces(0));
    while i < width
        invariant
            n == s@.len(),
            n <= i,
            i <= width || i == n,
            text@ == old(text)@ + spaces((i - n) as nat),
        decreases width - i,
    {
        proof {
            reveal_strlit(" ");
        }
        text.append(" ");
        i = i + 1;
        assert(text@ =~= old(text)@ + spaces((i - n) as nat));
    }
    assert(text@ =~= old(text)@ + padding(s@, width as nat));
}

/// Appends a text at the left of a column.
pub fn append_at_left(text: &mut String, s: &str, width: usize)
    ensures
        final(text)@ == old(text)@ + at_left(s@, width as nat),
{
    text.append(s);
    append_padding(text, s, width);
    assert(text@ =~= old(text)@ + at_left(s@, width as nat));
}

/// Appends a text at the right of a column.
pub fn append_at_right(text: &mut String, s: &str, width: usize)
    ensures
        final(text)@ == old(text)@ + at_right(s@, width as nat),
{
    append_padding(text, s, width);
    text.append(s);
    assert(text@ =~= old(text)@ + at_right(s@, width as nat));
}

} // verus!
