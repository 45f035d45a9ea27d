//! Text: decimal numerals for messages, and fixed-width cells for the tables that the
//! command-line tools print.
use vstd::prelude::*;
use vstd::string::{StrSliceExecFns, StringSliceAdditionalSpecFns};
use vstd::utf8::{decode_utf8, is_char_boundary};
use crate::http_request::{digits_value, digit_value, is_digit, parse_usize, unsigned_digits};

verus! {

broadcast use vstd::utf8::group_utf8_lib;

/// The decimal digit character for d < 10.
pub open spec fn digit_char(d: nat) -> char {
    (48 + d) as char
}

/// The decimal numeral of n: its digits, most significant first, without leading
/// zeros ("0" for zero).
pub open spec fn decimal(n: nat) -> Seq<char>
    decreases n,
{
    if n < 10 {
        seq![digit_char(n)]
    } else {
        decimal(n / 10).push(digit_char(n % 10))
    }
}

/// A decimal numeral reads back as its number: all its characters are ASCII digits,
/// it starts with '0' only for zero, and the number its digits write is `n`.
pub proof fn law_decimal_reads_back(n: nat)
    ensures
        decimal(n).len() >= 1,
        forall|k: int| 0 <= k < decimal(n).len() ==> is_digit(#[trigger] decimal(n)[k]),
        decimal(n)[0] == '0' ==> n == 0,
        digits_value(decimal(n)) == n,
    decreases n,
{
    assert(((48 + n % 10) as char) as u32 == 48 + n % 10);
    let d = digit_char(n % 10);
    assert(digit_value(d) == n % 10);
    if n < 10 {
        assert(decimal(n) =~= seq![d]);
        assert(decimal(n).drop_last() =~= Seq::<char>::empty());
        assert(decimal(n).last() == d);
        assert(digits_value(decimal(n)) == digits_value(Seq::<char>::empty()) * 10 + digit_value(d));
    } else {
        law_decimal_reads_back(n / 10);
        assert(decimal(n).drop_last() =~= decimal(n / 10));
        assert(decimal(n).last() == d);
        assert(digits_value(decimal(n)) == digits_value(decimal(n / 10)) * 10 + digit_value(d));
        assert(decimal(n)[0] == decimal(n / 10)[0]);
    }
}

/// Reading a number back from its decimal numeral (as `usize::from_str` does) gives
/// the number.
pub proof fn law_parse_reads_decimal(n: usize)
    ensures
        parse_usize(decimal(n as nat)) == Some(n),
{
    law_decimal_reads_back(n as nat);
    let d = decimal(n as nat);
    assert(is_digit(d[0]));
    assert(('+' as u32) == 43);
    assert(d[0] != '+');
    assert(unsigned_digits(d) == d);
}

/// Append the decimal digit `d` to `s`.
fn push_digit(s: &mut String, d: u64)
    requires
        d < 10,
    ensures
        final(s)@ == old(s)@.push(digit_char(d as nat)),
{
    let text = match d {
        0 => "0",
        1 => "1",
        2 => "2",
        3 => "3",
        4 => "4",
        5 => "5",
        6 => "6",
        7 => "7",
        8 => "8",
        _ => "9",
    };
    proof {
        reveal_strlit("0");
        reveal_strlit("1");
        reveal_strlit("2");
        reveal_strlit("3");
        reveal_strlit("4");
        reveal_strlit("5");
        reveal_strlit("6");
        reveal_strlit("7");
        reveal_strlit("8");
        reveal_strlit("9");
        assert(text@ == seq![digit_char(d as nat)]);
    }
    s.append(text);
}

/// Append the decimal numeral of `n` to `s`.
pub(crate) fn push_decimal(s: &mut String, n: u64)
    ensures
        final(s)@ == old(s)@ + decimal(n as nat),
    decreases n,
{
    if n >= 10 {
        push_decimal(s, n / 10);
    }
    push_digit(s, n % 10);
    proof {
        if n >= 10 {
            assert(old(s)@ + decimal(n as nat) == (old(s)@ + decimal((n / 10) as nat)).push(digit_char((n % 10) as nat)));
        }
    }
}

/// `s` padded with spaces on the right to `width` characters (as a `format!` width
/// pads left-aligned text; text as wide as `width` or wider is left as it is).
fn pad_right(s: &str, width: usize) -> (r: String)
    ensures
        r@ == if s@.len() < width {
            s@ + Seq::new((width - s@.len()) as nat, |i: int| ' ')
        } else {
            s@
        },
{
    let mut r = String::from_str(s);
    let n = s.unicode_len();
    let mut k = n;
    let space = " ";
    proof {
        reveal_strlit(" ");
    }
    while k < width
        invariant
            n == s@.len(),
            n <= k <= width || (k == n && n >= width),
            space@ == seq![' '],
            r@ == s@ + Seq::new((k - n) as nat, |i: int| ' '),
        decreases width - k,
    {
        r.append(space);
        k = k + 1;
        assert(r@ =~= s@ + Seq::new((k - n) as nat, |i: int| ' '));
    }
    assert(s@.len() >= width ==> r@ =~= s@);
    r
}

/// Truncate a string to `max` bytes for a table cell: text of at most `max` bytes is
/// padded with spaces to `max` characters; longer text is cut to its first `max - 3`
/// bytes, followed by "...".
pub fn truncate(s: &str, max: usize) -> (r: String)
    requires
        s.spec_bytes().len() <= usize::MAX,
        s.spec_bytes().len() > max ==> 3 <= max && is_char_boundary(s.spec_bytes(), max - 3),
    ensures
        s.spec_bytes().len() <= max ==> r@ == if s@.len() < max {
            s@ + Seq::new((max - s@.len()) as nat, |i: int| ' ')
        } else {
            s@
        },
        s.spec_bytes().len() > max ==> r@ == decode_utf8(s.spec_bytes().subrange(0, max - 3)) + "..."@,
{
    if s.len() <= max {
        pad_right(s, max)
    } else {
        let (head, _tail) = s.split_at(max - 3);
        proof {
            vstd::utf8::encode_utf8_decode_utf8(head@);
            assert(head.spec_bytes() == s.spec_bytes().subrange(0, max - 3));
        }
        let mut r = String::from_str(head);
        r.append("...");
        r
    }
}

} // verus!
