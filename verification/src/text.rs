//! Small pieces of text: numbers in decimal and names in UTF-16.

use vstd::prelude::*;

verus! {

/// The decimal digit `d`.
pub open spec fn digit(d: int) -> char {
    (0x30 + d) as char
}

/// `n` in decimal.
pub open spec fn decimal(n: nat) -> Seq<char>
    decreases n,
{
    if n < 10 {
        seq![digit(n as int)]
    } else {
        decimal(n / 10).push(digit((n % 10) as int))
    }
}

/// `n` in decimal, with a sign if it is negative.
pub open spec fn signed_decimal(n: int) -> Seq<char> {
    if n < 0 {
        "-"@ + decimal((-n) as nat)
    } else {
        decimal(n as nat)
    }
}

/// The decimal digit `d` as a string.
pub fn digit_str(d: u64) -> (s: &'static str)
    requires
        d < 10,
    ensures
        s@ == seq![digit(d as int)],
{
    proof {
        reveal_strlit("0");
        reveal_strlit("1");
        reveal_strlit("2");
        reveal_strlit("3");
        reveal_strlit("4");
        reveal_strlit("5");
        reveal_strlit("6");
        reveal_strlit("7");
        reveal_strlit("8");
        reveal_strlit("9");
    }
    let s: &'static str = if d == 0 {
        "0"
    } else if d == 1 {
        "1"
    } else if d == 2 {
        "2"
    } else if d == 3 {
        "3"
    } else if d == 4 {
        "4"
    } else if d == 5 {
        "5"
    } else if d == 6 {
        "6"
    } else if d == 7 {
        "7"
    } else if d == 8 {
        "8"
    } else {
        "9"
    };
    assert(s@ =~= seq![digit(d as int)]);
    s
}

/// Appends `n` in decimal.
pub fn append_decimal(s: &mut String, n: u64)
    ensures
        final(s)@ == old(s)@ + decimal(n as nat),
    decreases n,
{
    if n >= 10 {
        append_decimal(s, n / 10);
    }
    s.append(digit_str(n % 10));
    assert(s@ =~= old(s)@ + decimal(n as nat));
}

/// The UTF-16 code units of a character: its number, or a pair of surrogates
/// for a number that takes more than 16 bits.
pub open spec fn utf16_units(c: char) -> Seq<u16> {
    let v = c as u32 as int;
    if v < 0x1_0000 {
        seq![v as u16]
    } else {
        seq![
            (0xd800 + (v - 0x1_0000) / 0x400) as u16,
            (0xdc00 + (v - 0x1_0000) % 0x400) as u16,
        ]
    }
}

/// The UTF-16 code units of a text.
pub open spec fn utf16(s: Seq<char>) -> Seq<u16>
    decreases s.len(),
{
    if s.len() == 0 {
        Seq::empty()
    } else {
        utf16(s.drop_last()) + utf16_units(s.last())
    }
}

/// The text in UTF-16, as the names of Windows objects are given.
pub fn wide(s: &str) -> (r: Vec<u16>)
    ensures
        r@ == utf16(s@),
{
    let mut r: Vec<u16> = Vec::new();
    let n: usize = s.unicode_len();
    let mut i: usize = 0;
    while i < n
        invariant
            i <= n,
            n == s@.len(),
            r@ == utf16(s@.take(i as int)),
        decreases n - i,
    {
        let c: char = s.get_char(i);
        let v: u32 = c as u32;
        if v < 0x1_0000 {
            r.push(v as u16);
        } else {
            r.push((0xd800 + (v - 0x1_0000) / 0x400) as u16);
            r.push((0xdc00 + (v - 0x1_0000) % 0x400) as u16);
        }
        assert(s@.take(i + 1).drop_last() =~= s@.take(i as int));
        i = i + 1;
        assert(r@ =~= utf16(s@.take(i as int)));
    }
    assert(s@.take(n as int) =~= s@);
    r
}

/// The number that decimal digits stand for.
pub open spec fn value_of(digits: Seq<char>) -> int
    decreases digits.len(),
{
    if digits.len() == 0 {
        0
    } else {
        10 * value_of(digits.drop_last()) + (digits.last() as u32 - '0' as u32)
    }
}

/// A number in decimal is digits only, reads back as the number, and has no
/// leading zero but for the number 0.
pub proof fn decimal_reads_back(n: nat)
    ensures
        value_of(decimal(n)) == n,
        decimal(n).len() >= 1,
        forall|i: int| 0 <= i < decimal(n).len() ==> '0' <= #[trigger] decimal(n)[i] <= '9',
        decimal(n)[0] == '0' <==> n == 0,
    decreases n,
{
    if n >= 10 {
        decimal_reads_back(n / 10);
        assert(decimal(n).drop_last() =~= decimal(n / 10));
    } else {
        assert(decimal(n).drop_last() =~= Seq::<char>::empty());
        assert(value_of(Seq::<char>::empty()) == 0);
    }
}

/// A negative number is a minus sign and the digits of its magnitude; any other
/// number is its digits.
pub proof fn signed_decimal_reads_back(n: int)
    ensures
        n < 0 ==> signed_decimal(n)[0] == '-' && value_of(signed_decimal(n).skip(1)) == -n,
        n >= 0 ==> value_of(signed_decimal(n)) == n && signed_decimal(n)[0] != '-',
{
    reveal_strlit("-");
    if n < 0 {
        decimal_reads_back((-n) as nat);
        assert(signed_decimal(n).skip(1) =~= decimal((-n) as nat));
    } else {
        decimal_reads_back(n as nat);
        assert('0' <= decimal(n as nat)[0]);
    }
}

/// A character of 16 bits is its own unit. Any other becomes a high and a low
/// surrogate, which together give it back.
pub proof fn utf16_reads_back(c: char)
    ensures
        (c as u32) < 0x1_0000 ==> utf16_units(c).len() == 1 && utf16_units(c)[0] == c as u32,
        (c as u32) >= 0x1_0000 ==> {
            let u = utf16_units(c);
            &&& u.len() == 2
            &&& 0xd800 <= u[0] < 0xdc00
            &&& 0xdc00 <= u[1] < 0xe000
            &&& 0x1_0000 + (u[0] - 0xd800) * 0x400 + (u[1] - 0xdc00) == c as u32
        },
{
}

/// The units of a text are those of its parts, one after another.
pub proof fn utf16_joins(a: Seq<char>, b: Seq<char>)
    ensures
        utf16(a + b) == utf16(a) + utf16(b),
        utf16(Seq::empty()).len() == 0,
        b.len() == 1 ==> utf16(b) == utf16_units(b[0]),
    decreases b.len(),
{
    if b.len() == 0 {
        assert(a + b =~= a);
        assert(utf16(a) + utf16(b) =~= utf16(a));
    } else {
        utf16_joins(a, b.drop_last());
        assert((a + b).drop_last() =~= a + b.drop_last());
        assert((a + b).last() == b.last());
        assert(utf16(a + b) =~= utf16(a) + utf16(b));
        if b.len() == 1 {
            assert(b.drop_last() =~= Seq::empty());
            assert(utf16(b) =~= utf16_units(b[0]));
        }
    }
}

} // verus!
