//! Decimal text of integers, as `{}` formatting writes it.
use vstd::prelude::*;

verus! {

/// The text of one decimal digit.
pub open spec fn digit_text(d: int) -> Seq<char> {
    if d == 0 {
        "0"@
    } else if d == 1 {
        "1"@
    } else if d == 2 {
        "2"@
    } else if d == 3 {
        "3"@
    } else if d == 4 {
        "4"@
    } else if d == 5 {
        "5"@
    } else if d == 6 {
        "6"@
    } else if d == 7 {
        "7"@
    } else if d == 8 {
        "8"@
    } else {
        "9"@
    }
}

/// The decimal text of a natural number, without leading zeros.
pub open spec fn dec_text(n: nat) -> Seq<char>
    decreases n,
{
    if n < 10 {
        digit_text(n as int)
    } else {
        dec_text(n / 10) + digit_text((n % 10) as int)
    }
}

/// The decimal text of an integer: a minus sign before negative ones.
pub open spec fn signed_text(v: int) -> Seq<char> {
    if v < 0 {
        "-"@ + dec_text((-v) as nat)
    } else {
        dec_text(v as nat)
    }
}

fn digit_str(d: u64) -> (s: &'static str)
    requires
        d < 10,
    ensures
        s@ == digit_text(d as int),
{
    if d == 0 {
        "0"
    } else if d == 1 {
        "1"
    } else if d == 2 {
        "2"
    } else if d == 3 {
        "3"
    } else if d == 4 {
        "4"
    } else if d == 5 {
        "5"
    } else if d == 6 {
        "6"
    } else if d == 7 {
        "7"
    } else if d == 8 {
        "8"
    } else {
        "9"
    }
}

/// Appends the decimal text of `n`.
pub fn push_dec(out: &mut String, n: u64)
    ensures
        final(out)@ == old(out)@ + dec_text(n as nat),
    decreases n,
{
    if n >= 10 {
        push_dec(out, n / 10);
        out.append(digit_str(n % 10));
        assert(out@ =~= old(out)@ + dec_text(n as nat));
    } else {
        out.append(digit_str(n));
    }
}

/// Appends the decimal text of `v`, with a minus sign when negative.
pub fn push_signed(out: &mut String, v: i64)
    ensures
        final(out)@ == old(out)@ + signed_text(v as int),
{
    if v < 0 {
        out.append("-");
        let m: u64 = if v == i64::MIN {
            0x8000_0000_0000_0000u64
        } else {
            (-v) as u64
        };
        push_dec(out, m);
        assert(out@ =~= old(out)@ + signed_text(v as int));
    } else {
        push_dec(out, v as u64);
    }
}


/// The value of a decimal digit character.
pub open spec fn digit_value(c: char) -> int {
    c as int - '0' as int
}

/// `c` is one of `'0'` … `'9'`.
pub open spec fn is_digit(c: char) -> bool {
    '0' <= c <= '9'
}

/// The number that a string of decimal digits denotes.
pub open spec fn dec_value(s: Seq<char>) -> int
    decreases s.len(),
{
    if s.len() == 0 {
        0
    } else {
        dec_value(s.drop_last()) * 10 + digit_value(s.last())
    }
}

proof fn lemma_digit_text(d: int)
    requires
        0 <= d < 10,
    ensures
        digit_text(d).len() == 1,
        is_digit(digit_text(d)[0]),
        digit_value(digit_text(d)[0]) == d,
{
    reveal_strlit("0");
    reveal_strlit("1");
    reveal_strlit("2");
    reveal_strlit("3");
    reveal_strlit("4");
    reveal_strlit("5");
    reveal_strlit("6");
    reveal_strlit("7");
    reveal_strlit("8");
    reveal_strlit("9");
}

/// Decimal text reads back as the number it was made from: it is made of
/// digits only, has no leading zero (but for 0 itself), and denotes `n`.
pub proof fn law_dec_text_roundtrip(n: nat)
    ensures
        dec_text(n).len() >= 1,
        forall|i: int| 0 <= i < dec_text(n).len() ==> is_digit(#[trigger] dec_text(n)[i]),
        n > 0 ==> dec_text(n)[0] != '0',
        dec_value(dec_text(n)) == n,
    decreases n,
{
    if n < 10 {
        lemma_digit_text(n as int);
        assert(dec_text(n).drop_last() =~= seq![]);
        assert(dec_value(dec_text(n)) == dec_value(dec_text(n).drop_last()) * 10 + digit_value(
            dec_text(n).last(),
        ));
        reveal_strlit("0");
    } else {
        law_dec_text_roundtrip(n / 10);
        lemma_digit_text((n % 10) as int);
        let a = dec_text(n / 10);
        let b = digit_text((n % 10) as int);
        assert(dec_text(n) == a + b);
        assert((a + b).drop_last() =~= a);
        assert((a + b).last() == b[0]);
        assert forall|i: int| 0 <= i < dec_text(n).len() implies is_digit(#[trigger] dec_text(n)[i]) by {
            if i < a.len() {
                assert(dec_text(n)[i] == a[i]);
            }
        }
        assert(dec_text(n)[0] == a[0]);
        assert(dec_value(a + b) == dec_value(a) * 10 + digit_value(b[0]));
        assert((n / 10) * 10 + n % 10 == n);
    }
}

/// Signed decimal text reads back as the number it was made from.
pub proof fn law_signed_text_roundtrip(v: int)
    ensures
        v < 0 ==> signed_text(v)[0] == '-' && dec_value(signed_text(v).drop_first()) == -v,
        v >= 0 ==> dec_value(signed_text(v)) == v,
{
    reveal_strlit("-");
    if v < 0 {
        law_dec_text_roundtrip((-v) as nat);
        assert(signed_text(v).drop_first() =~= dec_text((-v) as nat));
    } else {
        law_dec_text_roundtrip(v as nat);
    }
}

/// `t` is a decimal numeral, made of digits only, that denotes `v`.
pub open spec fn reads_as(t: Seq<char>, v: int) -> bool {
    &&& t.len() >= 1
    &&& forall|i: int| 0 <= i < t.len() ==> is_digit(#[trigger] t[i])
    &&& dec_value(t) == v
}

/// `t` denotes `v`: a minus sign and a numeral for `-v` when `v` is
/// negative, a numeral for `v` otherwise.
pub open spec fn reads_as_signed(t: Seq<char>, v: int) -> bool {
    if v < 0 {
        t.len() >= 1 && t[0] == '-' && reads_as(t.drop_first(), -v)
    } else {
        reads_as(t, v)
    }
}

pub proof fn lemma_dec_text_reads(n: nat)
    ensures
        reads_as(dec_text(n), n as int),
{
    law_dec_text_roundtrip(n);
}

pub proof fn lemma_signed_text_reads(v: int)
    ensures
        reads_as_signed(signed_text(v), v),
{
    law_signed_text_roundtrip(v);
    if v < 0 {
        law_dec_text_roundtrip((-v) as nat);
        reveal_strlit("-");
        assert(signed_text(v).drop_first() =~= dec_text((-v) as nat));
    } else {
        law_dec_text_roundtrip(v as nat);
    }
}
} // verus!
