//! What the default player names say.

use crate::naming::{decimal, digit_char, numbered_name};
use vstd::prelude::*;

verus! {

/// Whether `c` is one of the ASCII digits `0` to `9`.
pub open spec fn is_ascii_digit(c: char) -> bool {
    '0' <= c && c <= '9'
}

/// The number a string of ASCII digits stands for, read left to right.
pub open spec fn parse_decimal(s: Seq<char>) -> int
    decreases s.len(),
{
    if s.len() == 0 {
        0
    } else {
        10 * parse_decimal(s.drop_last()) + (s.last() as int - '0' as int)
    }
}

proof fn lemma_digit_char(d: nat)
    requires
        d < 10,
    ensures
        is_ascii_digit(digit_char(d)),
        digit_char(d) as int - '0' as int == d,
{
}

/// The digits of `n` are ASCII digits, with no leading zero, and read back
/// as `n`.
pub proof fn law_decimal_reads_back(n: nat)
    ensures
        decimal(n).len() >= 1,
        forall|i: int| 0 <= i < decimal(n).len() ==> is_ascii_digit(#[trigger] decimal(n)[i]),
        decimal(n).len() > 1 ==> decimal(n)[0] != '0',
        parse_decimal(decimal(n)) == n,
    decreases n,
{
    if n < 10 {
        lemma_digit_char(n);
        assert(seq![digit_char(n)].drop_last() =~= Seq::<char>::empty());
        assert(parse_decimal(decimal(n)) == 10 * parse_decimal(Seq::<char>::empty()) + (
        digit_char(n) as int - '0' as int));
    } else {
        law_decimal_reads_back(n / 10);
        lemma_digit_char(n % 10);
        let d = decimal(n / 10);
        assert(decimal(n).drop_last() =~= d);
        assert forall|i: int| 0 <= i < decimal(n).len() implies is_ascii_digit(
            #[trigger] decimal(n)[i],
        ) by {
            if i < d.len() {
                assert(decimal(n)[i] == d[i]);
            }
        }
        if n / 10 < 10 {
            assert(d[0] == digit_char(n / 10));
            lemma_digit_char(n / 10);
            assert(d[0] as int != '0' as int);
        } else {
            law_decimal_reads_back(n / 10 / 10);
            assert(d == decimal(n / 10 / 10).push(digit_char((n / 10) % 10)));
            assert(d.len() > 1);
            assert(d[0] != '0');
        }
        assert(decimal(n)[0] == d[0]);
        assert(decimal(n)[0] != '0');
        assert(decimal(n).last() == digit_char(n % 10));
        assert(parse_decimal(decimal(n)) == 10 * parse_decimal(d) + (n % 10));
        assert(n == 10 * (n / 10) + n % 10);
    }
}

/// A default name is `Player #` followed by the decimal numeral of its
/// number: the text after `#` consists of ASCII digits, has no leading
/// zero, and reads back as the number.
pub proof fn law_numbered_name_reads_back(n: nat)
    ensures
        numbered_name(n).len() >= 9,
        numbered_name(n).take(8) == seq!['P', 'l', 'a', 'y', 'e', 'r', ' ', '#'],
        forall|i: int|
            8 <= i < numbered_name(n).len() ==> is_ascii_digit(#[trigger] numbered_name(n)[i]),
        numbered_name(n).len() > 9 ==> numbered_name(n)[8] != '0',
        parse_decimal(numbered_name(n).skip(8)) == n,
{
    reveal_strlit("Player #");
    law_decimal_reads_back(n);
    let s = numbered_name(n);
    assert(s.take(8) =~= seq!['P', 'l', 'a', 'y', 'e', 'r', ' ', '#']);
    assert(s.skip(8) =~= decimal(n));
    assert forall|i: int| 8 <= i < s.len() implies is_ascii_digit(#[trigger] s[i]) by {
        assert(s[i] == decimal(n)[i - 8]);
    }
    if s.len() > 9 {
        assert(s[8] == decimal(n)[0]);
    }
}

} // verus!
