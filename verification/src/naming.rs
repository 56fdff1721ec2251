//! Naming of players that join without choosing a name.

use rand::Rng;
use vstd::prelude::*;

verus! {

/// The character of one decimal digit.
pub open spec fn digit_char(d: nat) -> char {
    (48 + d) as char
}

/// The decimal representation of `n`, without leading zeros.
pub open spec fn decimal(n: nat) -> Seq<char>
    decreases n,
{
    if n < 10 {
        seq![digit_char(n)]
    } else {
        decimal(n / 10).push(digit_char(n % 10))
    }
}

/// The name given to a player who joins without one: `Player #` and the number.
pub open spec fn numbered_name(n: nat) -> Seq<char> {
    "Player #"@ + decimal(n)
}

/// Smallest number drawn for a default player name.
pub const NAME_NUMBER_LOW: u32 = 1;

/// One past the largest number drawn for a default player name.
pub const NAME_NUMBER_HIGH: u32 = 10000;

/// Draws a number uniformly from `low..high` with `rand::thread_rng().gen_range`.
/// Claimed: the number lies in `low..high` (rand's documented contract); which
/// number comes is left free, as it rests on chance.
#[verifier::external_body]
pub(crate) fn random_in_range(low: u32, high: u32) -> (n: u32)
    requires
        low < high,
    ensures
        low <= n < high,
{
    rand::thread_rng().gen_range(low..high)
}

/// The text of one decimal digit.
fn digit_text(d: u32) -> (t: &'static str)
    requires
        d < 10,
    ensures
        t@ == seq![digit_char(d as nat)],
{
    proof {
        reveal_strlit("0");
        reveal_strlit("1");
        reveal_strlit("2");
        reveal_strlit("3");
        reveal_strlit("4");
        reveal_strlit("5");
        reveal_strlit("6");
        reveal_strlit("7");
        reveal_strlit("8");
        reveal_strlit("9");
    }
    match d {
        0 => "0",
        1 => "1",
        2 => "2",
        3 => "3",
        4 => "4",
        5 => "5",
        6 => "6",
        7 => "7",
        8 => "8",
        _ => "9",
    }
}

/// Appends the decimal digits of `n` to `s`.
fn append_decimal(s: &mut String, n: u32)
    ensures
        final(s)@ == old(s)@ + decimal(n as nat),
    decreases n,
{
    if n >= 10 {
        append_decimal(s, n / 10);
    }
    s.append(digit_text(n % 10));
    assert(s@ =~= old(s)@ + decimal(n as nat));
}

/// The name `Player #` followed by the decimal digits of `n`.
pub fn numbered_player_name(n: u32) -> (name: String)
    ensures
        name@ == numbered_name(n as nat),
{
    let mut name = String::from_str("Player #");
    append_decimal(&mut name, n);
    name
}

/// The name a joining player goes by: the one it asked for, or else
/// `Player #` followed by `number`.
pub fn resolve_name(requested: Option<String>, number: u32) -> (name: String)
    ensures
        match requested {
            Some(r) => name@ == r@,
            None => name@ == numbered_name(number as nat),
        },
{
    match requested {
        Some(r) => r,
        None => numbered_player_name(number),
    }
}

/// The name a joining player goes by, drawing the number of a default name
/// at random from `1..10000` when the player asked for none.
pub fn choose_player_name(requested: Option<String>) -> (name: String)
    ensures
        match requested {
            Some(r) => name@ == r@,
            None => exists|n: nat|
                NAME_NUMBER_LOW <= n < NAME_NUMBER_HIGH && name@ == numbered_name(n),
        },
{
    match requested {
        Some(r) => r,
        None => {
            let n = random_in_range(NAME_NUMBER_LOW, NAME_NUMBER_HIGH);
            let name = resolve_name(None, n);
            assert(name@ == numbered_name(n as nat));
            name
        },
    }
}

} // verus!
