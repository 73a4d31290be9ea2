//! The decisions of the number guessing game: reading a guess and judging
//! it against the secret number.

use vstd::prelude::*;
use crate::bindings::random_between;
use crate::text::{chars_of, decimal, digit_char, is_whitespace, trim, trim_end, trim_start, trim_exec};

verus! {

/// What the game answers to a line typed by the player.
#[derive(Debug, Clone, Copy, PartialEq, Eq, Structural)]
pub enum GuessReply {
    /// The line is not a number: ask again.
    Retry,
    TooSmall,
    TooBig,
    Win,
}

/// `c` is an ASCII digit.
pub open spec fn is_digit(c: char) -> bool {
    '0' <= c <= '9'
}

/// The number the decimal digits `d` spell.
pub open spec fn digits_value(d: Seq<char>) -> nat
    decreases d.len(),
{
    if d.len() == 0 {
        0
    } else {
        digits_value(d.drop_last()) * 10 + ((d.last() as u32) - 48) as nat
    }
}

/// The number `str::parse::<u32>` reads from `s`: an optional `+` and at
/// least one digit, nothing else, no more than `u32::MAX`.
pub open spec fn parse_u32(s: Seq<char>) -> Option<u32> {
    let d = unsigned_digits(s);
    if d.len() > 0 && all_digits(d) && digits_value(d) <= u32::MAX {
        Some(digits_value(d) as u32)
    } else {
        None
    }
}

/// `s` without a leading `+`.
pub open spec fn unsigned_digits(s: Seq<char>) -> Seq<char> {
    if s.len() > 0 && s[0] == '+' {
        s.drop_first()
    } else {
        s
    }
}

/// Every character of `d` is a digit.
pub open spec fn all_digits(d: Seq<char>) -> bool {
    forall|i: int| 0 <= i < d.len() ==> is_digit(#[trigger] d[i])
}

proof fn lemma_digits_value_monotone(d: Seq<char>, k: int)
    requires
        0 <= k <= d.len(),
        forall|i: int| 0 <= i < d.len() ==> is_digit(#[trigger] d[i]),
    ensures
        digits_value(d.take(k)) <= digits_value(d),
    decreases d.len() - k,
{
    if k < d.len() {
        lemma_digits_value_monotone(d, k + 1);
        assert(d.take(k + 1).drop_last() =~= d.take(k));
    } else {
        assert(d.take(k) =~= d);
    }
}

proof fn lemma_decimal_digits(n: nat)
    ensures
        decimal(n).len() > 0,
        all_digits(decimal(n)),
        digits_value(decimal(n)) == n,
    decreases n,
{
    if n < 10 {
        assert(decimal(n) =~= seq![digit_char(n)]);
        assert(decimal(n).drop_last() =~= Seq::<char>::empty());
        assert((digit_char(n) as u32) == n + 48);
        assert(digits_value(Seq::<char>::empty()) == 0);
    } else {
        lemma_decimal_digits(n / 10);
        let d = decimal(n);
        assert(d.drop_last() =~= decimal(n / 10));
        assert(d.last() == digit_char(n % 10));
        assert((digit_char(n % 10) as u32) == n % 10 + 48);
        assert(digits_value(d) == digits_value(decimal(n / 10)) * 10 + n % 10);
        assert(n == (n / 10) * 10 + n % 10);
        assert forall|i: int| 0 <= i < d.len() implies is_digit(#[trigger] d[i]) by {
            if i < d.len() - 1 {
                assert(d[i] == decimal(n / 10)[i]);
            }
        }
    }
}

/// Typing the secret number, as its decimal numeral, wins: the numeral
/// reads back as the number and is judged equal to the secret.
pub proof fn lemma_secret_wins(secret: u32)
    ensures
        parse_u32(trim(decimal(secret as nat))) == Some(secret),
        judgement(secret, secret) == GuessReply::Win,
{
    let d = decimal(secret as nat);
    lemma_decimal_digits(secret as nat);
    assert(is_digit(d[0]));
    assert(is_digit(d.last()));
    assert(!is_whitespace(d[0]));
    assert(!is_whitespace(d.last()));
    assert(trim_start(d) == d);
    assert(trim_end(d) == d);
    assert(unsigned_digits(d) == d);
}

/// The number a line typed by the player holds, as
/// `line.trim().parse::<u32>()` reads it.
pub fn parse_guess(line: &str) -> (r: Option<u32>)
    ensures
        r == parse_u32(trim(line@)),
{
    let t = trim_exec(&chars_of(line));
    let start: usize = if t.len() > 0 && t[0] == '+' {
        1
    } else {
        0
    };
    let ghost d = t@.skip(start as int);
    assert(d =~= unsigned_digits(t@));
    assert(start == 1 ==> d =~= t@.drop_first());
    assert(start == 0 ==> d =~= t@);
    if start >= t.len() {
        return None;
    }
    let mut value: u64 = 0;
    let mut i = start;
    assert(d.take(0) =~= Seq::<char>::empty());
    while i < t.len()
        invariant
            start <= i <= t@.len(),
            d == t@.skip(start as int),
            t@ == trim(line@),
            d == unsigned_digits(t@),
            value == digits_value(d.take(i - start)),
            value <= u32::MAX,
            forall|j: int| 0 <= j < i - start ==> is_digit(#[trigger] d[j]),
        decreases t.len() - i,
    {
        let c = t[i];
        assert(d[i - start] == c);
        if !('0' <= c && c <= '9') {
            assert(!is_digit(d[i - start]));
            assert(!all_digits(d));
            return None;
        }
        assert(d.take(i - start + 1).drop_last() =~= d.take(i - start));
        assert(d.take(i - start + 1).last() == c);
        let digit = (c as u32 - 48) as u64;
        value = value * 10 + digit;
        assert(value == digits_value(d.take(i - start + 1)));
        if value > 4294967295 {
            proof {
                if all_digits(d) {
                    lemma_digits_value_monotone(d, i - start + 1);
                }
            }
            return None;
        }
        i = i + 1;
    }
    assert(d.take(i - start) =~= d);
    Some(value as u32)
}

/// The secret number of a game: a random number from 1 to 100.
pub fn secret_number() -> (r: u32)
    ensures
        1 <= r <= 100,
{
    random_between(1, 100)
}

/// The answer to a guess.
pub open spec fn judgement(guess: u32, secret: u32) -> GuessReply {
    if guess < secret {
        GuessReply::TooSmall
    } else if guess > secret {
        GuessReply::TooBig
    } else {
        GuessReply::Win
    }
}

/// A guess wins exactly when it equals the secret; it is too small exactly
/// when it is below, and too big exactly when it is above.
pub proof fn lemma_judgement_compares(guess: u32, secret: u32)
    ensures
        judgement(guess, secret) == GuessReply::Win <==> guess == secret,
        judgement(guess, secret) == GuessReply::TooSmall <==> guess < secret,
        judgement(guess, secret) == GuessReply::TooBig <==> guess > secret,
        judgement(guess, secret) != GuessReply::Retry,
{
}

/// Answers a line typed by the player: ask again when it holds no number,
/// otherwise say whether the guess is too small, too big or right.
pub fn respond_to_guess(line: &str, secret: u32) -> (r: GuessReply)
    ensures
        r == match parse_u32(trim(line@)) {
            Some(g) => judgement(g, secret),
            None => GuessReply::Retry,
        },
        r == GuessReply::Win <==> parse_u32(trim(line@)) == Some(secret),
        r == GuessReply::TooSmall <==> (parse_u32(trim(line@)) matches Some(g) && g < secret),
        r == GuessReply::TooBig <==> (parse_u32(trim(line@)) matches Some(g) && g > secret),
        r == GuessReply::Retry <==> parse_u32(trim(line@)) is None,
{
    proof {
        if let Some(g) = parse_u32(trim(line@)) {
            lemma_judgement_compares(g, secret);
        }
    }
    match parse_guess(line) {
        None => GuessReply::Retry,
        Some(g) => {
            if g < secret {
                GuessReply::TooSmall
            } else if g > secret {
                GuessReply::TooBig
            } else {
                GuessReply::Win
            }
        },
    }
}

} // verus!
