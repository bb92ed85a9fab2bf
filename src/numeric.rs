//! Decimal text: reading an unsigned 64-bit integer, and writing one.

use vstd::prelude::*;
use vstd::string::*;

verus! {

/// Why a piece of text could not be read as an unsigned 64-bit integer.
#[derive(Debug, Clone, Copy, PartialEq, Eq, Structural)]
pub enum NumError {
    /// The text was empty.
    Empty,
    /// The text held a character that is not a decimal digit (a sign counts).
    InvalidDigit,
    /// The digits denote a value above `u64::MAX`.
    PosOverflow,
}

pub open spec fn is_digit(c: char) -> bool {
    '0' <= c && c <= '9'
}

pub open spec fn digit_value(c: char) -> nat {
    (c as u32 - '0' as u32) as nat
}

/// Reads the digits of `d` from left to right; the first character that is
/// not a digit, or the first digit that takes the value past `u64::MAX`,
/// decides the error.
pub open spec fn digits_value(d: Seq<char>) -> Result<u64, NumError>
    decreases d.len(),
{
    if d.len() == 0 {
        Ok(0)
    } else {
        match digits_value(d.drop_last()) {
            Err(e) => Err(e),
            Ok(v) => {
                let c = d.last();
                if !is_digit(c) {
                    Err(NumError::InvalidDigit)
                } else if v * 10 + digit_value(c) > u64::MAX {
                    Err(NumError::PosOverflow)
                } else {
                    Ok((v * 10 + digit_value(c)) as u64)
                }
            },
        }
    }
}

/// The value of `s` read as an unsigned decimal integer: ASCII digits only,
/// no sign.
pub open spec fn unsigned_value(s: Seq<char>) -> Result<u64, NumError> {
    if s.len() == 0 {
        Err(NumError::Empty)
    } else {
        digits_value(s)
    }
}

pub open spec fn digit_char(n: nat) -> char {
    if n == 0 {
        '0'
    } else if n == 1 {
        '1'
    } else if n == 2 {
        '2'
    } else if n == 3 {
        '3'
    } else if n == 4 {
        '4'
    } else if n == 5 {
        '5'
    } else if n == 6 {
        '6'
    } else if n == 7 {
        '7'
    } else if n == 8 {
        '8'
    } else {
        '9'
    }
}

/// The shortest decimal text of `n`: no sign, no leading zero.
pub open spec fn decimal(n: nat) -> Seq<char>
    decreases n,
{
    if n < 10 {
        seq![digit_char(n)]
    } else {
        decimal(n / 10).push(digit_char(n % 10))
    }
}

/// An error among the first `k` characters is the error of the whole text.
proof fn lemma_digits_error_prefix(d: Seq<char>, k: int)
    requires
        0 <= k <= d.len(),
        digits_value(d.take(k)) is Err,
    ensures
        digits_value(d) == digits_value(d.take(k)),
    decreases d.len(),
{
    if k == d.len() {
        assert(d.take(k) =~= d);
    } else {
        assert(d.drop_last().take(k) =~= d.take(k));
        lemma_digits_error_prefix(d.drop_last(), k);
    }
}

proof fn lemma_digit_char(n: nat)
    requires
        n < 10,
    ensures
        is_digit(digit_char(n)),
        digit_value(digit_char(n)) == n,
{
}

/// The decimal text is made of digits only, and is never empty.
pub proof fn lemma_decimal_digits(n: nat)
    ensures
        decimal(n).len() > 0,
        forall|i: int| 0 <= i < decimal(n).len() ==> is_digit(#[trigger] decimal(n)[i]),
    decreases n,
{
    lemma_digit_char(n % 10);
    if n >= 10 {
        lemma_decimal_digits(n / 10);
    }
}

/// Reading back the decimal text of a 64-bit value gives that value.
pub proof fn lemma_decimal_round_trip(n: u64)
    ensures
        unsigned_value(decimal(n as nat)) == Ok::<u64, NumError>(n),
{
    lemma_decimal_digits(n as nat);
    lemma_digits_of_decimal(n as nat);
}

proof fn lemma_digits_of_decimal(n: nat)
    requires
        n <= u64::MAX,
    ensures
        digits_value(decimal(n)) == Ok::<u64, NumError>(n as u64),
    decreases n,
{
    lemma_digit_char(n % 10);
    if n < 10 {
        let d = decimal(n);
        assert(d.drop_last() =~= Seq::<char>::empty());
        assert(digits_value(d.drop_last()) == Ok::<u64, NumError>(0));
        assert(d.last() == digit_char(n));
    } else {
        lemma_digits_of_decimal(n / 10);
        let d = decimal(n);
        assert(d == decimal(n / 10).push(digit_char(n % 10)));
        assert(d.drop_last() =~= decimal(n / 10));
        assert(d.last() == digit_char(n % 10));
        assert((n / 10) * 10 + n % 10 == n);
    }
}

/// Parses `s` as an unsigned 64-bit decimal integer made of ASCII digits
/// alone.
pub fn parse_u64(s: &str) -> (r: Result<u64, NumError>)
    ensures
        r == unsigned_value(s@),
{
    let n = s.unicode_len();
    if n == 0 {
        return Err(NumError::Empty);
    }
    let mut i: usize = 0;
    let mut v: u64 = 0;
    assert(s@.take(0) =~= Seq::<char>::empty());
    while i < n
        invariant
            i <= n,
            n == s@.len(),
            n > 0,
            digits_value(s@.take(i as int)) == Ok::<u64, NumError>(v),
        decreases n - i,
    {
        let c = s.get_char(i);
        let ghost d = s@;
        let ghost k: int = i as int;
        assert(d.take(k + 1).drop_last() =~= d.take(k));
        assert(d.take(k + 1).last() == c);
        if !('0' <= c && c <= '9') {
            proof {
                assert(digits_value(d.take(k + 1)) == Err::<u64, NumError>(NumError::InvalidDigit));
                lemma_digits_error_prefix(d, k + 1);
            }
            return Err(NumError::InvalidDigit);
        }
        let dv = (c as u32 - '0' as u32) as u64;
        match v.checked_mul(10) {
            None => {
                proof {
                    assert(digits_value(d.take(k + 1)) == Err::<u64, NumError>(NumError::PosOverflow));
                    lemma_digits_error_prefix(d, k + 1);
                }
                return Err(NumError::PosOverflow);
            },
            Some(m) => match m.checked_add(dv) {
                None => {
                    proof {
                        assert(digits_value(d.take(k + 1)) == Err::<u64, NumError>(
                            NumError::PosOverflow,
                        ));
                        lemma_digits_error_prefix(d, k + 1);
                    }
                    return Err(NumError::PosOverflow);
                },
                Some(w) => {
                    v = w;
                },
            },
        }
        i = i + 1;
    }
    assert(s@.take(n as int) =~= s@);
    Ok(v)
}

fn digit_str(n: u64) -> (r: &'static str)
    requires
        n < 10,
    ensures
        r@ == seq![digit_char(n as nat)],
{
    proof {
        reveal_strlit("0");
        reveal_strlit("1");
        reveal_strlit("2");
        reveal_strlit("3");
        reveal_strlit("4");
        reveal_strlit("5");
        reveal_strlit("6");
        reveal_strlit("7");
        reveal_strlit("8");
        reveal_strlit("9");
    }
    if n == 0 {
        "0"
    } else if n == 1 {
        "1"
    } else if n == 2 {
        "2"
    } else if n == 3 {
        "3"
    } else if n == 4 {
        "4"
    } else if n == 5 {
        "5"
    } else if n == 6 {
        "6"
    } else if n == 7 {
        "7"
    } else if n == 8 {
        "8"
    } else {
        "9"
    }
}

/// Appends the decimal text of `n` to `s`.
pub fn push_decimal(s: &mut String, n: u64)
    ensures
        final(s)@ == old(s)@ + decimal(n as nat),
    decreases n,
{
    if n >= 10 {
        push_decimal(s, n / 10);
    }
    s.append(digit_str(n % 10));
    proof {
        if n >= 10 {
            assert(decimal(n as nat) == decimal((n / 10) as nat).push(digit_char((n % 10) as nat)));
        }
    }
    assert(final(s)@ =~= old(s)@ + decimal(n as nat));
}

} // verus!
