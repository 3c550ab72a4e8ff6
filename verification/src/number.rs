//! Decimal numbers as they stand in headers and in the status file.
use vstd::prelude::*;

verus! {

/// Why a text is not a number.
#[derive(Clone, Copy, Debug, PartialEq, Eq, Structural)]
pub enum NumberError {
    /// There is no character at all.
    Empty,
    /// A character other than a decimal digit stands where a digit is due.
    InvalidDigit,
    /// The number is larger than the largest one allowed.
    Overflow,
}

/// The reason in words why a text is not a number.
pub open spec fn number_reason(e: NumberError) -> Seq<char> {
    match e {
        NumberError::Empty => "cannot parse integer from empty string"@,
        NumberError::InvalidDigit => "invalid digit found in string"@,
        NumberError::Overflow => "number too large to fit in target type"@,
    }
}

impl NumberError {
    /// The reason in words.
    pub fn message(&self) -> (r: String)
        ensures
            r@ == number_reason(*self),
    {
        match self {
            NumberError::Empty => "cannot parse integer from empty string".to_owned(),
            NumberError::InvalidDigit => "invalid digit found in string".to_owned(),
            NumberError::Overflow => "number too large to fit in target type".to_owned(),
        }
    }
}

/// `b` is a decimal digit.
pub open spec fn is_digit(b: u8) -> bool {
    48 <= b <= 57
}

/// The value of `so_far` followed by the digits `rest`; what stands furthest to the left
/// decides the error.
pub open spec fn number_from(so_far: nat, rest: Seq<u8>, max: nat) -> Result<nat, NumberError>
    decreases rest.len(),
{
    if rest.len() == 0 {
        Ok(so_far)
    } else if !is_digit(rest[0]) {
        Err(NumberError::InvalidDigit)
    } else if so_far * 10 + (rest[0] - 48) > max {
        Err(NumberError::Overflow)
    } else {
        number_from((so_far * 10 + (rest[0] - 48)) as nat, rest.skip(1), max)
    }
}

/// The number that `text` writes, in decimal, with a plus sign allowed in front.
pub open spec fn number(text: Seq<u8>, max: nat) -> Result<nat, NumberError> {
    if text.len() == 0 {
        Err(NumberError::Empty)
    } else if text[0] == 43 {
        if text.len() == 1 {
            Err(NumberError::InvalidDigit)
        } else {
            number_from(0, text.skip(1), max)
        }
    } else {
        number_from(0, text, max)
    }
}

/// The decimal digits of `n`, without leading zeros.
pub open spec fn digits(n: nat) -> Seq<u8>
    decreases n,
{
    if n < 10 {
        seq![(48 + n) as u8]
    } else {
        digits(n / 10).push((48 + n % 10) as u8)
    }
}

/// Reads `text` as a number that is at most `max`.
pub fn parse_number(text: &[u8], max: u64) -> (r: Result<u64, NumberError>)
    ensures
        match r {
            Ok(n) => n <= max && number(text@, max as nat) == Ok::<nat, NumberError>(n as nat),
            Err(e) => number(text@, max as nat) == Err::<nat, NumberError>(e),
        },
{
    if text.len() == 0 {
        return Err(NumberError::Empty);
    }
    let mut i: usize = 0;
    if text[0] == 43 {
        if text.len() == 1 {
            return Err(NumberError::InvalidDigit);
        }
        i = 1;
    }
    let mut n: u64 = 0;
    assert(text@.skip(0) =~= text@);
    while i < text.len()
        invariant
            i <= text@.len(),
            n <= max,
            number(text@, max as nat) == number_from(n as nat, text@.skip(i as int), max as nat),
        decreases text@.len() - i,
    {
        let ghost rest = text@.skip(i as int);
        assert(rest[0] == text@[i as int]);
        assert(rest.skip(1) =~= text@.skip(i + 1));
        let b = text[i];
        if b < 48 || b > 57 {
            return Err(NumberError::InvalidDigit);
        }
        let d: u64 = (b - 48) as u64;
        if n > max / 10 || d > max || n * 10 > max - d {
            return Err(NumberError::Overflow);
        }
        n = n * 10 + d;
        i += 1;
    }
    Ok(n)
}

/// Writes `n` in decimal.
pub fn format_number(n: u64) -> (r: Vec<u8>)
    ensures
        r@ == digits(n as nat),
    decreases n,
{
    if n < 10 {
        let mut r: Vec<u8> = Vec::new();
        r.push(48 + n as u8);
        r
    } else {
        let mut r = format_number(n / 10);
        r.push(48 + (n % 10) as u8);
        r
    }
}

proof fn lemma_number_from_push(so_far: nat, front: Seq<u8>, b: u8, max: nat)
    ensures
        number_from(so_far, front.push(b), max) == match number_from(so_far, front, max) {
            Err(e) => Err(e),
            Ok(v) => if !is_digit(b) {
                Err(NumberError::InvalidDigit)
            } else if v * 10 + (b - 48) > max {
                Err(NumberError::Overflow)
            } else {
                Ok((v * 10 + (b - 48)) as nat)
            },
        },
    decreases front.len(),
{
    let all = front.push(b);
    reveal_with_fuel(number_from, 2);
    if front.len() == 0 {
        assert(all.skip(1) =~= Seq::<u8>::empty());
    } else {
        assert(all.skip(1) =~= front.skip(1).push(b));
        assert(all[0] == front[0]);
        if is_digit(front[0]) && so_far * 10 + (front[0] - 48) <= max {
            lemma_number_from_push((so_far * 10 + (front[0] - 48)) as nat, front.skip(1), b, max);
        }
    }
}

/// The digits of a number are digits, and there is at least one of them.
pub proof fn lemma_digits(n: nat)
    ensures
        digits(n).len() > 0,
        forall|i: int| 0 <= i < digits(n).len() ==> is_digit(#[trigger] digits(n)[i]),
    decreases n,
{
    if n >= 10 {
        lemma_digits(n / 10);
    }
}

proof fn lemma_number_of_digits(n: nat, max: nat)
    requires
        n <= max,
    ensures
        number_from(0, digits(n), max) == Ok::<nat, NumberError>(n),
    decreases n,
{
    reveal_with_fuel(number_from, 2);
    if n < 10 {
        assert(digits(n).skip(1) =~= Seq::<u8>::empty());
    } else {
        lemma_number_of_digits(n / 10, max);
        lemma_number_from_push(0, digits(n / 10), (48 + n % 10) as u8, max);
    }
}

/// A number that is written in decimal is read back as the same number.
pub proof fn law_written_number_is_read_back(n: nat, max: nat)
    requires
        n <= max,
    ensures
        number(digits(n), max) == Ok::<nat, NumberError>(n),
{
    lemma_digits(n);
    lemma_number_of_digits(n, max);
    assert(is_digit(digits(n)[0]));
}

/// A number is read digit by digit, in decimal: each further digit makes the number ten times as
/// large and adds its own value, as long as the number stays within `max`. What stands furthest to
/// the left decides the error.
pub proof fn law_number_is_read_digit_by_digit(text: Seq<u8>, b: u8, max: nat)
    requires
        text.len() > 0,
        text != seq![43u8],
    ensures
        number(text.push(b), max) == (match number(text, max) {
            Err(e) => Err::<nat, NumberError>(e),
            Ok(n) => if !(48 <= b <= 57) {
                Err(NumberError::InvalidDigit)
            } else if n * 10 + (b - 48) > max {
                Err(NumberError::Overflow)
            } else {
                Ok((n * 10 + (b - 48)) as nat)
            },
        }),
{
    let all = text.push(b);
    assert(all[0] == text[0]);
    if text[0] == 43 {
        if text.len() == 1 {
            assert(text =~= seq![43u8]);
        }
        assert(all.skip(1) =~= text.skip(1).push(b));
        lemma_number_from_push(0, text.skip(1), b, max);
    } else {
        lemma_number_from_push(0, text, b, max);
    }
}

/// A single digit has its own value; nothing at all and a lone sign are no numbers; and a plus
/// sign in front of a digit changes nothing.
pub proof fn law_number_begins_with_a_digit(b: u8, text: Seq<u8>, max: nat)
    ensures
        number(Seq::empty(), max) == Err::<nat, NumberError>(NumberError::Empty),
        number(seq![43u8], max) == Err::<nat, NumberError>(NumberError::InvalidDigit),
        48 <= b <= 57 ==> number(seq![b], max) == (if b - 48 <= max {
            Ok::<nat, NumberError>((b - 48) as nat)
        } else {
            Err(NumberError::Overflow)
        }),
        b != 43 && !(48 <= b <= 57) ==> number(seq![b], max) == Err::<nat, NumberError>(
            NumberError::InvalidDigit,
        ),
        text.len() > 0 && text[0] != 43 ==> number(seq![43u8] + text, max) == number(text, max),
        text.len() > 0 && text[0] == 43 ==> number(seq![43u8] + text, max) == Err::<
            nat,
            NumberError,
        >(NumberError::InvalidDigit),
{
    reveal_with_fuel(number_from, 2);
    assert(seq![b].skip(1) =~= Seq::<u8>::empty());
    assert((seq![43u8] + text).skip(1) =~= text);
}

/// A number is written with its last digit behind the digits of the rest, and without a zero in
/// front.
pub proof fn law_number_is_written_digit_by_digit(n: nat, d: nat)
    requires
        d < 10,
    ensures
        digits(d) == seq![(48 + d) as u8],
        n > 0 ==> digits(n * 10 + d) == digits(n).push((48 + d) as u8),
        n > 0 ==> digits(n)[0] != 48,
    decreases n,
{
    if n > 0 {
        assert((n * 10 + d) / 10 == n && (n * 10 + d) % 10 == d) by (nonlinear_arith)
            requires
                d < 10,
        ;
        if n >= 10 {
            law_number_is_written_digit_by_digit(n / 10, n % 10);
            lemma_digits(n / 10);
        }
    }
}

} // verus!
