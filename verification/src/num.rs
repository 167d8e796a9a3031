//! Numbers as text: decimal and hexadecimal digits.

use vstd::prelude::*;

use crate::text::chars_of;

verus! {

/// The decimal digit for `d`, for `d` below ten.
pub open spec fn dec_digit(d: nat) -> char {
    (48 + d) as char
}

/// The decimal numeral of `n`, without leading zeros.
pub open spec fn dec(n: nat) -> Seq<char>
    decreases n,
{
    if n < 10 {
        seq![dec_digit(n)]
    } else {
        dec(n / 10).push(dec_digit(n % 10))
    }
}

/// Appends the decimal numeral of `n`.
pub fn push_dec(out: &mut String, n: u64)
    ensures
        final(out)@ == old(out)@ + dec(n as nat),
    decreases n,
{
    if n < 10 {
        out.push((48 + n as u8) as char);
        proof {
            assert(out@ =~= old(out)@ + dec(n as nat));
        }
    } else {
        push_dec(out, n / 10);
        out.push((48 + (n % 10) as u8) as char);
        proof {
            assert(out@ =~= old(out)@ + dec(n as nat));
        }
    }
}

/// The hexadecimal digit for `d` below sixteen, in upper or lower case.
pub open spec fn hex_char(d: nat, upper: bool) -> char {
    if d < 10 {
        (48 + d) as char
    } else if upper {
        (55 + d) as char
    } else {
        (87 + d) as char
    }
}

/// The last `width` hexadecimal digits of `n`, most significant first.
pub open spec fn hex_fixed(n: nat, width: nat, upper: bool) -> Seq<char>
    decreases width,
{
    if width == 0 {
        seq![]
    } else {
        hex_fixed(n / 16, (width - 1) as nat, upper).push(hex_char(n % 16, upper))
    }
}

/// The hexadecimal digit for `d`.
pub fn hex_digit_char(d: u8, upper: bool) -> (r: char)
    requires
        d < 16,
    ensures
        r == hex_char(d as nat, upper),
{
    if d < 10 {
        (48 + d) as char
    } else if upper {
        (55 + d) as char
    } else {
        (87 + d) as char
    }
}

/// Appends the last `width` hexadecimal digits of `n`.
pub fn push_hex(out: &mut String, n: u32, width: usize, upper: bool)
    ensures
        final(out)@ == old(out)@ + hex_fixed(n as nat, width as nat, upper),
    decreases width,
{
    if width > 0 {
        push_hex(out, n / 16, width - 1, upper);
        out.push(hex_digit_char((n % 16) as u8, upper));
    }
    proof {
        assert(out@ =~= old(out)@ + hex_fixed(n as nat, width as nat, upper));
    }
}

/// The value of a hexadecimal digit given as an ASCII byte.
pub open spec fn hex_value(b: u8) -> Option<nat> {
    if 48 <= b <= 57 {
        Some((b - 48) as nat)
    } else if 97 <= b <= 102 {
        Some((b - 87) as nat)
    } else if 65 <= b <= 70 {
        Some((b - 55) as nat)
    } else {
        None
    }
}

/// The value of a hexadecimal digit given as an ASCII byte.
pub fn hex_value_of(b: u8) -> (r: Option<u8>)
    ensures
        match r {
            Some(d) => hex_value(b) == Some(d as nat) && d < 16,
            None => hex_value(b) is None,
        },
{
    if 48 <= b && b <= 57 {
        Some(b - 48)
    } else if 97 <= b && b <= 102 {
        Some(b - 87)
    } else if 65 <= b && b <= 70 {
        Some(b - 55)
    } else {
        None
    }
}

// ── Parsing ─────────────────────────────────────────────────────────────────

/// Why a text is no unsigned number.
#[derive(Debug, Clone, Copy, PartialEq, Eq, Structural)]
pub enum NumError {
    /// There is no character.
    Empty,
    /// A character is no digit.
    InvalidDigit,
    /// The number is too large.
    TooLarge,
}

impl NumError {
    /// The message for this error.
    pub open spec fn message_spec(self) -> Seq<char> {
        match self {
            NumError::Empty => "cannot parse integer from empty string"@,
            NumError::InvalidDigit => "invalid digit found in string"@,
            NumError::TooLarge => "number too large to fit in target type"@,
        }
    }

    /// The message for this error.
    pub fn message(&self) -> (r: &'static str)
        ensures
            r@ == self.message_spec(),
    {
        match self {
            NumError::Empty => "cannot parse integer from empty string",
            NumError::InvalidDigit => "invalid digit found in string",
            NumError::TooLarge => "number too large to fit in target type",
        }
    }
}

/// The value of a decimal or hexadecimal digit.
pub open spec fn digit_value(c: char, hex: bool) -> Option<nat> {
    if '0' <= c <= '9' {
        Some((c as nat - 48) as nat)
    } else if hex && 'a' <= c <= 'f' {
        Some((c as nat - 87) as nat)
    } else if hex && 'A' <= c <= 'F' {
        Some((c as nat - 55) as nat)
    } else {
        None
    }
}

/// The number that the digits `s` stand for behind the digits of `acc`, or the
/// error at the first character where there is one.
pub open spec fn digits_value(s: Seq<char>, hex: bool, acc: nat, max: nat) -> Result<
    nat,
    NumError,
>
    decreases s.len(),
{
    if s.len() == 0 {
        Ok(acc)
    } else {
        match digit_value(s[0], hex) {
            None => Err(NumError::InvalidDigit),
            Some(d) => {
                let next = if hex {
                    acc * 16 + d
                } else {
                    acc * 10 + d
                };
                if next > max {
                    Err(NumError::TooLarge)
                } else {
                    digits_value(s.drop_first(), hex, next, max)
                }
            },
        }
    }
}

/// The unsigned number up to `max` that `s` stands for: digits, with an
/// optional `+` before them.
pub open spec fn number(s: Seq<char>, hex: bool, max: nat) -> Result<nat, NumError> {
    if s.len() == 0 {
        Err(NumError::Empty)
    } else if s.len() == 1 && (s[0] == '+' || s[0] == '-') {
        Err(NumError::InvalidDigit)
    } else if s[0] == '+' {
        digits_value(s.drop_first(), hex, 0, max)
    } else {
        digits_value(s, hex, 0, max)
    }
}

/// The value of a digit.
fn digit_of(c: char, hex: bool) -> (r: Option<u64>)
    ensures
        match r {
            Some(d) => digit_value(c, hex) == Some(d as nat) && d < 16 && (!hex ==> d < 10),
            None => digit_value(c, hex) is None,
        },
{
    if '0' <= c && c <= '9' {
        Some((c as u64) - 48)
    } else if hex && 'a' <= c && c <= 'f' {
        Some((c as u64) - 87)
    } else if hex && 'A' <= c && c <= 'F' {
        Some((c as u64) - 55)
    } else {
        None
    }
}

/// Parse an unsigned number up to `max`.
pub fn parse_number(s: &str, hex: bool, max: u64) -> (r: Result<u64, NumError>)
    ensures
        match r {
            Ok(n) => number(s@, hex, max as nat) == Ok::<nat, NumError>(n as nat) && n <= max,
            Err(e) => number(s@, hex, max as nat) == Err::<nat, NumError>(e),
        },
{
    let v = chars_of(s);
    if v.len() == 0 {
        return Err(NumError::Empty);
    }
    if v.len() == 1 && (v[0] == '+' || v[0] == '-') {
        return Err(NumError::InvalidDigit);
    }
    let mut i: usize = if v[0] == '+' {
        1
    } else {
        0
    };
    let mut acc: u64 = 0;
    proof {
        assert(v@.skip(0) =~= v@);
        assert(v@.skip(1) =~= v@.drop_first());
    }
    while i < v.len()
        invariant
            i <= v@.len(),
            v@ == s@,
            acc <= max,
            digits_value(v@.skip(i as int), hex, acc as nat, max as nat) == number(
                s@,
                hex,
                max as nat,
            ),
        decreases v@.len() - i,
    {
        proof {
            assert(v@.skip(i as int)[0] == v@[i as int]);
            assert(v@.skip(i as int).drop_first() =~= v@.skip(i + 1));
        }
        match digit_of(v[i], hex) {
            None => {
                return Err(NumError::InvalidDigit);
            },
            Some(d) => {
                let wide: u128 = if hex {
                    acc as u128 * 16 + d as u128
                } else {
                    acc as u128 * 10 + d as u128
                };
                if wide > max as u128 {
                    return Err(NumError::TooLarge);
                }
                acc = wide as u64;
            },
        }
        i = i + 1;
    }
    Ok(acc)
}

/// The value of `s` as a `usize`.
pub open spec fn usize_number(s: Seq<char>, hex: bool) -> Result<usize, NumError> {
    match number(s, hex, usize::MAX as nat) {
        Ok(n) => Ok(n as usize),
        Err(e) => Err(e),
    }
}

/// Parse a `usize`.
pub fn parse_usize(s: &str, hex: bool) -> (r: Result<usize, NumError>)
    ensures
        r == usize_number(s@, hex),
{
    match parse_number(s, hex, usize::MAX as u64) {
        Ok(n) => Ok(n as usize),
        Err(e) => Err(e),
    }
}

// ── Laws ────────────────────────────────────────────────────────────────────

/// The base that digits are read in.
pub open spec fn base_of(hex: bool) -> nat {
    if hex {
        16
    } else {
        10
    }
}

proof fn lemma_digits_push(s: Seq<char>, c: char, hex: bool, acc: nat, max: nat)
    requires
        acc <= max,
    ensures
        match digits_value(s, hex, acc, max) {
            Err(e) => digits_value(s.push(c), hex, acc, max) == Err::<nat, NumError>(e),
            Ok(v) => v <= max && digits_value(s.push(c), hex, acc, max) == (match digit_value(
                c,
                hex,
            ) {
                None => Err(NumError::InvalidDigit),
                Some(d) => if v * base_of(hex) + d > max {
                    Err(NumError::TooLarge)
                } else {
                    Ok((v * base_of(hex) + d) as nat)
                },
            }),
        },
    decreases s.len(),
{
    let t = s.push(c);
    if s.len() == 0 {
        assert(t.drop_first() =~= seq![]);
        reveal_with_fuel(digits_value, 2);
    } else {
        assert(t[0] == s[0]);
        assert(t.drop_first() =~= s.drop_first().push(c));
        match digit_value(s[0], hex) {
            Some(d) => {
                let next = if hex {
                    acc * 16 + d
                } else {
                    acc * 10 + d
                };
                if next <= max {
                    lemma_digits_push(s.drop_first(), c, hex, next, max);
                }
            },
            None => {},
        }
    }
}

/// Digits are read by position: one digit more multiplies what stands before it by the
/// base and adds its value, as long as the number stays within the bound; anything but a
/// digit there is an error.
pub proof fn law_numbers_are_positional(s: Seq<char>, c: char, hex: bool, max: nat)
    requires
        number(s, hex, max) is Ok,
    ensures
        number(s, hex, max)->Ok_0 <= max,
        number(s.push(c), hex, max) == (match digit_value(c, hex) {
            None => Err(NumError::InvalidDigit),
            Some(d) => if number(s, hex, max)->Ok_0 * base_of(hex) + d > max {
                Err(NumError::TooLarge)
            } else {
                Ok((number(s, hex, max)->Ok_0 * base_of(hex) + d) as nat)
            },
        }),
{
    let t = s.push(c);
    assert(t[0] == s[0]);
    if s[0] == '+' {
        assert(t.drop_first() =~= s.drop_first().push(c));
        lemma_digits_push(s.drop_first(), c, hex, 0, max);
    } else {
        lemma_digits_push(s, c, hex, 0, max);
    }
}

/// A single digit stands for its value: `0` to `9`, and in hexadecimal also the letters up
/// to `f` in either case, from ten on. Nothing else stands for a number alone.
pub proof fn law_single_digits(c: char, hex: bool, max: nat)
    requires
        max >= 15,
    ensures
        '0' <= c <= '9' ==> number(seq![c], hex, max) == Ok::<nat, NumError>(
            (c as nat - '0' as nat) as nat,
        ),
        hex && 'a' <= c <= 'f' ==> number(seq![c], hex, max) == Ok::<nat, NumError>(
            (10 + c as nat - 'a' as nat) as nat,
        ),
        hex && 'A' <= c <= 'F' ==> number(seq![c], hex, max) == Ok::<nat, NumError>(
            (10 + c as nat - 'A' as nat) as nat,
        ),
        !('0' <= c <= '9') && !(hex && ('a' <= c <= 'f' || 'A' <= c <= 'F')) ==> number(
            seq![c],
            hex,
            max,
        ) is Err,
        number(seq![], hex, max) is Err,
{
    reveal_with_fuel(digits_value, 2);
    assert(seq![c].drop_first() =~= seq![]);
}

proof fn lemma_dec_digits(n: nat)
    ensures
        dec(n).len() > 0,
        forall|i: int| 0 <= i < dec(n).len() ==> '0' <= #[trigger] dec(n)[i] <= '9',
        n > 0 ==> dec(n)[0] != '0',
    decreases n,
{
    if n >= 10 {
        lemma_dec_digits(n / 10);
        assert(dec(n)[0] == dec(n / 10)[0]);
        assert forall|i: int| 0 <= i < dec(n).len() implies '0' <= #[trigger] dec(n)[i] <= '9' by {
            if i < dec(n).len() - 1 {
                assert(dec(n)[i] == dec(n / 10)[i]);
            }
        }
    }
}

/// A numeral is made of digits, without a zero in front, and stands for its number.
pub proof fn law_numerals_stand_for_their_number(n: nat, max: nat)
    requires
        n <= max,
    ensures
        number(dec(n), false, max) == Ok::<nat, NumError>(n),
        dec(n).len() > 0,
        forall|i: int| 0 <= i < dec(n).len() ==> '0' <= #[trigger] dec(n)[i] <= '9',
        n > 0 ==> dec(n)[0] != '0',
    decreases n,
{
    lemma_dec_digits(n);
    if n < 10 {
        reveal_with_fuel(digits_value, 2);
        assert(dec(n).drop_first() =~= seq![]);
        assert(digit_value(dec(n)[0], false) == Some(n));
        assert(n <= max);
    } else {
        law_numerals_stand_for_their_number(n / 10, max);
        law_numbers_are_positional(dec(n / 10), dec_digit(n % 10), false, max);
        assert(digit_value(dec_digit(n % 10), false) == Some(n % 10));
    }
}

/// A number in hexadecimal digits of a given width stands for that number, and has that
/// width.
pub proof fn law_hex_digits_stand_for_their_number(n: nat, width: nat, upper: bool, max: nat)
    requires
        width > 0,
        n < vstd::arithmetic::power::pow(16, width),
        n <= max,
    ensures
        number(hex_fixed(n, width, upper), true, max) == Ok::<nat, NumError>(n),
        hex_fixed(n, width, upper).len() == width,
    decreases width,
{
    vstd::arithmetic::power::lemma_pow0(16);
    let w = (width - 1) as nat;
    assert(vstd::arithmetic::power::pow(16, width) == 16 * vstd::arithmetic::power::pow(16, w)) by {
        reveal(vstd::arithmetic::power::pow);
    }
    let c = hex_char(n % 16, upper);
    assert(digit_value(c, true) == Some(n % 16) && c != '+' && c != '-');
    if w == 0 {
        assert(hex_fixed(n, width, upper) =~= seq![c]) by {
            reveal_with_fuel(hex_fixed, 2);
        }
        reveal_with_fuel(digits_value, 2);
        assert(seq![c].drop_first() =~= seq![]);
    } else {
        law_hex_digits_stand_for_their_number(n / 16, w, upper, max);
        law_numbers_are_positional(hex_fixed(n / 16, w, upper), c, true, max);
    }
}

} // verus!
