//! Decimal numbers as text: reading and writing.

use vstd::prelude::*;

verus! {

/// Why a text is not a number.
#[derive(Clone, Copy, Debug, PartialEq, Eq, Structural)]
pub enum IntError {
    /// There is nothing to read.
    Empty,
    /// A character is not a decimal digit, or there is only a sign.
    InvalidDigit,
    /// The number is larger than the type can hold.
    PosOverflow,
    /// The number is smaller than the type can hold.
    NegOverflow,
}

/// Whether a character is a decimal digit.
pub open spec fn is_digit(c: char) -> bool {
    '0' <= c <= '9'
}

/// The value of a decimal digit.
pub open spec fn digit_value(c: char) -> nat {
    (c as int - '0' as int) as nat
}

/// The digit with the given value.
pub open spec fn digit_char(d: nat) -> char {
    ('0' as int + d) as char
}

/// The number of decimal digits at the start.
pub open spec fn digit_run(s: Seq<char>) -> nat
    decreases s.len(),
{
    if s.len() == 0 || !is_digit(s[0]) {
        0
    } else {
        1 + digit_run(s.skip(1))
    }
}

/// The number that a sequence of digits stands for.
pub open spec fn decimal_value(s: Seq<char>) -> nat
    decreases s.len(),
{
    if s.len() == 0 {
        0
    } else {
        decimal_value(s.drop_last()) * 10 + digit_value(s.last())
    }
}

/// A number read from its digits: those at the start decide whether it is too
/// large, and it is malformed if anything follows them.
pub open spec fn digits_read(digits: Seq<char>, max: nat, overflow: IntError) -> Result<
    nat,
    IntError,
> {
    let k = digit_run(digits) as int;
    let value = decimal_value(digits.take(k));
    if digits.len() == 0 {
        Err(IntError::InvalidDigit)
    } else if value > max {
        Err(overflow)
    } else if k < digits.len() {
        Err(IntError::InvalidDigit)
    } else {
        Ok(value)
    }
}

/// An unsigned number of at most `max`, with an optional plus sign.
pub open spec fn unsigned_read(s: Seq<char>, max: nat) -> Result<nat, IntError> {
    if s.len() == 0 {
        Err(IntError::Empty)
    } else if s[0] == '+' {
        digits_read(s.skip(1), max, IntError::PosOverflow)
    } else {
        digits_read(s, max, IntError::PosOverflow)
    }
}

/// A signed 64-bit number with an optional sign.
pub open spec fn signed_read(s: Seq<char>) -> Result<int, IntError> {
    if s.len() > 0 && s[0] == '-' {
        match digits_read(s.skip(1), 0x8000_0000_0000_0000, IntError::NegOverflow) {
            Ok(v) => Ok(-(v as int)),
            Err(e) => Err(e),
        }
    } else {
        match unsigned_read(s, i64::MAX as nat) {
            Ok(v) => Ok(v as int),
            Err(e) => Err(e),
        }
    }
}

/// The shortest decimal text of a number.
pub open spec fn decimal(n: nat) -> Seq<char>
    decreases n,
{
    if n < 10 {
        seq![digit_char(n)]
    } else {
        decimal(n / 10).push(digit_char(n % 10))
    }
}

/// The shortest decimal text of a signed number.
pub open spec fn signed_decimal(n: int) -> Seq<char> {
    if n < 0 {
        seq!['-'] + decimal((-n) as nat)
    } else {
        decimal(n as nat)
    }
}

proof fn lemma_digit_run(s: Seq<char>, k: int)
    requires
        0 <= k <= s.len(),
        forall|j: int| 0 <= j < k ==> is_digit(s[j]),
        k < s.len() ==> !is_digit(s[k]),
    ensures
        digit_run(s) == k,
    decreases s.len(),
{
    if s.len() > 0 && is_digit(s[0]) {
        lemma_digit_run(s.skip(1), k - 1);
    }
}

proof fn lemma_digit_run_at_least(s: Seq<char>, k: int)
    requires
        0 <= k <= s.len(),
        forall|j: int| 0 <= j < k ==> is_digit(s[j]),
    ensures
        k <= digit_run(s) <= s.len(),
    decreases s.len(),
{
    if s.len() > 0 && is_digit(s[0]) {
        lemma_digit_run_at_least(s.skip(1), if k > 0 { k - 1 } else { 0 });
    }
}

/// More digits never make the number smaller.
proof fn lemma_decimal_value_grows(s: Seq<char>, i: int, k: int)
    requires
        0 <= i <= k <= s.len(),
    ensures
        decimal_value(s.take(i)) <= decimal_value(s.take(k)),
    decreases k - i,
{
    if i < k {
        lemma_decimal_value_grows(s, i, k - 1);
        assert(s.take(k).drop_last() == s.take(k - 1));
    }
}

/// The value of one digit.
fn digit_of(c: char) -> (res: Option<u64>)
    ensures
        res == (if is_digit(c) {
            Some(digit_value(c) as u64)
        } else {
            None
        }),
        res matches Some(d) ==> d == digit_value(c) && d < 10,
{
    if '0' <= c && c <= '9' {
        Some((c as u32 - '0' as u32) as u64)
    } else {
        None
    }
}

/// Reads the digits from `from` to the end as a number of at most `max`.
fn read_digits(s: &Vec<char>, from: usize, max: u64, overflow: IntError) -> (res: Result<
    u64,
    IntError,
>)
    requires
        from <= s.len(),
    ensures
        match res {
            Ok(v) => digits_read(s@.skip(from as int), max as nat, overflow) == Ok::<nat, IntError>(
                v as nat,
            ),
            Err(e) => digits_read(s@.skip(from as int), max as nat, overflow) == Err::<
                nat,
                IntError,
            >(e),
        },
{
    let ghost digits = s@.skip(from as int);
    if from == s.len() {
        return Err(IntError::InvalidDigit);
    }
    let mut value: u64 = 0;
    let mut i: usize = from;
    assert(decimal_value(digits.take(0)) == 0);
    while i < s.len()
        invariant
            from <= i <= s.len(),
            from < s.len(),
            digits == s@.skip(from as int),
            value <= max,
            value == decimal_value(digits.take(i - from)),
            forall|j: int| 0 <= j < i - from ==> is_digit(digits[j]),
        decreases s.len() - i,
    {
        let c = s[i];
        assert(c == digits[i - from]);
        match digit_of(c) {
            None => {
                proof {
                    lemma_digit_run(digits, i - from);
                }
                return Err(IntError::InvalidDigit);
            },
            Some(d) => {
                let wide: u128 = value as u128 * 10 + d as u128;
                assert(digits.take(i - from + 1).drop_last() == digits.take(i - from));
                assert(wide == decimal_value(digits.take(i - from + 1)));
                if wide > max as u128 {
                    proof {
                        lemma_digit_run_at_least(digits, i - from + 1);
                        lemma_decimal_value_grows(
                            digits,
                            i - from + 1,
                            digit_run(digits) as int,
                        );
                    }
                    return Err(overflow);
                }
                value = wide as u64;
            },
        }
        i += 1;
    }
    proof {
        lemma_digit_run(digits, i - from);
        assert(digits.take(i - from) == digits);
    }
    Ok(value)
}

/// Reads an unsigned number of at most `max`.
fn read_unsigned(s: &Vec<char>, max: u64) -> (res: Result<u64, IntError>)
    ensures
        match res {
            Ok(v) => unsigned_read(s@, max as nat) == Ok::<nat, IntError>(v as nat) && v <= max,
            Err(e) => unsigned_read(s@, max as nat) == Err::<nat, IntError>(e),
        },
{
    if s.len() == 0 {
        return Err(IntError::Empty);
    }
    if s[0] == '+' {
        read_digits(s, 1, max, IntError::PosOverflow)
    } else {
        assert(s@.skip(0) == s@);
        read_digits(s, 0, max, IntError::PosOverflow)
    }
}

/// Reads an unsigned 64-bit number.
pub fn parse_u64(s: &Vec<char>) -> (res: Result<u64, IntError>)
    ensures
        match res {
            Ok(v) => unsigned_read(s@, u64::MAX as nat) == Ok::<nat, IntError>(v as nat),
            Err(e) => unsigned_read(s@, u64::MAX as nat) == Err::<nat, IntError>(e),
        },
{
    read_unsigned(s, u64::MAX)
}

/// Reads an unsigned 32-bit number.
pub fn parse_u32(s: &Vec<char>) -> (res: Result<u32, IntError>)
    ensures
        match res {
            Ok(v) => unsigned_read(s@, u32::MAX as nat) == Ok::<nat, IntError>(v as nat),
            Err(e) => unsigned_read(s@, u32::MAX as nat) == Err::<nat, IntError>(e),
        },
{
    match read_unsigned(s, u32::MAX as u64) {
        Ok(v) => Ok(v as u32),
        Err(e) => Err(e),
    }
}

/// Reads a signed 64-bit number.
pub fn parse_i64(s: &Vec<char>) -> (res: Result<i64, IntError>)
    ensures
        match res {
            Ok(v) => signed_read(s@) == Ok::<int, IntError>(v as int),
            Err(e) => signed_read(s@) == Err::<int, IntError>(e),
        },
{
    if s.len() > 0 && s[0] == '-' {
        match read_digits(s, 1, 0x8000_0000_0000_0000, IntError::NegOverflow) {
            Ok(v) => {
                if v == 0x8000_0000_0000_0000 {
                    Ok(i64::MIN)
                } else {
                    Ok(-(v as i64))
                }
            },
            Err(e) => Err(e),
        }
    } else {
        match read_unsigned(s, i64::MAX as u64) {
            Ok(v) => Ok(v as i64),
            Err(e) => Err(e),
        }
    }
}

/// Appends the decimal text of a number.
pub fn push_decimal(out: &mut String, n: u64)
    ensures
        final(out)@ == old(out)@ + decimal(n as nat),
    decreases n,
{
    if n >= 10 {
        push_decimal(out, n / 10);
    }
    let d: u8 = (n % 10) as u8;
    out.push((48 + d) as char);
    assert(out@ =~= old(out)@ + decimal(n as nat));
}

/// The decimal text of an unsigned number.
pub fn u64_text(n: u64) -> (res: String)
    ensures
        res@ == decimal(n as nat),
{
    let mut out = String::new();
    push_decimal(&mut out, n);
    assert(out@ =~= decimal(n as nat));
    out
}

/// The decimal text of a signed number.
pub fn i64_text(n: i64) -> (res: String)
    ensures
        res@ == signed_decimal(n as int),
{
    let mut out = String::new();
    if n < 0 {
        out.push('-');
        let magnitude: u64 = if n == i64::MIN {
            0x8000_0000_0000_0000
        } else {
            (-n) as u64
        };
        push_decimal(&mut out, magnitude);
    } else {
        push_decimal(&mut out, n as u64);
    }
    assert(out@ =~= signed_decimal(n as int));
    out
}

proof fn lemma_decimal_digits(n: nat)
    ensures
        decimal(n).len() > 0,
        forall|j: int| 0 <= j < decimal(n).len() ==> is_digit(#[trigger] decimal(n)[j]),
        decimal_value(decimal(n)) == n,
    decreases n,
{
    let d = n % 10;
    assert(is_digit(digit_char(d)) && digit_value(digit_char(d)) == d);
    if n >= 10 {
        lemma_decimal_digits(n / 10);
        assert(decimal(n).drop_last() == decimal(n / 10));
        assert(decimal(n).last() == digit_char(d));
    } else {
        let s = decimal(n);
        assert(s.drop_last() =~= Seq::<char>::empty());
        assert(decimal_value(s.drop_last()) == 0);
        assert(s.last() == digit_char(d));
    }
}

/// Reading the decimal text of a number gives the number back.
pub proof fn law_decimal_reads_back(n: nat, max: nat)
    requires
        n <= max,
    ensures
        unsigned_read(decimal(n), max) == Ok::<nat, IntError>(n),
{
    lemma_decimal_digits(n);
    let s = decimal(n);
    lemma_digit_run(s, s.len() as int);
    assert(s.take(s.len() as int) == s);
    assert(is_digit(s[0]));
}

/// Reading the decimal text of a signed 64-bit number gives the number back.
pub proof fn law_signed_decimal_reads_back(n: i64)
    ensures
        signed_read(signed_decimal(n as int)) == Ok::<int, IntError>(n as int),
{
    if n < 0 {
        let m = (-n) as nat;
        lemma_decimal_digits(m);
        let d = decimal(m);
        lemma_digit_run(d, d.len() as int);
        assert(d.take(d.len() as int) == d);
        assert(signed_decimal(n as int).skip(1) =~= d);
    } else {
        law_decimal_reads_back(n as nat, i64::MAX as nat);
        lemma_decimal_digits(n as nat);
        assert(is_digit(decimal(n as nat)[0]));
    }
}

/// Whether a text is made of decimal digits, by their codes.
pub open spec fn all_digits(s: Seq<char>) -> bool {
    forall|i: int| 0 <= i < s.len() ==> 48 <= #[trigger] s[i] as int <= 57
}

/// A decimal number is read digit by digit: a further digit counts one, and those
/// before it ten times as much as without it.
pub proof fn law_digits_are_read_in_order(s: Seq<char>, c: char, max: nat)
    requires
        s.len() > 0,
        all_digits(s),
        48 <= c as int <= 57,
    ensures
        unsigned_read(seq![c], max) == (if c as int - 48 <= max {
            Ok::<nat, IntError>((c as int - 48) as nat)
        } else {
            Err(IntError::PosOverflow)
        }),
        match unsigned_read(s, max) {
            Ok(n) => n <= max && unsigned_read(s.push(c), max) == if 10 * n + (c as int - 48)
                <= max {
                Ok::<nat, IntError>((10 * n + (c as int - 48)) as nat)
            } else {
                Err(IntError::PosOverflow)
            },
            Err(e) => e == IntError::PosOverflow && unsigned_read(s.push(c), max) == Err::<
                nat,
                IntError,
            >(e),
        },
{
    let t = s.push(c);
    let one = seq![c];
    assert(s[0] as int >= 48);
    assert forall|j: int| 0 <= j < s.len() implies is_digit(s[j]) by {}
    assert forall|j: int| 0 <= j < t.len() implies is_digit(t[j]) by {}
    lemma_digit_run(s, s.len() as int);
    lemma_digit_run(t, t.len() as int);
    lemma_digit_run(one, 1);
    assert(s.take(s.len() as int) =~= s);
    assert(t.take(t.len() as int) =~= t);
    assert(one.take(1) =~= one);
    assert(t.drop_last() =~= s);
    assert(one.drop_last() =~= Seq::<char>::empty());
    assert(decimal_value(Seq::<char>::empty()) == 0);
    assert(decimal_value(one) == digit_value(c));
    assert(decimal_value(t) == decimal_value(s) * 10 + digit_value(c));
}

/// A plus sign before a number does not matter, and without any digit there is no
/// number.
pub proof fn law_sign_is_optional(s: Seq<char>, max: nat)
    ensures
        s.len() > 0 && s[0] != '+' ==> unsigned_read(seq!['+'] + s, max) == unsigned_read(s, max),
        unsigned_read(Seq::empty(), max) == Err::<nat, IntError>(IntError::Empty),
        unsigned_read(seq!['+'], max) == Err::<nat, IntError>(IntError::InvalidDigit),
{
    assert((seq!['+'] + s).skip(1) =~= s);
    assert(seq!['+'].skip(1) =~= Seq::<char>::empty());
}

/// What is read as a number consists of digits, and of a sign in front if any.
pub proof fn law_only_digits_are_read(s: Seq<char>, max: nat)
    requires
        unsigned_read(s, max) is Ok,
    ensures
        s.len() > 0,
        all_digits(s) || (s[0] == '+' && s.len() > 1 && all_digits(s.skip(1))),
{
    let digits = if s[0] == '+' {
        s.skip(1)
    } else {
        s
    };
    lemma_digit_run_is_digits(digits);
}

proof fn lemma_digit_run_is_digits(s: Seq<char>)
    ensures
        digit_run(s) <= s.len(),
        forall|j: int| 0 <= j < digit_run(s) ==> 48 <= #[trigger] s[j] as int <= 57,
    decreases s.len(),
{
    if s.len() > 0 && is_digit(s[0]) {
        lemma_digit_run_is_digits(s.skip(1));
        assert forall|j: int| 0 <= j < digit_run(s) implies 48 <= #[trigger] s[j] as int <= 57 by {
            if j > 0 {
                assert(s[j] == s.skip(1)[j - 1]);
            }
        }
    }
}

/// A text that is no number because of a character in it is told from one that is
/// too large: the error is about the character unless the digits before it are too
/// large already.
pub proof fn law_wrong_digit_is_told(s: Seq<char>, rest: Seq<char>, c: char, max: nat)
    requires
        all_digits(s),
        s.len() > 0 ==> unsigned_read(s, max) is Ok,
        !(48 <= c as int <= 57),
        s.len() > 0 || c != '+',
    ensures
        unsigned_read(s.push(c) + rest, max) == Err::<nat, IntError>(IntError::InvalidDigit),
{
    let t = s.push(c) + rest;
    assert forall|j: int| 0 <= j < s.len() implies is_digit(t[j]) by {
        assert(t[j] == s[j]);
        assert(48 <= s[j] as int <= 57);
    }
    assert(t[s.len() as int] == c);
    lemma_digit_run(t, s.len() as int);
    assert(t.take(s.len() as int) =~= s);
    if s.len() > 0 {
        assert(t[0] == s[0]);
        assert(48 <= s[0] as int <= 57);
        lemma_digit_run(s, s.len() as int);
        assert(s.take(s.len() as int) =~= s);
    } else {
        assert(s =~= Seq::<char>::empty());
        assert(decimal_value(s) == 0);
    }
}

/// A minus sign turns a number around, down to the smallest of 64 bits.
pub proof fn law_minus_turns_around(s: Seq<char>)
    requires
        s.len() > 0,
        s[0] != '+',
        s[0] != '-',
    ensures
        signed_read(seq!['-'] + s) == match unsigned_read(s, 0x8000_0000_0000_0000) {
            Ok(n) => Ok::<int, IntError>(-(n as int)),
            Err(e) => Err(
                if e == IntError::PosOverflow {
                    IntError::NegOverflow
                } else {
                    e
                },
            ),
        },
        signed_read(s) == match unsigned_read(s, 0x7fff_ffff_ffff_ffff) {
            Ok(n) => Ok::<int, IntError>(n as int),
            Err(e) => Err(e),
        },
{
    assert((seq!['-'] + s).skip(1) =~= s);
}

/// The text of a number is that of its tens, followed by its last digit.
pub proof fn law_decimal_is_written_in_order(n: nat, d: nat)
    requires
        d < 10,
    ensures
        decimal(d).len() == 1,
        decimal(d)[0] as int == 48 + d,
        n > 0 ==> decimal(10 * n + d) == decimal(n) + decimal(d),
{
    let c = digit_char(d);
    assert(c as int == 48 + d);
    assert(decimal(d) =~= seq![c]);
    if n > 0 {
        assert((10 * n + d) / 10 == n && (10 * n + d) % 10 == d);
        assert(decimal(10 * n + d) =~= decimal(n) + decimal(d));
    }
}

} // verus!
