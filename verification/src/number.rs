//! Decimal formatting and parsing of integers, as `format!("{}")` and
//! `str::parse` do them, on character sequences.
use vstd::prelude::*;
use crate::text::string_push;

verus! {

// ---------------------------------------------------------------------
// Formatting
// ---------------------------------------------------------------------

/// The character of a decimal digit `0 <= d < 10`.
pub open spec fn digit_char(d: int) -> char {
    (d + 48) as char
}

/// The decimal digits of a natural number, most significant first.
pub open spec fn decimal_digits(n: nat) -> Seq<char>
    decreases n,
{
    if n < 10 {
        seq![digit_char(n as int)]
    } else {
        decimal_digits(n / 10).push(digit_char((n % 10) as int))
    }
}

/// The decimal text of an integer, with a leading `-` when negative.
pub open spec fn decimal(i: int) -> Seq<char> {
    if i < 0 {
        seq!['-'] + decimal_digits((-i) as nat)
    } else {
        decimal_digits(i as nat)
    }
}

fn digit_of(d: u64) -> (c: char)
    requires
        d < 10,
    ensures
        c == digit_char(d as int),
{
    let b: u8 = 48u8 + (d as u8);
    b as char
}

/// Appends the decimal digits of `n`.
pub fn push_decimal_digits(s: &mut String, n: u64)
    ensures
        final(s)@ == old(s)@ + decimal_digits(n as nat),
    decreases n,
{
    if n >= 10 {
        push_decimal_digits(s, n / 10);
    }
    let c = digit_of(n % 10);
    string_push(s, c);
    proof {
        if n >= 10 {
            assert(decimal_digits(n as nat) == decimal_digits((n / 10) as nat).push(
                digit_char((n % 10) as int),
            ));
        }
    }
    assert(s@ =~= old(s)@ + decimal_digits(n as nat));
}

/// Appends the decimal text of an `i32` (`format!("{}", v)`).
pub fn push_i32(s: &mut String, v: i32)
    ensures
        final(s)@ == old(s)@ + decimal(v as int),
{
    if v < 0 {
        string_push(s, '-');
        let m: i64 = -(v as i64);
        push_decimal_digits(s, m as u64);
        assert(s@ =~= old(s)@ + decimal(v as int));
    } else {
        push_decimal_digits(s, v as u64);
    }
}

/// Appends the decimal text of a `usize` (`format!("{}", v)`).
pub fn push_usize(s: &mut String, v: usize)
    ensures
        final(s)@ == old(s)@ + decimal(v as int),
{
    push_decimal_digits(s, v as u64);
}

// ---------------------------------------------------------------------
// Parsing
// ---------------------------------------------------------------------

/// Why `str::parse` rejects a text as an integer (`IntErrorKind`).
pub enum IntErrorKind {
    Empty,
    InvalidDigit,
    PosOverflow,
    NegOverflow,
}

/// The text that `ParseIntError`'s `Display` shows for each kind.
pub open spec fn int_error_message(k: IntErrorKind) -> Seq<char> {
    match k {
        IntErrorKind::Empty => "cannot parse integer from empty string"@,
        IntErrorKind::InvalidDigit => "invalid digit found in string"@,
        IntErrorKind::PosOverflow => "number too large to fit in target type"@,
        IntErrorKind::NegOverflow => "number too small to fit in target type"@,
    }
}

/// The text of a parse error.
pub fn int_error_text(k: &IntErrorKind) -> (s: String)
    ensures
        s@ == int_error_message(*k),
{
    match k {
        IntErrorKind::Empty => String::from_str("cannot parse integer from empty string"),
        IntErrorKind::InvalidDigit => String::from_str("invalid digit found in string"),
        IntErrorKind::PosOverflow => String::from_str("number too large to fit in target type"),
        IntErrorKind::NegOverflow => String::from_str("number too small to fit in target type"),
    }
}

pub open spec fn is_digit(c: char) -> bool {
    '0' <= c <= '9'
}

pub open spec fn digit_value(c: char) -> int {
    c as int - 48
}

/// Reads the digits `d` left to right into a value that must stay within
/// `lo..=hi`; a negative number is accumulated downwards.  The first
/// non-digit or the first step out of range decides the error.
pub open spec fn accumulate(d: Seq<char>, negative: bool, lo: int, hi: int) -> Result<
    int,
    IntErrorKind,
>
    decreases d.len(),
{
    if d.len() == 0 {
        Ok(0)
    } else {
        match accumulate(d.drop_last(), negative, lo, hi) {
            Err(e) => Err(e),
            Ok(v) => if !is_digit(d.last()) {
                Err(IntErrorKind::InvalidDigit)
            } else {
                let nv = if negative {
                    v * 10 - digit_value(d.last())
                } else {
                    v * 10 + digit_value(d.last())
                };
                if nv < lo {
                    Err(IntErrorKind::NegOverflow)
                } else if nv > hi {
                    Err(IntErrorKind::PosOverflow)
                } else {
                    Ok(nv)
                }
            },
        }
    }
}

/// `str::parse` into an integer type with range `lo..=hi`; `signed` types
/// accept a leading `-`, all accept a leading `+`.
pub open spec fn parse_integer(s: Seq<char>, lo: int, hi: int, signed: bool) -> Result<
    int,
    IntErrorKind,
> {
    if s.len() == 0 {
        Err(IntErrorKind::Empty)
    } else if s.len() == 1 && (s[0] == '+' || s[0] == '-') {
        Err(IntErrorKind::InvalidDigit)
    } else if s[0] == '+' {
        accumulate(s.drop_first(), false, lo, hi)
    } else if s[0] == '-' && signed {
        accumulate(s.drop_first(), true, lo, hi)
    } else {
        accumulate(s, false, lo, hi)
    }
}

/// `str::parse::<i32>`.
pub open spec fn parse_i32(s: Seq<char>) -> Result<int, IntErrorKind> {
    parse_integer(s, i32::MIN as int, i32::MAX as int, true)
}

/// `str::parse::<usize>`.
pub open spec fn parse_usize(s: Seq<char>) -> Result<int, IntErrorKind> {
    parse_integer(s, 0, usize::MAX as int, false)
}

proof fn lemma_accumulate_bounds(d: Seq<char>, negative: bool, lo: int, hi: int)
    requires
        lo <= 0 <= hi,
    ensures
        accumulate(d, negative, lo, hi) matches Ok(v) ==> lo <= v <= hi && (negative ==> v
            <= 0) && (!negative ==> v >= 0),
    decreases d.len(),
{
    if d.len() > 0 {
        lemma_accumulate_bounds(d.drop_last(), negative, lo, hi);
    }
}

/// The decimal text of a natural number is a non-empty run of digits.
pub proof fn lemma_decimal_digits_are_digits(n: nat)
    ensures
        decimal_digits(n).len() >= 1,
        forall|j: int| 0 <= j < decimal_digits(n).len() ==> is_digit(#[trigger] decimal_digits(n)[j]),
    decreases n,
{
    if n >= 10 {
        lemma_decimal_digits_are_digits(n / 10);
        let p = decimal_digits(n / 10);
        assert forall|j: int| 0 <= j < decimal_digits(n).len() implies is_digit(
            #[trigger] decimal_digits(n)[j],
        ) by {
            if j < p.len() {
                assert(decimal_digits(n)[j] == p[j]);
            }
        }
    }
}

/// The decimal text of an integer is non-empty, ends with a digit, and
/// holds only digits after a possible leading `-`.
pub proof fn lemma_decimal_chars(x: int)
    ensures
        decimal(x).len() >= 1,
        is_digit(decimal(x).last()),
        forall|j: int|
            0 <= j < decimal(x).len() ==> is_digit(#[trigger] decimal(x)[j]) || (j == 0
                && decimal(x)[j] == '-'),
{
    if x < 0 {
        let m = (-x) as nat;
        lemma_decimal_digits_are_digits(m);
        let d = decimal_digits(m);
        assert forall|j: int| 0 <= j < decimal(x).len() implies is_digit(#[trigger] decimal(x)[j]) || (j
            == 0 && decimal(x)[j] == '-') by {
            if j > 0 {
                assert(decimal(x)[j] == d[j - 1]);
            }
        }
        assert(decimal(x).last() == d[d.len() - 1]);
    } else {
        lemma_decimal_digits_are_digits(x as nat);
        let d = decimal_digits(x as nat);
        assert(d.last() == d[d.len() - 1]);
    }
}

/// A character that is neither a digit nor `-` is not in a decimal text.
pub proof fn lemma_decimal_lacks(x: int, c: char)
    requires
        !is_digit(c),
        c != '-',
    ensures
        !decimal(x).contains(c),
{
    lemma_decimal_chars(x);
    if decimal(x).contains(c) {
        let k = choose|k: int| 0 <= k < decimal(x).len() && decimal(x)[k] == c;
        assert(is_digit(decimal(x)[k]) || decimal(x)[k] == '-');
    }
}

/// Accumulating the digits of `n` gives `n`, or `-n` downwards, when that
/// stays within the bounds.
proof fn lemma_accumulate_digits(n: nat, negative: bool, lo: int, hi: int)
    requires
        lo <= 0 <= hi,
        negative ==> lo <= -n,
        !negative ==> n <= hi,
    ensures
        accumulate(decimal_digits(n), negative, lo, hi) == Ok::<int, IntErrorKind>(
            if negative {
                -n
            } else {
                n as int
            },
        ),
    decreases n,
{
    let d = decimal_digits(n);
    if n >= 10 {
        lemma_accumulate_digits(n / 10, negative, lo, hi);
        assert(d.drop_last() =~= decimal_digits(n / 10));
        assert((n / 10) * 10 + n % 10 == n);
        assert(d.last() == digit_char((n % 10) as int));
        assert(digit_value(d.last()) == n % 10);
        assert(is_digit(d.last()));
        let v: int = if negative { -(n / 10) } else { (n / 10) as int };
        assert(accumulate(d.drop_last(), negative, lo, hi) == Ok::<int, IntErrorKind>(v));
        if negative {
            assert(v * 10 - digit_value(d.last()) == -n);
        } else {
            assert(v * 10 + digit_value(d.last()) == n);
        }
    } else {
        assert(d.drop_last() =~= Seq::<char>::empty());
        assert(digit_value(d.last()) == n);
        assert(is_digit(d.last()));
        assert(accumulate(d.drop_last(), negative, lo, hi) == Ok::<int, IntErrorKind>(0));
    }
}

/// Reading back the decimal text of a number within the bounds gives the
/// number; a signed reader reads negative numbers too.
proof fn lemma_parse_integer_decimal(x: int, lo: int, hi: int, signed: bool)
    requires
        lo <= 0 <= hi,
        lo <= x <= hi,
        !signed ==> x >= 0,
    ensures
        parse_integer(decimal(x), lo, hi, signed) == Ok::<int, IntErrorKind>(x),
{
    if x < 0 {
        let m = (-x) as nat;
        lemma_decimal_digits_are_digits(m);
        lemma_accumulate_digits(m, true, lo, hi);
        assert(decimal(x).drop_first() =~= decimal_digits(m));
    } else {
        let n = x as nat;
        lemma_decimal_digits_are_digits(n);
        lemma_accumulate_digits(n, false, lo, hi);
        assert(is_digit(decimal_digits(n)[0]));
    }
}

/// A text with a character that is not a digit accumulates to an error.
proof fn lemma_accumulate_nondigit(d: Seq<char>, negative: bool, lo: int, hi: int, j: int)
    requires
        0 <= j < d.len(),
        !is_digit(d[j]),
    ensures
        accumulate(d, negative, lo, hi) is Err,
    decreases d.len(),
{
    if j < d.len() - 1 {
        assert(d.drop_last()[j] == d[j]);
        lemma_accumulate_nondigit(d.drop_last(), negative, lo, hi, j);
    } else {
        assert(d.last() == d[j]);
    }
}

/// An unsigned reader refuses a text that is empty or holds a character
/// other than a digit, but for one leading `+`.
pub proof fn lemma_parse_unsigned_refuses(s: Seq<char>, hi: int)
    requires
        s.len() == 0 || exists|j: int| 0 <= j < s.len() && !is_digit(#[trigger] s[j]) && !(j == 0 && s[j] == '+'),
    ensures
        parse_integer(s, 0, hi, false) is Err,
{
    if s.len() > 0 {
        let j = choose|j: int| 0 <= j < s.len() && !is_digit(#[trigger] s[j]) && !(j == 0 && s[j] == '+');
        if s.len() == 1 && (s[0] == '+' || s[0] == '-') {
        } else if s[0] == '+' {
            assert(s.drop_first()[j - 1] == s[j]);
            lemma_accumulate_nondigit(s.drop_first(), false, 0, hi, j - 1);
        } else {
            lemma_accumulate_nondigit(s, false, 0, hi, j);
        }
    }
}

/// `str::parse::<u32>` gives back every `u32` from its decimal text.
pub proof fn lemma_parse_u32_decimal(n: u32)
    ensures
        parse_u32(decimal(n as int)) == Ok::<int, IntErrorKind>(n as int),
{
    lemma_parse_integer_decimal(n as int, 0, u32::MAX as int, false);
}

/// `str::parse::<i32>` gives back every `i32` from its decimal text.
pub proof fn lemma_parse_i32_decimal(x: i32)
    ensures
        parse_i32(decimal(x as int)) == Ok::<int, IntErrorKind>(x as int),
{
    lemma_parse_integer_decimal(x as int, i32::MIN as int, i32::MAX as int, true);
}

/// `str::parse::<usize>` gives back every `usize` from its decimal text.
pub proof fn lemma_parse_usize_decimal(n: usize)
    ensures
        parse_usize(decimal(n as int)) == Ok::<int, IntErrorKind>(n as int),
{
    lemma_parse_integer_decimal(n as int, 0, usize::MAX as int, false);
}

/// Runs `accumulate` over `d[start..]`, for the bounds of `i64`-sized
/// values.
fn accumulate_exec(d: &[char], start: usize, negative: bool, lo: i128, hi: i128) -> (r: Result<
    i128,
    IntErrorKind,
>)
    requires
        start <= d@.len(),
        lo <= 0 <= hi,
        -0x1_0000_0000_0000_0000 <= lo,
        hi <= 0x1_0000_0000_0000_0000,
    ensures
        match accumulate(d@.subrange(start as int, d@.len() as int), negative, lo as int, hi as int) {
            Ok(v) => r matches Ok(w) && w == v,
            Err(e) => r == Err::<i128, IntErrorKind>(e),
        },
{
    let mut v: i128 = 0;
    let mut i: usize = start;
    assert(d@.subrange(start as int, start as int) =~= Seq::<char>::empty());
    while i < d.len()
        invariant
            start <= i <= d@.len(),
            lo <= 0 <= hi,
            -0x1_0000_0000_0000_0000 <= lo,
            hi <= 0x1_0000_0000_0000_0000,
            accumulate(d@.subrange(start as int, i as int), negative, lo as int, hi as int)
                == Ok::<int, IntErrorKind>(v as int),
        decreases d@.len() - i,
    {
        let ghost pre = d@.subrange(start as int, i as int);
        let ghost cur = d@.subrange(start as int, i + 1);
        assert(cur.drop_last() =~= pre);
        assert(cur.last() == d@[i as int]);
        proof {
            lemma_accumulate_bounds(pre, negative, lo as int, hi as int);
        }
        let c = d[i];
        if !('0' <= c && c <= '9') {
            proof {
                assert(d@.subrange(start as int, d@.len() as int).subrange(0, (i - start + 1) as int)
                    =~= cur);
                lemma_accumulate_prefix_error(d@.subrange(start as int, d@.len() as int), (i
                    - start + 1) as int, negative, lo as int, hi as int);
            }
            return Err(IntErrorKind::InvalidDigit);
        }
        let dv: i128 = (c as u32 - 48) as i128;
        let nv: i128 = if negative {
            v * 10 - dv
        } else {
            v * 10 + dv
        };
        if nv < lo {
            proof {
                assert(d@.subrange(start as int, d@.len() as int).subrange(0, (i - start + 1) as int)
                    =~= cur);
                lemma_accumulate_prefix_error(d@.subrange(start as int, d@.len() as int), (i
                    - start + 1) as int, negative, lo as int, hi as int);
            }
            return Err(IntErrorKind::NegOverflow);
        }
        if nv > hi {
            proof {
                assert(d@.subrange(start as int, d@.len() as int).subrange(0, (i - start + 1) as int)
                    =~= cur);
                lemma_accumulate_prefix_error(d@.subrange(start as int, d@.len() as int), (i
                    - start + 1) as int, negative, lo as int, hi as int);
            }
            return Err(IntErrorKind::PosOverflow);
        }
        v = nv;
        i = i + 1;
    }
    Ok(v)
}

/// Once a prefix of `d` fails, all of `d` fails the same way.
proof fn lemma_accumulate_prefix_error(d: Seq<char>, n: int, negative: bool, lo: int, hi: int)
    requires
        0 <= n <= d.len(),
        accumulate(d.subrange(0, n), negative, lo, hi) is Err,
    ensures
        accumulate(d, negative, lo, hi) == accumulate(d.subrange(0, n), negative, lo, hi),
    decreases d.len() - n,
{
    if n < d.len() {
        assert(d.drop_last().subrange(0, n) =~= d.subrange(0, n));
        lemma_accumulate_prefix_error(d.drop_last(), n, negative, lo, hi);
    } else {
        assert(d.subrange(0, n) =~= d);
    }
}

/// `str::parse::<i32>` on characters.
pub fn parse_i32_chars(s: &[char]) -> (r: Result<i32, IntErrorKind>)
    ensures
        match parse_i32(s@) {
            Ok(v) => r matches Ok(w) && w == v,
            Err(e) => r == Err::<i32, IntErrorKind>(e),
        },
{
    let n = s.len();
    if n == 0 {
        return Err(IntErrorKind::Empty);
    }
    if n == 1 && (s[0] == '+' || s[0] == '-') {
        return Err(IntErrorKind::InvalidDigit);
    }
    let (start, negative): (usize, bool) = if s[0] == '+' {
        (1, false)
    } else if s[0] == '-' {
        (1, true)
    } else {
        (0, false)
    };
    assert(s@.subrange(1, n as int) =~= s@.drop_first());
    assert(s@.subrange(0, n as int) =~= s@);
    let r = accumulate_exec(s, start, negative, i32::MIN as i128, i32::MAX as i128);
    proof {
        lemma_accumulate_bounds(s@.subrange(start as int, n as int), negative, i32::MIN as int, i32::MAX as int);
    }
    match r {
        Ok(v) => Ok(v as i32),
        Err(e) => Err(e),
    }
}

/// `str::parse::<u32>`.
pub open spec fn parse_u32(s: Seq<char>) -> Result<int, IntErrorKind> {
    parse_integer(s, 0, u32::MAX as int, false)
}

/// `str::parse::<u32>` on characters.
pub fn parse_u32_chars(s: &[char]) -> (r: Result<u32, IntErrorKind>)
    ensures
        match parse_u32(s@) {
            Ok(v) => r matches Ok(w) && w == v,
            Err(e) => r == Err::<u32, IntErrorKind>(e),
        },
{
    let n = s.len();
    if n == 0 {
        return Err(IntErrorKind::Empty);
    }
    if n == 1 && (s[0] == '+' || s[0] == '-') {
        return Err(IntErrorKind::InvalidDigit);
    }
    let start: usize = if s[0] == '+' {
        1
    } else {
        0
    };
    assert(s@.subrange(1, n as int) =~= s@.drop_first());
    assert(s@.subrange(0, n as int) =~= s@);
    let r = accumulate_exec(s, start, false, 0, u32::MAX as i128);
    proof {
        lemma_accumulate_bounds(s@.subrange(start as int, n as int), false, 0, u32::MAX as int);
    }
    match r {
        Ok(v) => Ok(v as u32),
        Err(e) => Err(e),
    }
}

/// `str::parse::<usize>` on characters.
pub fn parse_usize_chars(s: &[char]) -> (r: Result<usize, IntErrorKind>)
    ensures
        match parse_usize(s@) {
            Ok(v) => r matches Ok(w) && w == v,
            Err(e) => r == Err::<usize, IntErrorKind>(e),
        },
{
    let n = s.len();
    if n == 0 {
        return Err(IntErrorKind::Empty);
    }
    if n == 1 && (s[0] == '+' || s[0] == '-') {
        return Err(IntErrorKind::InvalidDigit);
    }
    let start: usize = if s[0] == '+' {
        1
    } else {
        0
    };
    assert(s@.subrange(1, n as int) =~= s@.drop_first());
    assert(s@.subrange(0, n as int) =~= s@);
    let r = accumulate_exec(s, start, false, 0, usize::MAX as i128);
    proof {
        lemma_accumulate_bounds(s@.subrange(start as int, n as int), false, 0, usize::MAX as int);
    }
    match r {
        Ok(v) => Ok(v as usize),
        Err(e) => Err(e),
    }
}

} // verus!
