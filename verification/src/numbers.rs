//! Numbers as text: decimal, hexadecimal and fixed-point notation, and the
//! parsing of decimal numbers.
use vstd::prelude::*;

use crate::text;
use crate::text::to_chars;

verus! {

/// The decimal digit of `d`, for `d` below ten.
pub open spec fn digit(d: int) -> char {
    if d == 0 {
        '0'
    } else if d == 1 {
        '1'
    } else if d == 2 {
        '2'
    } else if d == 3 {
        '3'
    } else if d == 4 {
        '4'
    } else if d == 5 {
        '5'
    } else if d == 6 {
        '6'
    } else if d == 7 {
        '7'
    } else if d == 8 {
        '8'
    } else {
        '9'
    }
}

/// The decimal digit of a number below ten.
pub fn digit_char(d: u8) -> (r: char)
    requires
        d < 10,
    ensures
        r == digit(d as int),
{
    match d {
        0 => '0',
        1 => '1',
        2 => '2',
        3 => '3',
        4 => '4',
        5 => '5',
        6 => '6',
        7 => '7',
        8 => '8',
        _ => '9',
    }
}

/// The value of a decimal digit.
pub open spec fn digit_value(c: char) -> Option<int> {
    if c == '0' {
        Some(0)
    } else if c == '1' {
        Some(1)
    } else if c == '2' {
        Some(2)
    } else if c == '3' {
        Some(3)
    } else if c == '4' {
        Some(4)
    } else if c == '5' {
        Some(5)
    } else if c == '6' {
        Some(6)
    } else if c == '7' {
        Some(7)
    } else if c == '8' {
        Some(8)
    } else if c == '9' {
        Some(9)
    } else {
        None
    }
}

/// The value of a decimal digit, or `None` for any other character.
pub fn char_digit(c: char) -> (r: Option<u8>)
    ensures
        match r {
            Some(d) => digit_value(c) == Some(d as int) && d < 10,
            None => digit_value(c) is None,
        },
{
    match c {
        '0' => Some(0),
        '1' => Some(1),
        '2' => Some(2),
        '3' => Some(3),
        '4' => Some(4),
        '5' => Some(5),
        '6' => Some(6),
        '7' => Some(7),
        '8' => Some(8),
        '9' => Some(9),
        _ => None,
    }
}

/// A number in decimal notation.
pub open spec fn decimal(n: nat) -> Seq<char>
    decreases n,
{
    if n < 10 {
        seq![digit(n as int)]
    } else {
        decimal(n / 10).push(digit((n % 10) as int))
    }
}

/// Appends a number in decimal notation.
pub fn push_decimal(s: &mut String, n: u128)
    ensures
        final(s)@ == old(s)@ + decimal(n as nat),
    decreases n,
{
    if n >= 10 {
        push_decimal(s, n / 10);
    }
    let d: u8 = (n % 10) as u8;
    s.push(digit_char(d));
    assert(s@ =~= old(s)@ + decimal(n as nat));
}

/// A number in decimal notation.
pub fn decimal_str(n: u128) -> (r: String)
    ensures
        r@ == decimal(n as nat),
{
    let mut s = String::new();
    push_decimal(&mut s, n);
    assert(s@ =~= decimal(n as nat));
    s
}

/// A signed number in decimal notation.
pub open spec fn signed_decimal(n: int) -> Seq<char> {
    if n < 0 {
        "-"@ + decimal((-n) as nat)
    } else {
        decimal(n as nat)
    }
}

/// A signed number in decimal notation.
pub fn signed_decimal_str(n: i64) -> (r: String)
    ensures
        r@ == signed_decimal(n as int),
{
    if n < 0 {
        let mut s = "-".to_owned();
        push_decimal(&mut s, (-(n as i128)) as u128);
        s
    } else {
        decimal_str(n as u128)
    }
}

/// The number that a sequence of decimal digits denotes; `None` if any
/// character is not a digit.
pub open spec fn digits_value(s: Seq<char>) -> Option<nat>
    decreases s.len(),
{
    if s.len() == 0 {
        Some(0)
    } else {
        match (digits_value(s.drop_last()), digit_value(s.last())) {
            (Some(v), Some(d)) => Some((v * 10 + d) as nat),
            _ => None,
        }
    }
}

/// The number that `s` denotes: digits with an optional `+` before them.
pub open spec fn parse_number(s: Seq<char>) -> Option<nat> {
    let digits = if s.len() > 0 && s[0] == '+' {
        s.drop_first()
    } else {
        s
    };
    if digits.len() == 0 {
        None
    } else {
        digits_value(digits)
    }
}

/// The number that `s` denotes, if it fits in 64 bits.
pub open spec fn parse_u64_spec(s: Seq<char>) -> Option<u64> {
    match parse_number(s) {
        Some(v) => if v <= u64::MAX {
            Some(v as u64)
        } else {
            None
        },
        None => None,
    }
}

proof fn lemma_digits_grow(s: Seq<char>, i: int, bound: nat)
    requires
        0 <= i <= s.len(),
        digits_value(s.take(i)) is None || digits_value(s.take(i))->0 > bound,
    ensures
        digits_value(s) is None || digits_value(s)->0 > bound,
    decreases s.len() - i,
{
    if i < s.len() {
        assert(s.take(i + 1).drop_last() =~= s.take(i));
        lemma_digits_grow(s, i + 1, bound);
    } else {
        assert(s.take(i) =~= s);
    }
}

/// The 64-bit number that a string denotes.
pub fn parse_u64(s: &str) -> (r: Option<u64>)
    ensures
        r == parse_u64_spec(s@),
{
    let v = to_chars(s);
    let start: usize = if v.len() > 0 && v[0] == '+' {
        1
    } else {
        0
    };
    let ghost digits = s@.skip(start as int);
    assert(start == 1 ==> s@.drop_first() =~= digits);
    assert(start == 0 ==> s@ =~= digits);
    if start == v.len() {
        return None;
    }
    let mut value: u64 = 0;
    let mut i: usize = start;
    assert(digits.take(0) =~= Seq::<char>::empty());
    while i < v.len()
        invariant
            v@ == s@,
            start <= i <= v@.len(),
            digits == s@.skip(start as int),
            parse_number(s@) == digits_value(digits),
            digits_value(digits.take(i - start)) == Some(value as nat),
        decreases v@.len() - i,
    {
        let ghost k = i - start;
        assert(digits.take(k + 1).drop_last() =~= digits.take(k));
        assert(digits.take(k + 1).last() == v@[i as int]);
        let d: u8 = match char_digit(v[i]) {
            Some(d) => d,
            None => {
                proof {
                    lemma_digits_grow(digits, k + 1, u64::MAX as nat);
                }
                return None;
            },
        };
        let wide: u128 = value as u128 * 10 + d as u128;
        if wide > u64::MAX as u128 {
            proof {
                lemma_digits_grow(digits, k + 1, u64::MAX as nat);
            }
            return None;
        }
        value = wide as u64;
        i = i + 1;
    }
    assert(digits.take(digits.len() as int) =~= digits);
    Some(value)
}

proof fn lemma_decimal_digits(n: nat)
    ensures
        decimal(n).len() >= 1,
        digits_value(decimal(n)) == Some(n),
        decimal(n)[0] != '+',
    decreases n,
{
    if n < 10 {
        assert(decimal(n).drop_last() =~= Seq::<char>::empty());
        reveal_with_fuel(digits_value, 2);
    } else {
        lemma_decimal_digits(n / 10);
        assert(decimal(n).drop_last() =~= decimal(n / 10));
        assert(decimal(n)[0] == decimal(n / 10)[0]);
    }
}

/// Decimal notation is at least one character long and made of digits.
pub proof fn lemma_decimal_is_digits(n: nat, c: char)
    requires
        digit_value(c) is None,
    ensures
        decimal(n).len() >= 1,
        !decimal(n).contains(c),
    decreases n,
{
    lemma_decimal_digits(n);
    if n >= 10 {
        lemma_decimal_is_digits(n / 10, c);
    }
    let s = decimal(n);
    if s.contains(c) {
        let i = s.index_of(c);
        if n >= 10 && i < s.len() - 1 {
            assert(s.drop_last() =~= decimal(n / 10));
            assert(decimal(n / 10)[i] == c);
        }
    }
}

/// Reading back a number written in decimal notation gives the number.
pub proof fn lemma_parse_decimal(n: u64)
    ensures
        parse_u64_spec(decimal(n as nat)) == Some(n),
{
    lemma_decimal_digits(n as nat);
}

/// Different numbers have different decimal notations.
pub proof fn lemma_decimal_injective(a: nat, b: nat)
    requires
        decimal(a) == decimal(b),
    ensures
        a == b,
{
    lemma_decimal_digits(a);
    lemma_decimal_digits(b);
}

// ---------------------------------------------------------------------------
// Hexadecimal

/// The lower-case hexadecimal digit of `d`, for `d` below sixteen.
pub open spec fn hex_digit(d: int) -> char {
    if d < 10 {
        digit(d)
    } else if d == 10 {
        'a'
    } else if d == 11 {
        'b'
    } else if d == 12 {
        'c'
    } else if d == 13 {
        'd'
    } else if d == 14 {
        'e'
    } else {
        'f'
    }
}

fn hex_digit_char(d: u8) -> (r: char)
    requires
        d < 16,
    ensures
        r == hex_digit(d as int),
{
    match d {
        10 => 'a',
        11 => 'b',
        12 => 'c',
        13 => 'd',
        14 => 'e',
        15 => 'f',
        _ => digit_char(d),
    }
}

/// Bytes in lower-case hexadecimal notation, two digits each.
pub open spec fn hex(bytes: Seq<u8>) -> Seq<char>
    decreases bytes.len(),
{
    if bytes.len() == 0 {
        Seq::empty()
    } else {
        hex(bytes.drop_last()).push(hex_digit((bytes.last() / 16) as int)).push(
            hex_digit((bytes.last() % 16) as int),
        )
    }
}

/// Hexadecimal notation has two digits for each byte.
pub proof fn lemma_hex_len(bytes: Seq<u8>)
    ensures
        hex(bytes).len() == 2 * bytes.len(),
    decreases bytes.len(),
{
    if bytes.len() > 0 {
        lemma_hex_len(bytes.drop_last());
    }
}

/// Bytes in lower-case hexadecimal notation.
pub fn hex_str(bytes: &[u8]) -> (r: String)
    ensures
        r@ == hex(bytes@),
{
    let mut s = String::new();
    let mut i: usize = 0;
    while i < bytes.len()
        invariant
            i <= bytes@.len(),
            s@ == hex(bytes@.take(i as int)),
        decreases bytes@.len() - i,
    {
        let b: u8 = bytes[i];
        assert(bytes@.take(i + 1).drop_last() =~= bytes@.take(i as int));
        s.push(hex_digit_char(b / 16));
        s.push(hex_digit_char(b % 16));
        i = i + 1;
    }
    assert(bytes@.take(bytes@.len() as int) =~= bytes@);
    s
}

// ---------------------------------------------------------------------------
// Repetition and padding

/// The character `c`, `n` times.
pub open spec fn repeat(c: char, n: nat) -> Seq<char> {
    Seq::new(n, |i: int| c)
}

/// Appends a character `n` times.
pub fn push_repeat(s: &mut String, c: char, n: usize)
    ensures
        final(s)@ == old(s)@ + repeat(c, n as nat),
{
    let mut i: usize = 0;
    assert(s@ =~= old(s)@ + repeat(c, 0));
    while i < n
        invariant
            i <= n,
            s@ == old(s)@ + repeat(c, i as nat),
        decreases n - i,
    {
        s.push(c);
        i = i + 1;
        assert(s@ =~= old(s)@ + repeat(c, i as nat));
    }
}

/// A string of one repeated character.
pub fn repeat_str(c: char, n: usize) -> (r: String)
    ensures
        r@ == repeat(c, n as nat),
{
    let mut s = String::new();
    push_repeat(&mut s, c, n);
    assert(s@ =~= repeat(c, n as nat));
    s
}

/// `s` with spaces after it, up to `width` characters.
pub open spec fn pad_right(s: Seq<char>, width: nat) -> Seq<char> {
    if s.len() < width {
        s + repeat(' ', (width - s.len()) as nat)
    } else {
        s
    }
}

/// `s` with spaces before it, up to `width` characters.
pub open spec fn pad_left(s: Seq<char>, width: nat) -> Seq<char> {
    if s.len() < width {
        repeat(' ', (width - s.len()) as nat) + s
    } else {
        s
    }
}

/// A string with spaces after it, up to the given number of characters.
pub fn pad_right_str(s: &str, width: usize) -> (r: String)
    ensures
        r@ == pad_right(s@, width as nat),
{
    let n: usize = to_chars(s).len();
    let mut out = s.to_owned();
    if n < width {
        push_repeat(&mut out, ' ', width - n);
    }
    out
}

/// A string with spaces before it, up to the given number of characters.
pub fn pad_left_str(s: &str, width: usize) -> (r: String)
    ensures
        r@ == pad_left(s@, width as nat),
{
    let n: usize = to_chars(s).len();
    if n < width {
        let mut out = repeat_str(' ', width - n);
        text::append_str(&mut out, s);
        out
    } else {
        s.to_owned()
    }
}

// ---------------------------------------------------------------------------
// Fixed-point notation

/// The last `digits` decimal digits of `n`, with leading zeros.
pub open spec fn zero_padded(n: nat, digits: nat) -> Seq<char>
    decreases digits,
{
    if digits == 0 {
        Seq::empty()
    } else {
        zero_padded(n / 10, (digits - 1) as nat).push(digit((n % 10) as int))
    }
}

/// Appends the last `digits` decimal digits of a number, with leading zeros.
pub fn push_zero_padded(s: &mut String, n: u128, digits: u32)
    ensures
        final(s)@ == old(s)@ + zero_padded(n as nat, digits as nat),
    decreases digits,
{
    if digits > 0 {
        push_zero_padded(s, n / 10, digits - 1);
        let d: u8 = (n % 10) as u8;
        s.push(digit_char(d));
    }
    assert(s@ =~= old(s)@ + zero_padded(n as nat, digits as nat));
}

/// Ten to the power of `digits`.
pub open spec fn ten_pow(digits: nat) -> nat
    decreases digits,
{
    if digits == 0 {
        1
    } else {
        10 * ten_pow((digits - 1) as nat)
    }
}

/// The number `n / 10^digits` with `digits` digits after the point.
pub open spec fn fixed(n: nat, digits: nat) -> Seq<char> {
    decimal(n / ten_pow(digits)) + "."@ + zero_padded(n, digits)
}

/// The number `n / 10^digits` with one to three digits after the point.
pub fn fixed_str(n: u128, digits: u32) -> (r: String)
    requires
        1 <= digits <= 3,
    ensures
        r@ == fixed(n as nat, digits as nat),
{
    proof {
        reveal_with_fuel(ten_pow, 4);
    }
    let scale: u128 = if digits == 1 {
        10
    } else if digits == 2 {
        100
    } else {
        1000
    };
    assert(scale == ten_pow(digits as nat));
    let mut s = decimal_str(n / scale);
    text::append_str(&mut s, ".");
    push_zero_padded(&mut s, n, digits);
    s
}

// ---------------------------------------------------------------------------
// Laws

/// Text is a number only if it is made of digits, behind a plus sign or not;
/// reading one more digit multiplies by ten and adds it.
pub proof fn lemma_digit_by_digit(s: Seq<char>, c: char)
    requires
        s.len() > 0,
        s[0] != '+',
    ensures
        digit_value(c) is None ==> parse_number(s.push(c)) is None,
        digit_value(c) matches Some(d) ==> (match parse_number(s) {
            Some(v) => parse_number(s.push(c)) == Some((v * 10 + d) as nat),
            None => parse_number(s.push(c)) is None,
        }),
        parse_number(seq!['+'] + s) == parse_number(s),
{
    assert(s.push(c).drop_last() =~= s);
    assert(s.push(c)[0] == s[0]);
    assert((seq!['+'] + s).drop_first() =~= s);
}

/// Text without digits is no number, and neither is a sign alone.
pub proof fn lemma_no_number()
    ensures
        parse_number(Seq::empty()) is None,
        parse_number(seq!['+']) is None,
        parse_number(seq!['-']) is None,
{
    assert(seq!['+'].drop_first() =~= Seq::<char>::empty());
    assert(seq!['-'].drop_last() =~= Seq::<char>::empty());
}

/// A number of one digit is that digit; each further digit is the rest of a
/// division by ten.
pub proof fn lemma_decimal_digit_by_digit(n: nat, d: nat)
    requires
        d < 10,
    ensures
        decimal(d).len() == 1,
        digit_value(decimal(d)[0]) == Some(d as int),
        n > 0 ==> decimal(n * 10 + d) == decimal(n) + decimal(d),
{
    if n > 0 {
        let m = n * 10 + d;
        assert(m / 10 == n && m % 10 == d);
        assert(decimal(m) =~= decimal(n) + decimal(d));
    }
}

/// A negative number is written as a minus sign and the number without it.
pub proof fn lemma_signed_decimal(n: nat)
    ensures
        signed_decimal(n as int) == decimal(n),
        n > 0 ==> signed_decimal(-(n as int)) == seq!['-'] + decimal(n),
{
    reveal_strlit("-");
    assert("-"@ =~= seq!['-']);
}

/// A padded text is as long as asked for, or as long as it was; it begins with
/// the text, or ends with it, and the rest is spaces.
pub proof fn lemma_padding(s: Seq<char>, width: nat)
    ensures
        pad_right(s, width).len() == (if s.len() < width {
            width
        } else {
            s.len()
        }),
        pad_right(s, width).take(s.len() as int) == s,
        forall|i: int|
            s.len() <= i < pad_right(s, width).len() ==> #[trigger] pad_right(s, width)[i] == ' ',
        pad_left(s, width).len() == pad_right(s, width).len(),
        pad_left(s, width).skip(pad_left(s, width).len() - s.len()) == s,
        forall|i: int|
            0 <= i < pad_left(s, width).len() - s.len() ==> #[trigger] pad_left(s, width)[i] == ' ',
{
    assert(pad_right(s, width).take(s.len() as int) =~= s);
    assert(pad_left(s, width).skip(pad_left(s, width).len() - s.len()) =~= s);
}

proof fn lemma_hex_digit(a: int, b: int)
    requires
        0 <= a < 16,
        0 <= b < 16,
        hex_digit(a) == hex_digit(b),
    ensures
        a == b,
{
}

/// Different bytes have different hexadecimal notations.
pub proof fn lemma_hex_injective(a: Seq<u8>, b: Seq<u8>)
    requires
        hex(a) == hex(b),
    ensures
        a == b,
    decreases a.len(),
{
    lemma_hex_len(a);
    lemma_hex_len(b);
    if a.len() > 0 {
        let x = hex(a);
        let y = hex(b);
        let n = x.len() as int;
        assert(x[n - 1] == y[n - 1] && x[n - 2] == y[n - 2]);
        assert(x.take(n - 2) =~= hex(a.drop_last()));
        assert(y.take(n - 2) =~= hex(b.drop_last()));
        lemma_hex_injective(a.drop_last(), b.drop_last());
        lemma_hex_digit((a.last() / 16) as int, (b.last() / 16) as int);
        lemma_hex_digit((a.last() % 16) as int, (b.last() % 16) as int);
        assert(a.last() == b.last());
        assert(a =~= a.drop_last().push(a.last()));
        assert(b =~= b.drop_last().push(b.last()));
    } else {
        assert(a =~= b);
    }
}

/// Bytes one behind the other are written one behind the other, each with two
/// digits, the greater first.
pub proof fn lemma_hex_parts(a: Seq<u8>, b: u8)
    ensures
        hex(a.push(b)) == hex(a) + hex(seq![b]),
        hex(seq![b]).len() == 2,
        b < 10 ==> hex(seq![b]) == seq!['0', digit(b as int)],
        b == 255 ==> hex(seq![b]) == seq!['f', 'f'],
{
    assert(a.push(b).drop_last() =~= a);
    assert(seq![b].drop_last() =~= Seq::<u8>::empty());
    assert(hex(Seq::<u8>::empty()) =~= Seq::<char>::empty());
    assert(hex(a.push(b)) =~= hex(a) + hex(seq![b]));
    if b < 10 {
        assert(hex(seq![b]) =~= seq!['0', digit(b as int)]);
    }
    if b == 255 {
        assert(hex(seq![b]) =~= seq!['f', 'f']);
    }
}

/// A number with leading zeros has as many digits as asked for, and reads as
/// the number where that has no more.
pub proof fn lemma_zero_padded(n: nat, digits: nat)
    ensures
        zero_padded(n, digits).len() == digits,
        n < ten_pow(digits) ==> digits_value(zero_padded(n, digits)) == Some(n),
    decreases digits,
{
    if digits > 0 {
        lemma_zero_padded(n / 10, (digits - 1) as nat);
        let s = zero_padded(n, digits);
        assert(s.drop_last() =~= zero_padded(n / 10, (digits - 1) as nat));
        assert(digit_value(digit((n % 10) as int)) == Some((n % 10) as int));
    }
}

/// A number in units of a power of ten is written as its whole part, a point,
/// and the rest with as many digits as the power has zeros.
pub proof fn lemma_fixed(whole: nat, part: nat, digits: nat)
    requires
        part < ten_pow(digits),
    ensures
        fixed(whole * ten_pow(digits) + part, digits) == decimal(whole) + "."@ + zero_padded(
            part,
            digits,
        ),
{
    let p = ten_pow(digits);
    let n = whole * p + part;
    assert(n / p == whole) by (nonlinear_arith)
        requires
            p > 0,
            part < p,
            n == whole * p + part,
    ;
    lemma_zero_padded_rest(whole, part, digits);
}

proof fn lemma_zero_padded_rest(whole: nat, part: nat, digits: nat)
    requires
        part < ten_pow(digits),
    ensures
        zero_padded(whole * ten_pow(digits) + part, digits) == zero_padded(part, digits),
    decreases digits,
{
    if digits > 0 {
        let p = ten_pow((digits - 1) as nat);
        let n = whole * ten_pow(digits) + part;
        assert(whole * (10 * p) == 10 * (whole * p)) by (nonlinear_arith);
        assert(n / 10 == whole * p + part / 10);
        assert(n % 10 == part % 10);
        lemma_zero_padded_rest(whole, part / 10, (digits - 1) as nat);
    }
}

/// The digits are the characters from `0` to `9`, in their order, and behind
/// them in hexadecimal notation those from `a` to `f`.
pub proof fn lemma_digit_characters(d: int)
    requires
        0 <= d < 16,
    ensures
        d < 10 ==> decimal(d as nat) == seq![hex_digit(d)],
        d < 10 ==> hex_digit(d) as u32 == '0' as u32 + d,
        d >= 10 ==> hex_digit(d) as u32 == 'a' as u32 + d - 10,
        d < 10 ==> digit_value(hex_digit(d)) == Some(d),
        d >= 10 ==> digit_value(hex_digit(d)) is None,
{
}

} // verus!
