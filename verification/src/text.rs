//! Text forms of scalars: whitespace trimming, base-10 integers, booleans.

use vstd::prelude::*;
use vstd::std_specs::iter::IteratorSpec;

verus! {

/// Whether `c` has the Unicode property White_Space.
pub open spec fn is_space(c: char) -> bool {
    let u = c as u32;
    ||| 0x09 <= u <= 0x0D
    ||| u == 0x20
    ||| u == 0x85
    ||| u == 0xA0
    ||| u == 0x1680
    ||| 0x2000 <= u <= 0x200A
    ||| u == 0x2028
    ||| u == 0x2029
    ||| u == 0x202F
    ||| u == 0x205F
    ||| u == 0x3000
}

/// The number of whitespace characters at the start of `s`.
pub open spec fn leading_spaces(s: Seq<char>) -> nat
    decreases s.len(),
{
    if s.len() > 0 && is_space(s[0]) {
        1 + leading_spaces(s.drop_first())
    } else {
        0
    }
}

/// The number of whitespace characters at the end of `s`.
pub open spec fn trailing_spaces(s: Seq<char>) -> nat
    decreases s.len(),
{
    if s.len() > 0 && is_space(s.last()) {
        1 + trailing_spaces(s.drop_last())
    } else {
        0
    }
}

/// `s` without its leading and trailing whitespace.
pub open spec fn trimmed(s: Seq<char>) -> Seq<char> {
    let rest = s.skip(leading_spaces(s) as int);
    rest.take(rest.len() - trailing_spaces(rest))
}

/// A run of `n` whitespace characters, then the end of `s` or another
/// character, is exactly the leading whitespace of `s`.
pub proof fn lemma_leading_spaces(s: Seq<char>, n: int)
    requires
        0 <= n <= s.len(),
        forall|k: int| 0 <= k < n ==> is_space(#[trigger] s[k]),
        n < s.len() ==> !is_space(s[n]),
    ensures
        leading_spaces(s) == n,
    decreases n,
{
    if n > 0 {
        let t = s.drop_first();
        assert forall|k: int| 0 <= k < n - 1 implies is_space(#[trigger] t[k]) by {
            assert(t[k] == s[k + 1]);
        }
        if n - 1 < t.len() {
            assert(t[n - 1] == s[n]);
        }
        lemma_leading_spaces(t, n - 1);
    }
}

/// The same for the end of `s`.
pub proof fn lemma_trailing_spaces(s: Seq<char>, n: int)
    requires
        0 <= n <= s.len(),
        forall|k: int| s.len() - n <= k < s.len() ==> is_space(#[trigger] s[k]),
        n < s.len() ==> !is_space(s[s.len() - n - 1]),
    ensures
        trailing_spaces(s) == n,
    decreases n,
{
    if n > 0 {
        let t = s.drop_last();
        assert forall|k: int| t.len() - (n - 1) <= k < t.len() implies is_space(
            #[trigger] t[k],
        ) by {
            assert(t[k] == s[k]);
        }
        if n - 1 < t.len() {
            assert(t[t.len() - (n - 1) - 1] == s[s.len() - n - 1]);
        }
        lemma_trailing_spaces(t, n - 1);
    }
}

/// The code point of `c`.
pub fn code_point(c: char) -> (u: u32)
    ensures
        u as int == c as int,
        u == c as u32,
{
    c as u32
}

/// Whether `c` is a whitespace character.
pub fn char_is_space(c: char) -> (r: bool)
    ensures
        r == is_space(c),
{
    let u: u32 = c as u32;
    (0x09 <= u && u <= 0x0D) || u == 0x20 || u == 0x85 || u == 0xA0 || u == 0x1680 || (0x2000 <= u
        && u <= 0x200A) || u == 0x2028 || u == 0x2029 || u == 0x202F || u == 0x205F || u
        == 0x3000
}

/// Removes leading and trailing whitespace.
pub fn trim(text: &Vec<char>) -> (r: Vec<char>)
    ensures
        r@ == trimmed(text@),
{
    let n = text.len();
    let mut start: usize = 0;
    while start < n && char_is_space(text[start])
        invariant
            start <= n,
            n == text@.len(),
            forall|k: int| 0 <= k < start ==> is_space(#[trigger] text@[k]),
        decreases n - start,
    {
        start = start + 1;
    }
    let mut end: usize = n;
    while end > start && char_is_space(text[end - 1])
        invariant
            start <= end <= n,
            n == text@.len(),
            forall|k: int| end <= k < n ==> is_space(#[trigger] text@[k]),
        decreases end,
    {
        end = end - 1;
    }
    let mut r: Vec<char> = Vec::new();
    let mut i: usize = start;
    while i < end
        invariant
            start <= i <= end <= n,
            n == text@.len(),
            r@ == text@.subrange(start as int, i as int),
        decreases end - i,
    {
        r.push(text[i]);
        proof {
            assert(r@ =~= text@.subrange(start as int, i + 1));
        }
        i = i + 1;
    }
    proof {
        lemma_leading_spaces(text@, start as int);
        let rest = text@.skip(start as int);
        assert forall|k: int| rest.len() - (n - end) <= k < rest.len() implies is_space(
            #[trigger] rest[k],
        ) by {
            assert(rest[k] == text@[k + start]);
        }
        if n - end < rest.len() {
            assert(rest[rest.len() - (n - end) - 1] == text@[end - 1]);
        }
        lemma_trailing_spaces(rest, n - end);
        assert(r@ =~= rest.take(rest.len() - (n - end)));
    }
    r
}

/// Why a text is not an integer of the type asked for.
#[derive(Clone, Copy, Debug, PartialEq, Eq, Structural)]
pub enum IntErrorKind {
    /// The text is empty.
    Empty,
    /// A character is not a decimal digit, or the text is a lone sign.
    InvalidDigit,
    /// The number is too large for the type.
    PosOverflow,
    /// The number is too small for the type.
    NegOverflow,
}

/// The fixed-width integer types of the data model.
#[derive(Clone, Copy, Debug, PartialEq, Eq, Structural)]
pub enum IntKind {
    I8,
    I16,
    I32,
    I64,
    U8,
    U16,
    U32,
    U64,
}

impl IntKind {
    /// The smallest value of the type.
    pub open spec fn min(self) -> int {
        match self {
            IntKind::I8 => -0x80,
            IntKind::I16 => -0x8000,
            IntKind::I32 => -0x8000_0000,
            IntKind::I64 => -0x8000_0000_0000_0000,
            _ => 0,
        }
    }

    /// The largest value of the type.
    pub open spec fn max(self) -> int {
        match self {
            IntKind::I8 => 0x7f,
            IntKind::I16 => 0x7fff,
            IntKind::I32 => 0x7fff_ffff,
            IntKind::I64 => 0x7fff_ffff_ffff_ffff,
            IntKind::U8 => 0xff,
            IntKind::U16 => 0xffff,
            IntKind::U32 => 0xffff_ffff,
            IntKind::U64 => 0xffff_ffff_ffff_ffff,
        }
    }

    /// Whether the type has negative values.
    pub open spec fn signed(self) -> bool {
        self.min() < 0
    }

    /// The smallest value of the type.
    pub fn min_value(self) -> (r: i128)
        ensures
            r == self.min(),
    {
        match self {
            IntKind::I8 => -0x80,
            IntKind::I16 => -0x8000,
            IntKind::I32 => -0x8000_0000,
            IntKind::I64 => -0x8000_0000_0000_0000,
            _ => 0,
        }
    }

    /// The largest value of the type.
    pub fn max_value(self) -> (r: i128)
        ensures
            r == self.max(),
    {
        match self {
            IntKind::I8 => 0x7f,
            IntKind::I16 => 0x7fff,
            IntKind::I32 => 0x7fff_ffff,
            IntKind::I64 => 0x7fff_ffff_ffff_ffff,
            IntKind::U8 => 0xff,
            IntKind::U16 => 0xffff,
            IntKind::U32 => 0xffff_ffff,
            IntKind::U64 => 0xffff_ffff_ffff_ffff,
        }
    }
}

/// Whether `c` is one of `0` to `9`.
pub open spec fn is_digit(c: char) -> bool {
    48 <= c as int <= 57
}

/// The value of the digit `c`.
pub open spec fn digit_of(c: char) -> int {
    c as int - 48
}

/// The character of the digit `d`.
pub open spec fn digit_char(d: int) -> char {
    (d + 48) as char
}

/// The digits of `n` in base 10, without leading zeros.
pub open spec fn nat_text(n: nat) -> Seq<char>
    decreases n,
{
    if n < 10 {
        seq![digit_char(n as int)]
    } else {
        nat_text(n / 10).push(digit_char((n % 10) as int))
    }
}

/// The canonical base-10 text of `v`: a minus sign for a negative number,
/// then its digits.
pub open spec fn decimal_text(v: int) -> Seq<char> {
    if v < 0 {
        seq!['-'] + nat_text((-v) as nat)
    } else {
        nat_text(v as nat)
    }
}

/// Reads `digits` from left to right onto `acc`. The first character that is
/// no digit, or the first step that leaves the range from `min` to `max`,
/// ends the reading with its error.
pub open spec fn scan_digits(digits: Seq<char>, acc: int, negative: bool, min: int, max: int)
    -> Result<int, IntErrorKind>
    decreases digits.len(),
{
    if digits.len() == 0 {
        Ok(acc)
    } else if !is_digit(digits[0]) {
        Err(IntErrorKind::InvalidDigit)
    } else {
        let next = if negative {
            acc * 10 - digit_of(digits[0])
        } else {
            acc * 10 + digit_of(digits[0])
        };
        if next > max {
            Err(IntErrorKind::PosOverflow)
        } else if next < min {
            Err(IntErrorKind::NegOverflow)
        } else {
            scan_digits(digits.drop_first(), next, negative, min, max)
        }
    }
}

/// The integer that `s` denotes: an optional sign (a minus only where
/// `signed`), then decimal digits and nothing else; the value lies between
/// `min` and `max`.
pub open spec fn parse_int(s: Seq<char>, signed: bool, min: int, max: int) -> Result<
    int,
    IntErrorKind,
> {
    if s.len() == 0 {
        Err(IntErrorKind::Empty)
    } else if s.len() == 1 && (s[0] == '+' || s[0] == '-') {
        Err(IntErrorKind::InvalidDigit)
    } else if s[0] == '+' {
        scan_digits(s.drop_first(), 0, false, min, max)
    } else if s[0] == '-' && signed {
        scan_digits(s.drop_first(), 0, true, min, max)
    } else {
        scan_digits(s, 0, false, min, max)
    }
}

/// Whether `s` is the name of an element of a sequence: a text that denotes
/// a non-negative integer of pointer width.
pub open spec fn is_index_name(s: Seq<char>) -> bool {
    parse_int(s, false, 0, usize::MAX as int) is Ok
}

/// Parses `text` as a base-10 integer between `min` and `max`.
pub fn parse_decimal(text: &Vec<char>, min: i128, max: i128) -> (r: Result<i128, IntErrorKind>)
    requires
        -0x1_0000_0000_0000_0000 <= min <= 0 <= max <= 0x1_0000_0000_0000_0000,
    ensures
        match r {
            Ok(v) => parse_int(text@, min < 0, min as int, max as int) == Ok::<int, IntErrorKind>(
                v as int,
            ),
            Err(e) => parse_int(text@, min < 0, min as int, max as int) == Err::<int, IntErrorKind>(
                e,
            ),
        },
{
    let n = text.len();
    if n == 0 {
        return Err(IntErrorKind::Empty);
    }
    let first = text[0];
    if n == 1 && (first == '+' || first == '-') {
        return Err(IntErrorKind::InvalidDigit);
    }
    let negative = first == '-' && min < 0;
    let start: usize = if first == '+' || negative {
        1
    } else {
        0
    };
    let mut acc: i128 = 0;
    let mut i: usize = start;
    proof {
        if start == 1 {
            assert(text@.skip(1) =~= text@.drop_first());
        } else {
            assert(text@.skip(0) =~= text@);
        }
    }
    while i < n
        invariant
            start <= i <= n,
            n == text@.len(),
            min <= acc <= max,
            -0x1_0000_0000_0000_0000 <= min <= 0 <= max <= 0x1_0000_0000_0000_0000,
            parse_int(text@, min < 0, min as int, max as int) == scan_digits(
                text@.skip(i as int),
                acc as int,
                negative,
                min as int,
                max as int,
            ),
        decreases n - i,
    {
        let c = text[i];
        let u: u32 = code_point(c);
        proof {
            let rest = text@.skip(i as int);
            assert(rest.len() > 0);
            assert(rest[0] == c);
            assert(rest.drop_first() =~= text@.skip(i + 1));
        }
        if !(48 <= u && u <= 57) {
            return Err(IntErrorKind::InvalidDigit);
        }
        let d: i128 = (u - 48) as i128;
        let next: i128 = if negative {
            acc * 10 - d
        } else {
            acc * 10 + d
        };
        if next > max {
            return Err(IntErrorKind::PosOverflow);
        }
        if next < min {
            return Err(IntErrorKind::NegOverflow);
        }
        acc = next;
        i = i + 1;
    }
    proof {
        assert(text@.skip(n as int).len() == 0);
    }
    Ok(acc)
}

/// Taken on trust of `String::push` of the standard library: it appends the
/// character to the end of the string and leaves the characters before it
/// as they were.
pub assume_specification[ String::push ](s: &mut String, c: char)
    ensures
        final(s)@ == old(s)@.push(c),
;

/// Taken on trust of `String::from_utf8` of the standard library: it gives
/// a string exactly where `bytes` are valid UTF-8, and the string is then
/// the text that `bytes` encode.
#[verifier::external_body]
pub(crate) fn string_from_utf8(bytes: Vec<u8>) -> (r: Option<String>)
    ensures
        r is Some <==> vstd::utf8::valid_utf8(bytes@),
        r matches Some(s) ==> s@ == vstd::utf8::decode_utf8(bytes@),
{
    match String::from_utf8(bytes) {
        Ok(s) => Some(s),
        Err(_) => None,
    }
}

/// The characters of `s`.
pub fn chars_of(s: &str) -> (r: Vec<char>)
    ensures
        r@ == s@,
{
    let mut r: Vec<char> = Vec::new();
    let mut it = s.chars();
    loop
        invariant
            r@ + it.remaining() == s@,
        ensures
            r@ == s@,
        decreases s@.len() - r@.len(),
    {
        let ghost before = it.remaining();
        match it.next() {
            Some(c) => {
                r.push(c);
                proof {
                    assert(before.len() > 0);
                    assert(r@ + before.drop_first() =~= r@.drop_last() + before);
                }
            },
            None => {
                proof {
                    assert(before.len() == 0);
                    assert(r@ + before =~= r@);
                }
                break ;
            },
        }
    }
    r
}

/// Appends the digits of `n` to `out`.
fn push_nat(n: u64, out: &mut String)
    ensures
        final(out)@ == old(out)@ + nat_text(n as nat),
    decreases n,
{
    if n >= 10 {
        push_nat(n / 10, out);
    }
    let d: u8 = (n % 10) as u8;
    out.push((d + 48) as char);
    proof {
        if n >= 10 {
            assert(final(out)@ =~= old(out)@ + nat_text(n as nat));
        } else {
            assert(final(out)@ =~= old(out)@ + nat_text(n as nat));
        }
    }
}

/// The canonical text of an unsigned integer.
pub fn format_unsigned(v: u64) -> (r: String)
    ensures
        r@ == decimal_text(v as int),
{
    let mut r = String::new();
    push_nat(v, &mut r);
    proof {
        assert(r@ =~= decimal_text(v as int));
    }
    r
}

/// The canonical text of a signed integer.
pub fn format_signed(v: i64) -> (r: String)
    ensures
        r@ == decimal_text(v as int),
{
    let mut r = String::new();
    let wide: i128 = v as i128;
    if wide < 0 {
        r.push('-');
        push_nat((-wide) as u64, &mut r);
    } else {
        push_nat(wide as u64, &mut r);
    }
    proof {
        assert(r@ =~= decimal_text(v as int));
    }
    r
}

/// The digits of a number are at least one, and all of them digits.
pub proof fn lemma_nat_text_digits(n: nat)
    ensures
        nat_text(n).len() >= 1,
        forall|i: int| 0 <= i < nat_text(n).len() ==> is_digit(#[trigger] nat_text(n)[i]),
    decreases n,
{
    if n >= 10 {
        lemma_nat_text_digits(n / 10);
    }
}

/// Reading one more digit at the end continues from where the reading of
/// the digits before it ended.
pub proof fn lemma_scan_push(s: Seq<char>, c: char, acc: int, negative: bool, min: int, max: int)
    requires
        scan_digits(s, acc, negative, min, max) is Ok,
    ensures
        scan_digits(s.push(c), acc, negative, min, max) == scan_digits(
            seq![c],
            scan_digits(s, acc, negative, min, max)->Ok_0,
            negative,
            min,
            max,
        ),
    decreases s.len(),
{
    if s.len() == 0 {
        assert(s.push(c) =~= seq![c]);
    } else {
        let next = if negative {
            acc * 10 - digit_of(s[0])
        } else {
            acc * 10 + digit_of(s[0])
        };
        assert(s.push(c)[0] == s[0]);
        assert(s.push(c).drop_first() =~= s.drop_first().push(c));
        lemma_scan_push(s.drop_first(), c, next, negative, min, max);
    }
}

/// Reading the digits of `n` gives `n`, or `-n` after a minus sign, where
/// that lies in the range.
pub proof fn lemma_scan_nat_text(n: nat, negative: bool, min: int, max: int)
    requires
        min <= 0 <= max,
        negative ==> min <= -n,
        !negative ==> n <= max,
    ensures
        scan_digits(nat_text(n), 0, negative, min, max) == Ok::<int, IntErrorKind>(
            if negative {
                -n
            } else {
                n as int
            },
        ),
    decreases n,
{
    let d = digit_char((n % 10) as int);
    assert(is_digit(d) && digit_of(d) == n % 10);
    let one = seq![d];
    let before: int = if negative {
        -(n / 10)
    } else {
        (n / 10) as int
    };
    let after: int = if negative {
        -n
    } else {
        n as int
    };
    assert(one[0] == d);
    assert(one.drop_first().len() == 0);
    assert(scan_digits(one.drop_first(), after, negative, min, max) == Ok::<int, IntErrorKind>(
        after,
    ));
    assert(scan_digits(one, before, negative, min, max) == Ok::<int, IntErrorKind>(after));
    if n >= 10 {
        lemma_scan_nat_text(n / 10, negative, min, max);
        lemma_scan_push(nat_text(n / 10), d, 0, negative, min, max);
    }
}

/// Reading back the canonical text of an integer gives that integer.
pub proof fn lemma_parse_decimal_text(v: int, signed: bool, min: int, max: int)
    requires
        min <= 0 <= max,
        min <= v <= max,
        v < 0 ==> signed,
    ensures
        parse_int(decimal_text(v), signed, min, max) == Ok::<int, IntErrorKind>(v),
{
    let s = decimal_text(v);
    if v < 0 {
        let n = (-v) as nat;
        lemma_nat_text_digits(n);
        lemma_scan_nat_text(n, true, min, max);
        assert(s.drop_first() =~= nat_text(n));
    } else {
        lemma_nat_text_digits(v as nat);
        lemma_scan_nat_text(v as nat, false, min, max);
        assert(is_digit(s[0]));
    }
}

/// A text that neither starts nor ends with whitespace is its own trimming.
pub proof fn lemma_trimmed_same(s: Seq<char>)
    requires
        s.len() > 0 ==> !is_space(s[0]) && !is_space(s.last()),
    ensures
        trimmed(s) == s,
{
    assert(s.skip(0) =~= s);
    assert(s.take(s.len() as int) =~= s);
}

/// The canonical text of an integer has no whitespace around it.
pub proof fn lemma_trimmed_decimal_text(v: int)
    ensures
        trimmed(decimal_text(v)) == decimal_text(v),
{
    let s = decimal_text(v);
    if v < 0 {
        lemma_nat_text_digits((-v) as nat);
        assert(s.last() == nat_text((-v) as nat).last());
        assert(is_digit(nat_text((-v) as nat).last()));
    } else {
        lemma_nat_text_digits(v as nat);
        assert(is_digit(s[0]));
        assert(is_digit(s.last()));
    }
    lemma_trimmed_same(s);
}

/// The text of a boolean: `true` or `false`.
pub open spec fn bool_text(b: bool) -> Seq<char> {
    if b {
        seq!['t', 'r', 'u', 'e']
    } else {
        seq!['f', 'a', 'l', 's', 'e']
    }
}

/// The boolean that `s` denotes, if it is exactly `true` or `false`.
pub open spec fn parse_bool(s: Seq<char>) -> Option<bool> {
    if s == bool_text(true) {
        Some(true)
    } else if s == bool_text(false) {
        Some(false)
    } else {
        None
    }
}

/// The text of a boolean.
pub fn format_bool(b: bool) -> (r: String)
    ensures
        r@ == bool_text(b),
{
    let mut r = String::new();
    if b {
        r.push('t');
        r.push('r');
        r.push('u');
        r.push('e');
    } else {
        r.push('f');
        r.push('a');
        r.push('l');
        r.push('s');
        r.push('e');
    }
    proof {
        assert(r@ =~= bool_text(b));
    }
    r
}

/// Parses `text` as a boolean.
pub fn parse_bool_text(text: &Vec<char>) -> (r: Option<bool>)
    ensures
        r == parse_bool(text@),
{
    if text.len() == 4 && text[0] == 't' && text[1] == 'r' && text[2] == 'u' && text[3] == 'e' {
        proof {
            assert(text@ =~= bool_text(true));
        }
        Some(true)
    } else if text.len() == 5 && text[0] == 'f' && text[1] == 'a' && text[2] == 'l' && text[3]
        == 's' && text[4] == 'e' {
        proof {
            assert(text@ =~= bool_text(false));
        }
        Some(false)
    } else {
        proof {
            if text@ == bool_text(true) {
                assert(text@[0] == 't' && text@[1] == 'r' && text@[2] == 'u' && text@[3] == 'e');
            }
            if text@ == bool_text(false) {
                assert(text@[0] == 'f' && text@[1] == 'a' && text@[2] == 'l' && text@[3] == 's'
                    && text@[4] == 'e');
            }
        }
        None
    }
}

/// Reading back the text of a boolean gives that boolean, also with
/// whitespace around it.
pub proof fn lemma_parse_bool_text(b: bool)
    ensures
        parse_bool(bool_text(b)) == Some(b),
        trimmed(bool_text(b)) == bool_text(b),
{
    assert(bool_text(true).len() == 4);
    assert(bool_text(false).len() == 5);
    lemma_trimmed_same(bool_text(b));
}

/// What a reading of digits gives lies in the range, if it started there.
pub proof fn lemma_scan_in_range(digits: Seq<char>, acc: int, negative: bool, min: int, max: int)
    requires
        min <= acc <= max,
    ensures
        scan_digits(digits, acc, negative, min, max) matches Ok(v) ==> min <= v <= max,
    decreases digits.len(),
{
    if digits.len() > 0 && is_digit(digits[0]) {
        let next = if negative {
            acc * 10 - digit_of(digits[0])
        } else {
            acc * 10 + digit_of(digits[0])
        };
        if min <= next <= max {
            lemma_scan_in_range(digits.drop_first(), next, negative, min, max);
        }
    }
}

} // verus!
