//! The numbers that the formats hold: small integers, read to their value,
//! and real numbers, kept as the decimal literal that was read.
use crate::text::{is_digit, lemma_prefix_len_bounds, prefix_len, run_end, to_chars, Class};
use vstd::prelude::*;
use vstd::slice::{slice_subrange, slice_to_vec};

verus! {

/// The value of a decimal digit.
pub open spec fn digit_value(c: char) -> int {
    c as u32 - '0' as u32
}

/// The number that a sequence of decimal digits denotes.
pub open spec fn decimal_value(s: Seq<char>) -> nat
    decreases s.len(),
{
    if s.len() == 0 {
        0
    } else {
        (10 * decimal_value(s.drop_last()) + digit_value(s.last())) as nat
    }
}

/// Whether `s` holds decimal digits only.
pub open spec fn all_digits(s: Seq<char>) -> bool {
    forall|i: int| 0 <= i < s.len() ==> is_digit(#[trigger] s[i])
}

/// A plus or a minus sign.
pub open spec fn is_sign(c: char) -> bool {
    c == '+' || c == '-'
}

/// `s` without its sign, if it begins with one.
pub open spec fn unsigned_part(s: Seq<char>) -> Seq<char> {
    if s.len() > 0 && is_sign(s[0]) {
        s.skip(1)
    } else {
        s
    }
}

/// The integer that a decimal literal denotes: an optional sign, then one
/// digit or more, and nothing else.
pub open spec fn integer_literal(s: Seq<char>) -> Option<int> {
    let digits = unsigned_part(s);
    if digits.len() > 0 && all_digits(digits) {
        Some(
            if s[0] == '-' {
                -(decimal_value(digits) as int)
            } else {
                decimal_value(digits) as int
            },
        )
    } else {
        None
    }
}

/// The digit that denotes `d`.
pub open spec fn digit_of(d: int) -> char {
    if d == 0 {
        '0'
    } else if d == 1 {
        '1'
    } else if d == 2 {
        '2'
    } else if d == 3 {
        '3'
    } else if d == 4 {
        '4'
    } else if d == 5 {
        '5'
    } else if d == 6 {
        '6'
    } else if d == 7 {
        '7'
    } else if d == 8 {
        '8'
    } else {
        '9'
    }
}

/// The digits that denote `n`, without leading zeros.
pub open spec fn decimal(n: nat) -> Seq<char>
    decreases n,
{
    if n < 10 {
        seq![digit_of(n as int)]
    } else {
        decimal(n / 10).push(digit_of((n % 10) as int))
    }
}

/// The decimal literal of an integer: a minus sign before a negative one,
/// then the digits.
pub open spec fn integer_text(v: int) -> Seq<char> {
    if v < 0 {
        seq!['-'] + decimal((-v) as nat)
    } else {
        decimal(v as nat)
    }
}

/// Whether `c` is the lower-case letter `lower` in either case.
pub open spec fn folds_to(c: char, lower: char) -> bool {
    c == lower || ('A' <= c <= 'Z' && c as u32 + 32 == lower as u32)
}

/// Whether `s` is the lower-case word `word`, whatever the case of its
/// letters.
pub open spec fn same_word(s: Seq<char>, word: Seq<char>) -> bool {
    s.len() == word.len() && forall|i: int| 0 <= i < s.len() ==> folds_to(s[i], #[trigger] word[i])
}

/// The words for the values that are no numbers: infinity and not-a-number.
pub open spec fn is_special(s: Seq<char>) -> bool {
    same_word(s, "inf"@) || same_word(s, "infinity"@) || same_word(s, "nan"@)
}

/// An exponent: the letter `e` in either case, an optional sign, then one
/// digit or more.
pub open spec fn is_exponent(s: Seq<char>) -> bool {
    &&& s.len() >= 2
    &&& s[0] == 'e' || s[0] == 'E'
    &&& unsigned_part(s.skip(1)).len() > 0
    &&& all_digits(unsigned_part(s.skip(1)))
}

/// An unsigned decimal number: digits with at most one point among them, at
/// least one digit before or after the point, and then an optional exponent.
pub open spec fn is_number(s: Seq<char>) -> bool {
    let whole = prefix_len(s, Class::Digit) as int;
    let dotted = whole < s.len() && s[whole] == '.';
    let fraction = if dotted {
        prefix_len(s.skip(whole + 1), Class::Digit) as int
    } else {
        0
    };
    let mantissa = if dotted {
        whole + 1 + fraction
    } else {
        whole
    };
    &&& whole + fraction >= 1
    &&& mantissa == s.len() || is_exponent(s.skip(mantissa))
}

/// The literals of real numbers: an optional sign, then an unsigned decimal
/// number or one of the words `inf`, `infinity` and `nan`.
pub open spec fn is_real_literal(s: Seq<char>) -> bool {
    is_number(unsigned_part(s)) || is_special(unsigned_part(s))
}

/// The texts that a sequence of values shows.
pub open spec fn shown<T: View>(values: Seq<T>) -> Seq<T::V> {
    Seq::new(values.len(), |i: int| values[i]@)
}

/// A kind of number that is read from one token.
pub trait Scalar: View + Sized {
    /// What `token` denotes, if it is a literal of this kind.
    spec fn parse_spec(token: Seq<char>) -> Option<Self::V>;

    /// Reads one token.
    fn parse(token: &[char]) -> (r: Option<Self>)
        ensures
            match r {
                Some(value) => Self::parse_spec(token@) == Some(value@),
                None => Self::parse_spec(token@) is None,
            },
    ;
}

/// A real number, kept as the decimal literal that denotes it.
#[derive(Debug, PartialEq, Eq)]
pub struct Real {
    text: Vec<char>,
}

impl View for Real {
    type V = Seq<char>;

    closed spec fn view(&self) -> Seq<char> {
        self.text@
    }
}

/// The digits of a longer number denote at least what a prefix of them
/// denotes.
pub proof fn lemma_decimal_value_grows(s: Seq<char>, k: int)
    requires
        0 <= k <= s.len(),
        all_digits(s),
    ensures
        decimal_value(s.take(k)) <= decimal_value(s),
    decreases s.len(),
{
    if k == s.len() {
        assert(s.take(k) =~= s);
    } else {
        let front = s.drop_last();
        assert forall|i: int| 0 <= i < front.len() implies is_digit(#[trigger] front[i]) by {
            assert(front[i] == s[i]);
        }
        lemma_decimal_value_grows(front, k);
        assert(front.take(k) =~= s.take(k));
        assert(is_digit(s[s.len() - 1]));
    }
}

/// The number that `digits` denote, if they are one digit or more and denote
/// no more than `limit`.
fn read_digits(digits: &[char], limit: u32) -> (r: Option<u32>)
    requires
        limit <= 100_000_000,
    ensures
        r == if digits@.len() > 0 && all_digits(digits@) && decimal_value(digits@) <= limit {
            Some(decimal_value(digits@) as u32)
        } else {
            None
        },
{
    if digits.len() == 0 {
        return None;
    }
    let mut value: u32 = 0;
    let mut i: usize = 0;
    assert(digits@.take(0) =~= Seq::<char>::empty());
    while i < digits.len()
        invariant
            i <= digits@.len(),
            limit <= 100_000_000,
            all_digits(digits@.take(i as int)),
            value == decimal_value(digits@.take(i as int)),
            value <= limit,
        decreases digits@.len() - i,
    {
        let c = digits[i];
        if !('0' <= c && c <= '9') {
            return None;
        }
        let ghost front = digits@.take(i + 1);
        assert(front.drop_last() =~= digits@.take(i as int));
        assert(front.last() == c);
        assert forall|j: int| 0 <= j < front.len() implies is_digit(#[trigger] front[j]) by {
            if j < i {
                assert(front[j] == digits@.take(i as int)[j]);
            }
        }
        let next: u32 = value * 10 + (c as u32 - '0' as u32);
        if next > limit {
            proof {
                if all_digits(digits@) {
                    lemma_decimal_value_grows(digits@, i + 1);
                }
            }
            return None;
        }
        value = next;
        i += 1;
    }
    assert(digits@.take(i as int) =~= digits@);
    Some(value)
}

/// The digit that denotes `d`.
fn digit(d: u16) -> (c: char)
    requires
        d < 10,
    ensures
        c == digit_of(d as int),
{
    match d {
        0 => '0',
        1 => '1',
        2 => '2',
        3 => '3',
        4 => '4',
        5 => '5',
        6 => '6',
        7 => '7',
        8 => '8',
        _ => '9',
    }
}

/// The decimal literal of a small integer.
pub fn integer_chars(v: i16) -> (r: Vec<char>)
    requires
        -1000 < v < 1000,
    ensures
        r@ == integer_text(v as int),
{
    let mut out: Vec<char> = Vec::new();
    let size: u16 = if v < 0 {
        out.push('-');
        (0 - v) as u16
    } else {
        v as u16
    };
    let ghost sign = out@;
    if size >= 100 {
        out.push(digit(size / 100));
    }
    if size >= 10 {
        out.push(digit(size / 10 % 10));
    }
    out.push(digit(size % 10));
    proof {
        let n = size as nat;
        if n >= 100 {
            assert(decimal(n / 100) =~= seq![digit_of((n / 100) as int)]);
            assert(decimal(n / 10) =~= seq![
                digit_of((n / 100) as int),
                digit_of((n / 10 % 10) as int),
            ]);
        } else if n >= 10 {
            assert(decimal(n / 10) =~= seq![digit_of((n / 10) as int)]);
        }
        assert(out@ =~= sign + decimal(n));
    }
    out
}

impl Scalar for i8 {
    /// A decimal literal whose value lies between -128 and 127.
    open spec fn parse_spec(token: Seq<char>) -> Option<i8> {
        match integer_literal(token) {
            Some(value) => if -128 <= value <= 127 {
                Some(value as i8)
            } else {
                None
            },
            None => None,
        }
    }

    fn parse(token: &[char]) -> (r: Option<i8>) {
        if token.len() > 0 && token[0] == '-' {
            let digits = slice_subrange(token, 1, token.len());
            assert(digits@ =~= token@.skip(1));
            match read_digits(digits, 128) {
                Some(value) => Some((0 - (value as i16)) as i8),
                None => None,
            }
        } else {
            let digits = if token.len() > 0 && token[0] == '+' {
                assert(token@.subrange(1, token@.len() as int) =~= token@.skip(1));
                slice_subrange(token, 1, token.len())
            } else {
                token
            };
            match read_digits(digits, 127) {
                Some(value) => Some(value as i8),
                None => None,
            }
        }
    }
}

impl Scalar for u8 {
    /// A decimal literal without a minus sign whose value is at most 255.
    open spec fn parse_spec(token: Seq<char>) -> Option<u8> {
        match integer_literal(token) {
            Some(value) => if token[0] != '-' && value <= 255 {
                Some(value as u8)
            } else {
                None
            },
            None => None,
        }
    }

    fn parse(token: &[char]) -> (r: Option<u8>) {
        if token.len() > 0 && token[0] == '-' {
            return None;
        }
        let digits = if token.len() > 0 && token[0] == '+' {
            assert(token@.subrange(1, token@.len() as int) =~= token@.skip(1));
            slice_subrange(token, 1, token.len())
        } else {
            token
        };
        match read_digits(digits, 255) {
            Some(value) => Some(value as u8),
            None => None,
        }
    }
}

/// Whether `s` holds decimal digits only.
fn only_digits(s: &[char]) -> (b: bool)
    ensures
        b == all_digits(s@),
{
    let end = run_end(s, 0, Class::Digit);
    proof {
        assert(s@.skip(0) =~= s@);
        lemma_prefix_len_bounds(s@, Class::Digit);
        if end < s@.len() {
            assert(!is_digit(s@[end as int]));
        }
    }
    end == s.len()
}

/// `s` without its sign, if it begins with one.
fn skip_sign<'a>(s: &'a [char]) -> (r: &'a [char])
    ensures
        r@ == unsigned_part(s@),
{
    if s.len() > 0 && (s[0] == '+' || s[0] == '-') {
        assert(s@.subrange(1, s@.len() as int) =~= s@.skip(1));
        slice_subrange(s, 1, s.len())
    } else {
        s
    }
}

/// Whether `s` is an exponent.
fn exponent(s: &[char]) -> (b: bool)
    ensures
        b == is_exponent(s@),
{
    if s.len() < 2 || !(s[0] == 'e' || s[0] == 'E') {
        return false;
    }
    assert(s@.subrange(1, s@.len() as int) =~= s@.skip(1));
    let digits = skip_sign(slice_subrange(s, 1, s.len()));
    digits.len() > 0 && only_digits(digits)
}

/// Whether `s` is an unsigned decimal number.
fn number(s: &[char]) -> (b: bool)
    ensures
        b == is_number(s@),
{
    let whole = run_end(s, 0, Class::Digit);
    assert(s@.skip(0) =~= s@);
    let mut mantissa: usize = whole;
    if whole < s.len() && s[whole] == '.' {
        mantissa = run_end(s, whole + 1, Class::Digit);
        if mantissa - 1 == 0 {
            return false;
        }
    } else if whole == 0 {
        return false;
    }
    if mantissa == s.len() {
        return true;
    }
    assert(s@.subrange(mantissa as int, s@.len() as int) =~= s@.skip(mantissa as int));
    exponent(slice_subrange(s, mantissa, s.len()))
}

/// Whether `s` is the lower-case word `word`, whatever the case of its
/// letters.
fn spells(s: &[char], word: &str) -> (b: bool)
    ensures
        b == same_word(s@, word@),
{
    let letters = to_chars(word);
    if s.len() != letters.len() {
        return false;
    }
    let mut i: usize = 0;
    while i < s.len()
        invariant
            i <= s@.len(),
            s@.len() == letters@.len(),
            letters@ == word@,
            forall|j: int| 0 <= j < i ==> folds_to(s@[j], #[trigger] letters@[j]),
        decreases s@.len() - i,
    {
        let c = s[i];
        let l = letters[i];
        if !(c == l || ('A' <= c && c <= 'Z' && c as u32 + 32 == l as u32)) {
            return false;
        }
        i += 1;
    }
    true
}

/// Whether `token` is the literal of a real number.
pub fn real_literal(token: &[char]) -> (b: bool)
    ensures
        b == is_real_literal(token@),
{
    let body = skip_sign(token);
    number(body) || spells(body, "inf") || spells(body, "infinity") || spells(body, "nan")
}

impl Real {
    #[verifier::type_invariant]
    spec fn well_formed(&self) -> bool {
        is_real_literal(self.text@)
    }

    /// The number that `token` denotes, if it is the literal of one.
    pub fn from_chars(token: &[char]) -> (r: Option<Real>)
        ensures
            match r {
                Some(value) => is_real_literal(token@) && value@ == token@,
                None => !is_real_literal(token@),
            },
    {
        if real_literal(token) {
            Some(Real { text: slice_to_vec(token) })
        } else {
            None
        }
    }

    /// The number that `token` denotes, if it is the literal of one.
    pub fn new(token: &str) -> (r: Option<Real>)
        ensures
            match r {
                Some(value) => is_real_literal(token@) && value@ == token@,
                None => !is_real_literal(token@),
            },
    {
        let chars = to_chars(token);
        Real::from_chars(chars.as_slice())
    }

    /// The literal, which is always that of a real number.
    pub fn chars(&self) -> (r: &[char])
        ensures
            r@ == self@,
            is_real_literal(self@),
    {
        proof {
            use_type_invariant(self);
        }
        self.text.as_slice()
    }

    /// A second number with the same literal.
    pub fn duplicate(&self) -> (r: Real)
        ensures
            r@ == self@,
    {
        proof {
            use_type_invariant(self);
        }
        Real { text: slice_to_vec(self.text.as_slice()) }
    }
}

impl Scalar for Real {
    /// The literal itself.
    open spec fn parse_spec(token: Seq<char>) -> Option<Seq<char>> {
        if is_real_literal(token) {
            Some(token)
        } else {
            None
        }
    }

    fn parse(token: &[char]) -> (r: Option<Real>) {
        Real::from_chars(token)
    }
}

} // verus!
