use vstd::prelude::*;
use vstd::std_specs::iter::IteratorSpec;

verus! {

/// std's `ParseIntError`, carried without looking inside as the cause of a
/// number that did not parse.
#[verifier::external_type_specification]
#[verifier::external_body]
pub struct ExParseIntError(std::num::ParseIntError);

pub open spec fn is_digit(c: char) -> bool {
    '0' <= c <= '9'
}

pub open spec fn is_letter(c: char) -> bool {
    ('a' <= c <= 'z') || ('A' <= c <= 'Z')
}

pub open spec fn all_digits(s: Seq<char>) -> bool {
    forall|i: int| 0 <= i < s.len() ==> is_digit(#[trigger] s[i])
}

pub open spec fn all_letters(s: Seq<char>) -> bool {
    forall|i: int| 0 <= i < s.len() ==> is_letter(#[trigger] s[i])
}

pub open spec fn digit_value(c: char) -> int {
    c as int - '0' as int
}

/// The value of a run of decimal digits, most significant first.
pub open spec fn digits_value(s: Seq<char>) -> int
    decreases s.len(),
{
    if s.len() == 0 {
        0
    } else {
        10 * digits_value(s.drop_last()) + digit_value(s.last())
    }
}

/// The integer written by `s`: an optional `+` or `-` followed by at least one digit.
pub open spec fn decimal_value(s: Seq<char>) -> Option<int> {
    if s.len() > 1 && s[0] == '-' && all_digits(s.drop_first()) {
        Some(-digits_value(s.drop_first()))
    } else if s.len() > 1 && s[0] == '+' && all_digits(s.drop_first()) {
        Some(digits_value(s.drop_first()))
    } else if s.len() > 0 && all_digits(s) {
        Some(digits_value(s))
    } else {
        None
    }
}

/// The `i32` written by `s`, if it is written in decimal and in range.
pub open spec fn parse_i32_spec(s: Seq<char>) -> Option<i32> {
    match decimal_value(s) {
        Some(v) => if i32::MIN <= v <= i32::MAX {
            Some(v as i32)
        } else {
            None
        },
        None => None,
    }
}

pub open spec fn digit_char(d: int) -> char {
    ((d + '0' as int) as u32) as char
}

/// The decimal digits of a natural number, without leading zeros.
pub open spec fn digits_of(n: nat) -> Seq<char>
    decreases n,
{
    if n < 10 {
        seq![digit_char(n as int)]
    } else {
        digits_of(n / 10).push(digit_char(n as int % 10))
    }
}

/// The decimal rendering of an integer, with a leading `-` when negative.
pub open spec fn decimal_of(v: int) -> Seq<char> {
    if v < 0 {
        seq!['-'] + digits_of((-v) as nat)
    } else {
        digits_of(v as nat)
    }
}

/// Relies on `<i32 as FromStr>::from_str` (through `str::parse`): it accepts an
/// optional `+` or `-` sign followed by decimal digits, and fails on anything
/// else, including an empty string, whitespace and a value outside `i32`.
#[verifier::external_body]
pub(crate) fn parse_i32(s: &str) -> (r: Result<i32, std::num::ParseIntError>)
    ensures
        r is Ok <==> parse_i32_spec(s@) is Some,
        r matches Ok(v) ==> parse_i32_spec(s@) == Some(v),
{
    s.parse::<i32>()
}

/// Relies on `<i32 as Display>` (through `ToString::to_string`): the decimal
/// digits of the value, preceded by `-` when it is negative.
#[verifier::external_body]
pub(crate) fn render_i32(v: i32) -> (r: String)
    ensures
        r@ == decimal_of(v as int),
{
    v.to_string()
}

/// The characters of `s`, one by one.
pub fn char_vec(s: &str) -> (r: Vec<char>)
    ensures
        r@ == s@,
{
    let mut it = s.chars();
    let mut r: Vec<char> = Vec::new();
    proof {
        assert(s@.take(0) =~= Seq::<char>::empty());
        assert(s@.skip(0) =~= s@);
    }
    loop
        invariant
            r@.len() <= s@.len(),
            r@ == s@.take(r@.len() as int),
            it.remaining() == s@.skip(r@.len() as int),
            it.decrease() is Some,
        ensures
            r@ == s@,
        decreases it.decrease()->Some_0,
    {
        match it.next() {
            Some(c) => {
                proof {
                    let k = r@.len() as int;
                    assert(s@.skip(k).drop_first() =~= s@.skip(k + 1));
                    assert(s@.take(k + 1) =~= s@.take(k).push(c));
                }
                r.push(c);
            },
            None => {
                proof {
                    assert(s@.take(r@.len() as int) =~= s@);
                }
                break;
            },
        }
    }
    r
}

} // verus!
