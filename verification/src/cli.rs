//! Reading numeric command-line flags such as `--width 16`.

use vstd::prelude::*;

verus! {

/// An ASCII decimal digit (code points 48 to 57).
pub open spec fn is_digit(c: char) -> bool {
    48 <= c as int && c as int <= 57
}

/// The value of a string of decimal digits.
pub open spec fn digits_value(s: Seq<char>) -> int
    decreases s.len(),
{
    if s.len() == 0 {
        0
    } else {
        digits_value(s.drop_last()) * 10 + (s.last() as int - 48)
    }
}

/// A numeral without its optional leading `+` (code point 43).
pub open spec fn numeral_digits(s: Seq<char>) -> Seq<char> {
    if s.len() > 0 && s[0] as int == 43 {
        s.drop_first()
    } else {
        s
    }
}

/// A string made of ASCII digits only.
pub open spec fn all_digits(s: Seq<char>) -> bool {
    forall|i: int| 0 <= i < s.len() ==> is_digit(#[trigger] s[i])
}

/// The value of an unsigned decimal numeral: an optional `+` and one or more
/// ASCII digits, the value at most `max`; `None` for any other string.
pub open spec fn decimal_value(s: Seq<char>, max: int) -> Option<int> {
    let digits = numeral_digits(s);
    if digits.len() > 0 && all_digits(digits) && digits_value(digits) <= max {
        Some(digits_value(digits))
    } else {
        None
    }
}

proof fn lemma_digits_nonneg(s: Seq<char>)
    requires
        all_digits(s),
    ensures
        digits_value(s) >= 0,
    decreases s.len(),
{
    if s.len() > 0 {
        assert(is_digit(s[s.len() - 1]));
        assert forall|i: int| 0 <= i < s.drop_last().len() implies is_digit(
            #[trigger] s.drop_last()[i],
        ) by {
            assert(s.drop_last()[i] == s[i]);
        }
        assert(all_digits(s.drop_last()));
        lemma_digits_nonneg(s.drop_last());
    }
}

proof fn lemma_decimal_value_range(s: Seq<char>, max: int)
    ensures
        decimal_value(s, max) matches Some(v) ==> 0 <= v <= max,
{
    if decimal_value(s, max) is Some {
        lemma_digits_nonneg(numeral_digits(s));
    }
}

/// Calls `<str as PartialEq>::eq`: true exactly when the two strings hold the
/// same characters.
#[verifier::external_body]
fn str_eq(a: &str, b: &str) -> (same: bool)
    ensures
        same == (a@ == b@),
{
    a == b
}

/// Calls `str::parse::<u32>` (`<u32 as FromStr>::from_str`), which std
/// documents as accepting an optional `+` followed by one or more ASCII digits
/// and failing on anything else or on a value above `u32::MAX`.
#[verifier::external_body]
fn parse_u32(s: &str) -> (r: Option<u32>)
    ensures
        match decimal_value(s@, u32::MAX as int) {
            Some(v) => r == Some(v as u32),
            None => r is None,
        },
{
    s.parse::<u32>().ok()
}

/// Calls `str::parse::<u8>` (`<u8 as FromStr>::from_str`), which std documents
/// as accepting an optional `+` followed by one or more ASCII digits and
/// failing on anything else or on a value above `u8::MAX`.
#[verifier::external_body]
fn parse_u8(s: &str) -> (r: Option<u8>)
    ensures
        match decimal_value(s@, u8::MAX as int) {
            Some(v) => r == Some(v as u8),
            None => r is None,
        },
{
    s.parse::<u8>().ok()
}

/// The arguments as character sequences.
pub open spec fn args_view(args: Seq<String>) -> Seq<Seq<char>> {
    args.map_values(|a: String| a@)
}

/// The first position `i` with an argument after it whose argument is `flag`.
pub open spec fn first_flag(args: Seq<Seq<char>>, flag: Seq<char>) -> Option<int>
    decreases args.len(),
{
    if args.len() < 2 {
        None
    } else {
        match first_flag(args.drop_last(), flag) {
            Some(i) => Some(i),
            None => if args[args.len() - 2] == flag {
                Some(args.len() - 2)
            } else {
                None
            },
        }
    }
}

/// The value a flag gives: the argument after its first occurrence read as a
/// numeral no greater than `max`, else `default`.
pub open spec fn flag_value(args: Seq<Seq<char>>, flag: Seq<char>, max: int, default: int) -> int {
    match first_flag(args, flag) {
        Some(i) => match decimal_value(args[i + 1], max) {
            Some(v) => v,
            None => default,
        },
        None => default,
    }
}

proof fn lemma_first_flag_step(args: Seq<Seq<char>>, flag: Seq<char>, i: int)
    requires
        0 <= i,
        i + 1 < args.len(),
        first_flag(args.take(i + 1), flag) is None,
    ensures
        args[i] == flag ==> first_flag(args.take(i + 2), flag) == Some(i),
        args[i] != flag ==> first_flag(args.take(i + 2), flag) is None,
{
    assert(args.take(i + 2).drop_last() =~= args.take(i + 1));
}

proof fn lemma_first_flag_prefix(args: Seq<Seq<char>>, flag: Seq<char>, n: int)
    requires
        0 <= n <= args.len(),
        first_flag(args.take(n), flag) is Some,
    ensures
        first_flag(args, flag) == first_flag(args.take(n), flag),
    decreases args.len() - n,
{
    if n < args.len() {
        assert(args.take(n + 1).drop_last() =~= args.take(n));
        lemma_first_flag_prefix(args, flag, n + 1);
    } else {
        assert(args.take(n) =~= args);
    }
}

/// The position of the argument that follows the first `flag` argument, if any.
fn flag_argument(args: &[String], flag: &str) -> (pos: Option<usize>)
    ensures
        pos is Some <==> first_flag(args_view(args@), flag@) is Some,
        pos matches Some(j) ==> 1 <= j < args@.len() && first_flag(args_view(args@), flag@) == Some(
            j - 1,
        ),
{
    let ghost view = args_view(args@);
    let n = args.len();
    if n < 2 {
        return None;
    }
    let mut i: usize = 0;
    assert(view.take(1).len() < 2);
    while i + 1 < n
        invariant
            n == args@.len(),
            n >= 2,
            i + 1 <= n,
            view == args_view(args@),
            first_flag(view.take(i + 1), flag@) is None,
        decreases n - i,
    {
        proof {
            lemma_first_flag_step(view, flag@, i as int);
        }
        if str_eq(args[i].as_str(), flag) {
            proof {
                lemma_first_flag_prefix(view, flag@, i + 2);
            }
            return Some(i + 1);
        }
        i = i + 1;
    }
    assert(view.take(i + 1) =~= view);
    None
}

/// The `u32` value of a flag: the argument after the first occurrence of
/// `flag`, when it is a decimal numeral that fits, else `default`.
pub fn parse_flag(args: &[String], flag: &str, default: u32) -> (v: u32)
    ensures
        v == flag_value(args_view(args@), flag@, u32::MAX as int, default as int),
{
    match flag_argument(args, flag) {
        Some(j) => {
            let arg = args[j].as_str();
            assert(arg@ == args_view(args@)[j as int]);
            let ghost i = first_flag(args_view(args@), flag@)->Some_0;
            assert(i + 1 == j);
            match parse_u32(arg) {
                Some(v) => {
                    proof {
                        lemma_decimal_value_range(arg@, u32::MAX as int);
                    }
                    v
                },
                None => default,
            }
        },
        None => default,
    }
}

/// The `u8` value of a flag: the argument after the first occurrence of
/// `flag`, when it is a decimal numeral that fits, else `default`.
pub fn parse_flag_u8(args: &[String], flag: &str, default: u8) -> (v: u8)
    ensures
        v == flag_value(args_view(args@), flag@, u8::MAX as int, default as int),
{
    match flag_argument(args, flag) {
        Some(j) => {
            let arg = args[j].as_str();
            assert(arg@ == args_view(args@)[j as int]);
            let ghost i = first_flag(args_view(args@), flag@)->Some_0;
            assert(i + 1 == j);
            match parse_u8(arg) {
                Some(v) => {
                    proof {
                        lemma_decimal_value_range(arg@, u8::MAX as int);
                    }
                    v
                },
                None => default,
            }
        },
        None => default,
    }
}

} // verus!
