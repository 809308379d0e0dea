//! Small verified helpers on characters and strings: decimal parsing and
//! formatting, and stripping a repeated character from either end.

use vstd::prelude::*;
use vstd::string::StrSliceExecFns;
use vstd::string::StringExecFns;
use vstd::arithmetic::div_mod::lemma_fundamental_div_mod;

verus! {

/// Number of characters in a string slice.
///
/// Relies on `str::chars`, whose iterator yields one item per character of
/// the slice. A string occupies at most `isize::MAX` bytes and every
/// character occupies at least one byte, so the count is at most `isize::MAX`.
#[verifier::external_body]
pub fn char_count(s: &str) -> (n: usize)
    ensures
        n as nat == s@.len(),
        n <= isize::MAX as usize,
{
    s.chars().count()
}

/// The numeric value of a decimal digit character; 10 for any other character.
pub open spec fn spec_digit_val(c: char) -> int {
    if c == '0' {
        0
    } else if c == '1' {
        1
    } else if c == '2' {
        2
    } else if c == '3' {
        3
    } else if c == '4' {
        4
    } else if c == '5' {
        5
    } else if c == '6' {
        6
    } else if c == '7' {
        7
    } else if c == '8' {
        8
    } else if c == '9' {
        9
    } else {
        10
    }
}

pub open spec fn is_decimal_digit(c: char) -> bool {
    spec_digit_val(c) < 10
}

/// The value of a sequence of decimal digit characters, most significant first.
pub open spec fn spec_digits_val(s: Seq<char>) -> int
    decreases s.len(),
{
    if s.len() == 0 {
        0
    } else {
        spec_digits_val(s.drop_last()) * 10 + spec_digit_val(s.last())
    }
}

/// A non-empty, all-digit sequence whose value is at most `bound`.
pub open spec fn is_digit_seq_up_to(s: Seq<char>, bound: int) -> bool {
    &&& s.len() > 0
    &&& forall|j: int| 0 <= j < s.len() ==> is_decimal_digit(s[j])
    &&& spec_digits_val(s) <= bound
}

pub proof fn lemma_digits_val_nonneg(s: Seq<char>)
    ensures
        spec_digits_val(s) >= 0,
    decreases s.len(),
{
    if s.len() > 0 {
        lemma_digits_val_nonneg(s.drop_last());
    }
}

/// Extending a digit string on the right never decreases its value.
pub proof fn lemma_digits_val_prefix(s: Seq<char>, k: int)
    requires
        0 <= k <= s.len(),
    ensures
        spec_digits_val(s.take(k)) <= spec_digits_val(s),
    decreases s.len() - k,
{
    if k < s.len() {
        assert(s.take(k + 1).drop_last() =~= s.take(k));
        assert(s.take(k + 1).last() == s[k]);
        lemma_digits_val_nonneg(s.take(k));
        lemma_digits_val_prefix(s, k + 1);
    } else {
        assert(s.take(k) =~= s);
    }
}

/// The numeric value of a digit character, or 10 when it is not a digit.
pub fn digit_val(c: char) -> (d: u64)
    ensures
        d as int == spec_digit_val(c),
{
    if c == '0' {
        0
    } else if c == '1' {
        1
    } else if c == '2' {
        2
    } else if c == '3' {
        3
    } else if c == '4' {
        4
    } else if c == '5' {
        5
    } else if c == '6' {
        6
    } else if c == '7' {
        7
    } else if c == '8' {
        8
    } else if c == '9' {
        9
    } else {
        10
    }
}

/// Parse a string of decimal digits as a `u64`, exactly when the whole string
/// is non-empty, all digits, and the value fits.
pub fn parse_u64(s: &str) -> (r: Option<u64>)
    ensures
        match r {
            Some(v) => is_digit_seq_up_to(s@, u64::MAX as int) && v as int == spec_digits_val(s@),
            None => !is_digit_seq_up_to(s@, u64::MAX as int),
        },
{
    let n = char_count(s);
    if n == 0 {
        return None;
    }
    let mut acc: u64 = 0;
    let mut i: usize = 0;
    while i < n
        invariant
            0 <= i <= n,
            n as nat == s@.len(),
            forall|j: int| 0 <= j < i ==> is_decimal_digit(s@[j]),
            acc as int == spec_digits_val(s@.take(i as int)),
        decreases n - i,
    {
        let c = s.get_char(i);
        let dv = digit_val(c);
        if dv >= 10 {
            return None;
        }
        proof {
            assert(s@.take(i + 1).drop_last() =~= s@.take(i as int));
            assert(s@.take(i + 1).last() == s@[i as int]);
        }
        let threshold = (u64::MAX - dv) / 10;
        if acc > threshold {
            proof {
                lemma_fundamental_div_mod((u64::MAX - dv) as int, 10);
                assert(spec_digits_val(s@.take(i + 1)) > u64::MAX as int);
                lemma_digits_val_prefix(s@, i + 1);
            }
            return None;
        }
        proof {
            lemma_fundamental_div_mod((u64::MAX - dv) as int, 10);
        }
        acc = acc * 10 + dv;
        i += 1;
    }
    proof {
        assert(s@.take(n as int) =~= s@);
    }
    Some(acc)
}

/// Parse a string of decimal digits as a `u32`.
pub fn parse_u32(s: &str) -> (r: Option<u32>)
    ensures
        match r {
            Some(v) => is_digit_seq_up_to(s@, u32::MAX as int) && v as int == spec_digits_val(s@),
            None => !is_digit_seq_up_to(s@, u32::MAX as int),
        },
{
    match parse_u64(s) {
        Some(v) => {
            if v <= u32::MAX as u64 {
                Some(v as u32)
            } else {
                None
            }
        },
        None => None,
    }
}

/// What an optionally `-`-signed digit string denotes as an `i32`, when it
/// does: the sign, if any, is followed by digits whose value fits.
pub open spec fn spec_i32_of(s: Seq<char>) -> Option<int> {
    if s.len() > 0 && s[0] == '-' {
        let mag = s.skip(1);
        if is_digit_seq_up_to(mag, 2147483648) {
            Some(-spec_digits_val(mag))
        } else {
            None
        }
    } else {
        if is_digit_seq_up_to(s, i32::MAX as int) {
            Some(spec_digits_val(s))
        } else {
            None
        }
    }
}

/// Parse an optionally `-`-signed string of decimal digits as an `i32`.
pub fn parse_i32(s: &str) -> (r: Option<i32>)
    ensures
        match r {
            Some(v) => spec_i32_of(s@) == Some(v as int),
            None => spec_i32_of(s@) is None,
        },
{
    let n = char_count(s);
    if n > 0 && s.get_char(0) == '-' {
        let rest = s.substring_char(1, n);
        proof {
            assert(rest@ =~= s@.skip(1));
        }
        match parse_u64(rest) {
            Some(v) => {
                if v < 2147483648u64 {
                    Some(-(v as i32))
                } else if v == 2147483648u64 {
                    Some(i32::MIN)
                } else {
                    proof {
                        lemma_digits_val_nonneg(s@.skip(1));
                    }
                    None
                }
            },
            None => None,
        }
    } else {
        match parse_u64(s) {
            Some(v) => {
                if v <= i32::MAX as u64 {
                    Some(v as i32)
                } else {
                    None
                }
            },
            None => None,
        }
    }
}

/// The decimal digit characters of `n`, most significant first.
pub open spec fn spec_u32_digits(n: int) -> Seq<char>
    decreases n,
{
    if n < 10 {
        seq![spec_digit_char(n)]
    } else {
        spec_u32_digits(n / 10).push(spec_digit_char(n % 10))
    }
}

/// The digit character for a value between 0 and 9; '?' otherwise.
pub open spec fn spec_digit_char(d: int) -> char {
    if d == 0 {
        '0'
    } else if d == 1 {
        '1'
    } else if d == 2 {
        '2'
    } else if d == 3 {
        '3'
    } else if d == 4 {
        '4'
    } else if d == 5 {
        '5'
    } else if d == 6 {
        '6'
    } else if d == 7 {
        '7'
    } else if d == 8 {
        '8'
    } else if d == 9 {
        '9'
    } else {
        '?'
    }
}

/// Append the decimal form of `n` to `buf`.
pub fn push_u32(buf: &mut String, n: u32)
    ensures
        final(buf)@ == old(buf)@ + spec_u32_digits(n as int),
    decreases n,
{
    let ghost prev: Seq<char> = buf@;
    if n >= 10 {
        push_u32(buf, n / 10);
    }
    let d = n % 10;
    let ds: &str = if d == 0 {
        "0"
    } else if d == 1 {
        "1"
    } else if d == 2 {
        "2"
    } else if d == 3 {
        "3"
    } else if d == 4 {
        "4"
    } else if d == 5 {
        "5"
    } else if d == 6 {
        "6"
    } else if d == 7 {
        "7"
    } else if d == 8 {
        "8"
    } else {
        "9"
    };
    proof {
        reveal_strlit("0");
        reveal_strlit("1");
        reveal_strlit("2");
        reveal_strlit("3");
        reveal_strlit("4");
        reveal_strlit("5");
        reveal_strlit("6");
        reveal_strlit("7");
        reveal_strlit("8");
        reveal_strlit("9");
        assert(ds@ =~= seq![spec_digit_char((n % 10) as int)]);
    }
    buf.append(ds);
    proof {
        if n < 10 {
            assert(buf@ =~= prev + spec_u32_digits(n as int));
        } else {
            assert(buf@ =~= prev + spec_u32_digits(n as int));
        }
    }
}

/// `s` without its longest prefix made of the character `c`.
pub open spec fn spec_strip_leading(s: Seq<char>, c: char) -> Seq<char>
    decreases s.len(),
{
    if s.len() > 0 && s[0] == c {
        spec_strip_leading(s.skip(1), c)
    } else {
        s
    }
}

/// `s` without its longest suffix made of the character `c`.
pub open spec fn spec_strip_trailing(s: Seq<char>, c: char) -> Seq<char>
    decreases s.len(),
{
    if s.len() > 0 && s.last() == c {
        spec_strip_trailing(s.drop_last(), c)
    } else {
        s
    }
}

/// Remove every leading occurrence of `c` from `s`.
pub fn strip_leading(s: &str, c: char) -> (r: &str)
    ensures
        r@ == spec_strip_leading(s@, c),
{
    let n = char_count(s);
    proof {
        assert(s@.skip(0) =~= s@);
    }
    let mut a: usize = 0;
    while a < n && s.get_char(a) == c
        invariant
            0 <= a <= n,
            n as nat == s@.len(),
            spec_strip_leading(s@, c) == spec_strip_leading(s@.skip(a as int), c),
        decreases n - a,
    {
        proof {
            assert(s@.skip(a as int)[0] == s@[a as int]);
            assert(s@.skip(a as int).skip(1) =~= s@.skip(a + 1));
        }
        a += 1;
    }
    proof {
        if a < n {
            assert(s@.skip(a as int)[0] == s@[a as int]);
        }
        assert(spec_strip_leading(s@, c) == s@.skip(a as int));
        assert(s@.skip(a as int) =~= s@.subrange(a as int, n as int));
    }
    s.substring_char(a, n)
}

/// Remove every trailing occurrence of `c` from `s`.
pub fn strip_trailing(s: &str, c: char) -> (r: &str)
    ensures
        r@ == spec_strip_trailing(s@, c),
{
    let n = char_count(s);
    proof {
        assert(s@.take(n as int) =~= s@);
    }
    let mut b: usize = n;
    while b > 0 && s.get_char(b - 1) == c
        invariant
            0 <= b <= n,
            n as nat == s@.len(),
            spec_strip_trailing(s@, c) == spec_strip_trailing(s@.take(b as int), c),
        decreases b,
    {
        proof {
            let t = s@.take(b as int);
            assert(t.last() == s@[b - 1]);
            assert(t.drop_last() =~= s@.take(b - 1));
        }
        b -= 1;
    }
    proof {
        let t = s@.take(b as int);
        if b > 0 {
            assert(t.last() == s@[b - 1]);
        }
        assert(spec_strip_trailing(s@.take(b as int), c) == s@.take(b as int));
        assert(s@.take(b as int) =~= s@.subrange(0, b as int));
    }
    s.substring_char(0, b)
}

} // verus!
