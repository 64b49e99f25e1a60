//! Reading what the user typed: the number of a profile, a confirmation,
//! and the path of a key file, in which a leading `~` stands for the home
//! directory.

use crate::profile::{Config, ProfileError};
use crate::text::{chars_of, string_of, trim_chars, trimmed};
use vstd::prelude::*;

verus! {

/// The characters of an optional string.
pub open spec fn optional_text(text: Option<String>) -> Option<Seq<char>> {
    match text {
        Some(t) => Some(t@),
        None => None,
    }
}

/// `c` is one of the ten ASCII digits.
pub open spec fn is_digit(c: char) -> bool {
    let n: u32 = c as u32;
    48 <= n <= 57
}

/// Every character is an ASCII digit.
pub open spec fn all_digits(s: Seq<char>) -> bool {
    forall|i: int| 0 <= i < s.len() ==> is_digit(#[trigger] s[i])
}

/// The number that a string of digits denotes in base ten.
pub open spec fn digits_value(s: Seq<char>) -> nat
    decreases s.len(),
{
    if s.len() == 0 {
        0
    } else {
        10 * digits_value(s.drop_last()) + ((s.last() as u32 - 48) as nat)
    }
}

/// The number that a text denotes: one or more ASCII digits, with at most
/// one `+` in front of them and nothing else around them.
pub open spec fn number_of(s: Seq<char>) -> Option<nat> {
    let digits = if s.len() > 0 && s[0] == '+' {
        s.skip(1)
    } else {
        s
    };
    if digits.len() > 0 && all_digits(digits) {
        Some(digits_value(digits))
    } else {
        None
    }
}

/// The position that the input selects among `count` profiles. The input,
/// without surrounding whitespace, must be a number from 1 to `count`; the
/// position is one less.
pub open spec fn selection(input: Seq<char>, count: nat) -> Option<nat> {
    match number_of(trimmed(input)) {
        Some(n) => if 1 <= n <= count {
            Some((n - 1) as nat)
        } else {
            None
        },
        None => None,
    }
}

/// `c` is the letter given in lower and upper case.
pub open spec fn is_letter(c: char, lower: char, upper: char) -> bool {
    c == lower || c == upper
}

/// The answer, without surrounding whitespace and in any mix of upper and
/// lower case, is `y` or `yes`.
pub open spec fn affirmative(answer: Seq<char>) -> bool {
    let a = trimmed(answer);
    ||| a.len() == 1 && is_letter(a[0], 'y', 'Y')
    ||| a.len() == 3 && is_letter(a[0], 'y', 'Y') && is_letter(a[1], 'e', 'E') && is_letter(
        a[2],
        's',
        'S',
    )
}

/// The path with a leading `~` replaced by the home directory, where there
/// is one; any other path as it is.
pub open spec fn expanded(path: Seq<char>, home: Option<Seq<char>>) -> Seq<char> {
    match home {
        Some(h) => if path.len() > 0 && path[0] == '~' {
            h + path.skip(1)
        } else {
            path
        },
        None => path,
    }
}

/// The key path that an input line gives: none if the line is blank, else
/// the line without surrounding whitespace, with a leading `~` expanded.
pub open spec fn resolved_key(input: Seq<char>, home: Option<Seq<char>>) -> Option<Seq<char>> {
    if trimmed(input).len() == 0 {
        None
    } else {
        Some(expanded(trimmed(input), home))
    }
}

/// A longer string of digits denotes no smaller a number than its beginning.
pub proof fn lemma_digits_value_grows(s: Seq<char>, k: int)
    requires
        0 <= k <= s.len(),
        all_digits(s),
    ensures
        digits_value(s.take(k)) <= digits_value(s),
    decreases s.len() - k,
{
    if k < s.len() {
        let t = s.drop_last();
        assert forall|i: int| 0 <= i < t.len() implies is_digit(#[trigger] t[i]) by {
            assert(t[i] == s[i]);
        }
        assert(is_digit(s[s.len() - 1]));
        assert(t.take(k) =~= s.take(k));
        lemma_digits_value_grows(t, k);
    } else {
        assert(s.take(k) =~= s);
    }
}

/// The number that the digits from position `from` on denote, if they are
/// digits, at least one, and the number is at most `limit`.
fn bounded_number(text: &Vec<char>, from: usize, limit: usize) -> (number: Option<usize>)
    requires
        from <= text.len(),
    ensures
        number == (if text@.skip(from as int).len() > 0 && all_digits(text@.skip(from as int))
            && digits_value(text@.skip(from as int)) <= limit {
            Some(digits_value(text@.skip(from as int)) as usize)
        } else {
            None
        }),
{
    let ghost digits = text@.skip(from as int);
    let n = text.len();
    if from == n {
        return None;
    }
    let mut value: usize = 0;
    let mut i: usize = from;
    assert(digits.take(0) =~= Seq::<char>::empty());
    while i < n
        invariant
            from <= i <= n,
            from < n,
            n == text.len(),
            digits == text@.skip(from as int),
            all_digits(digits.take(i - from)),
            value == digits_value(digits.take(i - from)),
            value <= limit,
        decreases n - i,
    {
        let c: u32 = text[i] as u32;
        assert(digits[i - from] == text@[i as int]);
        if c < 48 || c > 57 {
            assert(!is_digit(digits[i - from]));
            return None;
        }
        let wide: u128 = (value as u128) * 10 + ((c - 48) as u128);
        proof {
            let next = digits.take(i - from + 1);
            assert(next.drop_last() =~= digits.take(i - from));
            assert(next.last() == digits[i - from]);
            assert(wide == digits_value(next));
            assert forall|j: int| 0 <= j < next.len() implies is_digit(#[trigger] next[j]) by {
                if j < i - from {
                    assert(next[j] == digits.take(i - from)[j]);
                }
            }
            if wide > limit && all_digits(digits) {
                lemma_digits_value_grows(digits, i - from + 1);
            }
        }
        if wide > limit as u128 {
            return None;
        }
        value = wide as usize;
        i += 1;
    }
    assert(digits.take(n - from) =~= digits);
    Some(value)
}

/// The position that the input selects in the store: see [`selection`].
/// Anything that selects no profile is a range error.
pub fn select_profile(config: &Config, input: &str) -> (result: Result<usize, ProfileError>)
    ensures
        match selection(input@, config@.len()) {
            Some(i) => result == Ok::<usize, ProfileError>(i as usize),
            None => result == Err::<usize, ProfileError>(ProfileError::Range),
        },
{
    let chars = chars_of(input);
    let text = trim_chars(&chars);
    let from: usize = if text.len() > 0 && text[0] == '+' {
        1
    } else {
        0
    };
    assert(text@.skip(0) =~= text@);
    match bounded_number(&text, from, config.profiles.len()) {
        Some(n) => if n >= 1 {
            Ok(n - 1)
        } else {
            Err(ProfileError::Range)
        },
        None => Err(ProfileError::Range),
    }
}

fn is_either(c: char, lower: char, upper: char) -> (b: bool)
    ensures
        b == is_letter(c, lower, upper),
{
    c == lower || c == upper
}

/// Whether the answer confirms: see [`affirmative`].
pub fn is_affirmative(answer: &str) -> (yes: bool)
    ensures
        yes == affirmative(answer@),
{
    let chars = chars_of(answer);
    let a = trim_chars(&chars);
    if a.len() == 1 {
        is_either(a[0], 'y', 'Y')
    } else if a.len() == 3 {
        is_either(a[0], 'y', 'Y') && is_either(a[1], 'e', 'E') && is_either(a[2], 's', 'S')
    } else {
        false
    }
}

/// The path with a leading `~` replaced by the home directory: see
/// [`expanded`].
pub fn expand_tilde(path: &str, home: &Option<String>) -> (out: String)
    ensures
        out@ == expanded(path@, optional_text(*home)),
{
    let chars = chars_of(path);
    match home {
        Some(h) => {
            if chars.len() > 0 && chars[0] == '~' {
                let mut out = chars_of(h.as_str());
                let ghost start = out@;
                let mut i: usize = 1;
                while i < chars.len()
                    invariant
                        1 <= i <= chars.len(),
                        out@ == start + chars@.subrange(1, i as int),
                    decreases chars.len() - i,
                {
                    out.push(chars[i]);
                    i += 1;
                }
                assert(chars@.subrange(1, chars@.len() as int) =~= chars@.skip(1));
                string_of(&out)
            } else {
                string_of(&chars)
            }
        },
        None => string_of(&chars),
    }
}

/// The key path that an input line gives, for a given home directory: see
/// [`resolved_key`].
pub fn resolve_key(input: &str, home: &Option<String>) -> (key: Option<String>)
    ensures
        optional_text(key) == resolved_key(input@, optional_text(*home)),
{
    let chars = chars_of(input);
    let kept = trim_chars(&chars);
    if kept.len() == 0 {
        None
    } else {
        let path = string_of(&kept);
        Some(expand_tilde(path.as_str(), home))
    }
}

/// `dirs::home_dir` gives the user's home directory, if the system knows
/// one. Nothing is claimed of the result, which depends on the environment.
/// A home directory whose name is not Unicode text counts as none.
#[verifier::external_body]
fn home_directory() -> (home: Option<String>) {
    match dirs::home_dir() {
        Some(path) => path.into_os_string().into_string().ok(),
        None => None,
    }
}

/// The key path that an input line gives, with a leading `~` replaced by
/// the user's home directory if the system knows one.
pub fn key_path_from_input(input: &str) -> (key: Option<String>)
    ensures
        exists|home: Option<Seq<char>>| optional_text(key) == resolved_key(input@, home),
{
    let home = home_directory();
    let key = resolve_key(input, &home);
    assert(optional_text(key) == resolved_key(input@, optional_text(home)));
    key
}

} // verus!
