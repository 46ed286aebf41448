use vstd::prelude::*;

verus! {

/// The directory, beside each tracked file, that holds the tracking records.
pub const TRACKER_DIR: &'static str = ".padd";

/// The extension of a tracking record, appended to the tracked file's name.
pub const TRACKER_EXTENSION: &'static str = ".trk";

/// Whether a file must be formatted, given when it was last formatted under the current
/// specification and when it was last modified (in milliseconds since the epoch): it must
/// unless both are known and it was not modified after it was formatted.
pub open spec fn spec_needs_formatting(formatted_at: Option<u64>, modified_at: Option<u64>) -> bool {
    match (formatted_at, modified_at) {
        (Some(f), Some(m)) => m > f,
        _ => true,
    }
}

/// Returns true if a file must be formatted, given when it was last formatted under the current
/// specification and when it was last modified, in milliseconds since the epoch (`None` where
/// unknown).
pub fn needs_formatting(formatted_at: Option<u64>, modified_at: Option<u64>) -> (b: bool)
    ensures
        b == spec_needs_formatting(formatted_at, modified_at),
{
    if let Some(formatted) = formatted_at {
        if let Some(modified) = modified_at {
            if modified <= formatted {
                return false;
            }
        }
    }
    true
}

/// The value of a decimal digit.
pub open spec fn digit_value(c: char) -> int {
    c as int - '0' as int
}

/// Whether `c` is a decimal digit.
pub open spec fn is_digit(c: char) -> bool {
    '0' <= c <= '9'
}

/// The number written by the decimal digits `s`.
pub open spec fn decimal_value(s: Seq<char>) -> int
    decreases s.len(),
{
    if s.len() == 0 {
        0
    } else {
        decimal_value(s.drop_last()) * 10 + digit_value(s.last())
    }
}

/// The digits of a number written with an optional leading `+`.
pub open spec fn unsigned_digits(s: Seq<char>) -> Seq<char> {
    if s.len() > 0 && s[0] == '+' {
        s.drop_first()
    } else {
        s
    }
}

/// The `u64` written in decimal by `s`, with an optional leading `+`: `None` if there are no
/// digits, a character is not a digit, or the number exceeds `u64::MAX`.
pub open spec fn spec_parse_u64(s: Seq<char>) -> Option<u64> {
    let d = unsigned_digits(s);
    if d.len() > 0 && (forall|i: int| 0 <= i < d.len() ==> is_digit(#[trigger] d[i])) && decimal_value(d)
        <= u64::MAX {
        Some(decimal_value(d) as u64)
    } else {
        None
    }
}

proof fn lemma_decimal_value_nonneg(s: Seq<char>)
    requires
        forall|i: int| 0 <= i < s.len() ==> is_digit(#[trigger] s[i]),
    ensures
        decimal_value(s) >= 0,
    decreases s.len(),
{
    if s.len() > 0 {
        lemma_decimal_value_nonneg(s.drop_last());
        assert(is_digit(s[s.len() - 1]));
    }
}

/// Once a prefix of digits is too large, every longer prefix is too.
proof fn lemma_decimal_value_grows(s: Seq<char>, i: int)
    requires
        0 <= i <= s.len(),
        forall|j: int| 0 <= j < s.len() ==> is_digit(#[trigger] s[j]),
    ensures
        decimal_value(s.take(i)) <= decimal_value(s),
    decreases s.len() - i,
{
    if i < s.len() {
        lemma_decimal_value_grows(s, i + 1);
        assert(s.take(i + 1).drop_last() =~= s.take(i));
        assert(forall|j: int| 0 <= j < i ==> is_digit(#[trigger] s.take(i)[j]));
        lemma_decimal_value_nonneg(s.take(i));
    } else {
        assert(s.take(i) =~= s);
    }
}

/// Parses the `u64` written in decimal by `s`, with an optional leading `+`; returns `None` if
/// there are no digits, a character is not a digit, or the number exceeds `u64::MAX`.
pub fn parse_u64(s: &[char]) -> (r: Option<u64>)
    ensures
        r == spec_parse_u64(s@),
{
    let mut i: usize = 0;
    if s.len() > 0 && s[0] == '+' {
        i = 1;
    }
    let start = i;
    let ghost d = unsigned_digits(s@);
    assert(d =~= s@.skip(start as int));
    if i >= s.len() {
        return None;
    }
    let mut value: u64 = 0;
    while i < s.len()
        invariant
            start <= i <= s@.len(),
            d == s@.skip(start as int),
            d == unsigned_digits(s@),
            forall|j: int| 0 <= j < i - start ==> is_digit(#[trigger] d[j]),
            value == decimal_value(d.take(i - start)),
        decreases s@.len() - i,
    {
        let c = s[i];
        assert(d[i - start] == c);
        if !('0' <= c && c <= '9') {
            assert(!is_digit(d[i - start]));
            assert(spec_parse_u64(s@) is None);
            return None;
        }
        let digit: u64 = (c as u32 - '0' as u32) as u64;
        assert(digit == digit_value(c));
        assert(d.take(i - start + 1).drop_last() =~= d.take(i - start));
        assert(d.take(i - start + 1).last() == c);
        assert(decimal_value(d.take(i - start + 1)) == value * 10 + digit);
        if value > (u64::MAX - digit) / 10 {
            proof {
                assert forall|j: int| 0 <= j < i - start + 1 implies is_digit(#[trigger] d.take(i - start + 1)[j]) by {}
                assert(decimal_value(d.take(i - start + 1)) > u64::MAX) by (nonlinear_arith)
                    requires
                        decimal_value(d.take(i - start + 1)) == value * 10 + digit,
                        value > (u64::MAX - digit) / 10,
                        digit <= 9,
                ;
                if forall|j: int| 0 <= j < d.len() ==> is_digit(#[trigger] d[j]) {
                    lemma_decimal_value_grows(d, i - start + 1);
                }
                assert(spec_parse_u64(s@) is None);
            }
            return None;
        }
        value = value * 10 + digit;
        i += 1;
    }
    assert(d.take(i - start) =~= d);
    Some(value)
}

/// Splits `contents` into its first line (without its line ending) and the rest.
pub fn first_line(contents: &[char]) -> (r: (Vec<char>, usize))
    ensures
        r.1 <= contents@.len(),
        r.0@ == contents@.take(if r.1 > 0 && contents@[r.1 - 1] == '\n' { r.1 - 1 } else { r.1 as int }),
        forall|j: int| 0 <= j < r.1 - 1 ==> #[trigger] contents@[j] != '\n',
        r.1 < contents@.len() ==> r.1 > 0 && contents@[r.1 - 1] == '\n',
{
    let mut i: usize = 0;
    while i < contents.len()
        invariant
            i <= contents@.len(),
            forall|j: int| 0 <= j < i ==> #[trigger] contents@[j] != '\n',
        decreases contents@.len() - i,
    {
        if contents[i] == '\n' {
            let line = crate::text::chars_before(contents, i);
            return (line, i + 1);
        }
        i += 1;
    }
    let line = crate::text::chars_before(contents, i);
    (line, i)
}

/// Returns when a file was last formatted, in milliseconds since the epoch, according to the
/// `contents` of its tracking record: a first line holding the specification's hash, which must
/// be `spec_sha`, and a second line holding the time in decimal.
pub fn formatted_at(contents: &[char], spec_sha: &[char]) -> (r: Option<u64>)
    ensures
        ({
            let (sha, n) = line_split(contents@);
            let rest = contents@.skip(n);
            let (stamp, _) = line_split(rest);
            r == if sha == spec_sha@ {
                spec_parse_u64(stamp)
            } else {
                None
            }
        }),
{
    let (sha, n) = first_line(contents);
    proof {
        lemma_line_split(contents@, sha@, n as int);
    }
    if !crate::text::chars_equal(sha.as_slice(), spec_sha) {
        return None;
    }
    let rest = crate::lex::longest_match::slice_from(contents, n);
    let (stamp, m) = first_line(rest);
    proof {
        lemma_line_split(rest@, stamp@, m as int);
    }
    parse_u64(stamp.as_slice())
}

/// The first line of `s` (without its line ending), and the length of that line with its
/// ending.
pub open spec fn line_split(s: Seq<char>) -> (Seq<char>, int) {
    if exists|j: int| 0 <= j < s.len() && s[j] == '\n' {
        let j = choose|j: int| 0 <= j < s.len() && s[j] == '\n' && forall|k: int| 0 <= k < j ==> s[k] != '\n';
        (s.take(j), j + 1)
    } else {
        (s, s.len() as int)
    }
}

proof fn lemma_line_split(s: Seq<char>, line: Seq<char>, n: int)
    requires
        0 <= n <= s.len(),
        line == s.take(if n > 0 && s[n - 1] == '\n' { n - 1 } else { n }),
        forall|j: int| 0 <= j < n - 1 ==> #[trigger] s[j] != '\n',
        n < s.len() ==> n > 0 && s[n - 1] == '\n',
    ensures
        line_split(s) == (line, n),
{
    if n > 0 && s[n - 1] == '\n' {
        let j = n - 1;
        assert(0 <= j < s.len() && s[j] == '\n');
        let c = choose|j: int| 0 <= j < s.len() && s[j] == '\n' && forall|k: int| 0 <= k < j ==> s[k] != '\n';
        assert(c == j) by {
            if c < j {
                assert(s[c] != '\n');
            }
            if c > j {
                assert(s[j] != '\n');
            }
        }
    } else {
        assert(n == s.len());
        assert forall|j: int| 0 <= j < s.len() implies s[j] != '\n' by {
            if j == n - 1 {
            } else {
                assert(s[j] != '\n');
            }
        }
        assert(s.take(n) =~= s);
    }
}

} // verus!
