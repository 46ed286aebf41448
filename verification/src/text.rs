use vstd::prelude::*;

verus! {

/// `String::push`, which appends one character to the end of a string.
#[verifier::external_body]
pub(crate) fn push_char(s: &mut String, c: char)
    ensures
        final(s)@ == old(s)@.push(c),
{
    s.push(c)
}

/// Returns the characters of `s`, in order.
pub fn chars_of(s: &str) -> (v: Vec<char>)
    ensures
        v@ == s@,
{
    let n = s.unicode_len();
    let mut v: Vec<char> = Vec::new();
    let mut i: usize = 0;
    while i < n
        invariant
            n == s@.len(),
            i <= n,
            v@ == s@.take(i as int),
        decreases n - i,
    {
        v.push(s.get_char(i));
        i += 1;
        assert(v@ =~= s@.take(i as int));
    }
    assert(s@.take(n as int) =~= s@);
    v
}

/// Returns the first `n` characters of `chars`.
pub fn chars_before(chars: &[char], n: usize) -> (v: Vec<char>)
    requires
        n <= chars@.len(),
    ensures
        v@ == chars@.take(n as int),
{
    let mut v: Vec<char> = Vec::new();
    let mut i: usize = 0;
    while i < n
        invariant
            i <= n <= chars@.len(),
            v@ == chars@.take(i as int),
        decreases n - i,
    {
        v.push(chars[i]);
        i += 1;
        assert(v@ =~= chars@.take(i as int));
    }
    v
}

/// Returns true if `a` and `b` hold the same characters.
pub fn chars_equal(a: &[char], b: &[char]) -> (r: bool)
    ensures
        r == (a@ == b@),
{
    if a.len() != b.len() {
        return false;
    }
    let mut i: usize = 0;
    while i < a.len()
        invariant
            i <= a@.len() == b@.len(),
            forall|j: int| 0 <= j < i ==> a@[j] == b@[j],
        decreases a@.len() - i,
    {
        if a[i] != b[i] {
            return false;
        }
        i += 1;
    }
    assert(a@ =~= b@);
    true
}

/// Returns a string holding the characters of `chars`, in order.
pub fn string_from_chars(chars: &[char]) -> (s: String)
    ensures
        s@ == chars@,
{
    let s = string_from_range(chars, 0, chars.len());
    assert(chars@.subrange(0, chars@.len() as int) =~= chars@);
    s
}

/// Returns a string holding the characters of `chars` from position `start` up to (not
/// including) position `end`.
pub fn string_from_range(chars: &[char], start: usize, end: usize) -> (s: String)
    requires
        start <= end <= chars@.len(),
    ensures
        s@ == chars@.subrange(start as int, end as int),
{
    let mut s = String::new();
    let mut i: usize = start;
    while i < end
        invariant
            start <= i <= end <= chars@.len(),
            s@ == chars@.subrange(start as int, i as int),
        decreases end - i,
    {
        push_char(&mut s, chars[i]);
        i += 1;
        assert(s@ =~= chars@.subrange(start as int, i as int));
    }
    s
}

/// The escaped form of a single character: newlines, tabs and carriage returns become the
/// two-character sequences `\n`, `\t` and `\r`; every other character stands for itself.
pub open spec fn escape_char(c: char) -> Seq<char> {
    if c == '\n' {
        seq!['\\', 'n']
    } else if c == '\t' {
        seq!['\\', 't']
    } else if c == '\r' {
        seq!['\\', 'r']
    } else {
        seq![c]
    }
}

/// The escaped form of a character sequence, escaping each character in turn.
pub open spec fn escape(s: Seq<char>) -> Seq<char>
    decreases s.len(),
{
    if s.len() == 0 {
        Seq::empty()
    } else {
        escape(s.drop_last()) + escape_char(s.last())
    }
}

/// Returns `s` with newlines, tabs and carriage returns replaced by their escape sequences.
pub fn escape_string(s: &String) -> (r: String)
    ensures
        r@ == escape(s@),
{
    let text = s.as_str();
    let n = text.unicode_len();
    let mut r = String::new();
    let mut i: usize = 0;
    while i < n
        invariant
            n == text@.len(),
            text@ == s@,
            i <= n,
            r@ == escape(s@.take(i as int)),
        decreases n - i,
    {
        let c = text.get_char(i);
        if c == '\n' {
            push_char(&mut r, '\\');
            push_char(&mut r, 'n');
        } else if c == '\t' {
            push_char(&mut r, '\\');
            push_char(&mut r, 't');
        } else if c == '\r' {
            push_char(&mut r, '\\');
            push_char(&mut r, 'r');
        } else {
            push_char(&mut r, c);
        }
        assert(s@.take(i + 1).drop_last() =~= s@.take(i as int));
        assert(r@ =~= escape(s@.take(i + 1)));
        i += 1;
    }
    assert(s@.take(n as int) =~= s@);
    r
}

/// The character that the escape sequence of a backslash and `c` stands for: a newline, a tab
/// or a carriage return for `n`, `t` and `r`, and `c` itself otherwise.
pub open spec fn unescape_char(c: char) -> char {
    if c == 'n' {
        '\n'
    } else if c == 't' {
        '\t'
    } else if c == 'r' {
        '\r'
    } else {
        c
    }
}

/// `s` with each escape sequence, a backslash and the character after it, replaced by the
/// character it stands for.
pub open spec fn unescape(s: Seq<char>) -> Seq<char>
    decreases s.len(),
{
    if s.len() == 0 {
        Seq::empty()
    } else if s[0] == '\\' && s.len() >= 2 {
        seq![unescape_char(s[1])] + unescape(s.skip(2))
    } else {
        seq![s[0]] + unescape(s.skip(1))
    }
}

/// Returns the character that the escape sequence of a backslash and `c` stands for.
fn escaped_char(c: char) -> (r: char)
    ensures
        r == unescape_char(c),
{
    if c == 'n' {
        '\n'
    } else if c == 't' {
        '\t'
    } else if c == 'r' {
        '\r'
    } else {
        c
    }
}

/// Returns `s` with each escape sequence, a backslash and the character after it, replaced by
/// the character it stands for.
pub fn replace_escapes(s: &str) -> (r: String)
    ensures
        r@ == unescape(s@),
{
    let chars = chars_of(s);
    let n = chars.len();
    let mut r = String::new();
    let mut i: usize = 0;
    assert(s@.skip(0) =~= s@);
    assert(r@ + unescape(s@) =~= unescape(s@));
    while i < n
        invariant
            n == chars@.len(),
            chars@ == s@,
            i <= n,
            unescape(s@) == r@ + unescape(s@.skip(i as int)),
        decreases n - i,
    {
        let ghost rest = s@.skip(i as int);
        if chars[i] == '\\' && i + 1 < n {
            push_char(&mut r, escaped_char(chars[i + 1]));
            assert(rest.skip(2) =~= s@.skip(i + 2));
            assert(r@ + unescape(s@.skip(i + 2)) =~= (r@.drop_last() + seq![unescape_char(rest[1])])
                + unescape(rest.skip(2)));
            i += 2;
        } else {
            push_char(&mut r, chars[i]);
            assert(rest.skip(1) =~= s@.skip(i + 1));
            assert(r@ + unescape(s@.skip(i + 1)) =~= (r@.drop_last() + seq![rest[0]]) + unescape(rest.skip(1)));
            i += 1;
        }
    }
    assert(s@.skip(n as int) =~= Seq::<char>::empty());
    assert(r@ + Seq::<char>::empty() =~= r@);
    r
}

/// Unescaping never lengthens a string.
pub proof fn lemma_unescape_len(s: Seq<char>)
    ensures
        unescape(s).len() <= s.len(),
    decreases s.len(),
{
    if s.len() > 0 {
        if s[0] == '\\' && s.len() >= 2 {
            lemma_unescape_len(s.skip(2));
        } else {
            lemma_unescape_len(s.skip(1));
        }
    }
}

/// `s` without its leading characters equal to `c`.
pub open spec fn trim_start(s: Seq<char>, c: char) -> Seq<char>
    decreases s.len(),
{
    if s.len() > 0 && s[0] == c {
        trim_start(s.drop_first(), c)
    } else {
        s
    }
}

/// `s` without its trailing characters equal to `c`.
pub open spec fn trim_end(s: Seq<char>, c: char) -> Seq<char>
    decreases s.len(),
{
    if s.len() > 0 && s.last() == c {
        trim_end(s.drop_last(), c)
    } else {
        s
    }
}

/// `s` without its leading and trailing characters equal to `c`.
pub open spec fn trim(s: Seq<char>, c: char) -> Seq<char> {
    trim_end(trim_start(s, c), c)
}

/// Returns `s` without its leading and trailing characters equal to `c`.
pub fn trim_char(s: &str, c: char) -> (r: String)
    ensures
        r@ == trim(s@, c),
        r@.len() <= s@.len(),
{
    let chars = chars_of(s);
    let n = chars.len();
    let mut start: usize = 0;
    assert(chars@.subrange(0, n as int) =~= s@);
    while start < n && chars[start] == c
        invariant
            start <= n == chars@.len(),
            chars@ == s@,
            trim_start(s@, c) == trim_start(chars@.subrange(start as int, n as int), c),
        decreases n - start,
    {
        assert(chars@.subrange(start as int, n as int).drop_first() =~= chars@.subrange(
            start + 1,
            n as int,
        ));
        start += 1;
    }
    let ghost front = chars@.subrange(start as int, n as int);
    assert(trim_start(front, c) == front);
    let mut end: usize = n;
    while end > start && chars[end - 1] == c
        invariant
            start <= end <= n == chars@.len(),
            trim_end(front, c) == trim_end(chars@.subrange(start as int, end as int), c),
        decreases end - start,
    {
        assert(chars@.subrange(start as int, end as int).drop_last() =~= chars@.subrange(
            start as int,
            end - 1,
        ));
        end -= 1;
    }
    let r = string_from_range(chars.as_slice(), start, end);
    assert(trim_end(chars@.subrange(start as int, end as int), c) == chars@.subrange(
        start as int,
        end as int,
    ));
    r
}

/// Returns `s` without its first and last characters, or none if it has fewer than two.
pub fn strip_ends(s: &str) -> (r: Option<String>)
    ensures
        r is Some <==> s@.len() >= 2,
        r matches Some(t) ==> t@ == s@.subrange(1, s@.len() - 1),
{
    let chars = chars_of(s);
    if chars.len() < 2 {
        None
    } else {
        Some(string_from_range(chars.as_slice(), 1, chars.len() - 1))
    }
}

/// Returns true if `s` holds the characters of `t`.
pub fn text_is(s: &str, t: &str) -> (r: bool)
    ensures
        r == (s@ == t@),
{
    let a = chars_of(s);
    let b = chars_of(t);
    chars_equal(a.as_slice(), b.as_slice())
}

} // verus!
