//! Text as the templates and the document tree hand it over: trimming,
//! prefixes, replacing and counting lines. And numbers as text: what a
//! rewritten page says of a shift and of the number of a shared definition.

use vstd::prelude::*;
use vstd::string::StringExecFns;
use vstd::string::StrSliceExecFns;
use vstd::string::StringSliceAdditionalSpecFns;

verus! {

/// Whether `c` is white space: a blank, a tab, a line or page break, or
/// one of the spaces and separators beyond ASCII. These are the characters
/// with the Unicode property White_Space.
pub open spec fn white_space(c: char) -> bool {
    let n = c as u32;
    ||| 0x09 <= n <= 0x0d
    ||| n == 0x20
    ||| n == 0x85
    ||| n == 0xa0
    ||| n == 0x1680
    ||| 0x2000 <= n <= 0x200a
    ||| n == 0x2028
    ||| n == 0x2029
    ||| n == 0x202f
    ||| n == 0x205f
    ||| n == 0x3000
}

/// `s` without the white space at its start.
pub open spec fn trim_start_spec(s: Seq<char>) -> Seq<char>
    decreases s.len(),
{
    if s.len() > 0 && white_space(s[0]) {
        trim_start_spec(s.skip(1))
    } else {
        s
    }
}

/// `s` without the white space at its end.
pub open spec fn trim_end_spec(s: Seq<char>) -> Seq<char>
    decreases s.len(),
{
    if s.len() > 0 && white_space(s.last()) {
        trim_end_spec(s.drop_last())
    } else {
        s
    }
}

/// `s` without the white space at both ends.
pub open spec fn trimmed(s: Seq<char>) -> Seq<char> {
    trim_end_spec(trim_start_spec(s))
}

/// `s` with every occurrence of `pattern` replaced by `with`. Occurrences
/// are found from the left and do not overlap. An empty pattern occurs
/// before every character and at the end.
pub open spec fn replaced(s: Seq<char>, pattern: Seq<char>, with: Seq<char>) -> Seq<char>
    decreases s.len(),
{
    if pattern.len() == 0 {
        if s.len() == 0 {
            with
        } else {
            with + seq![s[0]] + replaced(s.skip(1), pattern, with)
        }
    } else if s.len() < pattern.len() {
        s
    } else if s.take(pattern.len() as int) == pattern {
        with + replaced(s.skip(pattern.len() as int), pattern, with)
    } else {
        seq![s[0]] + replaced(s.skip(1), pattern, with)
    }
}

/// `str::trim` of the standard library returns the slice without leading
/// and trailing white space, white space being the characters with the
/// Unicode property White_Space.
pub assume_specification[ str::trim ](s: &str) -> (r: &str)
    ensures
        r@ == trimmed(s@),
;

/// `str::trim_start` of the standard library returns the slice without
/// leading white space.
pub assume_specification[ str::trim_start ](s: &str) -> (r: &str)
    ensures
        r@ == trim_start_spec(s@),
;

/// `str::trim_end` of the standard library returns the slice without
/// trailing white space.
pub assume_specification[ str::trim_end ](s: &str) -> (r: &str)
    ensures
        r@ == trim_end_spec(s@),
;

/// `str::replace` of the standard library, with a string as the pattern:
/// a new string in which every match of the pattern, found from the left
/// and not overlapping, is replaced.
#[verifier::external_body]
pub(crate) fn replace(s: &str, pattern: &str, with: &str) -> (out: String)
    ensures
        out@ == replaced(s@, pattern@, with@),
{
    s.replace(pattern, with)
}

/// Whether two strings hold the same characters.
pub fn str_equal(a: &str, b: &str) -> (same: bool)
    ensures
        same == (a@ == b@),
{
    let left = String::from_str(a);
    let right = String::from_str(b);
    left == right
}

/// Whether `s` starts with `prefix`.
pub fn has_prefix(s: &str, prefix: &str) -> (found: bool)
    ensures
        found == prefix@.is_prefix_of(s@),
{
    let n = prefix.unicode_len();
    if s.unicode_len() < n {
        return false;
    }
    let mut i: usize = 0;
    while i < n
        invariant
            i <= n,
            n == prefix@.len(),
            n <= s@.len(),
            forall|k: int| 0 <= k < i ==> s@[k] == prefix@[k],
        decreases n - i,
    {
        if s.get_char(i) != prefix.get_char(i) {
            assert(s@.subrange(0, n as int)[i as int] != prefix@[i as int]);
            return false;
        }
        i += 1;
    }
    assert(s@.subrange(0, n as int) =~= prefix@);
    true
}

/// The number of line feeds among `bytes`.
pub open spec fn line_feeds(bytes: Seq<u8>) -> nat
    decreases bytes.len(),
{
    if bytes.len() == 0 {
        0
    } else {
        line_feeds(bytes.drop_last()) + if bytes.last() == 0x0a { 1nat } else { 0nat }
    }
}

/// The number of lines of a text: every line feed ends a line, and what
/// follows the last line feed is one more line unless it is empty.
pub open spec fn line_count(bytes: Seq<u8>) -> nat {
    line_feeds(bytes) + if bytes.len() > 0 && bytes.last() != 0x0a { 1nat } else { 0nat }
}

/// A text has no more lines than bytes.
pub proof fn lemma_line_count_bound(bytes: Seq<u8>)
    ensures
        line_feeds(bytes) <= bytes.len(),
        line_count(bytes) <= bytes.len(),
    decreases bytes.len(),
{
    if bytes.len() > 0 {
        lemma_line_count_bound(bytes.drop_last());
    }
}

/// The line feeds of two texts add up.
pub proof fn lemma_line_feeds_add(a: Seq<u8>, b: Seq<u8>)
    ensures
        line_feeds(a + b) == line_feeds(a) + line_feeds(b),
    decreases b.len(),
{
    if b.len() == 0 {
        assert(a + b =~= a);
    } else {
        assert((a + b).drop_last() =~= a + b.drop_last());
        lemma_line_feeds_add(a, b.drop_last());
    }
}

/// Counts the line feeds of a text.
pub fn count_line_feeds(bytes: &[u8]) -> (n: usize)
    ensures
        n == line_feeds(bytes@),
        n <= bytes.len(),
{
    let mut feeds: usize = 0;
    let mut i: usize = 0;
    while i < bytes.len()
        invariant
            i <= bytes.len(),
            feeds == line_feeds(bytes@.take(i as int)),
            feeds <= i,
        decreases bytes.len() - i,
    {
        assert(bytes@.take(i + 1).drop_last() =~= bytes@.take(i as int));
        if bytes[i] == 0x0a {
            feeds += 1;
        }
        i += 1;
    }
    assert(bytes@.take(i as int) =~= bytes@);
    feeds
}

/// Counts the lines of a text.
pub fn count_lines(bytes: &[u8]) -> (n: usize)
    ensures
        n == line_count(bytes@),
{
    let feeds = count_line_feeds(bytes);
    if bytes.len() > 0 && bytes[bytes.len() - 1] != 0x0a {
        proof {
            lemma_line_count_bound(bytes@);
        }
        feeds + 1
    } else {
        feeds
    }
}

/// Appends `bytes` to `out`.
pub fn push_bytes(out: &mut Vec<u8>, bytes: &[u8])
    ensures
        final(out)@ == old(out)@ + bytes@,
{
    let mut i: usize = 0;
    while i < bytes.len()
        invariant
            i <= bytes.len(),
            out@ == old(out)@ + bytes@.take(i as int),
        decreases bytes.len() - i,
    {
        out.push(bytes[i]);
        assert(out@ =~= old(out)@ + bytes@.take(i + 1));
        i += 1;
    }
    assert(bytes@.take(i as int) =~= bytes@);
}


/// The character of the decimal digit `d`.
pub open spec fn digit(d: int) -> char {
    if d == 0 {
        '0'
    } else if d == 1 {
        '1'
    } else if d == 2 {
        '2'
    } else if d == 3 {
        '3'
    } else if d == 4 {
        '4'
    } else if d == 5 {
        '5'
    } else if d == 6 {
        '6'
    } else if d == 7 {
        '7'
    } else if d == 8 {
        '8'
    } else {
        '9'
    }
}

/// The decimal numeral of `n`, without leading zeros.
pub open spec fn decimal(n: nat) -> Seq<char>
    decreases n,
{
    if n < 10 {
        seq![digit(n as int)]
    } else {
        decimal(n / 10).push(digit((n % 10) as int))
    }
}

/// The whole number of thousandths nearest to `millionths` millionths; a
/// value halfway between two goes to the even one.
pub open spec fn rounded_thousandths(millionths: nat) -> nat {
    let whole = millionths / 1000;
    let rest = millionths % 1000;
    if rest > 500 || (rest == 500 && whole % 2 == 1) {
        whole + 1
    } else {
        whole
    }
}

/// A value given in millionths, written with three decimals: an optional
/// minus sign, the whole part, a point and three digits. A negative value
/// keeps its sign even where it rounds to zero.
pub open spec fn fixed3(millionths: int) -> Seq<char> {
    let magnitude = (if millionths < 0 { -millionths } else { millionths }) as nat;
    let t = rounded_thousandths(magnitude);
    let sign = if millionths < 0 { seq!['-'] } else { Seq::<char>::empty() };
    sign + decimal(t / 1000) + seq![
        '.',
        digit(((t / 100) % 10) as int),
        digit(((t / 10) % 10) as int),
        digit((t % 10) as int),
    ]
}

/// Appends the digit `d`.
pub fn push_digit(text: &mut String, d: u8)
    requires
        d < 10,
    ensures
        final(text)@ == old(text)@.push(digit(d as int)),
{
    proof {
        reveal_strlit("0");
        reveal_strlit("1");
        reveal_strlit("2");
        reveal_strlit("3");
        reveal_strlit("4");
        reveal_strlit("5");
        reveal_strlit("6");
        reveal_strlit("7");
        reveal_strlit("8");
        reveal_strlit("9");
    }
    let ghost before = text@;
    let piece = if d == 0 {
        "0"
    } else if d == 1 {
        "1"
    } else if d == 2 {
        "2"
    } else if d == 3 {
        "3"
    } else if d == 4 {
        "4"
    } else if d == 5 {
        "5"
    } else if d == 6 {
        "6"
    } else if d == 7 {
        "7"
    } else if d == 8 {
        "8"
    } else {
        "9"
    };
    assert(piece@ =~= seq![digit(d as int)]);
    text.append(piece);
    assert(text@ =~= before.push(digit(d as int)));
}

/// Appends the decimal numeral of `n`.
pub fn push_decimal(text: &mut String, n: u128)
    ensures
        final(text)@ == old(text)@ + decimal(n as nat),
    decreases n,
{
    let ghost before = text@;
    if n >= 10 {
        push_decimal(text, n / 10);
    }
    push_digit(text, (n % 10) as u8);
    assert(text@ =~= before + decimal(n as nat));
}

/// The decimal numeral of `n`.
pub fn format_decimal(n: usize) -> (text: String)
    ensures
        text@ == decimal(n as nat),
{
    let mut text = String::new();
    push_decimal(&mut text, n as u128);
    assert(text@ =~= decimal(n as nat));
    text
}

/// Writes a value given in millionths with three decimals.
pub fn format_fixed3(millionths: i64) -> (text: String)
    ensures
        text@ == fixed3(millionths as int),
{
    let wide: i128 = millionths as i128;
    let magnitude: u128 = if wide < 0 { (-wide) as u128 } else { wide as u128 };
    let whole: u128 = magnitude / 1000;
    let rest: u128 = magnitude % 1000;
    let t: u128 = if rest > 500 || (rest == 500 && whole % 2 == 1) {
        whole + 1
    } else {
        whole
    };
    assert(t == rounded_thousandths(magnitude as nat));
    let mut text = String::new();
    if millionths < 0 {
        proof {
            reveal_strlit("-");
        }
        text.append("-");
    }
    let ghost sign = text@;
    assert(sign =~= if millionths < 0 { seq!['-'] } else { Seq::<char>::empty() });
    push_decimal(&mut text, t / 1000);
    proof {
        reveal_strlit(".");
    }
    text.append(".");
    push_digit(&mut text, ((t / 100) % 10) as u8);
    push_digit(&mut text, ((t / 10) % 10) as u8);
    push_digit(&mut text, (t % 10) as u8);
    assert(text@ =~= fixed3(millionths as int));
    text
}

} // verus!
