//! Character-level building blocks: character classes, maximal runs,
//! single-character tokens and hexadecimal numbers.
use vstd::prelude::*;

verus! {

/// What the decoder was looking for where it stopped.
#[derive(Clone, Copy, Debug, PartialEq, Eq, Structural)]
pub enum Expected {
    /// This exact character: a delimiter or the line terminator.
    Char(char),
    /// A hexadecimal digit.
    HexDigit,
    /// A hexadecimal number whose value fits in 64 bits.
    HexInRange,
    /// An ASCII letter or digit of a flag label.
    LabelChar,
    /// An ASCII letter of a segment register name.
    Letter,
    /// A status-flag symbol, one of `DOSZAPC-`.
    FlagChar,
    /// One of the descriptor-table names `GDT` and `IDT`.
    TableName,
}

/// A decode failure.
///
/// `remaining` counts the characters of the input that were still unread
/// where decoding stopped, so in an input of `n` characters the failure lies
/// at position `n - remaining`. Counting from the end keeps the value the
/// same whether a sub-decoder or the decoder around it reports it.
#[derive(Clone, Copy, Debug, PartialEq, Eq, Structural)]
pub struct ParseError {
    pub remaining: usize,
    pub expected: Expected,
}

impl ParseError {
    /// The position of the failure in an input of `input_len` characters.
    pub fn position(&self, input_len: usize) -> (r: usize)
        requires
            self.remaining <= input_len,
        ensures
            r == input_len - self.remaining,
    {
        input_len - self.remaining
    }
}

/// The outcome of a decoder in the model: the value and the unread rest of
/// the input, or the failure.
pub type SpecResult<T> = Result<(T, Seq<char>), ParseError>;

/// The failure reported when `e` was expected at the start of `s`.
pub open spec fn fail<T>(s: Seq<char>, e: Expected) -> SpecResult<T> {
    Err(ParseError { remaining: s.len() as usize, expected: e })
}

/// Carries an executable decoder's outcome over to the model.
pub open spec fn lift<T>(r: Result<(T, &[char]), ParseError>) -> SpecResult<T> {
    match r {
        Ok((v, rest)) => Ok((v, rest@)),
        Err(e) => Err(e),
    }
}

/// Carries an executable decoder's outcome over to the model, through the
/// view of the decoded value.
pub open spec fn lift_view<T: View>(r: Result<(T, &[char]), ParseError>) -> SpecResult<T::V> {
    match r {
        Ok((v, rest)) => Ok((v@, rest@)),
        Err(e) => Err(e),
    }
}

/// The sets of characters that the grammar scans runs of.
#[derive(Clone, Copy, Debug, PartialEq, Eq, Structural)]
pub enum CharClass {
    /// `0-9`, `a-f`, `A-F`.
    HexDigit,
    /// White space, the line terminator included.
    Space,
    /// ASCII letters and digits.
    LabelChar,
    /// ASCII letters.
    Letter,
    /// The status-flag symbols `DOSZAPC-`.
    FlagChar,
    /// Anything but `=`: the text of a field label.
    LabelText,
    /// Anything but the line terminator.
    LineText,
}

pub open spec fn is_hex_digit(c: char) -> bool {
    ('0' <= c && c <= '9') || ('a' <= c && c <= 'f') || ('A' <= c && c <= 'F')
}

pub open spec fn is_ascii_letter(c: char) -> bool {
    ('a' <= c && c <= 'z') || ('A' <= c && c <= 'Z')
}

/// The characters that `char::is_whitespace` accepts (Unicode `White_Space`).
pub open spec fn is_space(c: char) -> bool {
    ||| c == ' '
    ||| c == '\t'
    ||| c == '\n'
    ||| c == '\u{0B}'
    ||| c == '\u{0C}'
    ||| c == '\r'
    ||| c == '\u{85}'
    ||| c == '\u{A0}'
    ||| c == '\u{1680}'
    ||| ('\u{2000}' <= c && c <= '\u{200A}')
    ||| c == '\u{2028}'
    ||| c == '\u{2029}'
    ||| c == '\u{202F}'
    ||| c == '\u{205F}'
    ||| c == '\u{3000}'
}

pub open spec fn is_flag_char(c: char) -> bool {
    c == 'D' || c == 'O' || c == 'S' || c == 'Z' || c == 'A' || c == 'P' || c == 'C' || c == '-'
}

pub open spec fn in_class(c: char, k: CharClass) -> bool {
    match k {
        CharClass::HexDigit => is_hex_digit(c),
        CharClass::Space => is_space(c),
        CharClass::LabelChar => is_ascii_letter(c) || ('0' <= c && c <= '9'),
        CharClass::Letter => is_ascii_letter(c),
        CharClass::FlagChar => is_flag_char(c),
        CharClass::LabelText => c != '=',
        CharClass::LineText => c != '\n',
    }
}

/// Whether `c` belongs to the class `k`.
pub fn char_in_class(c: char, k: CharClass) -> (r: bool)
    ensures
        r == in_class(c, k),
{
    match k {
        CharClass::HexDigit => ('0' <= c && c <= '9') || ('a' <= c && c <= 'f') || ('A' <= c
            && c <= 'F'),
        CharClass::Space => {
            c == ' ' || c == '\t' || c == '\n' || c == '\u{0B}' || c == '\u{0C}' || c == '\r' || c == '\u{85}'
                || c == '\u{A0}' || c == '\u{1680}' || ('\u{2000}' <= c && c <= '\u{200A}') || c
                == '\u{2028}' || c == '\u{2029}' || c == '\u{202F}' || c == '\u{205F}' || c
                == '\u{3000}'
        },
        CharClass::LabelChar => ('a' <= c && c <= 'z') || ('A' <= c && c <= 'Z') || ('0' <= c
            && c <= '9'),
        CharClass::Letter => ('a' <= c && c <= 'z') || ('A' <= c && c <= 'Z'),
        CharClass::FlagChar => c == 'D' || c == 'O' || c == 'S' || c == 'Z' || c == 'A' || c
            == 'P' || c == 'C' || c == '-',
        CharClass::LabelText => c != '=',
        CharClass::LineText => c != '\n',
    }
}

/// The length of the longest prefix of `s` whose characters all belong to `k`.
pub open spec fn run(s: Seq<char>, k: CharClass) -> nat
    decreases s.len(),
{
    if s.len() > 0 && in_class(s[0], k) {
        1 + run(s.drop_first(), k)
    } else {
        0
    }
}

/// A run ends exactly where the class is first left.
pub proof fn lemma_run_is(s: Seq<char>, k: CharClass, n: int)
    requires
        0 <= n <= s.len(),
        forall|j: int| 0 <= j < n ==> in_class(#[trigger] s[j], k),
        n == s.len() || !in_class(s[n], k),
    ensures
        run(s, k) == n,
    decreases n,
{
    if n > 0 {
        let t = s.drop_first();
        assert forall|j: int| 0 <= j < n - 1 implies in_class(#[trigger] t[j], k) by {
            assert(t[j] == s[j + 1]);
        }
        if n < s.len() {
            assert(t[n - 1] == s[n]);
        }
        lemma_run_is(t, k, n - 1);
    }
}

/// Every character of a run belongs to the class, and the one after it does not.
pub proof fn lemma_run_bounds(s: Seq<char>, k: CharClass)
    ensures
        run(s, k) <= s.len(),
        forall|j: int| 0 <= j < run(s, k) ==> in_class(#[trigger] s[j], k),
        run(s, k) < s.len() ==> !in_class(s[run(s, k) as int], k),
    decreases s.len(),
{
    if s.len() > 0 && in_class(s[0], k) {
        let t = s.drop_first();
        lemma_run_bounds(t, k);
        assert forall|j: int| 0 <= j < run(s, k) implies in_class(#[trigger] s[j], k) by {
            if j > 0 {
                assert(s[j] == t[j - 1]);
            }
        }
    }
}

/// The length of the run of class `k` at the start of `input`.
pub fn scan(input: &[char], k: CharClass) -> (n: usize)
    ensures
        n == run(input@, k),
{
    let mut i: usize = 0;
    while i < input.len() && char_in_class(input[i], k)
        invariant
            i <= input@.len(),
            forall|j: int| 0 <= j < i ==> in_class(#[trigger] input@[j], k),
        decreases input.len() - i,
    {
        i = i + 1;
    }
    proof {
        lemma_run_is(input@, k, i as int);
    }
    i
}

/// What is left after the white space at the start of `s`.
pub open spec fn spec_spaces(s: Seq<char>) -> Seq<char> {
    s.skip(run(s, CharClass::Space) as int)
}

/// Skips the white space at the start of `input`.
pub fn spaces(input: &[char]) -> (rest: &[char])
    ensures
        rest@ == spec_spaces(input@),
{
    let n = scan(input, CharClass::Space);
    proof {
        lemma_run_bounds(input@, CharClass::Space);
    }
    let rest = vstd::slice::slice_subrange(input, n, input.len());
    assert(rest@ =~= spec_spaces(input@));
    rest
}

/// The character `c` at the start of `s`.
pub open spec fn spec_token(s: Seq<char>, c: char) -> SpecResult<()> {
    if s.len() > 0 && s[0] == c {
        Ok(((), s.drop_first()))
    } else {
        fail(s, Expected::Char(c))
    }
}

/// Consumes the character `c`.
pub fn token(input: &[char], c: char) -> (r: Result<((), &[char]), ParseError>)
    ensures
        lift(r) == spec_token(input@, c),
{
    if input.len() > 0 && input[0] == c {
        let rest = vstd::slice::slice_subrange(input, 1, input.len());
        assert(rest@ =~= input@.drop_first());
        Ok(((), rest))
    } else {
        Err(ParseError { remaining: input.len(), expected: Expected::Char(c) })
    }
}

/// One or more characters of class `k`; `e` names what was missing.
pub open spec fn spec_many1(s: Seq<char>, k: CharClass, e: Expected) -> SpecResult<Seq<char>> {
    let n = run(s, k) as int;
    if n == 0 {
        fail(s, e)
    } else {
        Ok((s.take(n), s.skip(n)))
    }
}

/// Consumes the longest non-empty run of class `k` and hands it back.
pub fn many1<'a>(input: &'a [char], k: CharClass, e: Expected) -> (r: Result<
    (&'a [char], &'a [char]),
    ParseError,
>)
    ensures
        match r {
            Ok((m, rest)) => spec_many1(input@, k, e) == Ok::<_, ParseError>((m@, rest@)),
            Err(err) => spec_many1(input@, k, e) == Err::<(Seq<char>, Seq<char>), _>(err),
        },
{
    let n = scan(input, k);
    if n == 0 {
        return Err(ParseError { remaining: input.len(), expected: e });
    }
    proof {
        lemma_run_bounds(input@, k);
    }
    let m = vstd::slice::slice_subrange(input, 0, n);
    let rest = vstd::slice::slice_subrange(input, n, input.len());
    assert(m@ =~= input@.take(n as int));
    assert(rest@ =~= input@.skip(n as int));
    Ok((m, rest))
}

/// The value of a hexadecimal digit.
pub open spec fn hex_digit_value(c: char) -> nat {
    if '0' <= c && c <= '9' {
        (c as u32 - '0' as u32) as nat
    } else if 'a' <= c && c <= 'f' {
        (c as u32 - 'a' as u32 + 10) as nat
    } else {
        (c as u32 - 'A' as u32 + 10) as nat
    }
}

/// The value of a string of hexadecimal digits read in base 16, most
/// significant digit first; the empty string reads as zero.
pub open spec fn hex_value(d: Seq<char>) -> nat
    decreases d.len(),
{
    if d.len() == 0 {
        0
    } else {
        hex_value(d.drop_last()) * 16 + hex_digit_value(d.last())
    }
}

/// Extending a digit string by one digit.
pub proof fn lemma_hex_value_step(s: Seq<char>, i: int)
    requires
        0 <= i < s.len(),
    ensures
        hex_value(s.take(i + 1)) == hex_value(s.take(i)) * 16 + hex_digit_value(s[i]),
{
    assert(s.take(i + 1).drop_last() =~= s.take(i));
}

/// A longer prefix of digits never reads as a smaller number.
pub proof fn lemma_hex_value_grows(s: Seq<char>, i: int, j: int)
    requires
        0 <= i <= j <= s.len(),
    ensures
        hex_value(s.take(i)) <= hex_value(s.take(j)),
    decreases j - i,
{
    if i < j {
        lemma_hex_value_step(s, j - 1);
        lemma_hex_value_grows(s, i, j - 1);
    }
}

/// The value of the digit `c`.
fn digit_value(c: char) -> (r: u64)
    requires
        is_hex_digit(c),
    ensures
        r == hex_digit_value(c),
        r < 16,
{
    if '0' <= c && c <= '9' {
        (c as u32 - '0' as u32) as u64
    } else if 'a' <= c && c <= 'f' {
        (c as u32 - 'a' as u32 + 10) as u64
    } else {
        (c as u32 - 'A' as u32 + 10) as u64
    }
}

/// A hexadecimal number: the longest non-empty run of hex digits, read in
/// base 16. A run whose value does not fit in 64 bits is a failure.
pub open spec fn spec_hex(s: Seq<char>) -> SpecResult<u64> {
    let n = run(s, CharClass::HexDigit) as int;
    if n == 0 {
        fail(s, Expected::HexDigit)
    } else if hex_value(s.take(n)) > u64::MAX {
        fail(s, Expected::HexInRange)
    } else {
        Ok((hex_value(s.take(n)) as u64, s.skip(n)))
    }
}

/// Decodes a hexadecimal number at the start of `input`.
pub fn hex_number(input: &[char]) -> (r: Result<(u64, &[char]), ParseError>)
    ensures
        lift(r) == spec_hex(input@),
{
    let ghost s = input@;
    let mut i: usize = 0;
    let mut v: u64 = 0;
    while i < input.len() && char_in_class(input[i], CharClass::HexDigit)
        invariant
            s == input@,
            i <= s.len(),
            forall|j: int| 0 <= j < i ==> in_class(#[trigger] s[j], CharClass::HexDigit),
            v == hex_value(s.take(i as int)),
        decreases input.len() - i,
    {
        let d = digit_value(input[i]);
        proof {
            lemma_hex_value_step(s, i as int);
        }
        let w: u128 = v as u128 * 16 + d as u128;
        if w > u64::MAX as u128 {
            proof {
                lemma_run_bounds(s, CharClass::HexDigit);
                if run(s, CharClass::HexDigit) <= i {
                    assert(in_class(s[run(s, CharClass::HexDigit) as int], CharClass::HexDigit));
                }
                lemma_hex_value_grows(s, i + 1, run(s, CharClass::HexDigit) as int);
            }
            return Err(ParseError { remaining: input.len(), expected: Expected::HexInRange });
        }
        v = w as u64;
        i = i + 1;
    }
    proof {
        lemma_run_is(s, CharClass::HexDigit, i as int);
    }
    if i == 0 {
        return Err(ParseError { remaining: input.len(), expected: Expected::HexDigit });
    }
    let rest = vstd::slice::slice_subrange(input, i, input.len());
    assert(rest@ =~= s.skip(i as int));
    Ok((v, rest))
}

} // verus!
