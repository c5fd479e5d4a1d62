//! Text as sequences of characters: slicing, searching, numbers, white space.
use vstd::prelude::*;
use vstd::slice::slice_subrange;

verus! {

/// `String::push` appends the given character to the end of the string.
pub assume_specification[ String::push ](s: &mut String, c: char)
    ensures
        final(s)@ == old(s)@.push(c),
;

/// `String::pop` removes the last character and returns it, or returns `None`
/// and leaves the string as it is when it is empty.
pub assume_specification[ String::pop ](s: &mut String) -> (r: Option<char>)
    ensures
        old(s)@.len() == 0 ==> r is None && final(s)@ == old(s)@,
        old(s)@.len() > 0 ==> r == Some(old(s)@.last()) && final(s)@ == old(s)@.drop_last(),
;

/// The text that the `Debug` formatting of a `char` gives: the character in
/// single quotes, escaped where std escapes it.
pub uninterp spec fn debug_char(c: char) -> Seq<char>;

/// The text that the `Debug` formatting of a `str` gives: the text in double
/// quotes, escaped where std escapes it.
pub uninterp spec fn debug_text(s: Seq<char>) -> Seq<char>;

/// `format!("{:?}", c)` of a `char`: the result is a function of the character,
/// called `debug_char` here.
#[verifier::external_body]
pub(crate) fn char_debug(c: char) -> (r: String)
    ensures
        r@ == debug_char(c),
{
    format!("{:?}", c)
}

/// `format!("{:?}", s)` of a `str`: the result is a function of the text, called
/// `debug_text` here.
#[verifier::external_body]
pub(crate) fn str_debug(s: &str) -> (r: String)
    ensures
        r@ == debug_text(s@),
{
    format!("{:?}", s)
}

/// The text that `String::from_utf8_lossy` makes of bytes: what is not UTF-8 is
/// replaced by the replacement character.
pub uninterp spec fn lossy_text(b: Seq<u8>) -> Seq<char>;

/// `String::from_utf8_lossy`: the result is a function of the bytes, called
/// `lossy_text` here. Bytes that are UTF-8 are decoded as they are.
#[verifier::external_body]
pub(crate) fn lossy(b: &[u8]) -> (r: String)
    ensures
        r@ == lossy_text(b@),
        vstd::utf8::valid_utf8(b@) ==> r@ == vstd::utf8::decode_utf8(b@),
{
    String::from_utf8_lossy(b).into_owned()
}

// ---------------------------------------------------------------------------
// Characters in and out of strings.

/// The characters of a string.
pub fn chars_of(s: &str) -> (r: Vec<char>)
    ensures
        r@ == s@,
{
    let mut out: Vec<char> = Vec::new();
    for c in it: s.chars()
        invariant
            it.seq() == s@,
            out@ == s@.take(it.index() as int),
    {
        out.push(c);
    }
    out
}

/// The string with the given characters.
pub fn string_of(s: &[char]) -> (r: String)
    ensures
        r@ == s@,
{
    let mut out = String::new();
    let mut i: usize = 0;
    while i < s.len()
        invariant
            i <= s@.len(),
            out@ == s@.take(i as int),
        decreases s@.len() - i,
    {
        out.push(s[i]);
        i += 1;
    }
    out
}

/// Appends a string to another.
pub fn append(out: &mut String, s: &str)
    ensures
        final(out)@ == old(out)@ + s@,
{
    let ghost before = out@;
    for c in it: s.chars()
        invariant
            it.seq() == s@,
            out@ == before + s@.take(it.index() as int),
    {
        out.push(c);
        assert(s@.take(it.index() as int + 1) =~= s@.take(it.index() as int).push(c));
    }
}

/// Whether a slice holds the characters of a string.
pub fn same_text(s: &[char], t: &str) -> (r: bool)
    ensures
        r == (s@ == t@),
{
    let u = chars_of(t);
    if s.len() != u.len() {
        return false;
    }
    let mut i: usize = 0;
    while i < s.len()
        invariant
            i <= s@.len(),
            u@ == t@,
            s@.len() == u@.len(),
            s@.take(i as int) == u@.take(i as int),
        decreases s@.len() - i,
    {
        if s[i] != u[i] {
            assert(s@[i as int] != u@[i as int]);
            return false;
        }
        assert(s@.take(i + 1) =~= s@.take(i as int).push(s@[i as int]));
        assert(u@.take(i + 1) =~= u@.take(i as int).push(u@[i as int]));
        i += 1;
    }
    assert(s@.take(i as int) =~= s@);
    assert(u@.take(i as int) =~= u@);
    true
}

// ---------------------------------------------------------------------------
// Prefixes and the first occurrence of a pattern.

/// Whether the slice begins with the pattern.
pub fn starts_with(s: &[char], p: &str) -> (r: bool)
    ensures
        r == p@.is_prefix_of(s@),
{
    let p = chars_of(p);
    has_prefix(s, &p)
}

fn has_prefix(s: &[char], p: &[char]) -> (r: bool)
    ensures
        r == p@.is_prefix_of(s@),
{
    if p.len() > s.len() {
        return false;
    }
    let mut i: usize = 0;
    while i < p.len()
        invariant
            i <= p@.len() <= s@.len(),
            forall|k: int| 0 <= k < i ==> p@[k] == s@[k],
        decreases p@.len() - i,
    {
        if s[i] != p[i] {
            assert(p@[i as int] != s@.subrange(0, p@.len() as int)[i as int]);
            return false;
        }
        i += 1;
    }
    assert(p@ =~= s@.subrange(0, p@.len() as int));
    true
}

/// What follows the pattern at the start of `s`, if `s` begins with it.
pub open spec fn after_prefix(s: Seq<char>, p: Seq<char>) -> Option<Seq<char>> {
    if p.is_prefix_of(s) {
        Some(s.skip(p.len() as int))
    } else {
        None
    }
}

/// What follows the pattern at the start of the slice, if it begins with it.
pub fn strip_prefix<'a>(s: &'a [char], p: &str) -> (r: Option<&'a [char]>)
    ensures
        r is Some <==> after_prefix(s@, p@) is Some,
        r matches Some(t) ==> after_prefix(s@, p@) == Some(t@),
{
    let p = chars_of(p);
    if has_prefix(s, &p) {
        Some(slice_subrange(s, p.len(), s.len()))
    } else {
        None
    }
}

/// `s` cut at the first occurrence of `p`: what stands before it and what
/// stands after it.
pub open spec fn cut(s: Seq<char>, p: Seq<char>) -> Option<(Seq<char>, Seq<char>)>
    decreases s.len(),
{
    if p.is_prefix_of(s) {
        Some((Seq::<char>::empty(), s.skip(p.len() as int)))
    } else if s.len() == 0 {
        None
    } else {
        match cut(s.skip(1), p) {
            Some((a, b)) => Some((seq![s[0]] + a, b)),
            None => None,
        }
    }
}

/// The slice cut at the first occurrence of the pattern.
pub fn split_once<'a>(s: &'a [char], p: &str) -> (r: Option<(&'a [char], &'a [char])>)
    ensures
        r is Some <==> cut(s@, p@) is Some,
        r matches Some((a, b)) ==> cut(s@, p@) == Some((a@, b@)),
{
    let pat = chars_of(p);
    let mut i: usize = 0;
    assert(s@.skip(0) =~= s@);
    assert(s@.take(0) =~= Seq::<char>::empty());
    proof {
        if cut(s@, p@) is Some {
            let (a, b) = cut(s@, p@).unwrap();
            assert(s@.take(0) + a =~= a);
        }
    }
    loop
        invariant
            i <= s@.len(),
            pat@ == p@,
            cut(s@, p@) == (match cut(s@.skip(i as int), p@) {
                Some((a, b)) => Some((s@.take(i as int) + a, b)),
                None => None::<(Seq<char>, Seq<char>)>,
            }),
        decreases s@.len() - i,
    {
        let tail = slice_subrange(s, i, s.len());
        assert(tail@ =~= s@.skip(i as int));
        if has_prefix(tail, &pat) {
            let head = slice_subrange(s, 0, i);
            assert(head@ =~= s@.take(i as int));
            assert(s@.take(i as int) + Seq::<char>::empty() =~= head@);
            return Some((head, slice_subrange(tail, pat.len(), tail.len())));
        }
        if i == s.len() {
            return None;
        }
        proof {
            assert(s@.skip(i as int).skip(1) =~= s@.skip(i + 1));
            assert(s@.take(i + 1) =~= s@.take(i as int).push(s@[i as int]));
            if cut(s@.skip(i + 1), p@) is Some {
                let (a, b) = cut(s@.skip(i + 1), p@).unwrap();
                assert(s@.take(i as int) + (seq![s@[i as int]] + a) =~= s@.take(i + 1) + a);
            }
        }
        i += 1;
    }
}

// ---------------------------------------------------------------------------
// Lines.

/// The position of the first line feed, or the length when there is none.
pub open spec fn line_end(s: Seq<char>) -> int
    decreases s.len(),
{
    if s.len() == 0 || s[0] == '\n' {
        0
    } else {
        1 + line_end(s.skip(1))
    }
}

/// A line without the carriage return before its line feed.
pub open spec fn without_cr(s: Seq<char>) -> Seq<char> {
    if s.len() > 0 && s.last() == '\r' {
        s.drop_last()
    } else {
        s
    }
}

/// The lines of a text: each ends at a line feed, or at a carriage return and a
/// line feed, which do not belong to it. The last line may lack its line feed.
pub open spec fn text_lines(s: Seq<char>) -> Seq<Seq<char>>
    decreases s.len(),
{
    let k = line_end(s);
    if s.len() == 0 {
        Seq::<Seq<char>>::empty()
    } else if 0 <= k < s.len() {
        seq![without_cr(s.take(k))] + text_lines(s.skip(k + 1))
    } else {
        seq![s]
    }
}

/// No line feed stands before the end of the first line.
pub proof fn lemma_before_line_end(s: Seq<char>)
    ensures
        0 <= line_end(s) <= s.len(),
        forall|i: int| 0 <= i < line_end(s) ==> s[i] != '\n',
    decreases s.len(),
{
    if s.len() > 0 && s[0] != '\n' {
        lemma_before_line_end(s.skip(1));
        assert forall|i: int| 0 <= i < line_end(s) implies s[i] != '\n' by {
            if i > 0 {
                assert(s[i] == s.skip(1)[i - 1]);
            }
        }
    }
}

/// Where the first line ends.
pub proof fn lemma_line_end(s: Seq<char>, k: int)
    requires
        0 <= k <= s.len(),
        forall|i: int| 0 <= i < k ==> s[i] != '\n',
        k < s.len() ==> s[k] == '\n',
    ensures
        line_end(s) == k,
    decreases s.len(),
{
    if s.len() > 0 && s[0] != '\n' {
        lemma_line_end(s.skip(1), k - 1);
    }
}

/// The contents of a list of slices.
pub open spec fn contents(v: Seq<&[char]>) -> Seq<Seq<char>> {
    Seq::new(v.len(), |i: int| v[i]@)
}

/// The lines of a text.
pub fn lines_of<'a>(s: &'a [char]) -> (r: Vec<&'a [char]>)
    ensures
        contents(r@) == text_lines(s@),
{
    let mut out: Vec<&'a [char]> = Vec::new();
    let mut start: usize = 0;
    assert(s@.skip(0) =~= s@);
    assert(contents(out@) + text_lines(s@) =~= text_lines(s@));
    while start < s.len()
        invariant
            start <= s@.len(),
            contents(out@) + text_lines(s@.skip(start as int)) == text_lines(s@),
        decreases s@.len() - start,
    {
        let ghost rest = s@.skip(start as int);
        let ghost before = out@;
        let mut end: usize = start;
        while end < s.len() && s[end] != '\n'
            invariant
                start <= end <= s@.len(),
                forall|i: int| start <= i < end ==> s@[i] != '\n',
            decreases s@.len() - end,
        {
            end += 1;
        }
        proof {
            lemma_line_end(rest, end - start);
        }
        if end == s.len() {
            let line = slice_subrange(s, start, end);
            assert(line@ =~= rest);
            out.push(line);
            start = end;
            proof {
                assert(contents(out@) =~= contents(before).push(rest));
                assert(text_lines(s@.skip(start as int)) =~= Seq::<Seq<char>>::empty());
                assert(contents(out@) + text_lines(s@.skip(start as int)) =~= contents(before)
                    + seq![rest]);
            }
        } else {
            let stop: usize = if end > start && s[end - 1] == '\r' {
                end - 1
            } else {
                end
            };
            let line = slice_subrange(s, start, stop);
            proof {
                assert(rest.take(end - start) =~= s@.subrange(start as int, end as int));
                assert(line@ =~= without_cr(rest.take(end - start)));
                assert(rest.skip(end - start + 1) =~= s@.skip(end + 1));
            }
            out.push(line);
            start = end + 1;
            proof {
                let first = without_cr(rest.take(end - start + 1));
                assert(contents(out@) =~= contents(before).push(line@));
                assert(contents(out@) + text_lines(s@.skip(start as int)) =~= contents(before) + (
                seq![line@] + text_lines(s@.skip(start as int))));
            }
        }
    }
    assert(s@.skip(start as int) =~= Seq::<char>::empty());
    assert(contents(out@) + text_lines(s@.skip(start as int)) =~= contents(out@));
    out
}

// ---------------------------------------------------------------------------
// White space.

/// The characters with the Unicode property `White_Space`.
pub open spec fn white(c: char) -> bool {
    let u = c as u32;
    ||| 0x09 <= u <= 0x0D
    ||| u == 0x20
    ||| u == 0x85
    ||| u == 0xA0
    ||| u == 0x1680
    ||| 0x2000 <= u <= 0x200A
    ||| u == 0x2028
    ||| u == 0x2029
    ||| u == 0x202F
    ||| u == 0x205F
    ||| u == 0x3000
}

/// Whether a character is white space.
pub fn is_white(c: char) -> (r: bool)
    ensures
        r == white(c),
{
    let u = c as u32;
    (0x09 <= u && u <= 0x0D) || u == 0x20 || u == 0x85 || u == 0xA0 || u == 0x1680 || (0x2000 <= u
        && u <= 0x200A) || u == 0x2028 || u == 0x2029 || u == 0x202F || u == 0x205F || u == 0x3000
}

/// The text without the white space at its end.
pub open spec fn trimmed_end(s: Seq<char>) -> Seq<char>
    decreases s.len(),
{
    if s.len() > 0 && white(s.last()) {
        trimmed_end(s.drop_last())
    } else {
        s
    }
}

/// The text without the white space at its start.
pub open spec fn trimmed_start(s: Seq<char>) -> Seq<char>
    decreases s.len(),
{
    if s.len() > 0 && white(s[0]) {
        trimmed_start(s.skip(1))
    } else {
        s
    }
}

/// The text without the white space around it.
pub open spec fn trimmed(s: Seq<char>) -> Seq<char> {
    trimmed_end(trimmed_start(s))
}

fn trim_end_slice<'a>(s: &'a [char]) -> (r: &'a [char])
    ensures
        r@ == trimmed_end(s@),
{
    let mut end: usize = s.len();
    assert(s@.take(end as int) =~= s@);
    while end > 0 && is_white(s[end - 1])
        invariant
            end <= s@.len(),
            trimmed_end(s@.take(end as int)) == trimmed_end(s@),
        decreases end,
    {
        assert(s@.take(end as int).drop_last() =~= s@.take(end - 1));
        end -= 1;
    }
    let r = slice_subrange(s, 0, end);
    assert(r@ =~= s@.take(end as int));
    r
}

fn trim_start_slice<'a>(s: &'a [char]) -> (r: &'a [char])
    ensures
        r@ == trimmed_start(s@),
{
    let mut start: usize = 0;
    assert(s@.skip(0) =~= s@);
    while start < s.len() && is_white(s[start])
        invariant
            start <= s@.len(),
            trimmed_start(s@.skip(start as int)) == trimmed_start(s@),
        decreases s@.len() - start,
    {
        assert(s@.skip(start as int).skip(1) =~= s@.skip(start + 1));
        start += 1;
    }
    let r = slice_subrange(s, start, s.len());
    assert(r@ =~= s@.skip(start as int));
    r
}

/// The string without the white space around it.
pub fn trim(s: &str) -> (r: String)
    ensures
        r@ == trimmed(s@),
{
    let chars = chars_of(s);
    string_of(trim_end_slice(trim_start_slice(&chars)))
}

/// The string without the white space at its end.
pub fn trim_end(s: &str) -> (r: String)
    ensures
        r@ == trimmed_end(s@),
{
    let chars = chars_of(s);
    string_of(trim_end_slice(&chars))
}

// ---------------------------------------------------------------------------
// Numbers.

/// The character of a decimal digit.
pub open spec fn digit(d: int) -> char {
    (48 + d) as char
}

/// Whether a character is a decimal digit.
pub open spec fn is_digit(c: char) -> bool {
    '0' <= c <= '9'
}

/// The value of a decimal digit.
pub open spec fn digit_value(c: char) -> nat {
    (c as int - 48) as nat
}

/// A number in decimal, without leading zeros.
pub open spec fn decimal(n: nat) -> Seq<char>
    decreases n,
{
    if n < 10 {
        seq![digit(n as int)]
    } else {
        decimal(n / 10).push(digit((n % 10) as int))
    }
}

/// Different numbers are written differently.
pub proof fn lemma_decimal_differs(a: nat, b: nat)
    requires
        a != b,
    ensures
        decimal(a) != decimal(b),
    decreases a,
{
    lemma_decimal_digits(a);
    lemma_decimal_digits(b);
    if decimal(a) == decimal(b) {
        assert(decimal(a).last() == digit((a % 10) as int));
        assert(decimal(b).last() == digit((b % 10) as int));
        if a >= 10 && b >= 10 {
            assert(decimal(a).drop_last() =~= decimal(a / 10));
            assert(decimal(b).drop_last() =~= decimal(b / 10));
            if a / 10 != b / 10 {
                lemma_decimal_differs(a / 10, b / 10);
            }
        }
    }
}

/// A number has a digit, and two or more from ten on.
pub proof fn lemma_decimal_digits(n: nat)
    ensures
        decimal(n).len() >= 1,
        n >= 10 <==> decimal(n).len() >= 2,
        forall|i: int| 0 <= i < decimal(n).len() ==> is_digit(#[trigger] decimal(n)[i]),
    decreases n,
{
    if n >= 10 {
        lemma_decimal_digits(n / 10);
    }
}

/// The character of a decimal digit.
pub fn digit_char(d: u8) -> (r: char)
    requires
        d < 10,
    ensures
        r == digit(d as int),
{
    (48 + d) as char
}

/// A number in decimal.
pub fn decimal_string(n: usize) -> (r: String)
    ensures
        r@ == decimal(n as nat),
    decreases n,
{
    if n < 10 {
        let mut out = String::new();
        out.push(digit_char(n as u8));
        assert(out@ =~= decimal(n as nat));
        out
    } else {
        let mut out = decimal_string(n / 10);
        out.push(digit_char((n % 10) as u8));
        out
    }
}

/// The character of a hexadecimal digit, in lower case.
pub open spec fn hex_digit(d: int) -> char {
    if d < 10 {
        digit(d)
    } else {
        (87 + d) as char
    }
}

/// The last `width` hexadecimal digits of a number, with leading zeros.
pub open spec fn hex(n: nat, width: nat) -> Seq<char>
    decreases width,
{
    if width == 0 {
        Seq::<char>::empty()
    } else {
        hex(n / 16, (width - 1) as nat).push(hex_digit((n % 16) as int))
    }
}

fn hex_char(d: u8) -> (r: char)
    requires
        d < 16,
    ensures
        r == hex_digit(d as int),
{
    if d < 10 {
        digit_char(d)
    } else {
        (87 + d) as char
    }
}

/// The last `width` hexadecimal digits of a number.
pub fn hex_string(n: u64, width: usize) -> (r: String)
    ensures
        r@ == hex(n as nat, width as nat),
    decreases width,
{
    if width == 0 {
        String::new()
    } else {
        let mut out = hex_string(n / 16, width - 1);
        out.push(hex_char((n % 16) as u8));
        out
    }
}

/// Why a text is not a number that fits.
#[derive(Debug, Clone, Copy, PartialEq, Eq, Structural)]
pub enum NumberError {
    Empty,
    InvalidDigit,
    Overflow,
}

impl NumberError {
    /// The reason in words.
    pub open spec fn text(self) -> Seq<char> {
        match self {
            NumberError::Empty => "cannot parse integer from empty string"@,
            NumberError::InvalidDigit => "invalid digit found in string"@,
            NumberError::Overflow => "number too large to fit in target type"@,
        }
    }

    /// The reason in words.
    pub fn message(self) -> (r: String)
        ensures
            r@ == self.text(),
    {
        match self {
            NumberError::Empty => "cannot parse integer from empty string".to_string(),
            NumberError::InvalidDigit => "invalid digit found in string".to_string(),
            NumberError::Overflow => "number too large to fit in target type".to_string(),
        }
    }
}

/// The value of the digits `s`, appended to the number `n`.
pub open spec fn digits_value(s: Seq<char>, n: nat) -> Result<usize, NumberError>
    decreases s.len(),
{
    if s.len() == 0 {
        Ok(n as usize)
    } else if !is_digit(s[0]) {
        Err(NumberError::InvalidDigit)
    } else if n * 10 + digit_value(s[0]) > usize::MAX {
        Err(NumberError::Overflow)
    } else {
        digits_value(s.skip(1), n * 10 + digit_value(s[0]))
    }
}

/// The number that a text stands for: an optional plus sign and at least one
/// decimal digit.
pub open spec fn number(s: Seq<char>) -> Result<usize, NumberError> {
    if s.len() == 0 {
        Err(NumberError::Empty)
    } else if s[0] == '+' && s.len() > 1 {
        digits_value(s.skip(1), 0)
    } else {
        digits_value(s, 0)
    }
}

/// The number that a text stands for.
pub fn parse_number(s: &[char]) -> (r: Result<usize, NumberError>)
    ensures
        r == number(s@),
{
    if s.len() == 0 {
        return Err(NumberError::Empty);
    }
    let mut i: usize = if s[0] == '+' && s.len() > 1 {
        1
    } else {
        0
    };
    let mut n: usize = 0;
    assert(s@.skip(0) =~= s@);
    while i < s.len()
        invariant
            i <= s@.len(),
            digits_value(s@.skip(i as int), n as nat) == number(s@),
        decreases s@.len() - i,
    {
        let c = s[i];
        assert(s@.skip(i as int)[0] == c);
        assert(s@.skip(i as int).skip(1) =~= s@.skip(i + 1));
        if !('0' <= c && c <= '9') {
            return Err(NumberError::InvalidDigit);
        }
        let d: usize = (c as u32 - 48) as usize;
        let m: usize = match n.checked_mul(10) {
            Some(m) => m,
            None => return Err(NumberError::Overflow),
        };
        n = match m.checked_add(d) {
            Some(k) => k,
            None => return Err(NumberError::Overflow),
        };
        i += 1;
    }
    Ok(n)
}

// ---------------------------------------------------------------------------
// Numbers that are written and read.

proof fn lemma_digits_push(s: Seq<char>, c: char, n: nat, m: nat)
    requires
        n <= usize::MAX,
        m <= usize::MAX,
        digits_value(s, n) == Ok::<usize, NumberError>(m as usize),
        is_digit(c),
        m * 10 + digit_value(c) <= usize::MAX,
    ensures
        digits_value(s.push(c), n) == Ok::<usize, NumberError>(
            (m * 10 + digit_value(c)) as usize,
        ),
    decreases s.len(),
{
    let t = s.push(c);
    if s.len() == 0 {
        assert(t.skip(1) =~= Seq::<char>::empty());
        assert(n == m);
        assert(digits_value(t.skip(1), n * 10 + digit_value(c)) == Ok::<
            usize,
            NumberError,
        >((n * 10 + digit_value(c)) as usize));
    } else {
        assert(t.skip(1) =~= s.skip(1).push(c));
        assert(t[0] == s[0]);
        lemma_digits_push(s.skip(1), c, n * 10 + digit_value(s[0]), m);
    }
}

proof fn lemma_digits_of(n: nat)
    requires
        n <= usize::MAX,
    ensures
        digits_value(decimal(n), 0) == Ok::<usize, NumberError>(n as usize),
    decreases n,
{
    if n < 10 {
        let t = decimal(n);
        assert(t.skip(1) =~= Seq::<char>::empty());
        assert(digits_value(t.skip(1), n) == Ok::<usize, NumberError>(n as usize));
    } else {
        lemma_digits_of(n / 10);
        lemma_digits_push(decimal(n / 10), digit((n % 10) as int), 0, n / 10);
    }
}

/// A number that was written down is read back.
pub proof fn law_numbers_are_read_back(n: nat)
    requires
        n <= usize::MAX,
    ensures
        number(decimal(n)) == Ok::<usize, NumberError>(n as usize),
{
    lemma_digits_of(n);
    lemma_decimal_digits(n);
    assert(is_digit(decimal(n)[0]));
}

// ---------------------------------------------------------------------------
// Where a text is cut.

/// A text is cut at the first place where the pattern stands.
pub proof fn lemma_cut_first(s: Seq<char>, p: Seq<char>, k: int)
    requires
        0 <= k <= s.len(),
        p.is_prefix_of(s.skip(k)),
        forall|i: int| 0 <= i < k ==> !p.is_prefix_of(#[trigger] s.skip(i)),
    ensures
        cut(s, p) == Some((s.take(k), s.skip(k + p.len()))),
    decreases k,
{
    assert(s.skip(0) =~= s);
    if k == 0 {
        assert(s.take(0) =~= Seq::<char>::empty());
    } else {
        assert(!p.is_prefix_of(s.skip(0)));
        let t = s.skip(1);
        assert(t.skip(k - 1) =~= s.skip(k));
        assert forall|i: int| 0 <= i < k - 1 implies !p.is_prefix_of(#[trigger] t.skip(i)) by {
            assert(t.skip(i) =~= s.skip(i + 1));
        }
        lemma_cut_first(t, p, k - 1);
        assert(seq![s[0]] + t.take(k - 1) =~= s.take(k));
        assert(t.skip(k - 1 + p.len()) =~= s.skip(k + p.len()));
    }
}

/// A text without the first character of the pattern is not cut.
pub proof fn lemma_cut_nowhere(s: Seq<char>, p: Seq<char>)
    requires
        p.len() > 0,
        forall|i: int| 0 <= i < s.len() ==> s[i] != p[0],
    ensures
        cut(s, p) is None,
    decreases s.len(),
{
    if p.is_prefix_of(s) {
        assert(s[0] == p[0]);
    } else if s.len() > 0 {
        lemma_cut_nowhere(s.skip(1), p);
    }
}

// ---------------------------------------------------------------------------
// Lines that are joined and taken apart.

/// Lines, each with its line feed.
pub open spec fn lines_text(lines: Seq<Seq<char>>) -> Seq<char>
    decreases lines.len(),
{
    if lines.len() == 0 {
        Seq::<char>::empty()
    } else {
        lines[0].push('\n') + lines_text(lines.skip(1))
    }
}

/// Lines that are written one after the other are read back, if none has a line
/// feed in it or a carriage return at its end.
pub proof fn law_lines_are_read_back(lines: Seq<Seq<char>>)
    requires
        forall|i: int|
            0 <= i < lines.len() ==> !(#[trigger] lines[i]).contains('\n') && without_cr(lines[i])
                == lines[i],
    ensures
        text_lines(lines_text(lines)) == lines,
    decreases lines.len(),
{
    if lines.len() == 0 {
        assert(text_lines(lines_text(lines)) =~= lines);
    } else {
        let rest = lines.skip(1);
        assert forall|i: int| 0 <= i < rest.len() implies !(#[trigger] rest[i]).contains('\n')
            && without_cr(rest[i]) == rest[i] by {
            assert(rest[i] == lines[i + 1]);
        }
        law_lines_are_read_back(rest);
        let s = lines_text(lines);
        let k = lines[0].len() as int;
        assert(s[k] == '\n');
        assert forall|i: int| 0 <= i < k implies s[i] != '\n' by {
            assert(s[i] == lines[0][i]);
            assert(!lines[0].contains('\n'));
        }
        lemma_line_end(s, k);
        assert(s.take(k) =~= lines[0]);
        assert(s.skip(k + 1) =~= lines_text(rest));
        assert(seq![lines[0]] + rest =~= lines);
    }
}

} // verus!
