//! What the texts are that are cut, trimmed and made of numbers.
use vstd::prelude::*;

use crate::text;
use crate::text::NumberError;

verus! {

// ---------------------------------------------------------------------------
// White space.

/// Whether a text is nothing but white space.
pub open spec fn all_white(s: Seq<char>) -> bool {
    forall|i: int| 0 <= i < s.len() ==> text::white(#[trigger] s[i])
}

/// The characters that are white space: those from the tab to the carriage return,
/// the space, the next line, and the spaces and separators of Unicode.
pub proof fn law_white_space(c: char)
    ensures
        text::white(c) <==> '\t' <= c <= '\r' || c == ' ' || c == '\u{85}' || c == '\u{a0}' || c
            == '\u{1680}' || '\u{2000}' <= c <= '\u{200a}' || c == '\u{2028}' || c == '\u{2029}' || c
            == '\u{202f}' || c == '\u{205f}' || c == '\u{3000}',
{
}

/// What is trimmed at the end is white space, and none is left there.
pub proof fn law_end_is_trimmed(s: Seq<char>) -> (b: Seq<char>)
    ensures
        s == text::trimmed_end(s) + b,
        all_white(b),
        text::trimmed_end(s).len() > 0 ==> !text::white(text::trimmed_end(s).last()),
    decreases s.len(),
{
    if s.len() > 0 && text::white(s.last()) {
        let b = law_end_is_trimmed(s.drop_last());
        let r = b.push(s.last());
        assert(s =~= s.drop_last().push(s.last()));
        assert(s.drop_last() == text::trimmed_end(s) + b);
        assert((text::trimmed_end(s) + b).push(s.last()) =~= text::trimmed_end(s) + r);
        r
    } else {
        let r = Seq::<char>::empty();
        assert(s =~= s + r);
        r
    }
}

proof fn lemma_start_is_trimmed(s: Seq<char>) -> (a: Seq<char>)
    ensures
        s == a + text::trimmed_start(s),
        all_white(a),
        text::trimmed_start(s).len() > 0 ==> !text::white(text::trimmed_start(s)[0]),
    decreases s.len(),
{
    if s.len() > 0 && text::white(s[0]) {
        let a = lemma_start_is_trimmed(s.skip(1));
        let r = seq![s[0]] + a;
        assert(s =~= r + text::trimmed_start(s)) by {
            assert(s =~= seq![s[0]] + s.skip(1));
        }
        r
    } else {
        let r = Seq::<char>::empty();
        assert(s =~= r + s);
        r
    }
}

/// What is trimmed around a text is white space, and none is left at its ends.
pub proof fn law_both_ends_are_trimmed(s: Seq<char>) -> (ab: (Seq<char>, Seq<char>))
    ensures
        s == ab.0 + text::trimmed(s) + ab.1,
        all_white(ab.0),
        all_white(ab.1),
        text::trimmed(s).len() > 0 ==> !text::white(text::trimmed(s)[0]) && !text::white(
            text::trimmed(s).last(),
        ),
{
    let a = lemma_start_is_trimmed(s);
    let t = text::trimmed_start(s);
    let b = law_end_is_trimmed(t);
    assert(s =~= a + text::trimmed(s) + b);
    if text::trimmed(s).len() > 0 {
        assert(t[0] == text::trimmed(s)[0]);
    }
    (a, b)
}

/// Nothing is left of a text exactly if it is nothing but white space.
pub proof fn law_white_space_is_trimmed(s: Seq<char>)
    ensures
        text::trimmed(s).len() == 0 <==> all_white(s),
{
    let (a, b) = law_both_ends_are_trimmed(s);
    let t = text::trimmed(s);
    if t.len() == 0 {
        assert(s =~= a + b);
        assert forall|i: int| 0 <= i < s.len() implies text::white(#[trigger] s[i]) by {
            if i < a.len() {
                assert(s[i] == a[i]);
            } else {
                assert(s[i] == b[i - a.len()]);
            }
        }
    } else {
        assert(s[a.len() as int] == t[0]);
    }
}

// ---------------------------------------------------------------------------
// Cutting.

/// Whether `p` stands in `s` at position `i`.
pub open spec fn stands_at(s: Seq<char>, p: Seq<char>, i: int) -> bool {
    0 <= i <= s.len() && p.is_prefix_of(s.skip(i))
}

/// What follows a prefix: the rest of a text that begins with it, and of no other.
pub proof fn law_prefix_is_taken_off(s: Seq<char>, p: Seq<char>, r: Seq<char>)
    ensures
        text::after_prefix(s, p) == Some(r) <==> s == p + r,
{
    if s == p + r {
        assert(s.take(p.len() as int) =~= p);
        assert(s.skip(p.len() as int) =~= r);
    }
    if text::after_prefix(s, p) == Some(r) {
        assert(s =~= p + r);
    }
}

proof fn lemma_cut_parts(s: Seq<char>, p: Seq<char>)
    ensures
        text::cut(s, p) matches Some((a, b)) ==> s == a + p + b,
    decreases s.len(),
{
    if p.is_prefix_of(s) {
        assert(s =~= p + s.skip(p.len() as int));
        assert(s =~= Seq::<char>::empty() + p + s.skip(p.len() as int));
    } else if s.len() > 0 {
        lemma_cut_parts(s.skip(1), p);
        if let Some((a, b)) = text::cut(s.skip(1), p) {
            assert(s =~= seq![s[0]] + s.skip(1));
            assert(s =~= seq![s[0]] + a + p + b);
        }
    }
}

proof fn lemma_cut_first(s: Seq<char>, p: Seq<char>, i: int)
    requires
        stands_at(s, p, i),
    ensures
        text::cut(s, p) matches Some((a, b)) && a.len() <= i,
    decreases s.len(),
{
    if !p.is_prefix_of(s) {
        assert(s.skip(0) =~= s);
        assert(s.skip(1).skip(i - 1) =~= s.skip(i));
        lemma_cut_first(s.skip(1), p, i - 1);
    }
}

/// A text is cut where the separator stands for the first time, and not where
/// there is none.
pub proof fn law_cut_at_the_first(s: Seq<char>, p: Seq<char>, i: int)
    ensures
        match text::cut(s, p) {
            Some((a, b)) => s == a + p + b && (stands_at(s, p, i) ==> a.len() <= i),
            None => !stands_at(s, p, i),
        },
{
    lemma_cut_parts(s, p);
    if stands_at(s, p, i) {
        lemma_cut_first(s, p, i);
    }
}

// ---------------------------------------------------------------------------
// Numbers.

/// The number that digits stand for.
pub open spec fn value(s: Seq<char>, base: nat) -> nat
    decreases s.len(),
{
    if s.len() == 0 {
        0
    } else {
        value(s.drop_last(), base) * base + worth(s.last())
    }
}

/// What a digit is worth.
pub open spec fn worth(c: char) -> nat {
    if '0' <= c <= '9' {
        (c as int - '0' as int) as nat
    } else {
        (c as int - 'a' as int + 10) as nat
    }
}

/// The powers of the base.
pub open spec fn power(base: nat, n: nat) -> nat
    decreases n,
{
    if n == 0 {
        1
    } else {
        power(base, (n - 1) as nat) * base
    }
}

/// A number is written with digits, without a zero in front, and they stand for it.
pub proof fn law_decimal_stands_for_the_number(n: nat, i: int)
    ensures
        value(text::decimal(n), 10) == n,
        0 <= i < text::decimal(n).len() ==> '0' <= text::decimal(n)[i] <= '9',
        text::decimal(n).len() >= 1,
        n > 0 ==> text::decimal(n)[0] != '0',
    decreases n,
{
    let d = text::decimal(n);
    reveal_with_fuel(value, 3);
    if n < 10 {
        assert(d.drop_last() =~= Seq::<char>::empty());
        assert(worth(text::digit(n as int)) == n);
    } else {
        law_decimal_stands_for_the_number(n / 10, i);
        law_decimal_stands_for_the_number(n / 10, 0);
        assert(d.drop_last() =~= text::decimal(n / 10));
        assert(worth(text::digit((n % 10) as int)) == n % 10);
        assert(d[0] == text::decimal(n / 10)[0]);
    }
}

/// A number in base sixteen has as many digits as were asked for, and they stand
/// for it as far as it fits.
pub proof fn law_hex_stands_for_the_number(n: nat, width: nat, i: int)
    ensures
        text::hex(n, width).len() == width,
        0 <= i < width ==> {
            let c = text::hex(n, width)[i];
            '0' <= c <= '9' || 'a' <= c <= 'f'
        },
        n < power(16, width) ==> value(text::hex(n, width), 16) == n,
    decreases width,
{
    let d = text::hex(n, width);
    if width > 0 {
        let m = (width - 1) as nat;
        law_hex_stands_for_the_number(n / 16, m, i);
        assert(d.drop_last() =~= text::hex(n / 16, m));
        assert(worth(text::hex_digit((n % 16) as int)) == n % 16);
        if n < power(16, width) {
            let q = power(16, m);
            assert(n / 16 < q) by (nonlinear_arith)
                requires
                    n < q * 16,
            ;
        }
    }
}

proof fn lemma_value_from(s: Seq<char>, i: int)
    requires
        0 <= i < s.len(),
    ensures
        value(s.take(i + 1), 10) == value(s.take(i), 10) * 10 + worth(s[i]),
{
    assert(s.take(i + 1).drop_last() =~= s.take(i));
    assert(s.take(i + 1).last() == s[i]);
}

proof fn lemma_digits(s: Seq<char>, i: int)
    requires
        0 <= i <= s.len(),
        forall|j: int| 0 <= j < i ==> '0' <= #[trigger] s[j] <= '9',
        value(s.take(i), 10) <= usize::MAX,
    ensures
        match text::digits_value(s.skip(i), value(s.take(i), 10)) {
            Ok(n) => all_digits(s) && value(s, 10) == n,
            Err(NumberError::InvalidDigit) => !all_digits(s),
            Err(NumberError::Overflow) => exists|k: int|
                0 < k <= s.len() && #[trigger] value(s.take(k), 10) > usize::MAX && all_digits(
                    s.take(k),
                ),
            Err(NumberError::Empty) => false,
        },
        all_digits(s) && value(s, 10) <= usize::MAX ==> text::digits_value(
            s.skip(i),
            value(s.take(i), 10),
        ) is Ok,
    decreases s.len() - i,
{
    if i == s.len() {
        assert(s.take(i) =~= s);
        assert(s.skip(i).len() == 0);
        assert(all_digits(s));
    } else {
        let t = s.skip(i);
        assert(t[0] == s[i]);
        assert(t.skip(1) =~= s.skip(i + 1));
        lemma_value_from(s, i);
        if !('0' <= s[i] <= '9') {
            assert(!all_digits(s));
        } else if value(s.take(i + 1), 10) > usize::MAX {
            assert(all_digits(s.take(i + 1)));
            if all_digits(s) {
                lemma_value_grows(s, i + 1, s.len() as int);
                assert(s.take(s.len() as int) =~= s);
            }
        } else {
            lemma_digits(s, i + 1);
        }
    }
}

proof fn lemma_value_grows(s: Seq<char>, i: int, j: int)
    requires
        0 <= i <= j <= s.len(),
    ensures
        value(s.take(i), 10) <= value(s.take(j), 10),
    decreases j - i,
{
    if i < j {
        lemma_value_grows(s, i, j - 1);
        lemma_value_from(s, j - 1);
    }
}

/// Whether a text is nothing but digits.
pub open spec fn all_digits(s: Seq<char>) -> bool {
    forall|i: int| 0 <= i < s.len() ==> '0' <= #[trigger] s[i] <= '9'
}

/// The digits of a text that is read as a number: a plus sign may stand before them.
pub open spec fn unsigned(s: Seq<char>) -> Seq<char> {
    if s.len() > 1 && s[0] == '+' {
        s.skip(1)
    } else {
        s
    }
}

/// A text is read as a number exactly if it is digits, with a plus sign before
/// them or not, and the number is not too large. Else it is empty, or has a
/// character that is no digit, or begins with too large a number.
pub proof fn law_number_is_what_digits_stand_for(s: Seq<char>)
    ensures
        ({
            let d = unsigned(s);
            match text::number(s) {
                Ok(n) => d.len() > 0 && all_digits(d) && value(d, 10) == n,
                Err(NumberError::Empty) => s.len() == 0,
                Err(NumberError::InvalidDigit) => s.len() > 0 && !all_digits(d),
                Err(NumberError::Overflow) => exists|k: int|
                    0 < k <= d.len() && #[trigger] value(d.take(k), 10) > usize::MAX && all_digits(
                        d.take(k),
                    ),
            }
        }),
        unsigned(s).len() > 0 && all_digits(unsigned(s)) && value(unsigned(s), 10) <= usize::MAX
            ==> text::number(s) is Ok,
        s.len() == 0 ==> text::number(s) == Err::<usize, NumberError>(NumberError::Empty),
{
    let d = unsigned(s);
    if s.len() > 0 {
        assert(d.take(0).len() == 0);
        assert(value(d.take(0), 10) == 0);
        lemma_digits(d, 0);
        assert(d.skip(0) =~= d);
    }
}

// ---------------------------------------------------------------------------
// Lines.

/// The first line of a text ends before its first line feed, and a carriage return
/// before the line feed is no part of it; the other lines are those of the rest.
pub proof fn law_first_line_of_a_text(line: Seq<char>, rest: Seq<char>)
    requires
        !line.contains('\n'),
    ensures
        text::text_lines(line + seq!['\n'] + rest) == seq![
            if line.len() > 0 && line.last() == '\r' {
                line.take(line.len() - 1)
            } else {
                line
            },
        ] + text::text_lines(rest),
        line.len() > 0 ==> text::text_lines(line) == seq![line],
        text::text_lines(Seq::<char>::empty()) == Seq::<Seq<char>>::empty(),
{
    let s = line + seq!['\n'] + rest;
    lemma_line_end(line, seq!['\n'] + rest);
    assert(s =~= line + (seq!['\n'] + rest));
    assert(s.take(line.len() as int) =~= line);
    assert(s.skip(line.len() as int + 1) =~= rest);
    if line.len() > 0 {
        assert(line.drop_last() =~= line.take(line.len() - 1));
        lemma_no_line_end(line);
    }
}

proof fn lemma_line_end(line: Seq<char>, rest: Seq<char>)
    requires
        !line.contains('\n'),
        rest.len() > 0,
        rest[0] == '\n',
    ensures
        text::line_end(line + rest) == line.len(),
    decreases line.len(),
{
    let s = line + rest;
    if line.len() > 0 {
        assert(s[0] == line[0]);
        assert(line.contains(line[0]));
        assert(s.skip(1) =~= line.skip(1) + rest);
        assert forall|i: int| 0 <= i < line.skip(1).len() implies line.skip(1)[i] != '\n' by {
            assert(line.skip(1)[i] == line[i + 1]);
            assert(line.contains(line[i + 1]));
        }
        lemma_line_end(line.skip(1), rest);
    } else {
        assert(s[0] == '\n');
    }
}

proof fn lemma_no_line_end(line: Seq<char>)
    requires
        !line.contains('\n'),
    ensures
        text::line_end(line) == line.len(),
    decreases line.len(),
{
    if line.len() > 0 {
        assert(line.contains(line[0]));
        assert forall|i: int| 0 <= i < line.skip(1).len() implies line.skip(1)[i] != '\n' by {
            assert(line.skip(1)[i] == line[i + 1]);
            assert(line.contains(line[i + 1]));
        }
        lemma_no_line_end(line.skip(1));
    }
}

} // verus!
