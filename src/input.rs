use vstd::prelude::*;

verus! {

/// Characters with the Unicode White_Space property.
pub open spec fn is_white_space(c: char) -> bool {
    ||| '\u{9}' <= c && c <= '\u{d}'
    ||| c == ' '
    ||| c == '\u{85}'
    ||| c == '\u{a0}'
    ||| c == '\u{1680}'
    ||| '\u{2000}' <= c && c <= '\u{200a}'
    ||| c == '\u{2028}'
    ||| c == '\u{2029}'
    ||| c == '\u{202f}'
    ||| c == '\u{205f}'
    ||| c == '\u{3000}'
}

/// A text without its leading white space.
pub open spec fn trim_start(s: Seq<char>) -> Seq<char>
    decreases s.len(),
{
    if s.len() > 0 && is_white_space(s[0]) {
        trim_start(s.drop_first())
    } else {
        s
    }
}

/// A text without its trailing white space.
pub open spec fn trim_end(s: Seq<char>) -> Seq<char>
    decreases s.len(),
{
    if s.len() > 0 && is_white_space(s.last()) {
        trim_end(s.drop_last())
    } else {
        s
    }
}

/// A text without its leading and trailing white space.
pub open spec fn trimmed(s: Seq<char>) -> Seq<char> {
    trim_end(trim_start(s))
}

/// Relies on `str::trim`: leading and trailing characters with the Unicode
/// White_Space property removed.
#[verifier::external_body]
fn trim_line(s: &str) -> (r: &str)
    ensures
        r@ == trimmed(s@),
{
    s.trim()
}

/// The kanji a text names: the text must be exactly one character.
pub open spec fn single_char(s: Seq<char>) -> Option<char> {
    if s.len() == 1 {
        Some(s[0])
    } else {
        None
    }
}

pub open spec fn is_digit(c: char) -> bool {
    '0' <= c && c <= '9'
}

pub open spec fn digit_value(c: char) -> nat {
    (c as u32 - '0' as u32) as nat
}

pub open spec fn all_digits(s: Seq<char>) -> bool {
    forall|i: int| 0 <= i < s.len() ==> is_digit(#[trigger] s[i])
}

/// Value of a run of decimal digits, most significant first.
pub open spec fn digits_value(s: Seq<char>) -> nat
    decreases s.len(),
{
    if s.len() == 0 {
        0
    } else {
        digits_value(s.drop_last()) * 10 + digit_value(s.last())
    }
}

/// The digits of a count, without its optional leading `+`.
pub open spec fn count_digits(s: Seq<char>) -> Seq<char> {
    if s.len() > 0 && s[0] == '+' {
        s.drop_first()
    } else {
        s
    }
}

/// The count a text spells: an optional `+`, then one or more decimal digits,
/// of value at most 65535.
pub open spec fn count_value(s: Seq<char>) -> Option<nat> {
    if count_digits(s).len() > 0 && all_digits(count_digits(s)) && digits_value(count_digits(s))
        <= 65535 {
        Some(digits_value(count_digits(s)))
    } else {
        None
    }
}

/// The kanji named by an already trimmed text.
pub fn kanji_of(text: &str) -> (r: Option<char>)
    ensures
        r == single_char(text@),
{
    if text.unicode_len() == 1 {
        Some(text.get_char(0))
    } else {
        None
    }
}

/// The kanji named by a line of input, ignoring surrounding white space.
pub fn read_kanji(line: &str) -> (r: Option<char>)
    ensures
        r == single_char(trimmed(line@)),
{
    kanji_of(trim_line(line))
}

/// The count spelled by an already trimmed text.
pub fn parse_count(text: &str) -> (r: Option<u16>)
    ensures
        match r {
            Some(v) => count_value(text@) == Some(v as nat),
            None => count_value(text@).is_none(),
        },
{
    let n = text.unicode_len();
    let start: usize = if n > 0 && text.get_char(0) == '+' {
        1
    } else {
        0
    };
    let ghost d = count_digits(text@);
    assert(d =~= text@.subrange(start as int, n as int));
    if start == n {
        return None;
    }
    let mut value: u32 = 0;
    let mut over = false;
    let mut i: usize = start;
    while i < n
        invariant
            n == text@.len(),
            start <= i <= n,
            d == text@.subrange(start as int, n as int),
            d == count_digits(text@),
            forall|k: int| 0 <= k < i - start ==> is_digit(#[trigger] d[k]),
            over ==> digits_value(d.subrange(0, i - start)) > 65535,
            !over ==> value == digits_value(d.subrange(0, i - start)) && value <= 65535,
        decreases n - i,
    {
        let c = text.get_char(i);
        if !('0' <= c && c <= '9') {
            assert(d[i - start] == c && !is_digit(d[i - start]));
            return None;
        }
        assert(d[i - start] == c);
        assert(d.subrange(0, i + 1 - start).drop_last() =~= d.subrange(0, i - start));
        if !over {
            value = value * 10 + (c as u32 - '0' as u32);
            if value > 65535 {
                over = true;
            }
        }
        i = i + 1;
    }
    assert(d.subrange(0, n - start) =~= d);
    if over {
        None
    } else {
        Some(value as u16)
    }
}

/// The count spelled by a line of input, ignoring surrounding white space.
pub fn read_count(line: &str) -> (r: Option<u16>)
    ensures
        match r {
            Some(v) => count_value(trimmed(line@)) == Some(v as nat),
            None => count_value(trimmed(line@)).is_none(),
        },
{
    parse_count(trim_line(line))
}

} // verus!
