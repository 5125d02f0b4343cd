//! Character classes and case mapping, as the standard library computes them.
//!
//! White space and the ASCII part of each other class are spelled out here. What Unicode adds to
//! the others beyond ASCII is left to the standard library's tables and only named.

use vstd::prelude::*;
use vstd::utf8;

verus! {

/// Whether `char::is_alphanumeric` accepts a character beyond ASCII.
pub uninterp spec fn wide_alphanumeric(c: char) -> bool;

/// Whether `char::is_uppercase` accepts a character beyond ASCII.
pub uninterp spec fn wide_uppercase(c: char) -> bool;

/// Whether `char::is_lowercase` accepts a character beyond ASCII.
pub uninterp spec fn wide_lowercase(c: char) -> bool;

/// What `str::to_lowercase` makes of a text that is not all ASCII.
pub uninterp spec fn wide_lowercase_text(s: Seq<char>) -> Seq<char>;

/// `char::is_whitespace`: it accepts the characters with Unicode's `White_Space` property, which are
/// the characters from tab to carriage return, the space, the next-line character and the spaces and
/// separators beyond ASCII that are listed here.
pub assume_specification[ char::is_whitespace ](c: char) -> (b: bool)
    ensures
        b == (('\t' <= c && c <= '\r') || c == ' ' || c == '\u{85}' || c == '\u{a0}' || c
            == '\u{1680}' || ('\u{2000}' <= c && c <= '\u{200a}') || c == '\u{2028}' || c
            == '\u{2029}' || c == '\u{202f}' || c == '\u{205f}' || c == '\u{3000}'),
;

/// `char::is_alphanumeric`: within ASCII it accepts the letters and the digits. Beyond ASCII its
/// answer depends on the character alone.
pub assume_specification[ char::is_alphanumeric ](c: char) -> (b: bool)
    ensures
        b == if c <= '\x7f' {
            ('0' <= c && c <= '9') || ('A' <= c && c <= 'Z') || ('a' <= c && c <= 'z')
        } else {
            wide_alphanumeric(c)
        },
;

/// `char::is_uppercase`: within ASCII it accepts `A` to `Z`. Beyond ASCII its answer depends on
/// the character alone.
pub assume_specification[ char::is_uppercase ](c: char) -> (b: bool)
    ensures
        b == if c <= '\x7f' {
            'A' <= c && c <= 'Z'
        } else {
            wide_uppercase(c)
        },
;

/// `char::is_lowercase`: within ASCII it accepts `a` to `z`. Beyond ASCII its answer depends on
/// the character alone.
pub assume_specification[ char::is_lowercase ](c: char) -> (b: bool)
    ensures
        b == if c <= '\x7f' {
            'a' <= c && c <= 'z'
        } else {
            wide_lowercase(c)
        },
;

/// `str::to_lowercase`: a text that is all ASCII has `A` to `Z` mapped to `a` to `z` and the rest
/// kept. The result for any other text depends on the text alone.
pub assume_specification[ str::to_lowercase ](s: &str) -> (r: String)
    ensures
        r@ == if utf8::is_ascii_chars(s@) {
            s@.map_values(|c: char| ascii_lower(c))
        } else {
            wide_lowercase_text(s@)
        },
;

/// `String::push`: appends the character to the text.
pub assume_specification[ String::push ](s: &mut String, c: char)
    ensures
        final(s)@ == old(s)@.push(c),
;

/// White space, by Unicode.
pub open spec fn is_whitespace(c: char) -> bool {
    ||| '\t' <= c <= '\r'
    ||| c == ' '
    ||| c == '\u{85}'
    ||| c == '\u{a0}'
    ||| c == '\u{1680}'
    ||| '\u{2000}' <= c <= '\u{200a}'
    ||| c == '\u{2028}'
    ||| c == '\u{2029}'
    ||| c == '\u{202f}'
    ||| c == '\u{205f}'
    ||| c == '\u{3000}'
}

/// A letter or a number, by Unicode.
pub open spec fn is_alphanumeric(c: char) -> bool {
    if c <= '\x7f' {
        is_ascii_alphanumeric(c)
    } else {
        wide_alphanumeric(c)
    }
}

/// An uppercase letter, by Unicode.
pub open spec fn is_uppercase(c: char) -> bool {
    if c <= '\x7f' {
        'A' <= c && c <= 'Z'
    } else {
        wide_uppercase(c)
    }
}

/// A lowercase letter, by Unicode.
pub open spec fn is_lowercase(c: char) -> bool {
    if c <= '\x7f' {
        'a' <= c && c <= 'z'
    } else {
        wide_lowercase(c)
    }
}

/// The lowercase form of a text, by Unicode.
pub open spec fn lowercase(s: Seq<char>) -> Seq<char> {
    if utf8::is_ascii_chars(s) {
        ascii_lowercase(s)
    } else {
        wide_lowercase_text(s)
    }
}

/// `0` to `9`.
pub open spec fn is_ascii_digit(c: char) -> bool {
    '0' <= c && c <= '9'
}

/// An ASCII letter or digit.
pub open spec fn is_ascii_alphanumeric(c: char) -> bool {
    is_ascii_digit(c) || ('A' <= c && c <= 'Z') || ('a' <= c && c <= 'z')
}

/// `A` to `Z` become `a` to `z`; every other character stays.
pub open spec fn ascii_lower(c: char) -> char {
    if 'A' <= c && c <= 'Z' {
        ((c as u8) + 32) as char
    } else {
        c
    }
}

/// `ascii_lower` on every character.
pub open spec fn ascii_lowercase(s: Seq<char>) -> Seq<char> {
    s.map_values(|c: char| ascii_lower(c))
}

/// Two texts that differ at most in the case of ASCII letters.
pub open spec fn same_ignoring_ascii_case(a: Seq<char>, b: Seq<char>) -> bool {
    ascii_lowercase(a) == ascii_lowercase(b)
}

/// White space is the code points from 9 to 13, 32, and the spaces and separators of Unicode.
pub proof fn law_white_space(c: char)
    ensures
        is_whitespace(c) <==> {
            let p = c as int;
            ||| 9 <= p <= 13
            ||| p == 32
            ||| p == 0x85
            ||| p == 0xa0
            ||| p == 0x1680
            ||| 0x2000 <= p <= 0x200a
            ||| 0x2028 <= p <= 0x2029
            ||| p == 0x202f
            ||| p == 0x205f
            ||| p == 0x3000
        },
{
}

/// Within ASCII the letters and digits are those of the English alphabet; beyond it the standard
/// library's tables decide.
pub proof fn law_letters(c: char)
    ensures
        is_uppercase(c) <==> (65 <= c as int <= 90) || (c as int > 127 && wide_uppercase(c)),
        is_lowercase(c) <==> (97 <= c as int <= 122) || (c as int > 127 && wide_lowercase(c)),
        is_ascii_digit(c) <==> 48 <= c as int <= 57,
        is_ascii_alphanumeric(c) <==> (48 <= c as int <= 57) || (65 <= c as int <= 90) || (97
            <= c as int <= 122),
        is_alphanumeric(c) <==> (48 <= c as int <= 57) || (65 <= c as int <= 90) || (97
            <= c as int <= 122) || (c as int > 127 && wide_alphanumeric(c)),
{
}

/// Two texts are the same up to the case of ASCII letters if and only if they have one length and
/// at each place the same character, or the two cases of one letter, which are 32 apart.
pub proof fn law_case_is_all_that_differs(a: Seq<char>, b: Seq<char>)
    ensures
        same_ignoring_ascii_case(a, b) <==> a.len() == b.len() && forall|i: int|
            0 <= i < a.len() ==> {
                ||| #[trigger] a[i] == b[i]
                ||| 'A' <= a[i] <= 'Z' && b[i] as int == a[i] as int + 32
                ||| 'A' <= b[i] <= 'Z' && a[i] as int == b[i] as int + 32
            },
{
    let low_a = ascii_lowercase(a);
    let low_b = ascii_lowercase(b);
    assert(low_a.len() == a.len() && low_b.len() == b.len());
    if same_ignoring_ascii_case(a, b) {
        assert forall|i: int| 0 <= i < a.len() implies {
            ||| #[trigger] a[i] == b[i]
            ||| 'A' <= a[i] <= 'Z' && b[i] as int == a[i] as int + 32
            ||| 'A' <= b[i] <= 'Z' && a[i] as int == b[i] as int + 32
        } by {
            assert(low_a[i] == ascii_lower(a[i]));
            assert(low_b[i] == ascii_lower(b[i]));
        }
    }
    if a.len() == b.len() && forall|i: int|
        0 <= i < a.len() ==> {
            ||| #[trigger] a[i] == b[i]
            ||| 'A' <= a[i] <= 'Z' && b[i] as int == a[i] as int + 32
            ||| 'A' <= b[i] <= 'Z' && a[i] as int == b[i] as int + 32
        } {
        assert forall|i: int| 0 <= i < low_a.len() implies low_a[i] == low_b[i] by {
            assert(low_a[i] == ascii_lower(a[i]));
            assert(low_b[i] == ascii_lower(b[i]));
        }
        assert(low_a =~= low_b);
    }
}

/// No character lies below the first one.
pub proof fn lemma_code_point(c: char)
    ensures
        '\0' <= c,
{
}

/// The lowercase form of an ASCII text moves `A` to `Z` by 32 and leaves every other character as it
/// is; that of any other text is the standard library's.
pub proof fn law_lowercase(s: Seq<char>)
    ensures
        (forall|i: int| 0 <= i < s.len() ==> (#[trigger] s[i]) as int <= 127) ==> lowercase(s).len()
            == s.len() && forall|i: int|
            0 <= i < s.len() ==> (#[trigger] lowercase(s)[i]) as int == if 65 <= s[i] as int <= 90 {
                s[i] as int + 32
            } else {
                s[i] as int
            },
        (exists|i: int| 0 <= i < s.len() && (#[trigger] s[i]) as int > 127) ==> lowercase(s)
            == wide_lowercase_text(s),
{
    if forall|i: int| 0 <= i < s.len() ==> (#[trigger] s[i]) as int <= 127 {
        assert forall|i: int| 0 <= i < s.len() implies '\0' <= #[trigger] s[i] <= '\u{7f}' by {
            lemma_code_point(s[i]);
        }
        assert forall|i: int| 0 <= i < s.len() implies (#[trigger] lowercase(s)[i]) as int == if 65
            <= s[i] as int <= 90 {
            s[i] as int + 32
        } else {
            s[i] as int
        } by {
            assert(lowercase(s)[i] == ascii_lower(s[i]));
        }
    }
    if exists|i: int| 0 <= i < s.len() && (#[trigger] s[i]) as int > 127 {
        let i = choose|i: int| 0 <= i < s.len() && (#[trigger] s[i]) as int > 127;
        assert(!('\0' <= s[i] <= '\u{7f}'));
        assert(!utf8::is_ascii_chars(s));
    }
}

} // verus!
