//! The shapes of words that name things: CamelCase, acronyms and version numbers.

use crate::text;
use crate::unicode;
use vstd::prelude::*;

verus! {

/// At least three bytes, an uppercase letter first, and both a lowercase and an uppercase letter
/// after it.
pub open spec fn camel_cased(w: Seq<char>) -> bool {
    &&& text::utf8_len(w) >= 3
    &&& unicode::is_uppercase(w[0])
    &&& exists|i: int| 1 <= i < w.len() && unicode::is_lowercase(#[trigger] w[i])
    &&& exists|i: int|
        1 <= i < w.len() && unicode::is_uppercase(#[trigger] w[i]) && !unicode::is_lowercase(w[i])
}

/// The number of uppercase letters in a word.
pub open spec fn capitals(w: Seq<char>) -> nat
    decreases w.len(),
{
    if w.len() == 0 {
        0
    } else if unicode::is_uppercase(w.last()) {
        capitals(w.drop_last()) + 1
    } else {
        capitals(w.drop_last())
    }
}

/// Two to six characters, all uppercase letters and ASCII digits, with one to five letters.
pub open spec fn acronym_shaped(w: Seq<char>) -> bool {
    &&& 2 <= w.len() <= 6
    &&& forall|i: int|
        0 <= i < w.len() ==> unicode::is_uppercase(#[trigger] w[i]) || unicode::is_ascii_digit(w[i])
    &&& 1 <= capitals(w) <= 5
}

/// `s` without a leading `v` or `V`.
pub open spec fn without_v(s: Seq<char>) -> Seq<char> {
    if s.len() > 0 && (s[0] == 'v' || s[0] == 'V') {
        s.skip(1)
    } else {
        s
    }
}

/// After an optional `v`: a digit first, a dot somewhere, and nothing but ASCII letters and
/// digits, dots and hyphens.
pub open spec fn version_shaped(s: Seq<char>) -> bool {
    let d = without_v(s);
    &&& d.len() > 0
    &&& unicode::is_ascii_digit(d[0])
    &&& d.contains('.')
    &&& forall|i: int|
        0 <= i < d.len() ==> unicode::is_ascii_alphanumeric(#[trigger] d[i]) || d[i] == '.' || d[i]
            == '-'
}

/// Whether a word is CamelCase (PostgreSQL, FastAPI, GraphQL, RocksDB). An uppercase letter after
/// the first character is required, and a lowercase one, which tells such a word from an acronym.
pub fn is_camel_case(word: &str) -> (r: bool)
    ensures
        r == camel_cased(word@),
{
    if text::byte_len(word) < 3 {
        return false;
    }
    let w = text::chars_of(word);
    assert(w.len() > 0);
    if !w[0].is_uppercase() {
        return false;
    }
    let mut has_lower = false;
    let mut has_upper_after_first = false;
    for i in 1..w.len()
        invariant
            w@ == word@,
            has_lower <==> exists|j: int| 1 <= j < i && unicode::is_lowercase(#[trigger] w@[j]),
            has_upper_after_first <==> exists|j: int|
                1 <= j < i && unicode::is_uppercase(#[trigger] w@[j]) && !unicode::is_lowercase(
                    w@[j],
                ),
    {
        let c = w[i];
        assert(w@[i as int] == c);
        if c.is_lowercase() {
            has_lower = true;
        } else if c.is_uppercase() {
            has_upper_after_first = true;
        }
    }
    has_lower && has_upper_after_first
}

/// Whether a word is an acronym: up to five uppercase letters, optionally with digits, and two to six
/// characters in all.
pub fn is_acronym(word: &str) -> (r: bool)
    ensures
        r == acronym_shaped(word@),
{
    let w = text::chars_of(word);
    if w.len() < 2 || w.len() > 6 {
        return false;
    }
    let mut letters: usize = 0;
    for i in 0..w.len()
        invariant
            w@ == word@,
            forall|j: int|
                0 <= j < i ==> unicode::is_uppercase(#[trigger] w@[j]) || unicode::is_ascii_digit(
                    w@[j],
                ),
            letters <= i,
            letters == capitals(w@.take(i as int)),
    {
        let c = w[i];
        assert(w@[i as int] == c);
        assert(w@.take(i + 1).drop_last() == w@.take(i as int));
        assert(w@.take(i + 1).last() == c);
        if c.is_uppercase() {
            letters += 1;
        } else if !('0' <= c && c <= '9') {
            return false;
        }
    }
    assert(w@.take(w@.len() as int) == w@);
    1 <= letters && letters <= 5
}

/// Whether a text looks like a version number: v1.2.3, 2.0.0, 1.0.0-rc1 and the like.
pub fn is_version_number(s: &str) -> (r: bool)
    ensures
        r == version_shaped(s@),
{
    let chars = text::chars_of(s);
    let from: usize = if chars.len() > 0 && (chars[0] == 'v' || chars[0] == 'V') {
        1
    } else {
        0
    };
    let ghost d = without_v(s@);
    assert(d == s@.skip(from as int));
    if from >= chars.len() {
        return false;
    }
    assert(d[0] == chars@[from as int]);
    if !('0' <= chars[from] && chars[from] <= '9') {
        return false;
    }
    let mut has_dot = false;
    for i in from..chars.len()
        invariant
            chars@ == s@,
            from <= chars.len(),
            d == without_v(s@),
            d == s@.skip(from as int),
            has_dot <==> exists|j: int| 0 <= j < i - from && #[trigger] d[j] == '.',
            forall|j: int|
                0 <= j < i - from ==> unicode::is_ascii_alphanumeric(#[trigger] d[j]) || d[j]
                    == '.' || d[j] == '-',
    {
        let c = chars[i];
        assert(d[i - from] == c);
        if c == '.' {
            has_dot = true;
        } else if !(('0' <= c && c <= '9') || ('A' <= c && c <= 'Z') || ('a' <= c && c <= 'z') || c
            == '-') {
            return false;
        }
    }
    has_dot
}

/// Whether a letter after the first is lowercase and not uppercase as well, as any lowercase ASCII
/// letter is.
pub open spec fn has_plain_lowercase(w: Seq<char>) -> bool {
    exists|i: int|
        1 <= i < w.len() && unicode::is_lowercase(#[trigger] w[i]) && !unicode::is_uppercase(w[i])
}

/// A CamelCase word is no acronym: it has a lowercase letter, and one that is not uppercase as well
/// cannot stand in an acronym.
pub proof fn law_camel_case_is_no_acronym(w: Seq<char>)
    requires
        camel_cased(w),
        has_plain_lowercase(w),
    ensures
        !acronym_shaped(w),
{
    let i = choose|i: int|
        1 <= i < w.len() && unicode::is_lowercase(#[trigger] w[i]) && !unicode::is_uppercase(w[i]);
    assert(!unicode::is_ascii_digit(w[i]));
}

/// A CamelCase word stays CamelCase, whatever is appended to it.
pub proof fn law_camel_case_can_grow(w: Seq<char>, s: Seq<char>)
    requires
        camel_cased(w),
    ensures
        camel_cased(w + s),
{
    let grown = w + s;
    text::lemma_utf8_len_add(w, s);
    let low = choose|i: int| 1 <= i < w.len() && unicode::is_lowercase(#[trigger] w[i]);
    let up = choose|i: int|
        1 <= i < w.len() && unicode::is_uppercase(#[trigger] w[i]) && !unicode::is_lowercase(w[i]);
    assert(grown[0] == w[0]);
    assert(grown[low] == w[low]);
    assert(grown[up] == w[up]);
}

/// A CamelCase word is one of three or more characters, of which the first is uppercase, a later one
/// is lowercase and another later one uppercase.
pub proof fn law_camel_case_shape(w: Seq<char>)
    ensures
        camel_cased(w) <==> {
            &&& w.len() >= 3
            &&& unicode::is_uppercase(w[0])
            &&& exists|i: int, j: int|
                1 <= i < w.len() && 1 <= j < w.len() && unicode::is_lowercase(#[trigger] w[i])
                    && unicode::is_uppercase(#[trigger] w[j]) && !unicode::is_lowercase(w[j])
        },
{
    text::lemma_utf8_len_at_least(w);
    if camel_cased(w) {
        let i = choose|i: int| 1 <= i < w.len() && unicode::is_lowercase(#[trigger] w[i]);
        let j = choose|j: int|
            1 <= j < w.len() && unicode::is_uppercase(#[trigger] w[j]) && !unicode::is_lowercase(
                w[j],
            );
        assert(i != j);
        assert(unicode::is_lowercase(w[i]) && unicode::is_uppercase(w[j]));
    }
}

proof fn lemma_capitals(w: Seq<char>)
    ensures
        capitals(w) <= w.len(),
        capitals(w) >= 1 <==> exists|i: int| 0 <= i < w.len() && unicode::is_uppercase(#[trigger] w[i]),
        capitals(w) == w.len() <==> forall|i: int|
            0 <= i < w.len() ==> unicode::is_uppercase(#[trigger] w[i]),
    decreases w.len(),
{
    if w.len() > 0 {
        let d = w.drop_last();
        lemma_capitals(d);
        assert(w[w.len() - 1] == w.last());
        if capitals(d) >= 1 {
            let i = choose|i: int| 0 <= i < d.len() && unicode::is_uppercase(#[trigger] d[i]);
            assert(unicode::is_uppercase(w[i]));
        }
        if exists|i: int| 0 <= i < w.len() && unicode::is_uppercase(#[trigger] w[i]) {
            let i = choose|i: int| 0 <= i < w.len() && unicode::is_uppercase(#[trigger] w[i]);
            if i < d.len() {
                assert(unicode::is_uppercase(d[i]));
            }
        }
        if capitals(w) == w.len() {
            assert forall|i: int| 0 <= i < w.len() implies unicode::is_uppercase(#[trigger] w[i]) by {
                if i < d.len() {
                    assert(unicode::is_uppercase(d[i]));
                }
            }
        }
        if forall|i: int| 0 <= i < w.len() ==> unicode::is_uppercase(#[trigger] w[i]) {
            assert forall|i: int| 0 <= i < d.len() implies unicode::is_uppercase(#[trigger] d[i]) by {
                assert(unicode::is_uppercase(w[i]));
            }
        }
    }
}

/// An acronym has two to six characters, each an uppercase letter or a digit, at least one letter, and
/// at least one digit where it has six.
pub proof fn law_acronym_shape(w: Seq<char>)
    ensures
        acronym_shaped(w) <==> {
            &&& 2 <= w.len() <= 6
            &&& forall|i: int|
                0 <= i < w.len() ==> unicode::is_uppercase(#[trigger] w[i]) || '0' <= w[i] <= '9'
            &&& exists|i: int| 0 <= i < w.len() && unicode::is_uppercase(#[trigger] w[i])
            &&& w.len() == 6 ==> exists|i: int| 0 <= i < 6 && !unicode::is_uppercase(#[trigger] w[i])
        },
{
    lemma_capitals(w);
}

/// A version number starts with a digit, after one `v` or `V` that may be there, has a dot, and holds
/// nothing but ASCII letters, digits, dots and hyphens.
pub proof fn law_version_shape(s: Seq<char>, d: Seq<char>)
    requires
        s == seq!['v'] + d || s == seq!['V'] + d || (s == d && (d.len() > 0 ==> d[0] != 'v' && d[0]
            != 'V')),
    ensures
        version_shaped(s) <==> {
            &&& d.len() > 0
            &&& '0' <= d[0] <= '9'
            &&& exists|i: int| 0 < i < d.len() && #[trigger] d[i] == '.'
            &&& forall|i: int|
                0 <= i < d.len() ==> {
                    ||| '0' <= #[trigger] d[i] <= '9'
                    ||| 'A' <= d[i] <= 'Z'
                    ||| 'a' <= d[i] <= 'z'
                    ||| d[i] == '.'
                    ||| d[i] == '-'
                }
        },
{
    assert(without_v(s) =~= d);
    if version_shaped(s) {
        let i = choose|i: int| 0 <= i < d.len() && d[i] == '.';
        assert(d[i] == '.');
        assert forall|j: int| 0 <= j < d.len() implies {
            ||| '0' <= #[trigger] d[j] <= '9'
            ||| 'A' <= d[j] <= 'Z'
            ||| 'a' <= d[j] <= 'z'
            ||| d[j] == '.'
            ||| d[j] == '-'
        } by {
            assert(unicode::is_ascii_alphanumeric(d[j]) || d[j] == '.' || d[j] == '-');
        }
    }
}

} // verus!
