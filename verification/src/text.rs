//! Text as sequences of characters: words, trimming, searching and joining.

use crate::unicode;
use vstd::prelude::*;
use vstd::utf8;

verus! {

/// The number of bytes that a text takes in UTF-8.
pub open spec fn utf8_len(s: Seq<char>) -> nat {
    utf8::encode_utf8(s).len()
}

/// The maximal runs of characters that are not white space, in order.
pub open spec fn words(s: Seq<char>) -> Seq<Seq<char>>
    decreases s.len(),
{
    if s.len() == 0 {
        Seq::empty()
    } else {
        let before = words(s.drop_last());
        if unicode::is_whitespace(s.last()) {
            before
        } else if s.len() == 1 || unicode::is_whitespace(s[s.len() - 2]) {
            before.push(seq![s.last()])
        } else {
            before.drop_last().push(before.last().push(s.last()))
        }
    }
}

/// A text with nothing but white space.
pub open spec fn is_blank(s: Seq<char>) -> bool {
    forall|i: int| 0 <= i < s.len() ==> unicode::is_whitespace(#[trigger] s[i])
}

/// The character sets that are stripped from the ends of a text.
#[derive(Clone, Copy)]
pub enum Strip {
    /// All but letters, numbers and hyphens.
    NonWord,
    /// All but letters and numbers.
    NonAlphanumeric,
    /// All but letters, numbers and the punctuation of mail addresses.
    NonAddress,
    /// Round and angle brackets and quotes.
    UrlWrapping,
    /// Quotes, round brackets and commas.
    PathWrapping,
    /// Round brackets, commas and semicolons.
    VersionWrapping,
    /// `[`.
    OpeningBracket,
    /// `]`.
    ClosingBracket,
}

impl Strip {
    /// Whether the set holds `c`.
    pub open spec fn spec_holds(self, c: char) -> bool {
        match self {
            Strip::NonWord => !unicode::is_alphanumeric(c) && c != '-',
            Strip::NonAlphanumeric => !unicode::is_alphanumeric(c),
            Strip::NonAddress => !unicode::is_alphanumeric(c) && c != '@' && c != '.' && c != '-'
                && c != '_' && c != '+',
            Strip::UrlWrapping => c == '(' || c == ')' || c == '<' || c == '>' || c == '"' || c
                == '\'',
            Strip::PathWrapping => c == '"' || c == '\'' || c == '`' || c == '(' || c == ')' || c
                == ',',
            Strip::VersionWrapping => c == '(' || c == ')' || c == ',' || c == ';',
            Strip::OpeningBracket => c == '[',
            Strip::ClosingBracket => c == ']',
        }
    }

    /// Whether the set holds `c`.
    #[verifier::when_used_as_spec(spec_holds)]
    pub fn holds(self, c: char) -> (b: bool)
        ensures
            b == self.spec_holds(c),
    {
        match self {
            Strip::NonWord => !c.is_alphanumeric() && c != '-',
            Strip::NonAlphanumeric => !c.is_alphanumeric(),
            Strip::NonAddress => !c.is_alphanumeric() && c != '@' && c != '.' && c != '-' && c
                != '_' && c != '+',
            Strip::UrlWrapping => c == '(' || c == ')' || c == '<' || c == '>' || c == '"' || c
                == '\'',
            Strip::PathWrapping => c == '"' || c == '\'' || c == '`' || c == '(' || c == ')' || c
                == ',',
            Strip::VersionWrapping => c == '(' || c == ')' || c == ',' || c == ';',
            Strip::OpeningBracket => c == '[',
            Strip::ClosingBracket => c == ']',
        }
    }
}

/// `s` without the characters of `set` that it starts with.
pub open spec fn trim_start(s: Seq<char>, set: Strip) -> Seq<char>
    decreases s.len(),
{
    if s.len() > 0 && set.holds(s.first()) {
        trim_start(s.drop_first(), set)
    } else {
        s
    }
}

/// `s` without the characters of `set` that it ends with.
pub open spec fn trim_end(s: Seq<char>, set: Strip) -> Seq<char>
    decreases s.len(),
{
    if s.len() > 0 && set.holds(s.last()) {
        trim_end(s.drop_last(), set)
    } else {
        s
    }
}

/// `s` without the characters of `set` at either end.
pub open spec fn trim(s: Seq<char>, set: Strip) -> Seq<char> {
    trim_end(trim_start(s, set), set)
}

/// The parts with one space between each two.
pub open spec fn join_with_spaces(parts: Seq<Seq<char>>) -> Seq<char>
    decreases parts.len(),
{
    if parts.len() == 0 {
        Seq::empty()
    } else if parts.len() == 1 {
        parts[0]
    } else {
        join_with_spaces(parts.drop_last()) + seq![' '] + parts.last()
    }
}

/// The views of a list of strings.
pub open spec fn views(v: Seq<String>) -> Seq<Seq<char>> {
    v.map_values(|s: String| s@)
}

/// Whether `pattern` stands in `s` at `i`.
pub open spec fn occurs_at(s: Seq<char>, pattern: Seq<char>, i: int) -> bool {
    &&& 0 <= i
    &&& i + pattern.len() <= s.len()
    &&& s.subrange(i, i + pattern.len()) == pattern
}

/// The first position from `i` on at which `pattern` stands in `s`.
pub open spec fn find_from(s: Seq<char>, pattern: Seq<char>, i: int) -> Option<int>
    decreases s.len() + 1 - i,
{
    if i < 0 || i + pattern.len() > s.len() {
        None
    } else if occurs_at(s, pattern, i) {
        Some(i)
    } else {
        find_from(s, pattern, i + 1)
    }
}

/// The first position at which `pattern` stands in `s`.
pub open spec fn find(s: Seq<char>, pattern: Seq<char>) -> Option<int> {
    find_from(s, pattern, 0)
}

proof fn lemma_find_from_in_range(s: Seq<char>, pattern: Seq<char>, i: int)
    requires
        0 <= i,
    ensures
        match find_from(s, pattern, i) {
            Some(k) => i <= k && occurs_at(s, pattern, k) && forall|j: int|
                i <= j < k ==> !#[trigger] occurs_at(s, pattern, j),
            None => forall|j: int| i <= j ==> !#[trigger] occurs_at(s, pattern, j),
        },
    decreases s.len() + 1 - i,
{
    if i + pattern.len() <= s.len() && !occurs_at(s, pattern, i) {
        lemma_find_from_in_range(s, pattern, i + 1);
    }
}

/// `find` gives the first position at which the pattern stands, if there is one.
pub proof fn lemma_find_in_range(s: Seq<char>, pattern: Seq<char>)
    ensures
        match find(s, pattern) {
            Some(k) => occurs_at(s, pattern, k) && forall|j: int|
                0 <= j < k ==> !#[trigger] occurs_at(s, pattern, j),
            None => forall|j: int| !#[trigger] occurs_at(s, pattern, j),
        },
{
    lemma_find_from_in_range(s, pattern, 0);
}

/// The parts of `s` between the separators, of which there is always at least one.
pub open spec fn split_on(s: Seq<char>, separator: char) -> Seq<Seq<char>>
    decreases s.len(),
{
    if s.len() == 0 {
        seq![Seq::empty()]
    } else {
        let before = split_on(s.drop_last(), separator);
        if s.last() == separator {
            before.push(Seq::empty())
        } else {
            before.drop_last().push(before.last().push(s.last()))
        }
    }
}

/// Every character of a text is a separator or stands in a part.
pub proof fn lemma_split_covers(s: Seq<char>, separator: char, i: int) -> (k: int)
    requires
        0 <= i < s.len(),
        s[i] != separator,
    ensures
        0 <= k < split_on(s, separator).len(),
        split_on(s, separator)[k].contains(s[i]),
    decreases s.len(),
{
    lemma_split_has_part(s.drop_last(), separator);
    let before = split_on(s.drop_last(), separator);
    let parts = split_on(s, separator);
    if i == s.len() - 1 {
        let k = parts.len() - 1;
        assert(parts[k][parts[k].len() - 1] == s[i]);
        k
    } else {
        let k = lemma_split_covers(s.drop_last(), separator, i);
        if k < before.len() - 1 {
            assert(parts[k] == before[k]);
        } else if s.last() == separator {
            assert(parts[k] == before[k]);
        } else {
            let at = choose|at: int| 0 <= at < before[k].len() && before[k][at] == s[i];
            assert(parts[k][at] == s[i]);
        }
        k
    }
}

/// Even an empty text has one part.
pub proof fn lemma_split_has_part(s: Seq<char>, separator: char)
    ensures
        split_on(s, separator).len() > 0,
    decreases s.len(),
{
    if s.len() > 0 {
        lemma_split_has_part(s.drop_last(), separator);
    }
}

/// A text without separators is its own only part.
pub proof fn lemma_split_single(s: Seq<char>, separator: char)
    requires
        !s.contains(separator),
    ensures
        split_on(s, separator) == seq![s],
    decreases s.len(),
{
    if s.len() == 0 {
        assert(s =~= Seq::empty());
    } else {
        let shorter = s.drop_last();
        assert forall|i: int| 0 <= i < shorter.len() implies shorter[i] != separator by {
            assert(s.contains(s[i]));
        }
        lemma_split_single(shorter, separator);
        assert(s.contains(s.last()));
        assert(shorter.push(s.last()) =~= s);
        assert(split_on(s, separator) =~= seq![s]);
    }
}

/// The parts on either side of a separator are the parts of the whole.
pub proof fn lemma_split_joined(a: Seq<char>, b: Seq<char>, separator: char)
    ensures
        split_on(a + seq![separator] + b, separator) == split_on(a, separator) + split_on(
            b,
            separator,
        ),
    decreases b.len(),
{
    let whole = a + seq![separator] + b;
    let left = split_on(a, separator);
    if b.len() == 0 {
        assert(whole.drop_last() =~= a);
        assert(whole.last() == separator);
        assert(split_on(whole, separator) =~= left + seq![Seq::<char>::empty()]);
    } else {
        let shorter = b.drop_last();
        lemma_split_joined(a, shorter, separator);
        lemma_split_has_part(shorter, separator);
        assert(whole.drop_last() =~= a + seq![separator] + shorter);
        assert(whole.last() == b.last());
        assert(split_on(whole, separator) =~= left + split_on(b, separator));
    }
}

/// The contents of a list of character vectors.
pub open spec fn rows(v: Seq<Vec<char>>) -> Seq<Seq<char>> {
    v.map_values(|w: Vec<char>| w@)
}

/// The characters of `s`, in order.
pub fn chars_of(s: &str) -> (v: Vec<char>)
    ensures
        v@ == s@,
{
    let mut v: Vec<char> = Vec::new();
    for c in it: s.chars()
        invariant
            v.len() == it.index(),
            it.seq() == s@,
            forall|i: int| 0 <= i < v.len() ==> v@[i] == it.seq()[i],
    {
        v.push(c);
    }
    v
}

/// The text made of the characters of `s`.
pub fn string_of(s: &[char]) -> (r: String)
    ensures
        r@ == s@,
{
    let mut r = String::new();
    for i in 0..s.len()
        invariant
            r@ == s@.take(i as int),
    {
        r.push(s[i]);
        assert(s@.take(i + 1) == s@.take(i as int).push(s@[i as int]));
    }
    assert(s@.take(s@.len() as int) == s@);
    r
}

/// The number of bytes that `s` takes in UTF-8.
pub fn byte_len(s: &str) -> (n: usize)
    ensures
        n == utf8_len(s@),
{
    s.as_bytes().len()
}

/// Whether two runs of characters are equal.
pub fn same_chars(a: &[char], b: &[char]) -> (r: bool)
    ensures
        r == (a@ == b@),
{
    if a.len() != b.len() {
        return false;
    }
    for i in 0..a.len()
        invariant
            a.len() == b.len(),
            forall|j: int| 0 <= j < i ==> a@[j] == b@[j],
    {
        if a[i] != b[i] {
            return false;
        }
    }
    assert(a@ =~= b@);
    true
}

/// Whether `s` holds nothing but white space.
pub fn blank(s: &str) -> (r: bool)
    ensures
        r == is_blank(s@),
{
    let chars = chars_of(s);
    for i in 0..chars.len()
        invariant
            chars@ == s@,
            forall|j: int| 0 <= j < i ==> unicode::is_whitespace(#[trigger] s@[j]),
    {
        if !chars[i].is_whitespace() {
            assert(!unicode::is_whitespace(s@[i as int]));
            return false;
        }
    }
    true
}

/// The words of `s`: its maximal runs of characters that are not white space.
pub fn split_words(s: &[char]) -> (r: Vec<Vec<char>>)
    ensures
        rows(r@) == words(s@),
{
    let mut done: Vec<Vec<char>> = Vec::new();
    let mut current: Vec<char> = Vec::new();
    for i in 0..s.len()
        invariant
            current.len() > 0 <==> (i > 0 && !unicode::is_whitespace(s@[i - 1])),
            words(s@.take(i as int)) == if current.len() > 0 {
                rows(done@).push(current@)
            } else {
                rows(done@)
            },
    {
        let c = s[i];
        let ghost taken = s@.take(i + 1);
        assert(taken.drop_last() == s@.take(i as int));
        assert(taken.last() == c);
        assert(i > 0 ==> taken[taken.len() - 2] == s@[i - 1]);
        if c.is_whitespace() {
            if current.len() > 0 {
                let ghost finished = done@;
                done.push(current);
                assert(rows(done@) == rows(finished).push(current@));
                current = Vec::new();
            }
        } else {
            let ghost before = current@;
            current.push(c);
            assert(rows(done@).push(before).drop_last() == rows(done@));
            assert(before.len() == 0 ==> current@ == seq![c]);
        }
    }
    assert(s@.take(s@.len() as int) == s@);
    if current.len() > 0 {
        let ghost finished = done@;
        done.push(current);
        assert(rows(done@) == rows(finished).push(current@));
    }
    done
}

/// `s` without the characters of `set` that it starts with.
pub fn trimmed_start(s: &[char], set: Strip) -> (r: &[char])
    ensures
        r@ == trim_start(s@, set),
{
    let mut from: usize = 0;
    assert(s@.skip(0) == s@);
    while from < s.len() && set.holds(s[from])
        invariant
            from <= s.len(),
            trim_start(s@, set) == trim_start(s@.skip(from as int), set),
        decreases s.len() - from,
    {
        assert(s@.skip(from as int).drop_first() == s@.skip(from + 1));
        from += 1;
    }
    let r = vstd::slice::slice_subrange(s, from, s.len());
    assert(r@ == s@.skip(from as int));
    r
}

/// `s` without the characters of `set` that it ends with.
pub fn trimmed_end(s: &[char], set: Strip) -> (r: &[char])
    ensures
        r@ == trim_end(s@, set),
{
    let mut to: usize = s.len();
    assert(s@.take(to as int) == s@);
    while to > 0 && set.holds(s[to - 1])
        invariant
            to <= s.len(),
            trim_end(s@, set) == trim_end(s@.take(to as int), set),
        decreases to,
    {
        assert(s@.take(to as int).drop_last() == s@.take(to - 1));
        to -= 1;
    }
    let r = vstd::slice::slice_subrange(s, 0, to);
    assert(r@ == s@.take(to as int));
    r
}

/// `s` without the characters of `set` at either end.
pub fn trimmed(s: &[char], set: Strip) -> (r: &[char])
    ensures
        r@ == trim(s@, set),
{
    trimmed_end(trimmed_start(s, set), set)
}

/// Whether `pattern` stands in `s` at `i`.
pub fn stands_at(s: &[char], pattern: &[char], i: usize) -> (r: bool)
    ensures
        r == occurs_at(s@, pattern@, i as int),
{
    if i > s.len() || pattern.len() > s.len() - i {
        return false;
    }
    same_chars(vstd::slice::slice_subrange(s, i, i + pattern.len()), pattern)
}

/// The first position at which `pattern` stands in `s`.
pub fn position_of(s: &[char], pattern: &[char]) -> (r: Option<usize>)
    ensures
        match r {
            Some(i) => find(s@, pattern@) == Some(i as int),
            None => find(s@, pattern@) is None,
        },
{
    let mut i: usize = 0;
    while pattern.len() <= s.len() - i
        invariant
            i <= s.len(),
            find(s@, pattern@) == find_from(s@, pattern@, i as int),
        decreases s.len() + 1 - i,
    {
        if stands_at(s, pattern, i) {
            return Some(i);
        }
        assert(i < s.len()) by {
            assert(i == s.len() ==> s@.subrange(i as int, i + pattern@.len()) == pattern@);
        }
        i += 1;
    }
    None
}

/// The position of the first `c` in `s`.
pub fn first_of(s: &[char], c: char) -> (r: Option<usize>)
    ensures
        match r {
            Some(i) => s@.index_of_first(c) == Some(i as int),
            None => s@.index_of_first(c) is None,
        },
{
    proof {
        s@.index_of_first_ensures(c);
    }
    for i in 0..s.len()
        invariant
            forall|j: int| 0 <= j < i ==> s@[j] != c,
    {
        if s[i] == c {
            proof {
                s@.index_of_first_ensures(c);
            }
            return Some(i);
        }
    }
    None
}

/// The position of the last `c` in `s`.
pub fn last_of(s: &[char], c: char) -> (r: Option<usize>)
    ensures
        match r {
            Some(i) => s@.index_of_last(c) == Some(i as int),
            None => s@.index_of_last(c) is None,
        },
{
    proof {
        s@.index_of_last_ensures(c);
    }
    let mut i: usize = s.len();
    while i > 0
        invariant
            i <= s.len(),
            forall|j: int| i <= j < s.len() ==> s@[j] != c,
        decreases i,
    {
        i -= 1;
        if s[i] == c {
            proof {
                s@.index_of_last_ensures(c);
            }
            return Some(i);
        }
    }
    None
}

/// The parts of `s` between the separators.
pub fn split(s: &[char], separator: char) -> (r: Vec<Vec<char>>)
    ensures
        rows(r@) == split_on(s@, separator),
        r.len() > 0,
{
    let mut done: Vec<Vec<char>> = Vec::new();
    let mut current: Vec<char> = Vec::new();
    assert(rows(done@).push(current@) == seq![Seq::<char>::empty()]);
    for i in 0..s.len()
        invariant
            split_on(s@.take(i as int), separator) == rows(done@).push(current@),
    {
        let c = s[i];
        let ghost taken = s@.take(i + 1);
        assert(taken.drop_last() == s@.take(i as int));
        assert(taken.last() == c);
        if c == separator {
            let ghost finished = done@;
            done.push(current);
            assert(rows(done@) == rows(finished).push(current@));
            current = Vec::new();
        } else {
            let ghost before = current@;
            current.push(c);
            assert(rows(done@).push(before).drop_last() == rows(done@));
        }
    }
    assert(s@.take(s@.len() as int) == s@);
    let ghost finished = done@;
    done.push(current);
    assert(rows(done@) == rows(finished).push(current@));
    done
}

/// Whether the text `w` is in the list.
pub open spec fn in_list(w: Seq<char>, list: Seq<String>) -> bool {
    exists|k: int| 0 <= k < list.len() && #[trigger] list[k]@ == w
}

/// Whether `w` is in the list.
pub fn has_string(list: &Vec<String>, w: &String) -> (r: bool)
    ensures
        r == in_list(w@, list@),
{
    for i in 0..list.len()
        invariant
            forall|k: int| 0 <= k < i ==> #[trigger] list@[k]@ != w@,
    {
        if list[i] == *w {
            return true;
        }
    }
    false
}

/// The bytes of two texts add up.
pub proof fn lemma_utf8_len_add(a: Seq<char>, b: Seq<char>)
    ensures
        utf8_len(a + b) == utf8_len(a) + utf8_len(b),
    decreases a.len(),
{
    if a.len() == 0 {
        assert(a + b =~= b);
    } else {
        assert((a + b).drop_first() =~= a.drop_first() + b);
        assert((a + b)[0] == a[0]);
        lemma_utf8_len_add(a.drop_first(), b);
    }
}

/// Whether two texts differ at most in the case of ASCII letters.
pub fn same_but_case(a: &[char], b: &[char]) -> (r: bool)
    ensures
        r == unicode::same_ignoring_ascii_case(a@, b@),
{
    let ghost low_a = unicode::ascii_lowercase(a@);
    let ghost low_b = unicode::ascii_lowercase(b@);
    if a.len() != b.len() {
        assert(low_a.len() != low_b.len());
        return false;
    }
    for i in 0..a.len()
        invariant
            a.len() == b.len(),
            low_a == unicode::ascii_lowercase(a@),
            low_b == unicode::ascii_lowercase(b@),
            forall|j: int| 0 <= j < i ==> #[trigger] low_a[j] == low_b[j],
    {
        assert(low_a[i as int] == unicode::ascii_lower(a@[i as int]));
        assert(low_b[i as int] == unicode::ascii_lower(b@[i as int]));
        if ascii_lowered(a[i]) != ascii_lowered(b[i]) {
            return false;
        }
    }
    assert(low_a =~= low_b);
    true
}

/// `A` to `Z` become `a` to `z`; every other character stays.
pub fn ascii_lowered(c: char) -> (r: char)
    ensures
        r == unicode::ascii_lower(c),
{
    if 'A' <= c && c <= 'Z' {
        ((c as u8) + 32) as char
    } else {
        c
    }
}

/// The sets that are stripped, character by character. A kept letter is an ASCII letter or digit, or
/// what the standard library's tables say beyond ASCII.
pub proof fn law_strip_sets(c: char)
    ensures
        Strip::NonAlphanumeric.holds(c) <==> !(('0' <= c <= '9') || ('A' <= c <= 'Z') || ('a' <= c
            <= 'z') || (c > '\x7f' && unicode::wide_alphanumeric(c))),
        Strip::NonWord.holds(c) <==> Strip::NonAlphanumeric.holds(c) && c != '-',
        Strip::NonAddress.holds(c) <==> Strip::NonAlphanumeric.holds(c) && !seq![
            '@',
            '.',
            '-',
            '_',
            '+',
        ].contains(c),
        Strip::UrlWrapping.holds(c) <==> seq!['(', ')', '<', '>', '"', '\''].contains(c),
        Strip::PathWrapping.holds(c) <==> seq!['"', '\'', '`', '(', ')', ','].contains(c),
        Strip::VersionWrapping.holds(c) <==> seq!['(', ')', ',', ';'].contains(c),
        Strip::OpeningBracket.holds(c) <==> c == '[',
        Strip::ClosingBracket.holds(c) <==> c == ']',
{
    let address = seq!['@', '.', '-', '_', '+'];
    assert(address[0] == '@' && address[1] == '.' && address[2] == '-' && address[3] == '_'
        && address[4] == '+');
    let url = seq!['(', ')', '<', '>', '"', '\''];
    assert(url[0] == '(' && url[1] == ')' && url[2] == '<' && url[3] == '>' && url[4] == '"'
        && url[5] == '\'');
    let path = seq!['"', '\'', '`', '(', ')', ','];
    assert(path[0] == '"' && path[1] == '\'' && path[2] == '`' && path[3] == '(' && path[4] == ')'
        && path[5] == ',');
    let version = seq!['(', ')', ',', ';'];
    assert(version[0] == '(' && version[1] == ')' && version[2] == ',' && version[3] == ';');
}

/// What is stripped at the start is exactly what the set holds there.
pub proof fn law_stripping_at_the_start(a: Seq<char>, s: Seq<char>, set: Strip)
    requires
        forall|i: int| 0 <= i < a.len() ==> set.holds(#[trigger] a[i]),
        s.len() > 0 ==> !set.holds(s[0]),
    ensures
        trim_start(a + s, set) == s,
    decreases a.len(),
{
    if a.len() == 0 {
        assert(a + s =~= s);
    } else {
        assert((a + s)[0] == a[0]);
        assert((a + s).drop_first() =~= a.drop_first() + s);
        law_stripping_at_the_start(a.drop_first(), s, set);
    }
}

/// What is stripped at the end is exactly what the set holds there.
pub proof fn law_stripping_at_the_end(s: Seq<char>, b: Seq<char>, set: Strip)
    requires
        forall|i: int| 0 <= i < b.len() ==> set.holds(#[trigger] b[i]),
        s.len() > 0 ==> !set.holds(s.last()),
    ensures
        trim_end(s + b, set) == s,
    decreases b.len(),
{
    if b.len() == 0 {
        assert(s + b =~= s);
    } else {
        assert((s + b).last() == b.last());
        assert((s + b).drop_last() =~= s + b.drop_last());
        law_stripping_at_the_end(s, b.drop_last(), set);
    }
}

/// What is stripped at either end is exactly what the set holds there: a core that neither starts
/// nor ends with a character of the set comes back from whatever characters of the set are put around
/// it.
pub proof fn law_stripping_finds_the_core(a: Seq<char>, core: Seq<char>, b: Seq<char>, set: Strip)
    requires
        forall|i: int| 0 <= i < a.len() ==> set.holds(#[trigger] a[i]),
        forall|i: int| 0 <= i < b.len() ==> set.holds(#[trigger] b[i]),
        core.len() > 0 ==> !set.holds(core[0]) && !set.holds(core.last()),
    ensures
        trim(a + core + b, set) == core,
{
    if core.len() > 0 {
        assert(a + core + b =~= a + (core + b));
        law_stripping_at_the_start(a, core + b, set);
        law_stripping_at_the_end(core, b, set);
    } else {
        assert(a + core + b =~= a + b + Seq::<char>::empty());
        assert forall|i: int| 0 <= i < (a + b).len() implies set.holds(#[trigger] (a + b)[i]) by {
            if i >= a.len() {
                assert(set.holds(b[i - a.len()]));
            }
        }
        law_stripping_at_the_start(a + b, Seq::empty(), set);
        assert(core =~= Seq::empty());
    }
}

/// A text is blank if and only if it has no character that is not white space, so blank texts put
/// together are blank and a blank text has blank parts.
pub proof fn law_blank_texts(a: Seq<char>, b: Seq<char>, c: char)
    ensures
        is_blank(Seq::empty()),
        is_blank(a + b) <==> is_blank(a) && is_blank(b),
        is_blank(seq![c]) <==> unicode::is_whitespace(c),
{
    let s = a + b;
    if is_blank(s) {
        assert forall|i: int| 0 <= i < a.len() implies unicode::is_whitespace(#[trigger] a[i]) by {
            assert(unicode::is_whitespace(s[i]));
        }
        assert forall|i: int| 0 <= i < b.len() implies unicode::is_whitespace(#[trigger] b[i]) by {
            assert(unicode::is_whitespace(s[a.len() + i]));
        }
    }
    if is_blank(seq![c]) {
        assert(unicode::is_whitespace(seq![c][0]));
    }
}

/// A blank text has no words.
pub proof fn law_blank_text_has_no_words(s: Seq<char>)
    requires
        is_blank(s),
    ensures
        words(s) == Seq::<Seq<char>>::empty(),
    decreases s.len(),
{
    if s.len() > 0 {
        assert(is_blank(s.drop_last()));
        assert(unicode::is_whitespace(s[s.len() - 1]));
        law_blank_text_has_no_words(s.drop_last());
    }
}

proof fn lemma_last_word(s: Seq<char>)
    requires
        s.len() > 0,
        !unicode::is_whitespace(s.last()),
    ensures
        words(s).len() > 0,
{
}

/// A run of characters without white space, between white space or the ends of the text, is a word,
/// and the other words are those before and after it.
pub proof fn law_words_are_runs(x: Seq<char>, w: Seq<char>, y: Seq<char>)
    requires
        w.len() > 0,
        forall|i: int| 0 <= i < w.len() ==> !unicode::is_whitespace(#[trigger] w[i]),
        x.len() > 0 ==> unicode::is_whitespace(x.last()),
        y.len() > 0 ==> unicode::is_whitespace(y[0]),
    ensures
        words(x + w + y) == words(x) + seq![w] + words(y),
    decreases y.len(), w.len(),
{
    let s = x + w + y;
    let expected = words(x) + seq![w] + words(y);
    if y.len() == 0 {
        let c = w.last();
        let shorter = w.drop_last();
        assert(s.last() == c);
        assert(!unicode::is_whitespace(w[w.len() - 1]));
        if shorter.len() == 0 {
            assert(s.drop_last() =~= x);
            assert(w =~= seq![c]);
            assert(words(s) =~= expected);
        } else {
            assert(s.drop_last() =~= x + shorter + y);
            law_words_are_runs(x, shorter, y);
            assert(s[s.len() - 2] == w[w.len() - 2]);
            let before = words(s.drop_last());
            assert(before =~= words(x) + seq![shorter]);
            assert(shorter.push(c) =~= w);
            assert(words(s) =~= expected);
        }
    } else {
        let c = y.last();
        let front = y.drop_last();
        assert(s.last() == c);
        assert(s.drop_last() =~= x + w + front);
        law_words_are_runs(x, w, front);
        if front.len() == 0 {
            assert(words(s) =~= expected);
        } else {
            assert(s[s.len() - 2] == y[y.len() - 2]);
            if !unicode::is_whitespace(c) && !unicode::is_whitespace(y[y.len() - 2]) {
                lemma_last_word(front);
                let before = words(s.drop_last());
                assert(before.last() == words(front).last());
                assert(before.drop_last() =~= words(x) + seq![w] + words(front).drop_last());
            }
            assert(words(s) =~= expected);
        }
    }
}

/// A single part joins to itself, and each further part comes after one space.
pub proof fn law_parts_are_joined_by_spaces(parts: Seq<Seq<char>>, part: Seq<char>)
    ensures
        join_with_spaces(seq![part]) == part,
        parts.len() > 0 ==> join_with_spaces(parts.push(part)) == join_with_spaces(parts).push(' ')
            + part,
{
    assert(parts.push(part).drop_last() =~= parts);
    if parts.len() > 0 {
        assert(join_with_spaces(parts) + seq![' '] + part =~= join_with_spaces(parts).push(' ')
            + part);
    }
}

/// The parts with one separator between each two.
pub open spec fn joined(parts: Seq<Seq<char>>, separator: char) -> Seq<char>
    decreases parts.len(),
{
    if parts.len() == 0 {
        Seq::empty()
    } else if parts.len() == 1 {
        parts[0]
    } else {
        joined(parts.drop_last(), separator) + seq![separator] + parts.last()
    }
}

/// Splitting and joining undo each other: the parts of a text join to the text, and parts without
/// separators are the parts of what they join to.
pub proof fn law_splitting_undoes_joining(s: Seq<char>, parts: Seq<Seq<char>>, separator: char)
    ensures
        joined(split_on(s, separator), separator) == s,
        split_on(s, separator).len() > 0,
        forall|i: int|
            0 <= i < split_on(s, separator).len() ==> !(
            #[trigger] split_on(s, separator)[i]).contains(separator),
        parts.len() > 0 && (forall|i: int|
            0 <= i < parts.len() ==> !(#[trigger] parts[i]).contains(separator)) ==> split_on(
            joined(parts, separator),
            separator,
        ) == parts,
{
    lemma_joined_of_split(s, separator);
    if parts.len() > 0 && forall|i: int|
        0 <= i < parts.len() ==> !(#[trigger] parts[i]).contains(separator) {
        lemma_split_of_joined(parts, separator);
    }
}

proof fn lemma_joined_of_split(s: Seq<char>, separator: char)
    ensures
        joined(split_on(s, separator), separator) == s,
        split_on(s, separator).len() > 0,
        forall|i: int|
            0 <= i < split_on(s, separator).len() ==> !(
            #[trigger] split_on(s, separator)[i]).contains(separator),
    decreases s.len(),
{
    let parts = split_on(s, separator);
    if s.len() == 0 {
        assert(s =~= Seq::empty());
    } else {
        let c = s.last();
        let t = s.drop_last();
        let before = split_on(t, separator);
        lemma_joined_of_split(t, separator);
        assert(s =~= t.push(c));
        if c == separator {
            assert(parts.drop_last() =~= before);
            assert(joined(parts, separator) =~= s);
            assert forall|i: int| 0 <= i < parts.len() implies !(#[trigger] parts[i]).contains(
                separator,
            ) by {
                if i < before.len() {
                    assert(!before[i].contains(separator));
                }
            }
        } else {
            assert(parts.drop_last() =~= before.drop_last());
            assert(parts.last() == before.last().push(c));
            assert(joined(parts, separator) =~= s);
            assert forall|i: int| 0 <= i < parts.len() implies !(#[trigger] parts[i]).contains(
                separator,
            ) by {
                assert(!before[i].contains(separator));
                if i < before.len() - 1 {
                    assert(parts[i] == before[i]);
                } else if parts[i].contains(separator) {
                    let k = choose|k: int| 0 <= k < parts[i].len() && parts[i][k] == separator;
                    assert(before[i][k] == separator);
                }
            }
        }
    }
}

proof fn lemma_split_of_joined(parts: Seq<Seq<char>>, separator: char)
    requires
        parts.len() > 0,
        forall|i: int| 0 <= i < parts.len() ==> !(#[trigger] parts[i]).contains(separator),
    ensures
        split_on(joined(parts, separator), separator) == parts,
    decreases parts.len(),
{
    lemma_split_single(parts.last(), separator);
    if parts.len() == 1 {
        assert(seq![parts[0]] =~= parts);
    } else {
        let earlier = parts.drop_last();
        assert forall|i: int| 0 <= i < earlier.len() implies !(#[trigger] earlier[i]).contains(
            separator,
        ) by {
            assert(!parts[i].contains(separator));
        }
        lemma_split_of_joined(earlier, separator);
        lemma_split_joined(joined(earlier, separator), parts.last(), separator);
        assert(earlier + seq![parts.last()] =~= parts);
    }
}

/// A text has at least as many bytes as characters.
pub proof fn lemma_utf8_len_at_least(w: Seq<char>)
    ensures
        utf8_len(w) >= w.len(),
    decreases w.len(),
{
    if w.len() > 0 {
        lemma_utf8_len_at_least(w.drop_first());
    }
}

/// The bytes of texts add up, and a character has one byte within ASCII, two up to U+07FF, three up to
/// U+FFFF and four beyond.
pub proof fn law_byte_lengths(a: Seq<char>, b: Seq<char>, c: char)
    ensures
        utf8_len(Seq::empty()) == 0,
        utf8_len(a + b) == utf8_len(a) + utf8_len(b),
        utf8_len(seq![c]) == if c as int <= 0x7f {
            1nat
        } else if c as int <= 0x7ff {
            2nat
        } else if c as int <= 0xffff {
            3nat
        } else {
            4nat
        },
{
    lemma_utf8_len_add(a, b);
    let one = seq![c];
    assert(one.drop_first() =~= Seq::empty());
    reveal_with_fuel(utf8::encode_utf8, 2);
}

/// Stripping leaves ASCII text ASCII.
pub proof fn lemma_trim_ascii(s: Seq<char>, set: Strip)
    requires
        utf8::is_ascii_chars(s),
    ensures
        utf8::is_ascii_chars(trim_start(s, set)),
        utf8::is_ascii_chars(trim_end(s, set)),
        utf8::is_ascii_chars(trim(s, set)),
{
    lemma_trim_start_ascii(s, set);
    lemma_trim_end_ascii(s, set);
    lemma_trim_end_ascii(trim_start(s, set), set);
}

proof fn lemma_trim_start_ascii(s: Seq<char>, set: Strip)
    requires
        utf8::is_ascii_chars(s),
    ensures
        utf8::is_ascii_chars(trim_start(s, set)),
    decreases s.len(),
{
    if s.len() > 0 && set.holds(s.first()) {
        lemma_trim_start_ascii(s.drop_first(), set);
    }
}

proof fn lemma_trim_end_ascii(s: Seq<char>, set: Strip)
    requires
        utf8::is_ascii_chars(s),
    ensures
        utf8::is_ascii_chars(trim_end(s, set)),
    decreases s.len(),
{
    if s.len() > 0 && set.holds(s.last()) {
        lemma_trim_end_ascii(s.drop_last(), set);
    }
}

/// A pattern stands in a text where each of its characters does.
pub proof fn law_patterns_stand_by_characters(s: Seq<char>, pattern: Seq<char>, i: int)
    ensures
        occurs_at(s, pattern, i) <==> 0 <= i && i + pattern.len() <= s.len() && forall|j: int|
            0 <= j < pattern.len() ==> s[i + j] == #[trigger] pattern[j],
{
    if 0 <= i && i + pattern.len() <= s.len() {
        let here = s.subrange(i, i + pattern.len());
        if occurs_at(s, pattern, i) {
            assert forall|j: int| 0 <= j < pattern.len() implies s[i + j] == #[trigger] pattern[j] by {
                assert(here[j] == s[i + j]);
            }
        }
        if forall|j: int| 0 <= j < pattern.len() ==> s[i + j] == #[trigger] pattern[j] {
            assert(here =~= pattern);
        }
    }
}

} // verus!
