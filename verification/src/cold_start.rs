//! Entity extraction for a graph that has few entities yet.
//!
//! Where the graph is sparse, aggressive heuristics find what a human reader would call an entity:
//! proper nouns in mid-sentence, mail addresses, URLs, file paths, version numbers and CamelCase
//! names.

use crate::lexical;
use crate::stop_words;
use crate::text;
use crate::text::Strip;
use crate::unicode;
use vstd::prelude::*;
use vstd::utf8;

verus! {

/// A text that starts with an uppercase letter.
pub open spec fn capitalized(w: Seq<char>) -> bool {
    w.len() > 0 && unicode::is_uppercase(w[0])
}

/// Word `i` without the punctuation around it.
pub open spec fn bare_word(words: Seq<Seq<char>>, i: int) -> Seq<char> {
    text::trim(words[i], Strip::NonWord)
}

/// A word that ends a sentence, or announces what follows.
pub open spec fn ends_sentence(w: Seq<char>) -> bool {
    w.len() > 0 && (w.last() == '.' || w.last() == '!' || w.last() == '?' || w.last() == ':')
}

/// Whether word `i` is the first of its sentence.
pub open spec fn opens_sentence(words: Seq<Seq<char>>, i: int) -> bool {
    i == 0 || ends_sentence(words[i - 1])
}

/// Whether a name starts at word `i`: a capitalized word of two bytes or more that is no stop
/// word and that, where it opens a sentence, is CamelCase or an acronym.
pub open spec fn starts_name(words: Seq<Seq<char>>, i: int) -> bool {
    let word = bare_word(words, i);
    &&& text::utf8_len(word) >= 2
    &&& capitalized(word)
    &&& !stop_words::is_stop_word(unicode::lowercase(word))
    &&& opens_sentence(words, i) ==> lexical::camel_cased(word) || lexical::acronym_shaped(word)
}

/// Whether a name goes on with word `j`: it is in the same sentence, and it is capitalized, or it is
/// a stop word and the word after it is capitalized, as in "Bank of America".
pub open spec fn continues_name(words: Seq<Seq<char>>, j: int) -> bool {
    let word = bare_word(words, j);
    &&& !opens_sentence(words, j)
    &&& word.len() > 0
    &&& capitalized(word) || {
        &&& stop_words::is_stop_word(unicode::lowercase(word))
        &&& !ends_sentence(words[j])
        &&& j + 1 < words.len()
        &&& capitalized(text::trim(words[j + 1], Strip::NonAlphanumeric))
    }
}

/// The first word from `j` on with which the name does not go on.
pub open spec fn name_end(words: Seq<Seq<char>>, j: int) -> int
    decreases words.len() - j,
{
    if 0 <= j < words.len() && continues_name(words, j) {
        name_end(words, j + 1)
    } else {
        j
    }
}

/// The name that the words from `i` up to `j` make.
pub open spec fn name_text(words: Seq<Seq<char>>, i: int, j: int) -> Seq<char> {
    text::join_with_spaces(Seq::new((j - i) as nat, |k: int| bare_word(words, i + k)))
}

/// A name ends among the words.
pub proof fn lemma_name_end_bounds(words: Seq<Seq<char>>, j: int)
    requires
        0 <= j <= words.len(),
    ensures
        j <= name_end(words, j) <= words.len(),
    decreases words.len() - j,
{
    if j < words.len() && continues_name(words, j) {
        lemma_name_end_bounds(words, j + 1);
    }
}

/// The names that stand in the words from `i` on, none of them inside another.
pub open spec fn proper_nouns(words: Seq<Seq<char>>, i: int) -> Seq<Seq<char>>
    decreases words.len() - i,
{
    if !(0 <= i < words.len()) {
        Seq::empty()
    } else if starts_name(words, i) {
        let end = name_end(words, i + 1);
        let name = name_text(words, i, end);
        proof {
            lemma_name_end_bounds(words, i + 1);
        }
        if text::utf8_len(unicode::lowercase(name)) >= 2 {
            seq![name] + proper_nouns(words, end)
        } else {
            proper_nouns(words, end)
        }
    } else {
        proper_nouns(words, i + 1)
    }
}

/// The rules by which a single word is an entity.
#[derive(Clone, Copy)]
pub enum Rule {
    /// `user@domain.com`.
    Email,
    /// `http://` and `https://` addresses.
    Url,
    /// `/foo/bar.rs`, `./src/main.rs`, `../up`.
    FilePath,
    /// `v1.2.3`, `2.0.0-rc1`.
    Version,
    /// PostgreSQL, FastAPI, GraphQL.
    CamelCase,
}

impl Rule {
    /// What the rule strips from a word before it looks at it.
    pub open spec fn spec_strip(self) -> Strip {
        match self {
            Rule::Email => Strip::NonAddress,
            Rule::Url => Strip::UrlWrapping,
            Rule::FilePath => Strip::PathWrapping,
            Rule::Version => Strip::VersionWrapping,
            Rule::CamelCase => Strip::NonAlphanumeric,
        }
    }

    /// Whether the rule takes the stripped word for an entity.
    pub open spec fn accepts(self, w: Seq<char>) -> bool {
        match self {
            Rule::Email => is_mail_address(w),
            Rule::Url => is_web_address(w),
            Rule::FilePath => is_file_path(w),
            Rule::Version => lexical::version_shaped(w),
            Rule::CamelCase => lexical::camel_cased(w) && !stop_words::is_stop_word(
                unicode::lowercase(w),
            ),
        }
    }

    /// What the rule strips from a word before it looks at it.
    #[verifier::when_used_as_spec(spec_strip)]
    pub fn strip(self) -> (r: Strip)
        ensures
            r == self.spec_strip(),
    {
        match self {
            Rule::Email => Strip::NonAddress,
            Rule::Url => Strip::UrlWrapping,
            Rule::FilePath => Strip::PathWrapping,
            Rule::Version => Strip::VersionWrapping,
            Rule::CamelCase => Strip::NonAlphanumeric,
        }
    }
}

/// Something before the first `@` and a dot after it.
pub open spec fn is_mail_address(w: Seq<char>) -> bool {
    match w.index_of_first('@') {
        Some(k) => k > 0 && w.skip(k + 1).contains('.'),
        None => false,
    }
}

/// More than ten bytes that start with `http://` or `https://`.
pub open spec fn is_web_address(w: Seq<char>) -> bool {
    &&& text::occurs_at(w, "http://"@, 0) || text::occurs_at(w, "https://"@, 0)
    &&& text::utf8_len(w) > 10
}

/// At least four bytes that start with `/`, `./` or `../`.
pub open spec fn is_file_path(w: Seq<char>) -> bool {
    &&& text::occurs_at(w, "/"@, 0) || text::occurs_at(w, "./"@, 0) || text::occurs_at(w, "../"@, 0)
    &&& text::utf8_len(w) >= 4
}

/// The stripped words that the rule accepts, in order.
pub open spec fn accepted_words(words: Seq<Seq<char>>, rule: Rule) -> Seq<Seq<char>>
    decreases words.len(),
{
    if words.len() == 0 {
        Seq::empty()
    } else {
        let before = accepted_words(words.drop_last(), rule);
        let word = text::trim(words.last(), rule.strip());
        if rule.accepts(word) {
            before.push(word)
        } else {
            before
        }
    }
}

/// All that the heuristics take for an entity, in the order in which they run.
pub open spec fn candidates(words: Seq<Seq<char>>) -> Seq<Seq<char>> {
    proper_nouns(words, 0) + accepted_words(words, Rule::Email) + accepted_words(words, Rule::Url)
        + accepted_words(words, Rule::FilePath) + accepted_words(words, Rule::Version)
        + accepted_words(words, Rule::CamelCase)
}

/// Whether one of `names` differs from `name` in case at most.
pub open spec fn named_in(name: Seq<char>, names: Seq<Seq<char>>) -> bool {
    exists|k: int|
        0 <= k < names.len() && unicode::lowercase(#[trigger] names[k]) == unicode::lowercase(name)
}

/// The names that are neither among the existing ones nor a repetition, up to case, of an earlier
/// one.
pub open spec fn novel(names: Seq<Seq<char>>, existing: Seq<Seq<char>>) -> Seq<Seq<char>>
    decreases names.len(),
{
    if names.len() == 0 {
        Seq::empty()
    } else {
        let before = novel(names.drop_last(), existing);
        if named_in(names.last(), existing) || named_in(names.last(), names.drop_last()) {
            before
        } else {
            before.push(names.last())
        }
    }
}

/// The entities found so far, with the lowercase forms of all that is known.
struct Collector {
    seen: Vec<String>,
    extracted: Vec<String>,
    offered: Ghost<Seq<Seq<char>>>,
    existing: Ghost<Seq<Seq<char>>>,
}

impl Collector {
    /// The entities are the novel ones among what was offered, and what was seen are the lowercase
    /// forms of the existing entities and of all that was offered.
    spec fn wf(self) -> bool {
        &&& text::views(self.extracted@) == novel(self.offered@, self.existing@)
        &&& forall|name: Seq<char>|
            text::in_list(unicode::lowercase(name), self.seen@) <==> (#[trigger] named_in(
                name,
                self.existing@,
            ) || named_in(name, self.offered@))
    }

    fn new(existing: &[String]) -> (r: Self)
        ensures
            r.wf(),
            r.offered@ == Seq::<Seq<char>>::empty(),
            r.existing@ == text::views(existing@),
    {
        let mut seen: Vec<String> = Vec::new();
        let ghost names = text::views(existing@);
        for i in 0..existing.len()
            invariant
                names == text::views(existing@),
                seen.len() == i,
                forall|k: int|
                    0 <= k < i ==> #[trigger] seen@[k]@ == unicode::lowercase(names[k]),
        {
            seen.push(existing[i].as_str().to_lowercase());
        }
        let extracted: Vec<String> = Vec::new();
        let r = Collector {
            seen,
            extracted,
            offered: Ghost(Seq::empty()),
            existing: Ghost(names),
        };
        assert(text::views(extracted@) =~= Seq::<Seq<char>>::empty());
        assert forall|name: Seq<char>|
            text::in_list(unicode::lowercase(name), seen@) <==> (#[trigger] named_in(name, names)
                || named_in(name, r.offered@)) by {
            if named_in(name, names) {
                let k = choose|k: int|
                    0 <= k < names.len() && unicode::lowercase(#[trigger] names[k])
                        == unicode::lowercase(name);
                assert(seen@[k]@ == unicode::lowercase(name));
            }
            if text::in_list(unicode::lowercase(name), seen@) {
                let k = choose|k: int|
                    0 <= k < seen.len() && #[trigger] seen@[k]@ == unicode::lowercase(name);
                assert(unicode::lowercase(names[k]) == unicode::lowercase(name));
            }
        }
        r
    }

    /// Takes the name in unless it is known, up to case.
    fn offer(&mut self, name: String)
        requires
            old(self).wf(),
        ensures
            final(self).wf(),
            final(self).offered@ == old(self).offered@.push(name@),
            final(self).existing@ == old(self).existing@,
    {
        let lower = name.as_str().to_lowercase();
        let ghost offered = self.offered@;
        let ghost existing = self.existing@;
        let ghost seen = self.seen@;
        let ghost extracted = self.extracted@;
        let ghost grown = offered.push(name@);
        assert(grown.drop_last() == offered);
        let known = text::has_string(&self.seen, &lower);
        assert(known == (named_in(name@, existing) || named_in(name@, offered)));
        if !known {
            self.seen.push(lower);
            self.extracted.push(name);
            assert(text::views(self.extracted@) =~= text::views(extracted).push(name@));
        }
        self.offered = Ghost(grown);
        assert(text::views(self.extracted@) == novel(grown, existing));
        assert forall|other: Seq<char>|
            text::in_list(unicode::lowercase(other), self.seen@) <==> (#[trigger] named_in(
                other,
                existing,
            ) || named_in(other, grown)) by {
            lemma_named_in_push(other, offered, name@);
            assert(text::in_list(unicode::lowercase(other), seen) <==> (named_in(other, existing)
                || named_in(other, offered)));
            if !known {
                lemma_in_list_push(unicode::lowercase(other), seen, lower);
            }
        }
    }
}

proof fn lemma_in_list_push(w: Seq<char>, list: Seq<String>, added: String)
    ensures
        text::in_list(w, list.push(added)) <==> (text::in_list(w, list) || added@ == w),
{
    let grown = list.push(added);
    if text::in_list(w, list) {
        let k = choose|k: int| 0 <= k < list.len() && #[trigger] list[k]@ == w;
        assert(grown[k]@ == w);
    }
    if added@ == w {
        assert(grown[list.len() as int]@ == w);
    }
    if text::in_list(w, grown) {
        let k = choose|k: int| 0 <= k < grown.len() && #[trigger] grown[k]@ == w;
        if k < list.len() {
            assert(list[k]@ == w);
        }
    }
}

proof fn lemma_named_in_push(name: Seq<char>, names: Seq<Seq<char>>, added: Seq<char>)
    ensures
        named_in(name, names.push(added)) <==> (named_in(name, names) || unicode::lowercase(added)
            == unicode::lowercase(name)),
{
    let grown = names.push(added);
    if named_in(name, names) {
        let k = choose|k: int|
            0 <= k < names.len() && unicode::lowercase(#[trigger] names[k]) == unicode::lowercase(
                name,
            );
        assert(grown[k] == names[k]);
    }
    if unicode::lowercase(added) == unicode::lowercase(name) {
        assert(grown[names.len() as int] == added);
    }
    if named_in(name, grown) {
        let k = choose|k: int|
            0 <= k < grown.len() && unicode::lowercase(#[trigger] grown[k]) == unicode::lowercase(
                name,
            );
        if k < names.len() {
            assert(names[k] == grown[k]);
        }
    }
}

/// Whether the word ends a sentence, or announces what follows.
fn closes_sentence(w: &[char]) -> (r: bool)
    ensures
        r == ends_sentence(w@),
{
    w.len() > 0 && {
        let c = w[w.len() - 1];
        c == '.' || c == '!' || c == '?' || c == ':'
    }
}

/// Whether the text starts with an uppercase letter.
fn is_capitalized(w: &[char]) -> (r: bool)
    ensures
        r == capitalized(w@),
{
    w.len() > 0 && w[0].is_uppercase()
}

/// Whether a name starts at word `i`.
fn name_starts(words: &Vec<Vec<char>>, i: usize, stop_list: &Vec<String>) -> (r: bool)
    requires
        i < words.len(),
        stop_words::lists_stop_words(stop_list@),
    ensures
        r == starts_name(text::rows(words@), i as int),
{
    let ghost all = text::rows(words@);
    assert(all[i as int] == words@[i as int]@);
    let word = text::trimmed(words[i].as_slice(), Strip::NonWord);
    let name = text::string_of(word);
    if text::byte_len(name.as_str()) < 2 || !is_capitalized(word) {
        return false;
    }
    let lower = name.as_str().to_lowercase();
    if stop_words::in_stop_words(&lower, stop_list) {
        return false;
    }
    let opens = i == 0 || closes_sentence(words[i - 1].as_slice());
    assert(i > 0 ==> all[i - 1] == words@[i - 1]@);
    !opens || lexical::is_camel_case(name.as_str()) || lexical::is_acronym(name.as_str())
}

/// Whether a name goes on with word `j`.
fn name_continues(words: &Vec<Vec<char>>, j: usize, stop_list: &Vec<String>) -> (r: bool)
    requires
        j < words.len(),
        stop_words::lists_stop_words(stop_list@),
    ensures
        r == continues_name(text::rows(words@), j as int),
{
    let ghost all = text::rows(words@);
    assert(all[j as int] == words@[j as int]@);
    assert(j > 0 ==> all[j - 1] == words@[j - 1]@);
    if j == 0 || closes_sentence(words[j - 1].as_slice()) {
        return false;
    }
    let word = text::trimmed(words[j].as_slice(), Strip::NonWord);
    if word.len() == 0 {
        return false;
    }
    if is_capitalized(word) {
        return true;
    }
    let lower = text::string_of(word).as_str().to_lowercase();
    if !stop_words::in_stop_words(&lower, stop_list) || closes_sentence(words[j].as_slice()) || j + 1
        >= words.len() {
        return false;
    }
    assert(all[j + 1] == words@[j + 1]@);
    is_capitalized(text::trimmed(words[j + 1].as_slice(), Strip::NonAlphanumeric))
}

/// The name that the words from `i` up to `j` make.
fn name_of(words: &Vec<Vec<char>>, i: usize, j: usize) -> (r: String)
    requires
        i < j <= words.len(),
    ensures
        r@ == name_text(text::rows(words@), i as int, j as int),
{
    let ghost all = text::rows(words@);
    let ghost parts = Seq::new((j - i) as nat, |k: int| bare_word(all, i + k));
    let mut r = text::string_of(text::trimmed(words[i].as_slice(), Strip::NonWord));
    assert(parts.take(1)[0] == r@);
    for k in i + 1..j
        invariant
            i < j <= words.len(),
            all == text::rows(words@),
            parts == Seq::new((j - i) as nat, |k: int| bare_word(all, i + k)),
            r@ == text::join_with_spaces(parts.take(k - i)),
    {
        let ghost before = r@;
        let word = text::trimmed(words[k].as_slice(), Strip::NonWord);
        assert(all[k as int] == words@[k as int]@);
        r.push(' ');
        r.append(text::string_of(word).as_str());
        let ghost taken = parts.take(k + 1 - i);
        assert(taken.drop_last() == parts.take(k - i));
        assert(taken.last() == word@);
        assert(r@ == before + seq![' '] + word@);
    }
    assert(parts.take(j - i) == parts);
    r
}

/// Offers the names that stand in the words.
fn offer_proper_nouns(words: &Vec<Vec<char>>, stop_list: &Vec<String>, found: &mut Collector)
    requires
        old(found).wf(),
        stop_words::lists_stop_words(stop_list@),
    ensures
        final(found).wf(),
        final(found).existing@ == old(found).existing@,
        final(found).offered@ == old(found).offered@ + proper_nouns(text::rows(words@), 0),
{
    let ghost all = text::rows(words@);
    let ghost start = found.offered@;
    let ghost existing = found.existing@;
    assert(start + proper_nouns(all, 0) == found.offered@ + proper_nouns(all, 0));
    let mut i: usize = 0;
    while i < words.len()
        invariant
            i <= words.len(),
            all == text::rows(words@),
            stop_words::lists_stop_words(stop_list@),
            found.wf(),
            found.existing@ == existing,
            found.offered@ + proper_nouns(all, i as int) == start + proper_nouns(all, 0),
        decreases words.len() - i,
    {
        if !name_starts(words, i, stop_list) {
            i += 1;
            continue;
        }
        let mut j: usize = i + 1;
        while j < words.len() && name_continues(words, j, stop_list)
            invariant
                i < j <= words.len(),
                all == text::rows(words@),
                stop_words::lists_stop_words(stop_list@),
                name_end(all, i + 1) == name_end(all, j as int),
            decreases words.len() - j,
        {
            j += 1;
        }
        let name = name_of(words, i, j);
        let lower = name.as_str().to_lowercase();
        let ghost before = found.offered@;
        let ghost rest = proper_nouns(all, j as int);
        if text::byte_len(lower.as_str()) >= 2 {
            found.offer(name);
            assert(before + (seq![name@] + rest) == before.push(name@) + rest);
        }
        i = j;
    }
    assert(found.offered@ == found.offered@ + proper_nouns(all, i as int));
}

/// Whether the rule takes the stripped word for an entity.
fn rule_accepts(rule: Rule, word: &[char], stop_list: &Vec<String>) -> (r: bool)
    requires
        stop_words::lists_stop_words(stop_list@),
    ensures
        r == rule.accepts(word@),
{
    let name = text::string_of(word);
    match rule {
        Rule::Email => match text::first_of(word, '@') {
            Some(k) => {
                proof {
                    word@.index_of_first_ensures('@');
                }
                assert(k < word.len());
                let rest = vstd::slice::slice_subrange(word, k + 1, word.len());
                assert(rest@ == word@.skip(k + 1));
                proof {
                    rest@.index_of_first_ensures('.');
                }
                k > 0 && text::first_of(rest, '.').is_some()
            },
            None => false,
        },
        Rule::Url => {
            (text::stands_at(word, text::chars_of("http://").as_slice(), 0) || text::stands_at(
                word,
                text::chars_of("https://").as_slice(),
                0,
            )) && text::byte_len(name.as_str()) > 10
        },
        Rule::FilePath => {
            (text::stands_at(word, text::chars_of("/").as_slice(), 0) || text::stands_at(
                word,
                text::chars_of("./").as_slice(),
                0,
            ) || text::stands_at(word, text::chars_of("../").as_slice(), 0)) && text::byte_len(
                name.as_str(),
            ) >= 4
        },
        Rule::Version => lexical::is_version_number(name.as_str()),
        Rule::CamelCase => {
            if !lexical::is_camel_case(name.as_str()) {
                false
            } else {
                let lower = name.as_str().to_lowercase();
                !stop_words::in_stop_words(&lower, stop_list)
            }
        },
    }
}

/// Offers the words that the rule accepts.
fn offer_accepted(
    words: &Vec<Vec<char>>,
    rule: Rule,
    stop_list: &Vec<String>,
    found: &mut Collector,
)
    requires
        old(found).wf(),
        stop_words::lists_stop_words(stop_list@),
    ensures
        final(found).wf(),
        final(found).existing@ == old(found).existing@,
        final(found).offered@ == old(found).offered@ + accepted_words(text::rows(words@), rule),
{
    let ghost all = text::rows(words@);
    let ghost start = found.offered@;
    let ghost existing = found.existing@;
    assert(start == start + accepted_words(all.take(0), rule));
    for i in 0..words.len()
        invariant
            all == text::rows(words@),
            stop_words::lists_stop_words(stop_list@),
            found.wf(),
            found.existing@ == existing,
            found.offered@ == start + accepted_words(all.take(i as int), rule),
    {
        let word = text::trimmed(words[i].as_slice(), rule.strip());
        let ghost taken = all.take(i + 1);
        let ghost before = accepted_words(all.take(i as int), rule);
        assert(taken.drop_last() == all.take(i as int));
        assert(taken.last() == words@[i as int]@);
        if rule_accepts(rule, word, stop_list) {
            found.offer(text::string_of(word));
            assert((start + before).push(word@) == start + before.push(word@));
        }
    }
    assert(all.take(all.len() as int) == all);
}

/// Extracts additional entities by aggressive heuristics, for graphs that are still sparse.
///
/// It catches, in this order:
///
/// 1. Proper nouns in mid-sentence: capitalized words that do not open a sentence
/// 2. Mail addresses
/// 3. URLs
/// 4. File paths
/// 5. Version numbers
/// 6. CamelCase names (PostgreSQL, FastAPI, GraphQL)
///
/// What is returned is free of repetitions and of what is already among `existing_entities`, both
/// up to case.
pub fn cold_start_extract_entities(text: &str, existing_entities: &[String]) -> (r: Vec<String>)
    ensures
        text::views(r@) == novel(
            candidates(text::words(text@)),
            text::views(existing_entities@),
        ),
{
    let stop_list = stop_words::stop_word_list();
    let words = text::split_words(text::chars_of(text).as_slice());
    let ghost all = text::rows(words@);
    let mut found = Collector::new(existing_entities);
    offer_proper_nouns(&words, &stop_list, &mut found);
    offer_accepted(&words, Rule::Email, &stop_list, &mut found);
    offer_accepted(&words, Rule::Url, &stop_list, &mut found);
    offer_accepted(&words, Rule::FilePath, &stop_list, &mut found);
    offer_accepted(&words, Rule::Version, &stop_list, &mut found);
    offer_accepted(&words, Rule::CamelCase, &stop_list, &mut found);
    assert(found.offered@ == candidates(all));
    found.extracted
}

/// Every name that is kept was offered.
proof fn lemma_novel_are_names(names: Seq<Seq<char>>, existing: Seq<Seq<char>>)
    ensures
        forall|i: int|
            0 <= i < novel(names, existing).len() ==> names.contains(
                #[trigger] novel(names, existing)[i],
            ),
    decreases names.len(),
{
    if names.len() > 0 {
        let earlier = names.drop_last();
        let kept = novel(earlier, existing);
        lemma_novel_are_names(earlier, existing);
        assert forall|i: int| 0 <= i < novel(names, existing).len() implies names.contains(
            #[trigger] novel(names, existing)[i],
        ) by {
            if i < kept.len() {
                assert(earlier.contains(kept[i]));
                let k = choose|k: int| 0 <= k < earlier.len() && earlier[k] == kept[i];
                assert(names[k] == kept[i]);
            } else {
                assert(names[names.len() - 1] == names.last());
            }
        }
    }
}

/// What is returned repeats nothing: no entity differs from another, or from an existing one, in
/// case at most.
pub proof fn law_entities_are_new(names: Seq<Seq<char>>, existing: Seq<Seq<char>>)
    ensures
        forall|i: int|
            0 <= i < novel(names, existing).len() ==> !named_in(
                #[trigger] novel(names, existing)[i],
                existing,
            ),
        forall|i: int, j: int|
            0 <= i < j < novel(names, existing).len() ==> unicode::lowercase(
                #[trigger] novel(names, existing)[i],
            ) != unicode::lowercase(#[trigger] novel(names, existing)[j]),
    decreases names.len(),
{
    if names.len() > 0 {
        let earlier = names.drop_last();
        let kept = novel(earlier, existing);
        let all = novel(names, existing);
        law_entities_are_new(earlier, existing);
        lemma_novel_are_names(earlier, existing);
        assert forall|i: int, j: int| 0 <= i < j < all.len() implies unicode::lowercase(
            #[trigger] all[i],
        ) != unicode::lowercase(#[trigger] all[j]) by {
            assert(all[i] == kept[i]);
            if j == kept.len() {
                assert(earlier.contains(kept[i]));
                let k = choose|k: int| 0 <= k < earlier.len() && earlier[k] == kept[i];
                assert(unicode::lowercase(earlier[k]) != unicode::lowercase(names.last()));
            }
        }
    }
}

/// Nothing is lost: whatever the heuristics take for an entity is, up to case, among the existing
/// entities or among those returned, and what is returned was taken for an entity.
pub proof fn law_no_candidate_is_lost(names: Seq<Seq<char>>, existing: Seq<Seq<char>>)
    ensures
        forall|k: int|
            0 <= k < names.len() ==> named_in(#[trigger] names[k], existing) || named_in(
                names[k],
                novel(names, existing),
            ),
        forall|i: int|
            0 <= i < novel(names, existing).len() ==> names.contains(
                #[trigger] novel(names, existing)[i],
            ),
    decreases names.len(),
{
    lemma_novel_are_names(names, existing);
    if names.len() > 0 {
        let earlier = names.drop_last();
        let kept = novel(earlier, existing);
        let all = novel(names, existing);
        law_no_candidate_is_lost(earlier, existing);
        assert forall|k: int| 0 <= k < names.len() implies named_in(#[trigger] names[k], existing)
            || named_in(names[k], all) by {
            lemma_named_in_push(names[k], kept, names.last());
            if k < earlier.len() {
                assert(earlier[k] == names[k]);
            } else if named_in(names.last(), earlier) {
                let m = choose|m: int|
                    0 <= m < earlier.len() && unicode::lowercase(#[trigger] earlier[m])
                        == unicode::lowercase(names.last());
                if named_in(earlier[m], existing) {
                    let e = choose|e: int|
                        0 <= e < existing.len() && unicode::lowercase(#[trigger] existing[e])
                            == unicode::lowercase(earlier[m]);
                    assert(unicode::lowercase(existing[e]) == unicode::lowercase(names[k]));
                } else {
                    let e = choose|e: int|
                        0 <= e < kept.len() && unicode::lowercase(#[trigger] kept[e])
                            == unicode::lowercase(earlier[m]);
                    assert(unicode::lowercase(kept[e]) == unicode::lowercase(names[k]));
                }
            }
        }
    }
}

/// A second extraction from the same text, with the first one's entities known, finds nothing.
pub proof fn law_extraction_settles(names: Seq<Seq<char>>, existing: Seq<Seq<char>>)
    ensures
        novel(names, existing + novel(names, existing)).len() == 0,
{
    let first = novel(names, existing);
    let known = existing + first;
    law_no_candidate_is_lost(names, existing);
    law_no_candidate_is_lost(names, known);
    law_entities_are_new(names, known);
    let second = novel(names, known);
    if second.len() > 0 {
        assert(names.contains(second[0]));
        let k = choose|k: int| 0 <= k < names.len() && names[k] == second[0];
        if named_in(names[k], existing) {
            let e = choose|e: int|
                0 <= e < existing.len() && unicode::lowercase(#[trigger] existing[e])
                    == unicode::lowercase(names[k]);
            assert(known[e] == existing[e]);
        } else {
            let e = choose|e: int|
                0 <= e < first.len() && unicode::lowercase(#[trigger] first[e])
                    == unicode::lowercase(names[k]);
            assert(known[existing.len() + e] == first[e]);
        }
        assert(named_in(second[0], known));
    }
}

proof fn lemma_joined_has_space(parts: Seq<Seq<char>>) -> (i: int)
    requires
        parts.len() >= 2,
    ensures
        0 <= i < text::join_with_spaces(parts).len(),
        text::join_with_spaces(parts)[i] == ' ',
{
    let head = text::join_with_spaces(parts.drop_last());
    head.len() as int
}

proof fn lemma_proper_nouns_no_stop_word(words: Seq<Seq<char>>, i: int)
    requires
        0 <= i,
    ensures
        forall|k: int|
            0 <= k < proper_nouns(words, i).len() ==> !stop_words::is_stop_word(
                unicode::ascii_lowercase(#[trigger] proper_nouns(words, i)[k]),
            ),
    decreases words.len() - i,
{
    if i < words.len() {
        if starts_name(words, i) {
            lemma_name_end_bounds(words, i + 1);
            let end = name_end(words, i + 1);
            let name = name_text(words, i, end);
            let parts = Seq::new((end - i) as nat, |k: int| bare_word(words, i + k));
            lemma_proper_nouns_no_stop_word(words, end);
            if end == i + 1 {
                assert(name == bare_word(words, i));
                stop_words::lemma_lowercase_forms(name);
            } else {
                let at = lemma_joined_has_space(parts);
                stop_words::lemma_other_character(name, at);
            }
            let rest = proper_nouns(words, end);
            assert forall|k: int| 0 <= k < proper_nouns(words, i).len() implies
                !stop_words::is_stop_word(
                unicode::ascii_lowercase(#[trigger] proper_nouns(words, i)[k]),
            ) by {
                if text::utf8_len(unicode::lowercase(name)) >= 2 {
                    assert(k > 0 ==> proper_nouns(words, i)[k] == rest[k - 1]);
                }
            }
        } else {
            lemma_proper_nouns_no_stop_word(words, i + 1);
            assert(proper_nouns(words, i) == proper_nouns(words, i + 1));
        }
    }
}

proof fn lemma_accepted_no_stop_word(words: Seq<Seq<char>>, rule: Rule)
    ensures
        forall|k: int|
            0 <= k < accepted_words(words, rule).len() ==> !stop_words::is_stop_word(
                unicode::ascii_lowercase(#[trigger] accepted_words(words, rule)[k]),
            ),
    decreases words.len(),
{
    if words.len() > 0 {
        lemma_accepted_no_stop_word(words.drop_last(), rule);
        let w = text::trim(words.last(), rule.strip());
        let before = accepted_words(words.drop_last(), rule);
        assert forall|k: int| 0 <= k < before.len() implies !stop_words::is_stop_word(
            unicode::ascii_lowercase(#[trigger] accepted_words(words, rule)[k]),
        ) by {
            assert(accepted_words(words, rule)[k] == before[k]);
        }
        if rule.accepts(w) {
            match rule {
                Rule::Email => {
                    w.index_of_first_ensures('@');
                    stop_words::lemma_other_character(w, w.index_of_first('@').unwrap());
                },
                Rule::Url => {
                    reveal_strlit("http://");
                    reveal_strlit("https://");
                    if text::occurs_at(w, "http://"@, 0) {
                        assert(w.subrange(0, 7)[4] == ':');
                        stop_words::lemma_other_character(w, 4);
                    } else {
                        assert(w.subrange(0, 8)[5] == ':');
                        stop_words::lemma_other_character(w, 5);
                    }
                },
                Rule::FilePath => {
                    reveal_strlit("/");
                    reveal_strlit("./");
                    reveal_strlit("../");
                    if text::occurs_at(w, "/"@, 0) {
                        assert(w.subrange(0, 1)[0] == '/');
                    } else if text::occurs_at(w, "./"@, 0) {
                        assert(w.subrange(0, 2)[0] == '.');
                    } else {
                        assert(w.subrange(0, 3)[0] == '.');
                    }
                    stop_words::lemma_other_character(w, 0);
                },
                Rule::Version => {
                    let d = lexical::without_v(w);
                    let at = choose|at: int| 0 <= at < d.len() && d[at] == '.';
                    stop_words::lemma_other_character(w, at + w.len() - d.len());
                },
                Rule::CamelCase => {
                    stop_words::lemma_lowercase_forms(w);
                },
            }
        }
    }
}

/// No stop word is ever taken for an entity, whatever the case of its letters.
pub proof fn law_stop_words_are_no_entities(words: Seq<Seq<char>>)
    ensures
        forall|k: int|
            0 <= k < candidates(words).len() ==> !stop_words::is_stop_word(
                unicode::ascii_lowercase(#[trigger] candidates(words)[k]),
            ),
{
    lemma_proper_nouns_no_stop_word(words, 0);
    lemma_accepted_no_stop_word(words, Rule::Email);
    lemma_accepted_no_stop_word(words, Rule::Url);
    lemma_accepted_no_stop_word(words, Rule::FilePath);
    lemma_accepted_no_stop_word(words, Rule::Version);
    lemma_accepted_no_stop_word(words, Rule::CamelCase);
}

proof fn lemma_name_is_scanned(words: Seq<Seq<char>>, from: int, i: int) -> (r: (int, int))
    requires
        0 <= from <= i < words.len(),
        starts_name(words, i),
    ensures
        from <= r.0 <= i < r.1 <= words.len(),
        starts_name(words, r.0),
        r.1 == name_end(words, r.0 + 1),
        proper_nouns(words, from).contains(name_text(words, r.0, r.1)) || text::utf8_len(
            unicode::lowercase(name_text(words, r.0, r.1)),
        ) < 2,
    decreases words.len() - from,
{
    let names = proper_nouns(words, from);
    if starts_name(words, from) {
        lemma_name_end_bounds(words, from + 1);
        let end = name_end(words, from + 1);
        let name = name_text(words, from, end);
        if i < end {
            if text::utf8_len(unicode::lowercase(name)) >= 2 {
                assert(names[0] == name);
            }
            (from, end)
        } else {
            let r = lemma_name_is_scanned(words, end, i);
            let rest = proper_nouns(words, end);
            let later = name_text(words, r.0, r.1);
            if rest.contains(later) {
                let k = choose|k: int| 0 <= k < rest.len() && rest[k] == later;
                assert(names[k + names.len() - rest.len()] == later);
            }
            r
        }
    } else {
        lemma_name_is_scanned(words, from + 1, i)
    }
}

/// Every word at which a name starts lies in a run of words that is taken for an entity as a whole,
/// unless the name has no more than one byte in lowercase.
pub proof fn law_names_are_caught(words: Seq<Seq<char>>, i: int)
    requires
        0 <= i < words.len(),
        starts_name(words, i),
    ensures
        exists|a: int, b: int|
            0 <= a <= i < b <= words.len() && starts_name(words, a) && b == name_end(words, a + 1)
                && (candidates(words).contains(#[trigger] name_text(words, a, b))
                || text::utf8_len(unicode::lowercase(name_text(words, a, b))) < 2),
{
    let r = lemma_name_is_scanned(words, 0, i);
    let name = name_text(words, r.0, r.1);
    let names = proper_nouns(words, 0);
    if names.contains(name) {
        let k = choose|k: int| 0 <= k < names.len() && names[k] == name;
        assert(candidates(words)[k] == name);
    }
}

proof fn lemma_accepted_has(words: Seq<Seq<char>>, rule: Rule, i: int)
    requires
        0 <= i < words.len(),
        rule.accepts(text::trim(words[i], rule.strip())),
    ensures
        accepted_words(words, rule).contains(text::trim(words[i], rule.strip())),
    decreases words.len(),
{
    let word = text::trim(words[i], rule.strip());
    let earlier = words.drop_last();
    let before = accepted_words(earlier, rule);
    let all = accepted_words(words, rule);
    if i < earlier.len() {
        assert(earlier[i] == words[i]);
        lemma_accepted_has(earlier, rule, i);
        let k = choose|k: int| 0 <= k < before.len() && before[k] == word;
        assert(all[k] == word);
    } else {
        assert(all[all.len() - 1] == word);
    }
}

/// Every word that a rule accepts is taken for an entity: no mail address, URL, file path, version
/// number or CamelCase name in the text is passed over.
pub proof fn law_accepted_words_are_caught(words: Seq<Seq<char>>, rule: Rule, i: int)
    requires
        0 <= i < words.len(),
        rule.accepts(text::trim(words[i], rule.strip())),
    ensures
        candidates(words).contains(text::trim(words[i], rule.strip())),
{
    lemma_accepted_has(words, rule, i);
    let word = text::trim(words[i], rule.strip());
    let names = proper_nouns(words, 0);
    let mails = accepted_words(words, Rule::Email);
    let urls = accepted_words(words, Rule::Url);
    let paths = accepted_words(words, Rule::FilePath);
    let versions = accepted_words(words, Rule::Version);
    let found = accepted_words(words, rule);
    let k = choose|k: int| 0 <= k < found.len() && found[k] == word;
    let skipped = match rule {
        Rule::Email => names.len(),
        Rule::Url => names.len() + mails.len(),
        Rule::FilePath => names.len() + mails.len() + urls.len(),
        Rule::Version => names.len() + mails.len() + urls.len() + paths.len(),
        Rule::CamelCase => names.len() + mails.len() + urls.len() + paths.len() + versions.len(),
    };
    assert(candidates(words)[skipped + k] == word);
}

/// Whether a name that starts at some word is this one.
pub open spec fn is_name_in(words: Seq<Seq<char>>, name: Seq<char>) -> bool {
    exists|a: int|
        0 <= a < words.len() && #[trigger] starts_name(words, a) && name == name_text(
            words,
            a,
            name_end(words, a + 1),
        )
}

/// Whether some word, stripped for a rule that accepts it, is this one.
pub open spec fn is_accepted_in(words: Seq<Seq<char>>, name: Seq<char>) -> bool {
    exists|i: int, rule: Rule|
        0 <= i < words.len() && rule.accepts(name) && name == #[trigger] text::trim(
            words[i],
            rule.strip(),
        )
}

proof fn lemma_proper_nouns_are_names(words: Seq<Seq<char>>, from: int)
    requires
        0 <= from,
    ensures
        forall|k: int|
            0 <= k < proper_nouns(words, from).len() ==> is_name_in(
                words,
                #[trigger] proper_nouns(words, from)[k],
            ),
    decreases words.len() - from,
{
    let names = proper_nouns(words, from);
    if from < words.len() {
        let next = if starts_name(words, from) {
            name_end(words, from + 1)
        } else {
            from + 1
        };
        lemma_name_end_bounds(words, from + 1);
        lemma_proper_nouns_are_names(words, next);
        let rest = proper_nouns(words, next);
        assert forall|k: int| 0 <= k < names.len() implies is_name_in(words, #[trigger] names[k]) by {
            if names.len() == rest.len() {
                assert(names[k] == rest[k]);
            } else if k > 0 {
                assert(names[k] == rest[k - 1]);
            }
        }
    }
}

proof fn lemma_accepted_words_are_accepted(words: Seq<Seq<char>>, rule: Rule)
    ensures
        forall|k: int|
            0 <= k < accepted_words(words, rule).len() ==> is_accepted_in(
                words,
                #[trigger] accepted_words(words, rule)[k],
            ),
    decreases words.len(),
{
    if words.len() > 0 {
        let earlier = words.drop_last();
        let before = accepted_words(earlier, rule);
        let all = accepted_words(words, rule);
        lemma_accepted_words_are_accepted(earlier, rule);
        assert forall|k: int| 0 <= k < all.len() implies is_accepted_in(words, #[trigger] all[k]) by {
            if k < before.len() {
                assert(all[k] == before[k]);
                let (i, by) = choose|i: int, by: Rule|
                    0 <= i < earlier.len() && by.accepts(before[k]) && before[k]
                        == #[trigger] text::trim(earlier[i], by.strip());
                assert(all[k] == text::trim(words[i], by.strip()));
            } else {
                assert(all[k] == text::trim(words[words.len() - 1], rule.strip()));
            }
        }
    }
}

/// Nothing else is taken for an entity: each is a name that starts at a word, or a word that a rule
/// accepts.
pub proof fn law_candidates_have_a_reason(words: Seq<Seq<char>>)
    ensures
        forall|k: int|
            0 <= k < candidates(words).len() ==> is_name_in(words, #[trigger] candidates(words)[k])
                || is_accepted_in(words, candidates(words)[k]),
{
    lemma_proper_nouns_are_names(words, 0);
    lemma_accepted_words_are_accepted(words, Rule::Email);
    lemma_accepted_words_are_accepted(words, Rule::Url);
    lemma_accepted_words_are_accepted(words, Rule::FilePath);
    lemma_accepted_words_are_accepted(words, Rule::Version);
    lemma_accepted_words_are_accepted(words, Rule::CamelCase);
}

/// Whether a name is not among the existing ones, up to case.
pub open spec fn unnamed_in(existing: Seq<Seq<char>>) -> spec_fn(Seq<char>) -> bool {
    |name: Seq<char>| !named_in(name, existing)
}

/// Existing entities only filter: what is returned beside them is what would be returned without
/// them, less those that they name.
pub proof fn law_existing_entities_only_filter(names: Seq<Seq<char>>, existing: Seq<Seq<char>>)
    ensures
        novel(names, existing) == novel(names, Seq::empty()).filter(unnamed_in(existing)),
    decreases names.len(),
{
    reveal(Seq::filter);
    let p = unnamed_in(existing);
    if names.len() > 0 {
        let earlier = names.drop_last();
        let kept = novel(earlier, Seq::empty());
        law_existing_entities_only_filter(earlier, existing);
        assert(!named_in(names.last(), Seq::empty()));
        assert(kept.push(names.last()).drop_last() =~= kept);
    }
}

proof fn lemma_name_words_continue(words: Seq<Seq<char>>, j: int, k: int)
    requires
        0 <= j <= k < name_end(words, j),
    ensures
        continues_name(words, k),
    decreases words.len() - j,
{
    if j < k {
        lemma_name_words_continue(words, j + 1, k);
    }
}

/// A name never runs over the end of a sentence: no word of it but the first can open one.
pub proof fn law_names_stay_in_their_sentence(words: Seq<Seq<char>>, a: int, k: int)
    requires
        0 <= a < k < name_end(words, a + 1),
    ensures
        !opens_sentence(words, k),
        !ends_sentence(words[k - 1]),
{
    lemma_name_words_continue(words, a + 1, k);
}

/// Whether `w` is one of the parts of a name that spaces separate.
pub open spec fn part_of(name: Seq<char>, w: Seq<char>) -> bool {
    exists|x: Seq<char>, y: Seq<char>|
        #![trigger x + w + y]
        name == x + w + y && (x.len() > 0 ==> x.last() == ' ') && (y.len() > 0 ==> y[0] == ' ')
}

/// A name is its words without what surrounds them, with one space between each two.
pub proof fn law_names_grow_by_words(words: Seq<Seq<char>>, a: int, b: int)
    requires
        0 <= a < b < words.len(),
    ensures
        name_text(words, a, a + 1) == bare_word(words, a),
        name_text(words, a, b + 1) == name_text(words, a, b).push(' ') + bare_word(words, b),
{
    let parts = Seq::new((b - a) as nat, |k: int| bare_word(words, a + k));
    let more = Seq::new((b + 1 - a) as nat, |k: int| bare_word(words, a + k));
    let one = Seq::new(1, |k: int| bare_word(words, a + k));
    assert(one =~= seq![bare_word(words, a)]);
    assert(more =~= parts.push(bare_word(words, b)));
    text::law_parts_are_joined_by_spaces(parts, bare_word(words, b));
    text::law_parts_are_joined_by_spaces(parts, bare_word(words, a));
}

proof fn lemma_name_has_part(words: Seq<Seq<char>>, a: int, b: int, i: int)
    requires
        0 <= a <= i < b <= words.len(),
    ensures
        part_of(name_text(words, a, b), bare_word(words, i)),
        name_text(words, a, b).len() >= bare_word(words, i).len(),
    decreases b - a,
{
    let w = bare_word(words, i);
    let none = Seq::<char>::empty();
    if b == a + 1 {
        let parts = Seq::new(1, |k: int| bare_word(words, a + k));
        assert(parts =~= seq![w]);
        assert(name_text(words, a, b) =~= none + w + none);
    } else {
        let before = name_text(words, a, b - 1);
        law_names_grow_by_words(words, a, b - 1);
        if i == b - 1 {
            assert(name_text(words, a, b) =~= before.push(' ') + w + none);
        } else {
            lemma_name_has_part(words, a, b - 1, i);
            let (x, y) = choose|x: Seq<char>, y: Seq<char>|
                #![trigger x + w + y]
                before == x + w + y && (x.len() > 0 ==> x.last() == ' ') && (y.len() > 0 ==> y[0]
                    == ' ');
            let rest = y.push(' ') + bare_word(words, b - 1);
            assert(name_text(words, a, b) =~= x + w + rest);
        }
    }
}

proof fn lemma_name_ascii(words: Seq<Seq<char>>, a: int, b: int)
    requires
        0 <= a < b <= words.len(),
        forall|k: int| 0 <= k < words.len() ==> utf8::is_ascii_chars(#[trigger] words[k]),
    ensures
        utf8::is_ascii_chars(name_text(words, a, b)),
    decreases b - a,
{
    text::lemma_trim_ascii(words[b - 1], Strip::NonWord);
    if b == a + 1 {
        let parts = Seq::new(1, |k: int| bare_word(words, a + k));
        assert(parts =~= seq![bare_word(words, a)]);
    } else {
        lemma_name_ascii(words, a, b - 1);
        law_names_grow_by_words(words, a, b - 1);
        let before = name_text(words, a, b - 1);
        let word = bare_word(words, b - 1);
        let name = name_text(words, a, b);
        assert forall|i: int| 0 <= i < name.len() implies '\0' <= #[trigger] name[i] <= '\u{7f}' by {
            if i < before.len() {
                assert(name[i] == before[i]);
            } else if i > before.len() {
                assert(name[i] == word[i - before.len() - 1]);
            }
        }
    }
}

proof fn lemma_start_is_named(words: Seq<Seq<char>>, i: int)
    requires
        0 <= i < words.len(),
        starts_name(words, i),
        bare_word(words, i).len() >= 2,
        forall|k: int| 0 <= k < words.len() ==> utf8::is_ascii_chars(#[trigger] words[k]),
    ensures
        exists|c: int|
            0 <= c < candidates(words).len() && part_of(
                #[trigger] candidates(words)[c],
                bare_word(words, i),
            ),
{
    let r = lemma_name_is_scanned(words, 0, i);
    let name = name_text(words, r.0, r.1);
    lemma_name_has_part(words, r.0, r.1, i);
    lemma_name_ascii(words, r.0, r.1);
    let low = unicode::lowercase(name);
    assert(low == unicode::ascii_lowercase(name));
    assert(low.len() == name.len());
    assert forall|k: int| 0 <= k < low.len() implies '\0' <= #[trigger] low[k] <= '\u{7f}' by {
        assert(low[k] == unicode::ascii_lower(name[k]));
        unicode::lemma_code_point(low[k]);
    }
    utf8::is_ascii_chars_encode_utf8(low);
    let names = proper_nouns(words, 0);
    let c = choose|c: int| 0 <= c < names.len() && names[c] == name;
    assert(candidates(words)[c] == name);
}

proof fn lemma_no_stop_word(w: Seq<char>)
    requires
        forall|i: int| 0 <= i < w.len() ==> (#[trigger] w[i]) as int <= 127,
        forall|k: int|
            0 <= k < stop_words::STOP_WORDS@.len() ==> {
                ||| (#[trigger] stop_words::STOP_WORDS@[k])@.len() != w.len()
                ||| exists|j: int|
                    0 <= j < w.len() && stop_words::STOP_WORDS@[k]@[j] != w[j]
                        && stop_words::STOP_WORDS@[k]@[j] as int != #[trigger] w[j] as int + 32
            },
    ensures
        !stop_words::is_stop_word(unicode::lowercase(w)),
{
    let low = unicode::lowercase(w);
    unicode::law_lowercase(w);
    if stop_words::is_stop_word(low) {
        let k = choose|k: int|
            0 <= k < stop_words::STOP_WORDS@.len() && #[trigger] stop_words::STOP_WORDS@[k]@ == low;
        assert(stop_words::STOP_WORDS@[k]@.len() == w.len());
        let j = choose|j: int|
            0 <= j < w.len() && stop_words::STOP_WORDS@[k]@[j] != w[j] && stop_words::STOP_WORDS@[k]@[
                j
            ] as int != #[trigger] w[j] as int + 32;
        assert(low[j] as int == w[j] as int || low[j] as int == w[j] as int + 32);
    }
}

/// Every capitalized word in mid-sentence is named: a word of ASCII text that is not the first, and that
/// follows no word with `.`, `!`, `?` or `:` at its end, is a part of some candidate, without what
/// surrounds it, if it then has two characters or more, starts with `A` to `Z` and is no stop word.
pub proof fn law_capitals_in_mid_sentence_are_named(
    words: Seq<Seq<char>>,
    i: int,
    a: Seq<char>,
    w: Seq<char>,
    b: Seq<char>,
)
    requires
        0 < i < words.len(),
        forall|k: int, j: int|
            0 <= k < words.len() && 0 <= j < words[k].len() ==> (#[trigger] words[k][j]) as int
                <= 127,
        words[i] == a + w + b,
        forall|j: int|
            0 <= j < a.len() ==> !('0' <= #[trigger] a[j] <= '9' || 'A' <= a[j] <= 'Z' || 'a' <= a[j]
                <= 'z' || a[j] == '-'),
        forall|j: int|
            0 <= j < b.len() ==> !('0' <= #[trigger] b[j] <= '9' || 'A' <= b[j] <= 'Z' || 'a' <= b[j]
                <= 'z' || b[j] == '-'),
        w.len() >= 2,
        'A' <= w[0] <= 'Z',
        '0' <= w.last() <= '9' || 'A' <= w.last() <= 'Z' || 'a' <= w.last() <= 'z' || w.last() == '-',
        words[i - 1].len() > 0 ==> words[i - 1].last() != '.' && words[i - 1].last() != '!' && words[i
            - 1].last() != '?' && words[i - 1].last() != ':',
        forall|k: int|
            0 <= k < stop_words::STOP_WORDS@.len() ==> {
                ||| (#[trigger] stop_words::STOP_WORDS@[k])@.len() != w.len()
                ||| exists|j: int|
                    0 <= j < w.len() && stop_words::STOP_WORDS@[k]@[j] != w[j]
                        && stop_words::STOP_WORDS@[k]@[j] as int != #[trigger] w[j] as int + 32
            },
    ensures
        exists|c: int|
            0 <= c < candidates(words).len() && part_of(#[trigger] candidates(words)[c], w),
{
    lemma_core_is_bare(words, i, a, w, b);
    lemma_no_stop_word(w);
    text::lemma_utf8_len_at_least(w);
    assert(starts_name(words, i));
    lemma_start_is_named(words, i);
}

proof fn lemma_core_is_bare(
    words: Seq<Seq<char>>,
    i: int,
    a: Seq<char>,
    w: Seq<char>,
    b: Seq<char>,
)
    requires
        0 <= i < words.len(),
        forall|k: int, j: int|
            0 <= k < words.len() && 0 <= j < words[k].len() ==> (#[trigger] words[k][j]) as int
                <= 127,
        words[i] == a + w + b,
        forall|j: int|
            0 <= j < a.len() ==> !('0' <= #[trigger] a[j] <= '9' || 'A' <= a[j] <= 'Z' || 'a' <= a[j]
                <= 'z' || a[j] == '-'),
        forall|j: int|
            0 <= j < b.len() ==> !('0' <= #[trigger] b[j] <= '9' || 'A' <= b[j] <= 'Z' || 'a' <= b[j]
                <= 'z' || b[j] == '-'),
        w.len() >= 2,
        'A' <= w[0] <= 'Z',
        '0' <= w.last() <= '9' || 'A' <= w.last() <= 'Z' || 'a' <= w.last() <= 'z' || w.last() == '-',
    ensures
        bare_word(words, i) == w,
        forall|k: int| 0 <= k < words.len() ==> utf8::is_ascii_chars(#[trigger] words[k]),
        forall|j: int| 0 <= j < w.len() ==> (#[trigger] w[j]) as int <= 127,
{
    let whole = words[i];
    assert forall|j: int| 0 <= j < a.len() implies Strip::NonWord.holds(#[trigger] a[j]) by {
        assert(whole[j] == a[j]);
        assert(words[i][j] as int <= 127);
    }
    assert forall|j: int| 0 <= j < b.len() implies Strip::NonWord.holds(#[trigger] b[j]) by {
        assert(whole[a.len() + w.len() + j] == b[j]);
        assert(words[i][a.len() + w.len() + j] as int <= 127);
    }
    assert forall|j: int| 0 <= j < w.len() implies (#[trigger] w[j]) as int <= 127 by {
        assert(whole[a.len() + j] == w[j]);
        assert(words[i][a.len() + j] as int <= 127);
    }
    text::law_stripping_finds_the_core(a, w, b, Strip::NonWord);
    assert forall|k: int| 0 <= k < words.len() implies utf8::is_ascii_chars(#[trigger] words[k]) by {
        assert forall|j: int| 0 <= j < words[k].len() implies '\0' <= #[trigger] words[k][j]
            <= '\u{7f}' by {
            unicode::lemma_code_point(words[k][j]);
        }
    }
}

/// A word that opens a sentence is named too if its shape tells: it is no stop word, and it is CamelCase
/// or an acronym.
pub proof fn law_telling_openers_are_named(
    words: Seq<Seq<char>>,
    i: int,
    a: Seq<char>,
    w: Seq<char>,
    b: Seq<char>,
)
    requires
        0 <= i < words.len(),
        forall|k: int, j: int|
            0 <= k < words.len() && 0 <= j < words[k].len() ==> (#[trigger] words[k][j]) as int
                <= 127,
        words[i] == a + w + b,
        forall|j: int|
            0 <= j < a.len() ==> !('0' <= #[trigger] a[j] <= '9' || 'A' <= a[j] <= 'Z' || 'a' <= a[j]
                <= 'z' || a[j] == '-'),
        forall|j: int|
            0 <= j < b.len() ==> !('0' <= #[trigger] b[j] <= '9' || 'A' <= b[j] <= 'Z' || 'a' <= b[j]
                <= 'z' || b[j] == '-'),
        w.len() >= 2,
        'A' <= w[0] <= 'Z',
        '0' <= w.last() <= '9' || 'A' <= w.last() <= 'Z' || 'a' <= w.last() <= 'z' || w.last() == '-',
        lexical::camel_cased(w) || lexical::acronym_shaped(w),
        forall|k: int|
            0 <= k < stop_words::STOP_WORDS@.len() ==> {
                ||| (#[trigger] stop_words::STOP_WORDS@[k])@.len() != w.len()
                ||| exists|j: int|
                    0 <= j < w.len() && stop_words::STOP_WORDS@[k]@[j] != w[j]
                        && stop_words::STOP_WORDS@[k]@[j] as int != #[trigger] w[j] as int + 32
            },
    ensures
        exists|c: int|
            0 <= c < candidates(words).len() && part_of(#[trigger] candidates(words)[c], w),
{
    lemma_core_is_bare(words, i, a, w, b);
    lemma_no_stop_word(w);
    text::lemma_utf8_len_at_least(w);
    assert(starts_name(words, i));
    lemma_start_is_named(words, i);
}

/// Where a name starts: at a word that, without what surrounds it, has two characters or one beyond
/// ASCII, starts with an uppercase letter, is in lowercase none of the stop words and, where it is the
/// first word or follows one that ends in `.`, `!`, `?` or `:`, is CamelCase or an acronym.
pub proof fn law_where_names_start(
    words: Seq<Seq<char>>,
    i: int,
    a: Seq<char>,
    w: Seq<char>,
    b: Seq<char>,
)
    requires
        0 <= i < words.len(),
        words[i] == a + w + b,
        forall|j: int| 0 <= j < a.len() ==> Strip::NonWord.holds(#[trigger] a[j]),
        forall|j: int| 0 <= j < b.len() ==> Strip::NonWord.holds(#[trigger] b[j]),
        w.len() > 0 ==> !Strip::NonWord.holds(w[0]) && !Strip::NonWord.holds(w.last()),
    ensures
        starts_name(words, i) <==> {
            &&& w.len() >= 2 || (w.len() == 1 && w[0] as int > 127)
            &&& unicode::is_uppercase(w[0])
            &&& forall|k: int|
                0 <= k < stop_words::STOP_WORDS@.len() ==> (#[trigger] stop_words::STOP_WORDS@[k])@
                    != unicode::lowercase(w)
            &&& i == 0 || (words[i - 1].len() > 0 && (words[i - 1].last() == '.' || words[i - 1].last()
                == '!' || words[i - 1].last() == '?' || words[i - 1].last() == ':'))
                ==> lexical::camel_cased(w) || lexical::acronym_shaped(w)
        },
{
    text::law_stripping_finds_the_core(a, w, b, Strip::NonWord);
    assert(bare_word(words, i) == w);
    text::lemma_utf8_len_at_least(w);
    if w.len() == 1 {
        assert(w =~= seq![w[0]]);
        text::law_byte_lengths(a, b, w[0]);
    } else if w.len() == 0 {
        assert(w =~= Seq::empty());
        text::law_byte_lengths(a, b, ' ');
    }
}

/// Where a name goes on: with a word that is not the first and follows none that ends in `.`, `!`, `?` or
/// `:`, and that starts with an uppercase letter without what surrounds it, or that is a stop word, does
/// not end in one of those signs itself, and has after it a word whose first letter or number is an
/// uppercase letter.
pub proof fn law_where_names_go_on(
    words: Seq<Seq<char>>,
    j: int,
    a: Seq<char>,
    w: Seq<char>,
    b: Seq<char>,
)
    requires
        0 <= j < words.len(),
        words[j] == a + w + b,
        forall|i: int| 0 <= i < a.len() ==> Strip::NonWord.holds(#[trigger] a[i]),
        forall|i: int| 0 <= i < b.len() ==> Strip::NonWord.holds(#[trigger] b[i]),
        w.len() > 0 ==> !Strip::NonWord.holds(w[0]) && !Strip::NonWord.holds(w.last()),
    ensures
        continues_name(words, j) <==> {
            &&& j > 0
            &&& words[j - 1].len() > 0 ==> words[j - 1].last() != '.' && words[j - 1].last() != '!'
                && words[j - 1].last() != '?' && words[j - 1].last() != ':'
            &&& w.len() > 0
            &&& unicode::is_uppercase(w[0]) || {
                let next = text::trim(words[j + 1], Strip::NonAlphanumeric);
                &&& j + 1 < words.len()
                &&& exists|k: int|
                    0 <= k < stop_words::STOP_WORDS@.len() && (
                    #[trigger] stop_words::STOP_WORDS@[k])@ == unicode::lowercase(w)
                &&& words[j].len() > 0 ==> words[j].last() != '.' && words[j].last() != '!'
                    && words[j].last() != '?' && words[j].last() != ':'
                &&& next.len() > 0
                &&& unicode::is_uppercase(next[0])
            }
        },
{
    text::law_stripping_finds_the_core(a, w, b, Strip::NonWord);
    assert(bare_word(words, j) == w);
}

/// A name goes on as long as it can, and no longer.
pub proof fn law_names_are_as_long_as_they_can_be(words: Seq<Seq<char>>, j: int)
    requires
        0 <= j <= words.len(),
    ensures
        j <= name_end(words, j) <= words.len(),
        forall|k: int| j <= k < name_end(words, j) ==> #[trigger] continues_name(words, k),
        name_end(words, j) < words.len() ==> !continues_name(words, name_end(words, j)),
    decreases words.len() - j,
{
    lemma_name_end_bounds(words, j);
    if j < words.len() && continues_name(words, j) {
        law_names_are_as_long_as_they_can_be(words, j + 1);
    }
}

/// Whether runs of words, none of which reaches into another, make the names.
pub open spec fn make_names(
    words: Seq<Seq<char>>,
    from: int,
    names: Seq<Seq<char>>,
    runs: Seq<(int, int)>,
) -> bool {
    &&& runs.len() == names.len()
    &&& forall|k: int|
        0 <= k < runs.len() ==> {
            let run = #[trigger] runs[k];
            &&& from <= run.0 < run.1 <= words.len()
            &&& starts_name(words, run.0)
            &&& run.1 == name_end(words, run.0 + 1)
            &&& names[k] == name_text(words, run.0, run.1)
        }
    &&& forall|k: int, m: int|
        0 <= k < m < runs.len() ==> (#[trigger] runs[k]).1 <= (#[trigger] runs[m]).0
}

/// Names do not reach into each other: each is made of a run of words of its own, and they come in the
/// order of the text.
pub proof fn law_names_are_apart(words: Seq<Seq<char>>, from: int)
    requires
        0 <= from,
    ensures
        exists|runs: Seq<(int, int)>|
            #[trigger] make_names(words, from, proper_nouns(words, from), runs),
    decreases words.len() - from,
{
    let names = proper_nouns(words, from);
    if from < words.len() {
        lemma_name_end_bounds(words, from + 1);
        let end = name_end(words, from + 1);
        let next = if starts_name(words, from) {
            end
        } else {
            from + 1
        };
        law_names_are_apart(words, next);
        let rest = proper_nouns(words, next);
        let later = choose|runs: Seq<(int, int)>| #[trigger] make_names(words, next, rest, runs);
        let name = name_text(words, from, end);
        if starts_name(words, from) && text::utf8_len(unicode::lowercase(name)) >= 2 {
            let runs = seq![(from, end)] + later;
            assert(names =~= seq![name] + rest);
            assert forall|k: int| 0 <= k < runs.len() implies {
                let run = #[trigger] runs[k];
                &&& from <= run.0 < run.1 <= words.len()
                &&& starts_name(words, run.0)
                &&& run.1 == name_end(words, run.0 + 1)
                &&& names[k] == name_text(words, run.0, run.1)
            } by {
                if k > 0 {
                    assert(runs[k] == later[k - 1]);
                    assert(names[k] == rest[k - 1]);
                }
            }
            assert forall|k: int, m: int| 0 <= k < m < runs.len() implies (#[trigger] runs[k]).1 <= (
            #[trigger] runs[m]).0 by {
                assert(runs[m] == later[m - 1]);
                if k > 0 {
                    assert(runs[k] == later[k - 1]);
                }
            }
            assert(make_names(words, from, names, runs));
        } else {
            assert(names == rest);
            assert(make_names(words, from, names, later)) by {
                assert forall|k: int| 0 <= k < later.len() implies {
                    let run = #[trigger] later[k];
                    &&& from <= run.0 < run.1 <= words.len()
                    &&& starts_name(words, run.0)
                    &&& run.1 == name_end(words, run.0 + 1)
                    &&& names[k] == name_text(words, run.0, run.1)
                } by {
                    assert(next <= later[k].0);
                }
            }
        }
    } else {
        let none = Seq::<(int, int)>::empty();
        assert(make_names(words, from, names, none));
    }
}

/// What each rule accepts, character by character: something before the first `@` and a dot after it; more
/// than ten bytes that start with `http://` or `https://`; four bytes or more that start with `/`, `./`
/// or `../`; a version number; and a CamelCase word that is no stop word.
pub proof fn law_what_rules_accept(w: Seq<char>)
    ensures
        Rule::Email.accepts(w) <==> exists|k: int, d: int|
            0 < k < d < w.len() && #[trigger] w[k] == '@' && #[trigger] w[d] == '.' && forall|j: int|
                0 <= j < k ==> w[j] != '@',
        Rule::Url.accepts(w) <==> text::utf8_len(w) > 10 && ((w.len() >= 7 && w.take(7) == seq![
            'h',
            't',
            't',
            'p',
            ':',
            '/',
            '/',
        ]) || (w.len() >= 8 && w.take(8) == seq!['h', 't', 't', 'p', 's', ':', '/', '/'])),
        Rule::FilePath.accepts(w) <==> text::utf8_len(w) >= 4 && {
            ||| w.len() >= 1 && w[0] == '/'
            ||| w.len() >= 2 && w[0] == '.' && w[1] == '/'
            ||| w.len() >= 3 && w[0] == '.' && w[1] == '.' && w[2] == '/'
        },
        Rule::Version.accepts(w) <==> lexical::version_shaped(w),
        Rule::CamelCase.accepts(w) <==> lexical::camel_cased(w) && forall|k: int|
            0 <= k < stop_words::STOP_WORDS@.len() ==> (#[trigger] stop_words::STOP_WORDS@[k])@
                != unicode::lowercase(w),
{
    reveal_strlit("http://");
    reveal_strlit("https://");
    reveal_strlit("/");
    reveal_strlit("./");
    reveal_strlit("../");
    w.index_of_first_ensures('@');
    if Rule::Email.accepts(w) {
        let k = w.index_of_first('@').unwrap();
        let rest = w.skip(k + 1);
        let at = choose|at: int| 0 <= at < rest.len() && rest[at] == '.';
        assert(w[k] == '@' && w[k + 1 + at] == '.');
    }
    if exists|k: int, d: int|
        0 < k < d < w.len() && #[trigger] w[k] == '@' && #[trigger] w[d] == '.' && forall|j: int|
            0 <= j < k ==> w[j] != '@' {
        let (k, d) = choose|k: int, d: int|
            0 < k < d < w.len() && #[trigger] w[k] == '@' && #[trigger] w[d] == '.' && forall|j: int|
                0 <= j < k ==> w[j] != '@';
        assert(w.index_of_first('@') == Some(k));
        assert(w.skip(k + 1)[d - k - 1] == '.');
    }
    assert("http://"@ =~= seq!['h', 't', 't', 'p', ':', '/', '/']);
    assert("https://"@ =~= seq!['h', 't', 't', 'p', 's', ':', '/', '/']);
    if w.len() >= 7 {
        assert(w.subrange(0, 7) =~= w.take(7));
    }
    if w.len() >= 8 {
        assert(w.subrange(0, 8) =~= w.take(8));
    }
    if w.len() >= 1 {
        assert(w.subrange(0, 1) =~= "/"@ <==> w[0] == '/') by {
            assert(w.subrange(0, 1)[0] == w[0]);
        }
    }
    if w.len() >= 2 {
        assert(w.subrange(0, 2) =~= "./"@ <==> w[0] == '.' && w[1] == '/') by {
            assert(w.subrange(0, 2)[0] == w[0] && w.subrange(0, 2)[1] == w[1]);
        }
    }
    if w.len() >= 3 {
        assert(w.subrange(0, 3) =~= "../"@ <==> w[0] == '.' && w[1] == '.' && w[2] == '/') by {
            assert(w.subrange(0, 3)[0] == w[0] && w.subrange(0, 3)[1] == w[1] && w.subrange(0, 3)[2]
                == w[2]);
        }
    }
}

/// Each rule looks at the core of a word, from which it strips a set of its own, and what it accepts there
/// is a candidate, whatever surrounds it.
pub proof fn law_wrapped_words_are_caught(
    words: Seq<Seq<char>>,
    rule: Rule,
    i: int,
    a: Seq<char>,
    w: Seq<char>,
    b: Seq<char>,
    set: Strip,
)
    requires
        0 <= i < words.len(),
        words[i] == a + w + b,
        set == match rule {
            Rule::Email => Strip::NonAddress,
            Rule::Url => Strip::UrlWrapping,
            Rule::FilePath => Strip::PathWrapping,
            Rule::Version => Strip::VersionWrapping,
            Rule::CamelCase => Strip::NonAlphanumeric,
        },
        forall|j: int| 0 <= j < a.len() ==> set.holds(#[trigger] a[j]),
        forall|j: int| 0 <= j < b.len() ==> set.holds(#[trigger] b[j]),
        w.len() > 0 ==> !set.holds(w[0]) && !set.holds(w.last()),
        rule.accepts(w),
    ensures
        candidates(words).contains(w),
{
    text::law_stripping_finds_the_core(a, w, b, set);
    law_accepted_words_are_caught(words, rule, i);
}

/// Words are accepted one by one: those of two lists are those of the first and those of the second, and a
/// single word gives its core if the rule accepts that, and else nothing.
pub proof fn law_words_are_accepted_one_by_one(
    words: Seq<Seq<char>>,
    more: Seq<Seq<char>>,
    w: Seq<char>,
    rule: Rule,
)
    ensures
        accepted_words(words + more, rule) == accepted_words(words, rule) + accepted_words(more, rule),
        rule.accepts(text::trim(w, rule.strip())) ==> accepted_words(seq![w], rule) == seq![
            text::trim(w, rule.strip()),
        ],
        !rule.accepts(text::trim(w, rule.strip())) ==> accepted_words(seq![w], rule).len() == 0,
    decreases more.len(),
{
    assert(seq![w].drop_last() =~= Seq::<Seq<char>>::empty());
    assert(accepted_words(Seq::<Seq<char>>::empty(), rule) =~= Seq::<Seq<char>>::empty());
    assert(seq![w].last() == w);
    if rule.accepts(text::trim(w, rule.strip())) {
        assert(accepted_words(seq![w], rule) =~= seq![text::trim(w, rule.strip())]);
    }
    if more.len() == 0 {
        assert(words + more =~= words);
        assert(accepted_words(words, rule) =~= accepted_words(words, rule) + accepted_words(
            more,
            rule,
        ));
    } else {
        law_words_are_accepted_one_by_one(words, more.drop_last(), w, rule);
        assert((words + more).drop_last() =~= words + more.drop_last());
        assert((words + more).last() == more.last());
        assert(accepted_words(words + more, rule) =~= accepted_words(words, rule) + accepted_words(
            more,
            rule,
        ));
    }
}

/// The heuristics run in their order: the candidates are the names, and then what each rule accepts, and
/// nothing else.
pub proof fn law_heuristics_run_in_order(words: Seq<Seq<char>>)
    ensures
        exists|rest: Seq<Seq<char>>|
            #![trigger proper_nouns(words, 0) + rest]
            candidates(words) == proper_nouns(words, 0) + rest && rest == accepted_words(
                words,
                Rule::Email,
            ) + (accepted_words(words, Rule::Url) + (accepted_words(words, Rule::FilePath) + (
            accepted_words(words, Rule::Version) + accepted_words(words, Rule::CamelCase)))),
{
    let rest = accepted_words(words, Rule::Email) + (accepted_words(words, Rule::Url) + (
    accepted_words(words, Rule::FilePath) + (accepted_words(words, Rule::Version) + accepted_words(
        words,
        Rule::CamelCase,
    ))));
    assert(candidates(words) =~= proper_nouns(words, 0) + rest);
}

/// Whether name `k` is in lowercase none of the existing ones and none of those before it.
pub open spec fn is_fresh(names: Seq<Seq<char>>, existing: Seq<Seq<char>>, k: int) -> bool {
    &&& forall|e: int|
        0 <= e < existing.len() ==> unicode::lowercase(#[trigger] existing[e]) != unicode::lowercase(
            names[k],
        )
    &&& forall|m: int|
        0 <= m < k ==> unicode::lowercase(#[trigger] names[m]) != unicode::lowercase(names[k])
}

/// Whether `kept` are the fresh names, in their order, at the places `at`.
pub open spec fn keeps_fresh(
    names: Seq<Seq<char>>,
    existing: Seq<Seq<char>>,
    kept: Seq<Seq<char>>,
    at: Seq<int>,
) -> bool {
    &&& at.len() == kept.len()
    &&& forall|i: int|
        0 <= i < at.len() ==> 0 <= #[trigger] at[i] < names.len() && kept[i] == names[at[i]]
            && is_fresh(names, existing, at[i])
    &&& forall|i: int, j: int| 0 <= i < j < at.len() ==> #[trigger] at[i] < #[trigger] at[j]
    &&& forall|k: int|
        0 <= k < names.len() && #[trigger] is_fresh(names, existing, k) ==> at.contains(k)
}

/// What is kept are the fresh names, all of them, each as it was first written and in its place.
pub proof fn law_fresh_names_are_kept(names: Seq<Seq<char>>, existing: Seq<Seq<char>>)
    ensures
        exists|at: Seq<int>| #[trigger]
            keeps_fresh(names, existing, novel(names, existing), at),
    decreases names.len(),
{
    let all = novel(names, existing);
    if names.len() == 0 {
        let none = Seq::<int>::empty();
        assert(keeps_fresh(names, existing, all, none));
    } else {
        let earlier = names.drop_last();
        let n = earlier.len() as int;
        law_fresh_names_are_kept(earlier, existing);
        let kept = novel(earlier, existing);
        let before = choose|at: Seq<int>| #[trigger] keeps_fresh(earlier, existing, kept, at);
        assert forall|k: int| 0 <= k < n implies (is_fresh(earlier, existing, k) <==> #[trigger]
            is_fresh(names, existing, k)) by {
            assert(earlier[k] == names[k]);
            if is_fresh(earlier, existing, k) {
                assert forall|m: int| 0 <= m < k implies unicode::lowercase(#[trigger] names[m])
                    != unicode::lowercase(names[k]) by {
                    assert(earlier[m] == names[m]);
                }
            }
            if is_fresh(names, existing, k) {
                assert forall|m: int| 0 <= m < k implies unicode::lowercase(#[trigger] earlier[m])
                    != unicode::lowercase(earlier[k]) by {
                    assert(earlier[m] == names[m]);
                }
            }
        }
        let known = named_in(names.last(), existing) || named_in(names.last(), earlier);
        assert(is_fresh(names, existing, n) <==> !known) by {
            if !known {
                assert forall|m: int| 0 <= m < n implies unicode::lowercase(#[trigger] names[m])
                    != unicode::lowercase(names[n]) by {
                    assert(earlier[m] == names[m]);
                }
            }
            if named_in(names.last(), earlier) {
                let m = choose|m: int|
                    0 <= m < earlier.len() && unicode::lowercase(#[trigger] earlier[m])
                        == unicode::lowercase(names.last());
                assert(names[m] == earlier[m]);
            }
        }
        let at = if known {
            before
        } else {
            before.push(n)
        };
        assert forall|i: int| 0 <= i < at.len() implies 0 <= #[trigger] at[i] < names.len() && all[i]
            == names[at[i]] && is_fresh(names, existing, at[i]) by {
            if i < before.len() {
                assert(at[i] == before[i]);
                assert(is_fresh(earlier, existing, before[i]));
                assert(is_fresh(names, existing, before[i]));
                assert(all[i] == kept[i]);
            }
        }
        assert forall|k: int| 0 <= k < names.len() && #[trigger] is_fresh(
            names,
            existing,
            k,
        ) implies at.contains(k) by {
            if k < n {
                assert(is_fresh(earlier, existing, k));
                assert(before.contains(k));
                let i = choose|i: int| 0 <= i < before.len() && before[i] == k;
                assert(at[i] == k);
            } else {
                assert(at[at.len() - 1] == k);
            }
        }
        assert forall|i: int, j: int| 0 <= i < j < at.len() implies #[trigger] at[i]
            < #[trigger] at[j] by {
            assert(at[i] == before[i]);
            if j < before.len() {
                assert(at[j] == before[j]);
            }
        }
        assert(keeps_fresh(names, existing, all, at));
    }
}

} // verus!
