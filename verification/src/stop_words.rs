//! Common words that are no entity by themselves, though a sentence may capitalize them.

use crate::text;
use crate::unicode;
use vstd::prelude::*;
use vstd::utf8;

verus! {

/// The stop words, in lowercase.
pub const STOP_WORDS: [&'static str; 123] = [
    "the", "a", "an", "is", "are", "was", "were", "be", "been", "being", "have", "has", "had",
    "do", "does", "did", "will", "would", "could", "should", "may", "might", "shall", "can",
    "need", "must", "it", "its", "this", "that", "these", "those", "i", "we", "you", "he",
    "she", "they", "me", "him", "her", "us", "them", "my", "your", "his", "our", "their",
    "what", "which", "who", "whom", "where", "when", "why", "how", "not", "no", "nor", "but",
    "or", "and", "if", "then", "else", "for", "from", "with", "without", "about", "between",
    "through", "during", "before", "after", "above", "below", "to", "of", "in", "on", "at",
    "by", "up", "out", "off", "over", "under", "again", "further", "once", "here", "there",
    "all", "each", "every", "both", "few", "more", "most", "other", "some", "such", "only",
    "own", "same", "so", "than", "too", "very", "just", "because", "as", "until", "while",
    "also", "however", "although", "since", "already", "still", "yet", "now",
];

/// Whether the lowercase text `w` is a stop word.
pub open spec fn is_stop_word(w: Seq<char>) -> bool {
    exists|k: int| 0 <= k < STOP_WORDS@.len() && #[trigger] STOP_WORDS@[k]@ == w
}

/// Whether `list` holds the stop words, in order.
pub open spec fn lists_stop_words(list: Seq<String>) -> bool {
    &&& list.len() == STOP_WORDS@.len()
    &&& forall|k: int| 0 <= k < list.len() ==> #[trigger] list[k]@ == STOP_WORDS@[k]@
}

/// The stop words as strings.
pub fn stop_word_list() -> (r: Vec<String>)
    ensures
        lists_stop_words(r@),
{
    let mut r: Vec<String> = Vec::new();
    let listed = STOP_WORDS;
    for k in 0..listed.len()
        invariant
            listed == STOP_WORDS,
            r.len() == k,
            forall|j: int| 0 <= j < k ==> #[trigger] r@[j]@ == STOP_WORDS@[j]@,
    {
        r.push(listed[k].to_string());
    }
    r
}

/// Whether the lowercase text `w` is a stop word, by the list of them.
pub fn in_stop_words(w: &String, list: &Vec<String>) -> (r: bool)
    requires
        lists_stop_words(list@),
    ensures
        r == is_stop_word(w@),
{
    proof {
        if is_stop_word(w@) {
            let k = choose|k: int| 0 <= k < STOP_WORDS@.len() && #[trigger] STOP_WORDS@[k]@ == w@;
            assert(list@[k]@ == w@);
        }
        if text::in_list(w@, list@) {
            let k = choose|k: int| 0 <= k < list.len() && #[trigger] list@[k]@ == w@;
            assert(STOP_WORDS@[k]@ == w@);
        }
    }
    text::has_string(list, w)
}

/// A text of one or more letters from `a` to `z`.
pub open spec fn plain_letters(w: Seq<char>) -> bool {
    &&& w.len() > 0
    &&& forall|i: int| 0 <= i < w.len() ==> 'a' <= #[trigger] w[i] <= 'z'
}

/// Every stop word is made of lowercase ASCII letters.
pub proof fn lemma_stop_words_plain(k: int)
    requires
        0 <= k < STOP_WORDS@.len(),
    ensures
        plain_letters(STOP_WORDS@[k]@),
{
    reveal_strlit("the"); reveal_strlit("a"); reveal_strlit("an"); reveal_strlit("is");
    reveal_strlit("are"); reveal_strlit("was"); reveal_strlit("were"); reveal_strlit("be");
    reveal_strlit("been"); reveal_strlit("being"); reveal_strlit("have"); reveal_strlit("has");
    reveal_strlit("had"); reveal_strlit("do"); reveal_strlit("does"); reveal_strlit("did");
    reveal_strlit("will"); reveal_strlit("would"); reveal_strlit("could"); reveal_strlit("should");
    reveal_strlit("may"); reveal_strlit("might"); reveal_strlit("shall"); reveal_strlit("can");
    reveal_strlit("need"); reveal_strlit("must"); reveal_strlit("it"); reveal_strlit("its");
    reveal_strlit("this"); reveal_strlit("that"); reveal_strlit("these"); reveal_strlit("those");
    reveal_strlit("i"); reveal_strlit("we"); reveal_strlit("you"); reveal_strlit("he");
    reveal_strlit("she"); reveal_strlit("they"); reveal_strlit("me"); reveal_strlit("him");
    reveal_strlit("her"); reveal_strlit("us"); reveal_strlit("them"); reveal_strlit("my");
    reveal_strlit("your"); reveal_strlit("his"); reveal_strlit("our"); reveal_strlit("their");
    reveal_strlit("what"); reveal_strlit("which"); reveal_strlit("who"); reveal_strlit("whom");
    reveal_strlit("where"); reveal_strlit("when"); reveal_strlit("why"); reveal_strlit("how");
    reveal_strlit("not"); reveal_strlit("no"); reveal_strlit("nor"); reveal_strlit("but");
    reveal_strlit("or"); reveal_strlit("and"); reveal_strlit("if"); reveal_strlit("then");
    reveal_strlit("else"); reveal_strlit("for"); reveal_strlit("from"); reveal_strlit("with");
    reveal_strlit("without"); reveal_strlit("about"); reveal_strlit("between");
    reveal_strlit("through"); reveal_strlit("during"); reveal_strlit("before");
    reveal_strlit("after"); reveal_strlit("above"); reveal_strlit("below"); reveal_strlit("to");
    reveal_strlit("of"); reveal_strlit("in"); reveal_strlit("on"); reveal_strlit("at");
    reveal_strlit("by"); reveal_strlit("up"); reveal_strlit("out"); reveal_strlit("off");
    reveal_strlit("over"); reveal_strlit("under"); reveal_strlit("again"); reveal_strlit("further");
    reveal_strlit("once"); reveal_strlit("here"); reveal_strlit("there"); reveal_strlit("all");
    reveal_strlit("each"); reveal_strlit("every"); reveal_strlit("both"); reveal_strlit("few");
    reveal_strlit("more"); reveal_strlit("most"); reveal_strlit("other"); reveal_strlit("some");
    reveal_strlit("such"); reveal_strlit("only"); reveal_strlit("own"); reveal_strlit("same");
    reveal_strlit("so"); reveal_strlit("than"); reveal_strlit("too"); reveal_strlit("very");
    reveal_strlit("just"); reveal_strlit("because"); reveal_strlit("as"); reveal_strlit("until");
    reveal_strlit("while"); reveal_strlit("also"); reveal_strlit("however");
    reveal_strlit("although"); reveal_strlit("since"); reveal_strlit("already");
    reveal_strlit("still"); reveal_strlit("yet"); reveal_strlit("now");
}

/// A text with a character that is no ASCII letter is no stop word, whatever the case of its
/// letters.
pub proof fn lemma_other_character(w: Seq<char>, i: int)
    requires
        0 <= i < w.len(),
        !('a' <= unicode::ascii_lower(w[i]) <= 'z'),
    ensures
        !is_stop_word(unicode::ascii_lowercase(w)),
{
    let lower = unicode::ascii_lowercase(w);
    if is_stop_word(lower) {
        let k = choose|k: int| 0 <= k < STOP_WORDS@.len() && #[trigger] STOP_WORDS@[k]@ == lower;
        lemma_stop_words_plain(k);
        assert('a' <= lower[i] <= 'z');
    }
}

/// A text whose lowercase form is no stop word is none in ASCII lowercase either.
pub proof fn lemma_lowercase_forms(w: Seq<char>)
    requires
        !is_stop_word(unicode::lowercase(w)),
    ensures
        !is_stop_word(unicode::ascii_lowercase(w)),
{
    if !utf8::is_ascii_chars(w) {
        let i = choose|i: int| 0 <= i < w.len() && !('\0' <= #[trigger] w[i] <= '\u{7f}');
        lemma_other_character(w, i);
    }
}

/// There are 123 stop words, and these are they.
pub proof fn law_stop_words()
    ensures
        STOP_WORDS@.len() == 123,
        is_stop_word("a"@),
        is_stop_word("about"@),
        is_stop_word("above"@),
        is_stop_word("after"@),
        is_stop_word("again"@),
        is_stop_word("all"@),
        is_stop_word("already"@),
        is_stop_word("also"@),
        is_stop_word("although"@),
        is_stop_word("an"@),
        is_stop_word("and"@),
        is_stop_word("are"@),
        is_stop_word("as"@),
        is_stop_word("at"@),
        is_stop_word("be"@),
        is_stop_word("because"@),
        is_stop_word("been"@),
        is_stop_word("before"@),
        is_stop_word("being"@),
        is_stop_word("below"@),
        is_stop_word("between"@),
        is_stop_word("both"@),
        is_stop_word("but"@),
        is_stop_word("by"@),
        is_stop_word("can"@),
        is_stop_word("could"@),
        is_stop_word("did"@),
        is_stop_word("do"@),
        is_stop_word("does"@),
        is_stop_word("during"@),
        is_stop_word("each"@),
        is_stop_word("else"@),
        is_stop_word("every"@),
        is_stop_word("few"@),
        is_stop_word("for"@),
        is_stop_word("from"@),
        is_stop_word("further"@),
        is_stop_word("had"@),
        is_stop_word("has"@),
        is_stop_word("have"@),
        is_stop_word("he"@),
        is_stop_word("her"@),
        is_stop_word("here"@),
        is_stop_word("him"@),
        is_stop_word("his"@),
        is_stop_word("how"@),
        is_stop_word("however"@),
        is_stop_word("i"@),
        is_stop_word("if"@),
        is_stop_word("in"@),
        is_stop_word("is"@),
        is_stop_word("it"@),
        is_stop_word("its"@),
        is_stop_word("just"@),
        is_stop_word("may"@),
        is_stop_word("me"@),
        is_stop_word("might"@),
        is_stop_word("more"@),
        is_stop_word("most"@),
        is_stop_word("must"@),
        is_stop_word("my"@),
        is_stop_word("need"@),
        is_stop_word("no"@),
        is_stop_word("nor"@),
        is_stop_word("not"@),
        is_stop_word("now"@),
        is_stop_word("of"@),
        is_stop_word("off"@),
        is_stop_word("on"@),
        is_stop_word("once"@),
        is_stop_word("only"@),
        is_stop_word("or"@),
        is_stop_word("other"@),
        is_stop_word("our"@),
        is_stop_word("out"@),
        is_stop_word("over"@),
        is_stop_word("own"@),
        is_stop_word("same"@),
        is_stop_word("shall"@),
        is_stop_word("she"@),
        is_stop_word("should"@),
        is_stop_word("since"@),
        is_stop_word("so"@),
        is_stop_word("some"@),
        is_stop_word("still"@),
        is_stop_word("such"@),
        is_stop_word("than"@),
        is_stop_word("that"@),
        is_stop_word("the"@),
        is_stop_word("their"@),
        is_stop_word("them"@),
        is_stop_word("then"@),
        is_stop_word("there"@),
        is_stop_word("these"@),
        is_stop_word("they"@),
        is_stop_word("this"@),
        is_stop_word("those"@),
        is_stop_word("through"@),
        is_stop_word("to"@),
        is_stop_word("too"@),
        is_stop_word("under"@),
        is_stop_word("until"@),
        is_stop_word("up"@),
        is_stop_word("us"@),
        is_stop_word("very"@),
        is_stop_word("was"@),
        is_stop_word("we"@),
        is_stop_word("were"@),
        is_stop_word("what"@),
        is_stop_word("when"@),
        is_stop_word("where"@),
        is_stop_word("which"@),
        is_stop_word("while"@),
        is_stop_word("who"@),
        is_stop_word("whom"@),
        is_stop_word("why"@),
        is_stop_word("will"@),
        is_stop_word("with"@),
        is_stop_word("without"@),
        is_stop_word("would"@),
        is_stop_word("yet"@),
        is_stop_word("you"@),
        is_stop_word("your"@),
{
    assert(STOP_WORDS@[1]@ == "a"@);
    assert(STOP_WORDS@[69]@ == "about"@);
    assert(STOP_WORDS@[75]@ == "above"@);
    assert(STOP_WORDS@[74]@ == "after"@);
    assert(STOP_WORDS@[88]@ == "again"@);
    assert(STOP_WORDS@[93]@ == "all"@);
    assert(STOP_WORDS@[119]@ == "already"@);
    assert(STOP_WORDS@[115]@ == "also"@);
    assert(STOP_WORDS@[117]@ == "although"@);
    assert(STOP_WORDS@[2]@ == "an"@);
    assert(STOP_WORDS@[61]@ == "and"@);
    assert(STOP_WORDS@[4]@ == "are"@);
    assert(STOP_WORDS@[112]@ == "as"@);
    assert(STOP_WORDS@[81]@ == "at"@);
    assert(STOP_WORDS@[7]@ == "be"@);
    assert(STOP_WORDS@[111]@ == "because"@);
    assert(STOP_WORDS@[8]@ == "been"@);
    assert(STOP_WORDS@[73]@ == "before"@);
    assert(STOP_WORDS@[9]@ == "being"@);
    assert(STOP_WORDS@[76]@ == "below"@);
    assert(STOP_WORDS@[70]@ == "between"@);
    assert(STOP_WORDS@[96]@ == "both"@);
    assert(STOP_WORDS@[59]@ == "but"@);
    assert(STOP_WORDS@[82]@ == "by"@);
    assert(STOP_WORDS@[23]@ == "can"@);
    assert(STOP_WORDS@[18]@ == "could"@);
    assert(STOP_WORDS@[15]@ == "did"@);
    assert(STOP_WORDS@[13]@ == "do"@);
    assert(STOP_WORDS@[14]@ == "does"@);
    assert(STOP_WORDS@[72]@ == "during"@);
    assert(STOP_WORDS@[94]@ == "each"@);
    assert(STOP_WORDS@[64]@ == "else"@);
    assert(STOP_WORDS@[95]@ == "every"@);
    assert(STOP_WORDS@[97]@ == "few"@);
    assert(STOP_WORDS@[65]@ == "for"@);
    assert(STOP_WORDS@[66]@ == "from"@);
    assert(STOP_WORDS@[89]@ == "further"@);
    assert(STOP_WORDS@[12]@ == "had"@);
    assert(STOP_WORDS@[11]@ == "has"@);
    assert(STOP_WORDS@[10]@ == "have"@);
    assert(STOP_WORDS@[35]@ == "he"@);
    assert(STOP_WORDS@[40]@ == "her"@);
    assert(STOP_WORDS@[91]@ == "here"@);
    assert(STOP_WORDS@[39]@ == "him"@);
    assert(STOP_WORDS@[45]@ == "his"@);
    assert(STOP_WORDS@[55]@ == "how"@);
    assert(STOP_WORDS@[116]@ == "however"@);
    assert(STOP_WORDS@[32]@ == "i"@);
    assert(STOP_WORDS@[62]@ == "if"@);
    assert(STOP_WORDS@[79]@ == "in"@);
    assert(STOP_WORDS@[3]@ == "is"@);
    assert(STOP_WORDS@[26]@ == "it"@);
    assert(STOP_WORDS@[27]@ == "its"@);
    assert(STOP_WORDS@[110]@ == "just"@);
    assert(STOP_WORDS@[20]@ == "may"@);
    assert(STOP_WORDS@[38]@ == "me"@);
    assert(STOP_WORDS@[21]@ == "might"@);
    assert(STOP_WORDS@[98]@ == "more"@);
    assert(STOP_WORDS@[99]@ == "most"@);
    assert(STOP_WORDS@[25]@ == "must"@);
    assert(STOP_WORDS@[43]@ == "my"@);
    assert(STOP_WORDS@[24]@ == "need"@);
    assert(STOP_WORDS@[57]@ == "no"@);
    assert(STOP_WORDS@[58]@ == "nor"@);
    assert(STOP_WORDS@[56]@ == "not"@);
    assert(STOP_WORDS@[122]@ == "now"@);
    assert(STOP_WORDS@[78]@ == "of"@);
    assert(STOP_WORDS@[85]@ == "off"@);
    assert(STOP_WORDS@[80]@ == "on"@);
    assert(STOP_WORDS@[90]@ == "once"@);
    assert(STOP_WORDS@[103]@ == "only"@);
    assert(STOP_WORDS@[60]@ == "or"@);
    assert(STOP_WORDS@[100]@ == "other"@);
    assert(STOP_WORDS@[46]@ == "our"@);
    assert(STOP_WORDS@[84]@ == "out"@);
    assert(STOP_WORDS@[86]@ == "over"@);
    assert(STOP_WORDS@[104]@ == "own"@);
    assert(STOP_WORDS@[105]@ == "same"@);
    assert(STOP_WORDS@[22]@ == "shall"@);
    assert(STOP_WORDS@[36]@ == "she"@);
    assert(STOP_WORDS@[19]@ == "should"@);
    assert(STOP_WORDS@[118]@ == "since"@);
    assert(STOP_WORDS@[106]@ == "so"@);
    assert(STOP_WORDS@[101]@ == "some"@);
    assert(STOP_WORDS@[120]@ == "still"@);
    assert(STOP_WORDS@[102]@ == "such"@);
    assert(STOP_WORDS@[107]@ == "than"@);
    assert(STOP_WORDS@[29]@ == "that"@);
    assert(STOP_WORDS@[0]@ == "the"@);
    assert(STOP_WORDS@[47]@ == "their"@);
    assert(STOP_WORDS@[42]@ == "them"@);
    assert(STOP_WORDS@[63]@ == "then"@);
    assert(STOP_WORDS@[92]@ == "there"@);
    assert(STOP_WORDS@[30]@ == "these"@);
    assert(STOP_WORDS@[37]@ == "they"@);
    assert(STOP_WORDS@[28]@ == "this"@);
    assert(STOP_WORDS@[31]@ == "those"@);
    assert(STOP_WORDS@[71]@ == "through"@);
    assert(STOP_WORDS@[77]@ == "to"@);
    assert(STOP_WORDS@[108]@ == "too"@);
    assert(STOP_WORDS@[87]@ == "under"@);
    assert(STOP_WORDS@[113]@ == "until"@);
    assert(STOP_WORDS@[83]@ == "up"@);
    assert(STOP_WORDS@[41]@ == "us"@);
    assert(STOP_WORDS@[109]@ == "very"@);
    assert(STOP_WORDS@[5]@ == "was"@);
    assert(STOP_WORDS@[33]@ == "we"@);
    assert(STOP_WORDS@[6]@ == "were"@);
    assert(STOP_WORDS@[48]@ == "what"@);
    assert(STOP_WORDS@[53]@ == "when"@);
    assert(STOP_WORDS@[52]@ == "where"@);
    assert(STOP_WORDS@[49]@ == "which"@);
    assert(STOP_WORDS@[114]@ == "while"@);
    assert(STOP_WORDS@[50]@ == "who"@);
    assert(STOP_WORDS@[51]@ == "whom"@);
    assert(STOP_WORDS@[54]@ == "why"@);
    assert(STOP_WORDS@[16]@ == "will"@);
    assert(STOP_WORDS@[67]@ == "with"@);
    assert(STOP_WORDS@[68]@ == "without"@);
    assert(STOP_WORDS@[17]@ == "would"@);
    assert(STOP_WORDS@[121]@ == "yet"@);
    assert(STOP_WORDS@[34]@ == "you"@);
    assert(STOP_WORDS@[44]@ == "your"@);
}

/// Whether a text is a stop word depends on its letters alone, so that of texts with letters beyond
/// `a` to `z`, and of the empty one, none is.
pub proof fn law_stop_words_are_plain(w: Seq<char>)
    requires
        is_stop_word(w),
    ensures
        1 <= w.len(),
        forall|i: int| 0 <= i < w.len() ==> 'a' <= #[trigger] w[i] <= 'z',
{
    let k = choose|k: int| 0 <= k < STOP_WORDS@.len() && #[trigger] STOP_WORDS@[k]@ == w;
    lemma_stop_words_plain(k);
}

} // verus!
