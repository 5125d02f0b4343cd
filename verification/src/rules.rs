//! Entities from keyword rules, where no typer model is at hand.

use crate::confidence::Confidence;
use crate::entity::EntityLabel;
use crate::entity::NerEntity;
use crate::entity::NerEntityType;
use crate::spans;
use crate::text;
use crate::unicode;
use vstd::prelude::*;

verus! {

/// An entity that the keyword rules found in a text.
#[derive(Debug)]
pub struct RuleEntity {
    /// The name, as the rules write it.
    pub name: String,
    /// Its class.
    pub label: EntityLabel,
    /// The confidence that its salience stands for.
    pub confidence: Confidence,
}

/// Whether `name` stands in `s` at character `i`, up to the case of ASCII letters.
pub open spec fn surface_at(s: Seq<char>, name: Seq<char>, i: int) -> bool {
    &&& 0 <= i
    &&& i + name.len() <= s.len()
    &&& unicode::same_ignoring_ascii_case(s.subrange(i, i + name.len()), name)
}

/// The first character from `i` on at which `name` stands in `s`.
pub open spec fn find_surface(s: Seq<char>, name: Seq<char>, i: int) -> Option<int>
    decreases s.len() - i,
{
    if !(0 <= i < s.len()) {
        None
    } else if surface_at(s, name, i) {
        Some(i)
    } else {
        find_surface(s, name, i + 1)
    }
}

/// The characters of `s` at which `name` first stands. A name that does not stand there, because
/// the rules write it otherwise, has the empty span at the start.
pub open spec fn surface_span(s: Seq<char>, name: Seq<char>) -> (nat, nat) {
    match find_surface(s, name, 0) {
        Some(i) => (i as nat, (i + name.len()) as nat),
        None => (0, 0),
    }
}

/// What a finding of the rules is as an entity. It has no fine label.
pub open spec fn entity_of_finding(s: Seq<char>, found: RuleEntity) -> NerEntity {
    let span = surface_span(s, found.name@);
    NerEntity {
        text: found.name,
        entity_type: NerEntityType::of_rule_class(found.label),
        confidence: found.confidence,
        start: span.0 as usize,
        end: span.1 as usize,
        fine_label: None,
    }
}

/// The findings with enough confidence, as entities.
pub open spec fn confident_entities(
    s: Seq<char>,
    found: Seq<RuleEntity>,
    floor: Confidence,
) -> Seq<NerEntity>
    decreases found.len(),
{
    if found.len() == 0 {
        Seq::empty()
    } else {
        let before = confident_entities(s, found.drop_last(), floor);
        if found.last().confidence.is_at_least(floor) {
            before.push(entity_of_finding(s, found.last()))
        } else {
            before
        }
    }
}

proof fn lemma_find_surface(s: Seq<char>, name: Seq<char>, i: int)
    requires
        0 <= i,
    ensures
        match find_surface(s, name, i) {
            Some(k) => i <= k < s.len() && surface_at(s, name, k) && forall|j: int|
                i <= j < k ==> !#[trigger] surface_at(s, name, j),
            None => forall|j: int| i <= j < s.len() ==> !#[trigger] surface_at(s, name, j),
        },
    decreases s.len() - i,
{
    if i < s.len() && !surface_at(s, name, i) {
        lemma_find_surface(s, name, i + 1);
    }
}

/// A span covers the surface that it is for: it lies in the text, and the characters in it are the
/// name, up to the case of ASCII letters, for the first time in the text. The empty span at the
/// start is left for names that do not stand in the text at all.
pub proof fn law_span_covers_surface(s: Seq<char>, name: Seq<char>)
    ensures
        surface_span(s, name).0 <= surface_span(s, name).1 <= s.len(),
        match find_surface(s, name, 0) {
            Some(k) => {
                &&& surface_span(s, name) == (k as nat, (k + name.len()) as nat)
                &&& unicode::same_ignoring_ascii_case(
                    s.subrange(surface_span(s, name).0 as int, surface_span(s, name).1 as int),
                    name,
                )
                &&& forall|j: int| 0 <= j < k ==> !#[trigger] surface_at(s, name, j)
            },
            None => surface_span(s, name) == (0nat, 0nat) && forall|j: int|
                0 <= j < s.len() ==> !#[trigger] surface_at(s, name, j),
        },
{
    lemma_find_surface(s, name, 0);
}

/// The characters of `text` at which `name` first stands, up to the case of ASCII letters.
pub fn locate(text: &str, name: &str) -> (r: (usize, usize))
    ensures
        r.0 == surface_span(text@, name@).0,
        r.1 == surface_span(text@, name@).1,
{
    let s = text::chars_of(text);
    let n = text::chars_of(name);
    for i in 0..s.len()
        invariant
            s@ == text@,
            n@ == name@,
            find_surface(text@, name@, 0) == find_surface(text@, name@, i as int),
    {
        if n.len() <= s.len() - i {
            let here = vstd::slice::slice_subrange(s.as_slice(), i, i + n.len());
            if text::same_but_case(here, n.as_slice()) {
                assert(surface_at(text@, name@, i as int));
                return (i, i + n.len());
            }
        }
    }
    (0, 0)
}

/// The entities that the rules' findings in a text are: those with enough confidence, located in
/// the text, of which none overlaps another.
pub fn extract_fallback(text: &str, found: Vec<RuleEntity>, floor: Confidence) -> (r: Vec<
    NerEntity,
>)
    ensures
        r@ == spans::selection(confident_entities(text@, found@, floor)),
{
    let ghost all = found@;
    let mut entities: Vec<NerEntity> = Vec::new();
    for e in it: found
        invariant
            it.seq() == all,
            entities@ == confident_entities(text@, all.take(it.index() as int), floor),
    {
        let ghost n = it.index() as int;
        assert(all.take(n + 1).drop_last() == all.take(n));
        assert(all.take(n + 1).last() == e);
        let span = locate(text, e.name.as_str());
        let entity_type = NerEntityType::from_rule_class(&e.label);
        if e.confidence.at_least(floor) {
            let confidence = e.confidence;
            entities.push(
                NerEntity {
                    text: e.name,
                    entity_type,
                    confidence,
                    start: span.0,
                    end: span.1,
                    fine_label: None,
                },
            );
        }
    }
    assert(all.take(all.len() as int) == all);
    spans::deduplicate_entities(entities)
}

proof fn lemma_confident(s: Seq<char>, found: Seq<RuleEntity>, floor: Confidence)
    ensures
        forall|i: int|
            0 <= i < confident_entities(s, found, floor).len() ==> {
                &&& (#[trigger] confident_entities(s, found, floor)[i]).confidence.is_at_least(
                    floor,
                )
                &&& confident_entities(s, found, floor)[i].fine_label is None
            },
    decreases found.len(),
{
    if found.len() > 0 {
        lemma_confident(s, found.drop_last(), floor);
    }
}

/// What the rules give has enough confidence and no fine label.
pub proof fn law_rule_entities_are_confident(
    s: Seq<char>,
    found: Seq<RuleEntity>,
    floor: Confidence,
)
    ensures
        forall|i: int|
            0 <= i < spans::selection(confident_entities(s, found, floor)).len() ==> {
                &&& (#[trigger] spans::selection(
                    confident_entities(s, found, floor),
                )[i]).confidence.is_at_least(floor)
                &&& spans::selection(confident_entities(s, found, floor))[i].fine_label is None
            },
{
    let entities = confident_entities(s, found, floor);
    let selected = spans::selection(entities);
    lemma_confident(s, found, floor);
    spans::law_selection_is_disjoint(entities);
    assert forall|i: int| 0 <= i < selected.len() implies (
    #[trigger] selected[i]).confidence.is_at_least(floor) && selected[i].fine_label is None by {
        assert(entities.contains(selected[i]));
        let k = choose|k: int| 0 <= k < entities.len() && entities[k] == selected[i];
        assert(entities[k].confidence.is_at_least(floor));
    }
}

/// Whether the text from `k` on reads as the name: at each place stands the name's character, or the
/// other case of it if it is an ASCII letter, 32 code points away.
pub open spec fn reads_as(s: Seq<char>, k: int, name: Seq<char>) -> bool {
    k + name.len() <= s.len() && forall|i: int|
        0 <= i < name.len() ==> {
            ||| s[k + i] == #[trigger] name[i]
            ||| 'A' <= s[k + i] <= 'Z' && name[i] as int == s[k + i] as int + 32
            ||| 'A' <= name[i] <= 'Z' && s[k + i] as int == name[i] as int + 32
        }
}

proof fn lemma_reads_as(s: Seq<char>, k: int, name: Seq<char>)
    requires
        0 <= k,
    ensures
        surface_at(s, name, k) <==> reads_as(s, k, name),
{
    if k + name.len() <= s.len() {
        let here = s.subrange(k, k + name.len());
        unicode::law_case_is_all_that_differs(here, name);
        if surface_at(s, name, k) {
            assert forall|i: int| 0 <= i < name.len() implies {
                ||| s[k + i] == #[trigger] name[i]
                ||| 'A' <= s[k + i] <= 'Z' && name[i] as int == s[k + i] as int + 32
                ||| 'A' <= name[i] <= 'Z' && s[k + i] as int == name[i] as int + 32
            } by {
                assert(here[i] == s[k + i]);
            }
        }
        if reads_as(s, k, name) {
            assert forall|i: int| 0 <= i < here.len() implies {
                ||| #[trigger] here[i] == name[i]
                ||| 'A' <= here[i] <= 'Z' && name[i] as int == here[i] as int + 32
                ||| 'A' <= name[i] <= 'Z' && here[i] as int == name[i] as int + 32
            } by {
                assert(here[i] == s[k + i]);
                assert(name[i] == name[i]);
            }
        }
    }
}

/// A name is located at the first place where the text reads as the name, and covers as many
/// characters as it has. A name that stands nowhere has the empty span at the start.
pub proof fn law_names_are_located(s: Seq<char>, name: Seq<char>, k: int)
    requires
        0 <= k <= s.len(),
        forall|j: int| 0 <= j < k ==> !#[trigger] reads_as(s, j, name),
        k < s.len() ==> reads_as(s, k, name),
    ensures
        surface_span(s, name) == if k < s.len() {
            (k as nat, (k + name.len()) as nat)
        } else {
            (0nat, 0nat)
        },
{
    assert forall|j: int| 0 <= j < k implies !#[trigger] surface_at(s, name, j) by {
        lemma_reads_as(s, j, name);
    }
    if k < s.len() {
        lemma_reads_as(s, k, name);
    }
    lemma_find_surface(s, name, 0);
}

/// Findings become entities one by one: those of two lists are those of the first and those of the
/// second, a finding whose confidence is at least the floor becomes one entity with its name, class
/// and confidence, the span of its name and no fine label, and any other finding becomes none.
pub proof fn law_findings_become_entities(
    s: Seq<char>,
    found: Seq<RuleEntity>,
    more: Seq<RuleEntity>,
    one: RuleEntity,
    floor: Confidence,
)
    requires
        s.len() <= usize::MAX,
    ensures
        confident_entities(s, found + more, floor) == confident_entities(s, found, floor)
            + confident_entities(s, more, floor),
        one.confidence.is_at_least(floor) ==> {
            let made = confident_entities(s, seq![one], floor);
            &&& made.len() == 1
            &&& made[0].text == one.name
            &&& made[0].entity_type == NerEntityType::of_rule_class(one.label)
            &&& made[0].confidence == one.confidence
            &&& (made[0].start as nat, made[0].end as nat) == surface_span(s, one.name@)
            &&& made[0].fine_label is None
        },
        !one.confidence.is_at_least(floor) ==> confident_entities(s, seq![one], floor).len() == 0,
    decreases more.len(),
{
    assert(seq![one].drop_last() =~= Seq::<RuleEntity>::empty());
    assert(confident_entities(s, Seq::<RuleEntity>::empty(), floor).len() == 0);
    assert(seq![one].last() == one);
    law_span_covers_surface(s, one.name@);
    if more.len() == 0 {
        assert(found + more =~= found);
        assert(confident_entities(s, found, floor) =~= confident_entities(s, found, floor)
            + confident_entities(s, more, floor));
    } else {
        law_findings_become_entities(s, found, more.drop_last(), one, floor);
        assert((found + more).drop_last() =~= found + more.drop_last());
        assert((found + more).last() == more.last());
        assert(confident_entities(s, found + more, floor) =~= confident_entities(s, found, floor)
            + confident_entities(s, more, floor));
    }
}

/// Every entity comes from a finding with enough confidence.
pub proof fn lemma_confident_from(
    s: Seq<char>,
    found: Seq<RuleEntity>,
    floor: Confidence,
    i: int,
) -> (k: int)
    requires
        0 <= i < confident_entities(s, found, floor).len(),
    ensures
        0 <= k < found.len(),
        found[k].confidence.is_at_least(floor),
        confident_entities(s, found, floor)[i] == entity_of_finding(s, found[k]),
    decreases found.len(),
{
    let earlier = found.drop_last();
    if i < confident_entities(s, earlier, floor).len() {
        lemma_confident_from(s, earlier, floor, i)
    } else {
        found.len() - 1
    }
}

} // verus!
