//! Entities from the span typer's output.

use crate::confidence::Confidence;
use crate::entity::EntityLabel;
use crate::entity::NerEntity;
use crate::entity::NerEntityType;
use crate::spans;
use crate::text;
use crate::unicode;
use vstd::prelude::*;

verus! {

/// A span that the typer recognized.
#[derive(Debug)]
pub struct TypedSpan {
    /// The text of the span.
    pub text: String,
    /// The schema leaf with the highest score.
    pub fine_label: String,
    /// The class to which the leaf rolls up.
    pub coarse: EntityLabel,
    /// The probability of the leaf.
    pub score: Confidence,
    /// Start character offset in the text.
    pub start: usize,
    /// End character offset in the text.
    pub end: usize,
}

/// What a span is as an entity, with its fine label.
pub open spec fn entity_of_span(span: TypedSpan) -> NerEntity {
    NerEntity {
        text: span.text,
        entity_type: NerEntityType::of_class(span.coarse),
        confidence: span.score,
        start: span.start,
        end: span.end,
        fine_label: Some(span.fine_label),
    }
}

/// The spans that are not blank, as entities.
pub open spec fn typed_entities(found: Seq<TypedSpan>) -> Seq<NerEntity>
    decreases found.len(),
{
    if found.len() == 0 {
        Seq::empty()
    } else {
        let before = typed_entities(found.drop_last());
        if text::is_blank(found.last().text@) {
            before
        } else {
            before.push(entity_of_span(found.last()))
        }
    }
}

/// The entities that the typer's spans are: those that are not blank, each with its fine label,
/// of which none overlaps another.
pub fn extract_gliner(found: Vec<TypedSpan>) -> (r: Vec<NerEntity>)
    ensures
        r@ == spans::selection(typed_entities(found@)),
{
    let ghost all = found@;
    let mut entities: Vec<NerEntity> = Vec::new();
    for span in it: found
        invariant
            it.seq() == all,
            entities@ == typed_entities(all.take(it.index() as int)),
    {
        let ghost n = it.index() as int;
        assert(all.take(n + 1).drop_last() == all.take(n));
        assert(all.take(n + 1).last() == span);
        if !text::blank(span.text.as_str()) {
            let entity_type = NerEntityType::from_coarse(&span.coarse);
            entities.push(
                NerEntity {
                    text: span.text,
                    entity_type,
                    confidence: span.score,
                    start: span.start,
                    end: span.end,
                    fine_label: Some(span.fine_label),
                },
            );
        }
    }
    assert(all.take(all.len() as int) == all);
    spans::deduplicate_entities(entities)
}

proof fn lemma_typed(found: Seq<TypedSpan>)
    ensures
        forall|i: int|
            0 <= i < typed_entities(found).len() ==> {
                &&& (#[trigger] typed_entities(found)[i]).fine_label is Some
                &&& !text::is_blank(typed_entities(found)[i].text@)
            },
    decreases found.len(),
{
    if found.len() > 0 {
        lemma_typed(found.drop_last());
    }
}

/// What the typer gives has a fine label and is not blank.
pub proof fn law_typed_entities_have_fine_labels(found: Seq<TypedSpan>)
    ensures
        forall|i: int|
            0 <= i < spans::selection(typed_entities(found)).len() ==> {
                &&& (#[trigger] spans::selection(typed_entities(found))[i]).fine_label is Some
                &&& !text::is_blank(spans::selection(typed_entities(found))[i].text@)
            },
{
    let entities = typed_entities(found);
    let selected = spans::selection(entities);
    lemma_typed(found);
    spans::law_selection_is_disjoint(entities);
    assert forall|i: int| 0 <= i < selected.len() implies (#[trigger] selected[i]).fine_label is Some
        && !text::is_blank(selected[i].text@) by {
        assert(entities.contains(selected[i]));
        let k = choose|k: int| 0 <= k < entities.len() && entities[k] == selected[i];
        assert(entities[k].fine_label is Some);
    }
}

/// Spans become entities one by one: those of two lists are those of the first and those of the
/// second, a span with a character that is not white space becomes one entity with its own text,
/// offsets, score and fine label, whatever its class, and any other span becomes none.
pub proof fn law_spans_become_entities(found: Seq<TypedSpan>, more: Seq<TypedSpan>, span: TypedSpan)
    ensures
        typed_entities(found + more) == typed_entities(found) + typed_entities(more),
        (exists|i: int|
            0 <= i < span.text@.len() && !unicode::is_whitespace(#[trigger] span.text@[i])) ==> {
            let one = typed_entities(seq![span]);
            &&& one.len() == 1
            &&& one[0].text == span.text
            &&& one[0].entity_type == NerEntityType::of_class(span.coarse)
            &&& one[0].confidence == span.score
            &&& one[0].start == span.start
            &&& one[0].end == span.end
            &&& one[0].fine_label == Some(span.fine_label)
        },
        (forall|i: int|
            0 <= i < span.text@.len() ==> unicode::is_whitespace(#[trigger] span.text@[i]))
            ==> typed_entities(seq![span]).len() == 0,
    decreases more.len(),
{
    assert(seq![span].drop_last() =~= Seq::<TypedSpan>::empty());
    assert(typed_entities(Seq::<TypedSpan>::empty()).len() == 0);
    assert(seq![span].last() == span);
    if more.len() == 0 {
        assert(found + more =~= found);
        assert(typed_entities(found) =~= typed_entities(found) + typed_entities(more));
    } else {
        law_spans_become_entities(found, more.drop_last(), span);
        assert((found + more).drop_last() =~= found + more.drop_last());
        assert((found + more).last() == more.last());
        assert(typed_entities(found + more) =~= typed_entities(found) + typed_entities(more));
    }
}

/// Every entity comes from a span that is not blank.
pub proof fn lemma_typed_from(found: Seq<TypedSpan>, i: int) -> (k: int)
    requires
        0 <= i < typed_entities(found).len(),
    ensures
        0 <= k < found.len(),
        !text::is_blank(found[k].text@),
        typed_entities(found)[i] == entity_of_span(found[k]),
    decreases found.len(),
{
    let earlier = found.drop_last();
    if i < typed_entities(earlier).len() {
        lemma_typed_from(earlier, i)
    } else {
        found.len() - 1
    }
}

/// A span that is not blank, and into which no other such span reaches, is found: whatever its
/// class, an entity with its text, offsets, score and fine label is among those selected.
pub proof fn law_lone_spans_are_found(found: Seq<TypedSpan>, k: int)
    requires
        0 <= k < found.len(),
        exists|i: int|
            0 <= i < found[k].text@.len() && !unicode::is_whitespace(#[trigger] found[k].text@[i]),
        forall|j: int|
            0 <= j < found.len() && j != k && (exists|i: int|
                0 <= i < found[j].text@.len() && !unicode::is_whitespace(
                    #[trigger] found[j].text@[i],
                )) ==> found[k].end <= (#[trigger] found[j]).start || found[j].end <= found[k].start,
    ensures
        exists|m: int|
            0 <= m < spans::selection(typed_entities(found)).len() && {
                let e = #[trigger] spans::selection(typed_entities(found))[m];
                &&& e.text == found[k].text
                &&& e.entity_type == NerEntityType::of_class(found[k].coarse)
                &&& e.confidence == found[k].score
                &&& e.start == found[k].start
                &&& e.end == found[k].end
                &&& e.fine_label == Some(found[k].fine_label)
            },
{
    let before = found.take(k);
    let after = found.skip(k + 1);
    let span = found[k];
    assert(found =~= before + (seq![span] + after));
    law_spans_become_entities(before, seq![span] + after, span);
    law_spans_become_entities(seq![span], after, span);
    let all = typed_entities(found);
    let n = typed_entities(before).len() as int;
    assert(all =~= typed_entities(before) + (typed_entities(seq![span]) + typed_entities(after)));
    let e = all[n];
    assert(e == typed_entities(seq![span])[0]);
    assert forall|j: int| 0 <= j < all.len() && j != n implies all[n].end <= (
    #[trigger] all[j]).start || all[j].end <= all[n].start by {
        let from = if j < n {
            lemma_typed_from(before, j)
        } else {
            assert(all[j] == typed_entities(after)[j - n - 1]);
            lemma_typed_from(after, j - n - 1) + k + 1
        };
        assert(all[j] == entity_of_span(found[from]));
        let at = choose|at: int|
            0 <= at < found[from].text@.len() && !unicode::is_whitespace(
                #[trigger] found[from].text@[at],
            );
        assert(!unicode::is_whitespace(found[from].text@[at]));
        assert(found[k].end <= found[from].start || found[from].end <= found[k].start);
    }
    spans::law_lone_entities_stay(all, n);
    let selected = spans::selection(all);
    let m = choose|m: int| 0 <= m < selected.len() && selected[m] == e;
    assert(selected[m].text == found[k].text);
}

} // verus!
