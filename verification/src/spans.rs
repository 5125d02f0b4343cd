//! Selection of entities whose spans do not overlap.

use crate::entity::NerEntity;
use vstd::prelude::*;

verus! {

/// The length of an entity's span. One that ends before it starts has none.
pub open spec fn span_len(e: NerEntity) -> nat {
    if e.start <= e.end {
        (e.end - e.start) as nat
    } else {
        0
    }
}

/// Whether the spans of two entities share a position.
pub open spec fn overlap(a: NerEntity, b: NerEntity) -> bool {
    a.start < b.end && a.end > b.start
}

/// The orders in which entities are put.
#[derive(Clone, Copy)]
pub enum SpanOrder {
    /// The longer first, and of those with one length the one that starts first.
    Preference,
    /// The one that starts first, and of those that start together the longer.
    Reading,
}

impl SpanOrder {
    /// Whether `a` must come before `b`.
    pub open spec fn precedes(self, a: NerEntity, b: NerEntity) -> bool {
        match self {
            SpanOrder::Preference => span_len(a) > span_len(b) || (span_len(a) == span_len(b)
                && a.start < b.start),
            SpanOrder::Reading => a.start < b.start || (a.start == b.start && span_len(a)
                > span_len(b)),
        }
    }
}

/// An ordered list with `e` before the first entity that need not come before it.
pub open spec fn insert_ordered(order: SpanOrder, ordered: Seq<NerEntity>, e: NerEntity) -> Seq<
    NerEntity,
>
    decreases ordered.len(),
{
    if ordered.len() == 0 || !order.precedes(ordered[0], e) {
        seq![e] + ordered
    } else {
        seq![ordered[0]] + insert_ordered(order, ordered.drop_first(), e)
    }
}

/// The entities in the given order. Where neither of two must come before the other, they keep
/// their order.
pub open spec fn in_order(order: SpanOrder, entities: Seq<NerEntity>) -> Seq<NerEntity>
    decreases entities.len(),
{
    if entities.len() == 0 {
        Seq::empty()
    } else {
        insert_ordered(order, in_order(order, entities.drop_first()), entities[0])
    }
}

/// Whether `e` overlaps one of the entities.
pub open spec fn overlaps_any(e: NerEntity, entities: Seq<NerEntity>) -> bool {
    exists|k: int| 0 <= k < entities.len() && overlap(e, #[trigger] entities[k])
}

/// The entities that overlap none of those kept before them.
pub open spec fn keep_disjoint(entities: Seq<NerEntity>) -> Seq<NerEntity>
    decreases entities.len(),
{
    if entities.len() == 0 {
        Seq::empty()
    } else {
        let kept = keep_disjoint(entities.drop_last());
        if overlaps_any(entities.last(), kept) {
            kept
        } else {
            kept.push(entities.last())
        }
    }
}

/// The entities that are selected: taken by preference, each unless it overlaps one that was taken,
/// and put in reading order.
pub open spec fn selection(entities: Seq<NerEntity>) -> Seq<NerEntity> {
    in_order(SpanOrder::Reading, keep_disjoint(in_order(SpanOrder::Preference, entities)))
}

proof fn lemma_insert_at(order: SpanOrder, ordered: Seq<NerEntity>, e: NerEntity, p: int)
    requires
        0 <= p <= ordered.len(),
        forall|i: int| 0 <= i < p ==> order.precedes(#[trigger] ordered[i], e),
        p < ordered.len() ==> !order.precedes(ordered[p], e),
    ensures
        insert_ordered(order, ordered, e) == ordered.insert(p, e),
    decreases p,
{
    if p == 0 {
        assert(seq![e] + ordered =~= ordered.insert(0, e));
    } else {
        let rest = ordered.drop_first();
        assert forall|i: int| 0 <= i < p - 1 implies order.precedes(#[trigger] rest[i], e) by {
            assert(rest[i] == ordered[i + 1]);
        }
        assert(order.precedes(ordered[0], e));
        lemma_insert_at(order, rest, e, p - 1);
        assert(seq![ordered[0]] + rest.insert(p - 1, e) =~= ordered.insert(p, e));
    }
}

/// The length of an entity's span.
fn length_of(e: &NerEntity) -> (r: usize)
    ensures
        r == span_len(*e),
{
    if e.start <= e.end {
        e.end - e.start
    } else {
        0
    }
}

/// Whether `a` must come before `b`.
fn must_precede(order: SpanOrder, a: &NerEntity, b: &NerEntity) -> (r: bool)
    ensures
        r == order.precedes(*a, *b),
{
    match order {
        SpanOrder::Preference => length_of(a) > length_of(b) || (length_of(a) == length_of(b)
            && a.start < b.start),
        SpanOrder::Reading => a.start < b.start || (a.start == b.start && length_of(a) > length_of(
            b,
        )),
    }
}

/// The entities in the given order.
fn sort_spans(order: SpanOrder, entities: Vec<NerEntity>) -> (r: Vec<NerEntity>)
    ensures
        r@ == in_order(order, entities@),
{
    let ghost all = entities@;
    let mut left = entities;
    let mut ordered: Vec<NerEntity> = Vec::new();
    assert(all.skip(all.len() as int) == Seq::<NerEntity>::empty());
    assert(all.take(all.len() as int) == all);
    while left.len() > 0
        invariant
            left.len() <= all.len(),
            left@ == all.take(left.len() as int),
            ordered@ == in_order(order, all.skip(left.len() as int)),
        decreases left.len(),
    {
        let ghost n = left.len() as int;
        match left.pop() {
            Some(e) => {
                assert(e == all[n - 1]);
                let mut p: usize = 0;
                while p < ordered.len() && must_precede(order, &ordered[p], &e)
                    invariant
                        p <= ordered.len(),
                        forall|i: int| 0 <= i < p ==> order.precedes(#[trigger] ordered@[i], e),
                    decreases ordered.len() - p,
                {
                    p += 1;
                }
                proof {
                    lemma_insert_at(order, ordered@, e, p as int);
                    assert(all.skip(n - 1).drop_first() == all.skip(n));
                    assert(all.skip(n - 1)[0] == e);
                }
                ordered.insert(p, e);
                assert(all.take(n).drop_last() == all.take(n - 1));
            },
            None => {},
        }
    }
    assert(all.skip(0) == all);
    ordered
}

/// Selects entities so that none overlaps another, and prefers the longer spans.
///
/// Of overlapping entities the longest stays; of equally long ones the one that starts first, and
/// of those with one span the one that was given first. What stays comes in reading order.
pub fn deduplicate_entities(entities: Vec<NerEntity>) -> (r: Vec<NerEntity>)
    ensures
        r@ == selection(entities@),
        forall|i: int, j: int|
            0 <= i < j < r@.len() && (#[trigger] r@[i]).start < r@[i].end && (
            #[trigger] r@[j]).start < r@[j].end ==> r@[i].end <= r@[j].start,
{
    proof {
        law_selected_spans_lie_apart(entities@);
    }
    let ordered = sort_spans(SpanOrder::Preference, entities);
    let ghost all = ordered@;
    let mut kept: Vec<NerEntity> = Vec::new();
    for e in it: ordered
        invariant
            it.seq() == all,
            kept@ == keep_disjoint(all.take(it.index() as int)),
    {
        let ghost n = it.index() as int;
        let mut clear = true;
        for k in 0..kept.len()
            invariant
                clear <==> forall|i: int| 0 <= i < k ==> !overlap(e, #[trigger] kept@[i]),
        {
            if e.start < kept[k].end && e.end > kept[k].start {
                clear = false;
            }
        }
        assert(all.take(n + 1).drop_last() == all.take(n));
        assert(all.take(n + 1).last() == e);
        if clear {
            kept.push(e);
        }
    }
    assert(all.take(all.len() as int) == all);
    sort_spans(SpanOrder::Reading, kept)
}

/// Whether no entity stands behind one that it must come before.
pub open spec fn is_ordered(order: SpanOrder, entities: Seq<NerEntity>) -> bool {
    forall|i: int, j: int|
        0 <= i < j < entities.len() ==> !order.precedes(
            #[trigger] entities[j],
            #[trigger] entities[i],
        )
}

/// Whether no two of the entities overlap.
pub open spec fn all_disjoint(entities: Seq<NerEntity>) -> bool {
    forall|i: int, j: int|
        0 <= i < entities.len() && 0 <= j < entities.len() && i != j ==> !overlap(
            #[trigger] entities[i],
            #[trigger] entities[j],
        )
}

proof fn lemma_place(order: SpanOrder, ordered: Seq<NerEntity>, e: NerEntity) -> (p: int)
    ensures
        0 <= p <= ordered.len(),
        forall|i: int| 0 <= i < p ==> order.precedes(#[trigger] ordered[i], e),
        p < ordered.len() ==> !order.precedes(ordered[p], e),
        insert_ordered(order, ordered, e) == ordered.insert(p, e),
    decreases ordered.len(),
{
    let p = if ordered.len() == 0 || !order.precedes(ordered[0], e) {
        0
    } else {
        let rest = ordered.drop_first();
        let p = lemma_place(order, rest, e);
        assert forall|i: int| 0 <= i < p + 1 implies order.precedes(#[trigger] ordered[i], e) by {
            if i > 0 {
                assert(rest[i - 1] == ordered[i]);
            }
        }
        p + 1
    };
    lemma_insert_at(order, ordered, e, p);
    p
}

proof fn lemma_insert_keeps_order(order: SpanOrder, ordered: Seq<NerEntity>, e: NerEntity)
    requires
        is_ordered(order, ordered),
    ensures
        is_ordered(order, insert_ordered(order, ordered, e)),
        insert_ordered(order, ordered, e).to_multiset() == ordered.to_multiset().insert(e),
{
    broadcast use vstd::seq_lib::group_to_multiset_ensures;

    let p = lemma_place(order, ordered, e);
    let r = ordered.insert(p, e);
    assert(r == ordered.take(p).push(e) + ordered.skip(p));
    assert forall|i: int, j: int| 0 <= i < j < r.len() implies !order.precedes(
        #[trigger] r[j],
        #[trigger] r[i],
    ) by {
        let a = if i < p {
            i
        } else {
            i - 1
        };
        let b = if j < p {
            j
        } else {
            j - 1
        };
        if i != p && j != p {
            assert(r[i] == ordered[a] && r[j] == ordered[b]);
        } else if j == p {
            assert(order.precedes(ordered[i], e));
        } else {
            assert(r[j] == ordered[b]);
            if b > p {
                assert(!order.precedes(ordered[b], ordered[p]));
            }
        }
    }
}

/// Ordering keeps the entities: as many of each, none behind one that it must come before.
pub proof fn law_ordering_is_a_sort(order: SpanOrder, entities: Seq<NerEntity>)
    ensures
        is_ordered(order, in_order(order, entities)),
        in_order(order, entities).to_multiset() == entities.to_multiset(),
    decreases entities.len(),
{
    broadcast use vstd::seq_lib::group_to_multiset_ensures;

    if entities.len() > 0 {
        let rest = entities.drop_first();
        law_ordering_is_a_sort(order, rest);
        lemma_insert_keeps_order(order, in_order(order, rest), entities[0]);
        assert(entities.remove(0) =~= rest);
        assert(entities.to_multiset() =~= rest.to_multiset().insert(entities[0]));
    }
}

proof fn lemma_same_members(order: SpanOrder, entities: Seq<NerEntity>, e: NerEntity)
    ensures
        in_order(order, entities).contains(e) <==> entities.contains(e),
{
    broadcast use vstd::seq_lib::group_to_multiset_ensures;

    law_ordering_is_a_sort(order, entities);
    assert(in_order(order, entities).to_multiset().count(e) == entities.to_multiset().count(e));
}

proof fn lemma_order_keeps_disjoint(order: SpanOrder, entities: Seq<NerEntity>)
    requires
        all_disjoint(entities),
    ensures
        all_disjoint(in_order(order, entities)),
    decreases entities.len(),
{
    if entities.len() > 0 {
        let e = entities[0];
        let rest = entities.drop_first();
        let ordered = in_order(order, rest);
        assert forall|i: int, j: int|
            0 <= i < rest.len() && 0 <= j < rest.len() && i != j implies !overlap(
            #[trigger] rest[i],
            #[trigger] rest[j],
        ) by {
            assert(!overlap(entities[i + 1], entities[j + 1]));
        }
        lemma_order_keeps_disjoint(order, rest);
        assert forall|i: int| 0 <= i < ordered.len() implies !overlap(#[trigger] ordered[i], e) by {
            lemma_same_members(order, rest, ordered[i]);
            assert(ordered.contains(ordered[i]));
            let k = choose|k: int| 0 <= k < rest.len() && rest[k] == ordered[i];
            assert(!overlap(entities[k + 1], entities[0]));
        }
        let p = lemma_place(order, ordered, e);
        let r = ordered.insert(p, e);
        assert forall|i: int, j: int|
            0 <= i < r.len() && 0 <= j < r.len() && i != j implies !overlap(
            #[trigger] r[i],
            #[trigger] r[j],
        ) by {
            let a = if i < p {
                i
            } else {
                i - 1
            };
            let b = if j < p {
                j
            } else {
                j - 1
            };
            if i == p {
                assert(!overlap(ordered[b], e));
            } else if j == p {
                assert(!overlap(ordered[a], e));
            } else {
                assert(!overlap(ordered[a], ordered[b]));
            }
        }
    }
}

proof fn lemma_kept(entities: Seq<NerEntity>)
    ensures
        forall|i: int|
            0 <= i < keep_disjoint(entities).len() ==> entities.contains(
                #[trigger] keep_disjoint(entities)[i],
            ),
        all_disjoint(keep_disjoint(entities)),
    decreases entities.len(),
{
    if entities.len() > 0 {
        let earlier = entities.drop_last();
        let kept = keep_disjoint(earlier);
        let all = keep_disjoint(entities);
        lemma_kept(earlier);
        assert forall|i: int| 0 <= i < all.len() implies entities.contains(#[trigger] all[i]) by {
            if i < kept.len() {
                assert(earlier.contains(kept[i]));
                let k = choose|k: int| 0 <= k < earlier.len() && earlier[k] == kept[i];
                assert(entities[k] == all[i]);
            } else {
                assert(entities[entities.len() - 1] == all[i]);
            }
        }
        assert forall|i: int, j: int|
            0 <= i < all.len() && 0 <= j < all.len() && i != j implies !overlap(
            #[trigger] all[i],
            #[trigger] all[j],
        ) by {
            if i == kept.len() {
                assert(all[j] == kept[j]);
                assert(!overlap(entities.last(), kept[j]));
            } else if j == kept.len() {
                assert(all[i] == kept[i]);
                assert(!overlap(entities.last(), kept[i]));
            } else {
                assert(!overlap(kept[i], kept[j]));
            }
        }
    }
}

/// No two selected entities overlap, and every one of them was among the entities given.
pub proof fn law_selection_is_disjoint(entities: Seq<NerEntity>)
    ensures
        all_disjoint(selection(entities)),
        forall|i: int|
            0 <= i < selection(entities).len() ==> entities.contains(
                #[trigger] selection(entities)[i],
            ),
{
    let preferred = in_order(SpanOrder::Preference, entities);
    let kept = keep_disjoint(preferred);
    lemma_kept(preferred);
    lemma_order_keeps_disjoint(SpanOrder::Reading, kept);
    assert forall|i: int| 0 <= i < selection(entities).len() implies entities.contains(
        #[trigger] selection(entities)[i],
    ) by {
        let e = selection(entities)[i];
        assert(selection(entities).contains(e));
        lemma_same_members(SpanOrder::Reading, kept, e);
        let k = choose|k: int| 0 <= k < kept.len() && kept[k] == e;
        assert(preferred.contains(kept[k]));
        lemma_same_members(SpanOrder::Preference, entities, e);
    }
}

/// The selected entities come out in reading order.
pub proof fn law_selection_is_ordered(entities: Seq<NerEntity>)
    ensures
        is_ordered(SpanOrder::Reading, selection(entities)),
        forall|i: int, j: int|
            0 <= i < j < selection(entities).len() ==> #[trigger] selection(entities)[i].start
                <= #[trigger] selection(entities)[j].start,
{
    law_ordering_is_a_sort(
        SpanOrder::Reading,
        keep_disjoint(in_order(SpanOrder::Preference, entities)),
    );
}

proof fn lemma_represented(entities: Seq<NerEntity>, k: int)
    requires
        is_ordered(SpanOrder::Preference, entities),
        0 <= k < entities.len(),
    ensures
        keep_disjoint(entities).contains(entities[k]) || exists|m: int|
            0 <= m < keep_disjoint(entities).len() && overlap(
                entities[k],
                #[trigger] keep_disjoint(entities)[m],
            ) && !SpanOrder::Preference.precedes(entities[k], keep_disjoint(entities)[m]),
    decreases entities.len(),
{
    let earlier = entities.drop_last();
    let kept = keep_disjoint(earlier);
    let all = keep_disjoint(entities);
    assert(is_ordered(SpanOrder::Preference, earlier));
    if k < earlier.len() {
        lemma_represented(earlier, k);
        assert(earlier[k] == entities[k]);
        if kept.contains(entities[k]) {
            let m = choose|m: int| 0 <= m < kept.len() && kept[m] == entities[k];
            assert(all[m] == entities[k]);
        } else {
            let m = choose|m: int|
                0 <= m < kept.len() && overlap(entities[k], #[trigger] kept[m])
                    && !SpanOrder::Preference.precedes(entities[k], kept[m]);
            assert(all[m] == kept[m]);
        }
    } else if overlaps_any(entities.last(), kept) {
        let m = choose|m: int| 0 <= m < kept.len() && overlap(entities.last(), #[trigger] kept[m]);
        lemma_kept(earlier);
        assert(earlier.contains(kept[m]));
        let at = choose|at: int| 0 <= at < earlier.len() && earlier[at] == kept[m];
        assert(entities[at] == kept[m]);
        assert(!SpanOrder::Preference.precedes(entities[k], entities[at]));
        assert(all[m] == kept[m]);
    } else {
        assert(all[kept.len() as int] == entities[k]);
    }
}

/// No entity is left out without cause: it is selected, or it overlaps a selected entity that is at
/// least as long, and that starts no later if it is no longer.
pub proof fn law_every_entity_is_represented(entities: Seq<NerEntity>, e: NerEntity)
    requires
        entities.contains(e),
    ensures
        selection(entities).contains(e) || exists|m: int|
            0 <= m < selection(entities).len() && overlap(e, #[trigger] selection(entities)[m])
                && span_len(selection(entities)[m]) >= span_len(e)
                && !SpanOrder::Preference.precedes(e, selection(entities)[m]),
{
    let preferred = in_order(SpanOrder::Preference, entities);
    let kept = keep_disjoint(preferred);
    let selected = selection(entities);
    law_ordering_is_a_sort(SpanOrder::Preference, entities);
    lemma_same_members(SpanOrder::Preference, entities, e);
    let k = choose|k: int| 0 <= k < preferred.len() && preferred[k] == e;
    lemma_represented(preferred, k);
    lemma_same_members(SpanOrder::Reading, kept, e);
    if !kept.contains(e) {
        let m = choose|m: int|
            0 <= m < kept.len() && overlap(e, #[trigger] kept[m])
                && !SpanOrder::Preference.precedes(e, kept[m]);
        lemma_same_members(SpanOrder::Reading, kept, kept[m]);
        assert(kept.contains(kept[m]));
        let at = choose|at: int| 0 <= at < selected.len() && selected[at] == kept[m];
        assert(overlap(e, selected[at]));
    }
}

/// An entity stays if it is longer than every other one that it overlaps.
pub proof fn law_the_longest_stays(entities: Seq<NerEntity>, e: NerEntity)
    requires
        entities.contains(e),
        forall|k: int|
            0 <= k < entities.len() && overlap(e, #[trigger] entities[k]) && entities[k] != e
                ==> span_len(entities[k]) < span_len(e),
    ensures
        selection(entities).contains(e),
{
    law_every_entity_is_represented(entities, e);
    law_selection_is_disjoint(entities);
    let selected = selection(entities);
    if !selected.contains(e) {
        let m = choose|m: int|
            0 <= m < selected.len() && overlap(e, #[trigger] selected[m]) && span_len(selected[m])
                >= span_len(e);
        assert(entities.contains(selected[m]));
        let k = choose|k: int| 0 <= k < entities.len() && entities[k] == selected[m];
        assert(overlap(e, entities[k]));
    }
}

proof fn lemma_ordered_stays(order: SpanOrder, entities: Seq<NerEntity>)
    requires
        is_ordered(order, entities),
    ensures
        in_order(order, entities) == entities,
    decreases entities.len(),
{
    if entities.len() > 0 {
        let rest = entities.drop_first();
        assert forall|i: int, j: int| 0 <= i < j < rest.len() implies !order.precedes(
            #[trigger] rest[j],
            #[trigger] rest[i],
        ) by {
            assert(!order.precedes(entities[j + 1], entities[i + 1]));
        }
        lemma_ordered_stays(order, rest);
        if rest.len() > 0 {
            assert(rest[0] == entities[1]);
            assert(!order.precedes(entities[1], entities[0]));
        }
        assert(seq![entities[0]] + rest =~= entities);
    } else {
        assert(entities =~= Seq::empty());
    }
}

proof fn lemma_disjoint_stays(entities: Seq<NerEntity>)
    requires
        all_disjoint(entities),
    ensures
        keep_disjoint(entities) == entities,
    decreases entities.len(),
{
    if entities.len() > 0 {
        let earlier = entities.drop_last();
        assert(all_disjoint(earlier));
        lemma_disjoint_stays(earlier);
        if overlaps_any(entities.last(), earlier) {
            let k = choose|k: int|
                0 <= k < earlier.len() && overlap(entities.last(), #[trigger] earlier[k]);
            assert(!overlap(entities[k], entities[entities.len() - 1]));
        }
        assert(earlier.push(entities.last()) =~= entities);
    } else {
        assert(entities =~= Seq::empty());
    }
}

/// Two entities of which one must come before the other can be inserted in either order.
proof fn lemma_insertions_commute(
    order: SpanOrder,
    s: Seq<NerEntity>,
    a: NerEntity,
    b: NerEntity,
)
    requires
        order.precedes(a, b),
    ensures
        insert_ordered(order, insert_ordered(order, s, a), b) == insert_ordered(
            order,
            insert_ordered(order, s, b),
            a,
        ),
    decreases s.len(),
{
    let with_a = insert_ordered(order, s, a);
    let with_b = insert_ordered(order, s, b);
    if s.len() == 0 || !order.precedes(s[0], a) {
        assert(with_a.drop_first() =~= s);
        assert(with_a[0] == a);
        assert(!order.precedes(with_b[0], a));
    } else {
        let rest = s.drop_first();
        lemma_insertions_commute(order, rest, a, b);
        assert(with_a[0] == s[0] && with_b[0] == s[0]);
        assert(with_a.drop_first() =~= insert_ordered(order, rest, a));
        assert(with_b.drop_first() =~= insert_ordered(order, rest, b));
    }
}

proof fn lemma_insertion_by_preference(ordered: Seq<NerEntity>, e: NerEntity)
    ensures
        in_order(SpanOrder::Reading, insert_ordered(SpanOrder::Preference, ordered, e))
            == insert_ordered(SpanOrder::Reading, in_order(SpanOrder::Reading, ordered), e),
    decreases ordered.len(),
{
    let grown = insert_ordered(SpanOrder::Preference, ordered, e);
    if ordered.len() == 0 || !SpanOrder::Preference.precedes(ordered[0], e) {
        assert(grown.drop_first() =~= ordered);
        assert(grown[0] == e);
    } else {
        let first = ordered[0];
        let rest = ordered.drop_first();
        let read = in_order(SpanOrder::Reading, rest);
        lemma_insertion_by_preference(rest, e);
        assert(grown[0] == first);
        assert(grown.drop_first() =~= insert_ordered(SpanOrder::Preference, rest, e));
        if SpanOrder::Reading.precedes(first, e) {
            lemma_insertions_commute(SpanOrder::Reading, read, first, e);
        } else {
            lemma_insertions_commute(SpanOrder::Reading, read, e, first);
        }
    }
}

proof fn lemma_preference_then_reading(entities: Seq<NerEntity>)
    ensures
        in_order(SpanOrder::Reading, in_order(SpanOrder::Preference, entities)) == in_order(
            SpanOrder::Reading,
            entities,
        ),
    decreases entities.len(),
{
    if entities.len() > 0 {
        let rest = entities.drop_first();
        lemma_preference_then_reading(rest);
        lemma_insertion_by_preference(in_order(SpanOrder::Preference, rest), entities[0]);
    }
}

/// Selecting twice is selecting once.
pub proof fn law_selection_settles(entities: Seq<NerEntity>)
    ensures
        selection(selection(entities)) == selection(entities),
{
    let selected = selection(entities);
    law_selection_is_disjoint(entities);
    law_selection_is_ordered(entities);
    lemma_order_keeps_disjoint(SpanOrder::Preference, selected);
    lemma_disjoint_stays(in_order(SpanOrder::Preference, selected));
    lemma_preference_then_reading(selected);
    lemma_ordered_stays(SpanOrder::Reading, selected);
}

/// Whether neither of an entity and `like` must come before the other.
pub open spec fn tied_with(order: SpanOrder, like: NerEntity) -> spec_fn(NerEntity) -> bool {
    |e: NerEntity| !order.precedes(e, like) && !order.precedes(like, e)
}

proof fn lemma_filter_empty(entities: Seq<NerEntity>, p: spec_fn(NerEntity) -> bool)
    requires
        forall|i: int| 0 <= i < entities.len() ==> !p(#[trigger] entities[i]),
    ensures
        entities.filter(p) == Seq::<NerEntity>::empty(),
    decreases entities.len(),
{
    reveal(Seq::filter);
    if entities.len() > 0 {
        lemma_filter_empty(entities.drop_last(), p);
        assert(!p(entities[entities.len() - 1]));
    }
}

proof fn lemma_filter_one(e: NerEntity, p: spec_fn(NerEntity) -> bool)
    ensures
        seq![e].filter(p) == if p(e) {
            seq![e]
        } else {
            Seq::<NerEntity>::empty()
        },
{
    reveal(Seq::filter);
    assert(seq![e].drop_last() =~= Seq::<NerEntity>::empty());
    assert(Seq::<NerEntity>::empty().filter(p) =~= Seq::<NerEntity>::empty());
    assert(Seq::<NerEntity>::empty().push(e) =~= seq![e]);
}

/// Entities that the order does not tell apart keep the order in which they were given, so that of
/// several with one span the first one stays.
pub proof fn law_ordering_is_stable(order: SpanOrder, entities: Seq<NerEntity>, like: NerEntity)
    ensures
        in_order(order, entities).filter(tied_with(order, like)) == entities.filter(
            tied_with(order, like),
        ),
    decreases entities.len(),
{
    let p = tied_with(order, like);
    if entities.len() > 0 {
        let e = entities[0];
        let rest = entities.drop_first();
        let ordered = in_order(order, rest);
        law_ordering_is_stable(order, rest, like);
        let at = lemma_place(order, ordered, e);
        let front = ordered.take(at);
        let back = ordered.skip(at);
        assert(ordered =~= front + back);
        assert(ordered.insert(at, e) =~= front + (seq![e] + back));
        assert(entities =~= seq![e] + rest);
        Seq::filter_distributes_over_add(front, back, p);
        Seq::filter_distributes_over_add(seq![e], back, p);
        Seq::filter_distributes_over_add(front, seq![e] + back, p);
        Seq::filter_distributes_over_add(seq![e], rest, p);
        lemma_filter_one(e, p);
        if p(e) {
            assert forall|i: int| 0 <= i < front.len() implies !p(#[trigger] front[i]) by {
                assert(order.precedes(ordered[i], e));
            }
            lemma_filter_empty(front, p);
        }
        assert(in_order(order, entities).filter(p) =~= entities.filter(p));
    }
}

/// Of two selected entities with something in their spans, the one that comes first ends before the
/// other starts, so no position lies in both. Nothing that is selected reaches into anything else
/// that is. Where two start together, the one that reaches further comes first.
pub proof fn law_selected_spans_lie_apart(entities: Seq<NerEntity>)
    ensures
        forall|i: int, j: int|
            0 <= i < j < selection(entities).len() ==> {
                let a = #[trigger] selection(entities)[i];
                let b = #[trigger] selection(entities)[j];
                &&& a.start < a.end && b.start < b.end ==> a.end <= b.start
                &&& a.end <= b.start || b.end <= a.start
                &&& a.start <= b.start
                &&& a.start == b.start && b.start < b.end ==> a.end >= b.end
            },
{
    law_selection_is_disjoint(entities);
    law_selection_is_ordered(entities);
    let selected = selection(entities);
    assert forall|i: int, j: int| 0 <= i < j < selected.len() implies {
        let a = #[trigger] selected[i];
        let b = #[trigger] selected[j];
        &&& a.start < a.end && b.start < b.end ==> a.end <= b.start
        &&& a.end <= b.start || b.end <= a.start
        &&& a.start <= b.start
        &&& a.start == b.start && b.start < b.end ==> a.end >= b.end
    } by {
        assert(!overlap(selected[i], selected[j]));
        assert(!SpanOrder::Reading.precedes(selected[j], selected[i]));
    }
}

proof fn lemma_kept_count(entities: Seq<NerEntity>, e: NerEntity)
    ensures
        keep_disjoint(entities).to_multiset().count(e) <= entities.to_multiset().count(e),
        !overlaps_any(e, entities) ==> keep_disjoint(entities).to_multiset().count(e)
            == entities.to_multiset().count(e),
    decreases entities.len(),
{
    broadcast use vstd::seq_lib::group_to_multiset_ensures;

    if entities.len() > 0 {
        let earlier = entities.drop_last();
        let kept = keep_disjoint(earlier);
        lemma_kept_count(earlier, e);
        lemma_kept(earlier);
        assert(entities =~= earlier.push(entities.last()));
        if !overlaps_any(e, entities) {
            if overlaps_any(e, earlier) {
                let k = choose|k: int| 0 <= k < earlier.len() && overlap(e, #[trigger] earlier[k]);
                assert(overlap(e, entities[k]));
            }
            if entities.last() == e && overlaps_any(e, kept) {
                let k = choose|k: int| 0 <= k < kept.len() && overlap(e, #[trigger] kept[k]);
                assert(earlier.contains(kept[k]));
                let m = choose|m: int| 0 <= m < earlier.len() && earlier[m] == kept[k];
                assert(overlap(e, entities[m]));
            }
        }
    } else {
        assert(keep_disjoint(entities) =~= entities);
    }
}

/// Nothing is selected more often than it was given, and what no given entity reaches into is
/// selected as often as it was given.
pub proof fn law_selection_counts(entities: Seq<NerEntity>, e: NerEntity)
    ensures
        selection(entities).to_multiset().count(e) <= entities.to_multiset().count(e),
        (forall|k: int|
            0 <= k < entities.len() ==> e.end <= (#[trigger] entities[k]).start || entities[k].end
                <= e.start) ==> selection(entities).to_multiset().count(e)
            == entities.to_multiset().count(e),
{
    broadcast use vstd::seq_lib::group_to_multiset_ensures;

    let preferred = in_order(SpanOrder::Preference, entities);
    law_ordering_is_a_sort(SpanOrder::Preference, entities);
    law_ordering_is_a_sort(SpanOrder::Reading, keep_disjoint(preferred));
    lemma_kept_count(preferred, e);
    if forall|k: int|
        0 <= k < entities.len() ==> e.end <= (#[trigger] entities[k]).start || entities[k].end
            <= e.start {
        if overlaps_any(e, preferred) {
            let k = choose|k: int| 0 <= k < preferred.len() && overlap(e, #[trigger] preferred[k]);
            lemma_same_members(SpanOrder::Preference, entities, preferred[k]);
            assert(preferred.contains(preferred[k]));
            let m = choose|m: int| 0 <= m < entities.len() && entities[m] == preferred[k];
            assert(e.end <= entities[m].start || entities[m].end <= e.start);
        }
    }
}

/// An entity into which no other given one reaches is selected.
pub proof fn law_lone_entities_stay(entities: Seq<NerEntity>, k: int)
    requires
        0 <= k < entities.len(),
        forall|j: int|
            0 <= j < entities.len() && j != k ==> entities[k].end <= (#[trigger] entities[j]).start
                || entities[j].end <= entities[k].start,
    ensures
        selection(entities).contains(entities[k]),
{
    let e = entities[k];
    let selected = selection(entities);
    assert(entities.contains(e));
    law_every_entity_is_represented(entities, e);
    if !selected.contains(e) {
        let m = choose|m: int| 0 <= m < selected.len() && overlap(e, #[trigger] selected[m]);
        law_selection_is_disjoint(entities);
        assert(entities.contains(selected[m]));
        let j = choose|j: int| 0 <= j < entities.len() && entities[j] == selected[m];
        if j == k {
            assert(selected[m] == e);
        } else {
            assert(entities[k].end <= entities[j].start || entities[j].end <= entities[k].start);
        }
    }
}

/// Longer spans are preferred: an entity is left out only for a selected one that reaches into it
/// and is longer, or as long and starts no later.
pub proof fn law_only_the_preferred_displace(entities: Seq<NerEntity>, e: NerEntity)
    requires
        entities.contains(e),
        !selection(entities).contains(e),
        e.start <= e.end,
    ensures
        exists|m: int|
            0 <= m < selection(entities).len() && {
                let kept = #[trigger] selection(entities)[m];
                &&& kept.start < e.end
                &&& e.start < kept.end
                &&& kept.end - kept.start > e.end - e.start || (kept.end - kept.start == e.end
                    - e.start && kept.start <= e.start)
            },
{
    law_every_entity_is_represented(entities, e);
    let selected = selection(entities);
    let m = choose|m: int|
        0 <= m < selected.len() && overlap(e, #[trigger] selected[m]) && span_len(selected[m])
            >= span_len(e) && !SpanOrder::Preference.precedes(e, selected[m]);
    let kept = selected[m];
    assert(kept.start < e.end && e.start < kept.end);
}

proof fn lemma_covered(entities: Seq<NerEntity>, k: int)
    requires
        0 <= k < entities.len(),
    ensures
        keep_disjoint(entities).contains(entities[k]) || overlaps_any(
            entities[k],
            keep_disjoint(entities),
        ),
    decreases entities.len(),
{
    let earlier = entities.drop_last();
    let kept = keep_disjoint(earlier);
    let all = keep_disjoint(entities);
    if k < earlier.len() {
        lemma_covered(earlier, k);
        assert(earlier[k] == entities[k]);
        if kept.contains(entities[k]) {
            let m = choose|m: int| 0 <= m < kept.len() && kept[m] == entities[k];
            assert(all[m] == entities[k]);
        } else {
            let m = choose|m: int| 0 <= m < kept.len() && overlap(entities[k], #[trigger] kept[m]);
            assert(all[m] == kept[m]);
        }
    } else if overlaps_any(entities.last(), kept) {
        let m = choose|m: int| 0 <= m < kept.len() && overlap(entities.last(), #[trigger] kept[m]);
        assert(all[m] == kept[m]);
    } else {
        assert(all[kept.len() as int] == entities[k]);
    }
}

/// Whether an entity has the span of another.
spec fn same_span(a: NerEntity, b: NerEntity) -> bool {
    a.start == b.start && a.end == b.end
}

proof fn lemma_kept_is_first(entities: Seq<NerEntity>, m: int) -> (q: int)
    requires
        0 <= m < keep_disjoint(entities).len(),
        keep_disjoint(entities)[m].start < keep_disjoint(entities)[m].end,
    ensures
        0 <= q < entities.len(),
        entities[q] == keep_disjoint(entities)[m],
        forall|k: int| 0 <= k < q ==> !same_span(#[trigger] entities[k], entities[q]),
    decreases entities.len(),
{
    let earlier = entities.drop_last();
    let kept = keep_disjoint(earlier);
    if m < kept.len() {
        let q = lemma_kept_is_first(earlier, m);
        assert forall|k: int| 0 <= k < q implies !same_span(#[trigger] entities[k], entities[q]) by {
            assert(!same_span(earlier[k], earlier[q]));
        }
        q
    } else {
        let e = entities.last();
        assert forall|k: int| 0 <= k < earlier.len() implies !same_span(#[trigger] entities[k], e) by {
            if same_span(entities[k], e) {
                lemma_covered(earlier, k);
                assert(earlier[k] == entities[k]);
                if kept.contains(earlier[k]) {
                    let n = choose|n: int| 0 <= n < kept.len() && kept[n] == earlier[k];
                    assert(overlap(e, kept[n]));
                } else {
                    let n = choose|n: int|
                        0 <= n < kept.len() && overlap(earlier[k], #[trigger] kept[n]);
                    assert(overlap(e, kept[n]));
                }
                assert(overlaps_any(e, kept));
            }
        }
        entities.len() - 1
    }
}

proof fn lemma_filter_first(s: Seq<NerEntity>, p: spec_fn(NerEntity) -> bool, q: int)
    requires
        0 <= q < s.len(),
        p(s[q]),
        forall|k: int| 0 <= k < q ==> !p(#[trigger] s[k]),
    ensures
        s.filter(p).len() > 0,
        s.filter(p)[0] == s[q],
{
    let front = s.take(q);
    let back = s.skip(q + 1);
    assert(s =~= front + (seq![s[q]] + back));
    Seq::filter_distributes_over_add(front, seq![s[q]] + back, p);
    Seq::filter_distributes_over_add(seq![s[q]], back, p);
    assert forall|k: int| 0 <= k < front.len() implies !p(#[trigger] front[k]) by {
        assert(!p(s[k]));
    }
    lemma_filter_empty(front, p);
    lemma_filter_one(s[q], p);
}

proof fn lemma_first_where(s: Seq<NerEntity>, p: spec_fn(NerEntity) -> bool, q: int) -> (f: int)
    requires
        0 <= q < s.len(),
        p(s[q]),
    ensures
        0 <= f <= q,
        p(s[f]),
        forall|k: int| 0 <= k < f ==> !p(#[trigger] s[k]),
    decreases q,
{
    if exists|k: int| 0 <= k < q && p(#[trigger] s[k]) {
        let k = choose|k: int| 0 <= k < q && p(#[trigger] s[k]);
        lemma_first_where(s, p, k)
    } else {
        q
    }
}

/// Of several entities with one span that has something in it, the one that was given first is the
/// one that can be selected.
pub proof fn law_the_first_given_stays(entities: Seq<NerEntity>, i: int)
    requires
        0 <= i < selection(entities).len(),
        selection(entities)[i].start < selection(entities)[i].end,
    ensures
        exists|f: int|
            0 <= f < entities.len() && entities[f] == selection(entities)[i] && forall|k: int|
                0 <= k < f ==> (#[trigger] entities[k]).start != selection(entities)[i].start
                    || entities[k].end != selection(entities)[i].end,
{
    let e = selection(entities)[i];
    let preferred = in_order(SpanOrder::Preference, entities);
    let kept = keep_disjoint(preferred);
    let p = tied_with(SpanOrder::Preference, e);
    assert(selection(entities).contains(e));
    lemma_same_members(SpanOrder::Reading, kept, e);
    let m = choose|m: int| 0 <= m < kept.len() && kept[m] == e;
    let q = lemma_kept_is_first(preferred, m);
    assert forall|k: int| 0 <= k < q implies !p(#[trigger] preferred[k]) by {
        assert(!same_span(preferred[k], preferred[q]));
    }
    lemma_filter_first(preferred, p, q);
    law_ordering_is_stable(SpanOrder::Preference, entities, e);
    lemma_same_members(SpanOrder::Preference, entities, e);
    assert(preferred.contains(preferred[q]));
    let g = choose|g: int| 0 <= g < entities.len() && entities[g] == e;
    let f = lemma_first_where(entities, p, g);
    lemma_filter_first(entities, p, f);
    assert(entities[f] == e);
    assert forall|k: int| 0 <= k < f implies (#[trigger] entities[k]).start != e.start
        || entities[k].end != e.end by {
        assert(!p(entities[k]));
    }
}

} // verus!
