//! Recorded entities that are returned in place of the typer's.
//!
//! A recording maps texts to the entities that another recognizer found in them, so that it can be
//! put through the real pipeline. A text that was not recorded goes to the typer.

use crate::confidence::Confidence;
use crate::entity;
use crate::entity::NerEntity;
use crate::entity::NerEntityType;
use vstd::prelude::*;

verus! {

/// A recorded entity.
#[derive(Debug)]
pub struct ReplayEntity {
    pub text: String,
    /// The tag of the type.
    pub ty: String,
    pub start: usize,
    pub end: usize,
    pub conf: Confidence,
}

/// What a recorded entity is as an entity. It has no fine label.
pub open spec fn entity_of_record(record: ReplayEntity) -> NerEntity {
    NerEntity {
        text: record.text,
        entity_type: NerEntityType::of_tag(record.ty@),
        confidence: record.conf,
        start: record.start,
        end: record.end,
        fine_label: None,
    }
}

/// What recorded entities are as entities.
pub open spec fn entities_of_records(records: Seq<ReplayEntity>) -> Seq<NerEntity> {
    Seq::new(records.len(), |i: int| entity_of_record(records[i]))
}

/// The recording of a list of texts with their entities. Of two entries for a text the later one
/// counts.
pub open spec fn recording(entries: Seq<(String, Vec<ReplayEntity>)>) -> Map<
    Seq<char>,
    Seq<NerEntity>,
>
    decreases entries.len(),
{
    if entries.len() == 0 {
        Map::empty()
    } else {
        recording(entries.drop_last()).insert(
            entries.last().0@,
            entities_of_records(entries.last().1@),
        )
    }
}

/// The recorded entities of each text.
pub struct ReplayTable {
    entries: Vec<(String, Vec<NerEntity>)>,
}

impl View for ReplayTable {
    type V = Map<Seq<char>, Seq<NerEntity>>;

    closed spec fn view(&self) -> Map<Seq<char>, Seq<NerEntity>> {
        table_of(self.entries@)
    }
}

closed spec fn table_of(entries: Seq<(String, Vec<NerEntity>)>) -> Map<Seq<char>, Seq<NerEntity>>
    decreases entries.len(),
{
    if entries.len() == 0 {
        Map::empty()
    } else {
        table_of(entries.drop_last()).insert(entries.last().0@, entries.last().1@)
    }
}

/// Turns recorded entities into entities.
pub fn replayed(records: Vec<ReplayEntity>) -> (r: Vec<NerEntity>)
    ensures
        r@ == entities_of_records(records@),
{
    let ghost all = records@;
    let mut r: Vec<NerEntity> = Vec::new();
    for e in it: records
        invariant
            it.seq() == all,
            r@ == entities_of_records(all.take(it.index() as int)),
    {
        let ghost n = it.index() as int;
        let entity_type = NerEntityType::from_tag(e.ty.as_str());
        assert(e == all[n]);
        r.push(
            NerEntity {
                text: e.text,
                entity_type,
                confidence: e.conf,
                start: e.start,
                end: e.end,
                fine_label: None,
            },
        );
        assert(r@ =~= entities_of_records(all.take(n + 1)));
    }
    assert(all.take(all.len() as int) == all);
    r
}

impl ReplayTable {
    /// The table of a recording.
    pub fn new(entries: Vec<(String, Vec<ReplayEntity>)>) -> (r: Self)
        ensures
            r@ == recording(entries@),
    {
        let ghost all = entries@;
        let mut table: Vec<(String, Vec<NerEntity>)> = Vec::new();
        for entry in it: entries
            invariant
                it.seq() == all,
                table_of(table@) == recording(all.take(it.index() as int)),
        {
            let ghost n = it.index() as int;
            let ghost before = table@;
            let (text, records) = entry;
            table.push((text, replayed(records)));
            assert(table@.drop_last() == before);
            assert(all.take(n + 1).drop_last() == all.take(n));
            assert(all.take(n + 1).last() == entry);
        }
        assert(all.take(all.len() as int) == all);
        ReplayTable { entries: table }
    }

    /// The recorded entities of a text.
    pub fn lookup(&self, text: &str) -> (r: Option<Vec<NerEntity>>)
        ensures
            match r {
                Some(entities) => self@.contains_key(text@) && entities@ == self@[text@],
                None => !self@.contains_key(text@),
            },
    {
        let key = text.to_string();
        let ghost all = self.entries@;
        let mut i: usize = self.entries.len();
        assert(all.take(i as int) == all);
        while i > 0
            invariant
                i <= self.entries.len(),
                all == self.entries@,
                key@ == text@,
                self@.contains_key(text@) == table_of(all.take(i as int)).contains_key(text@),
                self@[text@] == table_of(all.take(i as int))[text@],
            decreases i,
        {
            i -= 1;
            assert(all.take(i + 1).drop_last() == all.take(i as int));
            assert(all.take(i + 1).last() == all[i as int]);
            if self.entries[i].0 == key {
                return Some(entity::copy_entities(&self.entries[i].1));
            }
        }
        None
    }
}

/// Recorded entities keep their texts, offsets and scores, have no fine label, and have the type that
/// their tag names: one of three tags, or else `Misc`.
pub proof fn law_records_become_entities(records: Seq<ReplayEntity>, i: int)
    requires
        0 <= i < records.len(),
    ensures
        entities_of_records(records).len() == records.len(),
        entities_of_records(records)[i].text == records[i].text,
        entities_of_records(records)[i].start == records[i].start,
        entities_of_records(records)[i].end == records[i].end,
        entities_of_records(records)[i].confidence == records[i].conf,
        entities_of_records(records)[i].fine_label is None,
        entities_of_records(records)[i].entity_type == if records[i].ty@ == seq!['P', 'E', 'R'] {
            NerEntityType::Person
        } else if records[i].ty@ == seq!['O', 'R', 'G'] {
            NerEntityType::Organization
        } else if records[i].ty@ == seq!['L', 'O', 'C'] {
            NerEntityType::Location
        } else {
            NerEntityType::Misc
        },
{
    entity::law_other_tags_are_misc(records[i].ty@);
}

/// A text is recorded if and only if it has an entry, and its entities are those of its last entry.
pub proof fn law_the_last_entry_counts(
    entries: Seq<(String, Vec<ReplayEntity>)>,
    text: Seq<char>,
    k: int,
)
    requires
        -1 <= k < entries.len(),
        k >= 0 ==> entries[k].0@ == text,
        forall|m: int| k < m < entries.len() ==> (#[trigger] entries[m]).0@ != text,
    ensures
        recording(entries).contains_key(text) <==> k >= 0,
        k >= 0 ==> recording(entries)[text].len() == entries[k].1@.len() && recording(entries)[text]
            == entities_of_records(entries[k].1@),
    decreases entries.len(),
{
    if entries.len() > 0 && k < entries.len() - 1 {
        let earlier = entries.drop_last();
        assert(entries[entries.len() - 1].0@ != text);
        assert forall|m: int| k < m < earlier.len() implies (#[trigger] earlier[m]).0@ != text by {
            assert(entries[m].0@ != text);
        }
        law_the_last_entry_counts(earlier, text, k);
    }
}

} // verus!
