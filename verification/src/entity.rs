//! Entity classes and recognized entities.

use crate::confidence::Confidence;
use crate::text;
use vstd::prelude::*;

verus! {

/// The coarse classes to which the typer's schema rolls its fine labels up.
#[derive(Debug, PartialEq, Eq)]
pub enum EntityLabel {
    Person,
    Title,
    Role,
    Organization,
    Team,
    /// Nationalities, and religious or political groups.
    Norp,
    Location,
    /// Countries, cities and states.
    Gpe,
    Facility,
    Environment,
    Money,
    Vehicle,
    /// Any other class of the schema, by its name.
    Other(String),
}

/// Coarse entity types for query analysis and filtering.
///
/// This is the stable four-class view. The typer's richer classes are rolled down to one of these;
/// the precise class survives on `NerEntity::fine_label`.
#[derive(Debug, Clone, Copy, PartialEq, Eq, Structural)]
pub enum NerEntityType {
    Person,
    Organization,
    Location,
    Misc,
}

impl NerEntityType {
    /// The tag of the type.
    pub open spec fn tag(self) -> Seq<char> {
        match self {
            NerEntityType::Person => "PER"@,
            NerEntityType::Organization => "ORG"@,
            NerEntityType::Location => "LOC"@,
            NerEntityType::Misc => "MISC"@,
        }
    }

    /// The type with the given tag; any other text stands for `Misc`.
    pub open spec fn of_tag(tag: Seq<char>) -> NerEntityType {
        if tag == "PER"@ {
            NerEntityType::Person
        } else if tag == "ORG"@ {
            NerEntityType::Organization
        } else if tag == "LOC"@ {
            NerEntityType::Location
        } else {
            NerEntityType::Misc
        }
    }

    /// The four-class view of a class: people with their titles and roles, organizations with
    /// teams and groups, and all kinds of places. The rest is `Misc`.
    pub open spec fn of_class(label: EntityLabel) -> NerEntityType {
        match label {
            EntityLabel::Person | EntityLabel::Title | EntityLabel::Role => NerEntityType::Person,
            EntityLabel::Organization | EntityLabel::Team | EntityLabel::Norp =>
                NerEntityType::Organization,
            EntityLabel::Location | EntityLabel::Gpe | EntityLabel::Facility
            | EntityLabel::Environment => NerEntityType::Location,
            _ => NerEntityType::Misc,
        }
    }

    /// The four-class view of a class that keyword rules found, which know fewer classes.
    pub open spec fn of_rule_class(label: EntityLabel) -> NerEntityType {
        match label {
            EntityLabel::Person => NerEntityType::Person,
            EntityLabel::Organization | EntityLabel::Team => NerEntityType::Organization,
            EntityLabel::Location | EntityLabel::Environment => NerEntityType::Location,
            _ => NerEntityType::Misc,
        }
    }

    /// The tag of the type.
    pub fn as_str(&self) -> (r: &'static str)
        ensures
            r@ == self.tag(),
    {
        match self {
            NerEntityType::Person => "PER",
            NerEntityType::Organization => "ORG",
            NerEntityType::Location => "LOC",
            NerEntityType::Misc => "MISC",
        }
    }

    /// Rolls a coarse class down to the four-class view. Named-entity classes with a clear home
    /// map through; everything else (money, vehicles, abstract concepts) is `Misc`.
    pub fn from_coarse(label: &EntityLabel) -> (r: Self)
        ensures
            r == NerEntityType::of_class(*label),
    {
        match label {
            EntityLabel::Person | EntityLabel::Title | EntityLabel::Role => NerEntityType::Person,
            EntityLabel::Organization | EntityLabel::Team | EntityLabel::Norp =>
                NerEntityType::Organization,
            EntityLabel::Location | EntityLabel::Gpe | EntityLabel::Facility
            | EntityLabel::Environment => NerEntityType::Location,
            _ => NerEntityType::Misc,
        }
    }

    /// Rolls a class that keyword rules found down to the four-class view.
    pub fn from_rule_class(label: &EntityLabel) -> (r: Self)
        ensures
            r == NerEntityType::of_rule_class(*label),
    {
        match label {
            EntityLabel::Person => NerEntityType::Person,
            EntityLabel::Organization | EntityLabel::Team => NerEntityType::Organization,
            EntityLabel::Location | EntityLabel::Environment => NerEntityType::Location,
            _ => NerEntityType::Misc,
        }
    }

    /// The type with the given tag; any other text stands for `Misc`.
    pub fn from_tag(tag: &str) -> (r: Self)
        ensures
            r == NerEntityType::of_tag(tag@),
    {
        let chars = text::chars_of(tag);
        if text::same_chars(chars.as_slice(), text::chars_of("PER").as_slice()) {
            NerEntityType::Person
        } else if text::same_chars(chars.as_slice(), text::chars_of("ORG").as_slice()) {
            NerEntityType::Organization
        } else if text::same_chars(chars.as_slice(), text::chars_of("LOC").as_slice()) {
            NerEntityType::Location
        } else {
            NerEntityType::Misc
        }
    }
}

/// The tag of a type names that type and no other.
pub proof fn law_tags_name_types(t: NerEntityType)
    ensures
        NerEntityType::of_tag(t.tag()) == t,
{
    reveal_strlit("PER");
    reveal_strlit("ORG");
    reveal_strlit("LOC");
    reveal_strlit("MISC");
    assert("PER"@[0] == 'P' && "ORG"@[0] == 'O' && "LOC"@[0] == 'L' && "MISC"@[0] == 'M');
}

/// The keyword rules and the typer agree on every class that the rules give a home.
pub proof fn law_rule_classes_agree(label: EntityLabel)
    ensures
        NerEntityType::of_rule_class(label) != NerEntityType::Misc ==> NerEntityType::of_rule_class(
            label,
        ) == NerEntityType::of_class(label),
{
}

/// A recognized entity.
#[derive(Debug)]
pub struct NerEntity {
    /// The entity text (such as "Microsoft" or "New York").
    pub text: String,
    /// The four-class type.
    pub entity_type: NerEntityType,
    /// The typer's probability, or what stands for it where rules found the entity.
    pub confidence: Confidence,
    /// Start character offset in the text.
    pub start: usize,
    /// End character offset in the text.
    pub end: usize,
    /// The typer's fine label (such as "cargo ship" or "bridge"); none where rules found the
    /// entity.
    pub fine_label: Option<String>,
}

impl Clone for NerEntity {
    fn clone(&self) -> (r: Self)
        ensures
            r == *self,
    {
        let fine_label = match &self.fine_label {
            Some(label) => Some(label.clone()),
            None => None,
        };
        NerEntity {
            text: self.text.clone(),
            entity_type: self.entity_type,
            confidence: self.confidence,
            start: self.start,
            end: self.end,
            fine_label,
        }
    }
}

/// A copy of a list of entities.
pub fn copy_entities(entities: &Vec<NerEntity>) -> (r: Vec<NerEntity>)
    ensures
        r@ == entities@,
{
    let mut r: Vec<NerEntity> = Vec::new();
    for i in 0..entities.len()
        invariant
            r@ == entities@.take(i as int),
    {
        r.push(entities[i].clone());
        assert(entities@.take(i + 1) == entities@.take(i as int).push(entities@[i as int]));
    }
    assert(entities@.take(entities@.len() as int) == entities@);
    r
}

/// The tags, letter by letter.
pub proof fn law_tags()
    ensures
        NerEntityType::Person.tag() == seq!['P', 'E', 'R'],
        NerEntityType::Organization.tag() == seq!['O', 'R', 'G'],
        NerEntityType::Location.tag() == seq!['L', 'O', 'C'],
        NerEntityType::Misc.tag() == seq!['M', 'I', 'S', 'C'],
{
    reveal_strlit("PER");
    reveal_strlit("ORG");
    reveal_strlit("LOC");
    reveal_strlit("MISC");
    assert("PER"@ =~= seq!['P', 'E', 'R']);
    assert("ORG"@ =~= seq!['O', 'R', 'G']);
    assert("LOC"@ =~= seq!['L', 'O', 'C']);
    assert("MISC"@ =~= seq!['M', 'I', 'S', 'C']);
}

/// A text that is none of three tags stands for `Misc`, and only those three stand for the others.
pub proof fn law_other_tags_are_misc(tag: Seq<char>)
    ensures
        NerEntityType::of_tag(tag) == NerEntityType::Person <==> tag == seq!['P', 'E', 'R'],
        NerEntityType::of_tag(tag) == NerEntityType::Organization <==> tag == seq!['O', 'R', 'G'],
        NerEntityType::of_tag(tag) == NerEntityType::Location <==> tag == seq!['L', 'O', 'C'],
{
    law_tags();
    law_tags_name_types(NerEntityType::Person);
    law_tags_name_types(NerEntityType::Organization);
    law_tags_name_types(NerEntityType::Location);
}

/// Each class has one home in the four-class view: people, titles and roles; organizations, teams
/// and groups; places of four kinds; and everything else.
pub proof fn law_homes_of_classes(label: EntityLabel)
    ensures
        NerEntityType::of_class(label) == NerEntityType::Person <==> label is Person || label is Title
            || label is Role,
        NerEntityType::of_class(label) == NerEntityType::Organization <==> label is Organization
            || label is Team || label is Norp,
        NerEntityType::of_class(label) == NerEntityType::Location <==> label is Location
            || label is Gpe || label is Facility || label is Environment,
        NerEntityType::of_class(label) == NerEntityType::Misc <==> label is Money || label is Vehicle
            || label is Other,
        NerEntityType::of_rule_class(label) == NerEntityType::Person <==> label is Person,
        NerEntityType::of_rule_class(label) == NerEntityType::Organization <==> label is Organization
            || label is Team,
        NerEntityType::of_rule_class(label) == NerEntityType::Location <==> label is Location
            || label is Environment,
{
}

} // verus!
