//! Selection of entities, their classes and their scores.

use shodh_memory::confidence::Confidence;
use shodh_memory::entity::copy_entities;
use shodh_memory::entity::EntityLabel;
use shodh_memory::entity::NerEntity;
use shodh_memory::entity::NerEntityType;
use shodh_memory::spans::deduplicate_entities;

fn score(x: f32) -> Confidence {
    Confidence { bits: x.to_bits() }
}

fn entity(text: &str, start: usize, end: usize) -> NerEntity {
    NerEntity {
        text: text.to_string(),
        entity_type: NerEntityType::Misc,
        confidence: score(0.75),
        start,
        end,
        fine_label: None,
    }
}

fn texts(entities: &[NerEntity]) -> Vec<&str> {
    entities.iter().map(|e| e.text.as_str()).collect()
}

#[test]
fn test_entity_type_as_str() {
    assert_eq!(NerEntityType::Person.as_str(), "PER");
    assert_eq!(NerEntityType::Organization.as_str(), "ORG");
    assert_eq!(NerEntityType::Location.as_str(), "LOC");
    assert_eq!(NerEntityType::Misc.as_str(), "MISC");
}

#[test]
fn test_from_coarse_rolls_named_classes_to_four_class_view() {
    // Location family
    assert_eq!(
        NerEntityType::from_coarse(&EntityLabel::Gpe),
        NerEntityType::Location
    );
    assert_eq!(
        NerEntityType::from_coarse(&EntityLabel::Facility),
        NerEntityType::Location
    );
    // Organization family
    assert_eq!(
        NerEntityType::from_coarse(&EntityLabel::Norp),
        NerEntityType::Organization
    );
    // Person family
    assert_eq!(
        NerEntityType::from_coarse(&EntityLabel::Title),
        NerEntityType::Person
    );
    // Everything else → MISC (fine label preserves the precise class).
    assert_eq!(
        NerEntityType::from_coarse(&EntityLabel::Money),
        NerEntityType::Misc
    );
    assert_eq!(
        NerEntityType::from_coarse(&EntityLabel::Vehicle),
        NerEntityType::Misc
    );
}

#[test]
fn test_ner_entity_clone() {
    let entity = NerEntity {
        text: "Microsoft".to_string(),
        entity_type: NerEntityType::Organization,
        confidence: score(0.95),
        start: 0,
        end: 9,
        fine_label: Some("company".to_string()),
    };
    let cloned = entity.clone();
    assert_eq!(cloned.text, entity.text);
    assert_eq!(cloned.entity_type, entity.entity_type);
    assert_eq!(cloned.fine_label, entity.fine_label);
    assert!(
        (f32::from_bits(cloned.confidence.bits) - f32::from_bits(entity.confidence.bits)).abs()
            < 1e-5
    );
}

#[test]
fn tags_name_their_types() {
    for t in [
        NerEntityType::Person,
        NerEntityType::Organization,
        NerEntityType::Location,
        NerEntityType::Misc,
    ] {
        assert_eq!(NerEntityType::from_tag(t.as_str()), t);
    }
    assert_eq!(NerEntityType::from_tag("per"), NerEntityType::Misc);
    assert_eq!(NerEntityType::from_tag(""), NerEntityType::Misc);
}

#[test]
fn the_rules_give_fewer_classes_a_home() {
    for label in [
        EntityLabel::Person,
        EntityLabel::Organization,
        EntityLabel::Team,
        EntityLabel::Location,
        EntityLabel::Environment,
    ] {
        assert_eq!(NerEntityType::from_rule_class(&label), NerEntityType::from_coarse(&label));
    }
    for label in [
        EntityLabel::Title,
        EntityLabel::Role,
        EntityLabel::Norp,
        EntityLabel::Gpe,
        EntityLabel::Facility,
        EntityLabel::Other("Date".to_string()),
    ] {
        assert_eq!(NerEntityType::from_rule_class(&label), NerEntityType::Misc);
    }
}

#[test]
fn the_longer_of_two_that_start_together_stays() {
    let kept = deduplicate_entities(vec![entity("New", 0, 3), entity("New York", 0, 8)]);
    assert_eq!(texts(&kept), vec!["New York"]);
}

#[test]
fn the_longer_of_two_that_overlap_stays() {
    let kept = deduplicate_entities(vec![
        entity("York City", 4, 13),
        entity("New York", 0, 8),
        entity("Hall", 14, 18),
    ]);
    assert_eq!(texts(&kept), vec!["York City", "Hall"]);
    let kept = deduplicate_entities(vec![
        entity("alpha", 0, 5),
        entity("ha beta gamma del", 3, 20),
    ]);
    assert_eq!(texts(&kept), vec!["ha beta gamma del"]);
}

#[test]
fn of_two_with_one_length_the_earlier_stays() {
    let kept = deduplicate_entities(vec![entity("later", 3, 8), entity("early", 0, 5)]);
    assert_eq!(texts(&kept), vec!["early"]);
}

#[test]
fn what_overlaps_only_what_was_left_out_stays() {
    let kept = deduplicate_entities(vec![
        entity("abc", 0, 3),
        entity("cdefg", 2, 7),
        entity("ghijklmn", 6, 14),
    ]);
    assert_eq!(texts(&kept), vec!["abc", "ghijklmn"]);
}

#[test]
fn spans_that_end_before_they_start_have_no_length() {
    let kept = deduplicate_entities(vec![entity("odd", 3, 1), entity("even", 3, 5)]);
    assert_eq!(texts(&kept), vec!["even", "odd"]);
    let kept = deduplicate_entities(vec![entity("odd", 3, 1), entity("around", 0, 5)]);
    assert_eq!(texts(&kept), vec!["around"]);
}

#[test]
fn of_equal_spans_the_first_given_stays() {
    let kept = deduplicate_entities(vec![
        entity("b", 5, 6),
        entity("first", 0, 5),
        entity("second", 0, 5),
    ]);
    assert_eq!(texts(&kept), vec!["first", "b"]);
}

#[test]
fn empty_spans_never_overlap() {
    let kept = deduplicate_entities(vec![entity("a", 0, 0), entity("b", 0, 0), entity("c", 0, 4)]);
    assert_eq!(texts(&kept), vec!["c", "a", "b"]);
}

#[test]
fn touching_spans_do_not_overlap() {
    let kept = deduplicate_entities(vec![entity("b", 3, 6), entity("a", 0, 3)]);
    assert_eq!(texts(&kept), vec!["a", "b"]);
}

#[test]
fn a_selection_is_its_own_selection() {
    let given = vec![entity("x", 7, 9), entity("y", 1, 4), entity("z", 3, 8), entity("w", 1, 2)];
    let once = deduplicate_entities(given);
    assert_eq!(texts(&once), vec!["w", "z"]);
    let twice = deduplicate_entities(copy_entities(&once));
    assert_eq!(texts(&twice), texts(&once));
}

#[test]
fn a_single_entity_is_kept_whatever_its_span() {
    let kept = deduplicate_entities(vec![entity("odd", 5, 2)]);
    assert_eq!(texts(&kept), vec!["odd"]);
    assert!(deduplicate_entities(vec![]).is_empty());
}

#[test]
fn scores_compare_as_numbers_do() {
    let samples = [
        0.0f32,
        -0.0,
        0.5,
        0.5000001,
        0.85,
        1.0,
        -0.5,
        -1.0,
        1e-40,
        -1e-40,
        f32::MAX,
        f32::MIN,
        f32::INFINITY,
        f32::NEG_INFINITY,
        f32::NAN,
        -f32::NAN,
    ];
    for a in samples {
        for b in samples {
            assert_eq!(score(a).at_least(score(b)), a >= b, "{a} >= {b}");
        }
    }
    assert_eq!(Confidence::half(), score(0.5));
}
