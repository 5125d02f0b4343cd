//! The recognition stage.

use shodh_memory::cache::cache_key;
use shodh_memory::confidence::Confidence;
use shodh_memory::entity::EntityLabel;
use shodh_memory::entity::NerEntity;
use shodh_memory::entity::NerEntityType;
use shodh_memory::ner::after_lookup;
use shodh_memory::ner::provisioning;
use shodh_memory::ner::stats_of;
use shodh_memory::ner::ExtractStep;
use shodh_memory::ner::Findings;
use shodh_memory::ner::NerConfig;
use shodh_memory::ner::NeuralNer;
use shodh_memory::ner::Provisioning;
use shodh_memory::replay::ReplayEntity;
use shodh_memory::replay::ReplayTable;
use shodh_memory::rules::extract_fallback;
use shodh_memory::rules::locate;
use shodh_memory::rules::RuleEntity;
use shodh_memory::typer::extract_gliner;
use shodh_memory::typer::TypedSpan;
use std::path::PathBuf;

fn score(x: f32) -> Confidence {
    Confidence { bits: x.to_bits() }
}

fn config(confidence: Option<Confidence>) -> NerConfig {
    NerConfig::from_settings(
        PathBuf::from("nonexistent.onnx"),
        PathBuf::from("nonexistent.json"),
        confidence,
    )
}

fn fallback_ner() -> NeuralNer {
    NeuralNer::new_fallback(NerConfig {
        model_path: PathBuf::from("nonexistent.onnx"),
        tokenizer_path: PathBuf::from("nonexistent.json"),
        max_length: 128,
        confidence_threshold: score(0.5),
    })
}

/// The dictionary of the rules that these tests run with.
fn dictionary() -> Vec<(&'static str, EntityLabel)> {
    vec![
        ("Microsoft Azure", EntityLabel::Other("Technology".to_string())),
        ("Microsoft", EntityLabel::Organization),
        ("Google", EntityLabel::Organization),
        ("Apple", EntityLabel::Organization),
        ("Infosys", EntityLabel::Organization),
        ("Seattle", EntityLabel::Location),
        ("Mumbai", EntityLabel::Location),
        ("Tokyo", EntityLabel::Location),
        ("Bangalore", EntityLabel::Location),
        ("Delhi", EntityLabel::Location),
        ("Chennai", EntityLabel::Location),
        ("Hyderabad", EntityLabel::Location),
    ]
}

/// What the rules find in a text, each occurrence once.
fn findings(text: &str) -> Vec<RuleEntity> {
    let mut found = Vec::new();
    for (name, label) in dictionary() {
        for _ in text.matches(name) {
            found.push(RuleEntity {
                name: name.to_string(),
                label: match &label {
                    EntityLabel::Organization => EntityLabel::Organization,
                    EntityLabel::Location => EntityLabel::Location,
                    _ => EntityLabel::Other("Technology".to_string()),
                },
                confidence: score((0.8f32 * 0.9).min(0.85)),
            });
        }
    }
    found
}

/// The entities of a text, found by the rules where they are asked.
fn extract(ner: &mut NeuralNer, text: &str) -> Vec<NerEntity> {
    match ner.extract(text, None) {
        ExtractStep::Done(entities) => entities,
        ExtractStep::FindEntities => ner.finish_extract(text, Findings::Entities(findings(text))),
        ExtractStep::TypeSpans => panic!("the typer is not in use"),
    }
}

fn span(text: &str, label: &str, coarse: EntityLabel, start: usize, end: usize) -> TypedSpan {
    TypedSpan {
        text: text.to_string(),
        fine_label: label.to_string(),
        coarse,
        score: score(0.9),
        start,
        end,
    }
}

fn texts(entities: &[NerEntity]) -> Vec<&str> {
    entities.iter().map(|e| e.text.as_str()).collect()
}

#[test]
fn test_ner_config_default() {
    let config = config(None);
    assert_eq!(config.max_length, 128);
}

#[test]
fn test_fallback_mode_detection() {
    assert!(fallback_ner().is_fallback_mode());
}

#[test]
fn test_fallback_extraction_organizations() {
    let mut ner = fallback_ner();
    let test_cases = vec![
        ("Microsoft is a company", "Microsoft"),
        ("I work at Google", "Google"),
        ("Apple released a new product", "Apple"),
        ("Infosys reported earnings", "Infosys"),
    ];
    for (text, expected_entity) in test_cases {
        let entities = extract(&mut ner, text);
        let found = entities.iter().find(|e| e.text == expected_entity);
        assert!(found.is_some(), "Should find {expected_entity} in '{text}'");
        assert_eq!(
            found.unwrap().entity_type,
            NerEntityType::Organization,
            "Wrong type for {expected_entity} in '{text}'"
        );
        // Fallback path never sets a fine label.
        assert!(found.unwrap().fine_label.is_none());
    }
}

#[test]
fn test_fallback_extraction_locations() {
    let mut ner = fallback_ner();
    let test_cases = vec![
        ("The office is in Seattle", "Seattle"),
        ("I visited Mumbai last week", "Mumbai"),
        ("Tokyo is beautiful", "Tokyo"),
        ("Moving to Bangalore", "Bangalore"),
    ];
    for (text, expected_entity) in test_cases {
        let entities = extract(&mut ner, text);
        let found = entities.iter().find(|e| e.text == expected_entity);
        assert!(found.is_some(), "Should find {expected_entity} in '{text}'");
        assert_eq!(
            found.unwrap().entity_type,
            NerEntityType::Location,
            "Wrong type for {expected_entity} in '{text}'"
        );
    }
}

#[test]
fn test_fallback_extraction_mixed() {
    let mut ner = fallback_ner();
    let entities = extract(&mut ner, "Microsoft is headquartered in Seattle");
    let microsoft = entities.iter().find(|e| e.text == "Microsoft");
    let seattle = entities.iter().find(|e| e.text == "Seattle");
    assert!(microsoft.is_some());
    assert!(seattle.is_some());
    assert_eq!(microsoft.unwrap().entity_type, NerEntityType::Organization);
    assert_eq!(seattle.unwrap().entity_type, NerEntityType::Location);
}

#[test]
fn test_fallback_extraction_empty_text() {
    let mut ner = fallback_ner();
    assert!(extract(&mut ner, "").is_empty());
}

#[test]
fn test_fallback_extraction_whitespace_only() {
    let mut ner = fallback_ner();
    assert!(extract(&mut ner, "   \t\n  ").is_empty());
}

#[test]
fn test_fallback_extraction_stop_words_only() {
    let mut ner = fallback_ner();
    let text = "the a an and or is are was were";
    assert!(matches!(ner.extract(text, None), ExtractStep::FindEntities));
    // Rules that take the words for entities give them a salience below the floor.
    let found = text
        .split(' ')
        .map(|w| RuleEntity {
            name: w.to_string(),
            label: EntityLabel::Other("Keyword".to_string()),
            confidence: score((0.3f32 * 0.9).min(0.85)),
        })
        .collect();
    let entities = ner.finish_extract(text, Findings::Entities(found));
    assert!(
        entities.is_empty(),
        "Expected no entities from stop words but got: {entities:?}"
    );
}

#[test]
fn test_fallback_deduplication() {
    let mut ner = fallback_ner();
    let entities = extract(&mut ner, "Microsoft partnered with Microsoft Azure");
    let microsoft_count = entities.iter().filter(|e| e.text == "Microsoft").count();
    assert_eq!(microsoft_count, 1, "Microsoft should appear only once");
}

#[test]
fn test_fallback_confidence_scores() {
    let mut ner = fallback_ner();
    let entities = extract(&mut ner, "Microsoft Google Apple");
    for entity in &entities {
        let confidence = f32::from_bits(entity.confidence.bits);
        assert!(
            confidence >= 0.5 && confidence <= 1.0,
            "Confidence {} out of expected range",
            confidence
        );
    }
}

#[test]
fn test_punctuation_handling() {
    let mut ner = fallback_ner();
    let entities = extract(&mut ner, "Microsoft, Google, and Apple!");
    for entity in &entities {
        assert!(!entity.text.contains(','));
        assert!(!entity.text.contains('!'));
    }
    let spans: Vec<(usize, usize)> = entities.iter().map(|e| (e.start, e.end)).collect();
    assert_eq!(spans, vec![(0, 9), (11, 17), (23, 28)]);
}

#[test]
fn test_indian_cities() {
    let mut ner = fallback_ner();
    let indian_cities = vec!["Mumbai", "Delhi", "Bangalore", "Chennai", "Hyderabad"];
    for city in indian_cities {
        let entities = extract(&mut ner, &format!("Office in {city}"));
        let found = entities.iter().find(|e| e.text == city);
        assert!(found.is_some(), "Should find Indian city: {city}");
        assert_eq!(
            found.unwrap().entity_type,
            NerEntityType::Location,
            "{city} should be Location"
        );
    }
}

#[test]
fn the_least_confidence_is_one_half_unless_it_is_set() {
    assert_eq!(config(None).confidence_threshold, score(0.5));
    assert_eq!(config(Some(score(0.7))).confidence_threshold, score(0.7));
    let copy = config(Some(score(0.7))).clone();
    assert_eq!(copy.confidence_threshold, score(0.7));
    assert_eq!(copy.model_path, PathBuf::from("nonexistent.onnx"));
    assert_eq!(copy.tokenizer_path, PathBuf::from("nonexistent.json"));
}

#[test]
fn a_missing_model_is_fetched_unless_offline() {
    assert_eq!(provisioning(true, Some("true")), Provisioning::Ready);
    assert_eq!(provisioning(true, None), Provisioning::Ready);
    assert_eq!(provisioning(false, Some("true")), Provisioning::Degrade);
    assert_eq!(provisioning(false, Some("1")), Provisioning::Degrade);
    assert_eq!(provisioning(false, Some("TRUE")), Provisioning::Download);
    assert_eq!(provisioning(false, Some("0")), Provisioning::Download);
    assert_eq!(provisioning(false, None), Provisioning::Download);
}

#[test]
fn the_typer_is_used_where_its_model_is_there() {
    let ner = NeuralNer::new(config(None), true);
    assert!(!ner.is_fallback_mode());
    assert!(matches!(ner.extract("Ada", None), ExtractStep::TypeSpans));
    let ner = NeuralNer::new(config(None), false);
    assert!(ner.is_fallback_mode());
    assert!(matches!(ner.extract("Ada", None), ExtractStep::FindEntities));
}

#[test]
fn a_lookup_that_gives_nothing_says_what_to_run() {
    assert!(matches!(after_lookup(None, true), ExtractStep::FindEntities));
    assert!(matches!(after_lookup(None, false), ExtractStep::TypeSpans));
    assert!(matches!(after_lookup(Some(vec![]), false), ExtractStep::Done(e) if e.is_empty()));
}

#[test]
fn the_findings_in_a_text_are_read_back() {
    let mut ner = NeuralNer::new(config(None), true);
    let given = ner.finish_extract(
        "the Golden Gate",
        Findings::Spans(vec![span("Golden Gate", "bridge", EntityLabel::Facility, 4, 15)]),
    );
    assert_eq!(texts(&given), vec!["Golden Gate"]);
    match ner.extract("the Golden Gate", None) {
        ExtractStep::Done(again) => {
            assert_eq!(texts(&again), vec!["Golden Gate"]);
            assert_eq!(again[0].fine_label.as_deref(), Some("bridge"));
            assert_eq!(again[0].entity_type, NerEntityType::Location);
            assert_eq!((again[0].start, again[0].end), (4, 15));
        },
        other => panic!("expected the cached entities, got {other:?}"),
    }
    assert!(matches!(ner.extract("another text", None), ExtractStep::TypeSpans));
}

#[test]
fn findings_leave_other_texts_alone() {
    let mut ner = fallback_ner();
    ner.finish_extract("in Tokyo", Findings::Entities(findings("in Tokyo")));
    ner.finish_extract("in Delhi", Findings::Entities(findings("in Delhi")));
    assert_eq!(texts(&extract(&mut ner, "in Tokyo")), vec!["Tokyo"]);
    assert_eq!(texts(&extract(&mut ner, "in Delhi")), vec!["Delhi"]);
}

#[test]
fn later_findings_replace_earlier_ones() {
    let mut ner = fallback_ner();
    ner.finish_extract("in Tokyo", Findings::Entities(vec![]));
    ner.finish_extract("in Tokyo", Findings::Entities(findings("in Tokyo")));
    match ner.extract("in Tokyo", None) {
        ExtractStep::Done(again) => assert_eq!(texts(&again), vec!["Tokyo"]),
        other => panic!("expected the cached entities, got {other:?}"),
    }
}

#[test]
fn a_cleared_cache_gives_nothing() {
    let mut ner = fallback_ner();
    ner.finish_extract("in Tokyo", Findings::Entities(findings("in Tokyo")));
    assert!(matches!(ner.extract("in Tokyo", None), ExtractStep::Done(_)));
    ner.clear_cache();
    assert!(matches!(ner.extract("in Tokyo", None), ExtractStep::FindEntities));
    assert!(ner.is_fallback_mode());
}

#[test]
fn statistics_give_the_count_and_the_capacity() {
    assert_eq!(stats_of(0), (0, 1000));
    assert_eq!(stats_of(17), (17, 1000));
    assert_eq!(stats_of(u64::MAX), (u64::MAX, 1000));
}

#[test]
fn the_cache_holds_a_thousand_texts() {
    let mut ner = fallback_ner();
    assert_eq!(ner.cache_stats(), (0, 1000));
    ner.finish_extract("in Tokyo", Findings::Entities(vec![]));
    assert_eq!(ner.cache_stats().1, 1000);
}

#[test]
fn blank_texts_have_no_entities_beyond_ascii_either() {
    let ner = NeuralNer::new(config(None), true);
    assert!(matches!(ner.extract(" \u{3000}\u{a0}\n", None), ExtractStep::Done(e) if e.is_empty()));
    assert!(matches!(ner.extract("\u{200b}", None), ExtractStep::TypeSpans));
}

fn record(text: &str, ty: &str, start: usize, end: usize, conf: f32) -> ReplayEntity {
    ReplayEntity { text: text.to_string(), ty: ty.to_string(), start, end, conf: score(conf) }
}

#[test]
fn a_recording_goes_before_the_cache() {
    let table = ReplayTable::new(vec![(
        "Ada met Bo".to_string(),
        vec![record("Ada", "PER", 0, 3, 0.9), record("Bo", "DOG", 8, 10, 0.1)],
    )]);
    let mut ner = fallback_ner();
    ner.finish_extract("Ada met Bo", Findings::Entities(vec![]));
    match ner.extract("Ada met Bo", Some(&table)) {
        ExtractStep::Done(entities) => {
            assert_eq!(texts(&entities), vec!["Ada", "Bo"]);
            assert_eq!(entities[0].entity_type, NerEntityType::Person);
            assert_eq!(entities[1].entity_type, NerEntityType::Misc);
            assert_eq!(entities[0].confidence, score(0.9));
            assert_eq!((entities[1].start, entities[1].end), (8, 10));
            assert!(entities[0].fine_label.is_none());
        },
        other => panic!("expected the recorded entities, got {other:?}"),
    }
    assert!(matches!(ner.extract("Ada met Cy", Some(&table)), ExtractStep::FindEntities));
    assert!(matches!(ner.extract("  ", Some(&table)), ExtractStep::Done(e) if e.is_empty()));
}

#[test]
fn of_two_recordings_of_a_text_the_later_counts() {
    let table = ReplayTable::new(vec![
        ("x".to_string(), vec![record("first", "ORG", 0, 1, 0.5)]),
        ("y".to_string(), vec![]),
        ("x".to_string(), vec![record("second", "LOC", 0, 1, 0.5)]),
    ]);
    assert_eq!(texts(&table.lookup("x").unwrap()), vec!["second"]);
    assert!(table.lookup("y").unwrap().is_empty());
    assert!(table.lookup("z").is_none());
    assert!(ReplayTable::new(vec![]).lookup("x").is_none());
}

#[test]
fn keys_are_fnv_1a_hashes() {
    assert_eq!(cache_key(""), 0xcbf2_9ce4_8422_2325);
    assert_eq!(cache_key("a"), 0xaf63_dc4c_8601_ec8c);
    assert_eq!(cache_key("foobar"), 0x8594_4171_f739_67e8);
}

#[test]
fn blank_spans_are_dropped_and_the_rest_keep_their_fine_labels() {
    let entities = extract_gliner(vec![
        span("Ever Given", "cargo ship", EntityLabel::Vehicle, 10, 20),
        span(" \t", "noise", EntityLabel::Person, 0, 2),
        span("Suez", "canal", EntityLabel::Facility, 0, 4),
        span("Ever", "word", EntityLabel::Person, 10, 14),
    ]);
    assert_eq!(texts(&entities), vec!["Suez", "Ever Given"]);
    assert_eq!((entities[1].start, entities[1].end), (10, 20));
    assert_eq!(entities[0].fine_label.as_deref(), Some("canal"));
    assert_eq!(entities[0].entity_type, NerEntityType::Location);
    assert_eq!(entities[1].fine_label.as_deref(), Some("cargo ship"));
    assert_eq!(entities[1].entity_type, NerEntityType::Misc);
    assert_eq!(entities[1].confidence, score(0.9));
}

#[test]
fn names_are_located_by_characters_up_to_case() {
    assert_eq!(locate("é Microsoft", "Microsoft"), (2, 11));
    assert_eq!(locate("I work at google", "Google"), (10, 16));
    assert_eq!(locate("né à Paris", "PARIS"), (5, 10));
    assert_eq!(locate("Zürich", "zürich"), (0, 6));
    assert_eq!(locate("ZÜRICH", "zürich"), (0, 0));
    assert_eq!(locate("nothing here", "Google"), (0, 0));
    assert_eq!(locate("abab", "AB"), (0, 2));
    assert_eq!(locate("ab", "abc"), (0, 0));
    assert_eq!(locate("", "a"), (0, 0));
    assert_eq!(locate("ab", ""), (0, 0));
}

#[test]
fn what_the_rules_find_needs_enough_confidence() {
    let found = |c: f32| {
        vec![RuleEntity {
            name: "Tokyo".to_string(),
            label: EntityLabel::Location,
            confidence: score(c),
        }]
    };
    assert_eq!(extract_fallback("in Tokyo", found(0.5), score(0.5)).len(), 1);
    assert_eq!(extract_fallback("in Tokyo", found(0.49), score(0.5)).len(), 0);
    assert_eq!(extract_fallback("in Tokyo", found(f32::NAN), score(0.5)).len(), 0);
    assert_eq!(extract_fallback("in Tokyo", found(0.9), score(f32::NAN)).len(), 0);
    let entities = extract_fallback("in Tokyo", found(0.81), score(0.5));
    assert_eq!((entities[0].start, entities[0].end), (3, 8));
    assert_eq!(entities[0].confidence, score(0.81));
}

#[test]
fn offsets_count_characters() {
    let found = vec![RuleEntity {
        name: "Microsoft".to_string(),
        label: EntityLabel::Organization,
        confidence: score((0.8f32 * 0.9).min(0.85)),
    }];
    let entities = extract_fallback("é Microsoft", found, score(0.5));
    assert_eq!(texts(&entities), vec!["Microsoft"]);
    assert_eq!((entities[0].start, entities[0].end), (2, 11));
}

#[test]
fn names_that_do_not_stand_in_the_text_have_the_empty_span() {
    let found = vec![
        RuleEntity {
            name: "Bengaluru".to_string(),
            label: EntityLabel::Location,
            confidence: score(0.8),
        },
        RuleEntity {
            name: "Moving".to_string(),
            label: EntityLabel::Person,
            confidence: score(0.8),
        },
    ];
    let entities = extract_fallback("Moving to Bangalore", found, score(0.5));
    assert_eq!(texts(&entities), vec!["Moving", "Bengaluru"]);
    assert_eq!((entities[1].start, entities[1].end), (0, 0));
}
