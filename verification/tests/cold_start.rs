//! Entities of sparse graphs.

use shodh_memory::cold_start::cold_start_extract_entities;

fn extracted(text: &str) -> Vec<String> {
    let existing: Vec<String> = vec![];
    cold_start_extract_entities(text, &existing)
}

#[test]
fn test_cold_start_mid_sentence_proper_nouns() {
    let existing: Vec<String> = vec![];
    let text = "Yesterday I met with Caroline at the Anthropic office in San Francisco.";
    let entities = cold_start_extract_entities(text, &existing);

    let lower: Vec<String> = entities.iter().map(|e| e.to_lowercase()).collect();
    assert!(
        lower.contains(&"caroline".to_string()),
        "Should extract mid-sentence proper noun 'Caroline': {entities:?}"
    );
    assert!(
        lower.contains(&"anthropic".to_string()),
        "Should extract mid-sentence proper noun 'Anthropic': {entities:?}"
    );
}

#[test]
fn test_cold_start_multi_word_entities() {
    let existing: Vec<String> = vec![];
    let text = "The project uses Bank of America and New York offices.";
    let entities = cold_start_extract_entities(text, &existing);
    let joined = entities.join(", ").to_lowercase();
    assert!(
        joined.contains("bank of america") || joined.contains("new york"),
        "Should extract multi-word entities: {entities:?}"
    );
}

#[test]
fn test_cold_start_emails() {
    let existing: Vec<String> = vec![];
    let text = "Contact john.doe@example.com or support@anthropic.com for help.";
    let entities = cold_start_extract_entities(text, &existing);
    let lower: Vec<String> = entities.iter().map(|e| e.to_lowercase()).collect();
    assert!(
        lower.contains(&"john.doe@example.com".to_string()),
        "Should extract email: {entities:?}"
    );
    assert!(
        lower.contains(&"support@anthropic.com".to_string()),
        "Should extract email: {entities:?}"
    );
}

#[test]
fn test_cold_start_urls() {
    let existing: Vec<String> = vec![];
    let text = "Check https://github.com/anthropic/shodh for details.";
    let entities = cold_start_extract_entities(text, &existing);
    assert!(
        entities.iter().any(|e| e.starts_with("https://")),
        "Should extract URL: {entities:?}"
    );
}

#[test]
fn test_cold_start_file_paths() {
    let existing: Vec<String> = vec![];
    let text = "Edit the file at /src/main.rs and ./config/settings.toml for configuration.";
    let entities = cold_start_extract_entities(text, &existing);
    assert!(
        entities
            .iter()
            .any(|e| e.contains("/src/main.rs") || e.contains("./config/settings.toml")),
        "Should extract file paths: {entities:?}"
    );
}

#[test]
fn test_cold_start_version_numbers() {
    let existing: Vec<String> = vec![];
    let text = "Upgraded from v1.2.3 to 2.0.0-rc1 yesterday.";
    let entities = cold_start_extract_entities(text, &existing);
    assert!(
        entities.iter().any(|e| e == "v1.2.3"),
        "Should extract version v1.2.3: {entities:?}"
    );
    assert!(
        entities.iter().any(|e| e == "2.0.0-rc1"),
        "Should extract version 2.0.0-rc1: {entities:?}"
    );
}

#[test]
fn test_cold_start_camel_case_tech() {
    let existing: Vec<String> = vec![];
    let text = "We use PostgreSQL with GraphQL and FastAPI for the backend.";
    let entities = cold_start_extract_entities(text, &existing);
    let lower: Vec<String> = entities.iter().map(|e| e.to_lowercase()).collect();
    assert!(
        lower.contains(&"postgresql".to_string()),
        "Should extract CamelCase tech: {entities:?}"
    );
    assert!(
        lower.contains(&"graphql".to_string()),
        "Should extract CamelCase tech: {entities:?}"
    );
    assert!(
        lower.contains(&"fastapi".to_string()),
        "Should extract CamelCase tech: {entities:?}"
    );
}

#[test]
fn test_cold_start_dedup_with_existing() {
    let existing = vec!["PostgreSQL".to_string(), "Caroline".to_string()];
    let text = "Caroline uses PostgreSQL and GraphQL at Anthropic.";
    let entities = cold_start_extract_entities(text, &existing);

    // Should NOT re-extract existing entities
    let lower: Vec<String> = entities.iter().map(|e| e.to_lowercase()).collect();
    assert!(
        !lower.contains(&"postgresql".to_string()),
        "Should not duplicate existing entity 'PostgreSQL': {entities:?}"
    );
    assert!(
        !lower.contains(&"caroline".to_string()),
        "Should not duplicate existing entity 'Caroline': {entities:?}"
    );
    // But should still extract new ones
    assert!(
        lower.contains(&"graphql".to_string()) || lower.contains(&"anthropic".to_string()),
        "Should still extract new entities: {entities:?}"
    );
}

#[test]
fn test_cold_start_skips_sentence_start_common_words() {
    let existing: Vec<String> = vec![];
    let text = "The system is running. However, it needs updates. Also check the logs.";
    let entities = cold_start_extract_entities(text, &existing);

    // Common words at sentence starts should NOT be extracted
    let lower: Vec<String> = entities.iter().map(|e| e.to_lowercase()).collect();
    assert!(
        !lower.contains(&"the".to_string()),
        "Should not extract 'The': {entities:?}"
    );
    assert!(
        !lower.contains(&"however".to_string()),
        "Should not extract 'However': {entities:?}"
    );
    assert!(
        !lower.contains(&"also".to_string()),
        "Should not extract 'Also': {entities:?}"
    );
}

#[test]
fn names_run_over_capitalized_words_and_connectors() {
    assert_eq!(
        extracted("The project uses Bank of America and New York offices."),
        vec!["Bank of America and New York"]
    );
    assert_eq!(extracted("they like Bank of the West coast"), vec!["Bank", "West"]);
    assert_eq!(extracted("we saw Paris, not Rome."), vec!["Paris not Rome"]);
    assert_eq!(extracted("we saw Paris -- Rome"), vec!["Paris", "Rome"]);
    assert_eq!(extracted("we saw Paris ... Rome"), vec!["Paris"]);
}

#[test]
fn a_sentence_opener_needs_a_telling_shape() {
    assert_eq!(extracted("Yesterday it rained. Berlin was wet."), Vec::<String>::new());
    assert_eq!(extracted("NASA launched it. GitHub hosts it."), vec!["NASA", "GitHub"]);
    assert_eq!(extracted("note: Berlin is wet"), Vec::<String>::new());
    assert_eq!(extracted("really? Berlin! Paris"), Vec::<String>::new());
}

#[test]
fn a_name_ends_with_its_sentence() {
    assert_eq!(extracted("We met Caroline. Yesterday it rained."), vec!["Caroline"]);
    assert_eq!(extracted("we met Ada! Bo and Cy left"), vec!["Ada", "Cy"]);
    assert_eq!(extracted("we met Ada of. Bo left"), vec!["Ada"]);
    assert_eq!(extracted("we met Ada. NASA called"), vec!["Ada", "NASA"]);
    assert_eq!(extracted("we saw San Francisco. Yes"), vec!["San Francisco"]);
}

#[test]
fn existing_entities_only_filter() {
    let text = "we met Ada or saw GitHub or me@example.com or v1.2.3 today";
    let known = vec!["github".to_string(), "V1.2.3".to_string(), "nobody".to_string()];
    let all = extracted(text);
    assert_eq!(all, vec!["Ada", "GitHub", "me@example.com", "v1.2.3"]);
    assert_eq!(
        cold_start_extract_entities(text, &known),
        vec!["Ada", "me@example.com"]
    );
}

#[test]
fn every_heuristic_contributes_in_its_order() {
    assert_eq!(
        extracted("ask me@example.com about \"/etc/hosts\" in (v1.0.2) at <http://a.example/x> for Ada"),
        vec!["Ada", "me@example.com", "http://a.example/x", "/etc/hosts", "v1.0.2"]
    );
    assert_eq!(extracted("[MyCrate] is here"), vec!["MyCrate"]);
}

#[test]
fn near_misses_are_not_entities() {
    for text in ["@example.com", "me@example", "me@", "http://a.b", "/ab", "../", "v1", "1,2"] {
        assert_eq!(extracted(text), Vec::<String>::new(), "{text}");
    }
    assert_eq!(extracted("http://a.bc"), vec!["http://a.bc"]);
    assert_eq!(extracted("/abc"), vec!["/abc"]);
    assert_eq!(extracted("../a"), vec!["../a"]);
}

#[test]
fn repetitions_differ_in_more_than_case() {
    assert_eq!(extracted("we met Ada, and then ADA and then aDa"), vec!["Ada"]);
    assert_eq!(extracted("see Ada or see ADA or see Ada."), vec!["Ada"]);
    let known = vec!["ADA".to_string()];
    assert_eq!(cold_start_extract_entities("see Ada today", &known), Vec::<String>::new());
}

#[test]
fn case_is_ignored_beyond_ascii_too() {
    assert_eq!(extracted("see Zürich or see ZÜRICH today"), vec!["Zürich"]);
    let known = vec!["ÉCOLE".to_string()];
    assert_eq!(cold_start_extract_entities("see École today", &known), Vec::<String>::new());
    assert_eq!(extracted("see École today"), vec!["École"]);
    assert_eq!(extracted("see école today"), Vec::<String>::new());
}

#[test]
fn white_space_and_letters_beyond_ascii_are_told_apart() {
    assert_eq!(extracted("see\u{3000}Ada\u{a0}now"), vec!["Ada"]);
    assert_eq!(extracted("see «Ada» now"), vec!["Ada"]);
    assert_eq!(extracted("see Adaé now"), vec!["Adaé"]);
}

#[test]
fn a_second_extraction_finds_nothing_new() {
    let text = "We met Ada and saw GitHub at v1.2.3 or me@example.com and /src/main.rs.";
    let first = extracted(text);
    assert!(!first.is_empty());
    assert_eq!(cold_start_extract_entities(text, &first), Vec::<String>::new());
}

#[test]
fn stop_words_are_no_entities_in_any_case() {
    assert_eq!(extracted("x THE y A z And HOWEVER"), Vec::<String>::new());
}

#[test]
fn nothing_comes_of_nothing() {
    assert_eq!(extracted(""), Vec::<String>::new());
    assert_eq!(extracted(" \t\n "), Vec::<String>::new());
}
