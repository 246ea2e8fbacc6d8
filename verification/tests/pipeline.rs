//! End-to-end catalog compilation scenarios over small inline inputs.

use emoji_picker::catalog::{compile_catalog, resolve_tone, SkinTone};

const EMPTY: &str = "";

#[test]
fn registry_row_with_annotation_yields_full_entry() {
    let registry = "# group: People & Body\n1F44D FE0F; fully-qualified  # \u{1F44D} thumbs up\n";
    let en_main = "<annotations>\
         <annotation cp=\"\u{1F44D}\">+1 | thumbsup</annotation>\
         <annotation cp=\"\u{1F44D}\" type=\"tts\">thumbs up</annotation>\
         </annotations>";
    let entries = compile_catalog(registry, en_main, EMPTY, EMPTY, EMPTY).unwrap();
    assert_eq!(entries.len(), 1);
    let e = &entries[0];
    assert_eq!(e.ch, "\u{1F44D}\u{FE0F}");
    assert_eq!(e.name_en, "thumbs up");
    assert_eq!(e.keywords_en, vec!["+1".to_string(), "thumbsup".to_string()]);
    assert_eq!(e.category, "People & Body");
}

#[test]
fn tone_variant_is_bucketed_under_its_base() {
    let registry = "# group: People & Body\n\
         1F44D; fully-qualified  # \u{1F44D} thumbs up\n\
         1F44D 1F3FB; fully-qualified  # \u{1F44D}\u{1F3FB} thumbs up: light skin tone\n";
    let entries = compile_catalog(registry, EMPTY, EMPTY, EMPTY, EMPTY).unwrap();
    assert_eq!(entries.len(), 1);
    let e = &entries[0];
    assert_eq!(e.ch, "\u{1F44D}");
    let variants = e.skin_tone_variants.as_ref().unwrap();
    assert_eq!(variants.len(), 5);
    assert_eq!(variants[0], Some("\u{1F44D}\u{1F3FB}".to_string()));
    assert_eq!(variants[1], None);
    // No standalone entry for the tone variant.
    assert!(entries.iter().all(|e| e.ch != "\u{1F44D}\u{1F3FB}"));
}

#[test]
fn keywords_backfill_from_medium_tone_variant() {
    let registry = "# group: People & Body\n1F44D; fully-qualified  # \u{1F44D} thumbs up\n";
    // Keywords only on the Medium tone variant's key.
    let en_main = "<annotation cp=\"\u{1F44D}\u{1F3FD}\">ok</annotation>";
    let entries = compile_catalog(registry, en_main, EMPTY, EMPTY, EMPTY).unwrap();
    assert_eq!(entries.len(), 1);
    assert_eq!(entries[0].keywords_en, vec!["ok".to_string()]);
}

#[test]
fn row_before_any_header_gets_empty_category() {
    let registry = "1F600; fully-qualified  # \u{1F600} grinning face\n";
    let entries = compile_catalog(registry, EMPTY, EMPTY, EMPTY, EMPTY).unwrap();
    assert_eq!(entries.len(), 1);
    assert_eq!(entries[0].category, "");
    assert_eq!(entries[0].name_en, "grinning face");
}

#[test]
fn duplicate_rows_yield_one_entry() {
    let registry = "1F600; fully-qualified  # \u{1F600} grinning face\n\
         1F600; fully-qualified  # \u{1F600} grinning face\n";
    let entries = compile_catalog(registry, EMPTY, EMPTY, EMPTY, EMPTY).unwrap();
    assert_eq!(entries.len(), 1);
}

#[test]
fn catalog_renderings_are_pairwise_distinct() {
    let registry = "# group: Smileys & Emotion\n\
         1F600; fully-qualified  # \u{1F600} grinning face\n\
         1F601; fully-qualified  # \u{1F601} beaming face\n\
         1F600; fully-qualified  # \u{1F600} grinning face again\n\
         1F601 FE0F; fully-qualified  # \u{1F601}\u{FE0F} beaming face\n";
    let entries = compile_catalog(registry, EMPTY, EMPTY, EMPTY, EMPTY).unwrap();
    for i in 0..entries.len() {
        for j in 0..entries.len() {
            if i != j {
                assert_ne!(entries[i].ch, entries[j].ch);
            }
        }
    }
    assert_eq!(entries.len(), 3);
}

#[test]
fn other_qualification_states_are_skipped() {
    let registry = "# group: Smileys & Emotion\n\
         # a comment line\n\
         \n\
         1F600; fully-qualified  # \u{1F600} grinning face\n\
         263A; unqualified  # \u{263A} smiling face\n\
         1F3FB; component  # \u{1F3FB} light skin tone\n";
    let entries = compile_catalog(registry, EMPTY, EMPTY, EMPTY, EMPTY).unwrap();
    assert_eq!(entries.len(), 1);
    assert_eq!(entries[0].ch, "\u{1F600}");
}

#[test]
fn hex_overflow_is_the_one_fatal_row_error() {
    let registry = "1F600; fully-qualified  # \u{1F600} grinning face\n\
         FFFFFFFFF; fully-qualified  # ? bogus\n";
    let err = compile_catalog(registry, EMPTY, EMPTY, EMPTY, EMPTY).unwrap_err();
    assert_eq!(err.line, 1);
}

#[test]
fn dutch_name_falls_back_to_registry_name() {
    let registry = "1F680; fully-qualified  # \u{1F680} rocket\n";
    let nl_main = "<annotation cp=\"\u{1F680}\" type=\"tts\">raket</annotation>\
         <annotation cp=\"\u{1F680}\">lancering | schip</annotation>";
    let with_nl = compile_catalog(registry, EMPTY, EMPTY, nl_main, EMPTY).unwrap();
    assert_eq!(with_nl[0].name_nl, "raket");
    assert_eq!(with_nl[0].keywords_nl, vec!["lancering".to_string(), "schip".to_string()]);
    let without_nl = compile_catalog(registry, EMPTY, EMPTY, EMPTY, EMPTY).unwrap();
    assert_eq!(without_nl[0].name_nl, "rocket");
    assert!(without_nl[0].keywords_nl.is_empty());
}

#[test]
fn variant_selector_fallback_finds_stripped_key() {
    // The registry key carries FE0F; the annotation key does not.
    let registry = "2764 FE0F; fully-qualified  # \u{2764}\u{FE0F} red heart\n";
    let en_main = "<annotation cp=\"\u{2764}\">love | heart</annotation>";
    let entries = compile_catalog(registry, en_main, EMPTY, EMPTY, EMPTY).unwrap();
    assert_eq!(entries[0].keywords_en, vec!["love".to_string(), "heart".to_string()]);
}

#[test]
fn variants_attach_through_the_stripped_base_key() {
    // The base row carries the variant selector; the tone row's base key
    // does not, so the attachment goes through the stripped key.
    let registry = "270C FE0F; fully-qualified  # \u{270C}\u{FE0F} victory hand\n\
         270C 1F3FC; fully-qualified  # \u{270C}\u{1F3FC} victory hand: medium-light skin tone\n";
    let entries = compile_catalog(registry, EMPTY, EMPTY, EMPTY, EMPTY).unwrap();
    assert_eq!(entries.len(), 1);
    let variants = entries[0].skin_tone_variants.as_ref().unwrap();
    assert_eq!(variants[1], Some("\u{270C}\u{1F3FC}".to_string()));
}

#[test]
fn resolve_tone_prefers_the_variant() {
    let registry = "1F44D; fully-qualified  # \u{1F44D} thumbs up\n\
         1F44D 1F3FF; fully-qualified  # \u{1F44D}\u{1F3FF} thumbs up: dark skin tone\n";
    let entries = compile_catalog(registry, EMPTY, EMPTY, EMPTY, EMPTY).unwrap();
    let e = &entries[0];
    assert_eq!(resolve_tone(e, SkinTone::Dark), "\u{1F44D}\u{1F3FF}");
    assert_eq!(resolve_tone(e, SkinTone::Light), "\u{1F44D}");
    assert_eq!(resolve_tone(e, SkinTone::Default), "\u{1F44D}");
}
