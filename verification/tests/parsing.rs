//! The two parsers and the merge rules, on concrete inputs.

use emoji_picker::annotations::{merge_annotations, normalize_lookup, parse_annotations};
use emoji_picker::registry::parse_registry;

fn key(cps: &[u32]) -> Vec<u32> {
    cps.to_vec()
}

#[test]
fn registry_parses_rows_and_categories() {
    let text = "# group: Smileys & Emotion\n\
         1F600; fully-qualified  # \u{1F600} grinning face\n\
         # group: Animals & Nature\n\
         1F436; fully-qualified  # \u{1F436} dog face\n";
    let rows = parse_registry(text).unwrap();
    assert_eq!(rows.len(), 2);
    assert_eq!(rows[0].codepoints, vec![0x1F600]);
    assert_eq!(rows[0].name_en, "grinning face");
    assert_eq!(rows[0].category, "Smileys & Emotion");
    assert_eq!(rows[1].codepoints, vec![0x1F436]);
    assert_eq!(rows[1].category, "Animals & Nature");
}

#[test]
fn registry_handles_multi_codepoint_rows_and_crlf() {
    let text = "1F469 200D 1F52C; fully-qualified  # \u{1F469}\u{200D}\u{1F52C} woman scientist\r\n";
    let rows = parse_registry(text).unwrap();
    assert_eq!(rows.len(), 1);
    assert_eq!(rows[0].codepoints, vec![0x1F469, 0x200D, 0x1F52C]);
    assert_eq!(rows[0].name_en, "woman scientist");
}

#[test]
fn registry_overflow_token_reports_its_line() {
    let text = "# group: X\n123456789AB; fully-qualified  # ? too big\n";
    let err = parse_registry(text).unwrap_err();
    assert_eq!(err.line, 1);
}

#[test]
fn annotations_merge_tts_and_keyword_elements() {
    let doc = "<annotations>\
         <annotation cp=\"\u{1F600}\">face; grin , grinning face</annotation>\
         <annotation cp=\"\u{1F600}\" type=\"tts\">grinning face</annotation>\
         </annotations>";
    let map = parse_annotations(doc);
    let ann = map.get(&key(&[0x1F600])).unwrap();
    assert_eq!(ann.name, "grinning face");
    assert_eq!(
        ann.keywords,
        vec!["face".to_string(), "grin".to_string(), "grinning face".to_string()]
    );
}

#[test]
fn annotations_resolve_entities_and_drop_duplicates() {
    let doc = "<annotation cp=\"\u{1F600}\">R&amp;D | R&amp;D |  smile | smile |</annotation>";
    let map = parse_annotations(doc);
    let ann = map.get(&key(&[0x1F600])).unwrap();
    assert_eq!(ann.keywords, vec!["R&D".to_string(), "smile".to_string()]);
}

#[test]
fn annotations_skip_elements_without_cp() {
    let doc = "<annotations><annotationsFollow/>\
         <annotation>orphan text</annotation>\
         <annotation cp=\"\u{2764}\">love</annotation>\
         </annotations>";
    let map = parse_annotations(doc);
    assert!(map.get(&key(&[0x2764])).is_some());
    assert_eq!(map.entries.len(), 1);
}

#[test]
fn merged_name_prefers_the_main_source() {
    let main = parse_annotations("<annotation cp=\"\u{2764}\" type=\"tts\">red heart</annotation>");
    let derived =
        parse_annotations("<annotation cp=\"\u{2764}\" type=\"tts\">heart, red</annotation>");
    let merged = merge_annotations(&main, &derived, &key(&[0x2764]), &"fallback".to_string());
    assert_eq!(merged.name, "red heart");
}

#[test]
fn merged_keywords_append_only_new_derived_items() {
    let main = parse_annotations("<annotation cp=\"\u{2764}\">love | heart</annotation>");
    let derived = parse_annotations("<annotation cp=\"\u{2764}\">heart | romance</annotation>");
    let merged = merge_annotations(&main, &derived, &key(&[0x2764]), &"x".to_string());
    assert_eq!(
        merged.keywords,
        vec!["love".to_string(), "heart".to_string(), "romance".to_string()]
    );
    let mut seen: Vec<&String> = Vec::new();
    for k in &merged.keywords {
        assert!(!seen.contains(&k));
        seen.push(k);
    }
}

#[test]
fn merged_name_falls_back_to_derived_then_default() {
    let main = parse_annotations("<annotation cp=\"\u{2764}\">love</annotation>");
    let derived =
        parse_annotations("<annotation cp=\"\u{2764}\" type=\"tts\">derived heart</annotation>");
    let merged = merge_annotations(&main, &derived, &key(&[0x2764]), &"default".to_string());
    assert_eq!(merged.name, "derived heart");
    let empty = parse_annotations("");
    let merged2 = merge_annotations(&main, &empty, &key(&[0x2764]), &"default".to_string());
    assert_eq!(merged2.name, "default");
}

#[test]
fn normalizer_strips_the_variant_selector_once() {
    let main = parse_annotations("<annotation cp=\"\u{1F44D}\">yes | ok</annotation>");
    let empty = parse_annotations("");
    let deflt = "thumbs up".to_string();
    // The exact key misses; the stripped key hits.
    let hit = normalize_lookup(&main, &empty, &key(&[0x1F44D, 0xFE0F]), &deflt);
    assert_eq!(hit.keywords, vec!["yes".to_string(), "ok".to_string()]);
    // Normalizing the already-stripped key answers the same.
    let direct = normalize_lookup(&main, &empty, &key(&[0x1F44D]), &deflt);
    assert_eq!(direct.keywords, hit.keywords);
    assert_eq!(direct.name, hit.name);
    // A key absent in both forms falls back to the default with no keywords.
    let miss = normalize_lookup(&main, &empty, &key(&[0x1F680]), &deflt);
    assert_eq!(miss.name, "thumbs up");
    assert!(miss.keywords.is_empty());
}
