//! Catalog search and the emitted table text.

use emoji_picker::catalog::Emoji;
use emoji_picker::emit::emit_catalog;
use emoji_picker::search::search;

fn emoji(ch: &str, name_en: &str, keywords_en: &[&str]) -> Emoji {
    Emoji {
        ch: ch.to_string(),
        name_en: name_en.to_string(),
        keywords_en: keywords_en.iter().map(|k| k.to_string()).collect(),
        name_nl: String::new(),
        keywords_nl: Vec::new(),
        category: "Smileys & Emotion".to_string(),
        skin_tone_variants: None,
    }
}

#[test]
fn search_is_case_insensitive_over_names_and_keywords() {
    let catalog = vec![
        emoji("\u{1F600}", "Grinning Face", &["grin", "smile"]),
        emoji("\u{1F680}", "rocket", &["LAUNCH", "ship"]),
        emoji("\u{1F436}", "dog face", &["puppy"]),
    ];
    let by_name = search(&catalog, "GRINNING");
    assert_eq!(by_name.len(), 1);
    assert_eq!(by_name[0].ch, "\u{1F600}");
    let by_keyword = search(&catalog, "launch");
    assert_eq!(by_keyword.len(), 1);
    assert_eq!(by_keyword[0].ch, "\u{1F680}");
    let by_part = search(&catalog, "face");
    assert_eq!(by_part.len(), 2);
}

#[test]
fn empty_query_returns_the_catalog_head() {
    let mut catalog = Vec::new();
    for i in 0..45u32 {
        catalog.push(emoji(&format!("e{}", i), &format!("name {}", i), &["common"]));
    }
    let all = search(&catalog, "");
    assert_eq!(all.len(), 40);
    assert_eq!(all[0].ch, "e0");
    assert_eq!(all[39].ch, "e39");
    let matched = search(&catalog, "common");
    assert_eq!(matched.len(), 40);
    let small = vec![emoji("\u{1F600}", "grinning face", &[])];
    assert_eq!(search(&small, "").len(), 1);
}

#[test]
fn search_misses_give_an_empty_result() {
    let catalog = vec![emoji("\u{1F600}", "grinning face", &["grin"])];
    assert!(search(&catalog, "zebra").is_empty());
}

#[test]
fn emitted_table_has_one_escaped_record_per_entry() {
    let mut e = emoji("\u{1F600}", "a \"quoted\" name", &["k1", "k2"]);
    e.name_nl = "naam".to_string();
    e.keywords_nl = vec!["nl\\kw".to_string()];
    e.skin_tone_variants = Some(vec![
        Some("\u{1F600}\u{1F3FB}".to_string()),
        None,
        None,
        None,
        None,
    ]);
    let out = emit_catalog(&vec![e]);
    let expected = "    Emoji { ch: \"\u{1F600}\", \
         name_en: \"a \\\"quoted\\\" name\", \
         keywords_en: &[\"k1\", \"k2\"], \
         name_nl: \"naam\", \
         keywords_nl: &[\"nl\\\\kw\"], \
         category: \"Smileys & Emotion\", \
         skin_tone_variants: Some([Some(\"\u{1F600}\u{1F3FB}\"), None, None, None, None]) },\n";
    assert_eq!(out, expected);
}

#[test]
fn emitted_table_without_variants_says_none() {
    let e = emoji("\u{1F680}", "rocket", &[]);
    let out = emit_catalog(&vec![e]);
    assert_eq!(
        out,
        "    Emoji { ch: \"\u{1F680}\", name_en: \"rocket\", keywords_en: &[], \
         name_nl: \"\", keywords_nl: &[], category: \"Smileys & Emotion\", \
         skin_tone_variants: None },\n"
    );
}
