//! Controller behaviour: modes, filtering, and listener notification.

use std::cell::RefCell;
use std::rc::Rc;

use emoji_picker::catalog::Emoji;
use emoji_picker::controller::{EmojiPickerController, NoopListener, PickerListener, PickerMode};

fn emoji(ch: &str, name_en: &str, keywords_en: &[&str], name_nl: &str, category: &str) -> Emoji {
    Emoji {
        ch: ch.to_string(),
        name_en: name_en.to_string(),
        keywords_en: keywords_en.iter().map(|k| k.to_string()).collect(),
        name_nl: name_nl.to_string(),
        keywords_nl: Vec::new(),
        category: category.to_string(),
        skin_tone_variants: None,
    }
}

fn sample_emojis() -> Vec<Emoji> {
    vec![
        emoji(
            "\u{1F600}",
            "grinning face",
            &["grin", "smile", "happy"],
            "grijnzend gezicht",
            "Smileys & Emotion",
        ),
        emoji(
            "\u{1F602}",
            "face with tears of joy",
            &["joy", "laugh"],
            "gezicht met vreugdetranen",
            "Smileys & Emotion",
        ),
        emoji(
            "\u{1F60A}",
            "smiling face with smiling eyes",
            &["blush", "smile"],
            "lachend gezicht met lachende ogen",
            "Smileys & Emotion",
        ),
        emoji(
            "\u{1F63C}",
            "cat with wry smile",
            &["ironic", "smirk"],
            "kat met scheve glimlach",
            "Smileys & Emotion",
        ),
        emoji("\u{1F680}", "rocket", &["launch", "ship", "fast"], "raket", "Travel & Places"),
    ]
}

fn make_controller() -> EmojiPickerController<NoopListener> {
    EmojiPickerController::new(sample_emojis())
}

#[test]
fn test_show_category_bar_logic() {
    let emojis = vec![emoji(
        "😀",
        "grinning face",
        &[],
        "grijnzend gezicht",
        "Smileys & Emotion",
    )];
    let mut controller: EmojiPickerController<NoopListener> =
        EmojiPickerController::new(emojis.clone());
    // Initially in Browse mode
    assert!(controller.show_category_bar());
    // Switch to Search mode
    controller.handle_search("smile");
    assert!(!controller.show_category_bar());
    // Clear search (should return to Browse mode)
    controller.handle_search("");
    assert!(controller.show_category_bar());
}

struct FlagListener {
    called: Rc<RefCell<bool>>,
}

impl PickerListener for FlagListener {
    fn on_state_change(&self, mode: PickerMode, emojis: &Vec<Emoji>) {
        *self.called.borrow_mut() = true;
        // Should be in Search mode and filtered_emojis should match query
        assert_eq!(mode, PickerMode::Search);
        assert!(emojis
            .iter()
            .all(|e| e.name_en.contains("joy") || e.keywords_en.iter().any(|k| k.contains("joy"))));
    }
}

#[test]
fn test_listener_callback_receives_correct_state() {
    let mut controller: EmojiPickerController<FlagListener> =
        EmojiPickerController::new(sample_emojis());
    let called = Rc::new(RefCell::new(false));
    let called_clone = Rc::clone(&called);
    controller.add_listener(FlagListener { called: called_clone });
    controller.handle_search("joy");
    assert!(*called.borrow(), "Listener callback was not called");
}

#[test]
fn app_controller_test_initial_mode_is_browse() {
    let controller = make_controller();
    assert_eq!(controller.mode, PickerMode::Browse);
    assert!(controller.search_query.is_empty());
    assert!(controller.filtered_emojis.is_empty());
}

#[test]
fn test_search_switches_to_search_mode_and_filters() {
    let mut controller = make_controller();
    controller.handle_search("smile");
    assert_eq!(controller.mode, PickerMode::Search);
    assert_eq!(controller.search_query, "smile");
    assert!(controller
        .filtered_emojis
        .iter()
        .all(|e| e.name_en.contains("smile")
            || e.keywords_en.iter().any(|k| k.contains("smile"))
            || e.name_nl.contains("smile")
            || e.keywords_nl.iter().any(|k| k.contains("smile"))
            || e.ch.contains("smile")));
}

#[test]
fn test_search_empty_switches_to_browse_mode() {
    let mut controller = make_controller();
    controller.handle_search("smile");
    assert_eq!(controller.mode, PickerMode::Search);
    controller.handle_search("");
    assert_eq!(controller.mode, PickerMode::Browse);
    assert!(controller.filtered_emojis.is_empty());
}

#[test]
fn test_search_switching_multiple_times() {
    let mut controller = make_controller();
    // Start in browse
    assert_eq!(controller.mode, PickerMode::Browse);
    // Search
    controller.handle_search("joy");
    assert_eq!(controller.mode, PickerMode::Search);
    assert!(!controller.filtered_emojis.is_empty());
    // Clear search
    controller.handle_search("");
    assert_eq!(controller.mode, PickerMode::Browse);
    assert!(controller.filtered_emojis.is_empty());
    // Search again
    controller.handle_search("face");
    assert_eq!(controller.mode, PickerMode::Search);
    assert!(!controller.filtered_emojis.is_empty());
}

#[test]
fn app_controller_integration_test_initial_mode_is_browse() {
    let controller = Rc::new(RefCell::new(make_controller()));
    assert_eq!(controller.borrow().mode, PickerMode::Browse);
}

#[test]
fn test_search_changes_mode_and_filters() {
    let controller = Rc::new(RefCell::new(make_controller()));
    controller.borrow_mut().handle_search("smile");
    assert_eq!(controller.borrow().mode, PickerMode::Search);
    assert!(controller
        .borrow()
        .filtered_emojis
        .iter()
        .any(|e| e.name_en.contains("smile")));
}

#[test]
fn test_empty_search_restores_browse_mode() {
    let controller = Rc::new(RefCell::new(make_controller()));
    controller.borrow_mut().handle_search("");
    assert_eq!(controller.borrow().mode, PickerMode::Browse);
}
