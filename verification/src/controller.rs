//! The picker's state: the current mode, query and filtered results, with
//! registered listeners told of every search-driven state change.

use vstd::prelude::*;
use crate::catalog::{emoji_views, Emoji, EmojiView};
use crate::strings::{lower_of, lowercase};
use crate::text::{chars_of, contains_chars, contains_seq};

verus! {

/// The current mode of the picker.
#[derive(Debug, Clone, Copy, PartialEq, Eq, Structural)]
pub enum PickerMode {
    /// Default mode: categories and the category grid are shown.
    Browse,
    /// Search mode: the search results grid is shown.
    Search,
}

/// A party told of every state change, with the new mode and the filtered
/// entries. Implemented by the presentation layer.
pub trait PickerListener {
    /// Called on each state change.
    fn on_state_change(&self, mode: PickerMode, emojis: &Vec<Emoji>);
}

/// A listener that does nothing.
pub struct NoopListener {}

impl PickerListener for NoopListener {
    fn on_state_change(&self, _mode: PickerMode, _emojis: &Vec<Emoji>) {
    }
}

/// The lowercased query occurs in a lowercased name or keyword of either
/// locale, or anywhere in the rendered text.
pub open spec fn matches_picker(e: EmojiView, lq: Seq<char>) -> bool {
    ||| contains_seq(lower_of(e.name_en), lq)
    ||| exists|i: int|
        0 <= i < e.keywords_en.len() && contains_seq(lower_of(#[trigger] e.keywords_en[i]), lq)
    ||| contains_seq(lower_of(e.name_nl), lq)
    ||| exists|i: int|
        0 <= i < e.keywords_nl.len() && contains_seq(lower_of(#[trigger] e.keywords_nl[i]), lq)
    ||| contains_seq(e.ch, lq)
}

/// State and coordination for the picker: the whole catalog, the current
/// mode and query, the filtered results, and the registered listeners.
pub struct EmojiPickerController<L: PickerListener> {
    pub mode: PickerMode,
    pub search_query: String,
    pub all_emojis: Vec<Emoji>,
    pub filtered_emojis: Vec<Emoji>,
    pub listeners: Vec<L>,
}

/// Whether the entry matches the lowercased query, per `matches_picker`.
fn picker_matches(e: &Emoji, lq: &Vec<char>) -> (r: bool)
    ensures
        r == matches_picker(e@, lq@),
{
    let name_en_low = lowercase(e.name_en.as_str());
    let c1 = chars_of(name_en_low.as_str());
    if contains_chars(&c1, lq) {
        return true;
    }
    let name_nl_low = lowercase(e.name_nl.as_str());
    let c2 = chars_of(name_nl_low.as_str());
    if contains_chars(&c2, lq) {
        return true;
    }
    let c3 = chars_of(e.ch.as_str());
    if contains_chars(&c3, lq) {
        return true;
    }
    if keywords_match(&e.keywords_en, lq) {
        proof {
            let kws = e@.keywords_en;
            assert(exists|i: int|
                0 <= i < kws.len() && contains_seq(lower_of(#[trigger] kws[i]), lq@));
        }
        return true;
    }
    if keywords_match(&e.keywords_nl, lq) {
        proof {
            let kws = e@.keywords_nl;
            assert(exists|i: int|
                0 <= i < kws.len() && contains_seq(lower_of(#[trigger] kws[i]), lq@));
        }
        return true;
    }
    false
}

/// Whether some keyword, lowercased, contains the lowercased query.
fn keywords_match(kws: &Vec<String>, lq: &Vec<char>) -> (r: bool)
    ensures
        r == exists|i: int|
            0 <= i < kws.deep_view().len() && contains_seq(
                lower_of(#[trigger] kws.deep_view()[i]),
                lq@,
            ),
{
    let ghost kv = kws.deep_view();
    let mut i: usize = 0;
    while i < kws.len()
        invariant
            0 <= i <= kws@.len(),
            kv == kws.deep_view(),
            kv.len() == kws@.len(),
            forall|m: int| 0 <= m < i ==> !contains_seq(lower_of(#[trigger] kv[m]), lq@),
        decreases kws@.len() - i,
    {
        proof {
            assert(kv[i as int] == kws@[i as int]@);
        }
        let low = lowercase(kws[i].as_str());
        let c = chars_of(low.as_str());
        if contains_chars(&c, lq) {
            proof {
                assert(contains_seq(lower_of(kv[i as int]), lq@));
            }
            return true;
        }
        i = i + 1;
    }
    false
}

impl<L: PickerListener> EmojiPickerController<L> {
    /// A fresh controller over the whole catalog: browsing, with an empty
    /// query, no results and no listeners.
    pub fn new(all_emojis: Vec<Emoji>) -> (r: Self)
        ensures
            r.mode is Browse,
            r.search_query@ == Seq::<char>::empty(),
            r.all_emojis == all_emojis,
            r.filtered_emojis@.len() == 0,
            r.listeners@.len() == 0,
    {
        EmojiPickerController {
            mode: PickerMode::Browse,
            search_query: String::new(),
            all_emojis,
            filtered_emojis: Vec::new(),
            listeners: Vec::new(),
        }
    }

    /// Registers a listener to be told of every state change.
    pub fn add_listener(&mut self, listener: L)
        ensures
            final(self).listeners@ == old(self).listeners@.push(listener),
            final(self).mode == old(self).mode,
            final(self).search_query == old(self).search_query,
            final(self).all_emojis == old(self).all_emojis,
            final(self).filtered_emojis == old(self).filtered_emojis,
    {
        self.listeners.push(listener);
    }

    /// Tells every listener the current mode and filtered entries, in
    /// registration order.
    fn notify_listeners(&self) {
        let mut i: usize = 0;
        while i < self.listeners.len()
            decreases self.listeners@.len() - i,
        {
            self.listeners[i].on_state_change(self.mode, &self.filtered_emojis);
            i = i + 1;
        }
    }

    /// The category bar is shown exactly in browse mode.
    pub fn show_category_bar(&self) -> (r: bool)
        ensures
            r == (self.mode is Browse),
    {
        match self.mode {
            PickerMode::Browse => true,
            PickerMode::Search => false,
        }
    }

    /// Takes a search query: an empty query returns to browsing with no
    /// results; any other switches to search mode and filters the whole
    /// catalog, without regard to case, over names, keywords and the
    /// rendered text. Listeners are then told of the new state.
    pub fn handle_search(&mut self, query: &str)
        ensures
            final(self).search_query@ == query@,
            final(self).all_emojis == old(self).all_emojis,
            final(self).listeners == old(self).listeners,
            query@.len() == 0 ==> final(self).mode is Browse
                && final(self).filtered_emojis@.len() == 0,
            query@.len() > 0 ==> final(self).mode is Search && emoji_views(
                final(self).filtered_emojis@,
            ) == emoji_views(old(self).all_emojis@).filter(
                |e: EmojiView| matches_picker(e, lower_of(query@)),
            ),
    {
        self.search_query = query.to_owned();
        if query.is_empty() {
            self.mode = PickerMode::Browse;
            self.filtered_emojis = Vec::new();
        } else {
            self.mode = PickerMode::Search;
            let lq_string = lowercase(query);
            let lq = chars_of(lq_string.as_str());
            let ghost pred = |e: EmojiView| matches_picker(e, lower_of(query@));
            let ghost cv = emoji_views(self.all_emojis@);
            let mut out: Vec<Emoji> = Vec::new();
            proof {
                reveal(Seq::filter);
                assert(emoji_views(out@) =~= cv.take(0).filter(pred));
            }
            let mut i: usize = 0;
            while i < self.all_emojis.len()
                invariant
                    0 <= i <= self.all_emojis@.len(),
                    cv == emoji_views(self.all_emojis@),
                    cv.len() == self.all_emojis@.len(),
                    lq@ == lower_of(query@),
                    pred == (|e: EmojiView| matches_picker(e, lower_of(query@))),
                    emoji_views(out@) == cv.take(i as int).filter(pred),
                decreases self.all_emojis@.len() - i,
            {
                proof {
                    reveal(Seq::filter);
                    assert(cv[i as int] == self.all_emojis@[i as int]@);
                    assert(cv.take(i + 1).drop_last() =~= cv.take(i as int));
                    assert(cv.take(i + 1).last() == cv[i as int]);
                }
                if picker_matches(&self.all_emojis[i], &lq) {
                    let ghost old_out = emoji_views(out@);
                    let e = self.all_emojis[i].clone();
                    out.push(e);
                    proof {
                        assert(emoji_views(out@) =~= old_out.push(cv[i as int]));
                    }
                }
                i = i + 1;
            }
            proof {
                assert(cv.take(i as int) =~= cv);
            }
            self.filtered_emojis = out;
        }
        self.notify_listeners();
    }

    /// A category was chosen; the grid owner reacts, the state is kept.
    pub fn handle_category_selected(&mut self, _category_idx: usize)
        ensures
            *final(self) == *old(self),
    {
    }

    /// An entry was chosen; the consumer reacts, the state is kept.
    pub fn handle_emoji_selected(&mut self, _emoji_idx: usize)
        ensures
            *final(self) == *old(self),
    {
    }
}

} // verus!
