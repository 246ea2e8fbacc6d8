//! Case-insensitive substring search over the finished catalog.

use vstd::prelude::*;
use crate::catalog::{emoji_views, Emoji, EmojiView};
use crate::strings::{lower_of, lowercase};
use crate::text::{chars_of, contains_chars, contains_seq};

verus! {

/// The lowercased query occurs in the entry's lowercased English name or
/// in some lowercased English keyword.
pub open spec fn matches_query(e: EmojiView, lq: Seq<char>) -> bool {
    ||| contains_seq(lower_of(e.name_en), lq)
    ||| exists|i: int|
        0 <= i < e.keywords_en.len() && contains_seq(lower_of(#[trigger] e.keywords_en[i]), lq)
}

/// The search results: the whole catalog for an empty query, else the
/// matching entries in catalog order; in either case at most the first
/// forty.
pub open spec fn search_spec(catalog: Seq<EmojiView>, q: Seq<char>) -> Seq<EmojiView> {
    let all = if q.len() == 0 {
        catalog
    } else {
        catalog.filter(|e: EmojiView| matches_query(e, lower_of(q)))
    };
    if all.len() <= 40 {
        all
    } else {
        all.take(40)
    }
}

/// Whether the entry matches the lowercased query, per `matches_query`.
fn entry_matches(e: &Emoji, lq: &Vec<char>) -> (r: bool)
    ensures
        r == matches_query(e@, lq@),
{
    let name_low = lowercase(e.name_en.as_str());
    let name_chars = chars_of(name_low.as_str());
    if contains_chars(&name_chars, lq) {
        return true;
    }
    let ghost kws = e@.keywords_en;
    let mut i: usize = 0;
    while i < e.keywords_en.len()
        invariant
            0 <= i <= e.keywords_en@.len(),
            kws == e.keywords_en.deep_view(),
            kws.len() == e.keywords_en@.len(),
            forall|m: int| 0 <= m < i ==> !contains_seq(lower_of(#[trigger] kws[m]), lq@),
        decreases e.keywords_en@.len() - i,
    {
        proof {
            assert(kws[i as int] == e.keywords_en@[i as int]@);
        }
        let kw_low = lowercase(e.keywords_en[i].as_str());
        let kw_chars = chars_of(kw_low.as_str());
        if contains_chars(&kw_chars, lq) {
            proof {
                assert(contains_seq(lower_of(e@.keywords_en[i as int]), lq@));
            }
            return true;
        }
        i = i + 1;
    }
    false
}

/// Searches the catalog, per `search_spec`: the first forty entries whose
/// English name or keywords contain the query, without regard to case; the
/// first forty entries of the catalog when the query is empty.
pub fn search(catalog: &Vec<Emoji>, query: &str) -> (r: Vec<Emoji>)
    ensures
        emoji_views(r@) == search_spec(emoji_views(catalog@), query@),
{
    let ghost cv = emoji_views(catalog@);
    let mut out: Vec<Emoji> = Vec::new();
    if query.is_empty() {
        let mut i: usize = 0;
        while i < catalog.len() && i < 40
            invariant
                0 <= i <= catalog@.len(),
                i <= 40,
                cv == emoji_views(catalog@),
                cv.len() == catalog@.len(),
                emoji_views(out@) == cv.take(i as int),
            decreases catalog@.len() - i,
        {
            proof {
                assert(cv[i as int] == catalog@[i as int]@);
            }
            let ghost old_out = emoji_views(out@);
            let e = catalog[i].clone();
            out.push(e);
            proof {
                assert(emoji_views(out@) =~= old_out.push(cv[i as int]));
                assert(old_out.push(cv[i as int]) =~= cv.take(i + 1));
            }
            i = i + 1;
        }
        proof {
            if cv.len() <= 40 {
                assert(cv.take(i as int) =~= cv);
            } else {
                assert(i == 40);
            }
        }
        return out;
    }
    let lq_string = lowercase(query);
    let lq = chars_of(lq_string.as_str());
    let ghost pred = |e: EmojiView| matches_query(e, lower_of(query@));
    let mut i: usize = 0;
    while i < catalog.len() && out.len() < 40
        invariant
            0 <= i <= catalog@.len(),
            cv == emoji_views(catalog@),
            cv.len() == catalog@.len(),
            lq@ == lower_of(query@),
            pred == (|e: EmojiView| matches_query(e, lower_of(query@))),
            emoji_views(out@) == cv.take(i as int).filter(pred),
            out@.len() <= 40,
        decreases catalog@.len() - i,
    {
        proof {
            reveal(Seq::filter);
            assert(cv[i as int] == catalog@[i as int]@);
            assert(cv.take(i + 1).drop_last() =~= cv.take(i as int));
            assert(cv.take(i + 1).last() == cv[i as int]);
        }
        if entry_matches(&catalog[i], &lq) {
            let ghost old_out = emoji_views(out@);
            let e = catalog[i].clone();
            out.push(e);
            proof {
                assert(emoji_views(out@) =~= old_out.push(cv[i as int]));
            }
        }
        i = i + 1;
    }
    proof {
        reveal(Seq::filter);
        let all = cv.filter(pred);
        if i == cv.len() {
            assert(cv.take(i as int) =~= cv);
            assert(emoji_views(out@) == all);
            assert(out@.len() <= 40);
        } else {
            assert(out@.len() == 40);
            assert(cv =~= cv.take(i as int) + cv.skip(i as int));
            Seq::filter_distributes_over_add(cv.take(i as int), cv.skip(i as int), pred);
            assert(all == cv.take(i as int).filter(pred) + cv.skip(i as int).filter(pred));
            assert(all.take(40) =~= emoji_views(out@));
            assert(all.len() >= 40);
        }
    }
    out
}

} // verus!
