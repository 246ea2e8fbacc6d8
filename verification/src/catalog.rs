//! The catalog: assembling registry rows and per-locale annotations into
//! the final ordered, deduplicated list of emoji entries, with tone
//! variants bucketed under their base entries.

use vstd::prelude::*;
use crate::annotations::{normalize_spec, AnnotationMap, AnnView};
use crate::keys::{render_spec, renders, strip_vs_spec, valid_scalar};
use crate::registry::{RegistryRow, RowView};
use crate::tones::{
    backfill_spec, is_tone_variant, variant_base, variant_slot, vt_has, vt_lookup, vt_put, vt_wf,
    VariantTable,
};

verus! {

/// One row of the finished catalog.
#[derive(Debug)]
pub struct Emoji {
    pub ch: String,
    pub name_en: String,
    pub keywords_en: Vec<String>,
    pub name_nl: String,
    pub keywords_nl: Vec<String>,
    pub category: String,
    pub skin_tone_variants: Option<Vec<Option<String>>>,
}

/// Mathematical content of an `Emoji`.
pub ghost struct EmojiView {
    pub ch: Seq<char>,
    pub name_en: Seq<char>,
    pub keywords_en: Seq<Seq<char>>,
    pub name_nl: Seq<char>,
    pub keywords_nl: Seq<Seq<char>>,
    pub category: Seq<char>,
    pub skin_tone_variants: Option<Seq<Option<Seq<char>>>>,
}

impl View for Emoji {
    type V = EmojiView;

    open spec fn view(&self) -> EmojiView {
        EmojiView {
            ch: self.ch@,
            name_en: self.name_en@,
            keywords_en: self.keywords_en.deep_view(),
            name_nl: self.name_nl@,
            keywords_nl: self.keywords_nl.deep_view(),
            category: self.category@,
            skin_tone_variants: match self.skin_tone_variants {
                Some(v) => Some(v.deep_view()),
                None => None,
            },
        }
    }
}

/// A tone-variant table, when present, has exactly five slots.
pub open spec fn emoji_wf(e: EmojiView) -> bool {
    e.skin_tone_variants matches Some(v) ==> v.len() == 5
}

impl Clone for Emoji {
    /// A clone has the same content.
    fn clone(&self) -> (r: Self)
        ensures
            r@ == self@,
    {
        let skin_tone_variants = match &self.skin_tone_variants {
            Some(v) => Some(crate::tones::clone_slots(v)),
            None => None,
        };
        let r = Emoji {
            ch: self.ch.clone(),
            name_en: self.name_en.clone(),
            keywords_en: crate::strings::clone_strings(&self.keywords_en),
            name_nl: self.name_nl.clone(),
            keywords_nl: crate::strings::clone_strings(&self.keywords_nl),
            category: self.category.clone(),
            skin_tone_variants,
        };
        proof {
            assert(r@ == self@);
        }
        r
    }
}

/// One base entry as the first pass leaves it, before tone variants are
/// attached.
pub struct BaseEntry {
    pub codepoints: Vec<u32>,
    pub ch: String,
    pub name_en: String,
    pub keywords_en: Vec<String>,
    pub name_nl: String,
    pub keywords_nl: Vec<String>,
    pub category: String,
}

/// Mathematical content of a `BaseEntry`.
pub ghost struct BaseView {
    pub cps: Seq<u32>,
    pub ch: Seq<char>,
    pub name_en: Seq<char>,
    pub keywords_en: Seq<Seq<char>>,
    pub name_nl: Seq<char>,
    pub keywords_nl: Seq<Seq<char>>,
    pub category: Seq<char>,
}

impl View for BaseEntry {
    type V = BaseView;

    open spec fn view(&self) -> BaseView {
        BaseView {
            cps: self.codepoints@,
            ch: self.ch@,
            name_en: self.name_en@,
            keywords_en: self.keywords_en.deep_view(),
            name_nl: self.name_nl@,
            keywords_nl: self.keywords_nl.deep_view(),
            category: self.category@,
        }
    }
}

/// Every value is a Unicode scalar value, so the row can be rendered.
pub open spec fn row_valid(cps: Seq<u32>) -> bool {
    forall|i: int| 0 <= i < cps.len() ==> valid_scalar(#[trigger] cps[i])
}

/// The state after the first pass over a prefix of the rows.
pub ghost struct BuildState {
    pub entries: Seq<BaseView>,
    pub table: Seq<(Seq<u32>, Seq<Option<Seq<char>>>)>,
}

/// Some gathered entry already renders as `ch`.
pub open spec fn has_ch(entries: Seq<BaseView>, ch: Seq<char>) -> bool {
    exists|i: int| 0 <= i < entries.len() && (#[trigger] entries[i]).ch == ch
}

/// The base entry a registry row yields: the registry comment is the
/// English name; each locale's annotations give the keywords, and the
/// non-English name, through the normalizer with the registry name as the
/// default; a locale's empty keyword list is backfilled from the row's
/// hypothetical tone variants.
pub open spec fn base_record(
    row: RowView,
    en_main: Seq<(Seq<u32>, AnnView)>,
    en_derived: Seq<(Seq<u32>, AnnView)>,
    nl_main: Seq<(Seq<u32>, AnnView)>,
    nl_derived: Seq<(Seq<u32>, AnnView)>,
) -> BaseView {
    let en = normalize_spec(en_main, en_derived, row.codepoints, row.name_en);
    let nl = normalize_spec(nl_main, nl_derived, row.codepoints, row.name_en);
    let kws_en = if en.keywords.len() == 0 {
        backfill_spec(row.codepoints, en_main, en_derived)
    } else {
        en.keywords
    };
    let kws_nl = if nl.keywords.len() == 0 {
        backfill_spec(row.codepoints, nl_main, nl_derived)
    } else {
        nl.keywords
    };
    BaseView {
        cps: row.codepoints,
        ch: render_spec(row.codepoints),
        name_en: row.name_en,
        keywords_en: kws_en,
        name_nl: nl.name,
        keywords_nl: kws_nl,
        category: row.category,
    }
}

/// The first pass over one row: a row with an unrenderable value is
/// dropped; a tone variant is recorded in the table and yields no entry; a
/// base row yields an entry unless its rendering is already taken.
pub open spec fn step_row(
    st: BuildState,
    row: RowView,
    en_main: Seq<(Seq<u32>, AnnView)>,
    en_derived: Seq<(Seq<u32>, AnnView)>,
    nl_main: Seq<(Seq<u32>, AnnView)>,
    nl_derived: Seq<(Seq<u32>, AnnView)>,
) -> BuildState {
    if !row_valid(row.codepoints) {
        st
    } else if is_tone_variant(row.codepoints) {
        BuildState {
            entries: st.entries,
            table: vt_put(
                st.table,
                variant_base(row.codepoints),
                variant_slot(row.codepoints),
                render_spec(row.codepoints),
            ),
        }
    } else {
        let b = base_record(row, en_main, en_derived, nl_main, nl_derived);
        if has_ch(st.entries, b.ch) {
            st
        } else {
            BuildState { entries: st.entries.push(b), table: st.table }
        }
    }
}

/// The first pass over all rows, in order.
pub open spec fn pass1(
    rows: Seq<RowView>,
    en_main: Seq<(Seq<u32>, AnnView)>,
    en_derived: Seq<(Seq<u32>, AnnView)>,
    nl_main: Seq<(Seq<u32>, AnnView)>,
    nl_derived: Seq<(Seq<u32>, AnnView)>,
) -> BuildState
    decreases rows.len(),
{
    if rows.len() == 0 {
        BuildState {
            entries: Seq::empty(),
            table: Seq::<(Seq<u32>, Seq<Option<Seq<char>>>)>::empty(),
        }
    } else {
        step_row(
            pass1(rows.drop_last(), en_main, en_derived, nl_main, nl_derived),
            rows.last(),
            en_main,
            en_derived,
            nl_main,
            nl_derived,
        )
    }
}

/// The tone variants attached to a base entry: the table's slots under the
/// entry's own key, else under the key stripped of variant selectors, else
/// none.
pub open spec fn variants_for(
    table: Seq<(Seq<u32>, Seq<Option<Seq<char>>>)>,
    cps: Seq<u32>,
) -> Option<Seq<Option<Seq<char>>>> {
    if vt_has(table, cps) {
        vt_lookup(table, cps)
    } else if vt_has(table, strip_vs_spec(cps)) {
        vt_lookup(table, strip_vs_spec(cps))
    } else {
        None
    }
}

/// A finished entry: the base entry with its tone variants attached.
pub open spec fn finish_entry(
    b: BaseView,
    table: Seq<(Seq<u32>, Seq<Option<Seq<char>>>)>,
) -> EmojiView {
    EmojiView {
        ch: b.ch,
        name_en: b.name_en,
        keywords_en: b.keywords_en,
        name_nl: b.name_nl,
        keywords_nl: b.keywords_nl,
        category: b.category,
        skin_tone_variants: variants_for(table, b.cps),
    }
}

/// The views of catalog entries.
pub open spec fn emoji_views(entries: Seq<Emoji>) -> Seq<EmojiView> {
    entries.map_values(|e: Emoji| e@)
}

/// The whole catalog of a parsed registry and four annotation maps.
pub open spec fn catalog_spec(
    rows: Seq<RowView>,
    en_main: Seq<(Seq<u32>, AnnView)>,
    en_derived: Seq<(Seq<u32>, AnnView)>,
    nl_main: Seq<(Seq<u32>, AnnView)>,
    nl_derived: Seq<(Seq<u32>, AnnView)>,
) -> Seq<EmojiView> {
    let st = pass1(rows, en_main, en_derived, nl_main, nl_derived);
    st.entries.map_values(|b: BaseView| finish_entry(b, st.table))
}

/// Some gathered base entry already renders as `ch`.
fn contains_ch(entries: &Vec<BaseEntry>, ch: &String) -> (r: bool)
    ensures
        r == has_ch(entries@.map_values(|e: BaseEntry| e@), ch@),
{
    let ghost ev = entries@.map_values(|e: BaseEntry| e@);
    let mut i: usize = 0;
    while i < entries.len()
        invariant
            0 <= i <= entries@.len(),
            ev == entries@.map_values(|e: BaseEntry| e@),
            ev.len() == entries@.len(),
            forall|m: int| 0 <= m < i ==> (#[trigger] ev[m]).ch != ch@,
        decreases entries@.len() - i,
    {
        proof {
            assert(ev[i as int] == entries@[i as int]@);
        }
        if entries[i].ch == *ch {
            proof {
                assert(ev[i as int].ch == ch@);
            }
            return true;
        }
        i = i + 1;
    }
    false
}

/// Builds the catalog: one entry per renderable, fully-qualified base row
/// whose rendering is new, in registry order, with names and keywords
/// merged from the locale annotation maps and tone variants bucketed under
/// their base entry. No two entries render alike, and no tone variant
/// stands as an entry of its own.
pub fn build_catalog(
    rows: &Vec<RegistryRow>,
    en_main: &AnnotationMap,
    en_derived: &AnnotationMap,
    nl_main: &AnnotationMap,
    nl_derived: &AnnotationMap,
) -> (r: Vec<Emoji>)
    ensures
        emoji_views(r@) == catalog_spec(
            crate::registry::row_views(rows@),
            en_main@,
            en_derived@,
            nl_main@,
            nl_derived@,
        ),
        forall|i: int, j: int| 0 <= i < j < r@.len() ==> (#[trigger] r@[i])@.ch != (
        #[trigger] r@[j])@.ch,
        forall|ri: int, k: int|
            0 <= ri < rows@.len() && is_tone_variant((#[trigger] rows@[ri])@.codepoints)
                && row_valid(rows@[ri]@.codepoints) && 0 <= k < r@.len() ==> (#[trigger] r@[k])@.ch
                != render_spec(rows@[ri]@.codepoints),
        forall|k: int| 0 <= k < r@.len() ==> emoji_wf((#[trigger] r@[k])@),
{
    let ghost rv = crate::registry::row_views(rows@);
    let mut entries: Vec<BaseEntry> = Vec::new();
    let mut table = VariantTable::new();
    proof {
        assert(rv.take(0) =~= Seq::<RowView>::empty());
        assert(entries@.map_values(|e: BaseEntry| e@) =~= Seq::<BaseView>::empty());
    }
    let mut i: usize = 0;
    while i < rows.len()
        invariant
            0 <= i <= rows@.len(),
            rv == crate::registry::row_views(rows@),
            rv.len() == rows@.len(),
            forall|m: int| 0 <= m < rv.len() ==> #[trigger] rv[m] == rows@[m]@,
            entries@.map_values(|e: BaseEntry| e@) == pass1(
                rv.take(i as int),
                en_main@,
                en_derived@,
                nl_main@,
                nl_derived@,
            ).entries,
            table@ == pass1(rv.take(i as int), en_main@, en_derived@, nl_main@, nl_derived@).table,
            vt_wf(table@),
            forall|a: int, b: int|
                0 <= a < b < entries@.len() ==> (#[trigger] entries@[a])@.ch != (
                #[trigger] entries@[b])@.ch,
            forall|a: int|
                0 <= a < entries@.len() ==> renders(
                    (#[trigger] entries@[a])@.cps,
                    entries@[a]@.ch,
                ) && !is_tone_variant(entries@[a]@.cps),
            forall|m: int|
                0 <= m < i && is_tone_variant((#[trigger] rv[m]).codepoints) && row_valid(
                    rv[m].codepoints,
                ) ==> renders(rv[m].codepoints, render_spec(rv[m].codepoints)),
        decreases rows@.len() - i,
    {
        let ghost st = pass1(rv.take(i as int), en_main@, en_derived@, nl_main@, nl_derived@);
        let ghost row = rv[i as int];
        proof {
            assert(rv.take(i + 1).drop_last() =~= rv.take(i as int));
            assert(rv.take(i + 1).last() == rv[i as int]);
        }
        let cps = crate::keys::clone_key(&rows[i].codepoints);
        match crate::keys::render_chars(&cps) {
            None => {
                proof {
                    assert(!row_valid(row.codepoints));
                }
            },
            Some(rend) => {
                proof {
                    assert(row_valid(row.codepoints));
                    crate::keys::lemma_render_spec(row.codepoints, rend@);
                }
                let ch = crate::strings::string_of(&rend);
                match crate::tones::classify_tone(&cps) {
                    Some((slot, base)) => {
                        table.put(base, slot, ch);
                        proof {
                            assert(table@ == vt_put(
                                st.table,
                                variant_base(row.codepoints),
                                variant_slot(row.codepoints),
                                render_spec(row.codepoints),
                            ));
                        }
                    },
                    None => {
                        proof {
                            assert(!is_tone_variant(row.codepoints));
                        }
                        let en = crate::annotations::normalize_lookup(
                            en_main,
                            en_derived,
                            &cps,
                            &rows[i].name_en,
                        );
                        let nl = crate::annotations::normalize_lookup(
                            nl_main,
                            nl_derived,
                            &cps,
                            &rows[i].name_en,
                        );
                        let keywords_en = if en.keywords.len() == 0 {
                            proof {
                                assert(en.keywords.deep_view().len() == en.keywords@.len());
                            }
                            crate::tones::backfill_keywords(&cps, en_main, en_derived)
                        } else {
                            proof {
                                assert(en.keywords.deep_view().len() == en.keywords@.len());
                            }
                            en.keywords
                        };
                        let keywords_nl = if nl.keywords.len() == 0 {
                            proof {
                                assert(nl.keywords.deep_view().len() == nl.keywords@.len());
                            }
                            crate::tones::backfill_keywords(&cps, nl_main, nl_derived)
                        } else {
                            proof {
                                assert(nl.keywords.deep_view().len() == nl.keywords@.len());
                            }
                            nl.keywords
                        };
                        let ghost b = base_record(row, en_main@, en_derived@, nl_main@, nl_derived@);
                        if !contains_ch(&entries, &ch) {
                            let entry = BaseEntry {
                                codepoints: cps,
                                ch,
                                name_en: rows[i].name_en.clone(),
                                keywords_en,
                                name_nl: nl.name,
                                keywords_nl,
                                category: rows[i].category.clone(),
                            };
                            proof {
                                assert(entry@ == b);
                            }
                            let ghost old_e = entries@.map_values(|e: BaseEntry| e@);
                            proof {
                                assert(!has_ch(old_e, b.ch));
                            }
                            entries.push(entry);
                            proof {
                                assert(entries@.map_values(|e: BaseEntry| e@) =~= old_e.push(b));
                                assert forall|a: int, b2: int|
                                    0 <= a < b2 < entries@.len() implies (
                                #[trigger] entries@[a])@.ch != (#[trigger] entries@[b2])@.ch by {
                                    if b2 == entries@.len() - 1 {
                                        assert(old_e[a] == entries@[a]@);
                                        assert(entries@[b2]@.ch == b.ch);
                                        if entries@[a]@.ch == b.ch {
                                            assert(has_ch(old_e, b.ch));
                                        }
                                    }
                                }
                            }
                        }
                    },
                }
            },
        }
        proof {
            assert(entries@.map_values(|e: BaseEntry| e@) == pass1(
                rv.take(i + 1),
                en_main@,
                en_derived@,
                nl_main@,
                nl_derived@,
            ).entries);
            assert(table@ == pass1(
                rv.take(i + 1),
                en_main@,
                en_derived@,
                nl_main@,
                nl_derived@,
            ).table);
        }
        i = i + 1;
    }
    proof {
        assert(rv.take(i as int) =~= rv);
    }
    let ghost st = pass1(rv, en_main@, en_derived@, nl_main@, nl_derived@);
    let mut out: Vec<Emoji> = Vec::new();
    let ghost ev = entries@.map_values(|e: BaseEntry| e@);
    let mut k: usize = 0;
    while k < entries.len()
        invariant
            0 <= k <= entries@.len(),
            ev == entries@.map_values(|e: BaseEntry| e@),
            ev.len() == entries@.len(),
            ev == st.entries,
            table@ == st.table,
            vt_wf(table@),
            out@.len() == k,
            forall|m: int|
                0 <= m < k ==> #[trigger] out@[m]@ == finish_entry(ev[m], st.table),
            forall|m: int| 0 <= m < k ==> (#[trigger] out@[m])@.ch == ev[m].ch,
            forall|m: int| 0 <= m < k ==> emoji_wf((#[trigger] out@[m])@),
        decreases entries@.len() - k,
    {
        proof {
            assert(ev[k as int] == entries@[k as int]@);
        }
        let e = &entries[k];
        let variants: Option<Vec<Option<String>>> = match table.get_slots(&e.codepoints) {
            Some(s) => Some(s),
            None => {
                let alt = crate::keys::strip_variant_selector(&e.codepoints);
                match table.get_slots(&alt) {
                    Some(s) => Some(s),
                    None => None,
                }
            },
        };
        proof {
            crate::tones::lemma_vt_index(table@, e.codepoints@);
            crate::tones::lemma_vt_index(table@, strip_vs_spec(e.codepoints@));
        }
        let emoji = Emoji {
            ch: e.ch.clone(),
            name_en: e.name_en.clone(),
            keywords_en: crate::strings::clone_strings(&e.keywords_en),
            name_nl: e.name_nl.clone(),
            keywords_nl: crate::strings::clone_strings(&e.keywords_nl),
            category: e.category.clone(),
            skin_tone_variants: variants,
        };
        proof {
            assert(emoji@ == finish_entry(ev[k as int], st.table));
            assert(emoji_wf(emoji@)) by {
                if emoji@.skin_tone_variants matches Some(v) {
                    assert(vt_wf(table@));
                }
            }
        }
        out.push(emoji);
        k = k + 1;
    }
    proof {
        assert(emoji_views(out@) =~= st.entries.map_values(|b: BaseView| finish_entry(b, st.table)));
        assert forall|a: int, b: int| 0 <= a < b < out@.len() implies (#[trigger] out@[a])@.ch != (
        #[trigger] out@[b])@.ch by {
            assert(out@[a]@.ch == ev[a].ch);
            assert(out@[b]@.ch == ev[b].ch);
            assert(ev[a] == entries@[a]@);
            assert(ev[b] == entries@[b]@);
        }
        assert forall|ri: int, k2: int|
            0 <= ri < rows@.len() && is_tone_variant((#[trigger] rows@[ri])@.codepoints)
                && row_valid(rows@[ri]@.codepoints) && 0 <= k2 < out@.len() implies (
        #[trigger] out@[k2])@.ch != render_spec(rows@[ri]@.codepoints) by {
            assert(rv[ri] == rows@[ri]@);
            assert(renders(rv[ri].codepoints, render_spec(rv[ri].codepoints)));
            let bse = ev[k2];
            assert(bse == entries@[k2]@);
            assert(renders(bse.cps, bse.ch) && !is_tone_variant(bse.cps));
            assert(out@[k2]@.ch == bse.ch);
            if bse.ch == render_spec(rv[ri].codepoints) {
                crate::keys::lemma_renders_injective(
                    bse.cps,
                    rv[ri].codepoints,
                    bse.ch,
                    render_spec(rv[ri].codepoints),
                );
                assert(bse.cps =~= rv[ri].codepoints);
            }
        }
    }
    out
}


/// A tone preference: no preference, or one of the five named tones.
#[derive(Debug, Clone, Copy, PartialEq, Eq, Structural)]
pub enum SkinTone {
    Default,
    Light,
    MediumLight,
    Medium,
    MediumDark,
    Dark,
}

/// The slot a tone preference selects, `-1` for no preference.
pub open spec fn tone_slot(t: SkinTone) -> int {
    match t {
        SkinTone::Default => -1,
        SkinTone::Light => 0,
        SkinTone::MediumLight => 1,
        SkinTone::Medium => 2,
        SkinTone::MediumDark => 3,
        SkinTone::Dark => 4,
    }
}

/// The text a tone preference resolves to: the variant's when the entry
/// has one for that tone, else the entry's own text.
pub open spec fn resolve_tone_spec(e: EmojiView, t: SkinTone) -> Seq<char> {
    let s = tone_slot(t);
    match e.skin_tone_variants {
        Some(v) => if 0 <= s < v.len() && v[s] is Some {
            v[s]->0
        } else {
            e.ch
        },
        None => e.ch,
    }
}

/// Resolves a tone preference against an entry, per `resolve_tone_spec`.
pub fn resolve_tone(e: &Emoji, t: SkinTone) -> (r: String)
    requires
        emoji_wf(e@),
    ensures
        r@ == resolve_tone_spec(e@, t),
{
    let slot: usize = match t {
        SkinTone::Default => {
            return e.ch.clone();
        },
        SkinTone::Light => 0,
        SkinTone::MediumLight => 1,
        SkinTone::Medium => 2,
        SkinTone::MediumDark => 3,
        SkinTone::Dark => 4,
    };
    match &e.skin_tone_variants {
        Some(v) => {
            proof {
                assert(v.deep_view().len() == 5);
                assert(v.deep_view()[slot as int] == v@[slot as int].deep_view());
            }
            match &v[slot] {
                Some(s) => s.clone(),
                None => e.ch.clone(),
            }
        },
        None => e.ch.clone(),
    }
}

/// Compiles the whole catalog from its five input texts: the registry
/// listing and, per locale, the main and derived annotation documents.
/// Fails exactly where the registry parser fails.
pub fn compile_catalog(
    registry_text: &str,
    en_main_doc: &str,
    en_derived_doc: &str,
    nl_main_doc: &str,
    nl_derived_doc: &str,
) -> (r: Result<Vec<Emoji>, crate::registry::ParseError>)
    ensures
        r matches Ok(es) ==> emoji_views(es@) == catalog_spec(
            crate::registry::registry_spec(registry_text@),
            crate::annotations::annotations_spec(en_main_doc@),
            crate::annotations::annotations_spec(en_derived_doc@),
            crate::annotations::annotations_spec(nl_main_doc@),
            crate::annotations::annotations_spec(nl_derived_doc@),
        ),
        r matches Ok(es) ==> forall|i: int, j: int|
            0 <= i < j < es@.len() ==> (#[trigger] es@[i])@.ch != (#[trigger] es@[j])@.ch,
        r matches Ok(es) ==> forall|k: int| 0 <= k < es@.len() ==> emoji_wf((#[trigger] es@[k])@),
        r matches Ok(es) ==> forall|ri: int, k: int|
            0 <= ri < crate::registry::registry_spec(registry_text@).len() && is_tone_variant(
                (#[trigger] crate::registry::registry_spec(registry_text@)[ri]).codepoints,
            ) && row_valid(crate::registry::registry_spec(registry_text@)[ri].codepoints) && 0 <= k
                < es@.len() ==> (#[trigger] es@[k])@.ch != render_spec(
                crate::registry::registry_spec(registry_text@)[ri].codepoints,
            ),
        r matches Err(e) ==> e.line < crate::registry::registry_lines(registry_text@).len()
            && crate::registry::is_bad_line(
            crate::registry::registry_lines(registry_text@)[e.line as int],
        ),
{
    let rows = match crate::registry::parse_registry(registry_text) {
        Ok(rows) => rows,
        Err(e) => {
            return Err(e);
        },
    };
    let en_main = crate::annotations::parse_annotations(en_main_doc);
    let en_derived = crate::annotations::parse_annotations(en_derived_doc);
    let nl_main = crate::annotations::parse_annotations(nl_main_doc);
    let nl_derived = crate::annotations::parse_annotations(nl_derived_doc);
    let es = build_catalog(&rows, &en_main, &en_derived, &nl_main, &nl_derived);
    proof {
        let rs = crate::registry::registry_spec(registry_text@);
        assert forall|ri: int, k: int|
            0 <= ri < rs.len() && is_tone_variant((#[trigger] rs[ri]).codepoints) && row_valid(
                rs[ri].codepoints,
            ) && 0 <= k < es@.len() implies (#[trigger] es@[k])@.ch != render_spec(
            rs[ri].codepoints,
        ) by {
            assert(crate::registry::row_views(rows@)[ri] == rows@[ri]@);
            assert(rows@[ri]@ == rs[ri]);
        }
    }
    Ok(es)
}

} // verus!
