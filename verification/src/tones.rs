//! Skin-tone handling: the five modifier codepoints in tone order, the
//! classifier that parts tone variants from base rows, the table that
//! buckets variant renderings under their base key, and the keyword
//! backfill from tone variants.

use vstd::prelude::*;
use crate::annotations::{normalize_spec, AnnotationMap, AnnView};

verus! {

/// The tone modifier bound to slot `i`, slots 0 through 4 running from
/// Light to Dark.
pub open spec fn modifier(i: int) -> u32 {
    if i == 0 {
        0x1F3FB
    } else if i == 1 {
        0x1F3FC
    } else if i == 2 {
        0x1F3FD
    } else if i == 3 {
        0x1F3FE
    } else {
        0x1F3FF
    }
}

/// The tone modifier bound to slot `i`.
pub fn modifier_at(i: usize) -> (r: u32)
    requires
        i < 5,
    ensures
        r == modifier(i as int),
{
    if i == 0 {
        0x1F3FB
    } else if i == 1 {
        0x1F3FC
    } else if i == 2 {
        0x1F3FD
    } else if i == 3 {
        0x1F3FE
    } else {
        0x1F3FF
    }
}

/// The slot of the first modifier the sequence holds, in table order;
/// `-1` for a sequence of at most one codepoint or without a modifier.
pub open spec fn variant_slot(cps: Seq<u32>) -> int {
    if cps.len() <= 1 {
        -1
    } else if cps.contains(modifier(0)) {
        0
    } else if cps.contains(modifier(1)) {
        1
    } else if cps.contains(modifier(2)) {
        2
    } else if cps.contains(modifier(3)) {
        3
    } else if cps.contains(modifier(4)) {
        4
    } else {
        -1
    }
}

/// The sequence is a skin-tone variant of some base sequence.
pub open spec fn is_tone_variant(cps: Seq<u32>) -> bool {
    variant_slot(cps) >= 0
}

/// The base key of a variant: the sequence with every occurrence of its
/// governing modifier removed, order kept.
pub open spec fn variant_base(cps: Seq<u32>) -> Seq<u32> {
    cps.filter(|c: u32| c != modifier(variant_slot(cps)))
}

/// Classifies a sequence: the slot and base key when it is a tone variant,
/// `None` when it is a base sequence.
pub fn classify_tone(cps: &Vec<u32>) -> (r: Option<(usize, Vec<u32>)>)
    ensures
        r is Some <==> is_tone_variant(cps@),
        r matches Some((slot, base)) ==> slot == variant_slot(cps@) && base@ == variant_base(
            cps@,
        ),
{
    if cps.len() <= 1 {
        return None;
    }
    let mut i: usize = 0;
    while i < 5
        invariant
            0 <= i <= 5,
            cps@.len() > 1,
            forall|m: int| 0 <= m < i ==> !cps@.contains(modifier(m)),
        decreases 5 - i,
    {
        let m = modifier_at(i);
        if crate::keys::key_contains(cps, m) {
            proof {
                assert(variant_slot(cps@) == i);
            }
            let base = crate::keys::key_without(cps, m);
            return Some((i, base));
        }
        i = i + 1;
    }
    None
}

/// One base key with its five tone slots.
pub struct VariantEntry {
    pub base: Vec<u32>,
    pub slots: Vec<Option<String>>,
}

/// The table from base keys to the rendered text of each tone variant
/// seen, keys pairwise distinct, each entry with exactly five slots.
pub struct VariantTable {
    pub entries: Vec<VariantEntry>,
}

impl View for VariantTable {
    type V = Seq<(Seq<u32>, Seq<Option<Seq<char>>>)>;

    open spec fn view(&self) -> Seq<(Seq<u32>, Seq<Option<Seq<char>>>)> {
        self.entries@.map_values(|e: VariantEntry| (e.base@, e.slots.deep_view()))
    }
}

/// The table holds `k`.
pub open spec fn vt_has(tv: Seq<(Seq<u32>, Seq<Option<Seq<char>>>)>, k: Seq<u32>) -> bool {
    exists|i: int| 0 <= i < tv.len() && (#[trigger] tv[i]).0 == k
}

/// Position of `k` in the table, `-1` when absent.
pub open spec fn vt_index(tv: Seq<(Seq<u32>, Seq<Option<Seq<char>>>)>, k: Seq<u32>) -> int
    decreases tv.len(),
{
    if tv.len() == 0 {
        -1
    } else if tv[0].0 == k {
        0
    } else {
        let r = vt_index(tv.drop_first(), k);
        if r < 0 {
            -1
        } else {
            r + 1
        }
    }
}

/// The slots under `k`, when the table holds it.
pub open spec fn vt_lookup(
    tv: Seq<(Seq<u32>, Seq<Option<Seq<char>>>)>,
    k: Seq<u32>,
) -> Option<Seq<Option<Seq<char>>>> {
    if vt_index(tv, k) >= 0 {
        Some(tv[vt_index(tv, k)].1)
    } else {
        None
    }
}

/// Base keys pairwise distinct; every entry holds exactly five slots.
pub open spec fn vt_wf(tv: Seq<(Seq<u32>, Seq<Option<Seq<char>>>)>) -> bool {
    &&& forall|i: int, j: int|
        0 <= i < j < tv.len() ==> (#[trigger] tv[i]).0 != (#[trigger] tv[j]).0
    &&& forall|i: int| 0 <= i < tv.len() ==> (#[trigger] tv[i]).1.len() == 5
}

pub proof fn lemma_vt_index(tv: Seq<(Seq<u32>, Seq<Option<Seq<char>>>)>, k: Seq<u32>)
    ensures
        vt_index(tv, k) >= 0 <==> vt_has(tv, k),
        vt_index(tv, k) >= 0 ==> vt_index(tv, k) < tv.len() && tv[vt_index(tv, k)].0 == k,
        forall|j: int| 0 <= j < vt_index(tv, k) ==> (#[trigger] tv[j]).0 != k,
    decreases tv.len(),
{
    if tv.len() == 0 {
    } else if tv[0].0 == k {
    } else {
        lemma_vt_index(tv.drop_first(), k);
        let rest = tv.drop_first();
        assert(forall|i: int| 0 <= i < rest.len() ==> #[trigger] rest[i] == tv[i + 1]);
        if vt_index(rest, k) >= 0 {
            assert(tv[vt_index(tv, k)].0 == k);
            assert forall|j: int| 0 <= j < vt_index(tv, k) implies (#[trigger] tv[j]).0 != k by {
                if j > 0 {
                    assert(tv[j] == rest[j - 1]);
                }
            }
        } else {
            if vt_has(tv, k) {
                let i = choose|i: int| 0 <= i < tv.len() && (#[trigger] tv[i]).0 == k;
                assert(i > 0);
                assert(rest[i - 1].0 == k);
                assert(vt_has(rest, k));
            }
        }
    }
}

/// Five empty slots.
pub open spec fn empty_slots() -> Seq<Option<Seq<char>>> {
    seq![None, None, None, None, None]
}

/// The table after recording `text` as the slot `slot` variant of `base`:
/// the slot of an existing entry is overwritten (a later row wins), a new
/// base gains an entry with the one slot filled.
pub open spec fn vt_put(
    tv: Seq<(Seq<u32>, Seq<Option<Seq<char>>>)>,
    base: Seq<u32>,
    slot: int,
    text: Seq<char>,
) -> Seq<(Seq<u32>, Seq<Option<Seq<char>>>)> {
    if vt_has(tv, base) {
        let i = vt_index(tv, base);
        tv.update(i, (base, tv[i].1.update(slot, Some(text))))
    } else {
        tv.push((base, empty_slots().update(slot, Some(text))))
    }
}

impl VariantTable {
    /// The empty table.
    pub fn new() -> (r: VariantTable)
        ensures
            r@ == Seq::<(Seq<u32>, Seq<Option<Seq<char>>>)>::empty(),
            vt_wf(r@),
    {
        let r = VariantTable { entries: Vec::new() };
        proof {
            assert(r@ =~= Seq::<(Seq<u32>, Seq<Option<Seq<char>>>)>::empty());
        }
        r
    }

    /// Position of `key`, equal to `vt_index`.
    fn find_base(&self, key: &Vec<u32>) -> (r: Option<usize>)
        ensures
            r matches Some(i) ==> i == vt_index(self@, key@) && i < self.entries@.len(),
            r is None ==> vt_index(self@, key@) == -1,
    {
        let mut i: usize = 0;
        while i < self.entries.len()
            invariant
                0 <= i <= self.entries@.len(),
                self@.len() == self.entries@.len(),
                forall|m: int| 0 <= m < self@.len() ==> (#[trigger] self@[m]).0
                    == self.entries@[m].base@,
                forall|m: int| 0 <= m < i ==> (#[trigger] self@[m]).0 != key@,
            decreases self.entries@.len() - i,
        {
            if crate::keys::eq_key(&self.entries[i].base, key) {
                proof {
                    assert(self@[i as int].0 == key@);
                    assert(vt_has(self@, key@));
                    lemma_vt_index(self@, key@);
                    assert(vt_index(self@, key@) == i) by {
                        if vt_index(self@, key@) < i {
                            assert(self@[vt_index(self@, key@)].0 == key@);
                        }
                    }
                }
                return Some(i);
            }
            i = i + 1;
        }
        proof {
            lemma_vt_index(self@, key@);
            if vt_index(self@, key@) >= 0 {
                assert(self@[vt_index(self@, key@)].0 == key@);
            }
        }
        None
    }

    /// A copy of the slots under `key`, when the table holds it.
    pub fn get_slots(&self, key: &Vec<u32>) -> (r: Option<Vec<Option<String>>>)
        ensures
            r is Some <==> vt_has(self@, key@),
            r matches Some(s) ==> vt_lookup(self@, key@) == Some(s.deep_view()),
    {
        proof {
            lemma_vt_index(self@, key@);
        }
        match self.find_base(key) {
            Some(i) => {
                let s = clone_slots(&self.entries[i].slots);
                proof {
                    assert(self@[i as int].1 == self.entries@[i as int].slots.deep_view());
                }
                Some(s)
            },
            None => None,
        }
    }

    /// Records `text` as the slot `slot` variant of `base`, per `vt_put`.
    pub fn put(&mut self, base: Vec<u32>, slot: usize, text: String)
        requires
            slot < 5,
            vt_wf(old(self)@),
        ensures
            final(self)@ == vt_put(old(self)@, base@, slot as int, text@),
            vt_wf(final(self)@),
    {
        proof {
            lemma_vt_index(self@, base@);
        }
        match self.find_base(&base) {
            Some(i) => {
                let ghost oldv = self@;
                let mut entry = self.entries.remove(i);
                let ghost old_slots = entry.slots.deep_view();
                proof {
                    assert(old_slots == oldv[i as int].1);
                    assert(old_slots.len() == 5);
                }
                entry.slots.remove(slot);
                entry.slots.insert(slot, Some(text));
                proof {
                    assert(entry.slots.deep_view() =~~= old_slots.update(
                        slot as int,
                        Some(text@),
                    ));
                }
                self.entries.insert(i, entry);
                proof {
                    assert(self@ =~~= oldv.update(
                        i as int,
                        (base@, old_slots.update(slot as int, Some(text@))),
                    ));
                }
            },
            None => {
                let ghost oldv = self@;
                let mut slots: Vec<Option<String>> = Vec::new();
                slots.push(None);
                slots.push(None);
                slots.push(None);
                slots.push(None);
                slots.push(None);
                proof {
                    assert(slots.deep_view() =~~= empty_slots());
                }
                slots.remove(slot);
                slots.insert(slot, Some(text));
                let ghost sv = slots.deep_view();
                proof {
                    assert(sv =~~= empty_slots().update(slot as int, Some(text@)));
                }
                let entry = VariantEntry { base, slots };
                self.entries.push(entry);
                proof {
                    assert(self@ =~~= oldv.push((entry.base@, sv)));
                    assert forall|i: int, j: int| 0 <= i < j < self@.len() implies (
                    #[trigger] self@[i]).0 != (#[trigger] self@[j]).0 by {
                        if j == self@.len() - 1 {
                            lemma_vt_index(oldv, entry.base@);
                            if i < oldv.len() && oldv[i].0 == entry.base@ {
                                assert(vt_has(oldv, entry.base@));
                            }
                        }
                    }
                }
            },
        }
    }
}

/// A copy of a slot vector, with the same content.
pub fn clone_slots(v: &Vec<Option<String>>) -> (r: Vec<Option<String>>)
    ensures
        r.deep_view() == v.deep_view(),
{
    let mut r: Vec<Option<String>> = Vec::new();
    let mut i: usize = 0;
    while i < v.len()
        invariant
            0 <= i <= v@.len(),
            r@.len() == i,
            forall|m: int| 0 <= m < i ==> #[trigger] r.deep_view()[m] == v.deep_view()[m],
        decreases v@.len() - i,
    {
        let c: Option<String> = match &v[i] {
            Some(s) => Some(s.clone()),
            None => None,
        };
        let ghost old_r = r.deep_view();
        r.push(c);
        proof {
            assert(r.deep_view() =~~= old_r.push(c.deep_view()));
            assert(r.deep_view()[i as int] == v.deep_view()[i as int]);
        }
        i = i + 1;
    }
    proof {
        assert(r.deep_view() =~= v.deep_view());
    }
    r
}

/// Keywords recovered from the lightest-to-darkest hypothetical tone
/// variants of `cps`, from slot `i` on: the first non-empty keyword list
/// that the normalizer finds, else the empty list.
pub open spec fn backfill_from(
    cps: Seq<u32>,
    main: Seq<(Seq<u32>, AnnView)>,
    derived: Seq<(Seq<u32>, AnnView)>,
    i: int,
) -> Seq<Seq<char>>
    decreases 5 - i,
{
    if i < 0 || i >= 5 {
        Seq::empty()
    } else {
        let kws = normalize_spec(main, derived, cps.push(modifier(i)), Seq::empty()).keywords;
        if kws.len() > 0 {
            kws
        } else {
            backfill_from(cps, main, derived, i + 1)
        }
    }
}

/// The backfilled keyword list for a base key with no keywords of its own.
pub open spec fn backfill_spec(
    cps: Seq<u32>,
    main: Seq<(Seq<u32>, AnnView)>,
    derived: Seq<(Seq<u32>, AnnView)>,
) -> Seq<Seq<char>> {
    backfill_from(cps, main, derived, 0)
}

/// Recovers keywords from the tone variants of `cps`, per `backfill_spec`.
pub fn backfill_keywords(
    cps: &Vec<u32>,
    main: &AnnotationMap,
    derived: &AnnotationMap,
) -> (r: Vec<String>)
    ensures
        r.deep_view() == backfill_spec(cps@, main@, derived@),
{
    let empty_name = String::new();
    let mut i: usize = 0;
    while i < 5
        invariant
            0 <= i <= 5,
            empty_name@ == Seq::<char>::empty(),
            backfill_spec(cps@, main@, derived@) == backfill_from(cps@, main@, derived@, i as int),
        decreases 5 - i,
    {
        let mut tone_key: Vec<u32> = Vec::new();
        let mut k: usize = 0;
        while k < cps.len()
            invariant
                0 <= k <= cps@.len(),
                tone_key@ == cps@.take(k as int),
            decreases cps@.len() - k,
        {
            tone_key.push(cps[k]);
            proof {
                assert(cps@.take(k as int).push(cps@[k as int]) =~= cps@.take(k + 1));
            }
            k = k + 1;
        }
        proof {
            assert(cps@.take(cps@.len() as int) =~= cps@);
        }
        tone_key.push(modifier_at(i));
        let ann = crate::annotations::normalize_lookup(main, derived, &tone_key, &empty_name);
        if ann.keywords.len() > 0 {
            proof {
                assert(ann.keywords.deep_view().len() == ann.keywords@.len());
            }
            return ann.keywords;
        }
        proof {
            assert(ann.keywords.deep_view().len() == ann.keywords@.len());
            assert(backfill_from(cps@, main@, derived@, i as int) == backfill_from(
                cps@,
                main@,
                derived@,
                i + 1,
            ));
        }
        i = i + 1;
    }
    let r: Vec<String> = Vec::new();
    proof {
        assert(r.deep_view() =~= Seq::<Seq<char>>::empty());
    }
    r
}

} // verus!
