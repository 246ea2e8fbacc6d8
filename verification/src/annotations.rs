//! Per-locale annotations: a display name and a keyword list per codepoint
//! sequence, parsed from a CLDR-style annotation document, and the rules
//! that merge a locale's main and derived sources.

use vstd::prelude::*;
use crate::text::{keyword_list_spec, no_dup_pieces};

verus! {

/// One annotation record: a display name and an ordered keyword list.
pub struct Annotation {
    pub name: String,
    pub keywords: Vec<String>,
}

/// Mathematical content of an `Annotation`.
pub struct AnnView {
    pub name: Seq<char>,
    pub keywords: Seq<Seq<char>>,
}

impl View for Annotation {
    type V = AnnView;

    open spec fn view(&self) -> AnnView {
        AnnView { name: self.name@, keywords: self.keywords.deep_view() }
    }
}

/// One key with its record.
pub struct AnnotationEntry {
    pub key: Vec<u32>,
    pub ann: Annotation,
}

/// A map from codepoint-sequence keys to annotation records, with
/// pairwise-distinct keys, in insertion order.
pub struct AnnotationMap {
    pub entries: Vec<AnnotationEntry>,
}

impl View for AnnotationMap {
    type V = Seq<(Seq<u32>, AnnView)>;

    open spec fn view(&self) -> Seq<(Seq<u32>, AnnView)> {
        self.entries@.map_values(|e: AnnotationEntry| (e.key@, e.ann@))
    }
}

/// The map holds `k`.
pub open spec fn has_key(mv: Seq<(Seq<u32>, AnnView)>, k: Seq<u32>) -> bool {
    exists|i: int| 0 <= i < mv.len() && (#[trigger] mv[i]).0 == k
}

/// Position of `k` in the map, `-1` when absent.
pub open spec fn key_index(mv: Seq<(Seq<u32>, AnnView)>, k: Seq<u32>) -> int
    decreases mv.len(),
{
    if mv.len() == 0 {
        -1
    } else if mv[0].0 == k {
        0
    } else {
        let r = key_index(mv.drop_first(), k);
        if r < 0 {
            -1
        } else {
            r + 1
        }
    }
}

/// The record under `k`, when the map holds it.
pub open spec fn lookup(mv: Seq<(Seq<u32>, AnnView)>, k: Seq<u32>) -> Option<AnnView> {
    if key_index(mv, k) >= 0 {
        Some(mv[key_index(mv, k)].1)
    } else {
        None
    }
}

/// Keys are pairwise distinct.
pub open spec fn map_wf(mv: Seq<(Seq<u32>, AnnView)>) -> bool {
    forall|i: int, j: int| 0 <= i < j < mv.len() ==> (#[trigger] mv[i]).0 != (#[trigger] mv[j]).0
}

pub proof fn lemma_key_index(mv: Seq<(Seq<u32>, AnnView)>, k: Seq<u32>)
    ensures
        key_index(mv, k) >= 0 <==> has_key(mv, k),
        key_index(mv, k) >= 0 ==> key_index(mv, k) < mv.len() && mv[key_index(mv, k)].0 == k,
        forall|j: int| 0 <= j < key_index(mv, k) ==> (#[trigger] mv[j]).0 != k,
    decreases mv.len(),
{
    if mv.len() == 0 {
    } else if mv[0].0 == k {
    } else {
        lemma_key_index(mv.drop_first(), k);
        let rest = mv.drop_first();
        assert(forall|i: int| 0 <= i < rest.len() ==> #[trigger] rest[i] == mv[i + 1]);
        if key_index(rest, k) >= 0 {
            assert(mv[key_index(mv, k)].0 == k);
            assert forall|j: int| 0 <= j < key_index(mv, k) implies (#[trigger] mv[j]).0 != k by {
                if j > 0 {
                    assert(mv[j] == rest[j - 1]);
                }
            }
        } else {
            if has_key(mv, k) {
                let i = choose|i: int| 0 <= i < mv.len() && (#[trigger] mv[i]).0 == k;
                assert(i > 0);
                assert(rest[i - 1].0 == k);
                assert(has_key(rest, k));
            }
        }
    }
}

impl AnnotationMap {
    /// The empty map.
    pub fn new() -> (r: AnnotationMap)
        ensures
            r@ == Seq::<(Seq<u32>, AnnView)>::empty(),
            map_wf(r@),
    {
        let r = AnnotationMap { entries: Vec::new() };
        proof {
            assert(r@ =~= Seq::<(Seq<u32>, AnnView)>::empty());
        }
        r
    }

    /// Position of `key`, equal to `key_index`.
    fn find_key(&self, key: &Vec<u32>) -> (r: Option<usize>)
        ensures
            r matches Some(i) ==> i == key_index(self@, key@),
            r is None ==> key_index(self@, key@) == -1,
    {
        let mut i: usize = 0;
        while i < self.entries.len()
            invariant
                0 <= i <= self.entries@.len(),
                self@.len() == self.entries@.len(),
                forall|m: int| 0 <= m < self@.len() ==> (#[trigger] self@[m]).0
                    == self.entries@[m].key@,
                forall|m: int| 0 <= m < i ==> (#[trigger] self@[m]).0 != key@,
            decreases self.entries@.len() - i,
        {
            if crate::keys::eq_key(&self.entries[i].key, key) {
                proof {
                    assert(self@[i as int].0 == key@);
                    assert(has_key(self@, key@));
                    lemma_key_index(self@, key@);
                    assert(key_index(self@, key@) == i) by {
                        assert(self@[i as int].0 == key@);
                        assert(forall|j: int|
                            0 <= j < key_index(self@, key@) ==> (#[trigger] self@[j]).0 != key@);
                        assert(key_index(self@, key@) <= i);
                        if key_index(self@, key@) < i {
                            assert(self@[key_index(self@, key@)].0 == key@);
                        }
                    }
                }
                return Some(i);
            }
            i = i + 1;
        }
        proof {
            lemma_key_index(self@, key@);
            if key_index(self@, key@) >= 0 {
                assert(self@[key_index(self@, key@)].0 == key@);
            }
        }
        None
    }

    /// The map holds `key`.
    pub fn contains_key(&self, key: &Vec<u32>) -> (r: bool)
        ensures
            r == has_key(self@, key@),
    {
        proof {
            lemma_key_index(self@, key@);
        }
        match self.find_key(key) {
            Some(_) => true,
            None => false,
        }
    }

    /// The record under `key`, when the map holds it.
    pub fn get(&self, key: &Vec<u32>) -> (r: Option<&Annotation>)
        ensures
            r is Some <==> has_key(self@, key@),
            r matches Some(a) ==> lookup(self@, key@) == Some(a@),
    {
        proof {
            lemma_key_index(self@, key@);
        }
        match self.find_key(key) {
            Some(i) => {
                proof {
                    assert(self@[i as int].1 == self.entries@[i as int].ann@);
                }
                Some(&self.entries[i].ann)
            },
            None => None,
        }
    }

    /// Puts `ann` under `key`: replaces the record of an existing key in
    /// place, else appends a new entry.
    pub fn put(&mut self, key: Vec<u32>, ann: Annotation)
        ensures
            final(self)@ == put_spec(old(self)@, key@, ann@),
            map_wf(old(self)@) ==> map_wf(final(self)@),
    {
        proof {
            lemma_key_index(self@, key@);
        }
        let entry = AnnotationEntry { key, ann };
        match self.find_key(&entry.key) {
            Some(i) => {
                let ghost oldv = self@;
                self.entries.remove(i);
                self.entries.insert(i, entry);
                proof {
                    assert(self@ =~= oldv.update(i as int, (oldv[i as int].0, entry.ann@)));
                    lemma_key_index(oldv, oldv[i as int].0);
                }
            },
            None => {
                let ghost oldv = self@;
                self.entries.push(entry);
                proof {
                    assert(self@ =~= oldv.push((entry.key@, entry.ann@)));
                    assert forall|i: int, j: int| 0 <= i < j < self@.len() && map_wf(oldv)
                        implies (#[trigger] self@[i]).0 != (#[trigger] self@[j]).0 by {
                        if j == self@.len() - 1 {
                            lemma_key_index(oldv, entry.key@);
                        }
                    }
                }
            },
        }
    }
}

/// `mv` after putting `ann` under `k`: a record update in place when the
/// key exists, else an appended entry.
pub open spec fn put_spec(
    mv: Seq<(Seq<u32>, AnnView)>,
    k: Seq<u32>,
    ann: AnnView,
) -> Seq<(Seq<u32>, AnnView)> {
    if has_key(mv, k) {
        mv.update(key_index(mv, k), (k, ann))
    } else {
        mv.push((k, ann))
    }
}


/// The opening of an annotation element.
pub open spec fn open_tag() -> Seq<char> {
    "<annotation"@
}

/// The closing of an annotation element.
pub open spec fn close_tag() -> Seq<char> {
    "</annotation"@
}

/// The start of the `cp` attribute.
pub open spec fn cp_attr() -> Seq<char> {
    "cp=\""@
}

/// The attribute that marks a display-name element.
pub open spec fn tts_attr() -> Seq<char> {
    "type=\"tts\""@
}

/// What may follow the tag name for the tag to be an annotation element.
pub open spec fn elem_boundary(c: char) -> bool {
    crate::text::is_ws(c) || c == '>' || c == '/'
}

/// One scanned annotation element: the raw `cp` attribute text, whether it
/// is a display-name (`tts`) element, and the raw element text.
pub ghost struct RawElem {
    pub cp: Seq<char>,
    pub tts: bool,
    pub body: Seq<char>,
}

/// The value of the `cp` attribute within a tag body, empty when absent.
pub open spec fn attr_cp(tag: Seq<char>) -> Seq<char> {
    let a = crate::text::find_at(tag, cp_attr(), 0);
    if a < 0 {
        Seq::empty()
    } else {
        let q = crate::text::find_at(tag, seq!['"'], a + cp_attr().len());
        if q < 0 {
            Seq::empty()
        } else {
            tag.subrange(a + cp_attr().len(), q)
        }
    }
}

/// Whether the tag body carries `type="tts"`.
pub open spec fn attr_tts(tag: Seq<char>) -> bool {
    crate::text::find_at(tag, tts_attr(), 0) >= 0
}

/// The next annotation element at or after `pos`, with the position after
/// it; `None` when no further complete element stands in the document.
pub open spec fn next_element(doc: Seq<char>, pos: int) -> Option<(RawElem, int)>
    decreases doc.len() - pos + 1,
    via next_element_dec
{
    let i = crate::text::find_at(doc, open_tag(), pos);
    if pos < 0 || i < 0 {
        None
    } else if i + open_tag().len() >= doc.len() {
        None
    } else if !elem_boundary(doc[i + open_tag().len()]) {
        next_element(doc, i + 1)
    } else {
        let t = crate::text::find_at(doc, seq!['>'], i + open_tag().len());
        if t < 0 {
            None
        } else {
            let tag = doc.subrange(i + open_tag().len(), t);
            if tag.len() > 0 && tag.last() == '/' {
                Some((RawElem { cp: attr_cp(tag), tts: attr_tts(tag), body: Seq::empty() }, t + 1))
            } else {
                let e = crate::text::find_at(doc, close_tag(), t + 1);
                if e < 0 {
                    None
                } else {
                    Some(
                        (
                            RawElem { cp: attr_cp(tag), tts: attr_tts(tag), body: doc.subrange(t + 1, e) },
                            e + close_tag().len(),
                        ),
                    )
                }
            }
        }
    }
}

#[via_fn]
proof fn next_element_dec(doc: Seq<char>, pos: int) {
    if pos >= 0 {
        crate::text::lemma_find_at(doc, open_tag(), pos);
    }
}

/// A found element ends after the position it was sought from.
pub proof fn lemma_next_element_advances(doc: Seq<char>, pos: int)
    requires
        0 <= pos,
    ensures
        next_element(doc, pos) matches Some(r) ==> pos < r.1 <= doc.len(),
    decreases doc.len() - pos + 1,
{
    crate::text::lemma_find_at(doc, open_tag(), pos);
    let i = crate::text::find_at(doc, open_tag(), pos);
    if i >= 0 && i + open_tag().len() < doc.len() {
        if !elem_boundary(doc[i + open_tag().len()]) {
            lemma_next_element_advances(doc, i + 1);
        } else {
            crate::text::lemma_find_at(doc, seq!['>'], i + open_tag().len());
            let t = crate::text::find_at(doc, seq!['>'], i + open_tag().len());
            if t >= 0 {
                crate::text::lemma_find_at(doc, close_tag(), t + 1);
            }
        }
    }
}

/// All annotation elements of `doc` from `pos` on, in order.
pub open spec fn scan_elements(doc: Seq<char>, pos: int) -> Seq<RawElem>
    decreases doc.len() - pos + 1,
    via scan_elements_dec
{
    if pos < 0 {
        Seq::empty()
    } else {
        match next_element(doc, pos) {
            None => Seq::empty(),
            Some(r) => seq![r.0] + scan_elements(doc, r.1),
        }
    }
}

#[via_fn]
proof fn scan_elements_dec(doc: Seq<char>, pos: int) {
    if pos >= 0 {
        lemma_next_element_advances(doc, pos);
    }
}

/// The five character entities the scanner resolves.
pub open spec fn ent_amp() -> Seq<char> {
    "&amp;"@
}

pub open spec fn ent_lt() -> Seq<char> {
    "&lt;"@
}

pub open spec fn ent_gt() -> Seq<char> {
    "&gt;"@
}

pub open spec fn ent_quot() -> Seq<char> {
    "&quot;"@
}

pub open spec fn ent_apos() -> Seq<char> {
    "&apos;"@
}

/// `s` with the five standard character entities resolved.
pub open spec fn unescape_spec(s: Seq<char>) -> Seq<char>
    decreases s.len(),
    via unescape_spec_dec
{
    if s.len() == 0 {
        Seq::empty()
    } else if crate::text::matches_at(s, ent_amp(), 0) {
        seq!['&'] + unescape_spec(s.skip(ent_amp().len() as int))
    } else if crate::text::matches_at(s, ent_lt(), 0) {
        seq!['<'] + unescape_spec(s.skip(ent_lt().len() as int))
    } else if crate::text::matches_at(s, ent_gt(), 0) {
        seq!['>'] + unescape_spec(s.skip(ent_gt().len() as int))
    } else if crate::text::matches_at(s, ent_quot(), 0) {
        seq!['"'] + unescape_spec(s.skip(ent_quot().len() as int))
    } else if crate::text::matches_at(s, ent_apos(), 0) {
        seq!['\''] + unescape_spec(s.skip(ent_apos().len() as int))
    } else {
        seq![s[0]] + unescape_spec(s.drop_first())
    }
}

#[via_fn]
proof fn unescape_spec_dec(s: Seq<char>) {
    reveal_strlit("&amp;");
    reveal_strlit("&lt;");
    reveal_strlit("&gt;");
    reveal_strlit("&quot;");
    reveal_strlit("&apos;");
}

/// The scalar values of the characters of `s`.
pub open spec fn cps_of_spec(s: Seq<char>) -> Seq<u32> {
    s.map_values(|c: char| c as u32)
}

/// `s` with the five standard character entities resolved.
pub fn unescape(v: &Vec<char>) -> (r: Vec<char>)
    ensures
        r@ == unescape_spec(v@),
{
    proof {
        reveal_strlit("&amp;");
        reveal_strlit("&lt;");
        reveal_strlit("&gt;");
        reveal_strlit("&quot;");
        reveal_strlit("&apos;");
    }
    let amp = crate::text::chars_of("&amp;");
    let lt = crate::text::chars_of("&lt;");
    let gt = crate::text::chars_of("&gt;");
    let quot = crate::text::chars_of("&quot;");
    let apos = crate::text::chars_of("&apos;");
    let mut out: Vec<char> = Vec::new();
    proof {
        assert(v@.skip(0) =~= v@);
    }
    let mut i: usize = 0;
    while i < v.len()
        invariant
            0 <= i <= v@.len(),
            amp@ == ent_amp() && lt@ == ent_lt() && gt@ == ent_gt() && quot@ == ent_quot()
                && apos@ == ent_apos(),
            out@ + unescape_spec(v@.skip(i as int)) == unescape_spec(v@),
        decreases v@.len() - i,
    {
        let ghost suf = v@.skip(i as int);
        proof {
            reveal_strlit("&amp;");
            reveal_strlit("&lt;");
            reveal_strlit("&gt;");
            reveal_strlit("&quot;");
            reveal_strlit("&apos;");
            crate::text::lemma_matches_shift(v@, ent_amp(), i as int);
            crate::text::lemma_matches_shift(v@, ent_lt(), i as int);
            crate::text::lemma_matches_shift(v@, ent_gt(), i as int);
            crate::text::lemma_matches_shift(v@, ent_quot(), i as int);
            crate::text::lemma_matches_shift(v@, ent_apos(), i as int);
        }
        if crate::text::match_at_pos(v, &amp, i) {
            out.push('&');
            proof {
                assert(suf.skip(ent_amp().len() as int) =~= v@.skip(i + 5));
            }
            i = i + 5;
        } else if crate::text::match_at_pos(v, &lt, i) {
            out.push('<');
            proof {
                assert(suf.skip(ent_lt().len() as int) =~= v@.skip(i + 4));
            }
            i = i + 4;
        } else if crate::text::match_at_pos(v, &gt, i) {
            out.push('>');
            proof {
                assert(suf.skip(ent_gt().len() as int) =~= v@.skip(i + 4));
            }
            i = i + 4;
        } else if crate::text::match_at_pos(v, &quot, i) {
            out.push('"');
            proof {
                assert(suf.skip(ent_quot().len() as int) =~= v@.skip(i + 6));
            }
            i = i + 6;
        } else if crate::text::match_at_pos(v, &apos, i) {
            out.push('\'');
            proof {
                assert(suf.skip(ent_apos().len() as int) =~= v@.skip(i + 6));
            }
            i = i + 6;
        } else {
            out.push(v[i]);
            proof {
                assert(suf[0] == v@[i as int]);
                assert(suf.drop_first() =~= v@.skip(i + 1));
            }
            i = i + 1;
        }
    }
    proof {
        assert(v@.skip(i as int) =~= Seq::<char>::empty());
        assert(out@ =~= out@ + unescape_spec(v@.skip(i as int)));
    }
    out
}

/// The scalar values of the characters of `v`.
pub fn cps_of(v: &Vec<char>) -> (r: Vec<u32>)
    ensures
        r@ == cps_of_spec(v@),
{
    let mut r: Vec<u32> = Vec::new();
    let mut i: usize = 0;
    while i < v.len()
        invariant
            0 <= i <= v@.len(),
            r@.len() == i,
            forall|m: int| 0 <= m < i ==> #[trigger] r@[m] == v@[m] as u32,
        decreases v@.len() - i,
    {
        r.push(v[i] as u32);
        i = i + 1;
    }
    proof {
        assert(r@ =~= cps_of_spec(v@));
    }
    r
}

/// The map after one scanned element: an element with an empty `cp` is
/// dropped. The element's text is trimmed; when text remains, a `tts`
/// element sets the name and any other sets the keyword list, keeping what
/// the key already had; an element without text leaves the record as it
/// stood, though it still creates an empty record for a new key.
pub open spec fn elem_update(
    mv: Seq<(Seq<u32>, AnnView)>,
    el: RawElem,
) -> Seq<(Seq<u32>, AnnView)> {
    let cps = cps_of_spec(el.cp);
    if el.cp.len() == 0 {
        mv
    } else {
        let prev = if has_key(mv, cps) {
            mv[key_index(mv, cps)].1
        } else {
            AnnView { name: Seq::empty(), keywords: Seq::empty() }
        };
        let text = crate::text::trim_spec(el.body);
        let rec = if text.len() == 0 {
            prev
        } else if el.tts {
            AnnView { name: unescape_spec(text), keywords: prev.keywords }
        } else {
            AnnView { name: prev.name, keywords: keyword_list_spec(unescape_spec(text)) }
        };
        put_spec(mv, cps, rec)
    }
}

/// The map built from the scanned elements, in order.
pub open spec fn build_map(elems: Seq<RawElem>) -> Seq<(Seq<u32>, AnnView)>
    decreases elems.len(),
{
    if elems.len() == 0 {
        Seq::empty()
    } else {
        elem_update(build_map(elems.drop_last()), elems.last())
    }
}

/// The annotation map of a whole document.
pub open spec fn annotations_spec(doc: Seq<char>) -> Seq<(Seq<u32>, AnnView)> {
    build_map(scan_elements(doc, 0))
}


/// One element as the executable scanner hands it out.
struct ScannedElem {
    cp: Vec<char>,
    tts: bool,
    body: Vec<char>,
    next: usize,
}

/// The value of the `cp` attribute in the tag body, per `attr_cp`.
fn attr_cp_fn(tag: &Vec<char>) -> (r: Vec<char>)
    ensures
        r@ == attr_cp(tag@),
{
    let pat = crate::text::chars_of("cp=\"");
    let quo = crate::text::chars_of("\"");
    proof {
        reveal_strlit("\"");
        assert(quo@ =~= seq!['"']);
    }
    let tl = tag.len();
    match crate::text::find_pos(tag, &pat, 0) {
        None => Vec::new(),
        Some(a) => {
            proof {
                assert(a + pat@.len() <= tl);
            }
            match crate::text::find_pos(tag, &quo, a + pat.len()) {
                None => Vec::new(),
                Some(q) => crate::text::subvec(tag, a + pat.len(), q),
            }
        },
    }
}

/// Whether the tag body carries `type="tts"`, per `attr_tts`.
fn attr_tts_fn(tag: &Vec<char>) -> (r: bool)
    ensures
        r == attr_tts(tag@),
{
    let pat = crate::text::chars_of("type=\"tts\"");
    match crate::text::find_pos(tag, &pat, 0) {
        None => false,
        Some(_) => true,
    }
}

/// The next annotation element at or after `pos`, per `next_element`.
fn next_element_fn(doc: &Vec<char>, pos: usize) -> (r: Option<ScannedElem>)
    requires
        pos <= doc@.len(),
    ensures
        r is None ==> next_element(doc@, pos as int) is None,
        r matches Some(e) ==> next_element(doc@, pos as int) == Some(
            (RawElem { cp: e.cp@, tts: e.tts, body: e.body@ }, e.next as int),
        ) && pos < e.next <= doc@.len(),
{
    let open = crate::text::chars_of("<annotation");
    let close = crate::text::chars_of("</annotation");
    let gtv = crate::text::chars_of(">");
    proof {
        reveal_strlit(">");
        assert(gtv@ =~= seq!['>']);
        lemma_next_element_advances(doc@, pos as int);
    }
    let mut p = pos;
    loop
        invariant
            pos <= p <= doc@.len(),
            open@ == open_tag(),
            close@ == close_tag(),
            gtv@ == seq!['>'],
            next_element(doc@, pos as int) == next_element(doc@, p as int),
        decreases doc@.len() - p + 1,
    {
        match crate::text::find_pos(doc, &open, p) {
            None => {
                return None;
            },
            Some(i) => {
                let dl = doc.len();
                proof {
                    assert(i + open@.len() <= dl);
                }
                if i + open.len() >= dl {
                    return None;
                }
                let c = doc[i + open.len()];
                let bnd = crate::text::ws_char(c) || c == '>' || c == '/';
                if !bnd {
                    p = i + 1;
                    continue;
                }
                match crate::text::find_pos(doc, &gtv, i + open.len()) {
                    None => {
                        return None;
                    },
                    Some(t) => {
                        let tag = crate::text::subvec(doc, i + open.len(), t);
                        let cp = attr_cp_fn(&tag);
                        let tts = attr_tts_fn(&tag);
                        if tag.len() > 0 && tag[tag.len() - 1] == '/' {
                            proof {
                                assert(tag@.last() == tag@[tag@.len() - 1]);
                                lemma_next_element_advances(doc@, pos as int);
                            }
                            let body: Vec<char> = Vec::new();
                            proof {
                                assert(body@ =~= Seq::<char>::empty());
                            }
                            return Some(ScannedElem { cp, tts, body, next: t + 1 });
                        }
                        proof {
                            if tag@.len() > 0 {
                                assert(tag@.last() == tag@[tag@.len() - 1]);
                            }
                        }
                        match crate::text::find_pos(doc, &close, t + 1) {
                            None => {
                                return None;
                            },
                            Some(e) => {
                                let body = crate::text::subvec(doc, t + 1, e);
                                proof {
                                    lemma_next_element_advances(doc@, pos as int);
                                }
                                return Some(
                                    ScannedElem { cp, tts, body, next: e + close.len() },
                                );
                            },
                        }
                    },
                }
            },
        }
    }
}

/// Parses a whole annotation document into its map, per `annotations_spec`.
fn parse_annotations_chars(doc: &Vec<char>) -> (m: AnnotationMap)
    ensures
        m@ == annotations_spec(doc@),
        map_wf(m@),
        map_kw_wf(m@),
{
    let mut m = AnnotationMap::new();
    let ghost mut done: Seq<RawElem> = Seq::empty();
    proof {
        assert(build_map(done) =~= Seq::<(Seq<u32>, AnnView)>::empty());
    }
    let mut pos: usize = 0;
    loop
        invariant
            0 <= pos <= doc@.len(),
            m@ == build_map(done),
            map_wf(m@),
            map_kw_wf(m@),
            scan_elements(doc@, 0) == done + scan_elements(doc@, pos as int),
        decreases doc@.len() - pos + 1,
    {
        match next_element_fn(doc, pos) {
            None => {
                proof {
                    assert(scan_elements(doc@, pos as int) =~= Seq::<RawElem>::empty());
                    assert(done + scan_elements(doc@, pos as int) =~= done);
                }
                return m;
            },
            Some(el) => {
                let ghost raw = RawElem { cp: el.cp@, tts: el.tts, body: el.body@ };
                proof {
                    assert(scan_elements(doc@, pos as int) == seq![raw] + scan_elements(
                        doc@,
                        el.next as int,
                    ));
                    assert(done.push(raw) + scan_elements(doc@, el.next as int) =~= done + (
                    seq![raw] + scan_elements(doc@, el.next as int)));
                    assert(done.push(raw).drop_last() =~= done);
                }
                let cps = cps_of(&el.cp);
                if cps.len() > 0 {
                    let ghost oldm = m@;
                    proof {
                        lemma_key_index(oldm, cps@);
                    }
                    let mut prev_name = String::new();
                    let mut prev_kws: Vec<String> = Vec::new();
                    match m.get(&cps) {
                        Some(a) => {
                            prev_name = a.name.clone();
                            prev_kws = crate::strings::clone_strings(&a.keywords);
                        },
                        None => {},
                    }
                    let ghost prev = if has_key(oldm, cps@) {
                        oldm[key_index(oldm, cps@)].1
                    } else {
                        AnnView { name: Seq::empty(), keywords: Seq::empty() }
                    };
                    proof {
                        assert(prev_name@ == prev.name);
                        assert(prev_kws.deep_view() =~= prev.keywords);
                    }
                    let text = crate::text::trim(&el.body);
                    let ann = if text.len() == 0 {
                        Annotation { name: prev_name, keywords: prev_kws }
                    } else if el.tts {
                        let un = unescape(&text);
                        Annotation { name: crate::strings::string_of(&un), keywords: prev_kws }
                    } else {
                        let un = unescape(&text);
                        let pieces = crate::text::keyword_list(&un);
                        Annotation {
                            name: prev_name,
                            keywords: crate::strings::strings_of_pieces(&pieces),
                        }
                    };
                    let ghost tsp = crate::text::trim_spec(raw.body);
                    let ghost rec = if tsp.len() == 0 {
                        prev
                    } else if el.tts {
                        AnnView { name: unescape_spec(tsp), keywords: prev.keywords }
                    } else {
                        AnnView {
                            name: prev.name,
                            keywords: keyword_list_spec(unescape_spec(tsp)),
                        }
                    };
                    proof {
                        assert(ann@ == rec);
                    }
                    proof {
                        crate::text::lemma_tidy_pieces(
                            crate::text::split_at_spec(
                                unescape_spec(crate::text::trim_spec(raw.body)),
                                |c: char| crate::text::is_kw_sep(c),
                            ),
                        );
                        if has_key(oldm, cps@) {
                            lemma_key_index(oldm, cps@);
                        }
                        assert(no_dup_pieces(rec.keywords));
                    }
                    m.put(cps, ann);
                    proof {
                        assert(m@ == elem_update(oldm, raw));
                        assert(m@ == build_map(done.push(raw)));
                        assert(map_kw_wf(m@)) by {
                            assert forall|ii: int| 0 <= ii < m@.len() implies no_dup_pieces(
                                (#[trigger] m@[ii]).1.keywords,
                            ) by {
                                if has_key(oldm, cps@) {
                                    lemma_key_index(oldm, cps@);
                                    if ii != key_index(oldm, cps@) {
                                        assert(m@[ii] == oldm[ii]);
                                    }
                                } else {
                                    if ii < oldm.len() {
                                        assert(m@[ii] == oldm[ii]);
                                    }
                                }
                            }
                        }
                    }
                } else {
                    proof {
                        assert(raw.cp.len() == 0);
                        assert(build_map(done.push(raw)) == elem_update(build_map(done), raw));
                        assert(m@ == build_map(done.push(raw)));
                    }
                }
                proof {
                    done = done.push(raw);
                }
                pos = el.next;
            },
        }
    }
}

/// Parses a CLDR-style annotation document: a map from each annotated
/// codepoint sequence to its display name and keyword list, with the
/// character entities of the text resolved. Malformed elements contribute
/// nothing; the last contribution under a key wins its field.
pub fn parse_annotations(doc: &str) -> (m: AnnotationMap)
    ensures
        m@ == annotations_spec(doc@),
        map_wf(m@),
        map_kw_wf(m@),
{
    let chars = crate::text::chars_of(doc);
    parse_annotations_chars(&chars)
}


/// Every record's keyword list holds no duplicates.
pub open spec fn map_kw_wf(mv: Seq<(Seq<u32>, AnnView)>) -> bool {
    forall|i: int| 0 <= i < mv.len() ==> no_dup_pieces((#[trigger] mv[i]).1.keywords)
}

/// The name chosen by precedence: the main source's when non-empty, else
/// the derived source's when non-empty, else the supplied default.
pub open spec fn merged_name(
    main_name: Seq<char>,
    derived_name: Seq<char>,
    default_name: Seq<char>,
) -> Seq<char> {
    if main_name.len() > 0 {
        main_name
    } else if derived_name.len() > 0 {
        derived_name
    } else {
        default_name
    }
}

/// `derived` keywords appended to `acc` in order, each only when the list
/// so far does not already hold it.
pub open spec fn append_new(acc: Seq<Seq<char>>, derived: Seq<Seq<char>>) -> Seq<Seq<char>>
    decreases derived.len(),
{
    if derived.len() == 0 {
        acc
    } else {
        let rest = append_new(acc, derived.drop_last());
        if rest.contains(derived.last()) {
            rest
        } else {
            rest.push(derived.last())
        }
    }
}

/// The record under `k`, an empty record when the map lacks the key.
pub open spec fn record_or_empty(mv: Seq<(Seq<u32>, AnnView)>, k: Seq<u32>) -> AnnView {
    if has_key(mv, k) {
        mv[key_index(mv, k)].1
    } else {
        AnnView { name: Seq::empty(), keywords: Seq::empty() }
    }
}

/// The merged record for `k`: name by precedence, keywords as the main
/// list with new derived keywords appended.
pub open spec fn merge_spec(
    main: Seq<(Seq<u32>, AnnView)>,
    derived: Seq<(Seq<u32>, AnnView)>,
    k: Seq<u32>,
    default_name: Seq<char>,
) -> AnnView {
    let m = record_or_empty(main, k);
    let d = record_or_empty(derived, k);
    AnnView {
        name: merged_name(m.name, d.name, default_name),
        keywords: append_new(m.keywords, d.keywords),
    }
}

/// Whether some string of `list` holds exactly the characters of `x`.
pub fn contains_string(list: &Vec<String>, x: &String) -> (r: bool)
    ensures
        r == list.deep_view().contains(x@),
{
    let mut i: usize = 0;
    while i < list.len()
        invariant
            0 <= i <= list@.len(),
            list.deep_view().len() == list@.len(),
            forall|m: int| 0 <= m < i ==> list.deep_view()[m] != x@,
        decreases list@.len() - i,
    {
        proof {
            assert(list.deep_view()[i as int] == list@[i as int]@);
        }
        if list[i] == *x {
            return true;
        }
        i = i + 1;
    }
    false
}

/// The merged annotation for `key` from a locale's main and derived maps,
/// per `merge_spec`.
pub fn merge_annotations(
    main: &AnnotationMap,
    derived: &AnnotationMap,
    key: &Vec<u32>,
    default_name: &String,
) -> (r: Annotation)
    ensures
        r@ == merge_spec(main@, derived@, key@, default_name@),
{
    proof {
        lemma_key_index(main@, key@);
        lemma_key_index(derived@, key@);
    }
    let mut main_name = String::new();
    let mut main_kws: Vec<String> = Vec::new();
    match main.get(key) {
        Some(a) => {
            main_name = a.name.clone();
            main_kws = crate::strings::clone_strings(&a.keywords);
        },
        None => {},
    }
    let mut derived_name = String::new();
    let mut derived_kws: Vec<String> = Vec::new();
    match derived.get(key) {
        Some(a) => {
            derived_name = a.name.clone();
            derived_kws = crate::strings::clone_strings(&a.keywords);
        },
        None => {},
    }
    let ghost m = record_or_empty(main@, key@);
    let ghost d = record_or_empty(derived@, key@);
    proof {
        assert(main_name@ == m.name);
        assert(main_kws.deep_view() =~= m.keywords);
        assert(derived_name@ == d.name);
        assert(derived_kws.deep_view() =~= d.keywords);
    }
    let mut keywords = main_kws;
    let mut i: usize = 0;
    while i < derived_kws.len()
        invariant
            0 <= i <= derived_kws@.len(),
            derived_kws.deep_view() == d.keywords,
            derived_kws.deep_view().len() == derived_kws@.len(),
            keywords.deep_view() == append_new(m.keywords, d.keywords.take(i as int)),
        decreases derived_kws@.len() - i,
    {
        proof {
            assert(d.keywords.take(i + 1).drop_last() =~= d.keywords.take(i as int));
            assert(d.keywords.take(i + 1).last() == d.keywords[i as int]);
            assert(derived_kws.deep_view()[i as int] == derived_kws@[i as int]@);
        }
        let kw = derived_kws[i].clone();
        if !contains_string(&keywords, &kw) {
            let ghost old_k = keywords.deep_view();
            keywords.push(kw);
            proof {
                assert(keywords.deep_view() =~~= old_k.push(d.keywords[i as int]));
            }
        }
        i = i + 1;
    }
    proof {
        assert(d.keywords.take(i as int) =~= d.keywords);
    }
    let name = if !main_name.as_str().is_empty() {
        main_name
    } else if !derived_name.as_str().is_empty() {
        derived_name
    } else {
        default_name.clone()
    };
    proof {
        assert(name@ == merged_name(m.name, d.name, default_name@));
    }
    Annotation { name, keywords }
}

/// The annotation chosen for a registry key: the merge at the exact key
/// when either map holds it; else, once, the merge at the key stripped of
/// variant selectors when either map holds that; else the default name
/// with no keywords.
pub open spec fn normalize_spec(
    main: Seq<(Seq<u32>, AnnView)>,
    derived: Seq<(Seq<u32>, AnnView)>,
    key: Seq<u32>,
    default_name: Seq<char>,
) -> AnnView {
    if has_key(main, key) || has_key(derived, key) {
        merge_spec(main, derived, key, default_name)
    } else {
        let alt = crate::keys::strip_vs_spec(key);
        if has_key(main, alt) || has_key(derived, alt) {
            merge_spec(main, derived, alt, default_name)
        } else {
            AnnView { name: default_name, keywords: Seq::empty() }
        }
    }
}

/// Looks `key` up in both maps with the one variant-selector-stripping
/// retry, per `normalize_spec`.
pub fn normalize_lookup(
    main: &AnnotationMap,
    derived: &AnnotationMap,
    key: &Vec<u32>,
    default_name: &String,
) -> (r: Annotation)
    ensures
        r@ == normalize_spec(main@, derived@, key@, default_name@),
{
    if main.contains_key(key) || derived.contains_key(key) {
        merge_annotations(main, derived, key, default_name)
    } else {
        let alt = crate::keys::strip_variant_selector(key);
        if main.contains_key(&alt) || derived.contains_key(&alt) {
            merge_annotations(main, derived, &alt, default_name)
        } else {
            let keywords: Vec<String> = Vec::new();
            let r = Annotation { name: default_name.clone(), keywords };
            proof {
                assert(r@.keywords =~= Seq::<Seq<char>>::empty());
            }
            r
        }
    }
}

/// For a key that both sources annotate, the merged name is the main
/// source's name whenever that name is non-empty.
pub proof fn lemma_merge_name_precedence(
    main: Seq<(Seq<u32>, AnnView)>,
    derived: Seq<(Seq<u32>, AnnView)>,
    k: Seq<u32>,
    default_name: Seq<char>,
)
    requires
        has_key(main, k),
        has_key(derived, k),
        record_or_empty(main, k).name.len() > 0,
    ensures
        merge_spec(main, derived, k, default_name).name == record_or_empty(main, k).name,
{
}

/// Merged keywords are the main list with the derived-only items appended
/// in derived order, and hold no duplicates, whenever neither input list
/// holds duplicates.
pub proof fn lemma_merge_keywords(main_kws: Seq<Seq<char>>, derived_kws: Seq<Seq<char>>)
    requires
        no_dup_pieces(main_kws),
        no_dup_pieces(derived_kws),
    ensures
        append_new(main_kws, derived_kws) == main_kws + derived_kws.filter(
            |k: Seq<char>| !main_kws.contains(k),
        ),
        no_dup_pieces(append_new(main_kws, derived_kws)),
    decreases derived_kws.len(),
{
    reveal(Seq::filter);
    let p = |k: Seq<char>| !main_kws.contains(k);
    if derived_kws.len() == 0 {
        assert(derived_kws.filter(p) =~= Seq::<Seq<char>>::empty());
        assert(append_new(main_kws, derived_kws) =~= main_kws + derived_kws.filter(p));
    } else {
        let dl = derived_kws.drop_last();
        let last = derived_kws.last();
        assert(forall|i: int, j: int|
            0 <= i < j < dl.len() ==> dl[i] != dl[j]) by {
            assert(forall|i: int| 0 <= i < dl.len() ==> dl[i] == derived_kws[i]);
        }
        lemma_merge_keywords(main_kws, dl);
        let rest = append_new(main_kws, dl);
        assert(rest == main_kws + dl.filter(p));
        assert(!dl.contains(last)) by {
            if dl.contains(last) {
                let i = choose|i: int| 0 <= i < dl.len() && dl[i] == last;
                assert(derived_kws[i] == derived_kws[derived_kws.len() - 1]);
            }
        }
        assert(rest.contains(last) <==> main_kws.contains(last) || dl.filter(p).contains(last))
            by {
            if rest.contains(last) {
                let i = choose|i: int| 0 <= i < rest.len() && rest[i] == last;
                if i < main_kws.len() {
                    assert(main_kws[i] == last);
                } else {
                    assert(dl.filter(p)[i - main_kws.len()] == last);
                }
            }
            if main_kws.contains(last) {
                let i = choose|i: int| 0 <= i < main_kws.len() && main_kws[i] == last;
                assert(rest[i] == last);
            }
            if dl.filter(p).contains(last) {
                let i = choose|i: int| 0 <= i < dl.filter(p).len() && dl.filter(p)[i] == last;
                assert(rest[main_kws.len() + i] == last);
            }
        }
        assert(!dl.filter(p).contains(last)) by {
            if dl.filter(p).contains(last) {
                dl.lemma_filter_contains_rev(p, last);
            }
        }
        if main_kws.contains(last) {
            assert(!p(last));
            assert(derived_kws.filter(p) == dl.filter(p));
            assert(append_new(main_kws, derived_kws) == rest);
        } else {
            assert(p(last));
            assert(derived_kws.filter(p) == dl.filter(p).push(last));
            assert(!rest.contains(last));
            assert(append_new(main_kws, derived_kws) == rest.push(last));
            assert(rest.push(last) =~= main_kws + dl.filter(p).push(last));
            assert(no_dup_pieces(rest.push(last))) by {
                assert forall|i: int, j: int|
                    0 <= i < j < rest.push(last).len() implies rest.push(last)[i] != rest.push(
                    last,
                )[j] by {
                    if j == rest.len() {
                        if rest.push(last)[i] == last {
                            assert(rest.contains(rest[i]));
                        }
                    }
                }
            }
        }
    }
}

/// For maps whose records hold duplicate-free keyword lists — as every
/// parsed map does — the merged keywords for any key are the main record's
/// list with the derived-only items appended in derived order, and hold no
/// duplicates.
pub proof fn lemma_merge_keywords_of_maps(
    main: Seq<(Seq<u32>, AnnView)>,
    derived: Seq<(Seq<u32>, AnnView)>,
    k: Seq<u32>,
    default_name: Seq<char>,
)
    requires
        map_kw_wf(main),
        map_kw_wf(derived),
    ensures
        ({
            let m = record_or_empty(main, k).keywords;
            let d = record_or_empty(derived, k).keywords;
            merge_spec(main, derived, k, default_name).keywords == m + d.filter(
                |kw: Seq<char>| !m.contains(kw),
            ) && no_dup_pieces(merge_spec(main, derived, k, default_name).keywords)
        }),
{
    let m = record_or_empty(main, k).keywords;
    let d = record_or_empty(derived, k).keywords;
    assert(no_dup_pieces(m)) by {
        if has_key(main, k) {
            lemma_key_index(main, k);
        }
    }
    assert(no_dup_pieces(d)) by {
        if has_key(derived, k) {
            lemma_key_index(derived, k);
        }
    }
    lemma_merge_keywords(m, d);
}

/// Stripping variant selectors twice strips them once.
pub proof fn lemma_strip_idempotent(key: Seq<u32>)
    ensures
        crate::keys::strip_vs_spec(crate::keys::strip_vs_spec(key)) == crate::keys::strip_vs_spec(
            key,
        ),
    decreases key.len(),
{
    reveal(Seq::filter);
    let p = |c: u32| c != 0xFE0F;
    if key.len() == 0 {
        assert(key.filter(p) =~= Seq::<u32>::empty());
        assert(key.filter(p).filter(p) =~= key.filter(p));
    } else {
        lemma_strip_idempotent(key.drop_last());
        let dl = key.drop_last();
        if p(key.last()) {
            assert(key.filter(p) == dl.filter(p).push(key.last()));
            assert(dl.filter(p).push(key.last()).drop_last() =~= dl.filter(p));
            assert(key.filter(p).filter(p) == dl.filter(p).filter(p).push(key.last()));
        } else {
            assert(key.filter(p) == dl.filter(p));
        }
    }
}

/// Normalizing an already-stripped key answers as normalizing the original
/// key does, whenever the original key is no exact key of either map — in
/// particular whenever it holds no variant selector.
pub proof fn lemma_normalize_idempotent(
    main: Seq<(Seq<u32>, AnnView)>,
    derived: Seq<(Seq<u32>, AnnView)>,
    key: Seq<u32>,
    default_name: Seq<char>,
)
    requires
        crate::keys::strip_vs_spec(key) == key || (!has_key(main, key) && !has_key(derived, key)),
    ensures
        normalize_spec(main, derived, crate::keys::strip_vs_spec(key), default_name)
            == normalize_spec(main, derived, key, default_name),
{
    let alt = crate::keys::strip_vs_spec(key);
    lemma_strip_idempotent(key);
    if alt == key {
    } else {
        assert(!has_key(main, key) && !has_key(derived, key));
    }
}

} // verus!
