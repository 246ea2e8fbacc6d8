//! The catalog emitter: serializes the finished entries into a static
//! table of fixed-shape records, loadable without a parsing step, with
//! every string field escaped.

use vstd::prelude::*;
use crate::catalog::{emoji_views, Emoji, EmojiView};

verus! {

/// `s` with every quote and backslash prefixed by a backslash.
pub open spec fn escape_spec(s: Seq<char>) -> Seq<char>
    decreases s.len(),
{
    if s.len() == 0 {
        Seq::empty()
    } else {
        let head: Seq<char> = if s[0] == '"' || s[0] == '\\' {
            seq!['\\', s[0]]
        } else {
            seq![s[0]]
        };
        head + escape_spec(s.drop_first())
    }
}

/// The escaped field in quotes.
pub open spec fn quoted(s: Seq<char>) -> Seq<char> {
    seq!['"'] + escape_spec(s) + seq!['"']
}

/// The pieces joined with a comma and a space between neighbours.
pub open spec fn join_comma(parts: Seq<Seq<char>>) -> Seq<char>
    decreases parts.len(),
{
    if parts.len() == 0 {
        Seq::empty()
    } else if parts.len() == 1 {
        parts[0]
    } else {
        parts[0] + ", "@ + join_comma(parts.drop_first())
    }
}

/// A quoted string list.
pub open spec fn list_spec(items: Seq<Seq<char>>) -> Seq<char> {
    "&["@ + join_comma(items.map_values(|s: Seq<char>| quoted(s))) + "]"@
}

/// One tone slot.
pub open spec fn slot_spec(o: Option<Seq<char>>) -> Seq<char> {
    match o {
        Some(s) => "Some("@ + quoted(s) + ")"@,
        None => "None"@,
    }
}

/// The tone-variant field.
pub open spec fn variants_spec(v: Option<Seq<Option<Seq<char>>>>) -> Seq<char> {
    match v {
        Some(slots) => "Some(["@ + join_comma(slots.map_values(|o: Option<Seq<char>>| slot_spec(o)))
            + "])"@,
        None => "None"@,
    }
}

/// One emitted record.
pub open spec fn entry_spec(e: EmojiView) -> Seq<char> {
    "    Emoji { ch: "@ + quoted(e.ch) + ", name_en: "@ + quoted(e.name_en) + ", keywords_en: "@
        + list_spec(e.keywords_en) + ", name_nl: "@ + quoted(e.name_nl) + ", keywords_nl: "@
        + list_spec(e.keywords_nl) + ", category: "@ + quoted(e.category)
        + ", skin_tone_variants: "@ + variants_spec(e.skin_tone_variants) + " },\n"@
}

/// The emitted table body: one record per entry, in order.
pub open spec fn emit_spec(entries: Seq<EmojiView>) -> Seq<char>
    decreases entries.len(),
{
    if entries.len() == 0 {
        Seq::empty()
    } else {
        emit_spec(entries.drop_last()) + entry_spec(entries.last())
    }
}

/// Escapes a field, per `escape_spec`.
fn escape(v: &Vec<char>) -> (r: Vec<char>)
    ensures
        r@ == escape_spec(v@),
{
    let mut r: Vec<char> = Vec::new();
    proof {
        assert(v@.skip(0) =~= v@);
    }
    let mut i: usize = 0;
    while i < v.len()
        invariant
            0 <= i <= v@.len(),
            r@ + escape_spec(v@.skip(i as int)) == escape_spec(v@),
        decreases v@.len() - i,
    {
        let ghost suf = v@.skip(i as int);
        proof {
            assert(suf[0] == v@[i as int]);
            assert(suf.drop_first() =~= v@.skip(i + 1));
        }
        let c = v[i];
        if c == '"' || c == '\\' {
            r.push('\\');
            r.push(c);
        } else {
            r.push(c);
        }
        i = i + 1;
    }
    proof {
        assert(v@.skip(i as int) =~= Seq::<char>::empty());
        assert(r@ =~= r@ + escape_spec(v@.skip(i as int)));
    }
    r
}

/// Appends the characters of a literal.
fn push_lit(dst: &mut Vec<char>, lit: &str)
    ensures
        final(dst)@ == old(dst)@ + lit@,
{
    let cs = crate::text::chars_of(lit);
    crate::text::push_all(dst, &cs);
}

/// Appends a quoted, escaped field.
fn push_quoted(dst: &mut Vec<char>, field: &String)
    ensures
        final(dst)@ == old(dst)@ + quoted(field@),
{
    let cs = crate::text::chars_of(field.as_str());
    let esc = escape(&cs);
    dst.push('"');
    crate::text::push_all(dst, &esc);
    dst.push('"');
    proof {
        assert(final(dst)@ =~= old(dst)@ + quoted(field@));
    }
}

/// Appends a quoted string list, per `list_spec`.
fn push_list(dst: &mut Vec<char>, items: &Vec<String>)
    ensures
        final(dst)@ == old(dst)@ + list_spec(items.deep_view()),
{
    let ghost iv = items.deep_view();
    let ghost parts = iv.map_values(|s: Seq<char>| quoted(s));
    push_lit(dst, "&[");
    let ghost head = old(dst)@ + "&["@;
    proof {
        assert(parts.skip(0) =~= parts);
    }
    let mut i: usize = 0;
    while i < items.len()
        invariant
            0 <= i <= items@.len(),
            iv == items.deep_view(),
            parts == iv.map_values(|s: Seq<char>| quoted(s)),
            iv.len() == items@.len(),
            parts.len() == iv.len(),
            head == old(dst)@ + "&["@,
            dst@ + join_comma(parts.skip(i as int)) == head + join_comma(parts),
        decreases items@.len() - i,
    {
        proof {
            assert(iv[i as int] == items@[i as int]@);
            assert(parts.skip(i as int)[0] == parts[i as int]);
        }
        push_quoted(dst, &items[i]);
        if i + 1 < items.len() {
            push_lit(dst, ", ");
            proof {
                assert(parts.skip(i as int).drop_first() =~= parts.skip(i + 1));
                assert(parts.skip(i as int).len() >= 2);
                assert(join_comma(parts.skip(i as int)) == parts[i as int] + ", "@ + join_comma(
                    parts.skip(i + 1),
                ));
                assert(dst@ + join_comma(parts.skip(i + 1)) =~= head + join_comma(parts));
            }
        } else {
            proof {
                assert(parts.skip(i as int).len() == 1);
                assert(join_comma(parts.skip(i as int)) == parts[i as int]);
                assert(parts.skip(i + 1) =~= Seq::<Seq<char>>::empty());
                assert(dst@ + join_comma(parts.skip(i + 1)) =~= dst@);
                assert(dst@ =~= head + join_comma(parts));
            }
        }
        i = i + 1;
    }
    proof {
        if i == 0 {
            assert(parts.skip(0) =~= parts);
        } else {
            assert(parts.skip(i as int) =~= Seq::<Seq<char>>::empty());
        }
        assert(dst@ =~= dst@ + join_comma(parts.skip(i as int)));
    }
    push_lit(dst, "]");
    proof {
        assert(final(dst)@ =~= old(dst)@ + list_spec(iv));
    }
}

/// Appends the tone-variant field, per `variants_spec`.
fn push_variants(dst: &mut Vec<char>, v: &Option<Vec<Option<String>>>)
    ensures
        final(dst)@ == old(dst)@ + variants_spec(
            match v {
                Some(slots) => Some(slots.deep_view()),
                None => None,
            },
        ),
{
    match v {
        None => {
            push_lit(dst, "None");
        },
        Some(slots) => {
            let ghost sv = slots.deep_view();
            let ghost parts = sv.map_values(|o: Option<Seq<char>>| slot_spec(o));
            push_lit(dst, "Some([");
            let ghost head = old(dst)@ + "Some(["@;
            proof {
                assert(parts.skip(0) =~= parts);
            }
            let mut i: usize = 0;
            while i < slots.len()
                invariant
                    0 <= i <= slots@.len(),
                    sv == slots.deep_view(),
                    parts == sv.map_values(|o: Option<Seq<char>>| slot_spec(o)),
                    sv.len() == slots@.len(),
                    parts.len() == sv.len(),
                    head == old(dst)@ + "Some(["@,
                    dst@ + join_comma(parts.skip(i as int)) == head + join_comma(parts),
                decreases slots@.len() - i,
            {
                proof {
                    assert(sv[i as int] == slots@[i as int].deep_view());
                    assert(parts.skip(i as int)[0] == parts[i as int]);
                }
                match &slots[i] {
                    Some(s) => {
                        push_lit(dst, "Some(");
                        push_quoted(dst, s);
                        push_lit(dst, ")");
                        proof {
                            assert(slot_spec(sv[i as int]) =~= "Some("@ + quoted(s@) + ")"@);
                        }
                    },
                    None => {
                        push_lit(dst, "None");
                    },
                }
                if i + 1 < slots.len() {
                    push_lit(dst, ", ");
                    proof {
                        assert(parts.skip(i as int).drop_first() =~= parts.skip(i + 1));
                        assert(parts.skip(i as int).len() >= 2);
                        assert(join_comma(parts.skip(i as int)) == parts[i as int] + ", "@
                            + join_comma(parts.skip(i + 1)));
                        assert(dst@ + join_comma(parts.skip(i + 1)) =~= head + join_comma(parts));
                    }
                } else {
                    proof {
                        assert(parts.skip(i as int).len() == 1);
                        assert(join_comma(parts.skip(i as int)) == parts[i as int]);
                        assert(parts.skip(i + 1) =~= Seq::<Seq<char>>::empty());
                        assert(dst@ + join_comma(parts.skip(i + 1)) =~= dst@);
                        assert(dst@ =~= head + join_comma(parts));
                    }
                }
                i = i + 1;
            }
            proof {
                if i == 0 {
                    assert(parts.skip(0) =~= parts);
                } else {
                    assert(parts.skip(i as int) =~= Seq::<Seq<char>>::empty());
                }
                assert(dst@ =~= dst@ + join_comma(parts.skip(i as int)));
            }
            push_lit(dst, "])");
            proof {
                assert(final(dst)@ =~= old(dst)@ + variants_spec(Some(sv)));
            }
        },
    }
}

/// Serializes the catalog into its static table body, per `emit_spec`: one
/// fixed-shape record per entry, in catalog order, every string field
/// escaped.
pub fn emit_catalog(entries: &Vec<Emoji>) -> (r: String)
    ensures
        r@ == emit_spec(emoji_views(entries@)),
{
    let ghost ev = emoji_views(entries@);
    let mut out: Vec<char> = Vec::new();
    proof {
        assert(ev.take(0) =~= Seq::<EmojiView>::empty());
        assert(out@ =~= emit_spec(ev.take(0)));
    }
    let mut i: usize = 0;
    while i < entries.len()
        invariant
            0 <= i <= entries@.len(),
            ev == emoji_views(entries@),
            ev.len() == entries@.len(),
            out@ == emit_spec(ev.take(i as int)),
        decreases entries@.len() - i,
    {
        proof {
            assert(ev[i as int] == entries@[i as int]@);
            assert(ev.take(i + 1).drop_last() =~= ev.take(i as int));
            assert(ev.take(i + 1).last() == ev[i as int]);
        }
        let e = &entries[i];
        push_lit(&mut out, "    Emoji { ch: ");
        push_quoted(&mut out, &e.ch);
        push_lit(&mut out, ", name_en: ");
        push_quoted(&mut out, &e.name_en);
        push_lit(&mut out, ", keywords_en: ");
        push_list(&mut out, &e.keywords_en);
        push_lit(&mut out, ", name_nl: ");
        push_quoted(&mut out, &e.name_nl);
        push_lit(&mut out, ", keywords_nl: ");
        push_list(&mut out, &e.keywords_nl);
        push_lit(&mut out, ", category: ");
        push_quoted(&mut out, &e.category);
        push_lit(&mut out, ", skin_tone_variants: ");
        push_variants(&mut out, &e.skin_tone_variants);
        push_lit(&mut out, " },\n");
        proof {
            assert(out@ =~= emit_spec(ev.take(i as int)) + entry_spec(ev[i as int]));
        }
        i = i + 1;
    }
    proof {
        assert(ev.take(i as int) =~= ev);
    }
    crate::strings::string_of(&out)
}

} // verus!
