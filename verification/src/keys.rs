//! Codepoint sequences: the key space shared by the registry and the
//! annotation sources. A key is a vector of Unicode scalar values; rendering
//! turns it into the characters it denotes, and hexadecimal tokens from the
//! registry parse into single values.

use vstd::prelude::*;

verus! {

/// The variant selector that forces emoji presentation.
pub const VARIANT_SELECTOR: u32 = 0xFE0F;

/// `v` is a Unicode scalar value: not a surrogate and at most 10FFFF.
pub open spec fn valid_scalar(v: u32) -> bool {
    (v < 0xD800 || v > 0xDFFF) && v <= 0x10FFFF
}

/// `s` is the character sequence denoted by the scalar values `cps`.
pub open spec fn renders(cps: Seq<u32>, s: Seq<char>) -> bool {
    &&& s.len() == cps.len()
    &&& forall|i: int| 0 <= i < s.len() ==> #[trigger] (s[i] as u32) == cps[i]
}

/// Rendering is injective: equal renderings come from equal keys.
pub proof fn lemma_renders_injective(a: Seq<u32>, b: Seq<u32>, s: Seq<char>, t: Seq<char>)
    requires
        renders(a, s),
        renders(b, t),
        s == t,
    ensures
        a =~= b,
{
    assert forall|i: int| 0 <= i < a.len() implies a[i] == b[i] by {
        assert((s[i] as u32) == a[i]);
        assert((t[i] as u32) == b[i]);
    }
}

/// Relies on `char::from_u32`: `Some` exactly for Unicode scalar values,
/// and the returned character casts back to the argument.
#[verifier::external_body]
pub fn char_from_u32(v: u32) -> (r: Option<char>)
    ensures
        r is Some <==> valid_scalar(v),
        r matches Some(c) ==> c as u32 == v,
{
    char::from_u32(v)
}

/// The characters denoted by `cps`; `None` when some value is no
/// Unicode scalar value.
pub fn render_chars(cps: &Vec<u32>) -> (r: Option<Vec<char>>)
    ensures
        r is Some <==> (forall|i: int| 0 <= i < cps@.len() ==> valid_scalar(#[trigger] cps@[i])),
        r matches Some(s) ==> renders(cps@, s@),
{
    let mut out: Vec<char> = Vec::new();
    let mut i: usize = 0;
    while i < cps.len()
        invariant
            0 <= i <= cps@.len(),
            out@.len() == i,
            forall|m: int| 0 <= m < i ==> valid_scalar(#[trigger] cps@[m]),
            forall|m: int| 0 <= m < i ==> #[trigger] (out@[m] as u32) == cps@[m],
        decreases cps@.len() - i,
    {
        match char_from_u32(cps[i]) {
            Some(c) => {
                out.push(c);
            },
            None => {
                return None;
            },
        }
        i = i + 1;
    }
    Some(out)
}

/// An uppercase hexadecimal digit, as the registry grammar admits.
pub open spec fn is_hex_char(c: char) -> bool {
    ('0' <= c && c <= '9') || ('A' <= c && c <= 'F')
}

/// The value of one hexadecimal digit.
pub open spec fn hex_val(c: char) -> int {
    if '0' <= c && c <= '9' {
        c as int - '0' as int
    } else {
        c as int - 'A' as int + 10
    }
}

/// The value of a hexadecimal token, most significant digit first.
pub open spec fn hex_token_val(t: Seq<char>) -> int
    decreases t.len(),
{
    if t.len() == 0 {
        0
    } else {
        hex_token_val(t.drop_last()) * 16 + hex_val(t.last())
    }
}

pub proof fn lemma_hex_token_val_nonneg(t: Seq<char>)
    requires
        forall|i: int| 0 <= i < t.len() ==> is_hex_char(#[trigger] t[i]),
    ensures
        hex_token_val(t) >= 0,
    decreases t.len(),
{
    if t.len() > 0 {
        assert(forall|i: int|
            0 <= i < t.drop_last().len() ==> is_hex_char(#[trigger] t.drop_last()[i]));
        lemma_hex_token_val_nonneg(t.drop_last());
    }
}

/// The value of a hexadecimal token, when it fits a `u32`; `None` on
/// overflow. The token must be non-empty uppercase hexadecimal.
pub fn parse_hex_token(t: &Vec<char>) -> (r: Option<u32>)
    requires
        t@.len() >= 1,
        forall|i: int| 0 <= i < t@.len() ==> is_hex_char(#[trigger] t@[i]),
    ensures
        r matches Some(v) ==> hex_token_val(t@) == v,
        r is Some <==> hex_token_val(t@) <= u32::MAX,
{
    let mut acc: u64 = 0;
    let mut i: usize = 0;
    while i < t.len()
        invariant
            0 <= i <= t@.len(),
            forall|m: int| 0 <= m < t@.len() ==> is_hex_char(#[trigger] t@[m]),
            acc == hex_token_val(t@.take(i as int)),
            acc <= u32::MAX,
        decreases t@.len() - i,
    {
        let c = t[i];
        let d: u64 = if c <= '9' {
            (c as u32 as u64) - ('0' as u32 as u64)
        } else {
            (c as u32 as u64) - ('A' as u32 as u64) + 10
        };
        proof {
            assert(is_hex_char(t@[i as int]));
            assert(d == hex_val(t@[i as int]));
            assert(t@.take(i + 1).drop_last() =~= t@.take(i as int));
            assert(t@.take(i + 1).last() == t@[i as int]);
        }
        let next: u64 = acc * 16 + d;
        if next > 0xFFFF_FFFF {
            proof {
                lemma_hex_prefix_monotone(t@, i + 1);
            }
            return None;
        }
        acc = next;
        i = i + 1;
    }
    proof {
        assert(t@.take(t@.len() as int) =~= t@);
    }
    Some(acc as u32)
}

/// A longer hexadecimal prefix has at least the value of a shorter one.
proof fn lemma_hex_prefix_monotone(t: Seq<char>, k: int)
    requires
        0 <= k <= t.len(),
        forall|i: int| 0 <= i < t.len() ==> is_hex_char(#[trigger] t[i]),
    ensures
        hex_token_val(t) >= hex_token_val(t.take(k)),
    decreases t.len() - k,
{
    if k == t.len() {
        assert(t.take(k) =~= t);
    } else {
        lemma_hex_prefix_monotone(t, k + 1);
        assert(t.take(k + 1).drop_last() =~= t.take(k));
        assert(t.take(k + 1).last() == t[k]);
        assert(forall|i: int| 0 <= i < t.take(k).len() ==> is_hex_char(#[trigger] t.take(k)[i]));
        lemma_hex_token_val_nonneg(t.take(k));
        assert(hex_token_val(t.take(k + 1)) == hex_token_val(t.take(k)) * 16 + hex_val(t[k]));
        assert(hex_val(t[k]) >= 0);
    }
}

/// Whether two keys hold the same scalar values.
pub fn eq_key(a: &Vec<u32>, b: &Vec<u32>) -> (r: bool)
    ensures
        r == (a@ == b@),
{
    if a.len() != b.len() {
        return false;
    }
    let mut i: usize = 0;
    while i < a.len()
        invariant
            0 <= i <= a@.len(),
            a@.len() == b@.len(),
            forall|m: int| 0 <= m < i ==> a@[m] == b@[m],
        decreases a@.len() - i,
    {
        if a[i] != b[i] {
            return false;
        }
        i = i + 1;
    }
    proof {
        assert(a@ =~= b@);
    }
    true
}

/// Whether the key holds the value `x`.
pub fn key_contains(v: &Vec<u32>, x: u32) -> (r: bool)
    ensures
        r == v@.contains(x),
{
    let mut i: usize = 0;
    while i < v.len()
        invariant
            0 <= i <= v@.len(),
            forall|m: int| 0 <= m < i ==> v@[m] != x,
        decreases v@.len() - i,
    {
        if v[i] == x {
            return true;
        }
        i = i + 1;
    }
    false
}

/// The key with every occurrence of `x` removed, order kept.
pub fn key_without(v: &Vec<u32>, x: u32) -> (r: Vec<u32>)
    ensures
        r@ == v@.filter(|c: u32| c != x),
{
    let mut r: Vec<u32> = Vec::new();
    proof {
        reveal(Seq::filter);
        assert(v@.take(0) =~= Seq::<u32>::empty());
    }
    let mut i: usize = 0;
    while i < v.len()
        invariant
            0 <= i <= v@.len(),
            r@ == v@.take(i as int).filter(|c: u32| c != x),
        decreases v@.len() - i,
    {
        proof {
            reveal(Seq::filter);
            assert(v@.take(i + 1).drop_last() =~= v@.take(i as int));
            assert(v@.take(i + 1).last() == v@[i as int]);
        }
        if v[i] != x {
            r.push(v[i]);
        }
        i = i + 1;
    }
    proof {
        assert(v@.take(v@.len() as int) =~= v@);
    }
    r
}

/// The key stripped of the variant selector.
pub fn strip_variant_selector(v: &Vec<u32>) -> (r: Vec<u32>)
    ensures
        r@ == strip_vs_spec(v@),
{
    key_without(v, VARIANT_SELECTOR)
}

/// `key` with every variant selector removed.
pub open spec fn strip_vs_spec(key: Seq<u32>) -> Seq<u32> {
    key.filter(|c: u32| c != 0xFE0F)
}

/// The character sequence denoted by a key of scalar values.
pub open spec fn render_spec(cps: Seq<u32>) -> Seq<char> {
    choose|s: Seq<char>| renders(cps, s)
}

/// Characters with the same scalar value are the same character.
pub proof fn lemma_char_cast_injective(a: char, b: char)
    requires
        a as u32 == b as u32,
    ensures
        a == b,
{
}

/// Any witness of `renders` is the rendering.
pub proof fn lemma_render_spec(cps: Seq<u32>, s: Seq<char>)
    requires
        renders(cps, s),
    ensures
        render_spec(cps) == s,
{
    assert(exists|t: Seq<char>| renders(cps, t)) by {
        assert(renders(cps, s));
    }
    assert(renders(cps, render_spec(cps)));
    let t = render_spec(cps);
    assert forall|i: int| 0 <= i < t.len() implies t[i] == s[i] by {
        assert((t[i] as u32) == cps[i]);
        assert((s[i] as u32) == cps[i]);
        lemma_char_cast_injective(t[i], s[i]);
    }
    assert(t =~= s);
}

/// A copy of a key.
pub fn clone_key(v: &Vec<u32>) -> (r: Vec<u32>)
    ensures
        r@ == v@,
{
    let mut r: Vec<u32> = Vec::new();
    let mut i: usize = 0;
    while i < v.len()
        invariant
            0 <= i <= v@.len(),
            r@ == v@.take(i as int),
        decreases v@.len() - i,
    {
        r.push(v[i]);
        proof {
            assert(v@.take(i as int).push(v@[i as int]) =~= v@.take(i + 1));
        }
        i = i + 1;
    }
    proof {
        assert(v@.take(v@.len() as int) =~= v@);
    }
    r
}

} // verus!
