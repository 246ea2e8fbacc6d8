//! Bridges between `String` and `Vec<char>`, and Unicode lowercasing.
//!
//! The rest of the library works on `Vec<char>`, whose view matches the
//! `Seq<char>` view of the strings it came from.

use vstd::prelude::*;

verus! {

/// What `str::to_lowercase` returns for a given character sequence.
pub uninterp spec fn lower_of(s: Seq<char>) -> Seq<char>;

/// Relies on `String::from_iter` over `str::chars`: collecting the
/// characters of a string yields a string with those characters.
#[verifier::external_body]
pub fn string_of(cs: &Vec<char>) -> (r: String)
    ensures
        r@ == cs@,
{
    cs.iter().collect()
}

/// Relies on `str::to_lowercase`: the result depends on the characters
/// alone, and an empty string stays empty.
#[verifier::external_body]
pub fn lowercase(s: &str) -> (r: String)
    ensures
        r@ == lower_of(s@),
        s@.len() == 0 ==> r@.len() == 0,
{
    s.to_lowercase()
}

/// Clone of a string vector, with the same content.
pub fn clone_strings(v: &Vec<String>) -> (r: Vec<String>)
    ensures
        r.deep_view() == v.deep_view(),
{
    let mut r: Vec<String> = Vec::new();
    let mut i: usize = 0;
    while i < v.len()
        invariant
            0 <= i <= v@.len(),
            r@.len() == i,
            forall|m: int| 0 <= m < i ==> #[trigger] r.deep_view()[m] == v.deep_view()[m],
        decreases v@.len() - i,
    {
        let c = v[i].clone();
        let ghost old_r = r.deep_view();
        r.push(c);
        proof {
            assert(r.deep_view() =~~= old_r.push(c@));
            assert(r.deep_view()[i as int] == v.deep_view()[i as int]);
        }
        i = i + 1;
    }
    proof {
        assert(r.deep_view() =~= v.deep_view());
    }
    r
}

/// Each character piece as a string, in order.
pub fn strings_of_pieces(pieces: &Vec<Vec<char>>) -> (r: Vec<String>)
    ensures
        r.deep_view() == pieces.deep_view(),
{
    let mut r: Vec<String> = Vec::new();
    let mut i: usize = 0;
    while i < pieces.len()
        invariant
            0 <= i <= pieces@.len(),
            r@.len() == i,
            forall|m: int| 0 <= m < i ==> #[trigger] r.deep_view()[m] == pieces.deep_view()[m],
        decreases pieces@.len() - i,
    {
        let sv = string_of(&pieces[i]);
        let ghost old_r = r.deep_view();
        r.push(sv);
        proof {
            assert(r.deep_view() =~~= old_r.push(sv@));
            assert(r.deep_view()[i as int] == pieces.deep_view()[i as int]);
        }
        i = i + 1;
    }
    proof {
        assert(r.deep_view() =~= pieces.deep_view());
    }
    r
}

} // verus!
