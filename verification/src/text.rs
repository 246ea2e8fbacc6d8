//! Character-sequence utilities shared by the parsers and the search:
//! substring matching, whitespace trimming and token splitting, each with
//! an exact specification over `Seq<char>`.

use vstd::prelude::*;
use vstd::std_specs::iter::IteratorSpec;

verus! {

broadcast use vstd::string::group_string_axioms;

/// The whitespace characters this library recognizes in its inputs.
pub open spec fn is_ws(c: char) -> bool {
    c == ' ' || c == '\t' || c == '\r' || c == '\n'
}

/// `needle` occurs in `hay` starting at position `i`.
pub open spec fn matches_at(hay: Seq<char>, needle: Seq<char>, i: int) -> bool {
    &&& 0 <= i
    &&& i + needle.len() <= hay.len()
    &&& hay.subrange(i, i + needle.len()) == needle
}

/// `needle` occurs somewhere in `hay`.
pub open spec fn contains_seq(hay: Seq<char>, needle: Seq<char>) -> bool {
    exists|i: int| matches_at(hay, needle, i)
}

/// Executable whitespace test, equal to `is_ws`.
pub fn ws_char(c: char) -> (r: bool)
    ensures
        r == is_ws(c),
{
    c == ' ' || c == '\t' || c == '\r' || c == '\n'
}

/// First position at or after `from` where `needle` occurs in `hay`,
/// `None` when there is none.
pub fn find_from(hay: &Vec<char>, needle: &Vec<char>, from: usize) -> (r: Option<usize>)
    ensures
        match r {
            Some(i) => {
                &&& from <= i
                &&& matches_at(hay@, needle@, i as int)
                &&& forall|j: int| from <= j < i ==> !matches_at(hay@, needle@, j)
            },
            None => forall|j: int| from <= j ==> !matches_at(hay@, needle@, j),
        },
{
    let hl = hay.len();
    let nl = needle.len();
    if nl > hl || from > hl - nl {
        return None;
    }
    let last = hl - nl;
    let mut i: usize = from;
    loop
        invariant
            from <= i <= last,
            hl == hay@.len(),
            nl == needle@.len(),
            last == hl - nl,
            forall|j: int| from <= j < i ==> !matches_at(hay@, needle@, j),
        decreases last - i,
    {
        let mut k: usize = 0;
        let mut same = true;
        while k < nl
            invariant
                0 <= k <= nl,
                i <= last,
                hl == hay@.len(),
                nl == needle@.len(),
                last == hl - nl,
                same <==> (forall|m: int| 0 <= m < k ==> hay@[i + m] == needle@[m]),
            decreases nl - k,
        {
            if hay[i + k] != needle[k] {
                same = false;
                k = nl;
            } else {
                proof {
                    assert(hay@[i + k] == needle@[k as int]);
                }
                k = k + 1;
            }
        }
        if same {
            proof {
                assert(hay@.subrange(i as int, i + needle@.len()) =~= needle@);
            }
            return Some(i);
        }
        proof {
            assert(!matches_at(hay@, needle@, i as int)) by {
                if matches_at(hay@, needle@, i as int) {
                    assert(forall|m: int|
                        0 <= m < needle@.len() ==> #[trigger] needle@[m] == hay@.subrange(
                            i as int,
                            i + needle@.len(),
                        )[m]);
                }
            }
        }
        if i == last {
            return None;
        }
        i = i + 1;
    }
}

/// Whether `needle` occurs in `hay`, equal to `contains_seq`.
pub fn contains_chars(hay: &Vec<char>, needle: &Vec<char>) -> (r: bool)
    ensures
        r == contains_seq(hay@, needle@),
{
    let r = find_from(hay, needle, 0);
    match r {
        Some(_) => true,
        None => {
            proof {
                assert forall|i: int| !matches_at(hay@, needle@, i) by {
                    if matches_at(hay@, needle@, i) {
                        assert(0 <= i);
                    }
                }
            }
            false
        },
    }
}

/// Copy of `v[from..to]`.
pub fn subvec(v: &Vec<char>, from: usize, to: usize) -> (r: Vec<char>)
    requires
        from <= to <= v@.len(),
    ensures
        r@ == v@.subrange(from as int, to as int),
{
    let mut r: Vec<char> = Vec::new();
    let mut i = from;
    while i < to
        invariant
            from <= i <= to <= v@.len(),
            r@ == v@.subrange(from as int, i as int),
        decreases to - i,
    {
        r.push(v[i]);
        proof {
            assert(v@.subrange(from as int, i as int).push(v@[i as int]) =~= v@.subrange(
                from as int,
                i + 1,
            ));
        }
        i = i + 1;
    }
    r
}

/// Whether `prefix` stands at the start of `v`.
pub fn starts_with(v: &Vec<char>, prefix: &Vec<char>) -> (r: bool)
    ensures
        r == matches_at(v@, prefix@, 0),
{
    if prefix.len() > v.len() {
        return false;
    }
    let mut k: usize = 0;
    while k < prefix.len()
        invariant
            0 <= k <= prefix@.len() <= v@.len(),
            forall|m: int| 0 <= m < k ==> v@[m] == prefix@[m],
        decreases prefix@.len() - k,
    {
        if v[k] != prefix[k] {
            proof {
                assert(!matches_at(v@, prefix@, 0)) by {
                    if matches_at(v@, prefix@, 0) {
                        let sub = v@.subrange(0, prefix@.len() as int);
                        assert(prefix@[k as int] == sub[k as int]);
                    }
                }
            }
            return false;
        }
        proof {
            assert(v@[k as int] == prefix@[k as int]);
        }
        k = k + 1;
    }
    proof {
        assert(v@.subrange(0, prefix@.len() as int) =~= prefix@);
    }
    true
}

/// `s` with leading whitespace removed.
pub open spec fn trim_start_spec(s: Seq<char>) -> Seq<char>
    decreases s.len(),
{
    if s.len() > 0 && is_ws(s[0]) {
        trim_start_spec(s.drop_first())
    } else {
        s
    }
}

/// `s` with trailing whitespace removed.
pub open spec fn trim_end_spec(s: Seq<char>) -> Seq<char>
    decreases s.len(),
{
    if s.len() > 0 && is_ws(s[s.len() - 1]) {
        trim_end_spec(s.drop_last())
    } else {
        s
    }
}

/// `s` with leading and trailing whitespace removed.
pub open spec fn trim_spec(s: Seq<char>) -> Seq<char> {
    trim_end_spec(trim_start_spec(s))
}

/// Copy of `v` with leading and trailing whitespace removed.
pub fn trim(v: &Vec<char>) -> (r: Vec<char>)
    ensures
        r@ == trim_spec(v@),
{
    proof {
        assert(v@.skip(0) =~= v@);
    }
    let mut start: usize = 0;
    while start < v.len() && ws_char(v[start])
        invariant
            0 <= start <= v@.len(),
            trim_start_spec(v@) == trim_start_spec(v@.skip(start as int)),
        decreases v@.len() - start,
    {
        proof {
            assert(v@.skip(start as int).drop_first() =~= v@.skip(start + 1));
        }
        start = start + 1;
    }
    proof {
        if start < v@.len() {
            assert(trim_start_spec(v@) == v@.skip(start as int));
        } else {
            assert(v@.skip(start as int) =~= Seq::<char>::empty());
            assert(trim_start_spec(v@) == v@.skip(start as int));
        }
    }
    let mut end: usize = v.len();
    while end > start && ws_char(v[end - 1])
        invariant
            start <= end <= v@.len(),
            trim_start_spec(v@) == v@.skip(start as int),
            trim_end_spec(v@.skip(start as int)) == trim_end_spec(
                v@.subrange(start as int, end as int),
            ),
        decreases end,
    {
        proof {
            assert(v@.subrange(start as int, end as int).drop_last() =~= v@.subrange(
                start as int,
                end - 1,
            ));
            assert(v@.subrange(start as int, end as int).last() == v@[end - 1]);
        }
        end = end - 1;
    }
    proof {
        assert(v@.skip(start as int) =~= v@.subrange(start as int, v@.len() as int));
        let sub = v@.subrange(start as int, end as int);
        if end > start {
            assert(sub[sub.len() - 1] == v@[end - 1]);
            assert(trim_end_spec(sub) == sub);
        } else {
            assert(sub =~= Seq::<char>::empty());
            assert(trim_end_spec(sub) == sub);
        }
    }
    subvec(v, start, end)
}

/// Length of the leading run of non-whitespace characters of `s`.
pub open spec fn token_len(s: Seq<char>) -> int
    decreases s.len(),
{
    if s.len() == 0 || is_ws(s[0]) {
        0
    } else {
        1 + token_len(s.drop_first())
    }
}

pub proof fn lemma_token_len(s: Seq<char>)
    ensures
        0 <= token_len(s) <= s.len(),
        s.len() > 0 && !is_ws(s[0]) ==> token_len(s) >= 1,
        forall|m: int| 0 <= m < token_len(s) ==> !is_ws(s[m]),
        token_len(s) < s.len() ==> is_ws(s[token_len(s)]),
    decreases s.len(),
{
    if s.len() > 0 && !is_ws(s[0]) {
        lemma_token_len(s.drop_first());
        assert forall|m: int| 0 <= m < token_len(s) implies !is_ws(s[m]) by {
            if m > 0 {
                assert(s[m] == s.drop_first()[m - 1]);
            }
        }
        if token_len(s) < s.len() {
            assert(s[token_len(s)] == s.drop_first()[token_len(s) - 1]);
        }
    }
}

/// The whitespace-separated tokens of `s`, in order.
pub open spec fn split_ws_spec(s: Seq<char>) -> Seq<Seq<char>>
    decreases s.len(),
    via split_ws_spec_dec
{
    if s.len() == 0 {
        Seq::empty()
    } else if is_ws(s[0]) {
        split_ws_spec(s.drop_first())
    } else {
        seq![s.take(token_len(s))] + split_ws_spec(s.skip(token_len(s)))
    }
}

#[via_fn]
proof fn split_ws_spec_dec(s: Seq<char>) {
    lemma_token_len(s);
}

/// The whitespace-separated tokens of `v`.
pub fn split_ws(v: &Vec<char>) -> (r: Vec<Vec<char>>)
    ensures
        r.deep_view() == split_ws_spec(v@),
{
    let mut r: Vec<Vec<char>> = Vec::new();
    proof {
        assert(v@.skip(0) =~= v@);
    }
    let mut i: usize = 0;
    while i < v.len()
        invariant
            0 <= i <= v@.len(),
            r.deep_view() + split_ws_spec(v@.skip(i as int)) == split_ws_spec(v@),
        decreases v@.len() - i,
    {
        if ws_char(v[i]) {
            proof {
                assert(v@.skip(i as int).drop_first() =~= v@.skip(i + 1));
            }
            i = i + 1;
        } else {
            let start = i;
            let mut j = i + 1;
            while j < v.len() && !ws_char(v[j])
                invariant
                    start < j <= v@.len(),
                    forall|m: int| start <= m < j ==> !is_ws(v@[m]),
                    !is_ws(v@[start as int]),
                decreases v@.len() - j,
            {
                j = j + 1;
            }
            proof {
                lemma_token_len_run(v@, start as int, j as int);
            }
            let token = subvec(v, start, j);
            proof {
                let suf = v@.skip(start as int);
                assert(suf.take(token_len(suf)) =~= v@.subrange(start as int, j as int));
                assert(suf.skip(token_len(suf)) =~= v@.skip(j as int));
                assert(split_ws_spec(suf) == seq![v@.subrange(start as int, j as int)]
                    + split_ws_spec(v@.skip(j as int)));
            }
            let ghost old_r = r.deep_view();
            r.push(token);
            proof {
                assert(r.deep_view() =~~= old_r.push(v@.subrange(start as int, j as int)));
                assert(old_r.push(v@.subrange(start as int, j as int)) + split_ws_spec(
                    v@.skip(j as int),
                ) =~~= old_r + (seq![v@.subrange(start as int, j as int)] + split_ws_spec(
                    v@.skip(j as int),
                )));
            }
            i = j;
        }
    }
    proof {
        assert(v@.skip(i as int) =~= Seq::<char>::empty());
        assert(r.deep_view() =~~= r.deep_view() + split_ws_spec(v@.skip(i as int)));
    }
    r
}

/// In the suffix of `s` at `start`, the non-whitespace run reaches exactly to `j`.
proof fn lemma_token_len_run(s: Seq<char>, start: int, j: int)
    requires
        0 <= start < j <= s.len(),
        forall|m: int| start <= m < j ==> !is_ws(s[m]),
        j < s.len() ==> is_ws(s[j]),
    ensures
        token_len(s.skip(start)) == j - start,
    decreases j - start,
{
    let suf = s.skip(start);
    assert(suf[0] == s[start]);
    assert(!is_ws(suf[0]));
    assert(token_len(suf) == 1 + token_len(suf.drop_first()));
    assert(suf.drop_first() =~= s.skip(start + 1));
    if start + 1 == j {
        if j < s.len() {
            assert(s.skip(j)[0] == s[j]);
            assert(token_len(s.skip(j)) == 0);
        } else {
            assert(s.skip(j) =~= Seq::<char>::empty());
            assert(token_len(s.skip(j)) == 0);
        }
    } else {
        lemma_token_len_run(s, start + 1, j);
    }
}

/// Every whitespace token is non-empty, whitespace-free, and drawn from `s`.
pub proof fn lemma_split_ws_tokens(s: Seq<char>)
    ensures
        forall|ti: int|
            0 <= ti < split_ws_spec(s).len() ==> (#[trigger] split_ws_spec(s)[ti]).len() >= 1,
        forall|ti: int, j: int|
            0 <= ti < split_ws_spec(s).len() && 0 <= j < split_ws_spec(s)[ti].len() ==> s.contains(
                #[trigger] split_ws_spec(s)[ti][j],
            ) && !is_ws(split_ws_spec(s)[ti][j]),
    decreases s.len(),
{
    lemma_token_len(s);
    if s.len() == 0 {
    } else if is_ws(s[0]) {
        lemma_split_ws_tokens(s.drop_first());
        assert(split_ws_spec(s) == split_ws_spec(s.drop_first()));
        assert forall|ti: int, j: int|
            0 <= ti < split_ws_spec(s).len() && 0 <= j < split_ws_spec(s)[ti].len() implies s
            .contains(#[trigger] split_ws_spec(s)[ti][j]) && !is_ws(split_ws_spec(s)[ti][j]) by {
            let rest = s.drop_first();
            assert(split_ws_spec(s) == split_ws_spec(rest));
            assert(rest.contains(split_ws_spec(rest)[ti][j]));
            let k = choose|k: int| 0 <= k < rest.len() && rest[k] == split_ws_spec(rest)[ti][j];
            assert(s[k + 1] == rest[k]);
        }
    } else {
        let n = token_len(s);
        let suf = s.skip(n);
        lemma_split_ws_tokens(suf);
        assert(split_ws_spec(s) == seq![s.take(n)] + split_ws_spec(suf));
        assert forall|ti: int, j: int|
            0 <= ti < split_ws_spec(s).len() && 0 <= j < split_ws_spec(s)[ti].len() implies s
            .contains(#[trigger] split_ws_spec(s)[ti][j]) && !is_ws(split_ws_spec(s)[ti][j]) by {
            if ti == 0 {
                assert(split_ws_spec(s)[0] == s.take(n));
                assert(s.take(n)[j] == s[j]);
                assert(!is_ws(s[j]));
            } else {
                assert(split_ws_spec(s)[ti] == split_ws_spec(suf)[ti - 1]);
                assert(suf.contains(split_ws_spec(suf)[ti - 1][j]));
                let t = split_ws_spec(suf)[ti - 1];
                let k = choose|k: int| 0 <= k < suf.len() && suf[k] == t[j];
                assert(s[k + n] == suf[k]);
            }
        }
        assert forall|ti: int|
            0 <= ti < split_ws_spec(s).len() implies (#[trigger] split_ws_spec(s)[ti]).len()
            >= 1 by {
            if ti > 0 {
                assert(split_ws_spec(s)[ti] == split_ws_spec(suf)[ti - 1]);
            } else {
                assert(split_ws_spec(s)[0] == s.take(n));
                assert(s.take(n).len() == n >= 1);
            }
        }
    }
}

/// A separator between keywords in an annotation's keyword text.
pub open spec fn is_kw_sep(c: char) -> bool {
    c == '|' || c == ';' || c == ','
}

/// Length of the leading run of `s` free of characters satisfying `stop`.
pub open spec fn run_len(s: Seq<char>, stop: spec_fn(char) -> bool) -> int
    decreases s.len(),
{
    if s.len() == 0 || stop(s[0]) {
        0
    } else {
        1 + run_len(s.drop_first(), stop)
    }
}

pub proof fn lemma_run_len(s: Seq<char>, stop: spec_fn(char) -> bool)
    ensures
        0 <= run_len(s, stop) <= s.len(),
    decreases s.len(),
{
    if s.len() > 0 && !stop(s[0]) {
        lemma_run_len(s.drop_first(), stop);
    }
}

/// In the suffix of `s` at `start`, the stop-free run reaches exactly to `j`.
pub proof fn lemma_run_len_run(s: Seq<char>, stop: spec_fn(char) -> bool, start: int, j: int)
    requires
        0 <= start <= j <= s.len(),
        forall|m: int| start <= m < j ==> !stop(s[m]),
        j < s.len() ==> stop(s[j]),
    ensures
        run_len(s.skip(start), stop) == j - start,
    decreases j - start,
{
    let suf = s.skip(start);
    if start == j {
        if j < s.len() {
            assert(suf[0] == s[j]);
        } else {
            assert(suf =~= Seq::<char>::empty());
        }
    } else {
        assert(suf[0] == s[start]);
        assert(run_len(suf, stop) == 1 + run_len(suf.drop_first(), stop));
        assert(suf.drop_first() =~= s.skip(start + 1));
        lemma_run_len_run(s, stop, start + 1, j);
    }
}

/// The pieces of `s` between separator characters, in order; empty pieces kept.
pub open spec fn split_at_spec(s: Seq<char>, stop: spec_fn(char) -> bool) -> Seq<Seq<char>>
    decreases s.len(),
    via split_at_spec_dec
{
    let n = run_len(s, stop);
    if n == s.len() {
        seq![s]
    } else {
        seq![s.take(n)] + split_at_spec(s.skip(n + 1), stop)
    }
}

#[via_fn]
proof fn split_at_spec_dec(s: Seq<char>, stop: spec_fn(char) -> bool) {
    lemma_run_len(s, stop);
}

/// Pieces of `v` between keyword separators (`|`, `;`, `,`), empty pieces kept.
pub fn split_kw_seps(v: &Vec<char>) -> (r: Vec<Vec<char>>)
    ensures
        r.deep_view() == split_at_spec(v@, |c: char| is_kw_sep(c)),
{
    split_scan(v, false)
}

/// The lines of `v`: pieces between newline characters.
pub fn split_lines(v: &Vec<char>) -> (r: Vec<Vec<char>>)
    ensures
        r.deep_view() == split_at_spec(v@, |c: char| c == '\n'),
{
    split_scan(v, true)
}

/// First position at or after `from` holding a separator, or the length.
fn scan_to_sep(v: &Vec<char>, from: usize, nl: bool) -> (j: usize)
    requires
        from <= v@.len(),
    ensures
        from <= j <= v@.len(),
        nl ==> (forall|m: int| from <= m < j ==> v@[m] != '\n'),
        nl ==> (j < v@.len() ==> v@[j as int] == '\n'),
        !nl ==> (forall|m: int| from <= m < j ==> !is_kw_sep(v@[m])),
        !nl ==> (j < v@.len() ==> is_kw_sep(v@[j as int])),
{
    let mut j = from;
    loop
        invariant
            from <= j <= v@.len(),
            nl ==> (forall|m: int| from <= m < j ==> v@[m] != '\n'),
            !nl ==> (forall|m: int| from <= m < j ==> !is_kw_sep(v@[m])),
        decreases v@.len() - j,
    {
        if j == v.len() {
            return j;
        }
        let hit = if nl {
            v[j] == '\n'
        } else {
            v[j] == '|' || v[j] == ';' || v[j] == ','
        };
        if hit {
            return j;
        }
        j = j + 1;
    }
}

/// Splits `v` at newline characters when `nl` holds, else at keyword separators.
fn split_scan(v: &Vec<char>, nl: bool) -> (r: Vec<Vec<char>>)
    ensures
        nl ==> r.deep_view() == split_at_spec(v@, |c: char| c == '\n'),
        !nl ==> r.deep_view() == split_at_spec(v@, |c: char| is_kw_sep(c)),
{
    let ghost stop: spec_fn(char) -> bool = if nl {
        (|c: char| c == '\n')
    } else {
        (|c: char| is_kw_sep(c))
    };
    let mut r: Vec<Vec<char>> = Vec::new();
    proof {
        assert(v@.skip(0) =~= v@);
    }
    let mut i: usize = 0;
    loop
        invariant
            0 <= i <= v@.len(),
            nl ==> stop == (|c: char| c == '\n'),
            !nl ==> stop == (|c: char| is_kw_sep(c)),
            r.deep_view() + split_at_spec(v@.skip(i as int), stop) == split_at_spec(v@, stop),
        decreases v@.len() - i,
    {
        let j = scan_to_sep(v, i, nl);
        proof {
            lemma_run_len_run(v@, stop, i as int, j as int);
        }
        let piece = subvec(v, i, j);
        let ghost old_r = r.deep_view();
        r.push(piece);
        let ghost suf = v@.skip(i as int);
        proof {
            assert(suf.take(run_len(suf, stop)) =~= v@.subrange(i as int, j as int));
        }
        if j == v.len() {
            proof {
                assert(run_len(suf, stop) == suf.len());
                assert(split_at_spec(suf, stop) == seq![v@.subrange(i as int, j as int)]);
                assert(r.deep_view() =~~= old_r + split_at_spec(suf, stop));
            }
            return r;
        }
        proof {
            assert(run_len(suf, stop) < suf.len());
            assert(suf.skip(run_len(suf, stop) + 1) =~= v@.skip(j + 1));
            assert(split_at_spec(suf, stop) == seq![v@.subrange(i as int, j as int)]
                + split_at_spec(v@.skip(j + 1), stop));
            assert(r.deep_view() =~~= old_r.push(v@.subrange(i as int, j as int)));
            assert(old_r.push(v@.subrange(i as int, j as int)) + split_at_spec(
                v@.skip(j + 1),
                stop,
            ) =~~= old_r + split_at_spec(suf, stop));
        }
        i = j + 1;
    }
}

/// The first position at or after `from` where `needle` occurs in `hay`,
/// or `-1` when there is none.
pub open spec fn find_at(hay: Seq<char>, needle: Seq<char>, from: int) -> int
    decreases hay.len() - from + 1,
{
    if from < 0 || from + needle.len() > hay.len() {
        -1
    } else if matches_at(hay, needle, from) {
        from
    } else {
        find_at(hay, needle, from + 1)
    }
}

pub proof fn lemma_find_at_none(hay: Seq<char>, needle: Seq<char>, from: int)
    requires
        0 <= from,
        forall|j: int| from <= j ==> !matches_at(hay, needle, j),
    ensures
        find_at(hay, needle, from) == -1,
    decreases hay.len() - from + 1,
{
    if from + needle.len() <= hay.len() {
        lemma_find_at_none(hay, needle, from + 1);
    }
}

pub proof fn lemma_find_at_some(hay: Seq<char>, needle: Seq<char>, from: int, i: int)
    requires
        0 <= from <= i,
        matches_at(hay, needle, i),
        forall|j: int| from <= j < i ==> !matches_at(hay, needle, j),
    ensures
        find_at(hay, needle, from) == i,
    decreases i - from,
{
    if from < i {
        lemma_find_at_some(hay, needle, from + 1, i);
    }
}

/// Properties of `find_at` needed by its callers.
pub proof fn lemma_find_at(hay: Seq<char>, needle: Seq<char>, from: int)
    requires
        0 <= from,
    ensures
        find_at(hay, needle, from) == -1 || find_at(hay, needle, from) >= from,
        find_at(hay, needle, from) >= 0 ==> matches_at(hay, needle, find_at(hay, needle, from)),
    decreases hay.len() - from + 1,
{
    if !(from + needle.len() > hay.len()) && !matches_at(hay, needle, from) {
        lemma_find_at(hay, needle, from + 1);
    }
}

/// First occurrence of `needle` at or after `from`, equal to `find_at`.
pub fn find_pos(hay: &Vec<char>, needle: &Vec<char>, from: usize) -> (r: Option<usize>)
    ensures
        r matches Some(i) ==> i == find_at(hay@, needle@, from as int) && from <= i && matches_at(
            hay@,
            needle@,
            i as int,
        ),
        r is None ==> find_at(hay@, needle@, from as int) == -1,
{
    let r = find_from(hay, needle, from);
    proof {
        match r {
            Some(i) => lemma_find_at_some(hay@, needle@, from as int, i as int),
            None => lemma_find_at_none(hay@, needle@, from as int),
        }
    }
    r
}

/// Whether `pat` occurs in `v` at exactly position `i`.
pub fn match_at_pos(v: &Vec<char>, pat: &Vec<char>, i: usize) -> (r: bool)
    requires
        i <= v@.len(),
    ensures
        r == matches_at(v@, pat@, i as int),
{
    let vl = v.len();
    let pl = pat.len();
    if pl > vl - i {
        return false;
    }
    let mut k: usize = 0;
    while k < pl
        invariant
            0 <= k <= pl,
            vl == v@.len(),
            pl == pat@.len(),
            i + pl <= vl,
            forall|m: int| 0 <= m < k ==> v@[i + m] == pat@[m],
        decreases pl - k,
    {
        if v[i + k] != pat[k] {
            proof {
                assert(!matches_at(v@, pat@, i as int)) by {
                    if matches_at(v@, pat@, i as int) {
                        let sub = v@.subrange(i as int, i + pat@.len());
                        assert(pat@[k as int] == sub[k as int]);
                    }
                }
            }
            return false;
        }
        proof {
            assert(v@[i + k] == pat@[k as int]);
        }
        k = k + 1;
    }
    proof {
        assert(v@.subrange(i as int, i + pat@.len()) =~= pat@);
    }
    true
}

/// A match within a suffix is a match at the shifted position.
pub proof fn lemma_matches_shift(s: Seq<char>, pat: Seq<char>, i: int)
    requires
        0 <= i <= s.len(),
    ensures
        matches_at(s, pat, i) <==> matches_at(s.skip(i), pat, 0),
{
    if i + pat.len() <= s.len() {
        assert(s.skip(i).subrange(0, pat.len() as int) =~= s.subrange(i, i + pat.len()));
    }
}

/// No two pieces are equal.
pub open spec fn no_dup_pieces(s: Seq<Seq<char>>) -> bool {
    forall|i: int, j: int| 0 <= i < j < s.len() ==> s[i] != s[j]
}

/// Each piece trimmed, empty results dropped, later duplicates dropped:
/// the keyword list that a raw piece list yields.
pub open spec fn tidy_pieces(pieces: Seq<Seq<char>>) -> Seq<Seq<char>>
    decreases pieces.len(),
{
    if pieces.len() == 0 {
        Seq::empty()
    } else {
        let rest = tidy_pieces(pieces.drop_last());
        let t = trim_spec(pieces.last());
        if t.len() == 0 || rest.contains(t) {
            rest
        } else {
            rest.push(t)
        }
    }
}

/// The keyword list of a raw keyword text: split at `|`, `;` or `,`,
/// each piece trimmed, empty pieces dropped, duplicates dropped.
pub open spec fn keyword_list_spec(s: Seq<char>) -> Seq<Seq<char>> {
    tidy_pieces(split_at_spec(s, |c: char| is_kw_sep(c)))
}

/// A tidied piece list holds no duplicates and no empty piece.
pub proof fn lemma_tidy_pieces(pieces: Seq<Seq<char>>)
    ensures
        no_dup_pieces(tidy_pieces(pieces)),
        forall|i: int|
            0 <= i < tidy_pieces(pieces).len() ==> #[trigger] tidy_pieces(pieces)[i].len() > 0,
    decreases pieces.len(),
{
    if pieces.len() > 0 {
        lemma_tidy_pieces(pieces.drop_last());
        let rest = tidy_pieces(pieces.drop_last());
        let t = trim_spec(pieces.last());
        if t.len() == 0 || rest.contains(t) {
        } else {
            assert forall|i: int, j: int|
                0 <= i < j < rest.push(t).len() implies rest.push(t)[i] != rest.push(t)[j] by {
                if j < rest.len() {
                } else {
                    assert(rest.push(t)[j] == t);
                    if i < rest.len() {
                        assert(rest.contains(rest[i]) || !rest.contains(t));
                    }
                }
            }
        }
    }
}

/// Whether two character vectors hold the same characters.
pub fn eq_chars(a: &Vec<char>, b: &Vec<char>) -> (r: bool)
    ensures
        r == (a@ == b@),
{
    if a.len() != b.len() {
        return false;
    }
    let mut i: usize = 0;
    while i < a.len()
        invariant
            0 <= i <= a@.len(),
            a@.len() == b@.len(),
            forall|m: int| 0 <= m < i ==> a@[m] == b@[m],
        decreases a@.len() - i,
    {
        if a[i] != b[i] {
            return false;
        }
        i = i + 1;
    }
    proof {
        assert(a@ =~= b@);
    }
    true
}

/// Whether some piece of `list` equals `x`.
pub fn contains_piece(list: &Vec<Vec<char>>, x: &Vec<char>) -> (r: bool)
    ensures
        r == list.deep_view().contains(x@),
{
    let mut i: usize = 0;
    while i < list.len()
        invariant
            0 <= i <= list@.len(),
            list.deep_view().len() == list@.len(),
            forall|m: int| 0 <= m < i ==> list.deep_view()[m] != x@,
        decreases list@.len() - i,
    {
        proof {
            assert(list.deep_view()[i as int] == list@[i as int]@);
        }
        if eq_chars(&list[i], x) {
            return true;
        }
        i = i + 1;
    }
    false
}

/// The keyword list of the raw keyword text `v`, per `keyword_list_spec`.
pub fn keyword_list(v: &Vec<char>) -> (r: Vec<Vec<char>>)
    ensures
        r.deep_view() == keyword_list_spec(v@),
        no_dup_pieces(r.deep_view()),
{
    let pieces = split_kw_seps(v);
    let ghost all = pieces.deep_view();
    let mut r: Vec<Vec<char>> = Vec::new();
    proof {
        assert(all.take(0) =~= Seq::<Seq<char>>::empty());
    }
    let mut i: usize = 0;
    while i < pieces.len()
        invariant
            0 <= i <= pieces@.len(),
            all == pieces.deep_view(),
            all.len() == pieces@.len(),
            forall|m: int| 0 <= m < all.len() ==> all[m] == #[trigger] pieces@[m]@,
            r.deep_view() == tidy_pieces(all.take(i as int)),
        decreases pieces@.len() - i,
    {
        let t = trim(&pieces[i]);
        proof {
            assert(all.take(i + 1).drop_last() =~= all.take(i as int));
            assert(all.take(i + 1).last() == all[i as int]);
        }
        if t.len() > 0 && !contains_piece(&r, &t) {
            let ghost old_r = r.deep_view();
            r.push(t);
            proof {
                assert(r.deep_view() =~~= old_r.push(trim_spec(all[i as int])));
            }
        }
        i = i + 1;
    }
    proof {
        assert(all.take(i as int) =~= all);
        lemma_tidy_pieces(all);
    }
    r
}

/// Appends every character of `src` to `dst`.
pub fn push_all(dst: &mut Vec<char>, src: &Vec<char>)
    ensures
        final(dst)@ == old(dst)@ + src@,
{
    let mut i: usize = 0;
    while i < src.len()
        invariant
            0 <= i <= src@.len(),
            dst@ == old(dst)@ + src@.take(i as int),
        decreases src@.len() - i,
    {
        dst.push(src[i]);
        proof {
            assert(old(dst)@ + src@.take(i as int).push(src@[i as int]) =~= old(dst)@
                + src@.take(i + 1));
        }
        i = i + 1;
    }
    proof {
        assert(src@.take(src@.len() as int) =~= src@);
    }
}

/// The pieces joined with a single space between neighbours.
pub open spec fn join_space(parts: Seq<Seq<char>>) -> Seq<char>
    decreases parts.len(),
{
    if parts.len() == 0 {
        Seq::empty()
    } else if parts.len() == 1 {
        parts[0]
    } else {
        parts[0] + seq![' '] + join_space(parts.drop_first())
    }
}

/// Joins `parts` with single spaces, per `join_space`.
pub fn join_with_space(parts: &Vec<Vec<char>>) -> (r: Vec<char>)
    ensures
        r@ == join_space(parts.deep_view()),
{
    let ghost all = parts.deep_view();
    let mut r: Vec<char> = Vec::new();
    proof {
        assert(all.skip(0) =~= all);
    }
    let mut i: usize = 0;
    while i < parts.len()
        invariant
            0 <= i <= parts@.len(),
            all == parts.deep_view(),
            all.len() == parts@.len(),
            forall|m: int| 0 <= m < all.len() ==> all[m] == #[trigger] parts@[m]@,
            r@ + join_space(all.skip(i as int)) == join_space(all),
        decreases parts@.len() - i,
    {
        push_all(&mut r, &parts[i]);
        proof {
            assert(all.skip(i as int)[0] == all[i as int]);
        }
        if i + 1 < parts.len() {
            r.push(' ');
            proof {
                assert(all.skip(i as int).drop_first() =~= all.skip(i + 1));
                assert(all.skip(i as int).len() >= 2);
                assert(join_space(all.skip(i as int)) == all[i as int] + seq![' ']
                    + join_space(all.skip(i + 1)));
            }
        } else {
            proof {
                assert(all.skip(i as int).len() == 1);
                assert(join_space(all.skip(i as int)) == all[i as int]);
                assert(all.skip(i + 1) =~= Seq::<Seq<char>>::empty());
            }
        }
        i = i + 1;
    }
    proof {
        if i == all.len() {
            assert(all.skip(i as int) =~= Seq::<Seq<char>>::empty());
        }
        assert(r@ =~= r@ + join_space(all.skip(i as int)));
    }
    r
}

/// The characters of a string slice, as a vector.
pub fn chars_of(s: &str) -> (r: Vec<char>)
    ensures
        r@ == s@,
{
    broadcast use vstd::string::next_postcondition;

    let mut it = s.chars();
    let mut r: Vec<char> = Vec::new();
    loop
        invariant
            it.obeys_prophetic_iter_laws(),
            it.decrease() is Some,
            r@ + it.remaining() == s@,
        decreases it.decrease()->0,
    {
        match it.next() {
            Some(c) => r.push(c),
            None => {
                proof {
                    assert(r@ =~= s@);
                }
                return r;
            },
        }
    }
}

} // verus!
