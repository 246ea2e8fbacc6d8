//! The emoji registry listing: a line-oriented text whose category headers
//! and fully-qualified rows yield the raw rows of the catalog.

use vstd::prelude::*;
use crate::keys::{hex_token_val, is_hex_char};
use crate::text::{
    find_at, is_ws, join_space, matches_at, run_len, split_at_spec, split_ws_spec, trim_spec,
};

verus! {

/// One raw registry row: its codepoint sequence, the default English name
/// from the trailing comment, and the category of the last header seen.
#[derive(Debug)]
pub struct RegistryRow {
    pub codepoints: Vec<u32>,
    pub name_en: String,
    pub category: String,
}

/// Mathematical content of a `RegistryRow`.
pub ghost struct RowView {
    pub codepoints: Seq<u32>,
    pub name_en: Seq<char>,
    pub category: Seq<char>,
}

impl View for RegistryRow {
    type V = RowView;

    open spec fn view(&self) -> RowView {
        RowView {
            codepoints: self.codepoints@,
            name_en: self.name_en@,
            category: self.category@,
        }
    }
}

/// A row whose hexadecimal tokens exceed the codepoint range, at the given
/// zero-based line of the listing.
#[derive(Debug)]
pub struct ParseError {
    pub line: usize,
}

/// The marker that opens a category header line.
pub open spec fn group_marker() -> Seq<char> {
    "# group:"@
}

/// The qualification marker that a row must carry to be taken.
pub open spec fn fq_marker() -> Seq<char> {
    "; fully-qualified"@
}

/// A character the leading codepoint field may hold.
pub open spec fn is_hex_field_char(c: char) -> bool {
    is_hex_char(c) || c == ' '
}

/// Length of the leading run of codepoint-field characters.
pub open spec fn hex_prefix_len(line: Seq<char>) -> int {
    run_len(line, |c: char| !is_hex_field_char(c))
}

/// What one line of the listing means.
pub ghost enum LineSpec {
    /// A category header carrying the trimmed category name.
    Group(Seq<char>),
    /// A fully-qualified row: its codepoints and its default English name.
    Row(Seq<u32>, Seq<char>),
    /// A row whose hexadecimal tokens do not all fit a codepoint.
    Bad,
    /// Any other line.
    Ignored,
}

/// The default English name of a row: the whitespace tokens between the
/// first `#` and the next `#` or the end, less the leading glyph token,
/// joined by single spaces.
pub open spec fn row_name(line: Seq<char>, h1: int) -> Seq<char> {
    let h2 = find_at(line, seq!['#'], h1 + 1);
    let seg = if h2 < 0 {
        line.skip(h1 + 1)
    } else {
        line.subrange(h1 + 1, h2)
    };
    let toks = split_ws_spec(seg);
    if toks.len() == 0 {
        Seq::empty()
    } else {
        join_space(toks.drop_first())
    }
}

/// Classification of one line of the listing.
pub open spec fn line_kind(line: Seq<char>) -> LineSpec {
    if matches_at(line, group_marker(), 0) {
        LineSpec::Group(trim_spec(line.skip(group_marker().len() as int)))
    } else {
        let n = hex_prefix_len(line);
        if n > 0 && matches_at(line, fq_marker(), n) {
            let toks = split_ws_spec(line.take(n));
            if exists|i: int| 0 <= i < toks.len() && hex_token_val(#[trigger] toks[i]) > 0xFFFF_FFFF {
                LineSpec::Bad
            } else {
                let h1 = find_at(line, seq!['#'], 0);
                if h1 < 0 {
                    LineSpec::Ignored
                } else {
                    LineSpec::Row(
                        toks.map_values(|t: Seq<char>| hex_token_val(t) as u32),
                        row_name(line, h1),
                    )
                }
            }
        } else {
            LineSpec::Ignored
        }
    }
}

/// A line with one trailing carriage return removed.
pub open spec fn strip_cr(line: Seq<char>) -> Seq<char> {
    if line.len() > 0 && line.last() == '\r' {
        line.drop_last()
    } else {
        line
    }
}

/// The lines of the listing.
pub open spec fn registry_lines(text: Seq<char>) -> Seq<Seq<char>> {
    split_at_spec(text, |c: char| c == '\n')
}

/// Whether the line is a row whose hexadecimal tokens overflow.
pub open spec fn is_bad_line(line: Seq<char>) -> bool {
    line_kind(strip_cr(line)) is Bad
}

/// The rows of the given lines under the given current category.
pub open spec fn rows_spec(lines: Seq<Seq<char>>, cat: Seq<char>) -> Seq<RowView>
    decreases lines.len(),
{
    if lines.len() == 0 {
        Seq::empty()
    } else {
        match line_kind(strip_cr(lines[0])) {
            LineSpec::Group(g) => rows_spec(lines.drop_first(), g),
            LineSpec::Row(cps, name) => seq![
                RowView { codepoints: cps, name_en: name, category: cat },
            ] + rows_spec(lines.drop_first(), cat),
            LineSpec::Bad => rows_spec(lines.drop_first(), cat),
            LineSpec::Ignored => rows_spec(lines.drop_first(), cat),
        }
    }
}

/// The rows of a whole listing, category headers applied in order; rows
/// before the first header carry the empty category.
pub open spec fn registry_spec(text: Seq<char>) -> Seq<RowView> {
    rows_spec(registry_lines(text), Seq::empty())
}

/// The views of parsed rows.
pub open spec fn row_views(rows: Seq<RegistryRow>) -> Seq<RowView> {
    rows.map_values(|r: RegistryRow| r@)
}

/// The classification of one line, as `line_kind` gives it.
enum LineClass {
    Group(String),
    Row(Vec<u32>, String),
    Bad,
    Ignored,
}

/// Length of the leading codepoint field of the line.
fn scan_hex_field(line: &Vec<char>) -> (n: usize)
    ensures
        n <= line@.len(),
        hex_prefix_len(line@) == n,
        forall|m: int| 0 <= m < n ==> is_hex_field_char(#[trigger] line@[m]),
{
    let ghost stop = |c: char| !is_hex_field_char(c);
    let mut n: usize = 0;
    while n < line.len()
        invariant
            0 <= n <= line@.len(),
            stop == (|c: char| !is_hex_field_char(c)),
            forall|m: int| 0 <= m < n ==> is_hex_field_char(#[trigger] line@[m]),
        decreases line@.len() - n,
    {
        let c = line[n];
        let hex = ('0' <= c && c <= '9') || ('A' <= c && c <= 'F') || c == ' ';
        if !hex {
            proof {
                assert(c == line@[n as int]);
                assert(!is_hex_field_char(line@[n as int]));
                assert forall|m: int| 0 <= m < n implies !stop(line@[m]) by {
                    assert(is_hex_field_char(line@[m]));
                }
                crate::text::lemma_run_len_run(line@, stop, 0, n as int);
                assert(line@.skip(0) =~= line@);
            }
            return n;
        }
        n = n + 1;
    }
    proof {
        assert forall|m: int| 0 <= m < n implies !stop(line@[m]) by {
            assert(is_hex_field_char(line@[m]));
        }
        crate::text::lemma_run_len_run(line@, stop, 0, n as int);
        assert(line@.skip(0) =~= line@);
    }
    n
}

/// Classifies one line, per `line_kind`.
fn classify_line(line: &Vec<char>) -> (r: LineClass)
    ensures
        r matches LineClass::Group(g) ==> line_kind(line@) == LineSpec::Group(g@),
        r matches LineClass::Row(cps, name) ==> line_kind(line@) == LineSpec::Row(cps@, name@),
        r is Bad ==> line_kind(line@) is Bad,
        r is Ignored ==> line_kind(line@) is Ignored,
{
    let gm = crate::text::chars_of("# group:");
    if crate::text::starts_with(line, &gm) {
        let rest = crate::text::subvec(line, gm.len(), line.len());
        proof {
            assert(rest@ =~= line@.skip(group_marker().len() as int));
        }
        let name = crate::text::trim(&rest);
        return LineClass::Group(crate::strings::string_of(&name));
    }
    let n = scan_hex_field(line);
    if n == 0 {
        return LineClass::Ignored;
    }
    let fq = crate::text::chars_of("; fully-qualified");
    if !crate::text::match_at_pos(line, &fq, n) {
        return LineClass::Ignored;
    }
    let field = crate::text::subvec(line, 0, n);
    proof {
        assert(field@ =~= line@.take(n as int));
    }
    let toks = crate::text::split_ws(&field);
    let ghost tv = split_ws_spec(line@.take(n as int));
    proof {
        crate::text::lemma_split_ws_tokens(field@);
        assert(toks.deep_view() == tv);
        assert forall|ti: int, j: int|
            0 <= ti < tv.len() && 0 <= j < tv[ti].len() implies is_hex_char(
            #[trigger] tv[ti][j],
        ) by {
            assert(field@.contains(tv[ti][j]));
            assert(!is_ws(tv[ti][j]));
            let k = choose|k: int| 0 <= k < field@.len() && field@[k] == tv[ti][j];
            assert(field@[k] == line@[k]);
            assert(is_hex_field_char(line@[k]));
        }
    }
    let mut cps: Vec<u32> = Vec::new();
    let mut i: usize = 0;
    while i < toks.len()
        invariant
            0 <= i <= toks@.len(),
            !matches_at(line@, group_marker(), 0),
            1 <= n <= line@.len(),
            hex_prefix_len(line@) == n,
            matches_at(line@, fq_marker(), n as int),
            tv == split_ws_spec(line@.take(n as int)),
            toks.deep_view() == tv,
            toks.deep_view().len() == toks@.len(),
            forall|m: int| 0 <= m < tv.len() ==> #[trigger] tv[m] == toks@[m]@,
            forall|ti: int| 0 <= ti < tv.len() ==> (#[trigger] tv[ti]).len() >= 1,
            forall|ti: int, j: int|
                0 <= ti < tv.len() && 0 <= j < tv[ti].len() ==> is_hex_char(
                    #[trigger] tv[ti][j],
                ),
            cps@.len() == i,
            forall|m: int| 0 <= m < i ==> #[trigger] cps@[m] == hex_token_val(tv[m]) as u32,
            forall|m: int| 0 <= m < i ==> hex_token_val(#[trigger] tv[m]) <= 0xFFFF_FFFF,
        decreases toks@.len() - i,
    {
        proof {
            assert(tv[i as int] == toks@[i as int]@);
        }
        match crate::keys::parse_hex_token(&toks[i]) {
            Some(v) => {
                cps.push(v);
            },
            None => {
                proof {
                    assert(hex_token_val(tv[i as int]) > 0xFFFF_FFFF);
                    assert(line_kind(line@) is Bad);
                }
                return LineClass::Bad;
            },
        }
        i = i + 1;
    }
    proof {
        assert(!(exists|k: int| 0 <= k < tv.len() && hex_token_val(#[trigger] tv[k]) > 0xFFFF_FFFF));
        assert(cps@ =~= tv.map_values(|t: Seq<char>| hex_token_val(t) as u32));
    }
    let hash = crate::text::chars_of("#");
    proof {
        reveal_strlit("#");
        assert(hash@ =~= seq!['#']);
    }
    match crate::text::find_pos(line, &hash, 0) {
        None => LineClass::Ignored,
        Some(h1) => {
            let ll = line.len();
            proof {
                assert(h1 + 1 <= ll);
            }
            let seg = match crate::text::find_pos(line, &hash, h1 + 1) {
                None => {
                    let sv = crate::text::subvec(line, h1 + 1, line.len());
                    proof {
                        assert(sv@ =~= line@.skip(h1 + 1));
                    }
                    sv
                },
                Some(h2) => crate::text::subvec(line, h1 + 1, h2),
            };
            let toks2 = crate::text::split_ws(&seg);
            let name_chars = if toks2.len() == 0 {
                Vec::new()
            } else {
                let mut rest: Vec<Vec<char>> = Vec::new();
                let mut k: usize = 1;
                while k < toks2.len()
                    invariant
                        1 <= k <= toks2@.len(),
                        toks2@.len() >= 1,
                        rest.deep_view() =~= toks2.deep_view().drop_first().take(k - 1),
                    decreases toks2@.len() - k,
                {
                    let ghost old_rest = rest.deep_view();
                    let t = crate::text::subvec(&toks2[k], 0, toks2[k].len());
                    proof {
                        assert(t@ =~= toks2@[k as int]@);
                        assert(toks2.deep_view()[k as int] == toks2@[k as int]@);
                    }
                    rest.push(t);
                    proof {
                        assert(rest.deep_view() =~~= old_rest.push(toks2.deep_view()[k as int]));
                        assert(old_rest.push(toks2.deep_view()[k as int]) =~~= toks2.deep_view()
                            .drop_first().take(k as int));
                    }
                    k = k + 1;
                }
                proof {
                    assert(toks2.deep_view().drop_first().take(toks2@.len() - 1)
                        =~= toks2.deep_view().drop_first());
                }
                crate::text::join_with_space(&rest)
            };
            proof {
                if toks2.deep_view().len() == 0 {
                    assert(row_name(line@, h1 as int) =~= Seq::<char>::empty());
                }
            }
            LineClass::Row(cps, crate::strings::string_of(&name_chars))
        },
    }
}

/// Parses a registry listing into its rows, in listing order. Returns the
/// error naming the first line whose hexadecimal tokens overflow the
/// codepoint range; every other unrecognized line is skipped.
pub fn parse_registry(text: &str) -> (r: Result<Vec<RegistryRow>, ParseError>)
    ensures
        r matches Ok(rows) ==> row_views(rows@) == registry_spec(text@) && (forall|i: int|
            0 <= i < registry_lines(text@).len() ==> !is_bad_line(
                #[trigger] registry_lines(text@)[i],
            )),
        r matches Err(e) ==> e.line < registry_lines(text@).len() && is_bad_line(
            registry_lines(text@)[e.line as int],
        ) && (forall|j: int| 0 <= j < e.line ==> !is_bad_line(#[trigger] registry_lines(text@)[j])),
{
    let chars = crate::text::chars_of(text);
    let lines = crate::text::split_lines(&chars);
    let ghost lv = registry_lines(text@);
    proof {
        assert(lines.deep_view() == lv);
    }
    let mut rows: Vec<RegistryRow> = Vec::new();
    let mut category = String::new();
    let ghost mut cat_now: Seq<char> = Seq::empty();
    proof {
        assert(lv.skip(0) =~= lv);
    }
    let mut i: usize = 0;
    while i < lines.len()
        invariant
            0 <= i <= lines@.len(),
            lv == registry_lines(text@),
            lines.deep_view() == lv,
            lines.deep_view().len() == lines@.len(),
            forall|m: int| 0 <= m < lv.len() ==> #[trigger] lv[m] == lines@[m]@,
            category@ == cat_now,
            row_views(rows@) + rows_spec(lv.skip(i as int), cat_now) == rows_spec(
                lv,
                Seq::empty(),
            ),
            forall|j: int| 0 <= j < i ==> !is_bad_line(#[trigger] lv[j]),
        decreases lines@.len() - i,
    {
        let raw = &lines[i];
        let line = if raw.len() > 0 && raw[raw.len() - 1] == '\r' {
            let t = crate::text::subvec(raw, 0, raw.len() - 1);
            proof {
                assert(t@ =~= strip_cr(raw@));
            }
            t
        } else {
            let t = crate::text::subvec(raw, 0, raw.len());
            proof {
                assert(t@ =~= strip_cr(raw@));
            }
            t
        };
        proof {
            assert(lv.skip(i as int)[0] == lv[i as int]);
            assert(lv.skip(i as int).drop_first() =~= lv.skip(i + 1));
            assert(lv[i as int] == lines@[i as int]@);
        }
        match classify_line(&line) {
            LineClass::Group(g) => {
                proof {
                    cat_now = g@;
                }
                category = g;
            },
            LineClass::Row(cps, name) => {
                let ghost old_rows = row_views(rows@);
                let row = RegistryRow {
                    codepoints: cps,
                    name_en: name,
                    category: category.clone(),
                };
                let ghost rv = row@;
                rows.push(row);
                proof {
                    assert(row_views(rows@) =~= old_rows.push(rv));
                    assert(old_rows.push(rv) + rows_spec(lv.skip(i + 1), cat_now) =~= old_rows + (
                    seq![rv] + rows_spec(lv.skip(i + 1), cat_now)));
                }
            },
            LineClass::Bad => {
                proof {
                    assert(is_bad_line(lv[i as int]));
                }
                return Err(ParseError { line: i });
            },
            LineClass::Ignored => {},
        }
        i = i + 1;
    }
    proof {
        assert(lv.skip(i as int) =~= Seq::<Seq<char>>::empty());
        assert(row_views(rows@) =~= row_views(rows@) + rows_spec(lv.skip(i as int), cat_now));
    }
    Ok(rows)
}

} // verus!
