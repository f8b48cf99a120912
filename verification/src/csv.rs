//! A small comma-separated-values reader: one row per line, each row
//! trimmed and split at every comma.

use vstd::prelude::*;

use crate::parser::chars_of;
use crate::parser::find_char;
use crate::parser::find_char_from;
use crate::parser::lemma_find_char_bounds;
use crate::parser::subvec;
use crate::parser::trim;
use crate::parser::trim_spec;

verus! {

/// The lines of a text, in order; a final line needs no newline, and
/// a trailing newline adds no empty line.
pub open spec fn lines_spec(s: Seq<char>) -> Seq<Seq<char>>
    decreases s.len(),
    via lines_spec_decreases
{
    if s.len() == 0 {
        Seq::empty()
    } else {
        let j = find_char(s, '\n');
        if j == s.len() {
            seq![s]
        } else {
            seq![s.take(j)] + lines_spec(s.skip(j + 1))
        }
    }
}

#[via_fn]
proof fn lines_spec_decreases(s: Seq<char>) {
    if s.len() > 0 {
        lemma_find_char_bounds(s, '\n');
    }
}

/// The pieces of a line split at every comma; an empty line is one
/// empty cell.
pub open spec fn split_commas(s: Seq<char>) -> Seq<Seq<char>>
    decreases s.len(),
    via split_commas_decreases
{
    let j = find_char(s, ',');
    if j == s.len() {
        seq![s]
    } else {
        seq![s.take(j)] + split_commas(s.skip(j + 1))
    }
}

#[via_fn]
proof fn split_commas_decreases(s: Seq<char>) {
    lemma_find_char_bounds(s, ',');
}

/// The rows a text denotes: each line trimmed, then split at commas.
pub open spec fn csv_rows(s: Seq<char>) -> Seq<Seq<Seq<char>>> {
    lines_spec(s).map_values(|l: Seq<char>| split_commas(trim_spec(l)))
}

/// A parsed table: a vector of rows, each row a vector of the column
/// values.
#[derive(Debug)]
pub struct Csv {
    pub entries: Vec<Vec<String>>,
}

/// Relies on std's `FromIterator` for `String`: collecting characters
/// yields exactly those characters.
#[verifier::external_body]
fn string_from_chars(v: &Vec<char>) -> (r: String)
    ensures
        r@ == v@,
{
    v.iter().collect()
}

/// One line split at its commas, as strings.
fn split_row(line: &Vec<char>) -> (r: Vec<String>)
    ensures
        r.deep_view() == split_commas(line@),
{
    let mut row: Vec<String> = Vec::new();
    let mut cpos: usize = 0;
    let mut done = false;
    proof {
        assert(line@.skip(0) =~= line@);
    }
    while !done
        invariant
            cpos <= line@.len(),
            !done ==> split_commas(line@) == row.deep_view() + split_commas(
                line@.skip(cpos as int),
            ),
            done ==> split_commas(line@) == row.deep_view(),
        decreases (if done {
            0int
        } else {
            1int
        }), line@.len() - cpos,
    {
        let j = find_char_from(line, ',', cpos);
        let cell = subvec(line, cpos, j);
        let ghost row_before = row.deep_view();
        row.push(string_from_chars(&cell));
        proof {
            assert(row.deep_view() =~= row_before.push(cell@));
            let suf = line@.skip(cpos as int);
            assert(find_char(suf, ',') == j - cpos);
            if j < line@.len() {
                assert(suf.take(j - cpos) =~= line@.subrange(cpos as int, j as int));
                assert(suf.skip(j - cpos + 1) =~= line@.skip(j + 1));
                assert(split_commas(suf) == seq![cell@] + split_commas(line@.skip(j + 1)));
                assert(row.deep_view() + split_commas(line@.skip(j + 1)) =~= split_commas(line@));
            } else {
                assert(suf =~= cell@);
                assert(split_commas(suf) == seq![cell@]);
                assert(row.deep_view() =~= split_commas(line@));
            }
        }
        if j == line.len() {
            done = true;
        } else {
            cpos = j + 1;
        }
    }
    row
}

impl Csv {
    /// Parse a text into its rows: one row per line, trimmed, split
    /// at every comma.
    pub fn from(s: &str) -> (r: Self)
        ensures
            r.entries.deep_view() == csv_rows(s@),
    {
        let v = chars_of(s);
        let mut entries: Vec<Vec<String>> = Vec::new();
        let mut pos: usize = 0;
        proof {
            assert(v@.skip(0) =~= v@);
            assert(csv_rows(s@) =~= entries.deep_view() + lines_spec(v@.skip(0)).map_values(
                |l: Seq<char>| split_commas(trim_spec(l)),
            ));
        }
        while pos < v.len()
            invariant
                v@ == s@,
                pos <= v@.len(),
                csv_rows(s@) == entries.deep_view() + lines_spec(v@.skip(pos as int)).map_values(
                    |l: Seq<char>| split_commas(trim_spec(l)),
                ),
            decreases v@.len() - pos,
        {
            let j = find_char_from(&v, '\n', pos);
            let raw = subvec(&v, pos, j);
            let line = trim(&raw);
            let row = split_row(&line);
            let ghost entries_before = entries.deep_view();
            let ghost suf = v@.skip(pos as int);
            entries.push(row);
            proof {
                assert(entries.deep_view() =~= entries_before.push(row.deep_view()));
                assert(find_char(suf, '\n') == j - pos);
                let f = |l: Seq<char>| split_commas(trim_spec(l));
                if j < v@.len() {
                    assert(suf.take(j - pos) =~= raw@);
                    assert(suf.skip(j - pos + 1) =~= v@.skip(j + 1));
                    assert(lines_spec(suf) == seq![raw@] + lines_spec(v@.skip(j + 1)));
                    assert(lines_spec(suf).map_values(f) =~= seq![f(raw@)] + lines_spec(
                        v@.skip(j + 1),
                    ).map_values(f));
                    assert(entries.deep_view() + lines_spec(v@.skip(j + 1)).map_values(f)
                        =~= csv_rows(s@));
                } else {
                    assert(suf =~= raw@);
                    assert(lines_spec(suf) == seq![raw@]);
                    assert(lines_spec(suf).map_values(f) =~= seq![f(raw@)]);
                    assert(v@.skip(v@.len() as int) =~= Seq::<char>::empty());
                    assert(lines_spec(v@.skip(v@.len() as int)).map_values(f)
                        =~= Seq::<Seq<Seq<char>>>::empty());
                    assert(entries.deep_view() =~= csv_rows(s@));
                }
            }
            if j == v.len() {
                pos = v.len();
            } else {
                pos = j + 1;
            }
        }
        proof {
            assert(v@.skip(v@.len() as int) =~= Seq::<char>::empty());
            assert(lines_spec(v@.skip(pos as int)).map_values(
                |l: Seq<char>| split_commas(trim_spec(l)),
            ) =~= Seq::<Seq<Seq<char>>>::empty());
            assert(entries.deep_view() =~= csv_rows(s@));
        }
        Csv { entries }
    }
}

} // verus!
