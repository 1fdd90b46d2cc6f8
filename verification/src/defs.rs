//! The definition-file scanner. The file approximates one record by two
//! indented lines, a `"name"` line followed — not necessarily immediately —
//! by a `"type"` line. The scanner walks the physical lines with two optional
//! slots and emits a parameter exactly when a type line arrives while a name
//! is pending; a type with no pending name is discarded, a later name
//! overwrites an unconsumed one, and unpaired slots at the end of input are
//! dropped. Unrecognized lines change nothing.

use vstd::prelude::*;
use crate::text::{
    chars_vec, find_last_below, find_last_quote_comma, is_space_char, last_index_below,
    last_quote_comma, leading_nonspaces, leading_nonspaces_at, leading_spaces, leading_spaces_at,
    lemma_leading_spaces, lines_vec, normalized, normalized_string_of_range, opt_str_view, seq_views,
    split_lines, starts_with, starts_with_at, string_of_range, subvec,
};

verus! {

/// One parameter definition as scanned: the normalized name and the declared
/// type string, still uninterpreted.
#[derive(Debug)]
pub struct OscConfigParameter {
    pub name: String,
    pub ptype: String,
}

/// The pairs a sequence of scanned definitions denotes.
pub open spec fn defs_view(s: Seq<OscConfigParameter>) -> Seq<(Seq<char>, Seq<char>)> {
    s.map_values(|p: OscConfigParameter| (p.name@, p.ptype@))
}

/// The key that a definition name line carries after its indentation.
pub open spec fn def_name_key() -> Seq<char> {
    seq!['"', 'n', 'a', 'm', 'e', '"', ':', ' ', '"']
}

/// The key that a definition type line carries after its indentation.
pub open spec fn def_type_key() -> Seq<char> {
    seq!['"', 't', 'y', 'p', 'e', '"', ':', ' ', '"']
}

/// The raw name captured from a line: after at least one character of
/// indentation and the name key, everything up to the last `'\"'` that is
/// immediately followed by a comma. At least one character is captured.
pub open spec fn def_name_capture(line: Seq<char>) -> Option<Seq<char>> {
    let k = leading_spaces(line);
    if k >= 1 && starts_with(line.skip(k), def_name_key()) {
        let rest = line.skip(k + 9);
        match last_quote_comma(rest) {
            Some(j) => Some(rest.take(j)),
            None => None,
        }
    } else {
        None
    }
}

/// The normalized name a definition line carries, if any.
pub open spec fn def_name_of(line: Seq<char>) -> Option<Seq<char>> {
    match def_name_capture(line) {
        Some(c) => Some(normalized(c)),
        None => None,
    }
}

/// The type token captured from a line: after at least one character of
/// indentation and the type key, a non-empty run of non-whitespace characters
/// up to a closing `'\"'` inside that run.
pub open spec fn def_type_capture(line: Seq<char>) -> Option<Seq<char>> {
    let k = leading_spaces(line);
    if k >= 1 && starts_with(line.skip(k), def_type_key()) {
        let rest = line.skip(k + 9);
        match last_index_below(rest, '"', leading_nonspaces(rest)) {
            Some(j) => Some(rest.take(j)),
            None => None,
        }
    } else {
        None
    }
}

/// One scanner step: a name line fills (or overwrites) the pending name; a
/// type line then either pairs with the pending name and emits one record,
/// clearing the slot, or — with no name pending — is discarded.
pub open spec fn def_step(
    pending: Option<Seq<char>>,
    out: Seq<(Seq<char>, Seq<char>)>,
    line: Seq<char>,
) -> (Option<Seq<char>>, Seq<(Seq<char>, Seq<char>)>) {
    let pending1 = match def_name_of(line) {
        Some(n) => Some(n),
        None => pending,
    };
    match def_type_capture(line) {
        Some(t) => match pending1 {
            Some(n) => (None, out.push((n, t))),
            None => (None, out),
        },
        None => (pending1, out),
    }
}

/// The scanner state after the first `n` lines: the pending name and the
/// records emitted so far.
pub open spec fn def_scan(lines: Seq<Seq<char>>, n: int) -> (
    Option<Seq<char>>,
    Seq<(Seq<char>, Seq<char>)>,
)
    decreases n,
{
    if n <= 0 {
        (None, Seq::empty())
    } else {
        let prev = def_scan(lines, n - 1);
        def_step(prev.0, prev.1, lines[n - 1])
    }
}

/// The definition records the whole text yields, in file order; a pending
/// name left at the end of input is dropped.
pub open spec fn scan_definitions(text: Seq<char>) -> Seq<(Seq<char>, Seq<char>)> {
    def_scan(split_lines(text), split_lines(text).len() as int).1
}

/// Matches a definition name line, returning the normalized captured name.
pub fn match_def_name(line: &Vec<char>) -> (r: Option<String>)
    ensures
        match r {
            Some(n) => def_name_of(line@) == Some(n@),
            None => def_name_of(line@) is None,
        },
{
    proof {
        lemma_leading_spaces(line@);
    }
    let k = leading_spaces_at(line);
    if k == 0 {
        return None;
    }
    let key = vec!['"', 'n', 'a', 'm', 'e', '"', ':', ' ', '"'];
    assert(key@ =~= def_name_key());
    if !starts_with_at(line, k, &key) {
        return None;
    }
    let n = line.len();
    assert(line@.skip(k as int).len() == line@.len() - k);
    assert(k + 9 <= n);
    let start = k + 9;
    let rest = subvec(line, start, n);
    assert(rest@ =~= line@.skip(k + 9 as int));
    match find_last_quote_comma(&rest) {
        Some(j) => {
            assert(rest@.take(j as int) =~= rest@.subrange(0, j as int));
            Some(normalized_string_of_range(&rest, 0, j))
        },
        None => None,
    }
}

/// Matches a definition type line, returning the captured type token.
pub fn match_def_type(line: &Vec<char>) -> (r: Option<String>)
    ensures
        match r {
            Some(t) => def_type_capture(line@) == Some(t@),
            None => def_type_capture(line@) is None,
        },
{
    proof {
        lemma_leading_spaces(line@);
    }
    let k = leading_spaces_at(line);
    if k == 0 {
        return None;
    }
    let key = vec!['"', 't', 'y', 'p', 'e', '"', ':', ' ', '"'];
    assert(key@ =~= def_type_key());
    if !starts_with_at(line, k, &key) {
        return None;
    }
    let n = line.len();
    assert(line@.skip(k as int).len() == line@.len() - k);
    assert(k + 9 <= n);
    let start = k + 9;
    let rest = subvec(line, start, n);
    assert(rest@ =~= line@.skip(k + 9 as int));
    let m = leading_nonspaces_at(&rest, 0);
    assert(rest@.skip(0) =~= rest@);
    match find_last_below(&rest, '"', m) {
        Some(j) => {
            assert(rest@.take(j as int) =~= rest@.subrange(0, j as int));
            Some(string_of_range(&rest, 0, j))
        },
        None => None,
    }
}

/// Scans the text of a parameter-definition file into its definition records,
/// in file order. Malformed or incomplete fragments are skipped, never an
/// error.
pub fn get_avatar_params(contents: &str) -> (r: Vec<OscConfigParameter>)
    ensures
        defs_view(r@) == scan_definitions(contents@),
{
    let cs = chars_vec(contents);
    let lines = lines_vec(&cs);
    let ghost ls = seq_views(lines@);
    let mut out: Vec<OscConfigParameter> = Vec::new();
    let mut pending: Option<String> = None;
    let mut i: usize = 0;
    while i < lines.len()
        invariant
            i <= lines@.len(),
            ls == seq_views(lines@),
            ls == split_lines(contents@),
            def_scan(ls, i as int) == (opt_str_view(pending), defs_view(out@)),
        decreases lines@.len() - i,
    {
        let line = &lines[i];
        assert(ls[i as int] == line@);
        let ghost prev = (opt_str_view(pending), defs_view(out@));
        if let Some(n) = match_def_name(line) {
            pending = Some(n);
        }
        if let Some(t) = match_def_type(line) {
            match pending {
                Some(n) => {
                    let p = OscConfigParameter { name: n, ptype: t };
                    let ghost rec = (p.name@, p.ptype@);
                    out.push(p);
                    pending = None;
                    assert(defs_view(out@) =~= defs_view(out@.drop_last()).push(rec));
                },
                None => {},
            }
        }
        assert(def_scan(ls, i + 1 as int) == (opt_str_view(pending), defs_view(out@)));
        i = i + 1;
    }
    out
}

/// A line never matches both patterns: the name key and the type key differ
/// right after the indentation.
pub proof fn lemma_name_type_exclusive(line: Seq<char>)
    ensures
        def_name_capture(line) is Some ==> def_type_capture(line) is None,
{
    let k = leading_spaces(line);
    if def_name_capture(line) is Some && def_type_capture(line) is Some {
        assert(line.skip(k).take(9)[1] == def_name_key()[1]);
        assert(line.skip(k).take(9)[1] == def_type_key()[1]);
        assert(false);
    }
}

/// A type line arriving while no name is pending emits nothing and leaves the
/// scanner still without a pending name: a type fragment preceding any name
/// fragment, or following a flush, never by itself produces a definition.
pub proof fn lemma_type_without_pending_name(out: Seq<(Seq<char>, Seq<char>)>, line: Seq<char>)
    requires
        def_name_of(line) is None,
    ensures
        def_step(None, out, line).1 == out,
        def_step(None, out, line).0 is None,
{
}

/// A line that matches neither pattern is a no-op: unrecognized lines are
/// skipped without disturbing the scanner.
pub proof fn lemma_unrecognized_line_is_noop(
    pending: Option<Seq<char>>,
    out: Seq<(Seq<char>, Seq<char>)>,
    line: Seq<char>,
)
    requires
        def_name_of(line) is None,
        def_type_capture(line) is None,
    ensures
        def_step(pending, out, line) == (pending, out),
{
}

proof fn lemma_scan_pairs_upto(
    lines: Seq<Seq<char>>,
    recs: Seq<(Seq<char>, Seq<char>)>,
    n: int,
)
    requires
        lines.len() == 2 * recs.len(),
        forall|k: int|
            0 <= k < recs.len() ==> def_name_of(#[trigger] lines[2 * k]) == Some(recs[k].0),
        forall|k: int|
            0 <= k < recs.len() ==> def_type_capture(#[trigger] lines[2 * k + 1]) == Some(
                recs[k].1,
            ),
        0 <= n <= recs.len(),
    ensures
        def_scan(lines, 2 * n) == (None::<Seq<char>>, recs.take(n)),
    decreases n,
{
    if n == 0 {
        assert(recs.take(0) =~= Seq::<(Seq<char>, Seq<char>)>::empty());
    } else {
        lemma_scan_pairs_upto(lines, recs, n - 1);
        let name_line = lines[2 * (n - 1)];
        let type_line = lines[2 * (n - 1) + 1];
        lemma_name_type_exclusive(name_line);
        lemma_name_type_exclusive(type_line);
        assert(def_scan(lines, 2 * n - 1) == def_step(
            None,
            recs.take(n - 1),
            name_line,
        ));
        assert(def_scan(lines, 2 * n) == def_step(
            Some(recs[n - 1].0),
            recs.take(n - 1),
            type_line,
        ));
        assert(recs.take(n) =~= recs.take(n - 1).push(recs[n - 1]));
    }
}

/// For well-formed definition input — each record a name line followed by a
/// type line, record after record — the scanner emits exactly one definition
/// per pair, in file order, and ends with nothing pending.
pub proof fn lemma_scanner_emits_pairs_in_order(
    lines: Seq<Seq<char>>,
    recs: Seq<(Seq<char>, Seq<char>)>,
)
    requires
        lines.len() == 2 * recs.len(),
        forall|k: int|
            0 <= k < recs.len() ==> def_name_of(#[trigger] lines[2 * k]) == Some(recs[k].0),
        forall|k: int|
            0 <= k < recs.len() ==> def_type_capture(#[trigger] lines[2 * k + 1]) == Some(
                recs[k].1,
            ),
    ensures
        def_scan(lines, lines.len() as int) == (None::<Seq<char>>, recs),
{
    lemma_scan_pairs_upto(lines, recs, recs.len() as int);
    assert(recs.take(recs.len() as int) =~= recs);
}

} // verus!
