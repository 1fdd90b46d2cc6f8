//! The saved-state-file scanner. The file packs several records on a line, so
//! the text is cut at commas rather than at line ends. A fragment may carry a
//! name (an opening brace, a quoted `"name"` key and a quoted value), a value
//! (a quoted `"value"` key, a bare numeric token and a closing brace), or
//! both. The scanner keeps the same two-slot discipline as the definition
//! scanner — overwrite on a new name, discard a value with no pending name,
//! emit and clear when both slots hold — with one more rule: a value token
//! that is not numeric leaves the record unemitted instead of failing.

use vstd::prelude::*;
use crate::text::{
    chars_vec, commas_vec, find_first, find_last_below, first_match_from, last_index_below,
    lemma_first_match_from, normalized, normalized_string_of_range, opt_chars_view, opt_str_view,
    seq_views, split_commas, starts_with, subvec,
};
use crate::value::{parse_value, parse_value_token, RawValue};

verus! {

/// One saved entry as scanned: the normalized name and the raw numeric value
/// last recorded for it, its true type still unknown.
#[derive(Debug)]
pub struct SavedParameter {
    pub name: String,
    pub raw_value: RawValue,
}

/// The pairs a sequence of scanned saved entries denotes.
pub open spec fn saved_view(s: Seq<SavedParameter>) -> Seq<(Seq<char>, RawValue)> {
    s.map_values(|p: SavedParameter| (p.name@, p.raw_value))
}

/// The key that opens a saved record's name.
pub open spec fn saved_name_key() -> Seq<char> {
    seq!['{', '"', 'n', 'a', 'm', 'e', '"', ':', '"']
}

/// The key that opens a saved record's value.
pub open spec fn saved_value_key() -> Seq<char> {
    seq!['"', 'v', 'a', 'l', 'u', 'e', '"', ':']
}

/// The raw name captured from a fragment: after the first occurrence of the
/// name key, everything up to the last `'\"'` of the fragment. At least one
/// character is captured.
pub open spec fn saved_name_capture(frag: Seq<char>) -> Option<Seq<char>> {
    match first_match_from(frag, saved_name_key(), 0) {
        Some(i) => {
            let rest = frag.skip(i + 9);
            match last_index_below(rest, '"', rest.len() as int) {
                Some(j) => Some(rest.take(j)),
                None => None,
            }
        },
        None => None,
    }
}

/// The normalized name a fragment carries, if any.
pub open spec fn saved_name_of(frag: Seq<char>) -> Option<Seq<char>> {
    match saved_name_capture(frag) {
        Some(c) => Some(normalized(c)),
        None => None,
    }
}

/// The value token captured from a fragment: after the first occurrence of
/// the value key, everything up to the last `'}'` of the fragment. At least
/// one character is captured; whether it is numeric is decided later.
pub open spec fn saved_value_capture(frag: Seq<char>) -> Option<Seq<char>> {
    match first_match_from(frag, saved_value_key(), 0) {
        Some(i) => {
            let rest = frag.skip(i + 8);
            match last_index_below(rest, '}', rest.len() as int) {
                Some(j) => Some(rest.take(j)),
                None => None,
            }
        },
        None => None,
    }
}

/// One scanner step over a fragment: a captured name overwrites the name
/// slot, a captured token overwrites the token slot, a token with no pending
/// name is discarded, and when a pending name stands beside a token that
/// parses as a number one entry is emitted and both slots clear. A token that
/// does not parse leaves both slots as they are.
pub open spec fn saved_step(
    name: Option<Seq<char>>,
    tok: Option<Seq<char>>,
    out: Seq<(Seq<char>, RawValue)>,
    frag: Seq<char>,
) -> (Option<Seq<char>>, Option<Seq<char>>, Seq<(Seq<char>, RawValue)>) {
    let name1 = match saved_name_of(frag) {
        Some(n) => Some(n),
        None => name,
    };
    let tok1 = match saved_value_capture(frag) {
        Some(t) => Some(t),
        None => tok,
    };
    let tok2 = if name1 is None {
        None
    } else {
        tok1
    };
    let value = match tok2 {
        Some(t) => parse_value(t),
        None => None,
    };
    match (name1, value) {
        (Some(n), Some(v)) => (None, None, out.push((n, v))),
        _ => (name1, tok2, out),
    }
}

/// The scanner state after the first `n` fragments.
pub open spec fn saved_scan(frags: Seq<Seq<char>>, n: int) -> (
    Option<Seq<char>>,
    Option<Seq<char>>,
    Seq<(Seq<char>, RawValue)>,
)
    decreases n,
{
    if n <= 0 {
        (None, None, Seq::empty())
    } else {
        let prev = saved_scan(frags, n - 1);
        saved_step(prev.0, prev.1, prev.2, frags[n - 1])
    }
}

/// The saved entries the whole text yields, in file order; slots left pending
/// at the end of input are dropped.
pub open spec fn scan_saved(text: Seq<char>) -> Seq<(Seq<char>, RawValue)> {
    saved_scan(split_commas(text), split_commas(text).len() as int).2
}

/// Matches a fragment's name, returning it normalized.
pub fn match_saved_name(frag: &Vec<char>) -> (r: Option<String>)
    ensures
        match r {
            Some(n) => saved_name_of(frag@) == Some(n@),
            None => saved_name_of(frag@) is None,
        },
{
    let key = vec!['{', '"', 'n', 'a', 'm', 'e', '"', ':', '"'];
    assert(key@ =~= saved_name_key());
    match find_first(frag, &key) {
        Some(i) => {
            proof {
                lemma_first_match_from(frag@, key@, 0);
            }
            let n = frag.len();
            let rest = subvec(frag, i + 9, n);
            assert(rest@ =~= frag@.skip(i + 9 as int));
            match find_last_below(&rest, '"', rest.len()) {
                Some(j) => {
                    assert(rest@.take(j as int) =~= rest@.subrange(0, j as int));
                    Some(normalized_string_of_range(&rest, 0, j))
                },
                None => None,
            }
        },
        None => None,
    }
}

/// Matches a fragment's value token, returning it uninterpreted.
pub fn match_saved_value(frag: &Vec<char>) -> (r: Option<Vec<char>>)
    ensures
        match r {
            Some(t) => saved_value_capture(frag@) == Some(t@),
            None => saved_value_capture(frag@) is None,
        },
{
    let key = vec!['"', 'v', 'a', 'l', 'u', 'e', '"', ':'];
    assert(key@ =~= saved_value_key());
    match find_first(frag, &key) {
        Some(i) => {
            proof {
                lemma_first_match_from(frag@, key@, 0);
            }
            let n = frag.len();
            let rest = subvec(frag, i + 8, n);
            assert(rest@ =~= frag@.skip(i + 8 as int));
            match find_last_below(&rest, '}', rest.len()) {
                Some(j) => {
                    assert(rest@.take(j as int) =~= rest@.subrange(0, j as int));
                    Some(subvec(&rest, 0, j))
                },
                None => None,
            }
        },
        None => None,
    }
}

impl SavedParameter {
    /// Scans the text of a saved-state file into its saved entries, in file
    /// order. Malformed fragments — a missing key, a value with no pending
    /// name, a token that is not numeric — are skipped, never an error.
    pub fn from_file(contents: &str) -> (r: Vec<SavedParameter>)
        ensures
            saved_view(r@) == scan_saved(contents@),
    {
        let cs = chars_vec(contents);
        let frags = commas_vec(&cs);
        let ghost fs = seq_views(frags@);
        let mut out: Vec<SavedParameter> = Vec::new();
        let mut pending_name: Option<String> = None;
        let mut pending_tok: Option<Vec<char>> = None;
        let mut i: usize = 0;
        while i < frags.len()
            invariant
                i <= frags@.len(),
                fs == seq_views(frags@),
                fs == split_commas(contents@),
                saved_scan(fs, i as int) == (
                    opt_str_view(pending_name),
                    opt_chars_view(pending_tok),
                    saved_view(out@),
                ),
            decreases frags@.len() - i,
        {
            let frag = &frags[i];
            assert(fs[i as int] == frag@);
            if let Some(n) = match_saved_name(frag) {
                pending_name = Some(n);
            }
            if let Some(t) = match_saved_value(frag) {
                pending_tok = Some(t);
            }
            if pending_name.is_none() {
                pending_tok = None;
            }
            let value: Option<RawValue> = match &pending_tok {
                Some(t) => parse_value_token(t),
                None => None,
            };
            match value {
                Some(v) => {
                    match pending_name {
                        Some(n) => {
                            let p = SavedParameter { name: n, raw_value: v };
                            let ghost rec = (p.name@, p.raw_value);
                            out.push(p);
                            pending_name = None;
                            pending_tok = None;
                            assert(saved_view(out@) =~= saved_view(out@.drop_last()).push(rec));
                        },
                        None => {
                            pending_name = None;
                        },
                    }
                },
                None => {},
            }
            assert(saved_scan(fs, i + 1 as int) == (
                opt_str_view(pending_name),
                opt_chars_view(pending_tok),
                saved_view(out@),
            ));
            i = i + 1;
        }
        out
    }
}

/// The invariant every reachable scanner state keeps: a kept token always
/// sits beside a pending name, and it never parses as a number — a parseable
/// token is consumed the moment a name stands beside it, so a stale token can
/// never pair with a name that arrives later.
pub open spec fn saved_state_inv(name: Option<Seq<char>>, tok: Option<Seq<char>>) -> bool {
    tok is Some ==> name is Some && parse_value(tok.unwrap()) is None
}

/// One step preserves the state invariant, whatever the fragment holds.
pub proof fn lemma_saved_step_preserves_inv(
    name: Option<Seq<char>>,
    tok: Option<Seq<char>>,
    out: Seq<(Seq<char>, RawValue)>,
    frag: Seq<char>,
)
    requires
        saved_state_inv(name, tok),
    ensures
        saved_state_inv(
            saved_step(name, tok, out, frag).0,
            saved_step(name, tok, out, frag).1,
        ),
{
}

/// The scanner's state after any number of fragments satisfies the invariant.
pub proof fn lemma_saved_scan_inv(frags: Seq<Seq<char>>, n: int)
    ensures
        saved_state_inv(saved_scan(frags, n).0, saved_scan(frags, n).1),
    decreases n,
{
    if n > 0 {
        lemma_saved_scan_inv(frags, n - 1);
        let prev = saved_scan(frags, n - 1);
        lemma_saved_step_preserves_inv(prev.0, prev.1, prev.2, frags[n - 1]);
    }
}

/// A fragment that matches neither pattern is a no-op in every reachable
/// state: unrecognized fragments are skipped without disturbing the scanner.
pub proof fn lemma_unrecognized_fragment_is_noop(
    name: Option<Seq<char>>,
    tok: Option<Seq<char>>,
    out: Seq<(Seq<char>, RawValue)>,
    frag: Seq<char>,
)
    requires
        saved_state_inv(name, tok),
        saved_name_capture(frag) is None,
        saved_value_capture(frag) is None,
    ensures
        saved_step(name, tok, out, frag) == (name, tok, out),
{
}

/// A fragment whose value token is not numeric emits nothing — the record is
/// skipped, not an error — and it does not block what follows: the next
/// complete record, a name fragment then a value fragment whose token parses,
/// is still emitted exactly once.
pub proof fn lemma_malformed_value_not_blocking(
    name: Option<Seq<char>>,
    tok: Option<Seq<char>>,
    out: Seq<(Seq<char>, RawValue)>,
    bad: Seq<char>,
    f1: Seq<char>,
    f2: Seq<char>,
    n1: Seq<char>,
    t2: Seq<char>,
    v: RawValue,
)
    requires
        saved_state_inv(name, tok),
        match saved_value_capture(bad) {
            Some(t) => parse_value(t) is None,
            None => true,
        },
        saved_name_of(f1) == Some(n1),
        saved_value_capture(f1) is None,
        saved_name_capture(f2) is None,
        saved_value_capture(f2) == Some(t2),
        parse_value(t2) == Some(v),
    ensures
        ({
            let st1 = saved_step(name, tok, out, bad);
            let st2 = saved_step(st1.0, st1.1, st1.2, f1);
            let st3 = saved_step(st2.0, st2.1, st2.2, f2);
            &&& st1.2 == out
            &&& st2.2 == out
            &&& st3.2 == out.push((n1, v))
            &&& st3.0 is None
            &&& st3.1 is None
        }),
{
}

} // verus!
