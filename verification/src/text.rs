//! Character and text utilities shared by both scanners: whitespace and digit
//! classification, space-to-underscore normalization of parameter names, and
//! the two ways the input files are cut into fragments (physical lines for the
//! definition file, comma-separated pieces for the saved-state file).

use vstd::prelude::*;
use vstd::string::StrSliceExecFns;

verus! {

/// The characters treated as horizontal whitespace when a line's leading
/// indentation is measured. Newlines never occur inside a line because the
/// definition file is split on them first.
pub open spec fn is_space_char(c: char) -> bool {
    c == ' ' || c == '\t' || c == '\r' || c == '\u{b}' || c == '\u{c}'
}

pub fn is_space(c: char) -> (r: bool)
    ensures
        r == is_space_char(c),
{
    c == ' ' || c == '\t' || c == '\r' || c == '\u{b}' || c == '\u{c}'
}

/// A parameter name read from either file has every space replaced by an
/// underscore, so that it forms one addressable token.
pub open spec fn normalized(s: Seq<char>) -> Seq<char> {
    s.map_values(|c: char| if c == ' ' { '_' } else { c })
}

/// Spaces become underscores and every other character is kept, so a
/// normalized name contains no space at all.
pub proof fn lemma_normalized_chars(s: Seq<char>)
    ensures
        normalized(s).len() == s.len(),
        forall|i: int|
            0 <= i < s.len() ==> normalized(s)[i] == (if s[i] == ' ' {
                '_'
            } else {
                s[i]
            }),
        forall|i: int| 0 <= i < s.len() ==> normalized(s)[i] != ' ',
{
}

/// The characters of `s`, in order, as a vector.
pub fn chars_vec(s: &str) -> (v: Vec<char>)
    ensures
        v@ == s@,
{
    let n = s.unicode_len();
    let mut v: Vec<char> = Vec::new();
    let mut i: usize = 0;
    while i < n
        invariant
            i <= n,
            n == s@.len(),
            v@ == s@.take(i as int),
        decreases n - i,
    {
        let c = s.get_char(i);
        v.push(c);
        assert(s@.take(i + 1 as int) =~= s@.take(i as int).push(c));
        i = i + 1;
    }
    assert(s@.take(n as int) =~= s@);
    v
}

/// Relies on String::push: appends exactly the given character to the end of
/// the string.
#[verifier::external_body]
fn push_char(s: &mut String, c: char)
    ensures
        final(s)@ == old(s)@.push(c),
{
    s.push(c);
}

/// The characters `v[from..to]` as a string.
pub fn string_of_range(v: &Vec<char>, from: usize, to: usize) -> (r: String)
    requires
        from <= to <= v@.len(),
    ensures
        r@ == v@.subrange(from as int, to as int),
{
    let mut r = String::new();
    let mut i: usize = from;
    while i < to
        invariant
            from <= i <= to <= v@.len(),
            r@ == v@.subrange(from as int, i as int),
        decreases to - i,
    {
        push_char(&mut r, v[i]);
        assert(v@.subrange(from as int, i + 1 as int) =~= v@.subrange(from as int, i as int).push(
            v@[i as int],
        ));
        i = i + 1;
    }
    r
}

/// The characters `v[from..to]`, normalized, as a string.
pub fn normalized_string_of_range(v: &Vec<char>, from: usize, to: usize) -> (r: String)
    requires
        from <= to <= v@.len(),
    ensures
        r@ == normalized(v@.subrange(from as int, to as int)),
{
    let mut r = String::new();
    let mut i: usize = from;
    while i < to
        invariant
            from <= i <= to <= v@.len(),
            r@ == normalized(v@.subrange(from as int, i as int)),
        decreases to - i,
    {
        let c = if v[i] == ' ' {
            '_'
        } else {
            v[i]
        };
        push_char(&mut r, c);
        assert(normalized(v@.subrange(from as int, i + 1 as int)) =~= normalized(
            v@.subrange(from as int, i as int),
        ).push(c));
        i = i + 1;
    }
    r
}

/// A line terminated by `"\r\n"` loses the carriage return; one terminated by
/// a bare `"\n"` (or by the end of input) is kept as it stands.
pub open spec fn strip_cr(l: Seq<char>) -> Seq<char> {
    if l.len() > 0 && l.last() == '\r' {
        l.drop_last()
    } else {
        l
    }
}

/// The physical lines of `s` still to the right of an accumulated current
/// line `cur`: lines end at `'\n'`, a final line needs no terminator, and a
/// trailing empty piece after a final `'\n'` is not a line.
pub open spec fn split_lines_rec(s: Seq<char>, cur: Seq<char>) -> Seq<Seq<char>>
    decreases s.len(),
{
    if s.len() == 0 {
        if cur.len() == 0 {
            Seq::empty()
        } else {
            seq![cur]
        }
    } else if s[0] == '\n' {
        seq![strip_cr(cur)] + split_lines_rec(s.drop_first(), Seq::empty())
    } else {
        split_lines_rec(s.drop_first(), cur.push(s[0]))
    }
}

/// The physical lines of `s`.
pub open spec fn split_lines(s: Seq<char>) -> Seq<Seq<char>> {
    split_lines_rec(s, Seq::empty())
}

/// The pieces of `s` between commas. Unlike lines, empty pieces are kept and
/// an empty input is one empty piece, so every character position of `s`
/// belongs to exactly one piece.
pub open spec fn split_commas_rec(s: Seq<char>, cur: Seq<char>) -> Seq<Seq<char>>
    decreases s.len(),
{
    if s.len() == 0 {
        seq![cur]
    } else if s[0] == ',' {
        seq![cur] + split_commas_rec(s.drop_first(), Seq::empty())
    } else {
        split_commas_rec(s.drop_first(), cur.push(s[0]))
    }
}

/// The pieces of `s` between commas.
pub open spec fn split_commas(s: Seq<char>) -> Seq<Seq<char>> {
    split_commas_rec(s, Seq::empty())
}

/// The views of a sequence of character vectors.
pub open spec fn seq_views(vs: Seq<Vec<char>>) -> Seq<Seq<char>> {
    vs.map_values(|v: Vec<char>| v@)
}

/// Splits `s` into its physical lines.
pub fn lines_vec(s: &Vec<char>) -> (r: Vec<Vec<char>>)
    ensures
        seq_views(r@) == split_lines(s@),
{
    let mut r: Vec<Vec<char>> = Vec::new();
    let mut cur: Vec<char> = Vec::new();
    let mut i: usize = 0;
    assert(s@.skip(0) =~= s@);
    assert(seq_views(r@) + split_lines_rec(s@, cur@) =~= split_lines(s@));
    while i < s.len()
        invariant
            i <= s@.len(),
            split_lines(s@) == seq_views(r@) + split_lines_rec(s@.skip(i as int), cur@),
        decreases s@.len() - i,
    {
        let c = s[i];
        assert(s@.skip(i as int).drop_first() =~= s@.skip(i + 1 as int));
        if c == '\n' {
            let ghost line = strip_cr(cur@);
            if cur.len() > 0 && cur[cur.len() - 1] == '\r' {
                cur.pop();
            }
            assert(cur@ == line);
            r.push(cur);
            cur = Vec::new();
            assert(seq_views(r@) =~= seq_views(r@.drop_last()).push(line));
            assert(seq_views(r@) + split_lines_rec(s@.skip(i + 1 as int), cur@) =~= seq_views(
                r@.drop_last(),
            ) + (seq![line] + split_lines_rec(s@.skip(i + 1 as int), Seq::empty())));
        } else {
            cur.push(c);
        }
        i = i + 1;
    }
    assert(s@.skip(s@.len() as int) =~= Seq::<char>::empty());
    if cur.len() > 0 {
        let ghost line = cur@;
        r.push(cur);
        assert(seq_views(r@) =~= seq_views(r@.drop_last()).push(line));
        assert(seq_views(r@.drop_last()) + seq![line] =~= seq_views(r@));
    }
    assert(seq_views(r@) =~= split_lines(s@));
    r
}

/// Splits `s` into its comma-separated pieces.
pub fn commas_vec(s: &Vec<char>) -> (r: Vec<Vec<char>>)
    ensures
        seq_views(r@) == split_commas(s@),
{
    let mut r: Vec<Vec<char>> = Vec::new();
    let mut cur: Vec<char> = Vec::new();
    let mut i: usize = 0;
    assert(s@.skip(0) =~= s@);
    assert(seq_views(r@) + split_commas_rec(s@, cur@) =~= split_commas(s@));
    while i < s.len()
        invariant
            i <= s@.len(),
            split_commas(s@) == seq_views(r@) + split_commas_rec(s@.skip(i as int), cur@),
        decreases s@.len() - i,
    {
        let c = s[i];
        assert(s@.skip(i as int).drop_first() =~= s@.skip(i + 1 as int));
        if c == ',' {
            let ghost piece = cur@;
            r.push(cur);
            cur = Vec::new();
            assert(seq_views(r@) =~= seq_views(r@.drop_last()).push(piece));
            assert(seq_views(r@) + split_commas_rec(s@.skip(i + 1 as int), cur@) =~= seq_views(
                r@.drop_last(),
            ) + (seq![piece] + split_commas_rec(s@.skip(i + 1 as int), Seq::empty())));
        } else {
            cur.push(c);
        }
        i = i + 1;
    }
    assert(s@.skip(s@.len() as int) =~= Seq::<char>::empty());
    let ghost piece = cur@;
    r.push(cur);
    assert(seq_views(r@) =~= seq_views(r@.drop_last()).push(piece));
    assert(seq_views(r@.drop_last()) + seq![piece] =~= seq_views(r@));
    assert(seq_views(r@) =~= split_commas(s@));
    r
}

/// The length of the run of whitespace at the start of `s`.
pub open spec fn leading_spaces(s: Seq<char>) -> int
    decreases s.len(),
{
    if s.len() == 0 || !is_space_char(s[0]) {
        0
    } else {
        1 + leading_spaces(s.drop_first())
    }
}

pub proof fn lemma_leading_spaces(s: Seq<char>)
    ensures
        0 <= leading_spaces(s) <= s.len(),
        forall|i: int| 0 <= i < leading_spaces(s) ==> is_space_char(s[i]),
        leading_spaces(s) < s.len() ==> !is_space_char(s[leading_spaces(s)]),
    decreases s.len(),
{
    if s.len() > 0 && is_space_char(s[0]) {
        lemma_leading_spaces(s.drop_first());
        assert forall|i: int| 0 <= i < leading_spaces(s) implies is_space_char(s[i]) by {
            if i > 0 {
                assert(s.drop_first()[i - 1] == s[i]);
            }
        }
    }
}

/// The length of the run of non-whitespace at the start of `s`.
pub open spec fn leading_nonspaces(s: Seq<char>) -> int
    decreases s.len(),
{
    if s.len() == 0 || is_space_char(s[0]) {
        0
    } else {
        1 + leading_nonspaces(s.drop_first())
    }
}

/// Counts the whitespace run at the start of `v`.
pub fn leading_spaces_at(v: &Vec<char>) -> (r: usize)
    ensures
        r == leading_spaces(v@),
{
    let mut i: usize = 0;
    assert(v@.skip(0) =~= v@);
    while i < v.len() && is_space(v[i])
        invariant
            0 <= i <= v@.len(),
            leading_spaces(v@) == i + leading_spaces(v@.skip(i as int)),
        decreases v@.len() - i,
    {
        assert(v@.skip(i as int).drop_first() =~= v@.skip(i + 1 as int));
        assert(v@.skip(i as int)[0] == v@[i as int]);
        i = i + 1;
    }
    proof {
        if i < v@.len() {
            assert(v@.skip(i as int)[0] == v@[i as int]);
        }
    }
    i
}

/// Counts the non-whitespace run starting at index `from` of `v`.
pub fn leading_nonspaces_at(v: &Vec<char>, from: usize) -> (r: usize)
    requires
        from <= v@.len(),
    ensures
        from + leading_nonspaces(v@.skip(from as int)) == r,
        from <= r <= v@.len(),
{
    let mut i: usize = from;
    while i < v.len() && !is_space(v[i])
        invariant
            from <= i <= v@.len(),
            leading_nonspaces(v@.skip(from as int)) == i - from + leading_nonspaces(
                v@.skip(i as int),
            ),
        decreases v@.len() - i,
    {
        assert(v@.skip(i as int).drop_first() =~= v@.skip(i + 1 as int));
        assert(v@.skip(i as int)[0] == v@[i as int]);
        i = i + 1;
    }
    proof {
        if i < v@.len() {
            assert(v@.skip(i as int)[0] == v@[i as int]);
        }
    }
    i
}

/// `s` begins with the pattern `p`.
pub open spec fn starts_with(s: Seq<char>, p: Seq<char>) -> bool {
    s.len() >= p.len() && s.take(p.len() as int) == p
}

/// Tests whether `v[from..]` begins with `p`.
pub fn starts_with_at(v: &Vec<char>, from: usize, p: &Vec<char>) -> (r: bool)
    requires
        from <= v@.len(),
    ensures
        r == starts_with(v@.skip(from as int), p@),
{
    if v.len() - from < p.len() {
        return false;
    }
    let mut i: usize = 0;
    while i < p.len()
        invariant
            0 <= i <= p@.len(),
            from + p@.len() <= v@.len(),
            v@.len() <= usize::MAX,
            forall|k: int| 0 <= k < i ==> v@[from + k] == p@[k],
        decreases p@.len() - i,
    {
        if v[from + i] != p[i] {
            assert(v@.skip(from as int).take(p@.len() as int)[i as int] != p@[i as int]);
            return false;
        }
        i = i + 1;
    }
    assert(v@.skip(from as int).take(p@.len() as int) =~= p@);
    true
}

/// The smallest index `i >= from` at which the pattern `p` occurs in `s`, or
/// `None` if it occurs nowhere at or after `from`.
pub open spec fn first_match_from(s: Seq<char>, p: Seq<char>, from: int) -> Option<int>
    decreases s.len() - from + 1,
{
    if from + p.len() > s.len() || from < 0 {
        None
    } else if starts_with(s.skip(from), p) {
        Some(from)
    } else {
        first_match_from(s, p, from + 1)
    }
}

pub proof fn lemma_first_match_from(s: Seq<char>, p: Seq<char>, from: int)
    ensures
        match first_match_from(s, p, from) {
            Some(i) => from <= i && i + p.len() <= s.len() && starts_with(s.skip(i), p),
            None => true,
        },
    decreases s.len() - from + 1,
{
    if from + p.len() > s.len() || from < 0 {
    } else if starts_with(s.skip(from), p) {
    } else {
        lemma_first_match_from(s, p, from + 1);
    }
}

/// Finds the first occurrence of `p` in `v`.
pub fn find_first(v: &Vec<char>, p: &Vec<char>) -> (r: Option<usize>)
    requires
        p@.len() >= 1,
    ensures
        match r {
            Some(i) => first_match_from(v@, p@, 0) == Some(i as int),
            None => first_match_from(v@, p@, 0) is None,
        },
{
    if p.len() > v.len() {
        return None;
    }
    let bound = v.len() - p.len();
    let mut i: usize = 0;
    while i <= bound
        invariant
            0 <= i <= bound + 1,
            bound == v@.len() - p@.len(),
            p@.len() >= 1,
            v@.len() <= usize::MAX,
            first_match_from(v@, p@, 0) == first_match_from(v@, p@, i as int),
        decreases v@.len() - i,
    {
        if starts_with_at(v, i, p) {
            return Some(i);
        }
        i = i + 1;
    }
    None
}

/// The view of an optional pending string slot.
pub open spec fn opt_str_view(o: Option<String>) -> Option<Seq<char>> {
    match o {
        Some(s) => Some(s@),
        None => None,
    }
}

/// The view of an optional pending token slot.
pub open spec fn opt_chars_view(o: Option<Vec<char>>) -> Option<Seq<char>> {
    match o {
        Some(v) => Some(v@),
        None => None,
    }
}

/// A copy of `v[from..to]`.
pub fn subvec(v: &Vec<char>, from: usize, to: usize) -> (r: Vec<char>)
    requires
        from <= to <= v@.len(),
    ensures
        r@ == v@.subrange(from as int, to as int),
{
    let mut r: Vec<char> = Vec::new();
    let mut i: usize = from;
    while i < to
        invariant
            from <= i <= to <= v@.len(),
            r@ == v@.subrange(from as int, i as int),
        decreases to - i,
    {
        r.push(v[i]);
        assert(v@.subrange(from as int, i + 1 as int) =~= v@.subrange(from as int, i as int).push(
            v@[i as int],
        ));
        i = i + 1;
    }
    r
}

/// The largest index `j` with `1 <= j < hi` and `s[j] == c`, or `None` when no
/// such index exists. Index 0 is never reported, because every capture must
/// hold at least one character before its closing delimiter.
pub open spec fn last_index_below(s: Seq<char>, c: char, hi: int) -> Option<int>
    decreases hi,
{
    if hi <= 1 {
        None
    } else if s[hi - 1] == c {
        Some(hi - 1)
    } else {
        last_index_below(s, c, hi - 1)
    }
}

/// Finds the last occurrence of `c` in `v[1..hi]`.
pub fn find_last_below(v: &Vec<char>, c: char, hi: usize) -> (r: Option<usize>)
    requires
        hi <= v@.len(),
    ensures
        match r {
            Some(j) => last_index_below(v@, c, hi as int) == Some(j as int) && 1 <= j < hi,
            None => last_index_below(v@, c, hi as int) is None,
        },
{
    let mut h: usize = hi;
    while h > 1
        invariant
            h <= hi <= v@.len(),
            last_index_below(v@, c, hi as int) == last_index_below(v@, c, h as int),
        decreases h,
    {
        if v[h - 1] == c {
            return Some(h - 1);
        }
        h = h - 1;
    }
    None
}

/// The largest index `j >= 1` at which a quote immediately followed by a comma
/// closes a capture: `s[j] == '"'` and `s[j + 1] == ','`.
pub open spec fn last_quote_comma_from(s: Seq<char>, j: int) -> Option<int>
    decreases j,
{
    if j < 1 {
        None
    } else if j + 1 < s.len() && s[j] == '"' && s[j + 1] == ',' {
        Some(j)
    } else {
        last_quote_comma_from(s, j - 1)
    }
}

/// The largest capture-closing `'",'` position in `s`.
pub open spec fn last_quote_comma(s: Seq<char>) -> Option<int> {
    last_quote_comma_from(s, s.len() - 2)
}

/// Finds the last `'",'` pair in `v`.
pub fn find_last_quote_comma(v: &Vec<char>) -> (r: Option<usize>)
    ensures
        match r {
            Some(j) => last_quote_comma(v@) == Some(j as int) && 1 <= j && j + 1 < v@.len(),
            None => last_quote_comma(v@) is None,
        },
{
    if v.len() < 3 {
        return None;
    }
    let mut j: usize = v.len() - 2;
    while j >= 1
        invariant
            j <= v@.len() - 2,
            v@.len() <= usize::MAX,
            last_quote_comma(v@) == last_quote_comma_from(v@, j as int),
        decreases j,
    {
        if v[j] == '"' && v[j + 1] == ',' {
            return Some(j);
        }
        j = j - 1;
    }
    None
}

} // verus!
