//! The runtime value model. A saved raw value is held as a signed fixed-point
//! number counted in ten-thousandths, so that the reconciler's three uses of
//! it — keep it verbatim, truncate it to an eight-bit integer, compare it
//! against one half — are all exact integer operations. A numeric value token
//! is a decimal literal with an optional sign and an optional fraction;
//! fractional digits beyond the fourth are discarded and magnitudes beyond
//! `INT_UNITS_CAP` whole units saturate, so reading a token never fails on
//! size alone.

use vstd::prelude::*;

verus! {

/// One whole unit expressed in ten-thousandths.
pub const RAW_SCALE: u64 = 10_000;

/// One half, the threshold at and above which a raw value counts as `true`.
pub const RAW_HALF: u64 = 5_000;

/// The largest magnitude of whole units a token may carry; larger ones
/// saturate here.
pub const INT_UNITS_CAP: u64 = 100_000_000_000_000;

/// A raw numeric value from the saved-state file: a sign and a magnitude in
/// ten-thousandths of a unit. Zero is always stored as non-negative.
#[derive(Clone, Copy, Debug, PartialEq, Eq, Structural)]
pub struct RawValue {
    pub negative: bool,
    pub ten_thousandths: u64,
}

/// The canonical raw value of the given sign and magnitude: a zero magnitude
/// drops the sign.
pub open spec fn raw_value_of(negative: bool, ten_thousandths: u64) -> RawValue {
    RawValue { negative: negative && ten_thousandths > 0, ten_thousandths }
}

impl RawValue {
    /// The value as a signed count of ten-thousandths.
    pub open spec fn as_scaled(self) -> int {
        if self.negative {
            -(self.ten_thousandths as int)
        } else {
            self.ten_thousandths as int
        }
    }

    /// The value is at least one half.
    pub open spec fn spec_as_bool(self) -> bool {
        self.as_scaled() >= RAW_HALF
    }

    /// The value truncated toward zero and saturated into `0 ..= 255`.
    pub open spec fn spec_as_int(self) -> u8 {
        if self.negative {
            0
        } else if self.ten_thousandths / RAW_SCALE > 255 {
            255
        } else {
            (self.ten_thousandths / RAW_SCALE) as u8
        }
    }

    /// Builds the canonical raw value of the given sign and magnitude.
    pub fn new(negative: bool, ten_thousandths: u64) -> (r: RawValue)
        ensures
            r == raw_value_of(negative, ten_thousandths),
    {
        RawValue { negative: negative && ten_thousandths > 0, ten_thousandths }
    }

    /// Whether the value drives a boolean parameter to `true`: exactly when it
    /// is at least one half, the boundary included.
    pub fn as_bool(&self) -> (r: bool)
        ensures
            r == self.spec_as_bool(),
    {
        !self.negative && self.ten_thousandths >= RAW_HALF
    }

    /// The value truncated toward zero for an integer parameter, saturated
    /// into `0 ..= 255`: negative values give 0, values above 255 give 255.
    pub fn as_int(&self) -> (r: u8)
        ensures
            r == self.spec_as_int(),
    {
        if self.negative {
            0
        } else {
            let u = self.ten_thousandths / RAW_SCALE;
            if u > 255 {
                255
            } else {
                u as u8
            }
        }
    }
}

/// The closed set of declared parameter types; any other declared type string
/// is unrecognized and filters its parameter out.
#[derive(Clone, Copy, Debug, PartialEq, Eq, Structural)]
pub enum ParameterType {
    Float,
    Int,
    Bool,
}

/// ASCII lowercasing of one character; every other character is unchanged.
pub open spec fn lower_char(c: char) -> char {
    match c {
        'A' => 'a',
        'B' => 'b',
        'C' => 'c',
        'D' => 'd',
        'E' => 'e',
        'F' => 'f',
        'G' => 'g',
        'H' => 'h',
        'I' => 'i',
        'J' => 'j',
        'K' => 'k',
        'L' => 'l',
        'M' => 'm',
        'N' => 'n',
        'O' => 'o',
        'P' => 'p',
        'Q' => 'q',
        'R' => 'r',
        'S' => 's',
        'T' => 't',
        'U' => 'u',
        'V' => 'v',
        'W' => 'w',
        'X' => 'x',
        'Y' => 'y',
        'Z' => 'z',
        _ => c,
    }
}

/// ASCII lowercasing of a whole string.
pub open spec fn lower_seq(s: Seq<char>) -> Seq<char> {
    s.map_values(|c: char| lower_char(c))
}

pub open spec fn float_word() -> Seq<char> {
    seq!['f', 'l', 'o', 'a', 't']
}

pub open spec fn int_word() -> Seq<char> {
    seq!['i', 'n', 't']
}

pub open spec fn bool_word() -> Seq<char> {
    seq!['b', 'o', 'o', 'l']
}

/// The parameter type declared by a type string, compared without regard to
/// ASCII case; any other string is unrecognized.
pub open spec fn parameter_type_of(s: Seq<char>) -> Option<ParameterType> {
    if lower_seq(s) == float_word() {
        Some(ParameterType::Float)
    } else if lower_seq(s) == int_word() {
        Some(ParameterType::Int)
    } else if lower_seq(s) == bool_word() {
        Some(ParameterType::Bool)
    } else {
        None
    }
}

/// Declared type strings are read without regard to ASCII case: a string and
/// its lowercased form always name the same parameter type.
pub proof fn lemma_type_case_insensitive(s: Seq<char>)
    ensures
        parameter_type_of(lower_seq(s)) == parameter_type_of(s),
{
    assert(lower_seq(lower_seq(s)) =~= lower_seq(s));
}

/// ASCII lowercasing of one character.
pub fn to_lower_char(c: char) -> (r: char)
    ensures
        r == lower_char(c),
{
    match c {
        'A' => 'a',
        'B' => 'b',
        'C' => 'c',
        'D' => 'd',
        'E' => 'e',
        'F' => 'f',
        'G' => 'g',
        'H' => 'h',
        'I' => 'i',
        'J' => 'j',
        'K' => 'k',
        'L' => 'l',
        'M' => 'm',
        'N' => 'n',
        'O' => 'o',
        'P' => 'p',
        'Q' => 'q',
        'R' => 'r',
        'S' => 's',
        'T' => 't',
        'U' => 'u',
        'V' => 'v',
        'W' => 'w',
        'X' => 'x',
        'Y' => 'y',
        'Z' => 'z',
        _ => c,
    }
}

/// Reads the parameter type a vector of characters declares, without regard
/// to ASCII case.
pub fn parameter_type_from_chars(cs: &Vec<char>) -> (r: Option<ParameterType>)
    ensures
        r == parameter_type_of(cs@),
{
    let mut low: Vec<char> = Vec::new();
    let mut i: usize = 0;
    while i < cs.len()
        invariant
            i <= cs@.len(),
            low@ == lower_seq(cs@.take(i as int)),
        decreases cs@.len() - i,
    {
        low.push(to_lower_char(cs[i]));
        assert(lower_seq(cs@.take(i + 1 as int)) =~= lower_seq(cs@.take(i as int)).push(
            lower_char(cs@[i as int]),
        ));
        i = i + 1;
    }
    assert(cs@.take(cs@.len() as int) =~= cs@);
    if low.len() == 5 && low[0] == 'f' && low[1] == 'l' && low[2] == 'o' && low[3] == 'a' && low[4]
        == 't' {
        assert(low@ =~= float_word());
        Some(ParameterType::Float)
    } else if low.len() == 3 && low[0] == 'i' && low[1] == 'n' && low[2] == 't' {
        assert(low@ =~= int_word());
        Some(ParameterType::Int)
    } else if low.len() == 4 && low[0] == 'b' && low[1] == 'o' && low[2] == 'o' && low[3] == 'l' {
        assert(low@ =~= bool_word());
        Some(ParameterType::Bool)
    } else {
        assert(low@ != float_word());
        assert(low@ != int_word());
        assert(low@ != bool_word());
        None
    }
}

pub open spec fn is_digit(c: char) -> bool {
    '0' <= c && c <= '9'
}

/// The numeric value of a decimal digit.
pub open spec fn digit_val(c: char) -> int {
    c as int - '0' as int
}

pub open spec fn all_digits(s: Seq<char>) -> bool {
    forall|i: int| 0 <= i < s.len() ==> is_digit(s[i])
}

/// The index of the first decimal point of `s`, or `s.len()` when there is
/// none.
pub open spec fn first_dot(s: Seq<char>) -> int
    decreases s.len(),
{
    if s.len() == 0 {
        0
    } else if s[0] == '.' {
        0
    } else {
        1 + first_dot(s.drop_first())
    }
}

pub proof fn lemma_first_dot(s: Seq<char>)
    ensures
        0 <= first_dot(s) <= s.len(),
        forall|i: int| 0 <= i < first_dot(s) ==> s[i] != '.',
        first_dot(s) < s.len() ==> s[first_dot(s)] == '.',
    decreases s.len(),
{
    if s.len() > 0 && s[0] != '.' {
        lemma_first_dot(s.drop_first());
        assert forall|i: int| 0 <= i < first_dot(s) implies s[i] != '.' by {
            if i > 0 {
                assert(s.drop_first()[i - 1] == s[i]);
            }
        }
    }
}

/// The first dot is exactly where no dot comes earlier and either the string
/// ends or a dot stands.
pub proof fn lemma_first_dot_is(s: Seq<char>, j: int)
    requires
        0 <= j <= s.len(),
        forall|i: int| 0 <= i < j ==> s[i] != '.',
        j == s.len() || s[j] == '.',
    ensures
        first_dot(s) == j,
{
    lemma_first_dot(s);
    if first_dot(s) < j {
        assert(s[first_dot(s)] != '.');
    }
    if j < first_dot(s) {
        assert(s[j] != '.');
    }
}

/// The magnitude in whole units carried by a digit string, folded from the
/// left with saturation at `INT_UNITS_CAP`.
pub open spec fn digits_units(ds: Seq<char>) -> int
    decreases ds.len(),
{
    if ds.len() == 0 {
        0
    } else {
        let x = digits_units(ds.drop_last()) * 10 + digit_val(ds.last());
        if x > INT_UNITS_CAP as int {
            INT_UNITS_CAP as int
        } else {
            x
        }
    }
}

pub proof fn lemma_digits_units_bounds(ds: Seq<char>)
    requires
        all_digits(ds),
    ensures
        0 <= digits_units(ds) <= INT_UNITS_CAP,
    decreases ds.len(),
{
    if ds.len() > 0 {
        assert(all_digits(ds.drop_last())) by {
            assert forall|i: int| 0 <= i < ds.drop_last().len() implies is_digit(
                ds.drop_last()[i],
            ) by {
                assert(ds.drop_last()[i] == ds[i]);
            }
        }
        lemma_digits_units_bounds(ds.drop_last());
        assert(is_digit(ds.last()));
    }
}

/// The digit of `ds` at index `i`, or zero past the end.
pub open spec fn dval_at(ds: Seq<char>, i: int) -> int {
    if 0 <= i < ds.len() {
        digit_val(ds[i])
    } else {
        0
    }
}

/// The count of ten-thousandths carried by the fractional digit string: its
/// first four digits weighted by place, everything further discarded.
pub open spec fn frac_ten_thousandths(ds: Seq<char>) -> int {
    1000 * dval_at(ds, 0) + 100 * dval_at(ds, 1) + 10 * dval_at(ds, 2) + dval_at(ds, 3)
}

pub proof fn lemma_frac_bounds(ds: Seq<char>)
    requires
        all_digits(ds),
    ensures
        0 <= frac_ten_thousandths(ds) <= 9999,
{
}

/// A leading `'-'` makes the token negative.
pub open spec fn token_negative(t: Seq<char>) -> bool {
    t.len() > 0 && t[0] == '-'
}

/// The token with an optional leading sign removed.
pub open spec fn token_body(t: Seq<char>) -> Seq<char> {
    if t.len() > 0 && (t[0] == '-' || t[0] == '+') {
        t.drop_first()
    } else {
        t
    }
}

/// The digits before the decimal point.
pub open spec fn int_digits(b: Seq<char>) -> Seq<char> {
    b.take(first_dot(b))
}

/// The digits after the decimal point, or nothing when there is no point.
pub open spec fn frac_digits(b: Seq<char>) -> Seq<char> {
    if first_dot(b) < b.len() {
        b.skip(first_dot(b) + 1)
    } else {
        Seq::empty()
    }
}

/// A numeric value token: an optional sign, then decimal digits with at most
/// one decimal point among them and at least one digit in all.
pub open spec fn token_valid(t: Seq<char>) -> bool {
    let b = token_body(t);
    &&& all_digits(int_digits(b))
    &&& all_digits(frac_digits(b))
    &&& int_digits(b).len() + frac_digits(b).len() >= 1
}

/// The magnitude a valid token denotes, in ten-thousandths, saturated.
pub open spec fn token_scaled(t: Seq<char>) -> int {
    digits_units(int_digits(token_body(t))) * (RAW_SCALE as int) + frac_ten_thousandths(
        frac_digits(token_body(t)),
    )
}

/// The raw value a token denotes: `None` exactly when the token is not a
/// numeric value token, so a malformed token is dropped rather than an error.
pub open spec fn parse_value(t: Seq<char>) -> Option<RawValue> {
    if token_valid(t) {
        Some(raw_value_of(token_negative(t), token_scaled(t) as u64))
    } else {
        None
    }
}

pub proof fn lemma_token_scaled_bounds(t: Seq<char>)
    requires
        token_valid(t),
    ensures
        0 <= token_scaled(t) <= INT_UNITS_CAP * (RAW_SCALE as int) + 9999,
{
    lemma_digits_units_bounds(int_digits(token_body(t)));
    lemma_frac_bounds(frac_digits(token_body(t)));
}

pub fn is_digit_x(c: char) -> (r: bool)
    ensures
        r == is_digit(c),
{
    match c {
        '0' | '1' | '2' | '3' | '4' | '5' | '6' | '7' | '8' | '9' => true,
        _ => false,
    }
}

pub fn digit_val_x(c: char) -> (r: u64)
    requires
        is_digit(c),
    ensures
        r as int == digit_val(c),
        r <= 9,
{
    match c {
        '0' => 0,
        '1' => 1,
        '2' => 2,
        '3' => 3,
        '4' => 4,
        '5' => 5,
        '6' => 6,
        '7' => 7,
        '8' => 8,
        _ => 9,
    }
}

/// Reads a numeric value token: the raw value it denotes, or `None` exactly
/// when the token is malformed.
pub fn parse_value_token(t: &Vec<char>) -> (r: Option<RawValue>)
    ensures
        r == parse_value(t@),
{
    let ghost b = token_body(t@);
    let mut i: usize = 0;
    let mut neg = false;
    if t.len() > 0 && (t[0] == '-' || t[0] == '+') {
        neg = t[0] == '-';
        i = 1;
    }
    assert(b =~= t@.skip(i as int));
    assert(neg == token_negative(t@));

    let mut units: u64 = 0;
    let mut j: usize = i;
    assert(t@.subrange(i as int, i as int) =~= Seq::<char>::empty());
    while j < t.len() && t[j] != '.'
        invariant
            i <= j <= t@.len(),
            b == t@.skip(i as int),
            b == token_body(t@),
            units == digits_units(t@.subrange(i as int, j as int)),
            units <= INT_UNITS_CAP,
            all_digits(t@.subrange(i as int, j as int)),
            forall|k: int| i <= k < j ==> t@[k] != '.',
        decreases t@.len() - j,
    {
        let c = t[j];
        let ghost pre = t@.subrange(i as int, j as int);
        let ghost post = t@.subrange(i as int, j + 1 as int);
        assert(post =~= pre.push(c));
        if !is_digit_x(c) {
            proof {
                lemma_first_dot(b);
                assert forall|k: int| 0 <= k < j - i implies b[k] != '.' by {
                    assert(b[k] == t@[k + i]);
                }
                assert(b[j - i] == t@[j as int]);
                if first_dot(b) <= j - i {
                    assert(first_dot(b) < b.len());
                    assert(b[first_dot(b)] == '.');
                    assert(first_dot(b) == j - i || b[first_dot(b)] != '.');
                    assert(false);
                }
                assert(int_digits(b)[j - i] == b[j - i]);
                assert(!is_digit(int_digits(b)[j - i]));
                assert(!token_valid(t@));
            }
            return None;
        }
        let d = digit_val_x(c);
        let x = units * 10 + d;
        units = if x > INT_UNITS_CAP {
            INT_UNITS_CAP
        } else {
            x
        };
        proof {
            assert(post.drop_last() =~= pre);
            assert(post.last() == c);
            assert(all_digits(post)) by {
                assert forall|k: int| 0 <= k < post.len() implies is_digit(post[k]) by {
                    if k < pre.len() {
                        assert(post[k] == pre[k]);
                    }
                }
            }
        }
        j = j + 1;
    }
    proof {
        assert forall|k: int| 0 <= k < j - i implies b[k] != '.' by {
            assert(b[k] == t@[k + i]);
        }
        if (j as int) < t@.len() {
            assert(b[j - i] == t@[j as int]);
        }
        lemma_first_dot_is(b, j - i);
        assert(int_digits(b) =~= t@.subrange(i as int, j as int));
    }

    let mut fr: u64 = 0;
    let mut fcount: usize = 0;
    if j < t.len() {
        assert(frac_digits(b) =~= t@.skip(j + 1 as int));
        let mut k: usize = j + 1;
        assert(t@.subrange(j + 1 as int, k as int) =~= Seq::<char>::empty());
        while k < t.len()
            invariant
                j + 1 <= k <= t@.len(),
                j < t@.len(),
                b == token_body(t@),
                frac_digits(b) == t@.skip(j + 1 as int),
                int_digits(b) == t@.subrange(i as int, j as int),
                i <= j,
                units == digits_units(int_digits(b)),
                units <= INT_UNITS_CAP,
                all_digits(int_digits(b)),
                neg == token_negative(t@),
                fcount == k - j - 1,
                all_digits(t@.subrange(j + 1 as int, k as int)),
                fr as int == frac_ten_thousandths(t@.subrange(j + 1 as int, k as int)),
                fr <= 9999,
            decreases t@.len() - k,
        {
            let c = t[k];
            let ghost pre = t@.subrange(j + 1 as int, k as int);
            let ghost post = t@.subrange(j + 1 as int, k + 1 as int);
            assert(post =~= pre.push(c));
            if !is_digit_x(c) {
                proof {
                    assert(frac_digits(b)[k - j - 1] == t@[k as int]);
                    assert(!token_valid(t@));
                }
                return None;
            }
            let d = digit_val_x(c);
            proof {
                assert forall|m: int| 0 <= m < post.len() implies is_digit(post[m]) by {
                    if m < pre.len() {
                        assert(post[m] == pre[m]);
                    }
                }
                assert(dval_at(post, 0) == if pre.len() == 0 { d as int } else { dval_at(pre, 0) });
                assert(dval_at(post, 1) == if pre.len() == 1 { d as int } else { dval_at(pre, 1) });
                assert(dval_at(post, 2) == if pre.len() == 2 { d as int } else { dval_at(pre, 2) });
                assert(dval_at(post, 3) == if pre.len() == 3 { d as int } else { dval_at(pre, 3) });
            }
            if fcount == 0 {
                fr = fr + 1000 * d;
            } else if fcount == 1 {
                fr = fr + 100 * d;
            } else if fcount == 2 {
                fr = fr + 10 * d;
            } else if fcount == 3 {
                fr = fr + d;
            }
            fcount = fcount + 1;
            k = k + 1;
        }
        assert(t@.subrange(j + 1 as int, t@.len() as int) =~= t@.skip(j + 1 as int));
    } else {
        assert(frac_digits(b) =~= Seq::<char>::empty());
    }

    if j == i && fcount == 0 {
        proof {
            assert(int_digits(b).len() == 0);
            assert(frac_digits(b).len() == 0);
            assert(!token_valid(t@));
        }
        return None;
    }
    proof {
        assert(int_digits(b).len() == j - i);
        assert(frac_digits(b).len() == fcount);
        assert(token_valid(t@));
        lemma_token_scaled_bounds(t@);
        assert(token_scaled(t@) == units * (RAW_SCALE as int) + fr);
    }
    let scaled = units * RAW_SCALE + fr;
    Some(RawValue::new(neg, scaled))
}

} // verus!
