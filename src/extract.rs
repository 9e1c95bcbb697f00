use vstd::prelude::*;
use crate::text::{chars_of, is_digit, trim, trim_end, trim_start, all_digits, digits_value, find_char, is_space, parse_digits};

verus! {

/// Why a value could not be taken from a metadata line.
#[derive(Debug)]
pub enum ParsingError {
    /// The `=` that separates a key from its value is absent; holds the whole text.
    MissingValue(String),
    /// The value could not be read as the expected kind; holds the kind and the
    /// offending text.
    StringParsingError(&'static str, String),
}

/// The mathematical content of a `ParsingError`.
pub ghost enum ParseFailure {
    MissingValue(Seq<char>),
    StringParsingError(Seq<char>, Seq<char>),
}

impl View for ParsingError {
    type V = ParseFailure;

    open spec fn view(&self) -> ParseFailure {
        match self {
            ParsingError::MissingValue(s) => ParseFailure::MissingValue(s@),
            ParsingError::StringParsingError(k, s) => ParseFailure::StringParsingError(k@, s@),
        }
    }
}

/// The content of an extractor's result.
pub open spec fn result_view(r: Result<u64, ParsingError>) -> Result<nat, ParseFailure> {
    match r {
        Ok(v) => Ok(v as nat),
        Err(e) => Err(e@),
    }
}

/// The kind reported for a duration component that cannot be read.
pub const DURATION_COMPONENT: &'static str = "duration-component";

/// The kind reported for a length that cannot be read.
pub const LENGTH: &'static str = "length";

/// The text after the first `=`, if there is one.
pub open spec fn value_part(s: Seq<char>) -> Option<Seq<char>> {
    match find_char(s, '=') {
        Some(i) => Some(s.skip(i + 1)),
        None => None,
    }
}

/// Number of leading characters of `s` that are not white space.
pub open spec fn word_len(s: Seq<char>) -> nat
    decreases s.len(),
{
    if s.len() == 0 || is_space(s[0]) {
        0
    } else {
        1 + word_len(s.drop_first())
    }
}

/// A word is no longer than the text, and not empty where the text starts with one.
pub proof fn lemma_word_len_bound(s: Seq<char>)
    ensures
        word_len(s) <= s.len(),
        s.len() > 0 && !is_space(s[0]) ==> word_len(s) >= 1,
    decreases s.len(),
{
    if s.len() > 0 && !is_space(s[0]) {
        lemma_word_len_bound(s.drop_first());
    }
}

/// A word ends where white space or the text ends.
pub proof fn lemma_word_len_is(s: Seq<char>, k: int)
    requires
        0 <= k <= s.len(),
        forall|m: int| 0 <= m < k ==> !is_space(#[trigger] s[m]),
        k == s.len() || is_space(s[k]),
    ensures
        word_len(s) == k,
    decreases k,
{
    if k > 0 {
        lemma_word_len_is(s.drop_first(), k - 1);
    }
}

/// Seconds written by one duration component: digits followed by `h`, `m` or `s`.
pub open spec fn component_seconds(w: Seq<char>) -> Option<nat> {
    if w.len() >= 2 && all_digits(w.drop_last()) {
        let n = digits_value(w.drop_last());
        if w.last() == 'h' {
            Some(n * 3600)
        } else if w.last() == 'm' {
            Some(n * 60)
        } else if w.last() == 's' {
            Some(n)
        } else {
            None
        }
    } else {
        None
    }
}

/// Adds to `acc` the seconds of each white-space separated component of `s`,
/// left to right; fails with the first component that cannot be read or that
/// takes the total beyond `u64::MAX`.
pub open spec fn duration_from(s: Seq<char>, acc: nat) -> Result<nat, Seq<char>>
    decreases s.len(),
    via duration_from_decreases
{
    if s.len() == 0 {
        Ok(acc)
    } else if is_space(s[0]) {
        duration_from(s.drop_first(), acc)
    } else {
        let w = s.take(word_len(s) as int);
        match component_seconds(w) {
            Some(v) => if acc + v <= u64::MAX {
                duration_from(s.skip(word_len(s) as int), acc + v)
            } else {
                Err(w)
            },
            None => Err(w),
        }
    }
}

#[via_fn]
proof fn duration_from_decreases(s: Seq<char>, acc: nat) {
    lemma_word_len_bound(s);
}

/// What reading a duration line gives.
pub open spec fn duration_spec(s: Seq<char>) -> Result<nat, ParseFailure> {
    match value_part(s) {
        None => Err(ParseFailure::MissingValue(s)),
        Some(v) => if forall|i: int| 0 <= i < v.len() ==> is_space(#[trigger] v[i]) {
            Err(ParseFailure::StringParsingError(DURATION_COMPONENT@, Seq::empty()))
        } else {
            match duration_from(v, 0) {
                Ok(t) => Ok(t),
                Err(w) => Err(ParseFailure::StringParsingError(DURATION_COMPONENT@, w)),
            }
        },
    }
}

/// Tests `char::is_whitespace` membership.
pub fn is_space_char(c: char) -> (r: bool)
    ensures
        r == is_space(c),
{
    ('\u{9}' <= c && c <= '\u{d}') || c == ' ' || c == '\u{85}' || c == '\u{a0}'
        || c == '\u{1680}' || ('\u{2000}' <= c && c <= '\u{200a}') || c == '\u{2028}'
        || c == '\u{2029}' || c == '\u{202f}' || c == '\u{205f}' || c == '\u{3000}'
}

/// Index of the first `=` in `v`.
pub fn find_equals(v: &Vec<char>) -> (r: Option<usize>)
    ensures
        match r {
            Some(i) => i < v@.len() && find_char(v@, '=') == Some(i as int),
            None => find_char(v@, '=') is None,
        },
{
    let mut i: usize = 0;
    while i < v.len()
        invariant
            i <= v@.len(),
            forall|j: int| 0 <= j < i ==> v@[j] != '=',
        decreases v.len() - i,
    {
        if v[i] == '=' {
            let ghost k = choose|k: int| 0 <= k < v@.len() && v@[k] == '=' && forall|j: int| 0 <= j < k ==> v@[j] != '=';
            assert(v@[i as int] == '=');
            assert(k == i);
            return Some(i);
        }
        i = i + 1;
    }
    None
}

/// Seconds of the component `v[lo..hi]`, when it can be read and fits a `u64`.
fn component_value(v: &Vec<char>, lo: usize, hi: usize) -> (r: Option<u64>)
    requires
        lo <= hi <= v@.len(),
    ensures
        r == (match component_seconds(v@.subrange(lo as int, hi as int)) {
            Some(c) => if c <= u64::MAX { Some(c as u64) } else { None },
            None => None,
        }),
{
    let ghost w = v@.subrange(lo as int, hi as int);
    if hi - lo < 2 {
        return None;
    }
    let unit = v[hi - 1];
    let mult: u64 = if unit == 'h' {
        3600
    } else if unit == 'm' {
        60
    } else if unit == 's' {
        1
    } else {
        return None;
    };
    assert(w.drop_last() =~= v@.subrange(lo as int, hi - 1));
    match parse_digits(v, lo, hi - 1) {
        Some(n) => {
            if n > u64::MAX / mult {
                assert(n * mult > u64::MAX) by (nonlinear_arith)
                    requires n > u64::MAX / mult, mult > 0;
                None
            } else {
                assert(n * mult <= u64::MAX) by (nonlinear_arith)
                    requires n <= u64::MAX / mult, mult > 0;
                Some(n * mult)
            }
        },
        None => {
            proof {
                if all_digits(w.drop_last()) {
                    assert(digits_value(w.drop_last()) * mult >= digits_value(w.drop_last())) by (nonlinear_arith)
                        requires mult >= 1;
                }
            }
            None
        },
    }
}

/// Reads a line of the form `key = 1h 30m 0s` as a whole number of seconds:
/// the text after the first `=` is split at white space, and each component is
/// a decimal number followed by `h`, `m` or `s`.
pub fn extract_time_data_as_seconds(attribute: &str) -> (r: Result<u64, ParsingError>)
    ensures
        result_view(r) == duration_spec(attribute@),
{
    let v = chars_of(attribute);
    let n = v.len();
    let e = match find_equals(&v) {
        Some(e) => e,
        None => return Err(ParsingError::MissingValue(String::from_str(attribute))),
    };
    let ghost value = v@.skip(e + 1);
    assert(value_part(attribute@) == Some(value));
    let mut acc: u64 = 0;
    let mut seen = false;
    let mut i: usize = e + 1;
    while i < n
        invariant
            n == v@.len(),
            v@ == attribute@,
            e < i <= n,
            value == v@.skip(e + 1),
            value_part(attribute@) == Some(value),
            duration_from(v@.skip(i as int), acc as nat) == duration_from(value, 0),
            seen <==> exists|k: int| e + 1 <= k < i && !is_space(#[trigger] v@[k]),
        decreases n - i,
    {
        let ghost t = v@.skip(i as int);
        if is_space_char(v[i]) {
            assert(t.drop_first() =~= v@.skip(i + 1));
            i = i + 1;
        } else {
            let mut j: usize = i + 1;
            while j < n && !is_space_char(v[j])
                invariant
                    n == v@.len(),
                    i < j <= n,
                    forall|m: int| i <= m < j ==> !is_space(#[trigger] v@[m]),
                decreases n - j,
            {
                j = j + 1;
            }
            proof {
                assert forall|m: int| 0 <= m < j - i implies !is_space(#[trigger] t[m]) by {
                    assert(t[m] == v@[i + m]);
                }
                lemma_word_len_is(t, j - i);
                assert(t.len() > 0 && t[0] == v@[i as int]);
                assert(t.take(j - i) =~= v@.subrange(i as int, j as int));
                assert(t.skip(j - i) =~= v@.skip(j as int));
            }
            seen = true;
            assert(value[i - e - 1] == v@[i as int]);
            match component_value(&v, i, j) {
                Some(c) => {
                    if acc > u64::MAX - c {
                        return Err(ParsingError::StringParsingError(
                            DURATION_COMPONENT,
                            String::from_str(attribute.substring_char(i, j)),
                        ));
                    }
                    acc = acc + c;
                },
                None => {
                    return Err(ParsingError::StringParsingError(
                        DURATION_COMPONENT,
                        String::from_str(attribute.substring_char(i, j)),
                    ));
                },
            }
            i = j;
        }
    }
    assert(v@.skip(n as int) =~= Seq::<char>::empty());
    if !seen {
        assert forall|k: int| 0 <= k < value.len() implies is_space(#[trigger] value[k]) by {
            assert(value[k] == v@[e + 1 + k]);
        }
        return Err(ParsingError::StringParsingError(DURATION_COMPONENT, String::new()));
    }
    let ghost k = choose|k: int| e + 1 <= k < n && !is_space(#[trigger] v@[k]);
    assert(value[k - e - 1] == v@[k]);
    Ok(acc)
}

/// `s` with every `.` removed.
pub open spec fn without_dots(s: Seq<char>) -> Seq<char>
    decreases s.len(),
{
    if s.len() == 0 {
        s
    } else if s.last() == '.' {
        without_dots(s.drop_last())
    } else {
        without_dots(s.drop_last()).push(s.last())
    }
}

/// A length written with exactly two fractional digits: `D+.DD`.
pub open spec fn length_shape(t: Seq<char>) -> bool {
    &&& t.len() >= 4
    &&& t[t.len() - 3] == '.'
    &&& all_digits(t.take(t.len() - 3))
    &&& all_digits(t.skip(t.len() - 2))
}

/// What reading a length line gives, in hundredths of the written unit.
pub open spec fn length_spec(s: Seq<char>) -> Result<nat, ParseFailure> {
    match value_part(s) {
        None => Err(ParseFailure::MissingValue(s)),
        Some(v) => {
            let t = trim(v);
            let d = without_dots(t);
            if length_shape(t) && digits_value(d) <= u64::MAX {
                Ok(digits_value(d))
            } else {
                Err(ParseFailure::StringParsingError(LENGTH@, d))
            }
        },
    }
}

/// Removing points commutes with concatenation.
pub proof fn lemma_without_dots_append(a: Seq<char>, b: Seq<char>)
    ensures
        without_dots(a + b) == without_dots(a) + without_dots(b),
    decreases b.len(),
{
    if b.len() == 0 {
        assert(a + b =~= a);
        assert(without_dots(a) + without_dots(b) =~= without_dots(a));
    } else {
        assert((a + b).drop_last() =~= a + b.drop_last());
        lemma_without_dots_append(a, b.drop_last());
        if b.last() != '.' {
            assert(without_dots(a) + without_dots(b) =~= (without_dots(a) + without_dots(b.drop_last())).push(b.last()));
        }
    }
}

/// A digit string has no point to remove.
pub proof fn lemma_without_dots_digits(s: Seq<char>)
    requires
        all_digits(s),
    ensures
        without_dots(s) == s,
    decreases s.len(),
{
    if s.len() > 0 {
        lemma_without_dots_digits(s.drop_last());
        assert(is_digit(s[s.len() - 1]));
        assert(s.drop_last().push(s.last()) =~= s);
    }
}

/// A length of the shape `D+.DD` loses exactly its point.
pub proof fn lemma_without_dots_shape(t: Seq<char>)
    requires
        length_shape(t),
    ensures
        without_dots(t) == t.take(t.len() - 3) + t.skip(t.len() - 2),
        all_digits(without_dots(t)),
        without_dots(t).len() > 0,
{
    let a = t.take(t.len() - 3);
    let b = t.skip(t.len() - 2);
    assert(t =~= a.push('.') + b);
    lemma_without_dots_append(a.push('.'), b);
    assert(a.push('.').drop_last() =~= a);
    lemma_without_dots_digits(a);
    lemma_without_dots_digits(b);
    let d = a + b;
    assert forall|i: int| 0 <= i < d.len() implies is_digit(#[trigger] d[i]) by {
        if i < a.len() {
            assert(is_digit(a[i]));
        } else {
            assert(is_digit(b[i - a.len()]));
        }
    }
}

/// Bounds of the text of `v` after index `from` with white space removed at both ends.
pub fn trim_bounds(v: &Vec<char>, from: usize) -> (r: (usize, usize))
    requires
        from <= v@.len(),
    ensures
        from <= r.0 <= r.1 <= v@.len(),
        v@.subrange(r.0 as int, r.1 as int) == trim(v@.skip(from as int)),
{
    let n = v.len();
    let mut a: usize = from;
    while a < n && is_space_char(v[a])
        invariant
            n == v@.len(),
            from <= a <= n,
            trim_start(v@.skip(a as int)) == trim_start(v@.skip(from as int)),
        decreases n - a,
    {
        assert(v@.skip(a as int).drop_first() =~= v@.skip(a + 1));
        a = a + 1;
    }
    assert(trim_start(v@.skip(a as int)) == v@.skip(a as int));
    assert(v@.skip(a as int) =~= v@.subrange(a as int, n as int));
    let mut b: usize = n;
    while b > a && is_space_char(v[b - 1])
        invariant
            n == v@.len(),
            a <= b <= n,
            trim_end(v@.subrange(a as int, b as int)) == trim_end(v@.subrange(a as int, n as int)),
        decreases b,
    {
        assert(v@.subrange(a as int, b as int).drop_last() =~= v@.subrange(a as int, b - 1));
        b = b - 1;
    }
    assert(trim_end(v@.subrange(a as int, b as int)) == v@.subrange(a as int, b as int));
    (a, b)
}

/// Whether `v[lo..hi]` holds ASCII digits only.
fn digits_only(v: &Vec<char>, lo: usize, hi: usize) -> (r: bool)
    requires
        lo <= hi <= v@.len(),
    ensures
        r == all_digits(v@.subrange(lo as int, hi as int)),
{
    let mut k: usize = lo;
    while k < hi
        invariant
            lo <= k <= hi <= v@.len(),
            forall|m: int| lo <= m < k ==> is_digit(#[trigger] v@[m]),
        decreases hi - k,
    {
        if v[k] < '0' || v[k] > '9' {
            assert(v@.subrange(lo as int, hi as int)[k - lo] == v@[k as int]);
            return false;
        }
        k = k + 1;
    }
    assert forall|m: int| 0 <= m < hi - lo implies is_digit(#[trigger] v@.subrange(lo as int, hi as int)[m]) by {
        assert(v@.subrange(lo as int, hi as int)[m] == v@[lo + m]);
    }
    true
}

/// Reads a line of the form `key = 2500.00`, a length with two fractional
/// digits, as a whole number of hundredths: the digits with the point removed.
pub fn extract_filament_used_as_um_x10(attribute: &str) -> (r: Result<u64, ParsingError>)
    ensures
        result_view(r) == length_spec(attribute@),
{
    let v = chars_of(attribute);
    let e = match find_equals(&v) {
        Some(e) => e,
        None => return Err(ParsingError::MissingValue(String::from_str(attribute))),
    };
    assert(value_part(attribute@) == Some(v@.skip(e + 1)));
    assert(e < v.len());
    let (a, b) = trim_bounds(&v, e + 1);
    let ghost t = v@.subrange(a as int, b as int);
    let mut d = String::new();
    let mut k: usize = a;
    while k < b
        invariant
            a <= k <= b <= v@.len(),
            v@ == attribute@,
            d@ == without_dots(v@.subrange(a as int, k as int)),
        decreases b - k,
    {
        assert(v@.subrange(a as int, k + 1).drop_last() =~= v@.subrange(a as int, k as int));
        if v[k] != '.' {
            d.append(attribute.substring_char(k, k + 1));
            assert(attribute@.subrange(k as int, k + 1) =~= seq![v@[k as int]]);
        }
        k = k + 1;
    }
    assert(v@.subrange(a as int, b as int) =~= t);
    let shaped = b - a >= 4 && v[b - 3] == '.' && digits_only(&v, a, b - 3) && digits_only(&v, b - 2, b);
    proof {
        if b - a >= 4 {
            assert(t.take(t.len() - 3) =~= v@.subrange(a as int, b - 3));
            assert(t.skip(t.len() - 2) =~= v@.subrange(b - 2, b as int));
            assert(t[t.len() - 3] == v@[b - 3]);
        }
    }
    if !shaped {
        return Err(ParsingError::StringParsingError(LENGTH, d));
    }
    proof {
        lemma_without_dots_shape(t);
    }
    let dv = chars_of(d.as_str());
    assert(dv@.subrange(0, dv@.len() as int) =~= d@);
    match parse_digits(&dv, 0, dv.len()) {
        Some(x) => Ok(x),
        None => Err(ParsingError::StringParsingError(LENGTH, d)),
    }
}

} // verus!
