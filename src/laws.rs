use vstd::prelude::*;
use crate::catalog::{keys_distinct, MetadataProperty};
use crate::extract::{
    component_seconds, duration_from, duration_spec, lemma_without_dots_shape, lemma_word_len_is,
    length_shape, length_spec, value_part, without_dots, word_len, ParseFailure,
    DURATION_COMPONENT,
};
use crate::pipeline::{constant_lines, field_lines, join_lines, matching_field, translate};
use crate::text::{all_digits, decimal, digit_char, digits_value, find_char, is_digit, is_space, trim};

verus! {

/// Seconds in one unit of a duration component.
pub open spec fn unit_seconds(u: char) -> nat {
    if u == 'h' {
        3600
    } else if u == 'm' {
        60
    } else {
        1
    }
}

/// A unit letter of a duration component.
pub open spec fn is_unit(u: char) -> bool {
    u == 'h' || u == 'm' || u == 's'
}

/// A duration component: the number, then its unit letter.
pub open spec fn component_text(c: (nat, char)) -> Seq<char> {
    decimal(c.0).push(c.1)
}

/// The components separated by single spaces.
pub open spec fn components_text(cs: Seq<(nat, char)>) -> Seq<char>
    decreases cs.len(),
{
    if cs.len() == 0 {
        Seq::empty()
    } else if cs.len() == 1 {
        component_text(cs[0])
    } else {
        component_text(cs[0]) + seq![' '] + components_text(cs.drop_first())
    }
}

/// The seconds the components add up to.
pub open spec fn components_total(cs: Seq<(nat, char)>) -> nat
    decreases cs.len(),
{
    if cs.len() == 0 {
        0
    } else {
        cs[0].0 * unit_seconds(cs[0].1) + components_total(cs.drop_first())
    }
}

/// Decimal text is made of digits and reads back as the number.
pub proof fn lemma_decimal(n: nat)
    ensures
        decimal(n).len() > 0,
        all_digits(decimal(n)),
        digits_value(decimal(n)) == n,
    decreases n,
{
    lemma_digit_char(n % 10);
    if n >= 10 {
        lemma_decimal(n / 10);
        let d = decimal(n / 10).push(digit_char(n % 10));
        assert(d.drop_last() =~= decimal(n / 10));
        assert(d.last() == digit_char(n % 10));
        assert(digits_value(d) == digits_value(decimal(n / 10)) * 10 + n % 10);
        assert((n / 10) * 10 + n % 10 == n);
        assert(decimal(n) == d);
        assert forall|i: int| 0 <= i < d.len() implies is_digit(#[trigger] d[i]) by {
            if i < d.len() - 1 {
                assert(d[i] == decimal(n / 10)[i]);
            }
        }
    } else {
        assert(seq![digit_char(n)].drop_last() =~= Seq::<char>::empty());
        assert(n % 10 == n);
        let d = seq![digit_char(n)];
        assert(decimal(n) == d);
        assert(digits_value(d.drop_last()) == 0);
        assert(d.last() == digit_char(n));
        assert(digits_value(d) == n);
    }
}

/// A digit's character reads back as the digit.
pub proof fn lemma_digit_char(d: nat)
    requires
        d < 10,
    ensures
        is_digit(digit_char(d)),
        digit_char(d) as nat - '0' as nat == d,
{
}

/// A written component reads back as its seconds, and holds no white space.
pub proof fn lemma_component(c: (nat, char))
    requires
        is_unit(c.1),
    ensures
        component_seconds(component_text(c)) == Some(c.0 * unit_seconds(c.1)),
        component_text(c).len() >= 2,
        forall|i: int| 0 <= i < component_text(c).len() ==> !is_space(#[trigger] component_text(c)[i]),
{
    lemma_decimal(c.0);
    let t = component_text(c);
    assert(t.drop_last() =~= decimal(c.0));
    assert(t.last() == c.1);
    assert(t.len() >= 2);
    assert(all_digits(t.drop_last()));
    assert(digits_value(t.drop_last()) == c.0);
    if c.1 == 'h' {
        assert(component_seconds(t) == Some(c.0 * 3600));
    } else if c.1 == 'm' {
        assert(component_seconds(t) == Some(c.0 * 60));
    } else {
        assert(component_seconds(t) == Some(c.0));
        assert(unit_seconds(c.1) == 1);
        assert(c.0 * 1 == c.0) by (nonlinear_arith);
    }
    assert forall|i: int| 0 <= i < t.len() implies !is_space(#[trigger] t[i]) by {
        if i < t.len() - 1 {
            assert(t[i] == decimal(c.0)[i]);
            assert(is_digit(decimal(c.0)[i]));
        }
    }
}

/// Leading white space does not change the reading of a duration.
pub proof fn lemma_duration_skip_space(pad: Seq<char>, s: Seq<char>, acc: nat)
    requires
        forall|i: int| 0 <= i < pad.len() ==> is_space(#[trigger] pad[i]),
    ensures
        duration_from(pad + s, acc) == duration_from(s, acc),
    decreases pad.len(),
{
    if pad.len() > 0 {
        assert((pad + s).drop_first() =~= pad.drop_first() + s);
        assert(is_space(pad[0]));
        lemma_duration_skip_space(pad.drop_first(), s, acc);
    } else {
        assert(pad + s =~= s);
    }
}

/// Components separated by spaces add up, from any starting total.
pub proof fn lemma_duration_components(cs: Seq<(nat, char)>, acc: nat)
    requires
        cs.len() > 0,
        forall|i: int| 0 <= i < cs.len() ==> is_unit(#[trigger] cs[i].1),
        acc + components_total(cs) <= u64::MAX,
    ensures
        duration_from(components_text(cs), acc) == Ok::<nat, Seq<char>>(acc + components_total(cs)),
    decreases cs.len(),
{
    let c = cs[0];
    assert(is_unit(cs[0].1));
    lemma_component(c);
    let w = component_text(c);
    let v = c.0 * unit_seconds(c.1);
    let s = components_text(cs);
    assert(components_total(cs) == v + components_total(cs.drop_first()));
    if cs.len() == 1 {
        assert(s == w);
        lemma_word_len_is(s, s.len() as int);
        assert(s.take(s.len() as int) =~= w);
        assert(s.skip(s.len() as int) =~= Seq::<char>::empty());
        assert(components_total(cs.drop_first()) == 0);
        assert(s.len() > 0 && !is_space(s[0]));
        assert(duration_from(s, acc) == duration_from(s.skip(w.len() as int), acc + v));
    } else {
        let rest = cs.drop_first();
        assert(s == w + seq![' '] + components_text(rest));
        assert forall|m: int| 0 <= m < w.len() implies !is_space(#[trigger] s[m]) by {
            assert(s[m] == w[m]);
        }
        assert(s[w.len() as int] == ' ');
        lemma_word_len_is(s, w.len() as int);
        assert(s.take(w.len() as int) =~= w);
        assert(s.skip(w.len() as int) =~= seq![' '] + components_text(rest));
        assert forall|i: int| 0 <= i < rest.len() implies is_unit(#[trigger] rest[i].1) by {
            assert(rest[i] == cs[i + 1]);
        }
        lemma_duration_components(rest, acc + v);
        lemma_duration_skip_space(seq![' '], components_text(rest), acc + v);
        assert(s.len() > 0 && !is_space(s[0]));
        assert(duration_from(s, acc) == duration_from(s.skip(w.len() as int), acc + v));
    }
}

/// After a key without `=`, the value is what follows the `=`.
pub proof fn lemma_value_part(key: Seq<char>, v: Seq<char>)
    requires
        !key.contains('='),
    ensures
        value_part(key + seq!['='] + v) == Some(v),
{
    let s = key + seq!['='] + v;
    let k = key.len() as int;
    assert(s[k] == '=');
    assert forall|j: int| 0 <= j < k implies s[j] != '=' by {
        assert(s[j] == key[j]);
    }
    let c = choose|i: int| 0 <= i < s.len() && s[i] == '=' && forall|j: int| 0 <= j < i ==> s[j] != '=';
    assert(c == k);
    assert(find_char(s, '=') == Some(k));
    assert(s.skip(k + 1) =~= v);
}

/// A duration written as components `Nh`, `Nm`, `Ns`, in any order, after a
/// key and an `=`, reads as the sum of hours times 3600, minutes times 60 and
/// seconds, whenever that sum fits a `u64`.
pub proof fn lemma_duration_sum(key: Seq<char>, pad: Seq<char>, cs: Seq<(nat, char)>)
    requires
        !key.contains('='),
        forall|i: int| 0 <= i < pad.len() ==> is_space(#[trigger] pad[i]),
        cs.len() > 0,
        forall|i: int| 0 <= i < cs.len() ==> is_unit(#[trigger] cs[i].1),
        components_total(cs) <= u64::MAX,
    ensures
        duration_spec(key + seq!['='] + (pad + components_text(cs))) == Ok::<nat, ParseFailure>(
            components_total(cs),
        ),
{
    let v = pad + components_text(cs);
    lemma_value_part(key, v);
    lemma_duration_components(cs, 0);
    lemma_duration_skip_space(pad, components_text(cs), 0);
    assert(duration_from(v, 0) == Ok::<nat, Seq<char>>(components_total(cs)));
    lemma_first_not_space(pad, cs);
}

proof fn lemma_first_not_space(pad: Seq<char>, cs: Seq<(nat, char)>)
    requires
        cs.len() > 0,
        forall|i: int| 0 <= i < cs.len() ==> is_unit(#[trigger] cs[i].1),
    ensures
        !(forall|i: int| 0 <= i < (pad + components_text(cs)).len() ==> is_space(#[trigger] (pad + components_text(cs))[i])),
{
    let v = pad + components_text(cs);
    assert(is_unit(cs[0].1));
    lemma_component(cs[0]);
    let w = component_text(cs[0]);
    if cs.len() == 1 {
        assert(components_text(cs) == w);
    } else {
        assert(components_text(cs) == w + seq![' '] + components_text(cs.drop_first()));
    }
    assert(components_text(cs)[0] == w[0]);
    assert(v[pad.len() as int] == w[0]);
    assert(!is_space(v[pad.len() as int]));
}

/// Text without `=` has no value: both extractors report it whole.
pub proof fn lemma_missing_value(s: Seq<char>)
    requires
        !s.contains('='),
    ensures
        duration_spec(s) == Err::<nat, ParseFailure>(ParseFailure::MissingValue(s)),
        length_spec(s) == Err::<nat, ParseFailure>(ParseFailure::MissingValue(s)),
{
    if exists|i: int| 0 <= i < s.len() && s[i] == '=' {
        let i = choose|i: int| 0 <= i < s.len() && s[i] == '=';
        assert(s.contains('='));
    }
}

/// A component whose unit is not `h`, `m` or `s` is reported, with its text,
/// as a duration component that cannot be read.
pub proof fn lemma_bad_unit(key: Seq<char>, n: nat, x: char)
    requires
        !key.contains('='),
        !is_unit(x),
        !is_space(x),
    ensures
        duration_spec(key + seq!['=', ' '] + decimal(n).push(x)) == Err::<nat, ParseFailure>(
            ParseFailure::StringParsingError(DURATION_COMPONENT@, decimal(n).push(x)),
        ),
{
    let w = decimal(n).push(x);
    let v = seq![' '] + w;
    assert(key + seq!['=', ' '] + w =~= key + seq!['='] + v);
    lemma_value_part(key, v);
    lemma_decimal(n);
    assert forall|m: int| 0 <= m < w.len() implies !is_space(#[trigger] w[m]) by {
        if m < w.len() - 1 {
            assert(w[m] == decimal(n)[m]);
            assert(is_digit(decimal(n)[m]));
        }
    }
    lemma_word_len_is(w, w.len() as int);
    assert(w.take(w.len() as int) =~= w);
    assert(w.drop_last() =~= decimal(n));
    lemma_duration_skip_space(seq![' '], w, 0);
    assert(v[1] == w[0]);
}

/// Leading white space is trimmed from a text that starts and ends with other characters.
pub proof fn lemma_trim_shape(pad: Seq<char>, t: Seq<char>)
    requires
        forall|i: int| 0 <= i < pad.len() ==> is_space(#[trigger] pad[i]),
        t.len() > 0,
        !is_space(t[0]),
        !is_space(t.last()),
    ensures
        trim(pad + t) == t,
    decreases pad.len(),
{
    if pad.len() > 0 {
        assert((pad + t).drop_first() =~= pad.drop_first() + t);
        assert(is_space(pad[0]));
        lemma_trim_shape(pad.drop_first(), t);
    } else {
        assert(pad + t =~= t);
    }
}

/// A length written `D+.DD` after a key and an `=` reads as its digits with
/// the point removed, whenever that number fits a `u64`.
pub proof fn lemma_length_digits(key: Seq<char>, pad: Seq<char>, t: Seq<char>)
    requires
        !key.contains('='),
        forall|i: int| 0 <= i < pad.len() ==> is_space(#[trigger] pad[i]),
        length_shape(t),
        digits_value(t.take(t.len() - 3) + t.skip(t.len() - 2)) <= u64::MAX,
    ensures
        length_spec(key + seq!['='] + pad + t) == Ok::<nat, ParseFailure>(
            digits_value(t.take(t.len() - 3) + t.skip(t.len() - 2)),
        ),
{
    let v = pad + t;
    assert(key + seq!['='] + pad + t =~= key + seq!['='] + v);
    lemma_value_part(key, v);
    assert(is_digit(t.take(t.len() - 3)[0]));
    assert(is_digit(t.skip(t.len() - 2)[1]));
    lemma_trim_shape(pad, t);
    lemma_without_dots_shape(t);
}

/// A catalog with two entries under one key fails validation.
pub proof fn lemma_duplicate_key_detected(cat: Seq<MetadataProperty>, i: int, j: int)
    requires
        0 <= i < j < cat.len(),
        cat[i].output_key() == cat[j].output_key(),
    ensures
        !keys_distinct(cat),
{
}

/// A line that carries no field of the catalog adds no header line.
pub proof fn lemma_unrecognized_line(cat: Seq<MetadataProperty>, ls: Seq<Seq<char>>, l: Seq<char>)
    requires
        matching_field(cat, l) is None,
    ensures
        field_lines(cat, ls.push(l)) == field_lines(cat, ls),
{
    assert(ls.push(l).drop_last() =~= ls);
}

/// Lines that carry no field of the catalog are passed through unchanged,
/// below a header of the catalog's constants alone.
pub proof fn lemma_unrecognized_lines_pass(cat: Seq<MetadataProperty>, ls: Seq<Seq<char>>)
    requires
        forall|i: int| 0 <= i < ls.len() ==> matching_field(cat, #[trigger] ls[i]) is None,
    ensures
        translate(cat, ls) == Ok::<Seq<char>, ParseFailure>(join_lines(constant_lines(cat) + ls)),
{
    lemma_no_field_lines(cat, ls);
    assert(constant_lines(cat) + Seq::<Seq<char>>::empty() + ls =~= constant_lines(cat) + ls);
}

proof fn lemma_no_field_lines(cat: Seq<MetadataProperty>, ls: Seq<Seq<char>>)
    requires
        forall|i: int| 0 <= i < ls.len() ==> matching_field(cat, #[trigger] ls[i]) is None,
    ensures
        field_lines(cat, ls) == Ok::<Seq<Seq<char>>, ParseFailure>(Seq::empty()),
    decreases ls.len(),
{
    if ls.len() > 0 {
        let p = ls.drop_last();
        assert forall|i: int| 0 <= i < p.len() implies matching_field(cat, #[trigger] p[i]) is None by {
            assert(p[i] == ls[i]);
        }
        lemma_no_field_lines(cat, p);
        assert(matching_field(cat, ls[ls.len() - 1]) is None);
    }
}

} // verus!
