use vstd::prelude::*;
use crate::catalog::{metadata_properties, catalog_spec, MetadataProperty, Transform};
use crate::extract::{
    duration_spec, extract_filament_used_as_um_x10, extract_time_data_as_seconds, find_equals,
    length_spec, trim_bounds, value_part, ParseFailure, ParsingError,
};
use crate::format::{
    append_length_line, append_pair_line, append_seconds_line, length_line, pair_line,
    seconds_line,
};
use crate::text::{chars_of, trim};

verus! {

/// The line, past its two-character comment prefix, starts with `key`.
pub open spec fn has_key(l: Seq<char>, key: Seq<char>) -> bool {
    l.len() >= 2 && key.is_prefix_of(l.skip(2))
}

/// `p` is a field whose source key the line carries.
pub open spec fn is_field_for(p: MetadataProperty, l: Seq<char>) -> bool {
    match p {
        MetadataProperty::Field { prusa, .. } => has_key(l, prusa@),
        MetadataProperty::Constant { .. } => false,
    }
}

/// Index of the first field of the catalog that the line carries.
pub open spec fn matching_field(cat: Seq<MetadataProperty>, l: Seq<char>) -> Option<int> {
    if exists|j: int| 0 <= j < cat.len() && is_field_for(cat[j], l) {
        Some(
            choose|j: int|
                0 <= j < cat.len() && is_field_for(cat[j], l) && forall|k: int|
                    0 <= k < j ==> !is_field_for(#[trigger] cat[k], l),
        )
    } else {
        None
    }
}

/// The header line that entry `p` gives for source line `l`.
pub open spec fn field_line(p: MetadataProperty, l: Seq<char>) -> Result<Seq<char>, ParseFailure> {
    let c = l.skip(2);
    match p {
        MetadataProperty::Field { anker, translate_fn, .. } => match translate_fn {
            Some(Transform::Duration) => match duration_spec(c) {
                Ok(t) => Ok(seconds_line(anker@, t)),
                Err(e) => Err(e),
            },
            Some(Transform::Length) => match length_spec(c) {
                Ok(u) => Ok(length_line(anker@, u)),
                Err(e) => Err(e),
            },
            None => match value_part(c) {
                Some(v) => Ok(pair_line(anker@, trim(v))),
                None => Err(ParseFailure::MissingValue(c)),
            },
        },
        MetadataProperty::Constant { name, value } => Ok(pair_line(name@, value@)),
    }
}

/// The lines of the catalog's constants, in catalog order.
pub open spec fn constant_lines(cat: Seq<MetadataProperty>) -> Seq<Seq<char>>
    decreases cat.len(),
{
    if cat.len() == 0 {
        Seq::empty()
    } else {
        match cat.last() {
            MetadataProperty::Constant { name, value } => constant_lines(cat.drop_last()).push(
                pair_line(name@, value@),
            ),
            MetadataProperty::Field { .. } => constant_lines(cat.drop_last()),
        }
    }
}

/// The header lines that the source lines give, in the order of the lines,
/// or the failure of the first line whose value cannot be read.
pub open spec fn field_lines(cat: Seq<MetadataProperty>, ls: Seq<Seq<char>>) -> Result<
    Seq<Seq<char>>,
    ParseFailure,
>
    decreases ls.len(),
{
    if ls.len() == 0 {
        Ok(Seq::empty())
    } else {
        match field_lines(cat, ls.drop_last()) {
            Err(e) => Err(e),
            Ok(h) => match matching_field(cat, ls.last()) {
                None => Ok(h),
                Some(j) => match field_line(cat[j], ls.last()) {
                    Ok(x) => Ok(h.push(x)),
                    Err(e) => Err(e),
                },
            },
        }
    }
}

/// The lines joined with `\n` between each two.
pub open spec fn join_lines(ss: Seq<Seq<char>>) -> Seq<char>
    decreases ss.len(),
{
    if ss.len() == 0 {
        Seq::empty()
    } else if ss.len() == 1 {
        ss[0]
    } else {
        join_lines(ss.drop_last()) + seq!['\n'] + ss.last()
    }
}

/// The text of each string.
pub open spec fn texts(lines: Seq<String>) -> Seq<Seq<char>> {
    lines.map_values(|s: String| s@)
}

/// The new text of a program: the header (constants, then the converted
/// fields in the order of their lines), then every original line.
pub open spec fn translate(cat: Seq<MetadataProperty>, ls: Seq<Seq<char>>) -> Result<
    Seq<char>,
    ParseFailure,
> {
    match field_lines(cat, ls) {
        Ok(h) => Ok(join_lines(constant_lines(cat) + h + ls)),
        Err(e) => Err(e),
    }
}

/// The content of a text result.
pub open spec fn text_result_view(r: Result<String, ParsingError>) -> Result<Seq<char>, ParseFailure> {
    match r {
        Ok(s) => Ok(s@),
        Err(e) => Err(e@),
    }
}

/// Whether `line`, past its two-character prefix, starts with `key`.
pub fn line_has_key(line: &str, key: &str) -> (r: bool)
    ensures
        r == has_key(line@, key@),
{
    let n = line.unicode_len();
    let m = key.unicode_len();
    if n < 2 || m > n - 2 {
        return false;
    }
    let mut k: usize = 0;
    while k < m
        invariant
            n == line@.len(),
            m == key@.len(),
            m <= n - 2,
            k <= m,
            forall|i: int| 0 <= i < k ==> key@[i] == line@[i + 2],
        decreases m - k,
    {
        if key.get_char(k) != line.get_char(k + 2) {
            assert(line@.skip(2)[k as int] == line@[k + 2]);
            return false;
        }
        k = k + 1;
    }
    assert forall|i: int| 0 <= i < m implies key@[i] == #[trigger] line@.skip(2)[i] by {
        assert(line@.skip(2)[i] == line@[i + 2]);
    }
    true
}

/// Index of the first field of the catalog that `line` carries.
pub fn find_field(cat: &Vec<MetadataProperty>, line: &str) -> (r: Option<usize>)
    ensures
        match r {
            Some(j) => j < cat@.len() && matching_field(cat@, line@) == Some(j as int) && is_field_for(
                cat@[j as int],
                line@,
            ),
            None => matching_field(cat@, line@) is None,
        },
{
    let mut j: usize = 0;
    while j < cat.len()
        invariant
            j <= cat@.len(),
            forall|k: int| 0 <= k < j ==> !is_field_for(#[trigger] cat@[k], line@),
        decreases cat@.len() - j,
    {
        let hit = match &cat[j] {
            MetadataProperty::Field { prusa, .. } => line_has_key(line, prusa),
            MetadataProperty::Constant { .. } => false,
        };
        if hit {
            let ghost w = choose|w: int|
                0 <= w < cat@.len() && is_field_for(cat@[w], line@) && forall|k: int|
                    0 <= k < w ==> !is_field_for(#[trigger] cat@[k], line@);
            assert(is_field_for(cat@[j as int], line@));
            assert(w == j);
            return Some(j);
        }
        j = j + 1;
    }
    None
}

/// The header line that entry `p` gives for `line`.
pub fn render_field(p: &MetadataProperty, line: &str) -> (r: Result<String, ParsingError>)
    requires
        line@.len() >= 2,
    ensures
        text_result_view(r) == field_line(*p, line@),
{
    let n = line.unicode_len();
    let content = line.substring_char(2, n);
    assert(content@ =~= line@.skip(2));
    let mut out = String::new();
    match p {
        MetadataProperty::Constant { name, value } => {
            append_pair_line(&mut out, name, value);
        },
        MetadataProperty::Field { anker, translate_fn, .. } => match translate_fn {
            Some(Transform::Duration) => match extract_time_data_as_seconds(content) {
                Ok(t) => append_seconds_line(&mut out, anker, t),
                Err(e) => return Err(e),
            },
            Some(Transform::Length) => match extract_filament_used_as_um_x10(content) {
                Ok(u) => append_length_line(&mut out, anker, u),
                Err(e) => return Err(e),
            },
            None => {
                let v = chars_of(content);
                match find_equals(&v) {
                    Some(e) => {
                        assert(value_part(content@) == Some(v@.skip(e + 1)));
                        assert(e < v.len());
                        let (a, b) = trim_bounds(&v, e + 1);
                        append_pair_line(&mut out, anker, content.substring_char(a, b));
                    },
                    None => return Err(ParsingError::MissingValue(String::from_str(content))),
                }
            },
        },
    }
    assert(out@ =~= Seq::<char>::empty() + out@);
    Ok(out)
}

/// Appends `parts` joined with `\n` between each two.
pub fn join_with_newlines(parts: &Vec<String>) -> (r: String)
    ensures
        r@ == join_lines(texts(parts@)),
{
    let mut out = String::new();
    let mut i: usize = 0;
    while i < parts.len()
        invariant
            i <= parts@.len(),
            out@ == join_lines(texts(parts@).take(i as int)),
        decreases parts@.len() - i,
    {
        assert(texts(parts@).take(i + 1).drop_last() =~= texts(parts@).take(i as int));
        if i > 0 {
            proof {
                reveal_strlit("\n");
            }
            out.append("\n");
        }
        out.append(parts[i].as_str());
        assert(out@ =~= join_lines(texts(parts@).take(i + 1)));
        i = i + 1;
    }
    assert(texts(parts@).take(i as int) =~= texts(parts@));
    out
}

/// Rewrites a program for the given catalog: a header of the catalog's
/// constants and of the converted fields found in the lines, in the order of
/// the lines, followed by every line unchanged, all joined with `\n`. Fails
/// with the failure of the first line whose value cannot be read.
pub fn process_lines_with(cat: &Vec<MetadataProperty>, lines: &Vec<String>) -> (r: Result<String, ParsingError>)
    ensures
        text_result_view(r) == translate(cat@, texts(lines@)),
{
    let mut parts: Vec<String> = Vec::new();
    let mut j: usize = 0;
    while j < cat.len()
        invariant
            j <= cat@.len(),
            texts(parts@) == constant_lines(cat@.take(j as int)),
        decreases cat@.len() - j,
    {
        assert(cat@.take(j + 1).drop_last() =~= cat@.take(j as int));
        match &cat[j] {
            MetadataProperty::Constant { name, value } => {
                let mut line = String::new();
                append_pair_line(&mut line, name, value);
                parts.push(line);
                assert(texts(parts@) =~= constant_lines(cat@.take(j as int)).push(line@));
            },
            MetadataProperty::Field { .. } => {},
        }
        j = j + 1;
    }
    assert(cat@.take(j as int) =~= cat@);
    let ghost consts = texts(parts@);
    let ghost ls = texts(lines@);
    let mut i: usize = 0;
    while i < lines.len()
        invariant
            i <= lines@.len(),
            ls == texts(lines@),
            consts == constant_lines(cat@),
            field_lines(cat@, ls.take(i as int)) is Ok,
            texts(parts@) == consts + field_lines(cat@, ls.take(i as int))->Ok_0,
        decreases lines@.len() - i,
    {
        proof {
            lemma_field_lines_step(cat@, ls, i as int);
        }
        let line = lines[i].as_str();
        assert(line@ == ls[i as int]);
        match scan_line(cat, line, &mut parts) {
            Ok(()) => {
                assert(texts(parts@) =~= consts + field_lines(cat@, ls.take(i + 1))->Ok_0);
            },
            Err(e) => {
                proof {
                    lemma_field_lines_err_extends(cat@, ls.take(i + 1), ls.skip(i + 1));
                    assert(ls.take(i + 1) + ls.skip(i + 1) =~= ls);
                }
                return Err(e);
            },
        }
        i = i + 1;
    }
    assert(ls.take(i as int) =~= ls);
    let mut k: usize = 0;
    let ghost n0 = parts@.len();
    while k < lines.len()
        invariant
            k <= lines@.len(),
            ls == texts(lines@),
            parts@.len() == n0 + k,
            texts(parts@) == consts + field_lines(cat@, ls)->Ok_0 + ls.take(k as int),
        decreases lines@.len() - k,
    {
        proof {
            lemma_texts_push(parts@, lines@[k as int]);
        }
        parts.push(lines[k].clone());
        assert(texts(parts@) =~= consts + field_lines(cat@, ls)->Ok_0 + ls.take(k + 1));
        k = k + 1;
    }
    assert(ls.take(k as int) =~= ls);
    Ok(join_with_newlines(&parts))
}

/// One more line adds at most its own header line.
pub proof fn lemma_field_lines_step(cat: Seq<MetadataProperty>, ls: Seq<Seq<char>>, i: int)
    requires
        0 <= i < ls.len(),
    ensures
        field_lines(cat, ls.take(i + 1)) == match field_lines(cat, ls.take(i)) {
            Err(e) => Err(e),
            Ok(h) => match matching_field(cat, ls[i]) {
                None => Ok(h),
                Some(j) => match field_line(cat[j], ls[i]) {
                    Ok(x) => Ok(h.push(x)),
                    Err(e) => Err(e),
                },
            },
        },
{
    assert(ls.take(i + 1).drop_last() =~= ls.take(i));
}

/// The text of a pushed string is pushed.
pub proof fn lemma_texts_push(s: Seq<String>, x: String)
    ensures
        texts(s.push(x)) == texts(s).push(x@),
{
    assert(texts(s.push(x)) =~= texts(s).push(x@));
}

/// Adds to `parts` the header line that `line` gives, if it carries a field.
fn scan_line(cat: &Vec<MetadataProperty>, line: &str, parts: &mut Vec<String>) -> (r: Result<(), ParsingError>)
    ensures
        match matching_field(cat@, line@) {
            None => r is Ok && final(parts)@ == old(parts)@,
            Some(j) => match field_line(cat@[j], line@) {
                Ok(x) => r is Ok && texts(final(parts)@) == texts(old(parts)@).push(x),
                Err(e) => r matches Err(f) && f@ == e,
            },
        },
{
    match find_field(cat, line) {
        Some(k) => {
            match render_field(&cat[k], line) {
                Ok(x) => {
                    proof {
                        lemma_texts_push(parts@, x);
                    }
                    parts.push(x);
                    Ok(())
                },
                Err(e) => Err(e),
            }
        },
        None => Ok(()),
    }
}

/// Once a line fails, more lines do not change the failure.
pub proof fn lemma_field_lines_err_extends(cat: Seq<MetadataProperty>, a: Seq<Seq<char>>, b: Seq<Seq<char>>)
    requires
        field_lines(cat, a) is Err,
    ensures
        field_lines(cat, a + b) == field_lines(cat, a),
    decreases b.len(),
{
    if b.len() == 0 {
        assert(a + b =~= a);
    } else {
        assert((a + b).drop_last() =~= a + b.drop_last());
        lemma_field_lines_err_extends(cat, a, b.drop_last());
    }
}

/// Rewrites a program with the catalog of `metadata_properties`.
pub fn process_lines(lines: &Vec<String>) -> (r: Result<String, ParsingError>)
    ensures
        text_result_view(r) == translate(catalog_spec(), texts(lines@)),
{
    let cat = metadata_properties();
    process_lines_with(&cat, lines)
}

} // verus!
