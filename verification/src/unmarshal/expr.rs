//! Expressions, derived fields, user-defined functions and the
//! transformation dictionaries.

use vstd::prelude::*;
use crate::textmap::TextMap;
use crate::error::PmmlError;
use crate::strings::{string_from, trim, trimmed};
use crate::xml::{XmlEvent, XmlTag, attr, attr_required, tag_attr, opt_view, is_missing_attr, name_is};
use crate::unmarshal::raw::{
    RawExpression, RawLinearNorm, RawFieldColumnPair, RawDiscretizeBin, RawInterval,
    RawDerivedField, RawDefineFunction, RawParameterField,
};
use crate::unmarshal::common::{
    attr_or, attr_or_empty, or_empty, last_text, row_cells_read, rows_cells_read, lemma_row_cells_insert,
    lemma_row_cells_widen, lemma_row_cells_from, lemma_rows_cells_push, lemma_rows_cells_widen,
    lemma_rows_cells_append,
};
use crate::unmarshal::cursor::{
    last_tag_reached, lemma_last_tag_start, lemma_last_tag_step, lemma_last_tag_is, in_span,
    spans_ok, covers_level, read_each_reached, lemma_covers_level_step, span_step, lemma_read_each_reached,
    end_at, at_end, after_one, skip_one, unexpected_end, unbalanced, skip_element, stops_after_tag, stops_at_end_or_tag, is_end_named, read_at_positions, read_in_order, lemma_read_push, lemma_read_in_order, read_all_in_order, covers_entries, lemma_covers_step, lemma_covers_skip, childless, plain_until, plain_event, flat, flat_until,
};

verus! {

/// Names of the elements that start an expression in a derived field or a
/// function body.
pub open spec fn is_expression_name(n: Seq<char>) -> bool {
    n == "Constant"@ || n == "FieldRef"@ || n == "NormContinuous"@ || n == "NormDiscrete"@ || n
        == "Discretize"@ || n == "MapValues"@ || n == "TextIndex"@ || n == "Aggregate"@ || n
        == "Apply"@
}

/// Names of the expression elements accepted as empty-element tags.
pub open spec fn is_empty_expression_name(n: Seq<char>) -> bool {
    n == "Constant"@ || n == "FieldRef"@ || n == "NormDiscrete"@
}

fn expression_name(n: &String) -> (r: bool)
    ensures
        r == is_expression_name(n@),
{
    name_is(n, "Constant") || name_is(n, "FieldRef") || name_is(n, "NormContinuous") || name_is(
        n,
        "NormDiscrete",
    ) || name_is(n, "Discretize") || name_is(n, "MapValues") || name_is(n, "TextIndex")
        || name_is(n, "Aggregate") || name_is(n, "Apply")
}

fn empty_expression_name(n: &String) -> (r: bool)
    ensures
        r == is_empty_expression_name(n@),
{
    name_is(n, "Constant") || name_is(n, "FieldRef") || name_is(n, "NormDiscrete")
}

/// Whether `e` is a constant with the data type of tag `t`.
pub open spec fn constant_of(t: XmlTag, e: RawExpression) -> bool {
    e matches RawExpression::Constant { data_type, value } && opt_view(data_type) == tag_attr(
        t,
        "dataType"@,
    )
}

/// Whether `e` is a `NormContinuous` with the attributes of tag `t`.
pub open spec fn norm_continuous_of(t: XmlTag, e: RawExpression) -> bool {
    e matches RawExpression::NormContinuous { field, map_missing_to, default_value, outliers, .. }
        && tag_attr(t, "field"@) == Some(field@) && opt_view(map_missing_to) == tag_attr(
        t,
        "mapMissingTo"@,
    ) && opt_view(default_value) == tag_attr(t, "defaultValue"@) && opt_view(outliers) == tag_attr(
        t,
        "outliers"@,
    )
}

/// Whether `e` is a `MapValues` with the attributes of tag `t`.
pub open spec fn map_values_of(t: XmlTag, e: RawExpression) -> bool {
    e matches RawExpression::MapValues { map_missing_to, default_value, output_column, .. }
        && opt_view(map_missing_to) == tag_attr(t, "mapMissingTo"@) && opt_view(default_value)
        == tag_attr(t, "defaultValue"@) && output_column@ == or_empty(tag_attr(t, "outputColumn"@))
}

/// Whether `e` is a `Discretize` with the attributes of tag `t`.
pub open spec fn discretize_of(t: XmlTag, e: RawExpression) -> bool {
    e matches RawExpression::Discretize { field, map_missing_to, default_value, data_type, .. }
        && tag_attr(t, "field"@) == Some(field@) && opt_view(map_missing_to) == tag_attr(
        t,
        "mapMissingTo"@,
    ) && opt_view(default_value) == tag_attr(t, "defaultValue"@) && opt_view(data_type) == tag_attr(
        t,
        "dataType"@,
    )
}

/// Whether the expressions `es` were read, in order, from expression tags
/// among the events in `[i, j)`.
pub open spec fn expressions_read_in_order(ev: Seq<XmlEvent>, i: int, j: int, es: Seq<RawExpression>) -> bool {
    exists|at: Seq<int>| #[trigger] expressions_read_at(ev, i, j, at, es)
}

/// Whether `at` lists, in increasing order, positions within `[i, j)` of the
/// expression tags that `es` were read from, one for one.
pub open spec fn expressions_read_at(ev: Seq<XmlEvent>, i: int, j: int, at: Seq<int>, es: Seq<RawExpression>) -> bool {
    &&& at.len() == es.len()
    &&& forall|x: int| 0 <= x < at.len() ==> i <= #[trigger] at[x] < j && expression_read_at(ev, at[x], es[x])
    &&& forall|x: int, y: int| 0 <= x < y < at.len() ==> at[x] < at[y]
}

/// Whether `e` is an `Apply` with the attributes of tag `t`.
pub open spec fn apply_of(t: XmlTag, e: RawExpression) -> bool {
    e matches RawExpression::Apply { function, map_missing_to, default_value, .. } && tag_attr(
        t,
        "function"@,
    ) == Some(function@) && opt_view(map_missing_to) == tag_attr(t, "mapMissingTo"@) && opt_view(
        default_value,
    ) == tag_attr(t, "defaultValue"@)
}

/// The trimmed content of the last text event of `s` that is not blank,
/// empty when there is none.
pub open spec fn constant_text(s: Seq<XmlEvent>) -> Seq<char>
    decreases s.len(),
{
    if s.len() == 0 {
        Seq::empty()
    } else {
        match s.last() {
            XmlEvent::Text(Some(t)) => if trimmed(t@).len() > 0 {
                trimmed(t@)
            } else {
                constant_text(s.drop_last())
            },
            _ => constant_text(s.drop_last()),
        }
    }
}

/// A `Constant` whose start tag was just read: its `dataType`, and as value
/// the trimmed text of the last non-blank text event before its end tag (or
/// the end of the document).
pub fn parse_constant(ev: &Vec<XmlEvent>, i: usize, start: &XmlTag) -> (r: Result<
    (RawExpression, usize),
    PmmlError,
>)
    requires
        i <= ev@.len(),
    ensures
        r matches Ok((e, j)) && stops_at_end_or_tag(ev@, i as int, j as int, "Constant"@)
            && constant_of(*start, e) && (e matches RawExpression::Constant { value, .. } && value@
            == constant_text(ev@.subrange(i as int, j as int))),
{
    let data_type = attr(start, "dataType");
    let mut value = String::new();
    let mut k = i;
    proof {
        assert(ev@.subrange(i as int, i as int) =~= Seq::<XmlEvent>::empty());
    }
    loop
        invariant
            i <= k <= ev@.len(),
            value@ == constant_text(ev@.subrange(i as int, k as int)),
        ensures
            i <= k <= ev@.len(),
            value@ == constant_text(ev@.subrange(i as int, k as int)),
            at_end(ev@, k as int) || (i < k && is_end_named(ev@[k - 1], "Constant"@)),
        decreases ev@.len() - k,
    {
        if end_at(ev, k) {
            break;
        }
        proof {
            assert(ev@.subrange(i as int, k + 1 as int).drop_last() =~= ev@.subrange(i as int, k as int));
        }
        match &ev[k] {
            XmlEvent::Text(t) => {
                let txt = match t {
                    Some(s) => s.clone(),
                    None => String::new(),
                };
                let trimmed = trim(txt.as_str());
                if trimmed.as_str().unicode_len() > 0 {
                    value = trimmed;
                } else if value.as_str().unicode_len() == 0 && txt.as_str().unicode_len() > 0 {
                    value = trim(txt.as_str());
                }
            },
            XmlEvent::End(n) => {
                if name_is(n, "Constant") {
                    k = k + 1;
                    break;
                }
            },
            _ => {},
        }
        k = k + 1;
    }
    Ok((RawExpression::Constant { data_type, value }, k))
}

/// A `Constant` given as an empty-element tag: its `dataType`, empty value.
pub fn parse_constant_empty(start: &XmlTag) -> (e: RawExpression)
    ensures
        e matches RawExpression::Constant { data_type, value } && opt_view(data_type) == tag_attr(
            *start,
            "dataType"@,
        ) && value@.len() == 0,
{
    let data_type = attr(start, "dataType");
    RawExpression::Constant { data_type, value: String::new() }
}

/// A `FieldRef` from its tag; `field` is required.
pub fn parse_field_ref(start: &XmlTag) -> (r: Result<RawExpression, PmmlError>)
    ensures
        match r {
            Ok(e) => e matches RawExpression::FieldRef { field, map_missing_to } && tag_attr(
                *start,
                "field"@,
            ) == Some(field@) && opt_view(map_missing_to) == tag_attr(*start, "mapMissingTo"@),
            Err(err) => tag_attr(*start, "field"@) is None && is_missing_attr(
                err,
                "FieldRef"@,
                "field"@,
            ),
        },
{
    let field = attr_required(start, "field", "FieldRef")?;
    let map_missing_to = attr(start, "mapMissingTo");
    Ok(RawExpression::FieldRef { field, map_missing_to })
}

/// How a linear norm is read from its tag: its `orig` and `norm`.
pub open spec fn linear_norm_tag() -> spec_fn(XmlTag, RawLinearNorm) -> bool {
    |t: XmlTag, n: RawLinearNorm| opt_view(n.orig) == tag_attr(t, "orig"@) && opt_view(n.norm) == tag_attr(t, "norm"@)
}

/// How a field-column pair is read from its tag: its `field` and `column`.
pub open spec fn field_column_pair_tag() -> spec_fn(XmlTag, RawFieldColumnPair) -> bool {
    |t: XmlTag, p: RawFieldColumnPair| tag_attr(t, "field"@) == Some(p.field@) && tag_attr(t, "column"@) == Some(p.column@)
}

/// The `orig`/`norm` pair of a `LinearNorm` tag.
fn linear_norm(t: &XmlTag) -> (n: RawLinearNorm)
    ensures
        opt_view(n.orig) == tag_attr(*t, "orig"@),
        opt_view(n.norm) == tag_attr(*t, "norm"@),
{
    RawLinearNorm { orig: attr(t, "orig"), norm: attr(t, "norm") }
}

/// A `NormContinuous` whose start tag was just read; `field` is required.
pub fn parse_norm_continuous(ev: &Vec<XmlEvent>, i: usize, start: &XmlTag) -> (r: Result<
    (RawExpression, usize),
    PmmlError,
>)
    requires
        i <= ev@.len(),
    ensures
        match r {
            Ok((e, j)) => read_in_order(ev@, i as int, j as int, e->linear_norms@, "LinearNorm"@, linear_norm_tag())
            && read_all_in_order(ev@, i as int, j as int, e->linear_norms@, "LinearNorm"@, linear_norm_tag()) && stops_after_tag(ev@, i as int, j as int, "NormContinuous"@)
                && norm_continuous_of(*start, e),
            Err(e) => tag_attr(*start, "field"@) is None ==> is_missing_attr(e, "NormContinuous"@, "field"@),
        },
        childless(ev@, i as int, "NormContinuous"@) && tag_attr(*start, "field"@) is Some ==> r is Ok,
{
    let field = attr_required(start, "field", "NormContinuous")?;
    let map_missing_to = attr(start, "mapMissingTo");
    let default_value = attr(start, "defaultValue");
    let outliers = attr(start, "outliers");
    let mut linear_norms: Vec<RawLinearNorm> = Vec::new();
    let ghost mut linear_norms_at: Seq<int> = Seq::empty();
    let ghost q: int = if childless(ev@, i as int, "NormContinuous"@) {
        choose|q: int| plain_until(ev@, i as int, q, "NormContinuous"@)
    } else {
        0
    };
    let mut k = i;
    loop
        invariant_except_break
            i <= k <= ev@.len(),
            tag_attr(*start, "field"@) == Some(field@),
            read_at_positions(ev@, i as int, linear_norms_at, linear_norms@, "LinearNorm"@, linear_norm_tag()),
            linear_norms_at.len() > 0 ==> linear_norms_at.last() < k,
            covers_entries(ev@, i as int, k as int, linear_norms_at, "LinearNorm"@),
            childless(ev@, i as int, "NormContinuous"@) ==> plain_until(ev@, i as int, q, "NormContinuous"@) && k <= q,
        ensures
            i < k && is_end_named(ev@[k - 1], "NormContinuous"@),
            read_at_positions(ev@, i as int, linear_norms_at, linear_norms@, "LinearNorm"@, linear_norm_tag()),
            linear_norms_at.len() > 0 ==> linear_norms_at.last() < k,
            covers_entries(ev@, i as int, k as int, linear_norms_at, "LinearNorm"@),
            i <= k <= ev@.len(),
            tag_attr(*start, "field"@) == Some(field@),
        decreases ev@.len() - k,
    {
        proof {
            if childless(ev@, i as int, "NormContinuous"@) && k < q {
                assert(plain_event(ev@[k as int], "NormContinuous"@));
            }
        }
        if end_at(ev, k) {
            return Err(unexpected_end());
        }
        let ghost here = k as int;
        match &ev[k] {
            XmlEvent::Start(t) => {
                k = k + 1;
                if name_is(&t.name, "LinearNorm") {
                    let item = linear_norm(t);
                    proof {
                        lemma_read_push(ev@, i as int, linear_norms_at, linear_norms@, "LinearNorm"@, linear_norm_tag(), here, item);
                        lemma_covers_step(ev@, i as int, here, linear_norms_at, "LinearNorm"@, true);
                        linear_norms_at = linear_norms_at.push(here);
                    }
                    linear_norms.push(item);
                    if !end_at(ev, k) {
                        proof {
                            lemma_covers_skip(ev@, i as int, k as int, linear_norms_at, "LinearNorm"@);
                        }
                    }
                    k = skip_one(ev, k);
                } else {
                    proof {
                        lemma_covers_skip(ev@, i as int, here, linear_norms_at, "LinearNorm"@);
                    }
                }
            },
            XmlEvent::Empty(t) => {
                k = k + 1;
                if name_is(&t.name, "LinearNorm") {
                    let item = linear_norm(t);
                    proof {
                        lemma_read_push(ev@, i as int, linear_norms_at, linear_norms@, "LinearNorm"@, linear_norm_tag(), here, item);
                        lemma_covers_step(ev@, i as int, here, linear_norms_at, "LinearNorm"@, true);
                        linear_norms_at = linear_norms_at.push(here);
                    }
                    linear_norms.push(item);
                } else {
                    proof {
                        lemma_covers_skip(ev@, i as int, here, linear_norms_at, "LinearNorm"@);
                    }
                }
            },
            XmlEvent::End(n) => {
                proof {
                    lemma_covers_skip(ev@, i as int, here, linear_norms_at, "LinearNorm"@);
                }
                k = k + 1;
                if name_is(n, "NormContinuous") {
                    break;
                }
            },
            _ => {
                proof {
                    lemma_covers_skip(ev@, i as int, here, linear_norms_at, "LinearNorm"@);
                }
                k = k + 1;
            },
        }
    }
    proof {
        lemma_read_in_order(ev@, i as int, k as int, linear_norms_at, linear_norms@, "LinearNorm"@, linear_norm_tag());
        assert(read_at_positions(ev@, i as int, linear_norms_at, linear_norms@, "LinearNorm"@, linear_norm_tag()) && (linear_norms_at.len() > 0 ==> linear_norms_at.last() < k)
            && covers_entries(ev@, i as int, k as int, linear_norms_at, "LinearNorm"@));
    }
    Ok((RawExpression::NormContinuous { field, map_missing_to, default_value, outliers, linear_norms }, k))
}

/// One `row` of an `InlineTable` whose start tag was just read: each child
/// element's name maps to the last text read inside it (empty-element
/// children map to the empty text).
fn parse_row(ev: &Vec<XmlEvent>, i: usize) -> (r: Result<(TextMap, usize), PmmlError>)
    requires
        i <= ev@.len(),
    ensures
        r matches Ok((row, j)) ==> stops_after_tag(ev@, i as int, j as int, "row"@) && row_cells_read(
            ev@,
            i as int,
            j as int,
            row@,
        ),
        childless(ev@, i as int, "row"@) ==> r is Ok,
{
    let mut row: TextMap = TextMap::new();
    let ghost q: int = if childless(ev@, i as int, "row"@) {
        choose|q: int| plain_until(ev@, i as int, q, "row"@)
    } else {
        0
    };
    let mut k = i;
    loop
        invariant_except_break
            i <= k <= ev@.len(),
            row_cells_read(ev@, i as int, k as int, row@),
            childless(ev@, i as int, "row"@) ==> plain_until(ev@, i as int, q, "row"@) && k <= q,
        ensures
            i < k && is_end_named(ev@[k - 1], "row"@),
            row_cells_read(ev@, i as int, k as int, row@),
            i <= k <= ev@.len(),
        decreases ev@.len() - k,
    {
        proof {
            if childless(ev@, i as int, "row"@) && k < q {
                assert(plain_event(ev@[k as int], "row"@));
            }
        }
        if end_at(ev, k) {
            return Err(unexpected_end());
        }
        let ghost here = k as int;
        match &ev[k] {
            XmlEvent::Start(cell) => {
                let col = cell.name.clone();
                let mut text = String::new();
                k = k + 1;
                let ghost k0 = k as int;
                proof {
                    assert(ev@.subrange(k0, k0) =~= Seq::<XmlEvent>::empty());
                }
                loop
                    invariant
                        !childless(ev@, i as int, "row"@),
                        i <= here < k0 <= k <= ev@.len(),
                        k0 == here + 1,
                        text@ == last_text(ev@.subrange(k0, k as int)),
                    ensures
                        k0 < k <= ev@.len(),
                        text@ == last_text(ev@.subrange(k0, k as int)),
                    decreases ev@.len() - k,
                {
                    if end_at(ev, k) {
                        return Err(unexpected_end());
                    }
                    proof {
                        assert(ev@.subrange(k0, k + 1 as int).drop_last() =~= ev@.subrange(k0, k as int));
                    }
                    match &ev[k] {
                        XmlEvent::Text(t) => {
                            text = match t {
                                Some(s) => s.clone(),
                                None => String::new(),
                            };
                        },
                        XmlEvent::End(n) => {
                            if name_is(n, col.as_str()) {
                                k = k + 1;
                                break;
                            }
                        },
                        _ => {},
                    }
                    k = k + 1;
                }
                proof {
                    lemma_row_cells_insert(ev@, i as int, here, k as int, row@, here, k as int, col@, text@);
                }
                row.insert(col, text);
            },
            XmlEvent::Empty(cell) => {
                proof {
                    lemma_row_cells_insert(ev@, i as int, here, here + 1, row@, here, here + 1, cell.name@, Seq::<char>::empty());
                }
                row.insert(cell.name.clone(), String::new());
                k = k + 1;
            },
            XmlEvent::End(n) => {
                proof {
                    lemma_row_cells_widen(ev@, i as int, k as int, k + 1, row@);
                }
                k = k + 1;
                if name_is(n, "row") {
                    break;
                }
            },
            _ => {
                proof {
                    lemma_row_cells_widen(ev@, i as int, k as int, k + 1, row@);
                }
                k = k + 1;
            },
        }
    }
    Ok((row, k))
}

/// The rows of an `InlineTable` whose start tag was just read.
fn parse_inline_table(ev: &Vec<XmlEvent>, i: usize) -> (r: Result<
    (Vec<TextMap>, usize),
    PmmlError,
>)
    requires
        i <= ev@.len(),
    ensures
        r matches Ok((rows, j)) ==> stops_after_tag(ev@, i as int, j as int, "InlineTable"@)
            && rows_cells_read(ev@, i as int, j as int, rows@),
        childless(ev@, i as int, "InlineTable"@) ==> r is Ok,
{
    let mut rows: Vec<TextMap> = Vec::new();
    let ghost q: int = if childless(ev@, i as int, "InlineTable"@) {
        choose|q: int| plain_until(ev@, i as int, q, "InlineTable"@)
    } else {
        0
    };
    let mut k = i;
    loop
        invariant_except_break
            i <= k <= ev@.len(),
            rows_cells_read(ev@, i as int, k as int, rows@),
            childless(ev@, i as int, "InlineTable"@) ==> plain_until(ev@, i as int, q, "InlineTable"@) && k <= q,
        ensures
            i < k && is_end_named(ev@[k - 1], "InlineTable"@),
            rows_cells_read(ev@, i as int, k as int, rows@),
            i <= k <= ev@.len(),
        decreases ev@.len() - k,
    {
        proof {
            if childless(ev@, i as int, "InlineTable"@) && k < q {
                assert(plain_event(ev@[k as int], "InlineTable"@));
            }
        }
        if end_at(ev, k) {
            return Err(unexpected_end());
        }
        let ghost k_before = k as int;
        match &ev[k] {
            XmlEvent::Start(t) => {
                proof {
                    lemma_rows_cells_widen(ev@, i as int, k as int, k + 1, rows@);
                }
                k = k + 1;
                if name_is(&t.name, "row") {
                    let (row, j) = parse_row(ev, k)?;
                    proof {
                        lemma_row_cells_from(ev@, k as int, i as int, j as int, row@);
                        lemma_rows_cells_push(ev@, i as int, k_before, j as int, rows@, row);
                    }
                    rows.push(row);
                    k = j;
                }
            },
            XmlEvent::End(n) => {
                proof {
                    lemma_rows_cells_widen(ev@, i as int, k as int, k + 1, rows@);
                }
                k = k + 1;
                if name_is(n, "InlineTable") {
                    break;
                }
            },
            _ => {
                proof {
                    lemma_rows_cells_widen(ev@, i as int, k as int, k + 1, rows@);
                }
                k = k + 1;
            },
        }
    }
    Ok((rows, k))
}

/// A `FieldColumnPair` from its tag; `field` and `column` are required.
fn field_column_pair(t: &XmlTag) -> (r: Result<RawFieldColumnPair, PmmlError>)
    ensures
        r matches Ok(p) ==> tag_attr(*t, "field"@) == Some(p.field@) && tag_attr(*t, "column"@)
            == Some(p.column@),
        r is Ok <==> tag_attr(*t, "field"@) is Some && tag_attr(*t, "column"@) is Some,
        r matches Err(e) ==> if tag_attr(*t, "field"@) is None {
            is_missing_attr(e, "FieldColumnPair"@, "field"@)
        } else {
            is_missing_attr(e, "FieldColumnPair"@, "column"@)
        },
{
    let field = attr_required(t, "field", "FieldColumnPair")?;
    let column = attr_required(t, "column", "FieldColumnPair")?;
    Ok(RawFieldColumnPair { field, column })
}

/// A `MapValues` whose start tag was just read.
pub fn parse_map_values(ev: &Vec<XmlEvent>, i: usize, start: &XmlTag) -> (r: Result<
    (RawExpression, usize),
    PmmlError,
>)
    requires
        0 < i <= ev@.len(),
    ensures
        r matches Ok((e, j)) ==> read_in_order(ev@, i as int, j as int, e->field_column_pairs@, "FieldColumnPair"@, field_column_pair_tag()) && stops_after_tag(ev@, i as int, j as int, "MapValues"@)
            && map_values_of(
            *start,
            e,
        ) && rows_cells_read(ev@, i as int, j as int, e->inline_table@),
        childless(ev@, i as int, "MapValues"@) ==> r is Ok,
{
    let map_missing_to = attr(start, "mapMissingTo");
    let default_value = attr(start, "defaultValue");
    let output_column = attr_or_empty(start, "outputColumn");
    let mut field_column_pairs: Vec<RawFieldColumnPair> = Vec::new();
    let ghost mut field_column_pairs_at: Seq<int> = Seq::empty();
    let mut inline_table: Vec<TextMap> = Vec::new();
    let ghost mut table_hi: int = i as int;
    let ghost q: int = if childless(ev@, i as int, "MapValues"@) {
        choose|q: int| plain_until(ev@, i as int, q, "MapValues"@)
    } else {
        0
    };
    let mut k = i;
    loop
        invariant_except_break
            0 < i <= k <= ev@.len(),
            read_at_positions(ev@, i as int, field_column_pairs_at, field_column_pairs@, "FieldColumnPair"@, field_column_pair_tag()),
            field_column_pairs_at.len() > 0 ==> field_column_pairs_at.last() < k,
            table_hi <= k && rows_cells_read(ev@, i as int, table_hi, inline_table@),
            childless(ev@, i as int, "MapValues"@) ==> plain_until(ev@, i as int, q, "MapValues"@) && k <= q,
        ensures
            i < k && is_end_named(ev@[k - 1], "MapValues"@),
            read_at_positions(ev@, i as int, field_column_pairs_at, field_column_pairs@, "FieldColumnPair"@, field_column_pair_tag()),
            field_column_pairs_at.len() > 0 ==> field_column_pairs_at.last() < k,
            table_hi <= k && rows_cells_read(ev@, i as int, table_hi, inline_table@),
            0 < i <= k <= ev@.len(),
        decreases ev@.len() - k,
    {
        proof {
            if childless(ev@, i as int, "MapValues"@) && k < q {
                assert(plain_event(ev@[k as int], "MapValues"@));
            }
        }
        if end_at(ev, k) {
            return Err(unexpected_end());
        }
        let ghost here = k as int;
        match &ev[k] {
            XmlEvent::Start(t) => {
                k = k + 1;
                if name_is(&t.name, "FieldColumnPair") {
                    let item = field_column_pair(t)?;
                    proof {
                        lemma_read_push(ev@, i as int, field_column_pairs_at, field_column_pairs@, "FieldColumnPair"@, field_column_pair_tag(), here, item);
                        field_column_pairs_at = field_column_pairs_at.push(here);
                    }
                    field_column_pairs.push(item);
                    k = skip_one(ev, k);
                } else if name_is(&t.name, "InlineTable") {
                    let (mut rows, j) = parse_inline_table(ev, k)?;
                    proof {
                        lemma_rows_cells_append(ev@, i as int, table_hi, k as int, j as int, inline_table@, rows@);
                        table_hi = j as int;
                    }
                    inline_table.append(&mut rows);
                    k = j;
                } else if name_is(&t.name, "Extension") {
                    k = skip_element(ev, k, "Extension", false)?;
                } else {
                    k = skip_element(ev, k, t.name.as_str(), false)?;
                }
            },
            XmlEvent::Empty(t) => {
                k = k + 1;
                if name_is(&t.name, "FieldColumnPair") {
                    let item = field_column_pair(t)?;
                    proof {
                        lemma_read_push(ev@, i as int, field_column_pairs_at, field_column_pairs@, "FieldColumnPair"@, field_column_pair_tag(), here, item);
                        field_column_pairs_at = field_column_pairs_at.push(here);
                    }
                    field_column_pairs.push(item);
                }
            },
            XmlEvent::End(n) => {
                k = k + 1;
                if name_is(n, "MapValues") {
                    break;
                }
            },
            _ => {
                k = k + 1;
            },
        }
    }
    proof {
        lemma_read_in_order(ev@, i as int, k as int, field_column_pairs_at, field_column_pairs@, "FieldColumnPair"@, field_column_pair_tag());
    }
    proof {
        lemma_rows_cells_widen(ev@, i as int, table_hi, k as int, inline_table@);
    }
    Ok((RawExpression::MapValues { map_missing_to, default_value, output_column, field_column_pairs, inline_table }, k))
}

/// The `Interval` attributes: `closure` (default `closedOpen`) and margins.
fn interval_of(t: &XmlTag) -> (iv: RawInterval)
    ensures
        iv.closure@ == match tag_attr(*t, "closure"@) {
            Some(c) => c,
            None => "closedOpen"@,
        },
        opt_view(iv.left_margin) == tag_attr(*t, "leftMargin"@),
        opt_view(iv.right_margin) == tag_attr(*t, "rightMargin"@),
{
    RawInterval {
        closure: attr_or(t, "closure", "closedOpen"),
        left_margin: attr(t, "leftMargin"),
        right_margin: attr(t, "rightMargin"),
    }
}

/// How a discretize bin is read from its tag: its `binValue`.
pub open spec fn discretize_bin_tag() -> spec_fn(XmlTag, RawDiscretizeBin) -> bool {
    |t: XmlTag, b: RawDiscretizeBin| tag_attr(t, "binValue"@) == Some(b.bin_value@)
}

/// Whether event `e` is an `Interval` start or empty-element tag.
pub open spec fn is_interval_tag(e: XmlEvent) -> bool {
    match e {
        XmlEvent::Start(t) => t.name@ == "Interval"@,
        XmlEvent::Empty(t) => t.name@ == "Interval"@,
        _ => false,
    }
}

/// [`is_interval_tag`] as a value.
pub open spec fn interval_tag() -> spec_fn(XmlEvent) -> bool {
    |e: XmlEvent| is_interval_tag(e)
}

/// Whether `iv` holds the attributes of `Interval` tag `t`: `closure`
/// (`closedOpen` when absent), `leftMargin` and `rightMargin`.
pub open spec fn interval_of_tag(t: XmlTag, iv: RawInterval) -> bool {
    &&& iv.closure@ == match tag_attr(t, "closure"@) {
        Some(c) => c,
        None => "closedOpen"@,
    }
    &&& opt_view(iv.left_margin) == tag_attr(t, "leftMargin"@)
    &&& opt_view(iv.right_margin) == tag_attr(t, "rightMargin"@)
}

/// Whether `iv` is what the `Interval` tag at `pa` gives, or, for `pa ==
/// -1`, the default interval: `closedOpen` without margins.
pub open spec fn interval_at(ev: Seq<XmlEvent>, pa: int, iv: RawInterval) -> bool {
    if pa == -1 {
        iv.closure@ == "closedOpen"@ && iv.left_margin is None && iv.right_margin is None
    } else {
        match ev[pa] {
            XmlEvent::Start(t) => interval_of_tag(t, iv),
            XmlEvent::Empty(t) => interval_of_tag(t, iv),
            _ => false,
        }
    }
}

/// Whether `iv` is the interval of the last `Interval` tag that reading
/// reached in `[lo, hi)`, or the default interval when it reached none.
pub open spec fn bin_interval_read(ev: Seq<XmlEvent>, lo: int, hi: int, iv: RawInterval) -> bool {
    exists|pa: int, spans: Seq<(int, int)>|
        #[trigger] last_tag_reached(ev, lo, hi, spans, pa, interval_tag(), interval_tag()) && interval_at(ev, pa, iv)
}

/// A bin whose content holds exactly one `Interval` tag, at `p`, has the
/// interval of that tag: its `closure` (`closedOpen` when absent),
/// `leftMargin` and `rightMargin`.
pub proof fn law_bin_single_interval(ev: Seq<XmlEvent>, lo: int, hi: int, iv: RawInterval, p: int)
    requires
        bin_interval_read(ev, lo, hi, iv),
        0 <= lo <= p < hi <= ev.len(),
        is_interval_tag(ev[p]),
        forall|q: int| lo <= q < hi && q != p ==> !is_interval_tag(#[trigger] ev[q]),
    ensures
        match ev[p] {
            XmlEvent::Start(t) => interval_of_tag(t, iv),
            XmlEvent::Empty(t) => interval_of_tag(t, iv),
            _ => false,
        },
{
    let (pa, spans) = choose|pa: int, spans: Seq<(int, int)>|
        #[trigger] last_tag_reached(ev, lo, hi, spans, pa, interval_tag(), interval_tag()) && interval_at(ev, pa, iv);
    lemma_last_tag_is(ev, lo, hi, spans, pa, interval_tag(), interval_tag(), p);
}

/// A bin whose content holds no `Interval` tag has the default interval:
/// `closedOpen` without margins.
pub proof fn law_bin_default_interval(ev: Seq<XmlEvent>, lo: int, hi: int, iv: RawInterval)
    requires
        bin_interval_read(ev, lo, hi, iv),
        forall|q: int| lo <= q < hi ==> !is_interval_tag(#[trigger] ev[q]),
    ensures
        iv.closure@ == "closedOpen"@,
        iv.left_margin is None,
        iv.right_margin is None,
{
    let (pa, spans) = choose|pa: int, spans: Seq<(int, int)>|
        #[trigger] last_tag_reached(ev, lo, hi, spans, pa, interval_tag(), interval_tag()) && interval_at(ev, pa, iv);
    if pa != -1 {
        assert(is_interval_tag(ev[pa]));
    }
}

/// One `DiscretizeBin` whose start tag was just read: the last `Interval`
/// child wins; reading stops at the bin's end tag.
fn parse_discretize_bin(ev: &Vec<XmlEvent>, i: usize, start: &XmlTag) -> (r: Result<
    (RawDiscretizeBin, usize),
    PmmlError,
>)
    requires
        i <= ev@.len(),
    ensures
        r matches Ok((b, j)) ==> stops_after_tag(ev@, i as int, j as int, "DiscretizeBin"@)
            && tag_attr(*start, "binValue"@)
            == Some(b.bin_value@) && bin_interval_read(ev@, i as int, j as int, b.interval),
        childless(ev@, i as int, "DiscretizeBin"@) && tag_attr(*start, "binValue"@) is Some ==> r is Ok,
{
    let bin_value = attr_required(start, "binValue", "DiscretizeBin")?;
    let mut interval = RawInterval {
        closure: string_from("closedOpen"),
        left_margin: None,
        right_margin: None,
    };
    let ghost q: int = if childless(ev@, i as int, "DiscretizeBin"@) {
        choose|q: int| plain_until(ev@, i as int, q, "DiscretizeBin"@)
    } else {
        0
    };
    let ghost mut pa: int = -1;
    let ghost mut spans: Seq<(int, int)> = Seq::empty();
    proof {
        lemma_last_tag_start(ev@, i as int, interval_tag(), interval_tag());
        reveal_strlit("closedOpen");
    }
    let mut k = i;
    loop
        invariant_except_break
            i <= k <= ev@.len(),
            childless(ev@, i as int, "DiscretizeBin"@) ==> plain_until(ev@, i as int, q, "DiscretizeBin"@) && k <= q,
            last_tag_reached(ev@, i as int, k as int, spans, pa, interval_tag(), interval_tag()),
            interval_at(ev@, pa, interval),
        ensures
            last_tag_reached(ev@, i as int, k as int, spans, pa, interval_tag(), interval_tag()),
            interval_at(ev@, pa, interval),
            i < k && is_end_named(ev@[k - 1], "DiscretizeBin"@),
            i <= k <= ev@.len(),
        decreases ev@.len() - k,
    {
        proof {
            if childless(ev@, i as int, "DiscretizeBin"@) && k < q {
                assert(plain_event(ev@[k as int], "DiscretizeBin"@));
            }
        }
        if end_at(ev, k) {
            return Err(unexpected_end());
        }
        let ghost here = k as int;
        match &ev[k] {
            XmlEvent::Start(t) => {
                k = k + 1;
                if name_is(&t.name, "Interval") {
                    interval = interval_of(t);
                    k = skip_one(ev, k);
                    proof {
                        lemma_last_tag_step(ev@, i as int, here, k as int, spans, pa, here, interval_tag(), interval_tag());
                        spans = span_step(spans, here, k as int);
                        pa = here;
                    }
                } else {
                    proof {
                        lemma_last_tag_step(ev@, i as int, here, k as int, spans, pa, pa, interval_tag(), interval_tag());
                        spans = span_step(spans, here, k as int);
                    }
                }
            },
            XmlEvent::Empty(t) => {
                k = k + 1;
                if name_is(&t.name, "Interval") {
                    interval = interval_of(t);
                    proof {
                        lemma_last_tag_step(ev@, i as int, here, k as int, spans, pa, here, interval_tag(), interval_tag());
                        spans = span_step(spans, here, k as int);
                        pa = here;
                    }
                } else {
                    proof {
                        lemma_last_tag_step(ev@, i as int, here, k as int, spans, pa, pa, interval_tag(), interval_tag());
                        spans = span_step(spans, here, k as int);
                    }
                }
            },
            XmlEvent::End(n) => {
                k = k + 1;
                proof {
                    lemma_last_tag_step(ev@, i as int, here, k as int, spans, pa, pa, interval_tag(), interval_tag());
                    spans = span_step(spans, here, k as int);
                }
                if name_is(n, "DiscretizeBin") {
                    break;
                }
            },
            _ => {
                k = k + 1;
                proof {
                    lemma_last_tag_step(ev@, i as int, here, k as int, spans, pa, pa, interval_tag(), interval_tag());
                    spans = span_step(spans, here, k as int);
                }
            },
        }
    }
    Ok((RawDiscretizeBin { bin_value, interval }, k))
}

/// Whether `b` is the bin read at the `DiscretizeBin` tag at `p`: its
/// interval is the one its content gives, up to its end tag.
pub open spec fn bin_content_read(ev: Seq<XmlEvent>, p: int, b: RawDiscretizeBin) -> bool {
    exists|e: int|
        p + 1 < e <= ev.len() && is_end_named(ev[e - 1], "DiscretizeBin"@) && #[trigger] bin_interval_read(
            ev,
            p + 1,
            e,
            b.interval,
        )
}

/// Whether the bins `bins` were read, in order, from `DiscretizeBin` tags
/// from `lo` on, each with the interval its content gives.
pub open spec fn bins_read(ev: Seq<XmlEvent>, lo: int, bins: Seq<RawDiscretizeBin>) -> bool {
    exists|at: Seq<int>|
        #[trigger] read_at_positions(ev, lo, at, bins, "DiscretizeBin"@, discretize_bin_tag()) && forall|x: int|
            0 <= x < at.len() ==> #[trigger] bin_content_read(ev, at[x], bins[x])
}

/// A `Discretize` whose start tag was just read; `field` is required.
pub fn parse_discretize(ev: &Vec<XmlEvent>, i: usize, start: &XmlTag) -> (r: Result<
    (RawExpression, usize),
    PmmlError,
>)
    requires
        i <= ev@.len(),
    ensures
        match r {
            Ok((e, j)) => read_in_order(ev@, i as int, j as int, e->bins@, "DiscretizeBin"@, discretize_bin_tag()) && bins_read(ev@, i as int, e->bins@) && stops_after_tag(ev@, i as int, j as int, "Discretize"@)
                && discretize_of(*start, e),
            Err(e) => tag_attr(*start, "field"@) is None ==> is_missing_attr(e, "Discretize"@, "field"@),
        },
        childless(ev@, i as int, "Discretize"@) && tag_attr(*start, "field"@) is Some ==> r is Ok,
{
    let field = attr_required(start, "field", "Discretize")?;
    let map_missing_to = attr(start, "mapMissingTo");
    let default_value = attr(start, "defaultValue");
    let data_type = attr(start, "dataType");
    let mut bins: Vec<RawDiscretizeBin> = Vec::new();
    let ghost mut bins_at: Seq<int> = Seq::empty();
    let ghost q: int = if childless(ev@, i as int, "Discretize"@) {
        choose|q: int| plain_until(ev@, i as int, q, "Discretize"@)
    } else {
        0
    };
    let mut k = i;
    loop
        invariant_except_break
            i <= k <= ev@.len(),
            tag_attr(*start, "field"@) == Some(field@),
            read_at_positions(ev@, i as int, bins_at, bins@, "DiscretizeBin"@, discretize_bin_tag()),
            forall|x: int| 0 <= x < bins_at.len() ==> #[trigger] bin_content_read(ev@, bins_at[x], bins@[x]),
            bins_at.len() > 0 ==> bins_at.last() < k,
            childless(ev@, i as int, "Discretize"@) ==> plain_until(ev@, i as int, q, "Discretize"@) && k <= q,
        ensures
            i < k && is_end_named(ev@[k - 1], "Discretize"@),
            read_at_positions(ev@, i as int, bins_at, bins@, "DiscretizeBin"@, discretize_bin_tag()),
            forall|x: int| 0 <= x < bins_at.len() ==> #[trigger] bin_content_read(ev@, bins_at[x], bins@[x]),
            bins_at.len() > 0 ==> bins_at.last() < k,
            i <= k <= ev@.len(),
            tag_attr(*start, "field"@) == Some(field@),
        decreases ev@.len() - k,
    {
        proof {
            if childless(ev@, i as int, "Discretize"@) && k < q {
                assert(plain_event(ev@[k as int], "Discretize"@));
            }
        }
        if end_at(ev, k) {
            return Err(unexpected_end());
        }
        let ghost here = k as int;
        match &ev[k] {
            XmlEvent::Start(t) => {
                k = k + 1;
                if name_is(&t.name, "DiscretizeBin") {
                    let (b, j) = parse_discretize_bin(ev, k, t)?;
                    let item = b;
                    let ghost before = bins@;
                    let ghost at_before = bins_at;
                    proof {
                        assert(bin_content_read(ev@, here, item));
                        lemma_read_push(ev@, i as int, bins_at, bins@, "DiscretizeBin"@, discretize_bin_tag(), here, item);
                        bins_at = bins_at.push(here);
                    }
                    bins.push(item);
                    proof {
                        assert forall|x: int| 0 <= x < bins_at.len() implies #[trigger] bin_content_read(ev@, bins_at[x], bins@[x]) by {
                            if x < at_before.len() {
                                assert(bins_at[x] == at_before[x] && bins@[x] == before[x]);
                            }
                        }
                    }
                    k = j;
                }
            },
            XmlEvent::End(n) => {
                k = k + 1;
                if name_is(n, "Discretize") {
                    break;
                }
            },
            _ => {
                k = k + 1;
            },
        }
    }
    proof {
        lemma_read_in_order(ev@, i as int, k as int, bins_at, bins@, "DiscretizeBin"@, discretize_bin_tag());
    }
    proof {
        assert(read_at_positions(ev@, i as int, bins_at, bins@, "DiscretizeBin"@, discretize_bin_tag()));
    }
    Ok((RawExpression::Discretize { field, map_missing_to, default_value, data_type, bins }, k))
}

/// An expression read at `k`, past every earlier position, extends the
/// expressions read up to `k`, now up to `j`.
proof fn lemma_expressions_push(
    ev: Seq<XmlEvent>,
    i: int,
    k: int,
    j: int,
    at: Seq<int>,
    es: Seq<RawExpression>,
    e: RawExpression,
)
    requires
        expressions_read_at(ev, i, k, at, es),
        i <= k < j,
        expression_read_at(ev, k, e),
    ensures
        expressions_read_at(ev, i, j, at.push(k), es.push(e)),
{
    assert forall|x: int| 0 <= x < at.push(k).len() implies i <= #[trigger] at.push(k)[x] < j && expression_read_at(
        ev,
        at.push(k)[x],
        es.push(e)[x],
    ) by {
        if x < at.len() {
            assert(at.push(k)[x] == at[x] && es.push(e)[x] == es[x]);
        }
    }
    assert forall|x: int, y: int| 0 <= x < y < at.push(k).len() implies at.push(k)[x] < at.push(k)[y] by {
        if y < at.len() {
            assert(at[x] < at[y]);
        } else {
            assert(at.push(k)[x] == at[x]);
        }
    }
}

/// Expressions read within `[i, k)` were read within `[i, j)` for `k <= j`.
proof fn lemma_expressions_widen(ev: Seq<XmlEvent>, i: int, k: int, j: int, at: Seq<int>, es: Seq<RawExpression>)
    requires
        expressions_read_at(ev, i, k, at, es),
        k <= j,
    ensures
        expressions_read_at(ev, i, j, at, es),
{
    assert forall|x: int| 0 <= x < at.len() implies i <= #[trigger] at[x] < j && expression_read_at(ev, at[x], es[x]) by {
        assert(i <= at[x] < k);
    }
}

/// An `Apply` whose start tag was just read: `function` is required; each
/// child element is an argument expression.
pub fn parse_apply(ev: &Vec<XmlEvent>, i: usize, start: &XmlTag) -> (r: Result<
    (RawExpression, usize),
    PmmlError,
>)
    requires
        0 < i <= ev@.len(),
    ensures
        match r {
            Ok((e, j)) => stops_after_tag(ev@, i as int, j as int, "Apply"@) && apply_of(*start, e)
                && expressions_read_in_order(ev@, i as int, j as int, e->args@),
            Err(e) => tag_attr(*start, "function"@) is None ==> is_missing_attr(e, "Apply"@, "function"@),
        },
        childless(ev@, i as int, "Apply"@) && tag_attr(*start, "function"@) is Some ==> r is Ok,
    decreases ev@.len() - i, 0nat,
{
    let function = attr_required(start, "function", "Apply")?;
    let map_missing_to = attr(start, "mapMissingTo");
    let default_value = attr(start, "defaultValue");
    let mut args: Vec<RawExpression> = Vec::new();
    let ghost mut args_at: Seq<int> = Seq::empty();
    let ghost q: int = if childless(ev@, i as int, "Apply"@) {
        choose|q: int| plain_until(ev@, i as int, q, "Apply"@)
    } else {
        0
    };
    let mut k = i;
    loop
        invariant_except_break
            0 < i <= k <= ev@.len(),
            tag_attr(*start, "function"@) == Some(function@),
            expressions_read_at(ev@, i as int, k as int, args_at, args@),
            childless(ev@, i as int, "Apply"@) ==> plain_until(ev@, i as int, q, "Apply"@) && k <= q,
        ensures
            i < k && is_end_named(ev@[k - 1], "Apply"@),
            expressions_read_at(ev@, i as int, k as int, args_at, args@),
            0 < i <= k <= ev@.len(),
            tag_attr(*start, "function"@) == Some(function@),
        decreases ev@.len() - k,
    {
        proof {
            if childless(ev@, i as int, "Apply"@) && k < q {
                assert(plain_event(ev@[k as int], "Apply"@));
            }
        }
        if end_at(ev, k) {
            return Err(unexpected_end());
        }
        match &ev[k] {
            XmlEvent::Start(t) => {
                let (e, j) = parse_expression_from_start(ev, k + 1, t, &t.name)?;
                proof {
                    lemma_expressions_push(ev@, i as int, k as int, j as int, args_at, args@, e);
                    args_at = args_at.push(k as int);
                }
                args.push(e);
                k = j;
            },
            XmlEvent::Empty(t) => {
                let e = parse_expression_empty(t, &t.name)?;
                proof {
                    lemma_expressions_push(ev@, i as int, k as int, k + 1, args_at, args@, e);
                    args_at = args_at.push(k as int);
                }
                args.push(e);
                k = k + 1;
            },
            XmlEvent::End(n) => {
                proof {
                    lemma_expressions_widen(ev@, i as int, k as int, k + 1, args_at, args@);
                }
                k = k + 1;
                if name_is(n, "Apply") {
                    break;
                }
            },
            _ => {
                proof {
                    lemma_expressions_widen(ev@, i as int, k as int, k + 1, args_at, args@);
                }
                k = k + 1;
            },
        }
    }
    proof {
        assert(expressions_read_at(ev@, i as int, k as int, args_at, args@));
    }
    Ok((RawExpression::Apply { function, map_missing_to, default_value, args }, k))
}

/// What an empty expression element named `tag` with tag `t` is read as:
/// a constant with an empty value, a field reference, a discrete
/// normalisation, a continuous normalisation of its `field` (empty when
/// absent) with nothing else, and `Unknown` for any other element.
pub open spec fn expression_empty_of(tag: Seq<char>, t: XmlTag, e: RawExpression) -> bool {
    if tag == "Constant"@ {
        constant_of(t, e) && (e matches RawExpression::Constant { value, .. } && value@.len() == 0)
    } else if tag == "FieldRef"@ {
        field_ref_of(t, e)
    } else if tag == "NormDiscrete"@ {
        norm_discrete_of(t, e)
    } else if tag == "NormContinuous"@ {
        e matches RawExpression::NormContinuous {
            field,
            map_missing_to,
            default_value,
            outliers,
            linear_norms,
        } && field@ == or_empty(tag_attr(t, "field"@)) && map_missing_to is None && default_value is None
            && outliers is None && linear_norms@.len() == 0
    } else {
        e is Unknown
    }
}

/// Whether empty-element tag `t` named `tag` holds the attributes its
/// expression requires: `field` for a `FieldRef`, `field` and `value` for a
/// `NormDiscrete`.
pub open spec fn expression_empty_required(tag: Seq<char>, t: XmlTag) -> bool {
    if tag == "FieldRef"@ {
        tag_attr(t, "field"@) is Some
    } else if tag == "NormDiscrete"@ {
        tag_attr(t, "field"@) is Some && tag_attr(t, "value"@) is Some
    } else {
        true
    }
}

/// An expression given as an empty-element tag named `tag`.
pub fn parse_expression_empty(start: &XmlTag, tag: &String) -> (r: Result<RawExpression, PmmlError>)
    ensures
        r matches Ok(e) ==> expression_empty_of(tag@, *start, e),
        r is Ok <==> expression_empty_required(tag@, *start),
{
    proof {
        lemma_expression_names();
    }
    if name_is(tag, "Constant") {
        Ok(parse_constant_empty(start))
    } else if name_is(tag, "FieldRef") {
        parse_field_ref(start)
    } else if name_is(tag, "NormDiscrete") {
        let field = attr_required(start, "field", "NormDiscrete")?;
        let value = attr_required(start, "value", "NormDiscrete")?;
        let map_missing_to = attr(start, "mapMissingTo");
        let default_value = attr(start, "defaultValue");
        Ok(RawExpression::NormDiscrete { field, value, map_missing_to, default_value })
    } else if name_is(tag, "NormContinuous") {
        let field = attr_or_empty(start, "field");
        Ok(RawExpression::NormContinuous {
            field,
            map_missing_to: None,
            default_value: None,
            outliers: None,
            linear_norms: Vec::new(),
        })
    } else {
        Ok(RawExpression::Unknown)
    }
}

/// The `TextIndex` children: the first expression read is the text, every
/// later one the search term; other child elements only open a level.
fn parse_text_index(ev: &Vec<XmlEvent>, i: usize, start: &XmlTag) -> (r: Result<
    (RawExpression, usize),
    PmmlError,
>)
    requires
        0 < i <= ev@.len(),
    ensures
        r matches Ok((e, j)) ==> stops_after_tag(ev@, i as int, j as int, "TextIndex"@)
            && (e is TextIndex
            || e is Unknown),
        flat(ev@, i as int, "TextIndex"@) ==> r is Ok,
    decreases ev@.len() - i, 0nat,
{
    let field = attr_or_empty(start, "field");
    let mut depth: usize = 1;
    let mut text_expr: Option<RawExpression> = None;
    let mut search_expr: Option<RawExpression> = None;
    let ghost q: int = if flat(ev@, i as int, "TextIndex"@) {
        choose|q: int| flat_until(ev@, i as int, q, "TextIndex"@)
    } else {
        0
    };
    let mut k = i;
    loop
        invariant_except_break
            0 < i <= k <= ev@.len(),
            depth <= k - i + 1,
            flat(ev@, i as int, "TextIndex"@) ==> flat_until(ev@, i as int, q, "TextIndex"@) && k <= q
                && depth == 1,
        ensures
            i < k <= ev@.len() && is_end_named(ev@[k - 1], "TextIndex"@),
        decreases ev@.len() - k,
    {
        proof {
            if flat(ev@, i as int, "TextIndex"@) && k < q {
                assert(plain_event(ev@[k as int], "TextIndex"@));
                assert(!(ev@[k as int] is End));
            }
        }
        if end_at(ev, k) {
            return Err(unexpected_end());
        }
        match &ev[k] {
            XmlEvent::Start(t) => {
                if name_is(&t.name, "FieldRef") || name_is(&t.name, "Constant") || name_is(
                    &t.name,
                    "Apply",
                ) {
                    let (e, j) = parse_expression_from_start(ev, k + 1, t, &t.name)?;
                    if text_expr.is_none() {
                        text_expr = Some(e);
                    } else {
                        search_expr = Some(e);
                    }
                    k = j;
                } else {
                    depth = depth + 1;
                    k = k + 1;
                }
            },
            XmlEvent::Empty(t) => {
                if name_is(&t.name, "FieldRef") || name_is(&t.name, "Constant") {
                    let e = parse_expression_empty(t, &t.name)?;
                    if text_expr.is_none() {
                        text_expr = Some(e);
                    } else {
                        search_expr = Some(e);
                    }
                }
                k = k + 1;
            },
            XmlEvent::End(n) => {
                if depth == 0 {
                    return Err(unbalanced());
                }
                depth = depth - 1;
                k = k + 1;
                if depth == 0 && name_is(n, "TextIndex") {
                    break;
                }
            },
            _ => {
                k = k + 1;
            },
        }
    }
    match (text_expr, search_expr) {
        (Some(txt), Some(search)) => Ok((RawExpression::TextIndex {
            field,
            map_missing_to: None,
            text: Box::new(txt),
            search_term: Box::new(search),
            is_case_sensitive: false,
            max_levenstein_distance: None,
            word_separator: None,
            tokenize: false,
        }, k)),
        _ => Ok((RawExpression::Unknown, k)),
    }
}

/// Whether `e` is a `FieldRef` with the attributes of tag `t`.
pub open spec fn field_ref_of(t: XmlTag, e: RawExpression) -> bool {
    e matches RawExpression::FieldRef { field, map_missing_to } && tag_attr(t, "field"@) == Some(
        field@,
    ) && opt_view(map_missing_to) == tag_attr(t, "mapMissingTo"@)
}

/// Whether `e` is a `NormDiscrete` with the attributes of tag `t`.
pub open spec fn norm_discrete_of(t: XmlTag, e: RawExpression) -> bool {
    e matches RawExpression::NormDiscrete { field, value, map_missing_to, default_value } && tag_attr(
        t,
        "field"@,
    ) == Some(field@) && tag_attr(t, "value"@) == Some(value@) && opt_view(map_missing_to)
        == tag_attr(t, "mapMissingTo"@) && opt_view(default_value) == tag_attr(t, "defaultValue"@)
}

/// Whether `e` is an `Aggregate` with the attributes of tag `t`: `field`
/// defaults to empty and `function` to `average`.
pub open spec fn aggregate_of(t: XmlTag, e: RawExpression) -> bool {
    e matches RawExpression::Aggregate { field, function, group_field } && field@ == or_empty(
        tag_attr(t, "field"@),
    ) && function@ == (match tag_attr(t, "function"@) {
        Some(f) => f,
        None => "average"@,
    }) && opt_view(group_field) == tag_attr(t, "groupField"@)
}

/// What an expression element named `tag` with start tag `t` is read as.
pub open spec fn expression_of(tag: Seq<char>, t: XmlTag, e: RawExpression) -> bool {
    if tag == "Constant"@ {
        constant_of(t, e)
    } else if tag == "FieldRef"@ {
        field_ref_of(t, e)
    } else if tag == "NormContinuous"@ {
        norm_continuous_of(t, e)
    } else if tag == "NormDiscrete"@ {
        norm_discrete_of(t, e)
    } else if tag == "Discretize"@ {
        discretize_of(t, e)
    } else if tag == "MapValues"@ {
        map_values_of(t, e)
    } else if tag == "Apply"@ {
        apply_of(t, e)
    } else if tag == "TextIndex"@ {
        e is TextIndex || e is Unknown
    } else if tag == "Aggregate"@ {
        aggregate_of(t, e)
    } else {
        e is Unknown
    }
}

/// Where reading an expression element named `tag` that starts at `i`
/// stops: a field reference and a discrete normalisation read one more event,
/// a constant stops at its end tag or the end of the document, every other
/// element right after its end tag.
pub open spec fn expression_stops(ev: Seq<XmlEvent>, i: int, j: int, tag: Seq<char>) -> bool {
    if tag == "FieldRef"@ || tag == "NormDiscrete"@ {
        j == after_one(ev, i)
    } else if tag == "Constant"@ {
        stops_at_end_or_tag(ev, i, j, "Constant"@)
    } else {
        stops_after_tag(ev, i, j, tag)
    }
}

/// The names of the expression elements differ in length or first letter.
proof fn lemma_expression_names()
    ensures
        "Constant"@.len() == 8,
        "Constant"@[0] == 'C',
        "FieldRef"@.len() == 8,
        "FieldRef"@[0] == 'F',
        "NormContinuous"@.len() == 14,
        "NormContinuous"@[0] == 'N',
        "NormDiscrete"@.len() == 12,
        "NormDiscrete"@[0] == 'N',
        "Discretize"@.len() == 10,
        "Discretize"@[0] == 'D',
        "MapValues"@.len() == 9,
        "MapValues"@[0] == 'M',
        "Apply"@.len() == 5,
        "Apply"@[0] == 'A',
        "TextIndex"@.len() == 9,
        "TextIndex"@[0] == 'T',
        "Aggregate"@.len() == 9,
        "Aggregate"@[0] == 'A',
{
    reveal_strlit("Constant");
    reveal_strlit("FieldRef");
    reveal_strlit("NormContinuous");
    reveal_strlit("NormDiscrete");
    reveal_strlit("Discretize");
    reveal_strlit("MapValues");
    reveal_strlit("Apply");
    reveal_strlit("TextIndex");
    reveal_strlit("Aggregate");
}

/// When reading an expression whose start tag `t` named `tag` was just read
/// (at `i - 1`) is sure to succeed: its required attributes are there and
/// the element holds no child element (nor, where it is skipped or is a
/// `TextIndex`, any other end tag).
pub open spec fn expression_owed(ev: Seq<XmlEvent>, i: int, tag: Seq<char>, t: XmlTag) -> bool {
    if tag == "Constant"@ {
        true
    } else if tag == "FieldRef"@ {
        tag_attr(t, "field"@) is Some
    } else if tag == "NormContinuous"@ {
        childless(ev, i, tag) && tag_attr(t, "field"@) is Some
    } else if tag == "NormDiscrete"@ {
        tag_attr(t, "field"@) is Some && tag_attr(t, "value"@) is Some
    } else if tag == "Discretize"@ {
        childless(ev, i, tag) && tag_attr(t, "field"@) is Some
    } else if tag == "MapValues"@ {
        childless(ev, i, tag)
    } else if tag == "Apply"@ {
        childless(ev, i, tag) && tag_attr(t, "function"@) is Some
    } else if tag == "TextIndex"@ {
        flat(ev, i, tag)
    } else if tag == "Aggregate"@ {
        childless(ev, i, tag)
    } else {
        flat(ev, i, tag)
    }
}

/// An expression whose start tag, named `tag`, was just read; unknown
/// expression elements are skipped whole and give `Unknown`.
pub fn parse_expression_from_start(ev: &Vec<XmlEvent>, i: usize, start: &XmlTag, tag: &String) -> (r:
    Result<(RawExpression, usize), PmmlError>)
    requires
        0 < i <= ev@.len(),
    ensures
        r matches Ok((e, j)) ==> expression_stops(ev@, i as int, j as int, tag@) && expression_of(
            tag@,
            *start,
            e,
        ),
        expression_owed(ev@, i as int, tag@, *start) ==> r is Ok,
    decreases ev@.len() - i, 1nat,
{
    proof {
        lemma_expression_names();
    }
    if name_is(tag, "Constant") {
        parse_constant(ev, i, start)
    } else if name_is(tag, "FieldRef") {
        let e = parse_field_ref(start)?;
        Ok((e, skip_one(ev, i)))
    } else if name_is(tag, "NormContinuous") {
        parse_norm_continuous(ev, i, start)
    } else if name_is(tag, "NormDiscrete") {
        let field = attr_required(start, "field", "NormDiscrete")?;
        let value = attr_required(start, "value", "NormDiscrete")?;
        let map_missing_to = attr(start, "mapMissingTo");
        let default_value = attr(start, "defaultValue");
        Ok((RawExpression::NormDiscrete { field, value, map_missing_to, default_value }, skip_one(ev, i)))
    } else if name_is(tag, "Discretize") {
        parse_discretize(ev, i, start)
    } else if name_is(tag, "MapValues") {
        parse_map_values(ev, i, start)
    } else if name_is(tag, "Apply") {
        parse_apply(ev, i, start)
    } else if name_is(tag, "TextIndex") {
        parse_text_index(ev, i, start)
    } else if name_is(tag, "Aggregate") {
        let field = attr_or_empty(start, "field");
        let function = attr_or(start, "function", "average");
        let group_field = attr(start, "groupField");
        let ghost q: int = if childless(ev@, i as int, "Aggregate"@) {
            choose|q: int| plain_until(ev@, i as int, q, "Aggregate"@)
        } else {
            0
        };
        let mut k = i;
        loop
            invariant_except_break
                i <= k <= ev@.len(),
                expression_owed(ev@, i as int, tag@, *start) ==> childless(ev@, i as int, "Aggregate"@),
                childless(ev@, i as int, "Aggregate"@) ==> plain_until(ev@, i as int, q, "Aggregate"@) && k <= q,
            ensures
                i < k <= ev@.len() && is_end_named(ev@[k - 1], "Aggregate"@),
            decreases ev@.len() - k,
        {
            proof {
                if childless(ev@, i as int, "Aggregate"@) && k < q {
                    assert(plain_event(ev@[k as int], "Aggregate"@));
                }
            }
            if end_at(ev, k) {
                return Err(unexpected_end());
            }
            if crate::unmarshal::cursor::end_named(&ev[k], "Aggregate") {
                k = k + 1;
                break;
            }
            k = k + 1;
        }
        Ok((RawExpression::Aggregate { field, function, group_field }, k))
    } else {
        let j = skip_element(ev, i, tag.as_str(), false)?;
        Ok((RawExpression::Unknown, j))
    }
}

/// Whether event `k` of `ev` is an expression tag that `e` was read from.
pub open spec fn expression_read_at(ev: Seq<XmlEvent>, k: int, e: RawExpression) -> bool {
    0 <= k < ev.len() && ((ev[k] matches XmlEvent::Start(t) && expression_of(t.name@, t, e)) || (
    ev[k] matches XmlEvent::Empty(t) && expression_empty_of(t.name@, t, e)))
}

/// Whether `d` holds the attributes of `DerivedField` tag `t`: `dataType`
/// defaults to `string` and `optype` to `continuous`.
pub open spec fn derived_field_of(t: XmlTag, d: RawDerivedField) -> bool {
    &&& tag_attr(t, "name"@) == Some(d.name@)
    &&& opt_view(d.display_name) == tag_attr(t, "displayName"@)
    &&& d.data_type@ == match tag_attr(t, "dataType"@) {
        Some(s) => s,
        None => "string"@,
    }
    &&& d.op_type@ == match tag_attr(t, "optype"@) {
        Some(s) => s,
        None => "continuous"@,
    }
}

/// How a `DerivedField` is read from its tag.
pub open spec fn derived_field_tag() -> spec_fn(XmlTag, RawDerivedField) -> bool {
    |t: XmlTag, d: RawDerivedField| derived_field_of(t, d)
}

/// A `DerivedField` whose start tag was just read: `name` is required,
/// `dataType` defaults to `string` and `optype` to `continuous`; the first
/// expression child is its expression (`Unknown` when there is none).
pub fn parse_derived_field(ev: &Vec<XmlEvent>, i: usize, start: &XmlTag) -> (r: Result<
    (RawDerivedField, usize),
    PmmlError,
>)
    requires
        0 < i <= ev@.len(),
    ensures
        match r {
            Ok((d, j)) => {
                &&& stops_after_tag(ev@, i as int, j as int, "DerivedField"@)
                &&& derived_field_of(*start, d)
                &&& (d.expression is Unknown || exists|m: int|
                    i <= m < j && #[trigger] expression_read_at(ev@, m, d.expression))
            },
            Err(e) => tag_attr(*start, "name"@) is None ==> is_missing_attr(e, "DerivedField"@, "name"@),
        },
{
    let name = attr_required(start, "name", "DerivedField")?;
    let display_name = attr(start, "displayName");
    let data_type = attr_or(start, "dataType", "string");
    let op_type = attr_or(start, "optype", "continuous");
    let mut expression: Option<RawExpression> = None;
    let ghost mut read_at: int = 0;
    let mut k = i;
    loop
        invariant
            0 < i <= k <= ev@.len(),
            tag_attr(*start, "name"@) == Some(name@),
            expression matches Some(e) ==> i <= read_at < k && expression_read_at(ev@, read_at, e),
        ensures
            i < k && is_end_named(ev@[k - 1], "DerivedField"@),
            expression matches Some(e) ==> i <= read_at < k && expression_read_at(ev@, read_at, e),
        decreases ev@.len() - k,
    {
        if end_at(ev, k) {
            return Err(unexpected_end());
        }
        match &ev[k] {
            XmlEvent::Start(t) => {
                if name_is(&t.name, "Extension") {
                    k = skip_element(ev, k + 1, "Extension", false)?;
                } else if expression_name(&t.name) {
                    let (e, j) = parse_expression_from_start(ev, k + 1, t, &t.name)?;
                    if expression.is_none() {
                        expression = Some(e);
                        proof {
                            read_at = k as int;
                        }
                    }
                    k = j;
                } else {
                    k = skip_element(ev, k + 1, t.name.as_str(), false)?;
                }
            },
            XmlEvent::Empty(t) => {
                if empty_expression_name(&t.name) {
                    let e = parse_expression_empty(t, &t.name)?;
                    if expression.is_none() {
                        expression = Some(e);
                        proof {
                            read_at = k as int;
                        }
                    }
                }
                k = k + 1;
            },
            XmlEvent::End(n) => {
                k = k + 1;
                if name_is(n, "DerivedField") {
                    break;
                }
            },
            _ => {
                k = k + 1;
            },
        }
    }
    let expression = match expression {
        Some(e) => {
            assert(expression_read_at(ev@, read_at, e));
            e
        },
        None => RawExpression::Unknown,
    };
    Ok((RawDerivedField { name, display_name, data_type, op_type, expression }, k))
}

/// Whether `p` holds the attributes of `ParameterField` tag `t`.
pub open spec fn parameter_field_of(t: XmlTag, p: RawParameterField) -> bool {
    &&& tag_attr(t, "name"@) == Some(p.name@)
    &&& opt_view(p.data_type) == tag_attr(t, "dataType"@)
    &&& opt_view(p.op_type) == tag_attr(t, "optype"@)
}

/// How a `ParameterField` is read from its tag.
pub open spec fn parameter_field_tag() -> spec_fn(XmlTag, RawParameterField) -> bool {
    |t: XmlTag, p: RawParameterField| parameter_field_of(t, p)
}

/// Whether `d` holds the attributes of `DefineFunction` tag `t`.
pub open spec fn define_function_of(t: XmlTag, d: RawDefineFunction) -> bool {
    &&& tag_attr(t, "name"@) == Some(d.name@)
    &&& opt_view(d.data_type) == tag_attr(t, "dataType"@)
    &&& opt_view(d.op_type) == tag_attr(t, "optype"@)
}

/// How a `DefineFunction` is read from its tag.
pub open spec fn define_function_tag() -> spec_fn(XmlTag, RawDefineFunction) -> bool {
    |t: XmlTag, d: RawDefineFunction| define_function_of(t, d)
}

/// A `ParameterField` from its tag; `name` is required.
fn parameter_field(t: &XmlTag) -> (r: Result<RawParameterField, PmmlError>)
    ensures
        r matches Ok(p) ==> parameter_field_of(*t, p),
        r is Ok <==> tag_attr(*t, "name"@) is Some,
        r matches Err(e) ==> is_missing_attr(e, "ParameterField"@, "name"@),
{
    let name = attr_required(t, "name", "ParameterField")?;
    let data_type = attr(t, "dataType");
    let op_type = attr(t, "optype");
    Ok(RawParameterField { name, data_type, op_type })
}

/// A `DefineFunction` whose start tag was just read: `name` is required; its
/// parameter fields, derived fields, and the first expression child as body.
pub fn parse_define_function(ev: &Vec<XmlEvent>, i: usize, start: &XmlTag) -> (r: Result<
    (RawDefineFunction, usize),
    PmmlError,
>)
    requires
        0 < i <= ev@.len(),
    ensures
        r matches Ok((d, j)) ==> read_in_order(ev@, i as int, j as int, d.derived_fields@, "DerivedField"@, derived_field_tag()) && read_in_order(ev@, i as int, j as int, d.param_fields@, "ParameterField"@, parameter_field_tag()) && stops_after_tag(ev@, i as int, j as int, "DefineFunction"@)
            && define_function_of(*start, d)
            && (d.body matches Some(b) ==> exists|m: int| i <= m < j && #[trigger] expression_read_at(ev@, m, b)),
        childless(ev@, i as int, "DefineFunction"@) && tag_attr(*start, "name"@) is Some ==> r is Ok,
{
    let name = attr_required(start, "name", "DefineFunction")?;
    let data_type = attr(start, "dataType");
    let op_type = attr(start, "optype");
    let mut param_fields: Vec<RawParameterField> = Vec::new();
    let ghost mut param_fields_at: Seq<int> = Seq::empty();
    let mut derived_fields: Vec<RawDerivedField> = Vec::new();
    let ghost mut derived_fields_at: Seq<int> = Seq::empty();
    let mut body: Option<RawExpression> = None;
    let ghost mut body_at: int = 0;
    let ghost q: int = if childless(ev@, i as int, "DefineFunction"@) {
        choose|q: int| plain_until(ev@, i as int, q, "DefineFunction"@)
    } else {
        0
    };
    let mut k = i;
    loop
        invariant_except_break
            0 < i <= k <= ev@.len(),
            tag_attr(*start, "name"@) == Some(name@),
            opt_view(data_type) == tag_attr(*start, "dataType"@),
            opt_view(op_type) == tag_attr(*start, "optype"@),
            body matches Some(b) ==> i <= body_at < k && expression_read_at(ev@, body_at, b),
            read_at_positions(ev@, i as int, param_fields_at, param_fields@, "ParameterField"@, parameter_field_tag()),
            param_fields_at.len() > 0 ==> param_fields_at.last() < k,
            read_at_positions(ev@, i as int, derived_fields_at, derived_fields@, "DerivedField"@, derived_field_tag()),
            derived_fields_at.len() > 0 ==> derived_fields_at.last() < k,
            childless(ev@, i as int, "DefineFunction"@) ==> plain_until(ev@, i as int, q, "DefineFunction"@) && k <= q,
        ensures
            i < k && is_end_named(ev@[k - 1], "DefineFunction"@),
            body matches Some(b) ==> i <= body_at < k && expression_read_at(ev@, body_at, b),
            read_at_positions(ev@, i as int, param_fields_at, param_fields@, "ParameterField"@, parameter_field_tag()),
            param_fields_at.len() > 0 ==> param_fields_at.last() < k,
            read_at_positions(ev@, i as int, derived_fields_at, derived_fields@, "DerivedField"@, derived_field_tag()),
            derived_fields_at.len() > 0 ==> derived_fields_at.last() < k,
            0 < i <= k <= ev@.len(),
            tag_attr(*start, "name"@) == Some(name@),
            opt_view(data_type) == tag_attr(*start, "dataType"@),
            opt_view(op_type) == tag_attr(*start, "optype"@),
        decreases ev@.len() - k,
    {
        proof {
            if childless(ev@, i as int, "DefineFunction"@) && k < q {
                assert(plain_event(ev@[k as int], "DefineFunction"@));
            }
        }
        if end_at(ev, k) {
            return Err(unexpected_end());
        }
        let ghost here = k as int;
        match &ev[k] {
            XmlEvent::Start(t) => {
                if name_is(&t.name, "ParameterField") {
                    let item = parameter_field(t)?;
                    proof {
                        lemma_read_push(ev@, i as int, param_fields_at, param_fields@, "ParameterField"@, parameter_field_tag(), here, item);
                        param_fields_at = param_fields_at.push(here);
                    }
                    param_fields.push(item);
                    k = skip_one(ev, k + 1);
                } else if name_is(&t.name, "DerivedField") {
                    let (d, j) = parse_derived_field(ev, k + 1, t)?;
                    let item = d;
                    proof {
                        lemma_read_push(ev@, i as int, derived_fields_at, derived_fields@, "DerivedField"@, derived_field_tag(), here, item);
                        derived_fields_at = derived_fields_at.push(here);
                    }
                    derived_fields.push(item);
                    k = j;
                } else if name_is(&t.name, "Extension") {
                    k = skip_element(ev, k + 1, "Extension", false)?;
                } else if expression_name(&t.name) && body.is_none() {
                    let (e, j) = parse_expression_from_start(ev, k + 1, t, &t.name)?;
                    body = Some(e);
                    proof {
                        body_at = here;
                    }
                    k = j;
                } else {
                    k = skip_element(ev, k + 1, t.name.as_str(), false)?;
                }
            },
            XmlEvent::Empty(t) => {
                if name_is(&t.name, "ParameterField") {
                    let item = parameter_field(t)?;
                    proof {
                        lemma_read_push(ev@, i as int, param_fields_at, param_fields@, "ParameterField"@, parameter_field_tag(), here, item);
                        param_fields_at = param_fields_at.push(here);
                    }
                    param_fields.push(item);
                } else if empty_expression_name(&t.name) && body.is_none() {
                    body = Some(parse_expression_empty(t, &t.name)?);
                    proof {
                        body_at = here;
                    }
                }
                k = k + 1;
            },
            XmlEvent::End(n) => {
                k = k + 1;
                if name_is(n, "DefineFunction") {
                    break;
                }
            },
            _ => {
                k = k + 1;
            },
        }
    }
    proof {
        lemma_read_in_order(ev@, i as int, k as int, param_fields_at, param_fields@, "ParameterField"@, parameter_field_tag());
    }
    proof {
        lemma_read_in_order(ev@, i as int, k as int, derived_fields_at, derived_fields@, "DerivedField"@, derived_field_tag());
    }
    proof {
        if body is Some {
            assert(expression_read_at(ev@, body_at, body->0));
        }
    }
    Ok((RawDefineFunction { name, data_type, op_type, param_fields, derived_fields, body }, k))
}

/// The `DefineFunction` and `DerivedField` elements of a
/// `TransformationDictionary` whose start tag was just read.
pub fn parse_transformation_dictionary(ev: &Vec<XmlEvent>, i: usize) -> (r: Result<
    (Vec<RawDefineFunction>, Vec<RawDerivedField>, usize),
    PmmlError,
>)
    requires
        0 < i <= ev@.len(),
    ensures
        r matches Ok((funcs, fields, j)) ==> read_each_reached(ev@, i as int, j as int, funcs@, "DefineFunction"@, define_function_tag()) && read_each_reached(ev@, i as int, j as int, fields@, "DerivedField"@, derived_field_tag())
                && stops_after_tag(ev@, i as int, j as int, "TransformationDictionary"@)
            && read_in_order(ev@, i as int, j as int, funcs@, "DefineFunction"@, define_function_tag())
            && read_in_order(ev@, i as int, j as int, fields@, "DerivedField"@, derived_field_tag()),
        childless(ev@, i as int, "TransformationDictionary"@) ==> r is Ok,
{
    let mut define_functions: Vec<RawDefineFunction> = Vec::new();
    let ghost mut define_functions_at: Seq<int> = Seq::empty();
    let mut derived_fields: Vec<RawDerivedField> = Vec::new();
    let ghost mut derived_fields_at: Seq<int> = Seq::empty();
    let ghost q: int = if childless(ev@, i as int, "TransformationDictionary"@) {
        choose|q: int| plain_until(ev@, i as int, q, "TransformationDictionary"@)
    } else {
        0
    };
    let ghost mut spans: Seq<(int, int)> = Seq::empty();
    let mut k = i;
    loop
        invariant_except_break
            0 < i <= k <= ev@.len(),
            spans_ok(ev@, spans, i as int, k as int),
            covers_level(ev@, i as int, k as int, define_functions_at, spans, "DefineFunction"@),
            covers_level(ev@, i as int, k as int, derived_fields_at, spans, "DerivedField"@),
            read_at_positions(ev@, i as int, define_functions_at, define_functions@, "DefineFunction"@, define_function_tag()),
            define_functions_at.len() > 0 ==> define_functions_at.last() < k,
            read_at_positions(ev@, i as int, derived_fields_at, derived_fields@, "DerivedField"@, derived_field_tag()),
            derived_fields_at.len() > 0 ==> derived_fields_at.last() < k,
            childless(ev@, i as int, "TransformationDictionary"@) ==> plain_until(ev@, i as int, q, "TransformationDictionary"@) && k <= q,
        ensures
            i < k && is_end_named(ev@[k - 1], "TransformationDictionary"@),
            spans_ok(ev@, spans, i as int, k as int),
            covers_level(ev@, i as int, k as int, define_functions_at, spans, "DefineFunction"@),
            covers_level(ev@, i as int, k as int, derived_fields_at, spans, "DerivedField"@),
            read_at_positions(ev@, i as int, define_functions_at, define_functions@, "DefineFunction"@, define_function_tag()),
            define_functions_at.len() > 0 ==> define_functions_at.last() < k,
            read_at_positions(ev@, i as int, derived_fields_at, derived_fields@, "DerivedField"@, derived_field_tag()),
            derived_fields_at.len() > 0 ==> derived_fields_at.last() < k,
            0 < i <= k <= ev@.len(),
        decreases ev@.len() - k,
    {
        proof {
            if childless(ev@, i as int, "TransformationDictionary"@) && k < q {
                assert(plain_event(ev@[k as int], "TransformationDictionary"@));
            }
        }
        if end_at(ev, k) {
            return Err(unexpected_end());
        }
        let ghost here = k as int;
        let ghost define_functions_at0 = define_functions_at;
        let ghost derived_fields_at0 = derived_fields_at;
        let ghost mut stepped = false;
        proof {
            reveal_strlit("DefineFunction");
            reveal_strlit("DerivedField");
            assert("DefineFunction"@ != "DerivedField"@) by { assert("DefineFunction"@.len() != "DerivedField"@.len()); }
            assert("DerivedField"@ != "DefineFunction"@) by { assert("DerivedField"@.len() != "DefineFunction"@.len()); }
        }
        match &ev[k] {
            XmlEvent::Start(t) => {
                if name_is(&t.name, "DefineFunction") {
                    let (d, j) = parse_define_function(ev, k + 1, t)?;
                    let item = d;
                    proof {
                        lemma_read_push(ev@, i as int, define_functions_at, define_functions@, "DefineFunction"@, define_function_tag(), here, item);
                        define_functions_at = define_functions_at.push(here);
                    }
                    define_functions.push(item);
                    k = j;
                } else if name_is(&t.name, "DerivedField") {
                    let (d, j) = parse_derived_field(ev, k + 1, t)?;
                    let item = d;
                    proof {
                        lemma_read_push(ev@, i as int, derived_fields_at, derived_fields@, "DerivedField"@, derived_field_tag(), here, item);
                        derived_fields_at = derived_fields_at.push(here);
                    }
                    derived_fields.push(item);
                    k = j;
                } else {
                    k = skip_element(ev, k + 1, t.name.as_str(), false)?;
                }
            },
            XmlEvent::End(n) => {
                k = k + 1;
                proof {
                    lemma_covers_level_step(ev@, i as int, here, k as int, define_functions_at0, define_functions_at, spans, "DefineFunction"@);
                    lemma_covers_level_step(ev@, i as int, here, k as int, derived_fields_at0, derived_fields_at, spans, "DerivedField"@);
                    spans = span_step(spans, here, k as int);
                    stepped = true;
                }
                if name_is(n, "TransformationDictionary") {
                    break;
                }
            },
            _ => {
                k = k + 1;
            },
        }
        proof {
            if !stepped {
                lemma_covers_level_step(ev@, i as int, here, k as int, define_functions_at0, define_functions_at, spans, "DefineFunction"@);
                lemma_covers_level_step(ev@, i as int, here, k as int, derived_fields_at0, derived_fields_at, spans, "DerivedField"@);
                spans = span_step(spans, here, k as int);
            }
        }
    }
    proof {
        lemma_read_each_reached(ev@, i as int, k as int, define_functions_at, spans, define_functions@, "DefineFunction"@, define_function_tag());
        lemma_read_each_reached(ev@, i as int, k as int, derived_fields_at, spans, derived_fields@, "DerivedField"@, derived_field_tag());
    }
    proof {
        lemma_read_in_order(ev@, i as int, k as int, define_functions_at, define_functions@, "DefineFunction"@, define_function_tag());
    }
    proof {
        lemma_read_in_order(ev@, i as int, k as int, derived_fields_at, derived_fields@, "DerivedField"@, derived_field_tag());
    }
    Ok((define_functions, derived_fields, k))
}

/// The `DerivedField` elements of a `LocalTransformations` section whose
/// start tag was just read.
pub fn parse_local_transformations(ev: &Vec<XmlEvent>, i: usize) -> (r: Result<
    (Vec<RawDerivedField>, usize),
    PmmlError,
>)
    requires
        0 < i <= ev@.len(),
    ensures
        r matches Ok((fields, j)) ==> read_each_reached(ev@, i as int, j as int, fields@, "DerivedField"@, derived_field_tag())
                && read_in_order(ev@, i as int, j as int, fields@, "DerivedField"@, derived_field_tag()) && stops_after_tag(ev@, i as int, j as int, "LocalTransformations"@),
        childless(ev@, i as int, "LocalTransformations"@) ==> r is Ok,
{
    let mut derived_fields: Vec<RawDerivedField> = Vec::new();
    let ghost mut derived_fields_at: Seq<int> = Seq::empty();
    let ghost q: int = if childless(ev@, i as int, "LocalTransformations"@) {
        choose|q: int| plain_until(ev@, i as int, q, "LocalTransformations"@)
    } else {
        0
    };
    let ghost mut spans: Seq<(int, int)> = Seq::empty();
    let mut k = i;
    loop
        invariant_except_break
            0 < i <= k <= ev@.len(),
            spans_ok(ev@, spans, i as int, k as int),
            covers_level(ev@, i as int, k as int, derived_fields_at, spans, "DerivedField"@),
            read_at_positions(ev@, i as int, derived_fields_at, derived_fields@, "DerivedField"@, derived_field_tag()),
            derived_fields_at.len() > 0 ==> derived_fields_at.last() < k,
            childless(ev@, i as int, "LocalTransformations"@) ==> plain_until(ev@, i as int, q, "LocalTransformations"@) && k <= q,
        ensures
            i < k && is_end_named(ev@[k - 1], "LocalTransformations"@),
            spans_ok(ev@, spans, i as int, k as int),
            covers_level(ev@, i as int, k as int, derived_fields_at, spans, "DerivedField"@),
            read_at_positions(ev@, i as int, derived_fields_at, derived_fields@, "DerivedField"@, derived_field_tag()),
            derived_fields_at.len() > 0 ==> derived_fields_at.last() < k,
            0 < i <= k <= ev@.len(),
        decreases ev@.len() - k,
    {
        proof {
            if childless(ev@, i as int, "LocalTransformations"@) && k < q {
                assert(plain_event(ev@[k as int], "LocalTransformations"@));
            }
        }
        if end_at(ev, k) {
            return Err(unexpected_end());
        }
        let ghost here = k as int;
        let ghost derived_fields_at0 = derived_fields_at;
        let ghost mut stepped = false;
        proof {
            reveal_strlit("DerivedField");
        }
        match &ev[k] {
            XmlEvent::Start(t) => {
                if name_is(&t.name, "DerivedField") {
                    let (d, j) = parse_derived_field(ev, k + 1, t)?;
                    let item = d;
                    proof {
                        lemma_read_push(ev@, i as int, derived_fields_at, derived_fields@, "DerivedField"@, derived_field_tag(), here, item);
                        derived_fields_at = derived_fields_at.push(here);
                    }
                    derived_fields.push(item);
                    k = j;
                } else {
                    k = k + 1;
                }
            },
            XmlEvent::End(n) => {
                k = k + 1;
                proof {
                    lemma_covers_level_step(ev@, i as int, here, k as int, derived_fields_at0, derived_fields_at, spans, "DerivedField"@);
                    spans = span_step(spans, here, k as int);
                    stepped = true;
                }
                if name_is(n, "LocalTransformations") {
                    break;
                }
            },
            _ => {
                k = k + 1;
            },
        }
        proof {
            if !stepped {
                lemma_covers_level_step(ev@, i as int, here, k as int, derived_fields_at0, derived_fields_at, spans, "DerivedField"@);
                spans = span_step(spans, here, k as int);
            }
        }
    }
    proof {
        lemma_read_each_reached(ev@, i as int, k as int, derived_fields_at, spans, derived_fields@, "DerivedField"@, derived_field_tag());
    }
    proof {
        lemma_read_in_order(ev@, i as int, k as int, derived_fields_at, derived_fields@, "DerivedField"@, derived_field_tag());
    }
    Ok((derived_fields, k))
}

} // verus!
