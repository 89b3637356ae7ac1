//! `NearestNeighborModel`: training instances, KNN inputs and outputs.

use vstd::prelude::*;
use crate::unmarshal::cursor::{start_named_at};
use crate::unmarshal::nesting::{model_readable, attrs_complete};
use crate::unmarshal::nesting::{closing, closes_at, lemma_nested_step, lemma_closing};
use crate::textmap::TextMap;
use crate::error::PmmlError;
use crate::xml::{XmlEvent, XmlTag, attr, attr_required, tag_attr, is_missing_attr, name_is};
use crate::unmarshal::raw::{
    RawNearestNeighborModel, RawInstanceField, RawMiningField, RawOutputField, RawDerivedField,
};
use crate::unmarshal::common::{
    output_field_tag, parse_mining_schema, parse_output, mining_field_tag, last_text, row_cells_read,
    rows_cells_read, lemma_row_cells_insert, lemma_row_cells_widen, lemma_row_cells_from, lemma_rows_cells_push,
    lemma_rows_cells_widen,
};
use crate::unmarshal::clustering::{attr_usize, opt_usize};
use crate::unmarshal::expr::{parse_local_transformations, derived_field_tag};
use crate::unmarshal::cursor::{
    element_named, tags_carry,
    sections_read, read_each_section, lemma_sections_push, lemma_sections_widen, spans_ok, covers_level, lemma_covers_level_step, span_step,
    end_at, skip_one, skip_to_end_tag, unexpected_end, stops_after_tag, is_end_named, stops_at_end_or_tag, at_end, read_at_positions, read_in_order, lemma_read_extend, lemma_read_in_order, lemma_read_push, lemma_read_extend_mut, read_all_in_order, covers_entries, lemma_covers_step, read_each_reached, lemma_all_to_each, lemma_covers_skip, childless, plain_until, plain_event,
};

verus! {

/// An `InstanceField` from its tag: `field` is required, `column` defaults to
/// the field.
fn instance_field(t: &XmlTag) -> (r: Result<RawInstanceField, PmmlError>)
    ensures
        r matches Ok(f) ==> tag_attr(*t, "field"@) == Some(f.field@) && f.column@ == (
        match tag_attr(*t, "column"@) {
            Some(c) => c,
            None => f.field@,
        }),
        r is Ok <==> tag_attr(*t, "field"@) is Some,
        r matches Err(e) ==> is_missing_attr(e, "InstanceField"@, "field"@),
{
    let field = attr_required(t, "field", "InstanceField")?;
    let column = match attr(t, "column") {
        Some(c) => c,
        None => field.clone(),
    };
    Ok(RawInstanceField { field, column })
}

/// How an instance field is read from its tag: its `field`, and its
/// `column` (the field when absent).
pub open spec fn instance_field_tag() -> spec_fn(XmlTag, RawInstanceField) -> bool {
    |t: XmlTag, f: RawInstanceField|
        tag_attr(t, "field"@) == Some(f.field@) && f.column@ == match tag_attr(t, "column"@) {
            Some(c) => c,
            None => f.field@,
        }
}

/// How a KNN input is read from its tag: its `field`.
pub open spec fn knn_input_tag() -> spec_fn(XmlTag, String) -> bool {
    |t: XmlTag, f: String| tag_attr(t, "field"@) == Some(f@)
}

/// The `InstanceField` elements of an `InstanceFields` whose start tag was
/// just read, appended in order.
fn parse_instance_fields(ev: &Vec<XmlEvent>, i: usize, fields: &mut Vec<RawInstanceField>) -> (r: Result<
    usize,
    PmmlError,
>)
    requires
        i <= ev@.len(),
    ensures
        r matches Ok(j) ==> final(fields)@.len() >= old(fields)@.len()
            && final(fields)@.subrange(0, old(fields)@.len() as int) == old(fields)@
            && read_in_order(ev@, i as int, j as int, final(fields)@.skip(old(fields)@.len() as int), "InstanceField"@, instance_field_tag())
            && read_all_in_order(ev@, i as int, j as int, final(fields)@.skip(old(fields)@.len() as int), "InstanceField"@, instance_field_tag())
            && read_each_reached(ev@, i as int, j as int, final(fields)@.skip(old(fields)@.len() as int), "InstanceField"@, instance_field_tag())
            && stops_after_tag(ev@, i as int, j as int, "InstanceFields"@),
        childless(ev@, i as int, "InstanceFields"@) ==> r is Ok,
        element_named(ev@, i as int, "InstanceFields"@) && attrs_complete(ev@, i as int) ==> (r matches Ok(j) && j <= closing(ev@, i - 1) + 1),
{
    let ghost mut fields_at: Seq<int> = Seq::empty();
    let ghost q: int = if childless(ev@, i as int, "InstanceFields"@) {
        choose|q: int| plain_until(ev@, i as int, q, "InstanceFields"@)
    } else {
        0
    };
    let mut k = i;
    proof {
        if element_named(ev@, i as int, "InstanceFields"@) {
            lemma_closing(ev@, i - 1);
        }
    }
    loop
        invariant_except_break
            element_named(ev@, i as int, "InstanceFields"@) && attrs_complete(ev@, i as int) ==> k <= closing(ev@, i - 1) && closes_at(ev@, i - 1, closing(ev@, i - 1)),
            i <= k <= ev@.len(),
            fields@.len() >= old(fields)@.len(),
            fields@.subrange(0, old(fields)@.len() as int) == old(fields)@,
            read_at_positions(ev@, i as int, fields_at, fields@.skip(old(fields)@.len() as int), "InstanceField"@, instance_field_tag()),
            fields_at.len() > 0 ==> fields_at.last() < k,
            covers_entries(ev@, i as int, k as int, fields_at, "InstanceField"@),
            childless(ev@, i as int, "InstanceFields"@) ==> plain_until(ev@, i as int, q, "InstanceFields"@) && k <= q,
        ensures
            element_named(ev@, i as int, "InstanceFields"@) && attrs_complete(ev@, i as int) ==> k <= closing(ev@, i - 1) + 1,
            i < k && is_end_named(ev@[k - 1], "InstanceFields"@),
            fields@.len() >= old(fields)@.len(),
            fields@.subrange(0, old(fields)@.len() as int) == old(fields)@,
            read_at_positions(ev@, i as int, fields_at, fields@.skip(old(fields)@.len() as int), "InstanceField"@, instance_field_tag()),
            fields_at.len() > 0 ==> fields_at.last() < k,
            covers_entries(ev@, i as int, k as int, fields_at, "InstanceField"@),
            i <= k <= ev@.len(),
        decreases ev@.len() - k,
    {
        proof {
            if childless(ev@, i as int, "InstanceFields"@) && k < q {
                assert(plain_event(ev@[k as int], "InstanceFields"@));
            }
        }
        proof {
            if element_named(ev@, i as int, "InstanceFields"@) && attrs_complete(ev@, i as int) {
                lemma_nested_step(ev@, i as int, k as int);
            }
        }
        if end_at(ev, k) {
            return Err(unexpected_end());
        }
        let ghost here = k as int;
        match &ev[k] {
            XmlEvent::Start(t) => {
                k = k + 1;
                if name_is(&t.name, "InstanceField") {
                    let item = instance_field(t)?;
                    proof {
                        lemma_read_push(ev@, i as int, fields_at, fields@.skip(old(fields)@.len() as int), "InstanceField"@, instance_field_tag(), here, item);
                        lemma_covers_step(ev@, i as int, here, fields_at, "InstanceField"@, true);
                        fields_at = fields_at.push(here);
                    }
                    let ghost before = fields@;
                    fields.push(item);
                    proof {
                        assert(fields@.skip(old(fields)@.len() as int) =~= before.skip(old(fields)@.len() as int).push(item));
                        assert(fields@.subrange(0, old(fields)@.len() as int) =~= before.subrange(0, old(fields)@.len() as int));
                    }
                    if !end_at(ev, k) {
                        proof {
                            lemma_covers_skip(ev@, i as int, k as int, fields_at, "InstanceField"@);
                        }
                    }
                    k = skip_one(ev, k);
                } else {
                    proof {
                        lemma_covers_skip(ev@, i as int, here, fields_at, "InstanceField"@);
                    }
                }
            },
            XmlEvent::Empty(t) => {
                k = k + 1;
                if name_is(&t.name, "InstanceField") {
                    let item = instance_field(t)?;
                    proof {
                        lemma_read_push(ev@, i as int, fields_at, fields@.skip(old(fields)@.len() as int), "InstanceField"@, instance_field_tag(), here, item);
                        lemma_covers_step(ev@, i as int, here, fields_at, "InstanceField"@, true);
                        fields_at = fields_at.push(here);
                    }
                    let ghost before = fields@;
                    fields.push(item);
                    proof {
                        assert(fields@.skip(old(fields)@.len() as int) =~= before.skip(old(fields)@.len() as int).push(item));
                        assert(fields@.subrange(0, old(fields)@.len() as int) =~= before.subrange(0, old(fields)@.len() as int));
                    }
                } else {
                    proof {
                        lemma_covers_skip(ev@, i as int, here, fields_at, "InstanceField"@);
                    }
                }
            },
            XmlEvent::End(n) => {
                proof {
                    lemma_covers_skip(ev@, i as int, here, fields_at, "InstanceField"@);
                }
                k = k + 1;
                if name_is(n, "InstanceFields") {
                    break;
                }
            },
            _ => {
                proof {
                    lemma_covers_skip(ev@, i as int, here, fields_at, "InstanceField"@);
                }
                k = k + 1;
            },
        }
    }
    proof {
        lemma_read_in_order(ev@, i as int, k as int, fields_at, fields@.skip(old(fields)@.len() as int), "InstanceField"@, instance_field_tag());
        assert(read_at_positions(ev@, i as int, fields_at, fields@.skip(old(fields)@.len() as int), "InstanceField"@, instance_field_tag()) && (fields_at.len() > 0 ==> fields_at.last() < k)
            && covers_entries(ev@, i as int, k as int, fields_at, "InstanceField"@));
    }
    proof {
        lemma_all_to_each(ev@, i as int, k as int, fields@.skip(old(fields)@.len() as int), "InstanceField"@, instance_field_tag());
    }
    Ok(k)
}

/// One training-instance `row` whose start tag was just read: each child
/// element maps its name to the last text read inside it, recorded when the
/// first end tag after it closes it; reading a cell stops at the first end tag.
fn parse_instance_row(ev: &Vec<XmlEvent>, i: usize) -> (r: Result<(TextMap, usize), PmmlError>)
    requires
        i <= ev@.len(),
    ensures
        r matches Ok((row, j)) ==> stops_after_tag(ev@, i as int, j as int, "row"@) && row_cells_read(
            ev@,
            i as int,
            j as int,
            row@,
        ),
        childless(ev@, i as int, "row"@) ==> r is Ok,
        element_named(ev@, i as int, "row"@) ==> (r matches Ok((_, j)) && j <= closing(ev@, i - 1) + 1),
{
    let mut row: TextMap = TextMap::new();
    let ghost q: int = if childless(ev@, i as int, "row"@) {
        choose|q: int| plain_until(ev@, i as int, q, "row"@)
    } else {
        0
    };
    let mut k = i;
    proof {
        if element_named(ev@, i as int, "row"@) {
            lemma_closing(ev@, i - 1);
        }
    }
    loop
        invariant_except_break
            element_named(ev@, i as int, "row"@) ==> k <= closing(ev@, i - 1) && closes_at(ev@, i - 1, closing(ev@, i - 1)),
            i <= k <= ev@.len(),
            row_cells_read(ev@, i as int, k as int, row@),
            childless(ev@, i as int, "row"@) ==> plain_until(ev@, i as int, q, "row"@) && k <= q,
        ensures
            element_named(ev@, i as int, "row"@) ==> k <= closing(ev@, i - 1) + 1,
            i < k && is_end_named(ev@[k - 1], "row"@),
            row_cells_read(ev@, i as int, k as int, row@),
            i <= k <= ev@.len(),
        decreases ev@.len() - k,
    {
        proof {
            if childless(ev@, i as int, "row"@) && k < q {
                assert(plain_event(ev@[k as int], "row"@));
            }
        }
        proof {
            if element_named(ev@, i as int, "row"@) {
                lemma_nested_step(ev@, i as int, k as int);
            }
        }
        if end_at(ev, k) {
            return Err(unexpected_end());
        }
        let ghost here = k as int;
        match &ev[k] {
            XmlEvent::Start(cell) => {
                let col = cell.name.clone();
                let mut value = String::new();
                k = k + 1;
                let ghost k0 = k as int;
                proof {
                    assert(ev@.subrange(k0, k0) =~= Seq::<XmlEvent>::empty());
                }
                loop
                    invariant_except_break
                        !childless(ev@, i as int, "row"@),
                        i <= here < k0 <= k <= ev@.len(),
                        k0 == here + 1,
                        ev@[here] matches XmlEvent::Start(t) && t.name@ == col@,
                        value@ == last_text(ev@.subrange(k0, k as int)),
                        row_cells_read(ev@, i as int, here, row@),
                        element_named(ev@, i as int, "row"@) ==> here < closing(ev@, here) < closing(ev@, i - 1) && closes_at(ev@, i - 1, closing(ev@, i - 1))
                            && ev@[closing(ev@, here)] is End && k <= closing(ev@, here),
                        forall|t: int| k0 <= t < k ==> !(#[trigger] ev@[t] is End),
                    ensures
                        k0 < k <= ev@.len(),
                        row_cells_read(ev@, i as int, k as int, row@),
                        element_named(ev@, i as int, "row"@) ==> k <= closing(ev@, here) + 1 && closing(ev@, here) < closing(ev@, i - 1) && closes_at(ev@, i - 1, closing(ev@, i - 1)),
                    decreases ev@.len() - k,
                {
                    proof {
                        if element_named(ev@, i as int, "row"@) {
                            assert(!(ev@[k as int] is Eof));
                        }
                    }
                    if end_at(ev, k) {
                        return Err(unexpected_end());
                    }
                    proof {
                        assert(ev@.subrange(k0, k + 1 as int).drop_last() =~= ev@.subrange(k0, k as int));
                    }
                    match &ev[k] {
                        XmlEvent::Text(t) => {
                            value = match t {
                                Some(s) => s.clone(),
                                None => String::new(),
                            };
                        },
                        XmlEvent::End(n) => {
                            if name_is(n, col.as_str()) {
                                proof {
                                    lemma_row_cells_insert(ev@, i as int, here, k + 1, row@, here, k + 1, col@, value@);
                                }
                                row.insert(col.clone(), value.clone());
                            } else {
                                proof {
                                    lemma_row_cells_widen(ev@, i as int, here, k + 1, row@);
                                }
                            }
                            k = k + 1;
                            break;
                        },
                        _ => {},
                    }
                    k = k + 1;
                }
            },
            XmlEvent::End(n) => {
                proof {
                    lemma_row_cells_widen(ev@, i as int, k as int, k + 1, row@);
                }
                k = k + 1;
                if name_is(n, "row") {
                    break;
                }
            },
            _ => {
                proof {
                    lemma_row_cells_widen(ev@, i as int, k as int, k + 1, row@);
                }
                k = k + 1;
            },
        }
    }
    Ok((row, k))
}

/// Whether every row holds at least one cell.
pub open spec fn rows_nonempty(rows: Seq<TextMap>) -> bool {
    forall|x: int| 0 <= x < rows.len() ==> (#[trigger] rows[x])@.dom().len() > 0
}

/// The non-empty rows of a training `InlineTable` whose start tag was just
/// read, appended in order.
fn parse_instance_table(ev: &Vec<XmlEvent>, i: usize, rows: &mut Vec<TextMap>, Ghost(lo): Ghost<int>) -> (r:
    Result<usize, PmmlError>)
    requires
        i <= ev@.len(),
        lo <= i,
        rows_nonempty(old(rows)@),
        rows_cells_read(ev@, lo, i as int, old(rows)@),
    ensures
        r matches Ok(j) ==> stops_after_tag(ev@, i as int, j as int, "InlineTable"@)
            && rows_nonempty(final(rows)@) && rows_cells_read(ev@, lo, j as int, final(rows)@),
        childless(ev@, i as int, "InlineTable"@) ==> r is Ok,
        element_named(ev@, i as int, "InlineTable"@) ==> (r matches Ok(j) && j <= closing(ev@, i - 1) + 1),
{
    let ghost q: int = if childless(ev@, i as int, "InlineTable"@) {
        choose|q: int| plain_until(ev@, i as int, q, "InlineTable"@)
    } else {
        0
    };
    let mut k = i;
    proof {
        if element_named(ev@, i as int, "InlineTable"@) {
            lemma_closing(ev@, i - 1);
        }
    }
    loop
        invariant_except_break
            element_named(ev@, i as int, "InlineTable"@) ==> k <= closing(ev@, i - 1) && closes_at(ev@, i - 1, closing(ev@, i - 1)),
            lo <= i <= k <= ev@.len(),
            rows_nonempty(rows@),
            rows_cells_read(ev@, lo, k as int, rows@),
            childless(ev@, i as int, "InlineTable"@) ==> plain_until(ev@, i as int, q, "InlineTable"@) && k <= q,
        ensures
            element_named(ev@, i as int, "InlineTable"@) ==> k <= closing(ev@, i - 1) + 1,
            i < k && is_end_named(ev@[k - 1], "InlineTable"@),
            rows_nonempty(rows@),
            rows_cells_read(ev@, lo, k as int, rows@),
            lo <= i <= k <= ev@.len(),
        decreases ev@.len() - k,
    {
        proof {
            if childless(ev@, i as int, "InlineTable"@) && k < q {
                assert(plain_event(ev@[k as int], "InlineTable"@));
            }
        }
        proof {
            if element_named(ev@, i as int, "InlineTable"@) {
                lemma_nested_step(ev@, i as int, k as int);
            }
        }
        if end_at(ev, k) {
            return Err(unexpected_end());
        }
        let ghost k_before = k as int;
        match &ev[k] {
            XmlEvent::Start(t) => {
                proof {
                    lemma_rows_cells_widen(ev@, lo, k as int, k + 1, rows@);
                }
                k = k + 1;
                if name_is(&t.name, "row") {
                    let (row, j) = parse_instance_row(ev, k)?;
                    proof {
                        lemma_rows_cells_widen(ev@, lo, k as int, j as int, rows@);
                    }
                    if row.len() > 0 {
                        proof {
                            lemma_row_cells_from(ev@, k as int, lo, j as int, row@);
                            lemma_rows_cells_push(ev@, lo, j as int, j as int, rows@, row);
                        }
                        rows.push(row);
                    }
                    k = j;
                }
            },
            XmlEvent::End(n) => {
                proof {
                    lemma_rows_cells_widen(ev@, lo, k as int, k + 1, rows@);
                }
                k = k + 1;
                if name_is(n, "InlineTable") {
                    break;
                }
            },
            _ => {
                proof {
                    lemma_rows_cells_widen(ev@, lo, k as int, k + 1, rows@);
                }
                k = k + 1;
            },
        }
    }
    Ok(k)
}

/// A `TrainingInstances` whose start tag was just read: instance fields and
/// inline-table rows; a `TableLocator` stands for external data and adds no
/// rows.
fn parse_training_instances(
    ev: &Vec<XmlEvent>,
    i: usize,
    fields: &mut Vec<RawInstanceField>,
    rows: &mut Vec<TextMap>,
    Ghost(lo): Ghost<int>,
) -> (r: Result<usize, PmmlError>)
    requires
        i <= ev@.len(),
        lo <= i,
        rows_nonempty(old(rows)@),
        rows_cells_read(ev@, lo, i as int, old(rows)@),
    ensures
        r matches Ok(j) ==> stops_after_tag(ev@, i as int, j as int, "TrainingInstances"@)
            && rows_nonempty(final(rows)@) && rows_cells_read(ev@, lo, j as int, final(rows)@)
            && final(fields)@.len() >= old(fields)@.len()
            && final(fields)@.subrange(0, old(fields)@.len() as int) == old(fields)@
            && read_in_order(ev@, i as int, j as int, final(fields)@.skip(old(fields)@.len() as int), "InstanceField"@, instance_field_tag())
            && read_each_section(ev@, i as int, j as int, final(fields)@.skip(old(fields)@.len() as int), "InstanceFields"@, "InstanceField"@, instance_field_tag()),
        childless(ev@, i as int, "TrainingInstances"@) ==> r is Ok,
        element_named(ev@, i as int, "TrainingInstances"@) && attrs_complete(ev@, i as int) ==> (r matches Ok(j) && j <= closing(ev@, i - 1) + 1),
{
    let ghost mut fields_at: Seq<int> = Seq::empty();
    let ghost q: int = if childless(ev@, i as int, "TrainingInstances"@) {
        choose|q: int| plain_until(ev@, i as int, q, "TrainingInstances"@)
    } else {
        0
    };
    let ghost mut secs: Seq<int> = Seq::empty();
    let ghost mut ends: Seq<int> = Seq::empty();
    let ghost mut parts: Seq<Seq<RawInstanceField>> = Seq::empty();
    let ghost mut spans: Seq<(int, int)> = Seq::empty();
    proof {
        assert(parts.flatten() =~= Seq::<RawInstanceField>::empty());
        assert(fields@.skip(fields@.len() as int) =~= Seq::<RawInstanceField>::empty());
    }
    let mut k = i;
    proof {
        if element_named(ev@, i as int, "TrainingInstances"@) {
            lemma_closing(ev@, i - 1);
        }
    }
    loop
        invariant_except_break
            element_named(ev@, i as int, "TrainingInstances"@) && attrs_complete(ev@, i as int) ==> k <= closing(ev@, i - 1) && closes_at(ev@, i - 1, closing(ev@, i - 1)),
            lo <= i <= k <= ev@.len(),
            rows_nonempty(rows@),
            rows_cells_read(ev@, lo, k as int, rows@),
            fields@.len() >= old(fields)@.len(),
            fields@.subrange(0, old(fields)@.len() as int) == old(fields)@,
            read_at_positions(ev@, i as int, fields_at, fields@.skip(old(fields)@.len() as int), "InstanceField"@, instance_field_tag()),
            fields_at.len() > 0 ==> fields_at.last() < k,
            sections_read(ev@, i as int, k as int, secs, ends, parts, "InstanceFields"@, "InstanceField"@, instance_field_tag()),
            covers_level(ev@, i as int, k as int, secs, spans, "InstanceFields"@),
            spans_ok(ev@, spans, i as int, k as int),
            fields@.skip(old(fields)@.len() as int) == parts.flatten(),
            childless(ev@, i as int, "TrainingInstances"@) ==> plain_until(ev@, i as int, q, "TrainingInstances"@) && k <= q,
        ensures
            element_named(ev@, i as int, "TrainingInstances"@) && attrs_complete(ev@, i as int) ==> k <= closing(ev@, i - 1) + 1,
            i < k && is_end_named(ev@[k - 1], "TrainingInstances"@),
            rows_nonempty(rows@),
            rows_cells_read(ev@, lo, k as int, rows@),
            fields@.len() >= old(fields)@.len(),
            fields@.subrange(0, old(fields)@.len() as int) == old(fields)@,
            read_at_positions(ev@, i as int, fields_at, fields@.skip(old(fields)@.len() as int), "InstanceField"@, instance_field_tag()),
            fields_at.len() > 0 ==> fields_at.last() < k,
            sections_read(ev@, i as int, k as int, secs, ends, parts, "InstanceFields"@, "InstanceField"@, instance_field_tag()),
            covers_level(ev@, i as int, k as int, secs, spans, "InstanceFields"@),
            spans_ok(ev@, spans, i as int, k as int),
            fields@.skip(old(fields)@.len() as int) == parts.flatten(),
            lo <= i <= k <= ev@.len(),
        decreases ev@.len() - k,
    {
        proof {
            if childless(ev@, i as int, "TrainingInstances"@) && k < q {
                assert(plain_event(ev@[k as int], "TrainingInstances"@));
            }
        }
        proof {
            if element_named(ev@, i as int, "TrainingInstances"@) && attrs_complete(ev@, i as int) {
                lemma_nested_step(ev@, i as int, k as int);
            }
        }
        if end_at(ev, k) {
            return Err(unexpected_end());
        }
        proof {
            lemma_rows_cells_widen(ev@, lo, k as int, k + 1, rows@);
        }
        let ghost here = k as int;
        let ghost secs0 = secs;
        let ghost mut stepped = false;
        proof {
            reveal_strlit("InstanceFields");
        }
        match &ev[k] {
            XmlEvent::Start(t) => {
                k = k + 1;
                if name_is(&t.name, "InstanceFields") {
                    let ghost before = fields@;
                    let j = parse_instance_fields(ev, k, fields)?;
                    proof {
                        lemma_rows_cells_widen(ev@, lo, k as int, j as int, rows@);
                    }
                    proof {
                        fields_at = lemma_read_extend_mut(ev@, i as int, fields_at, before, fields@, old(fields)@.len() as int, "InstanceField"@, instance_field_tag(), k as int, j as int);
                        assert(fields@.subrange(0, old(fields)@.len() as int) =~= before.subrange(0, old(fields)@.len() as int));
                        let ys = fields@.skip(before.len() as int);
                        assert(fields@.skip(old(fields)@.len() as int) =~= before.skip(old(fields)@.len() as int) + ys);
                        lemma_sections_push(ev@, i as int, here, j as int, secs, ends, parts, ys, "InstanceFields"@, "InstanceField"@, instance_field_tag());
                        lemma_covers_level_step(ev@, i as int, here, j as int, secs0, secs0.push(here), spans, "InstanceFields"@);
                        secs = secs.push(here);
                        ends = ends.push(j as int);
                        parts = parts.push(ys);
                        spans = span_step(spans, here, j as int);
                        stepped = true;
                    }
                    k = j;
                } else if name_is(&t.name, "InlineTable") {
                    k = parse_instance_table(ev, k, rows, Ghost(lo))?;
                } else if name_is(&t.name, "TableLocator") {
                    let j = skip_to_end_tag(ev, k, "TableLocator", true)?;
                    proof {
                        lemma_rows_cells_widen(ev@, lo, k as int, j as int, rows@);
                    }
                    k = j;
                }
            },
            XmlEvent::End(n) => {
                k = k + 1;
                proof {
                    lemma_covers_level_step(ev@, i as int, here, k as int, secs0, secs0, spans, "InstanceFields"@);
                    lemma_sections_widen(ev@, i as int, here, k as int, secs, ends, parts, "InstanceFields"@, "InstanceField"@, instance_field_tag());
                    spans = span_step(spans, here, k as int);
                    stepped = true;
                }
                if name_is(n, "TrainingInstances") {
                    break;
                }
            },
            _ => {
                k = k + 1;
            },
        }
        proof {
            if !stepped {
                lemma_covers_level_step(ev@, i as int, here, k as int, secs0, secs0, spans, "InstanceFields"@);
                lemma_sections_widen(ev@, i as int, here, k as int, secs, ends, parts, "InstanceFields"@, "InstanceField"@, instance_field_tag());
                spans = span_step(spans, here, k as int);
            }
        }
    }
    proof {
        lemma_read_in_order(ev@, i as int, k as int, fields_at, fields@.skip(old(fields)@.len() as int), "InstanceField"@, instance_field_tag());
    }
    Ok(k)
}

/// The `KNNInput` fields of a `KNNInputs` whose start tag was just read.
fn parse_knn_inputs(ev: &Vec<XmlEvent>, i: usize, inputs: &mut Vec<String>) -> (r: Result<usize, PmmlError>)
    requires
        i <= ev@.len(),
    ensures
        r matches Ok(j) ==> final(inputs)@.len() >= old(inputs)@.len()
            && final(inputs)@.subrange(0, old(inputs)@.len() as int) == old(inputs)@
            && read_in_order(ev@, i as int, j as int, final(inputs)@.skip(old(inputs)@.len() as int), "KNNInput"@, knn_input_tag())
            && read_all_in_order(ev@, i as int, j as int, final(inputs)@.skip(old(inputs)@.len() as int), "KNNInput"@, knn_input_tag())
            && read_each_reached(ev@, i as int, j as int, final(inputs)@.skip(old(inputs)@.len() as int), "KNNInput"@, knn_input_tag())
            && stops_after_tag(ev@, i as int, j as int, "KNNInputs"@),
        childless(ev@, i as int, "KNNInputs"@) ==> r is Ok,
        element_named(ev@, i as int, "KNNInputs"@) && attrs_complete(ev@, i as int) ==> (r matches Ok(j) && j <= closing(ev@, i - 1) + 1),
{
    let ghost mut inputs_at: Seq<int> = Seq::empty();
    let ghost q: int = if childless(ev@, i as int, "KNNInputs"@) {
        choose|q: int| plain_until(ev@, i as int, q, "KNNInputs"@)
    } else {
        0
    };
    let mut k = i;
    proof {
        if element_named(ev@, i as int, "KNNInputs"@) {
            lemma_closing(ev@, i - 1);
        }
    }
    loop
        invariant_except_break
            element_named(ev@, i as int, "KNNInputs"@) && attrs_complete(ev@, i as int) ==> k <= closing(ev@, i - 1) && closes_at(ev@, i - 1, closing(ev@, i - 1)),
            i <= k <= ev@.len(),
            inputs@.len() >= old(inputs)@.len(),
            inputs@.subrange(0, old(inputs)@.len() as int) == old(inputs)@,
            read_at_positions(ev@, i as int, inputs_at, inputs@.skip(old(inputs)@.len() as int), "KNNInput"@, knn_input_tag()),
            inputs_at.len() > 0 ==> inputs_at.last() < k,
            covers_entries(ev@, i as int, k as int, inputs_at, "KNNInput"@),
            childless(ev@, i as int, "KNNInputs"@) ==> plain_until(ev@, i as int, q, "KNNInputs"@) && k <= q,
        ensures
            element_named(ev@, i as int, "KNNInputs"@) && attrs_complete(ev@, i as int) ==> k <= closing(ev@, i - 1) + 1,
            i < k && is_end_named(ev@[k - 1], "KNNInputs"@),
            inputs@.len() >= old(inputs)@.len(),
            inputs@.subrange(0, old(inputs)@.len() as int) == old(inputs)@,
            read_at_positions(ev@, i as int, inputs_at, inputs@.skip(old(inputs)@.len() as int), "KNNInput"@, knn_input_tag()),
            inputs_at.len() > 0 ==> inputs_at.last() < k,
            covers_entries(ev@, i as int, k as int, inputs_at, "KNNInput"@),
            i <= k <= ev@.len(),
        decreases ev@.len() - k,
    {
        proof {
            if childless(ev@, i as int, "KNNInputs"@) && k < q {
                assert(plain_event(ev@[k as int], "KNNInputs"@));
            }
        }
        proof {
            if element_named(ev@, i as int, "KNNInputs"@) && attrs_complete(ev@, i as int) {
                lemma_nested_step(ev@, i as int, k as int);
            }
        }
        if end_at(ev, k) {
            return Err(unexpected_end());
        }
        let ghost here = k as int;
        match &ev[k] {
            XmlEvent::Start(t) => {
                k = k + 1;
                if name_is(&t.name, "KNNInput") {
                    let item = attr_required(t, "field", "KNNInput")?;
                    proof {
                        lemma_read_push(ev@, i as int, inputs_at, inputs@.skip(old(inputs)@.len() as int), "KNNInput"@, knn_input_tag(), here, item);
                        lemma_covers_step(ev@, i as int, here, inputs_at, "KNNInput"@, true);
                        inputs_at = inputs_at.push(here);
                    }
                    let ghost before = inputs@;
                    inputs.push(item);
                    proof {
                        assert(inputs@.skip(old(inputs)@.len() as int) =~= before.skip(old(inputs)@.len() as int).push(item));
                        assert(inputs@.subrange(0, old(inputs)@.len() as int) =~= before.subrange(0, old(inputs)@.len() as int));
                    }
                    if !end_at(ev, k) {
                        proof {
                            lemma_covers_skip(ev@, i as int, k as int, inputs_at, "KNNInput"@);
                        }
                    }
                    k = skip_one(ev, k);
                } else {
                    proof {
                        lemma_covers_skip(ev@, i as int, here, inputs_at, "KNNInput"@);
                    }
                }
            },
            XmlEvent::Empty(t) => {
                k = k + 1;
                if name_is(&t.name, "KNNInput") {
                    let item = attr_required(t, "field", "KNNInput")?;
                    proof {
                        lemma_read_push(ev@, i as int, inputs_at, inputs@.skip(old(inputs)@.len() as int), "KNNInput"@, knn_input_tag(), here, item);
                        lemma_covers_step(ev@, i as int, here, inputs_at, "KNNInput"@, true);
                        inputs_at = inputs_at.push(here);
                    }
                    let ghost before = inputs@;
                    inputs.push(item);
                    proof {
                        assert(inputs@.skip(old(inputs)@.len() as int) =~= before.skip(old(inputs)@.len() as int).push(item));
                        assert(inputs@.subrange(0, old(inputs)@.len() as int) =~= before.subrange(0, old(inputs)@.len() as int));
                    }
                } else {
                    proof {
                        lemma_covers_skip(ev@, i as int, here, inputs_at, "KNNInput"@);
                    }
                }
            },
            XmlEvent::End(n) => {
                proof {
                    lemma_covers_skip(ev@, i as int, here, inputs_at, "KNNInput"@);
                }
                k = k + 1;
                if name_is(n, "KNNInputs") {
                    break;
                }
            },
            _ => {
                proof {
                    lemma_covers_skip(ev@, i as int, here, inputs_at, "KNNInput"@);
                }
                k = k + 1;
            },
        }
    }
    proof {
        lemma_read_in_order(ev@, i as int, k as int, inputs_at, inputs@.skip(old(inputs)@.len() as int), "KNNInput"@, knn_input_tag());
        assert(read_at_positions(ev@, i as int, inputs_at, inputs@.skip(old(inputs)@.len() as int), "KNNInput"@, knn_input_tag()) && (inputs_at.len() > 0 ==> inputs_at.last() < k)
            && covers_entries(ev@, i as int, k as int, inputs_at, "KNNInput"@));
        lemma_all_to_each(ev@, i as int, k as int, inputs@.skip(old(inputs)@.len() as int), "KNNInput"@, knn_input_tag());
    }
    Ok(k)
}

/// Whether the start tags at `secs`, in `[lo, hi)`, each opened a
/// `TrainingInstances` element that reading passed through up to `ends`, in
/// order, and whose own reading gave `parts`: the instance fields of every
/// `InstanceFields` it reached.
pub open spec fn training_sections_read(
    ev: Seq<XmlEvent>,
    lo: int,
    hi: int,
    secs: Seq<int>,
    ends: Seq<int>,
    parts: Seq<Seq<RawInstanceField>>,
) -> bool {
    &&& secs.len() == ends.len()
    &&& ends.len() == parts.len()
    &&& forall|x: int|
        0 <= x < secs.len() ==> lo <= #[trigger] secs[x] < ends[x] <= hi && start_named_at(ev, secs[x], "TrainingInstances"@)
            && read_each_section(ev, secs[x] + 1, ends[x], parts[x], "InstanceFields"@, "InstanceField"@, instance_field_tag())
    &&& forall|x: int, y: int| 0 <= x < y < secs.len() ==> #[trigger] ends[x] <= #[trigger] secs[y]
}

/// Whether the instance fields `xs` are, in order, those of the
/// `TrainingInstances` elements that reading reached in `[lo, hi)`: every
/// start tag named `TrainingInstances` it reached opened such an element,
/// and each gave the fields of every `InstanceField` inside every
/// `InstanceFields` it reached.
pub open spec fn instance_fields_read(ev: Seq<XmlEvent>, lo: int, hi: int, xs: Seq<RawInstanceField>) -> bool {
    exists|secs: Seq<int>, ends: Seq<int>, parts: Seq<Seq<RawInstanceField>>, spans: Seq<(int, int)>|
        #[trigger] training_sections_read(ev, lo, hi, secs, ends, parts) && #[trigger] covers_level(
            ev,
            lo,
            hi,
            secs,
            spans,
            "TrainingInstances"@,
        ) && spans_ok(ev, spans, lo, hi) && xs == parts.flatten()
}

/// The training sections read so far stay read as reading goes on to `next`.
proof fn lemma_training_widen(
    ev: Seq<XmlEvent>,
    lo: int,
    hi: int,
    next: int,
    secs: Seq<int>,
    ends: Seq<int>,
    parts: Seq<Seq<RawInstanceField>>,
)
    requires
        training_sections_read(ev, lo, hi, secs, ends, parts),
        hi <= next,
    ensures
        training_sections_read(ev, lo, next, secs, ends, parts),
{
}

/// A `TrainingInstances` read from `here` to `next` extends the sections.
proof fn lemma_training_push(
    ev: Seq<XmlEvent>,
    lo: int,
    here: int,
    next: int,
    secs: Seq<int>,
    ends: Seq<int>,
    parts: Seq<Seq<RawInstanceField>>,
    ys: Seq<RawInstanceField>,
)
    requires
        training_sections_read(ev, lo, here, secs, ends, parts),
        lo <= here < next,
        start_named_at(ev, here, "TrainingInstances"@),
        read_each_section(ev, here + 1, next, ys, "InstanceFields"@, "InstanceField"@, instance_field_tag()),
    ensures
        training_sections_read(ev, lo, next, secs.push(here), ends.push(next), parts.push(ys)),
        parts.push(ys).flatten() == parts.flatten() + ys,
{
    let s2 = secs.push(here);
    let e2 = ends.push(next);
    let p2 = parts.push(ys);
    assert forall|x: int| 0 <= x < s2.len() implies lo <= #[trigger] s2[x] < e2[x] <= next && start_named_at(ev, s2[x], "TrainingInstances"@)
        && read_each_section(ev, s2[x] + 1, e2[x], p2[x], "InstanceFields"@, "InstanceField"@, instance_field_tag()) by {
        if x < secs.len() {
            assert(s2[x] == secs[x] && e2[x] == ends[x] && p2[x] == parts[x]);
        }
    }
    assert forall|x: int, y: int| 0 <= x < y < s2.len() implies #[trigger] e2[x] <= #[trigger] s2[y] by {
        if y < secs.len() {
            assert(s2[y] == secs[y] && e2[x] == ends[x]);
            assert(ends[x] <= secs[y]);
        } else {
            assert(e2[x] == ends[x]);
            assert(0 <= x < secs.len());
            assert(lo <= secs[x] < ends[x] <= here);
            assert(s2[y] == here);
        }
    }
    parts.lemma_flatten_push(ys);
}

/// Whether `m` holds the attributes of `NearestNeighborModel` tag `t`.
pub open spec fn nearest_neighbor_model_of(t: XmlTag, m: RawNearestNeighborModel) -> bool {
    &&& tag_attr(t, "functionName"@) == Some(m.function_name@)
    &&& m.number_of_neighbors == match opt_usize(tag_attr(t, "numberOfNeighbors"@)) {
        Some(n) => n,
        None => 1,
    }
    &&& m.targets@.len() == 0
}

/// A `NearestNeighborModel` whose start (or empty-element) tag was just read:
/// `functionName` is required, `numberOfNeighbors` defaults to 1.
pub fn parse_nearest_neighbor_model(ev: &Vec<XmlEvent>, i: usize, start: &XmlTag) -> (r: Result<
    (RawNearestNeighborModel, usize),
    PmmlError,
>)
    requires
        0 < i <= ev@.len(),
    ensures
        match r {
            Ok((m, j)) => read_each_section(ev@, i as int, j as int, m.local_derived_fields@, "LocalTransformations"@, "DerivedField"@, derived_field_tag())
                && read_each_section(ev@, i as int, j as int, m.mining_schema@, "MiningSchema"@, "MiningField"@, mining_field_tag())
                && read_each_section(ev@, i as int, j as int, m.knn_inputs@, "KNNInputs"@, "KNNInput"@, knn_input_tag())
                && instance_fields_read(ev@, i as int, j as int, m.instance_fields@)
                && read_in_order(ev@, i as int, j as int, m.local_derived_fields@, "DerivedField"@, derived_field_tag()) && read_in_order(ev@, i as int, j as int, m.output@, "OutputField"@, output_field_tag()) && read_in_order(ev@, i as int, j as int, m.knn_inputs@, "KNNInput"@, knn_input_tag())
                && read_in_order(ev@, i as int, j as int, m.instance_fields@, "InstanceField"@, instance_field_tag())
                && read_in_order(ev@, i as int, j as int, m.mining_schema@, "MiningField"@, mining_field_tag())
                && stops_at_end_or_tag(ev@, i as int, j as int, "NearestNeighborModel"@)
                && nearest_neighbor_model_of(*start, m)
                && rows_nonempty(m.instances@) && rows_cells_read(ev@, i as int, j as int, m.instances@),
            Err(e) => tag_attr(*start, "functionName"@) is None ==> is_missing_attr(
                e,
                "NearestNeighborModel"@,
                "functionName"@,
            ),
        },
        element_named(ev@, i as int, "NearestNeighborModel"@) && model_readable(ev@, i as int, *start, "NearestNeighborModel"@) ==> (r matches Ok((_, j)) && j <= closing(ev@, i - 1) + 1),
{
    let function_name = attr_required(start, "functionName", "NearestNeighborModel")?;
    let number_of_neighbors = match attr_usize(start, "numberOfNeighbors") {
        Some(n) => n,
        None => 1,
    };
    let mut mining_schema: Vec<RawMiningField> = Vec::new();
    let ghost mut schema_at: Seq<int> = Seq::empty();
    let mut output: Vec<RawOutputField> = Vec::new();
    let ghost mut output_at: Seq<int> = Seq::empty();
    let mut instance_fields: Vec<RawInstanceField> = Vec::new();
    let ghost mut instance_fields_at: Seq<int> = Seq::empty();
    let mut instances: Vec<TextMap> = Vec::new();
    let mut knn_inputs: Vec<String> = Vec::new();
    let ghost mut knn_inputs_at: Seq<int> = Seq::empty();
    let mut local_derived_fields: Vec<RawDerivedField> = Vec::new();
    let ghost mut local_derived_fields_at: Seq<int> = Seq::empty();
    let ghost mut ti_secs: Seq<int> = Seq::empty();
    let ghost mut ti_ends: Seq<int> = Seq::empty();
    let ghost mut ti_parts: Seq<Seq<RawInstanceField>> = Seq::empty();
    let ghost mut ti_spans: Seq<(int, int)> = Seq::empty();
    proof {
        assert(ti_parts.flatten() =~= Seq::<RawInstanceField>::empty());
    }
    let ghost mut kn_secs: Seq<int> = Seq::empty();
    let ghost mut kn_ends: Seq<int> = Seq::empty();
    let ghost mut kn_parts: Seq<Seq<String>> = Seq::empty();
    let ghost mut kn_spans: Seq<(int, int)> = Seq::empty();
    proof {
        assert(kn_parts.flatten() =~= Seq::<String>::empty());
    }
    let ghost mut ms_secs: Seq<int> = Seq::empty();
    let ghost mut ms_ends: Seq<int> = Seq::empty();
    let ghost mut ms_parts: Seq<Seq<RawMiningField>> = Seq::empty();
    let ghost mut ms_spans: Seq<(int, int)> = Seq::empty();
    proof {
        assert(ms_parts.flatten() =~= Seq::<RawMiningField>::empty());
    }
    let ghost mut ldf_secs: Seq<int> = Seq::empty();
    let ghost mut ldf_ends: Seq<int> = Seq::empty();
    let ghost mut ldf_parts: Seq<Seq<RawDerivedField>> = Seq::empty();
    let ghost mut ldf_spans: Seq<(int, int)> = Seq::empty();
    proof {
        assert(ldf_parts.flatten() =~= Seq::<RawDerivedField>::empty());
    }
    let mut k = i;
    proof {
        if element_named(ev@, i as int, "NearestNeighborModel"@) {
            lemma_closing(ev@, i - 1);
        }
    }
    loop
        invariant_except_break
            element_named(ev@, i as int, "NearestNeighborModel"@) && model_readable(ev@, i as int, *start, "NearestNeighborModel"@) ==> k <= closing(ev@, i - 1) && closes_at(ev@, i - 1, closing(ev@, i - 1)),
            0 < i <= k <= ev@.len(),
            sections_read(ev@, i as int, k as int, ldf_secs, ldf_ends, ldf_parts, "LocalTransformations"@, "DerivedField"@, derived_field_tag()),
            covers_level(ev@, i as int, k as int, ldf_secs, ldf_spans, "LocalTransformations"@),
            spans_ok(ev@, ldf_spans, i as int, k as int),
            local_derived_fields@ == ldf_parts.flatten(),
            sections_read(ev@, i as int, k as int, ms_secs, ms_ends, ms_parts, "MiningSchema"@, "MiningField"@, mining_field_tag()),
            sections_read(ev@, i as int, k as int, kn_secs, kn_ends, kn_parts, "KNNInputs"@, "KNNInput"@, knn_input_tag()),
            covers_level(ev@, i as int, k as int, kn_secs, kn_spans, "KNNInputs"@),
            spans_ok(ev@, kn_spans, i as int, k as int),
            knn_inputs@ == kn_parts.flatten(),
            training_sections_read(ev@, i as int, k as int, ti_secs, ti_ends, ti_parts),
            covers_level(ev@, i as int, k as int, ti_secs, ti_spans, "TrainingInstances"@),
            spans_ok(ev@, ti_spans, i as int, k as int),
            instance_fields@ == ti_parts.flatten(),
            covers_level(ev@, i as int, k as int, ms_secs, ms_spans, "MiningSchema"@),
            spans_ok(ev@, ms_spans, i as int, k as int),
            mining_schema@ == ms_parts.flatten(),
            tag_attr(*start, "functionName"@) == Some(function_name@),
            rows_nonempty(instances@),
            rows_cells_read(ev@, i as int, k as int, instances@),
            read_at_positions(ev@, i as int, schema_at, mining_schema@, "MiningField"@, mining_field_tag()),
            schema_at.len() > 0 ==> schema_at.last() < k,
            read_at_positions(ev@, i as int, instance_fields_at, instance_fields@, "InstanceField"@, instance_field_tag()),
            instance_fields_at.len() > 0 ==> instance_fields_at.last() < k,
            read_at_positions(ev@, i as int, knn_inputs_at, knn_inputs@, "KNNInput"@, knn_input_tag()),
            knn_inputs_at.len() > 0 ==> knn_inputs_at.last() < k,
            read_at_positions(ev@, i as int, output_at, output@, "OutputField"@, output_field_tag()),
            output_at.len() > 0 ==> output_at.last() < k,
            read_at_positions(ev@, i as int, local_derived_fields_at, local_derived_fields@, "DerivedField"@, derived_field_tag()),
            local_derived_fields_at.len() > 0 ==> local_derived_fields_at.last() < k,
        ensures
            element_named(ev@, i as int, "NearestNeighborModel"@) && model_readable(ev@, i as int, *start, "NearestNeighborModel"@) ==> k <= closing(ev@, i - 1) + 1,
            0 < i <= k <= ev@.len(),
            sections_read(ev@, i as int, k as int, ldf_secs, ldf_ends, ldf_parts, "LocalTransformations"@, "DerivedField"@, derived_field_tag()),
            covers_level(ev@, i as int, k as int, ldf_secs, ldf_spans, "LocalTransformations"@),
            spans_ok(ev@, ldf_spans, i as int, k as int),
            local_derived_fields@ == ldf_parts.flatten(),
            sections_read(ev@, i as int, k as int, ms_secs, ms_ends, ms_parts, "MiningSchema"@, "MiningField"@, mining_field_tag()),
            sections_read(ev@, i as int, k as int, kn_secs, kn_ends, kn_parts, "KNNInputs"@, "KNNInput"@, knn_input_tag()),
            covers_level(ev@, i as int, k as int, kn_secs, kn_spans, "KNNInputs"@),
            spans_ok(ev@, kn_spans, i as int, k as int),
            knn_inputs@ == kn_parts.flatten(),
            training_sections_read(ev@, i as int, k as int, ti_secs, ti_ends, ti_parts),
            covers_level(ev@, i as int, k as int, ti_secs, ti_spans, "TrainingInstances"@),
            spans_ok(ev@, ti_spans, i as int, k as int),
            instance_fields@ == ti_parts.flatten(),
            covers_level(ev@, i as int, k as int, ms_secs, ms_spans, "MiningSchema"@),
            spans_ok(ev@, ms_spans, i as int, k as int),
            mining_schema@ == ms_parts.flatten(),
            tag_attr(*start, "functionName"@) == Some(function_name@),
            rows_nonempty(instances@),
            rows_cells_read(ev@, i as int, k as int, instances@),
            read_at_positions(ev@, i as int, schema_at, mining_schema@, "MiningField"@, mining_field_tag()),
            schema_at.len() > 0 ==> schema_at.last() < k,
            read_at_positions(ev@, i as int, instance_fields_at, instance_fields@, "InstanceField"@, instance_field_tag()),
            instance_fields_at.len() > 0 ==> instance_fields_at.last() < k,
            read_at_positions(ev@, i as int, knn_inputs_at, knn_inputs@, "KNNInput"@, knn_input_tag()),
            knn_inputs_at.len() > 0 ==> knn_inputs_at.last() < k,
            read_at_positions(ev@, i as int, output_at, output@, "OutputField"@, output_field_tag()),
            output_at.len() > 0 ==> output_at.last() < k,
            read_at_positions(ev@, i as int, local_derived_fields_at, local_derived_fields@, "DerivedField"@, derived_field_tag()),
            local_derived_fields_at.len() > 0 ==> local_derived_fields_at.last() < k,
            at_end(ev@, k as int) || (i < k && is_end_named(ev@[k - 1], "NearestNeighborModel"@)),
            sections_read(ev@, i as int, k as int, ldf_secs, ldf_ends, ldf_parts, "LocalTransformations"@, "DerivedField"@, derived_field_tag()),
            covers_level(ev@, i as int, k as int, ldf_secs, ldf_spans, "LocalTransformations"@),
            spans_ok(ev@, ldf_spans, i as int, k as int),
            local_derived_fields@ == ldf_parts.flatten(),
            sections_read(ev@, i as int, k as int, ms_secs, ms_ends, ms_parts, "MiningSchema"@, "MiningField"@, mining_field_tag()),
            sections_read(ev@, i as int, k as int, kn_secs, kn_ends, kn_parts, "KNNInputs"@, "KNNInput"@, knn_input_tag()),
            covers_level(ev@, i as int, k as int, kn_secs, kn_spans, "KNNInputs"@),
            spans_ok(ev@, kn_spans, i as int, k as int),
            knn_inputs@ == kn_parts.flatten(),
            training_sections_read(ev@, i as int, k as int, ti_secs, ti_ends, ti_parts),
            covers_level(ev@, i as int, k as int, ti_secs, ti_spans, "TrainingInstances"@),
            spans_ok(ev@, ti_spans, i as int, k as int),
            instance_fields@ == ti_parts.flatten(),
            covers_level(ev@, i as int, k as int, ms_secs, ms_spans, "MiningSchema"@),
            spans_ok(ev@, ms_spans, i as int, k as int),
            mining_schema@ == ms_parts.flatten(),
            rows_nonempty(instances@),
            rows_cells_read(ev@, i as int, k as int, instances@),
            read_at_positions(ev@, i as int, schema_at, mining_schema@, "MiningField"@, mining_field_tag()),
            schema_at.len() > 0 ==> schema_at.last() < k,
            read_at_positions(ev@, i as int, instance_fields_at, instance_fields@, "InstanceField"@, instance_field_tag()),
            instance_fields_at.len() > 0 ==> instance_fields_at.last() < k,
            read_at_positions(ev@, i as int, knn_inputs_at, knn_inputs@, "KNNInput"@, knn_input_tag()),
            knn_inputs_at.len() > 0 ==> knn_inputs_at.last() < k,
            read_at_positions(ev@, i as int, output_at, output@, "OutputField"@, output_field_tag()),
            output_at.len() > 0 ==> output_at.last() < k,
            read_at_positions(ev@, i as int, local_derived_fields_at, local_derived_fields@, "DerivedField"@, derived_field_tag()),
            local_derived_fields_at.len() > 0 ==> local_derived_fields_at.last() < k,
        decreases ev@.len() - k,
    {
        proof {
            if element_named(ev@, i as int, "NearestNeighborModel"@) && model_readable(ev@, i as int, *start, "NearestNeighborModel"@) {
                lemma_nested_step(ev@, i as int, k as int);
                if k < closing(ev@, i - 1) {
                    assert(!start_named_at(ev@, k as int, "LocalTransformations"@));
                    assert(!is_end_named(ev@[k as int], "NearestNeighborModel"@));
                }
            }
        }
        if end_at(ev, k) {
            break;
        }
        let ghost ldf_here = k as int;
        let ghost ldf_secs0 = ldf_secs;
        let ghost mut ldf_stepped = false;
        proof {
            reveal_strlit("KNNInputs");
            reveal_strlit("LocalTransformations");
            reveal_strlit("MiningSchema");
            reveal_strlit("Output");
            reveal_strlit("TrainingInstances");
            assert("LocalTransformations"@ != "KNNInputs"@) by { assert("LocalTransformations"@.len() != "KNNInputs"@.len()); }
            assert("LocalTransformations"@ != "MiningSchema"@) by { assert("LocalTransformations"@.len() != "MiningSchema"@.len()); }
            assert("LocalTransformations"@ != "Output"@) by { assert("LocalTransformations"@.len() != "Output"@.len()); }
            assert("LocalTransformations"@ != "TrainingInstances"@) by { assert("LocalTransformations"@.len() != "TrainingInstances"@.len()); }
        }
        let ghost ti_secs0 = ti_secs;
        let ghost mut ti_stepped = false;
        proof {
            reveal_strlit("KNNInputs");
            reveal_strlit("TrainingInstances");
            reveal_strlit("Output");
            reveal_strlit("MiningSchema");
            reveal_strlit("LocalTransformations");
            assert("TrainingInstances"@ != "KNNInputs"@) by { assert("TrainingInstances"@.len() != "KNNInputs"@.len()); }
            assert("TrainingInstances"@ != "Output"@) by { assert("TrainingInstances"@.len() != "Output"@.len()); }
            assert("TrainingInstances"@ != "MiningSchema"@) by { assert("TrainingInstances"@.len() != "MiningSchema"@.len()); }
            assert("TrainingInstances"@ != "LocalTransformations"@) by { assert("TrainingInstances"@.len() != "LocalTransformations"@.len()); }
        }
        let ghost kn_secs0 = kn_secs;
        let ghost mut kn_stepped = false;
        proof {
            reveal_strlit("KNNInputs");
            reveal_strlit("TrainingInstances");
            reveal_strlit("Output");
            assert("KNNInputs"@ != "TrainingInstances"@) by { assert("KNNInputs"@.len() != "TrainingInstances"@.len()); }
            assert("KNNInputs"@ != "Output"@) by { assert("KNNInputs"@.len() != "Output"@.len()); }
        }
        let ghost ms_here = k as int;
        let ghost ms_secs0 = ms_secs;
        let ghost mut ms_stepped = false;
        proof {
            reveal_strlit("KNNInputs");
            reveal_strlit("LocalTransformations");
            reveal_strlit("MiningSchema");
            reveal_strlit("Output");
            reveal_strlit("TrainingInstances");
            assert("MiningSchema"@ != "KNNInputs"@) by { assert("MiningSchema"@.len() != "KNNInputs"@.len()); }
            assert("MiningSchema"@ != "LocalTransformations"@) by { assert("MiningSchema"@.len() != "LocalTransformations"@.len()); }
            assert("MiningSchema"@ != "Output"@) by { assert("MiningSchema"@.len() != "Output"@.len()); }
            assert("MiningSchema"@ != "TrainingInstances"@) by { assert("MiningSchema"@.len() != "TrainingInstances"@.len()); }
        }
        proof {
            lemma_rows_cells_widen(ev@, i as int, k as int, k + 1, instances@);
        }
        match &ev[k] {
            XmlEvent::Start(t) => {
                k = k + 1;
                if name_is(&t.name, "MiningSchema") {
                    let ghost ms_before = mining_schema@;
                    let (mut fields, j) = parse_mining_schema(ev, k, false)?;
                    let ghost ms_ys = fields@;
                    proof {
                        lemma_rows_cells_widen(ev@, i as int, k as int, j as int, instances@);
                    }
                    proof {
                        schema_at = lemma_read_extend(ev@, i as int, schema_at, mining_schema@, "MiningField"@, mining_field_tag(), k as int, j as int, fields@);
                    }
                    mining_schema.append(&mut fields);
                    proof {
                        assert(mining_schema@ =~= ms_before + ms_ys);
                        lemma_sections_push(ev@, i as int, ms_here, j as int, ms_secs, ms_ends, ms_parts, ms_ys, "MiningSchema"@, "MiningField"@, mining_field_tag());
                        lemma_covers_level_step(ev@, i as int, ms_here, j as int, ms_secs0, ms_secs0.push(ms_here), ms_spans, "MiningSchema"@);
                        ms_secs = ms_secs.push(ms_here);
                        ms_ends = ms_ends.push(j as int);
                        ms_parts = ms_parts.push(ms_ys);
                        ms_spans = span_step(ms_spans, ms_here, j as int);
                        ms_stepped = true;
                    }
                    k = j;
                } else if name_is(&t.name, "TrainingInstances") {
                    let ghost before = instance_fields@;
                    let j = parse_training_instances(ev, k, &mut instance_fields, &mut instances, Ghost(i as int))?;
                    proof {
                        assert(before.skip(0) =~= before);
                        instance_fields_at = lemma_read_extend_mut(ev@, i as int, instance_fields_at, before, instance_fields@, 0, "InstanceField"@, instance_field_tag(), k as int, j as int);
                        assert(instance_fields@.skip(0) =~= instance_fields@);
                        let ys = instance_fields@.skip(before.len() as int);
                        assert(instance_fields@ =~= before + ys);
                        lemma_training_push(ev@, i as int, ms_here, j as int, ti_secs, ti_ends, ti_parts, ys);
                        lemma_covers_level_step(ev@, i as int, ms_here, j as int, ti_secs0, ti_secs0.push(ms_here), ti_spans, "TrainingInstances"@);
                        ti_secs = ti_secs.push(ms_here);
                        ti_ends = ti_ends.push(j as int);
                        ti_parts = ti_parts.push(ys);
                        ti_spans = span_step(ti_spans, ms_here, j as int);
                        ti_stepped = true;
                    }
                    k = j;
                } else if name_is(&t.name, "KNNInputs") {
                    let ghost before = knn_inputs@;
                    let j = parse_knn_inputs(ev, k, &mut knn_inputs)?;
                    proof {
                        lemma_rows_cells_widen(ev@, i as int, k as int, j as int, instances@);
                    }
                    proof {
                        assert(before.skip(0) =~= before);
                        knn_inputs_at = lemma_read_extend_mut(ev@, i as int, knn_inputs_at, before, knn_inputs@, 0, "KNNInput"@, knn_input_tag(), k as int, j as int);
                        assert(knn_inputs@.skip(0) =~= knn_inputs@);
                        let ys = knn_inputs@.skip(before.len() as int);
                        assert(knn_inputs@ =~= before + ys);
                        lemma_sections_push(ev@, i as int, ms_here, j as int, kn_secs, kn_ends, kn_parts, ys, "KNNInputs"@, "KNNInput"@, knn_input_tag());
                        lemma_covers_level_step(ev@, i as int, ms_here, j as int, kn_secs0, kn_secs0.push(ms_here), kn_spans, "KNNInputs"@);
                        kn_secs = kn_secs.push(ms_here);
                        kn_ends = kn_ends.push(j as int);
                        kn_parts = kn_parts.push(ys);
                        kn_spans = span_step(kn_spans, ms_here, j as int);
                        kn_stepped = true;
                    }
                    k = j;
                } else if name_is(&t.name, "Output") {
                    let (mut fields, j) = parse_output(ev, k, false)?;
                    proof {
                        lemma_rows_cells_widen(ev@, i as int, k as int, j as int, instances@);
                    }
                    proof {
                        output_at = lemma_read_extend(ev@, i as int, output_at, output@, "OutputField"@, output_field_tag(), k as int, j as int, fields@);
                    }
                    output.append(&mut fields);
                    k = j;
                } else if name_is(&t.name, "LocalTransformations") {
                    let ghost ldf_before = local_derived_fields@;
                    let (mut fields, j) = parse_local_transformations(ev, k)?;
                    let ghost ldf_ys = fields@;
                    proof {
                        lemma_rows_cells_widen(ev@, i as int, k as int, j as int, instances@);
                    }
                    proof {
                        local_derived_fields_at = lemma_read_extend(ev@, i as int, local_derived_fields_at, local_derived_fields@, "DerivedField"@, derived_field_tag(), k as int, j as int, fields@);
                    }
                    local_derived_fields.append(&mut fields);
                    proof {
                        assert(local_derived_fields@ =~= ldf_before + ldf_ys);
                        lemma_sections_push(ev@, i as int, ldf_here, j as int, ldf_secs, ldf_ends, ldf_parts, ldf_ys, "LocalTransformations"@, "DerivedField"@, derived_field_tag());
                        lemma_covers_level_step(ev@, i as int, ldf_here, j as int, ldf_secs0, ldf_secs0.push(ldf_here), ldf_spans, "LocalTransformations"@);
                        ldf_secs = ldf_secs.push(ldf_here);
                        ldf_ends = ldf_ends.push(j as int);
                        ldf_parts = ldf_parts.push(ldf_ys);
                        ldf_spans = span_step(ldf_spans, ldf_here, j as int);
                        ldf_stepped = true;
                    }
                    k = j;
                }
            },
            XmlEvent::End(n) => {
                k = k + 1;
                proof {
                    lemma_covers_level_step(ev@, i as int, ldf_here, k as int, ldf_secs0, ldf_secs0, ldf_spans, "LocalTransformations"@);
                    lemma_sections_widen(ev@, i as int, ldf_here, k as int, ldf_secs, ldf_ends, ldf_parts, "LocalTransformations"@, "DerivedField"@, derived_field_tag());
                    ldf_spans = span_step(ldf_spans, ldf_here, k as int);
                    ldf_stepped = true;
                }
                proof {
                    lemma_covers_level_step(ev@, i as int, ms_here, k as int, ms_secs0, ms_secs0, ms_spans, "MiningSchema"@);
                    lemma_sections_widen(ev@, i as int, ms_here, k as int, ms_secs, ms_ends, ms_parts, "MiningSchema"@, "MiningField"@, mining_field_tag());
                    ms_spans = span_step(ms_spans, ms_here, k as int);
                    ms_stepped = true;
                }
                proof {
                    lemma_covers_level_step(ev@, i as int, ms_here, k as int, kn_secs0, kn_secs0, kn_spans, "KNNInputs"@);
                    lemma_sections_widen(ev@, i as int, ms_here, k as int, kn_secs, kn_ends, kn_parts, "KNNInputs"@, "KNNInput"@, knn_input_tag());
                    kn_spans = span_step(kn_spans, ms_here, k as int);
                    kn_stepped = true;
                }
                proof {
                    lemma_covers_level_step(ev@, i as int, ms_here, k as int, ti_secs0, ti_secs0, ti_spans, "TrainingInstances"@);
                    lemma_training_widen(ev@, i as int, ms_here, k as int, ti_secs, ti_ends, ti_parts);
                    ti_spans = span_step(ti_spans, ms_here, k as int);
                    ti_stepped = true;
                }
                if name_is(n, "NearestNeighborModel") {
                    break;
                }
            },
            _ => {
                k = k + 1;
            },
        }
        proof {
            if !ldf_stepped {
                lemma_covers_level_step(ev@, i as int, ldf_here, k as int, ldf_secs0, ldf_secs0, ldf_spans, "LocalTransformations"@);
                lemma_sections_widen(ev@, i as int, ldf_here, k as int, ldf_secs, ldf_ends, ldf_parts, "LocalTransformations"@, "DerivedField"@, derived_field_tag());
                ldf_spans = span_step(ldf_spans, ldf_here, k as int);
                ldf_stepped = true;
            }
        }
        proof {
            if !ti_stepped {
                lemma_covers_level_step(ev@, i as int, ms_here, k as int, ti_secs0, ti_secs0, ti_spans, "TrainingInstances"@);
                lemma_training_widen(ev@, i as int, ms_here, k as int, ti_secs, ti_ends, ti_parts);
                ti_spans = span_step(ti_spans, ms_here, k as int);
            }
        }
        proof {
            if !kn_stepped {
                lemma_covers_level_step(ev@, i as int, ms_here, k as int, kn_secs0, kn_secs0, kn_spans, "KNNInputs"@);
                lemma_sections_widen(ev@, i as int, ms_here, k as int, kn_secs, kn_ends, kn_parts, "KNNInputs"@, "KNNInput"@, knn_input_tag());
                kn_spans = span_step(kn_spans, ms_here, k as int);
            }
        }
        proof {
            if !ms_stepped {
                lemma_covers_level_step(ev@, i as int, ms_here, k as int, ms_secs0, ms_secs0, ms_spans, "MiningSchema"@);
                lemma_sections_widen(ev@, i as int, ms_here, k as int, ms_secs, ms_ends, ms_parts, "MiningSchema"@, "MiningField"@, mining_field_tag());
                ms_spans = span_step(ms_spans, ms_here, k as int);
                ms_stepped = true;
            }
        }
    }
    proof {
        lemma_read_in_order(ev@, i as int, k as int, schema_at, mining_schema@, "MiningField"@, mining_field_tag());
    }
    proof {
        lemma_read_in_order(ev@, i as int, k as int, instance_fields_at, instance_fields@, "InstanceField"@, instance_field_tag());
    }
    proof {
        lemma_read_in_order(ev@, i as int, k as int, knn_inputs_at, knn_inputs@, "KNNInput"@, knn_input_tag());
    }
    proof {
        lemma_read_in_order(ev@, i as int, k as int, output_at, output@, "OutputField"@, output_field_tag());
    }
    proof {
        lemma_read_in_order(ev@, i as int, k as int, local_derived_fields_at, local_derived_fields@, "DerivedField"@, derived_field_tag());
    }
    Ok((RawNearestNeighborModel {
        function_name,
        number_of_neighbors,
        mining_schema,
        output,
        targets: Vec::new(),
        instance_fields,
        instances,
        knn_inputs,
        local_derived_fields,
    }, k))
}

} // verus!
