//! The `PMML` document: its data dictionary, the models it holds, its
//! transformations and vendor extensions, read from the event stream.

use vstd::prelude::*;
use crate::unmarshal::nesting::{nested_models_ok, models_complete, is_model_name};
use crate::unmarshal::tree::{has_child_named, tree_model_readable};
use crate::unmarshal::nesting::{well_nested, attrs_complete, closing, lemma_attrs_from, lemma_closing, model_readable};
use crate::unmarshal::cursor::{tags_carry, start_named_at, element_named, spans_ok, in_span, nested_span, span_step, covers_level, read_each_reached, read_at_positions, lemma_read_push, lemma_covers_level_step, tags_covered, lemma_tags_covered_step, lemma_read_each_reached, sections_read, read_each_section, lemma_sections_push, lemma_sections_widen};
use crate::error::PmmlError;
use crate::strings::{string_from, concat, ends_with, has_suffix};
use crate::xml::{XmlEvent, XmlTag, attr, attr_required, tag_attr, opt_view, is_missing_attr, name_is, read_all_events, document_events, MAX_FILE_BYTES};
use crate::reader::{too_large_error, is_too_large};
use crate::unmarshal::raw::{
    RawPmml, RawDataField, RawExtension, RawTreeModel, RawRegressionModel, RawMiningModel, RawScorecard,
    RawClusteringModel, RawNaiveBayesModel, RawNearestNeighborModel, RawSupportVectorMachineModel,
    RawGeneralRegressionModel, RawAssociationModel, RawRuleSetModel, RawNeuralNetwork,
};
use crate::unmarshal::common::attr_or;
use crate::unmarshal::cursor::{
    end_at, at_end, skip_one, skip_same_named, progressed, stops_at_end_or_tag, is_end_named, tag_gives, all_read_from, lemma_all_read_append, childless, plain_until, plain_event,
};
use crate::unmarshal::expr::{
    parse_transformation_dictionary, parse_local_transformations, derived_field_tag, define_function_tag,
};
use crate::unmarshal::tree::{tree_model_of, parse_tree_model};
use crate::unmarshal::regression::{regression_model_of, parse_regression_model};
use crate::unmarshal::mining::{mining_model_of, parse_mining_model};
use crate::unmarshal::scorecard::{scorecard_of, parse_scorecard};
use crate::unmarshal::clustering::{clustering_model_of, parse_clustering_model};
use crate::unmarshal::bayes::{naive_bayes_model_of, parse_naive_bayes_model};
use crate::unmarshal::knn::{nearest_neighbor_model_of, parse_nearest_neighbor_model};
use crate::unmarshal::svm::{support_vector_machine_model_of, parse_support_vector_machine_model};
use crate::unmarshal::grm::{general_regression_model_of, parse_general_regression_model};
use crate::unmarshal::association::{association_model_of, parse_association_model};
use crate::unmarshal::ruleset::{rule_set_model_of, parse_rule_set_model};
use crate::unmarshal::neural::{neural_network_of, parse_neural_network};

verus! {

// ---------- data dictionary ----------

/// Whether `f` holds the attributes of `DataField` tag `t`: `dataType`
/// defaults to `string` and `optype` to `categorical`.
pub open spec fn data_field_of(t: XmlTag, f: RawDataField) -> bool {
    &&& tag_attr(t, "name"@) == Some(f.name@)
    &&& f.data_type@ == match tag_attr(t, "dataType"@) {
        Some(s) => s,
        None => "string"@,
    }
    &&& f.op_type@ == match tag_attr(t, "optype"@) {
        Some(s) => s,
        None => "categorical"@,
    }
}

/// How a data field is read from its `DataField` tag.
pub open spec fn data_field_tag() -> spec_fn(XmlTag, RawDataField) -> bool {
    |t: XmlTag, f: RawDataField| data_field_of(t, f)
}

/// Whether event `k` of `ev` is a `DataField` tag that `f` was read from.
pub open spec fn data_field_at(ev: Seq<XmlEvent>, k: int, f: RawDataField) -> bool {
    0 <= k < ev.len() && ((ev[k] matches XmlEvent::Start(t) && t.name@ == "DataField"@
        && data_field_of(t, f) && field_values_from(ev, k + 1, f.values@)) || (ev[k] matches XmlEvent::Empty(t)
        && t.name@ == "DataField"@ && data_field_of(t, f) && f.values@.len() == 0))
}

/// Whether `vals` are the values read from `lo` up to the data field's end
/// tag (or the end of the document).
pub open spec fn field_values_from(ev: Seq<XmlEvent>, lo: int, vals: Seq<String>) -> bool {
    exists|e: int|
        lo <= e <= ev.len() && (at_end(ev, e) || (lo < e && is_end_named(ev[e - 1], "DataField"@)))
            && #[trigger] values_read(ev, lo, e, vals)
}

/// Whether `f` was read from a `DataField` tag of `ev`.
pub open spec fn field_in(ev: Seq<XmlEvent>, f: RawDataField) -> bool {
    exists|k: int| #[trigger] data_field_at(ev, k, f)
}

/// Whether every field of `fields` from position `from` on was read from a
/// `DataField` tag of `ev`.
pub open spec fn fields_in(ev: Seq<XmlEvent>, fields: Seq<RawDataField>, from: int) -> bool {
    forall|x: int| from <= x < fields.len() ==> field_in(ev, #[trigger] fields[x])
}

/// A `DataField` from its tag, without values; `name` is required.
fn data_field_header(t: &XmlTag) -> (r: Result<RawDataField, PmmlError>)
    ensures
        r matches Ok(f) ==> data_field_of(*t, f) && f.values@.len() == 0,
        r is Ok <==> tag_attr(*t, "name"@) is Some,
        r matches Err(e) ==> is_missing_attr(e, "DataField"@, "name"@),
{
    let name = attr_required(t, "name", "DataField")?;
    let data_type = attr_or(t, "dataType", "string");
    let op_type = attr_or(t, "optype", "categorical");
    Ok(RawDataField { name, data_type, op_type, values: Vec::new() })
}

/// Whether event `e` is a `Value` start or empty-element tag.
pub open spec fn is_value_tag(e: XmlEvent) -> bool {
    match e {
        XmlEvent::Start(t) => t.name@ == "Value"@,
        XmlEvent::Empty(t) => t.name@ == "Value"@,
        _ => false,
    }
}

/// Whether event `e` is a `Value` tag that carries a `value` attribute.
pub open spec fn is_valued_tag(e: XmlEvent) -> bool {
    match e {
        XmlEvent::Start(t) => t.name@ == "Value"@ && tag_attr(t, "value"@) is Some,
        XmlEvent::Empty(t) => t.name@ == "Value"@ && tag_attr(t, "value"@) is Some,
        _ => false,
    }
}

/// [`is_value_tag`] as a value.
pub open spec fn value_tag() -> spec_fn(XmlEvent) -> bool {
    |e: XmlEvent| is_value_tag(e)
}

/// [`is_valued_tag`] as a value.
pub open spec fn valued_tag() -> spec_fn(XmlEvent) -> bool {
    |e: XmlEvent| is_valued_tag(e)
}

/// How a data field value is read from its `Value` tag: its `value`.
pub open spec fn value_attr_tag() -> spec_fn(XmlTag, String) -> bool {
    |t: XmlTag, v: String| tag_attr(t, "value"@) == Some(v@)
}

/// Whether `vals` are, in document order, the `value` attributes of every
/// `Value` tag carrying one that reading reached in `[lo, hi)`, and nothing
/// else.
pub open spec fn values_read(ev: Seq<XmlEvent>, lo: int, hi: int, vals: Seq<String>) -> bool {
    exists|at: Seq<int>, spans: Seq<(int, int)>|
        #[trigger] read_at_positions(ev, lo, at, vals, "Value"@, value_attr_tag()) && (at.len() > 0 ==> at.last() < hi)
            && #[trigger] tags_covered(ev, lo, hi, at, spans, valued_tag(), value_tag())
}

/// Whether `v` is the `value` attribute of a `Value` tag in `[lo, hi)`.
pub open spec fn value_tag_in(ev: Seq<XmlEvent>, lo: int, hi: int, v: String) -> bool {
    exists|p: int| lo <= p < hi && #[trigger] tag_gives(ev, p, "Value"@, v, value_attr_tag())
}

/// Every value a data field reads is the `value` attribute of a `Value` tag
/// among its events.
pub proof fn law_values_from_value_tags(ev: Seq<XmlEvent>, lo: int, hi: int, vals: Seq<String>)
    requires
        values_read(ev, lo, hi, vals),
    ensures
        forall|x: int| 0 <= x < vals.len() ==> #[trigger] value_tag_in(ev, lo, hi, vals[x]),
{
    let (at, spans) = choose|at: Seq<int>, spans: Seq<(int, int)>|
        #[trigger] read_at_positions(ev, lo, at, vals, "Value"@, value_attr_tag()) && (at.len() > 0 ==> at.last() < hi)
            && #[trigger] tags_covered(ev, lo, hi, at, spans, valued_tag(), value_tag());
    assert forall|x: int| 0 <= x < vals.len() implies #[trigger] value_tag_in(ev, lo, hi, vals[x]) by {
        assert(lo <= at[x] && tag_gives(ev, at[x], "Value"@, vals[x], value_attr_tag()));
        if x < at.len() - 1 {
            assert(at[x] < at[at.len() - 1]);
        }
        assert(at[x] < hi);
        assert(lo <= at[x] < hi && tag_gives(ev, at[x], "Value"@, vals[x], value_attr_tag()));
    }
}

/// The first `Value` tag of a data field, when it carries a `value`, gives
/// its first value.
pub proof fn law_first_value(ev: Seq<XmlEvent>, lo: int, hi: int, vals: Seq<String>, p: int)
    requires
        values_read(ev, lo, hi, vals),
        0 <= lo <= p < hi <= ev.len(),
        is_valued_tag(ev[p]),
        forall|q: int| lo <= q < p ==> !is_value_tag(#[trigger] ev[q]),
    ensures
        vals.len() > 0,
        tag_gives(ev, p, "Value"@, vals[0], value_attr_tag()),
{
    let (at, spans) = choose|at: Seq<int>, spans: Seq<(int, int)>|
        #[trigger] read_at_positions(ev, lo, at, vals, "Value"@, value_attr_tag()) && (at.len() > 0 ==> at.last() < hi)
            && #[trigger] tags_covered(ev, lo, hi, at, spans, valued_tag(), value_tag());
    if in_span(spans, p) {
        let x = choose|x: int| 0 <= x < spans.len() && #[trigger] spans[x].0 < p < spans[x].1;
        assert(lo <= spans[x].0);
        assert(is_value_tag(ev[spans[x].0]));
    }
    assert(valued_tag()(ev[p]));
    assert(at.contains(p));
    let y = choose|y: int| 0 <= y < at.len() && at[y] == p;
    if at[0] < p {
        assert(tag_gives(ev, at[0], "Value"@, vals[0], value_attr_tag()));
        assert(is_value_tag(ev[at[0]]));
    }
    if y > 0 {
        assert(at[0] < at[y]);
    }
}

/// A data field whose events hold no `Value` tag with a `value` reads no
/// values.
pub proof fn law_no_values(ev: Seq<XmlEvent>, lo: int, hi: int, vals: Seq<String>)
    requires
        values_read(ev, lo, hi, vals),
        forall|q: int| lo <= q < hi ==> !is_valued_tag(#[trigger] ev[q]),
    ensures
        vals.len() == 0,
{
    let (at, spans) = choose|at: Seq<int>, spans: Seq<(int, int)>|
        #[trigger] read_at_positions(ev, lo, at, vals, "Value"@, value_attr_tag()) && (at.len() > 0 ==> at.last() < hi)
            && #[trigger] tags_covered(ev, lo, hi, at, spans, valued_tag(), value_tag());
    if vals.len() > 0 {
        assert(tag_gives(ev, at[0], "Value"@, vals[0], value_attr_tag()));
        if at.len() > 1 {
            assert(at[0] < at[at.len() - 1]);
        }
        assert(is_valued_tag(ev[at[0]]));
    }
}

/// The `value` of each `Value` of a `DataField` whose start tag was just
/// read, appended in order, up to its end tag or the end of the document.
fn parse_data_field_values(ev: &Vec<XmlEvent>, i: usize, values: &mut Vec<String>) -> (j: usize)
    requires
        i <= ev@.len(),
    ensures
        stops_at_end_or_tag(ev@, i as int, j as int, "DataField"@),
        final(values)@.len() >= old(values)@.len(),
        final(values)@.subrange(0, old(values)@.len() as int) == old(values)@,
        values_read(ev@, i as int, j as int, final(values)@.skip(old(values)@.len() as int)),
{
    let ghost is_tag = valued_tag();
    let ghost opens = value_tag();
    let ghost mut at: Seq<int> = Seq::empty();
    let ghost mut spans: Seq<(int, int)> = Seq::empty();
    proof {
        assert(values@.skip(values@.len() as int) =~= Seq::<String>::empty());
        reveal_strlit("Value");
    }
    let mut k = i;
    loop
        invariant
            i <= k <= ev@.len(),
            values@.len() >= old(values)@.len(),
            values@.subrange(0, old(values)@.len() as int) == old(values)@,
            read_at_positions(ev@, i as int, at, values@.skip(old(values)@.len() as int), "Value"@, value_attr_tag()),
            at.len() > 0 ==> at.last() < k,
            tags_covered(ev@, i as int, k as int, at, spans, is_tag, opens),
            is_tag == valued_tag(),
            opens == value_tag(),
        ensures
            at_end(ev@, k as int) || (i < k && is_end_named(ev@[k - 1], "DataField"@)),
            i <= k <= ev@.len(),
            values@.len() >= old(values)@.len(),
            values@.subrange(0, old(values)@.len() as int) == old(values)@,
            read_at_positions(ev@, i as int, at, values@.skip(old(values)@.len() as int), "Value"@, value_attr_tag()),
            at.len() > 0 ==> at.last() < k,
            tags_covered(ev@, i as int, k as int, at, spans, is_tag, opens),
        decreases ev@.len() - k,
    {
        if end_at(ev, k) {
            break;
        }
        let ghost here = k as int;
        let ghost at0 = at;
        match &ev[k] {
            XmlEvent::Start(t) => {
                k = k + 1;
                if name_is(&t.name, "Value") {
                    let ghost before = values@;
                    match attr(t, "value") {
                        Some(v) => {
                            proof {
                                lemma_read_push(ev@, i as int, at, before.skip(old(values)@.len() as int), "Value"@, value_attr_tag(), here, v);
                                at = at.push(here);
                            }
                            values.push(v);
                            proof {
                                assert(values@.skip(old(values)@.len() as int) =~= before.skip(old(values)@.len() as int).push(v));
                                assert(values@.subrange(0, old(values)@.len() as int) =~= before.subrange(0, old(values)@.len() as int));
                            }
                        },
                        None => {},
                    }
                    k = skip_one(ev, k);
                }
                proof {
                    lemma_tags_covered_step(ev@, i as int, here, k as int, at0, at, spans, is_tag, opens);
                    spans = span_step(spans, here, k as int);
                }
            },
            XmlEvent::Empty(t) => {
                k = k + 1;
                if name_is(&t.name, "Value") {
                    let ghost before = values@;
                    match attr(t, "value") {
                        Some(v) => {
                            proof {
                                lemma_read_push(ev@, i as int, at, before.skip(old(values)@.len() as int), "Value"@, value_attr_tag(), here, v);
                                at = at.push(here);
                            }
                            values.push(v);
                            proof {
                                assert(values@.skip(old(values)@.len() as int) =~= before.skip(old(values)@.len() as int).push(v));
                                assert(values@.subrange(0, old(values)@.len() as int) =~= before.subrange(0, old(values)@.len() as int));
                            }
                        },
                        None => {},
                    }
                }
                proof {
                    lemma_tags_covered_step(ev@, i as int, here, k as int, at0, at, spans, is_tag, opens);
                    spans = span_step(spans, here, k as int);
                }
            },
            XmlEvent::End(n) => {
                k = k + 1;
                proof {
                    lemma_tags_covered_step(ev@, i as int, here, k as int, at0, at, spans, is_tag, opens);
                    spans = span_step(spans, here, k as int);
                }
                if name_is(n, "DataField") {
                    break;
                }
            },
            _ => {
                k = k + 1;
                proof {
                    lemma_tags_covered_step(ev@, i as int, here, k as int, at0, at, spans, is_tag, opens);
                    spans = span_step(spans, here, k as int);
                }
            },
        }
    }
    proof {
        assert(read_at_positions(ev@, i as int, at, values@.skip(old(values)@.len() as int), "Value"@, value_attr_tag()) && (at.len() > 0 ==> at.last() < k)
            && tags_covered(ev@, i as int, k as int, at, spans, valued_tag(), value_tag()));
    }
    k
}

/// The `DataField` elements of a `DataDictionary` whose start tag was just
/// read, appended in order, up to its end tag or the end of the document.
pub fn parse_data_dictionary(ev: &Vec<XmlEvent>, i: usize, fields: &mut Vec<RawDataField>) -> (r:
    Result<usize, PmmlError>)
    requires
        i <= ev@.len(),
    ensures
        r matches Ok(j) ==> {
            &&& stops_at_end_or_tag(ev@, i as int, j as int, "DataDictionary"@)
            &&& final(fields)@.len() >= old(fields)@.len()
            &&& final(fields)@.subrange(0, old(fields)@.len() as int) == old(fields)@
            &&& fields_in(ev@, final(fields)@, old(fields)@.len() as int)
            &&& read_each_reached(ev@, i as int, j as int, final(fields)@.skip(old(fields)@.len() as int), "DataField"@, data_field_tag())
        },
        childless(ev@, i as int, "DataDictionary"@) ==> r is Ok,
        tags_carry(ev@, i as int, "DataField"@, "name"@) ==> r is Ok,
{
    let ghost start = fields@;
    let ghost q: int = if childless(ev@, i as int, "DataDictionary"@) {
        choose|q: int| plain_until(ev@, i as int, q, "DataDictionary"@)
    } else {
        0
    };
    let ghost mut pos: Seq<int> = Seq::empty();
    let ghost mut spans: Seq<(int, int)> = Seq::empty();
    proof {
        assert(fields@.skip(start.len() as int) =~= Seq::<RawDataField>::empty());
    }
    let mut k = i;
    loop
        invariant_except_break
            i <= k <= ev@.len(),
            fields@.len() >= start.len(),
            fields@.subrange(0, start.len() as int) == start,
            fields_in(ev@, fields@, start.len() as int),
            read_at_positions(ev@, i as int, pos, fields@.skip(start.len() as int), "DataField"@, data_field_tag()),
            pos.len() > 0 ==> pos.last() < k,
            spans_ok(ev@, spans, i as int, k as int),
            covers_level(ev@, i as int, k as int, pos, spans, "DataField"@),
            childless(ev@, i as int, "DataDictionary"@) ==> plain_until(ev@, i as int, q, "DataDictionary"@) && k <= q,
        ensures
            at_end(ev@, k as int) || (i < k && is_end_named(ev@[k - 1], "DataDictionary"@)),
            i <= k <= ev@.len(),
            fields@.len() >= start.len(),
            fields@.subrange(0, start.len() as int) == start,
            fields_in(ev@, fields@, start.len() as int),
            read_at_positions(ev@, i as int, pos, fields@.skip(start.len() as int), "DataField"@, data_field_tag()),
            pos.len() > 0 ==> pos.last() < k,
            spans_ok(ev@, spans, i as int, k as int),
            covers_level(ev@, i as int, k as int, pos, spans, "DataField"@),
        decreases ev@.len() - k,
    {
        proof {
            if childless(ev@, i as int, "DataDictionary"@) && k < q {
                assert(plain_event(ev@[k as int], "DataDictionary"@));
            }
        }
        if end_at(ev, k) {
            break;
        }
        let ghost here = k as int;
        let ghost pos0 = pos;
        proof {
            reveal_strlit("DataField");
        }
        match &ev[k] {
            XmlEvent::Start(t) => {
                if name_is(&t.name, "DataField") {
                    let mut f = data_field_header(t)?;
                    let ghost at = k as int;
                    let ghost before = fields@;
                    let j = parse_data_field_values(ev, k + 1, &mut f.values);
                    proof {
                        assert(f.values@.skip(0) =~= f.values@);
                        assert(field_values_from(ev@, at + 1, f.values@));
                    }
                    assert(data_field_at(ev@, at, f));
                    fields.push(f);
                    proof {
                        assert(fields@.subrange(0, start.len() as int) =~= start);
                        assert forall|x: int| start.len() <= x < fields@.len() implies field_in(
                            ev@,
                            #[trigger] fields@[x],
                        ) by {
                            if x < before.len() {
                                assert(fields@[x] == before[x]);
                            } else {
                                assert(data_field_at(ev@, at, fields@[x]));
                            }
                        }
                    }
                    proof {
                        lemma_read_push(ev@, i as int, pos, before.skip(start.len() as int), "DataField"@, data_field_tag(), here, f);
                        assert(fields@.skip(start.len() as int) =~= before.skip(start.len() as int).push(f));
                        pos = pos.push(here);
                        lemma_covers_level_step(ev@, i as int, here, j as int, pos0, pos, spans, "DataField"@);
                        spans = span_step(spans, here, j as int);
                    }
                    k = j;
                } else {
                    k = k + 1;
                    proof {
                        lemma_covers_level_step(ev@, i as int, here, k as int, pos0, pos, spans, "DataField"@);
                        spans = span_step(spans, here, k as int);
                    }
                }
            },
            XmlEvent::Empty(t) => {
                if name_is(&t.name, "DataField") {
                    let f = data_field_header(t)?;
                    let ghost before = fields@;
                    assert(data_field_at(ev@, k as int, f));
                    proof {
                        lemma_read_push(ev@, i as int, pos, before.skip(start.len() as int), "DataField"@, data_field_tag(), here, f);
                        pos = pos.push(here);
                    }
                    fields.push(f);
                    proof {
                        assert(fields@.skip(start.len() as int) =~= before.skip(start.len() as int).push(f));
                    }
                    proof {
                        assert(fields@.subrange(0, start.len() as int) =~= start);
                        assert forall|x: int| start.len() <= x < fields@.len() implies field_in(
                            ev@,
                            #[trigger] fields@[x],
                        ) by {
                            if x < before.len() {
                                assert(fields@[x] == before[x]);
                            } else {
                                assert(data_field_at(ev@, k as int, fields@[x]));
                            }
                        }
                    }
                }
                k = k + 1;
                proof {
                    lemma_covers_level_step(ev@, i as int, here, k as int, pos0, pos, spans, "DataField"@);
                    spans = span_step(spans, here, k as int);
                }
            },
            XmlEvent::End(n) => {
                k = k + 1;
                proof {
                    lemma_covers_level_step(ev@, i as int, here, k as int, pos0, pos, spans, "DataField"@);
                    spans = span_step(spans, here, k as int);
                }
                if name_is(n, "DataDictionary") {
                    break;
                }
            },
            _ => {
                k = k + 1;
                proof {
                    lemma_covers_level_step(ev@, i as int, here, k as int, pos0, pos, spans, "DataField"@);
                    spans = span_step(spans, here, k as int);
                }
            },
        }
    }
    proof {
        lemma_read_each_reached(ev@, i as int, k as int, pos, spans, fields@.skip(start.len() as int), "DataField"@, data_field_tag());
    }
    Ok(k)
}

// ---------- extensions ----------

/// Whether `x` holds the attributes of `Extension` tag `t`.
pub open spec fn extension_of(t: XmlTag, x: RawExtension) -> bool {
    &&& opt_view(x.extender) == tag_attr(t, "extender"@)
    &&& opt_view(x.name) == tag_attr(t, "name"@)
    &&& opt_view(x.value) == tag_attr(t, "value"@)
}

/// An `Extension` from its tag, without content.
pub fn parse_extension(t: &XmlTag) -> (x: RawExtension)
    ensures
        extension_of(*t, x),
        x.content is None,
{
    RawExtension {
        extender: attr(t, "extender"),
        name: attr(t, "name"),
        value: attr(t, "value"),
        content: None,
    }
}

/// The text events of `ev` concatenated in order; text that could not be
/// unescaped counts as empty.
pub open spec fn text_of(ev: Seq<XmlEvent>) -> Seq<char>
    decreases ev.len(),
{
    if ev.len() == 0 {
        Seq::empty()
    } else {
        text_of(ev.drop_last()) + match ev.last() {
            XmlEvent::Text(Some(t)) => t@,
            _ => Seq::empty(),
        }
    }
}

/// The text inside an `Extension` whose start tag was just read, up to its
/// end tag or the end of the document.
fn read_extension_content(ev: &Vec<XmlEvent>, i: usize) -> (r: (String, usize))
    requires
        i <= ev@.len(),
    ensures
        stops_at_end_or_tag(ev@, i as int, r.1 as int, "Extension"@),
        r.0@ == text_of(ev@.subrange(i as int, r.1 as int)),
{
    let mut content = String::new();
    let mut k = i;
    proof {
        assert(ev@.subrange(i as int, i as int) =~= Seq::<XmlEvent>::empty());
    }
    loop
        invariant
            i <= k <= ev@.len(),
            content@ == text_of(ev@.subrange(i as int, k as int)),
        ensures
            i <= k <= ev@.len(),
            content@ == text_of(ev@.subrange(i as int, k as int)),
            at_end(ev@, k as int) || (i < k && is_end_named(ev@[k - 1], "Extension"@)),
        decreases ev@.len() - k,
    {
        if end_at(ev, k) {
            break;
        }
        proof {
            assert(ev@.subrange(i as int, k + 1 as int).drop_last() =~= ev@.subrange(i as int, k as int));
        }
        match &ev[k] {
            XmlEvent::Text(t) => {
                match t {
                    Some(s) => {
                        content = concat(content.as_str(), s.as_str());
                    },
                    None => {},
                }
                k = k + 1;
            },
            XmlEvent::End(n) => {
                k = k + 1;
                if name_is(n, "Extension") {
                    break;
                }
            },
            _ => {
                k = k + 1;
            },
        }
    }
    (content, k)
}

// ---------- models the runtime does not support ----------

/// The model elements the runtime recognises and does not support.
pub open spec fn is_listed_unsupported(n: Seq<char>) -> bool {
    ||| n == "AnomalyDetectionModel"@
    ||| n == "BaselineModel"@
    ||| n == "BaselineRegressionModel"@
    ||| n == "BayesianNetworkModel"@
    ||| n == "GaussianProcessModel"@
    ||| n == "SequenceModel"@
    ||| n == "TextModel"@
    ||| n == "TimeSeriesModel"@
    ||| n == "ModelComposition"@
    ||| n == "CenterFields"@
}

/// Whether `n` names an element recorded as an unsupported model: a listed
/// one, or any name that ends with `Model`.
pub open spec fn is_unsupported_name(n: Seq<char>) -> bool {
    is_listed_unsupported(n) || has_suffix(n, "Model"@)
}

fn listed_unsupported(n: &String) -> (r: bool)
    ensures
        r == is_listed_unsupported(n@),
{
    name_is(n, "AnomalyDetectionModel") || name_is(n, "BaselineModel") || name_is(
        n,
        "BaselineRegressionModel",
    ) || name_is(n, "BayesianNetworkModel") || name_is(n, "GaussianProcessModel") || name_is(
        n,
        "SequenceModel",
    ) || name_is(n, "TextModel") || name_is(n, "TimeSeriesModel") || name_is(
        n,
        "ModelComposition",
    ) || name_is(n, "CenterFields")
}

// ---------- the document ----------

/// Whether the unsupported model recorded, if any, has a name that is
/// recorded as such.
pub open spec fn unsupported_ok(u: Option<String>) -> bool {
    match u {
        Some(n) => is_unsupported_name(n@),
        None => true,
    }
}

/// Whether the model `o`, if any, was read from a tag named `name` of `ev`,
/// as `f` relates tags and models.
pub open spec fn model_from<T>(ev: Seq<XmlEvent>, o: Option<T>, name: Seq<char>, f: spec_fn(XmlTag, T) -> bool) -> bool {
    o matches Some(m) ==> exists|k: int| #[trigger] tag_gives(ev, k, name, m, f)
}

/// A model read from the tag at `k` was read from a tag of its name.
proof fn lemma_model_from<T>(ev: Seq<XmlEvent>, k: int, name: Seq<char>, m: T, f: spec_fn(XmlTag, T) -> bool)
    requires
        tag_gives(ev, k, name, m, f),
    ensures
        model_from(ev, Some(m), name, f),
{
    let o = Some(m);
    assert(o->0 == m);
    assert(tag_gives(ev, k, name, o->0, f));
}

/// How a `TreeModel` is read from its tag.
pub open spec fn tree_model_tag() -> spec_fn(XmlTag, RawTreeModel) -> bool {
    |t: XmlTag, m: RawTreeModel| tree_model_of(t, m)
}

/// How a `RegressionModel` is read from its tag.
pub open spec fn regression_model_tag() -> spec_fn(XmlTag, RawRegressionModel) -> bool {
    |t: XmlTag, m: RawRegressionModel| regression_model_of(t, m)
}

/// How a `MiningModel` is read from its tag.
pub open spec fn mining_model_tag() -> spec_fn(XmlTag, RawMiningModel) -> bool {
    |t: XmlTag, m: RawMiningModel| mining_model_of(t, m)
}

/// How a `Scorecard` is read from its tag.
pub open spec fn scorecard_tag() -> spec_fn(XmlTag, RawScorecard) -> bool {
    |t: XmlTag, m: RawScorecard| scorecard_of(t, m)
}

/// How a `ClusteringModel` is read from its tag.
pub open spec fn clustering_model_tag() -> spec_fn(XmlTag, RawClusteringModel) -> bool {
    |t: XmlTag, m: RawClusteringModel| clustering_model_of(t, m)
}

/// How a `NaiveBayesModel` is read from its tag.
pub open spec fn naive_bayes_model_tag() -> spec_fn(XmlTag, RawNaiveBayesModel) -> bool {
    |t: XmlTag, m: RawNaiveBayesModel| naive_bayes_model_of(t, m)
}

/// How a `NearestNeighborModel` is read from its tag.
pub open spec fn nearest_neighbor_model_tag() -> spec_fn(XmlTag, RawNearestNeighborModel) -> bool {
    |t: XmlTag, m: RawNearestNeighborModel| nearest_neighbor_model_of(t, m)
}

/// How a `SupportVectorMachineModel` is read from its tag.
pub open spec fn support_vector_machine_model_tag() -> spec_fn(XmlTag, RawSupportVectorMachineModel) -> bool {
    |t: XmlTag, m: RawSupportVectorMachineModel| support_vector_machine_model_of(t, m)
}

/// How a `GeneralRegressionModel` is read from its tag.
pub open spec fn general_regression_model_tag() -> spec_fn(XmlTag, RawGeneralRegressionModel) -> bool {
    |t: XmlTag, m: RawGeneralRegressionModel| general_regression_model_of(t, m)
}

/// How a `AssociationModel` is read from its tag.
pub open spec fn association_model_tag() -> spec_fn(XmlTag, RawAssociationModel) -> bool {
    |t: XmlTag, m: RawAssociationModel| association_model_of(t, m)
}

/// How a `RuleSetModel` is read from its tag.
pub open spec fn rule_set_model_tag() -> spec_fn(XmlTag, RawRuleSetModel) -> bool {
    |t: XmlTag, m: RawRuleSetModel| rule_set_model_of(t, m)
}

/// How a `NeuralNetwork` is read from its tag.
pub open spec fn neural_network_tag() -> spec_fn(XmlTag, RawNeuralNetwork) -> bool {
    |t: XmlTag, m: RawNeuralNetwork| neural_network_of(t, m)
}

/// What holds of a document read from `ev`: every data field comes from a
/// `DataField` tag of `ev`, the unsupported model, if any, is named as one,
/// and every model present was read from a tag of its name with the
/// attributes it holds.
pub open spec fn document_from(ev: Seq<XmlEvent>, d: RawPmml) -> bool {
    &&& fields_in(ev, d.data_dictionary@, 0)
    &&& all_read_from(ev, d.transformation_dictionary@, "DerivedField"@, derived_field_tag())
    &&& all_read_from(ev, d.define_functions@, "DefineFunction"@, define_function_tag())
    &&& unsupported_ok(d.unsupported_model)
    &&& model_from(ev, d.tree_model, "TreeModel"@, tree_model_tag())
    &&& model_from(ev, d.regression_model, "RegressionModel"@, regression_model_tag())
    &&& model_from(ev, d.mining_model, "MiningModel"@, mining_model_tag())
    &&& model_from(ev, d.scorecard, "Scorecard"@, scorecard_tag())
    &&& model_from(ev, d.clustering_model, "ClusteringModel"@, clustering_model_tag())
    &&& model_from(ev, d.naive_bayes_model, "NaiveBayesModel"@, naive_bayes_model_tag())
    &&& model_from(ev, d.nearest_neighbor_model, "NearestNeighborModel"@, nearest_neighbor_model_tag())
    &&& model_from(ev, d.support_vector_machine_model, "SupportVectorMachineModel"@, support_vector_machine_model_tag())
    &&& model_from(ev, d.general_regression_model, "GeneralRegressionModel"@, general_regression_model_tag())
    &&& model_from(ev, d.association_model, "AssociationModel"@, association_model_tag())
    &&& model_from(ev, d.rule_set_model, "RuleSetModel"@, rule_set_model_tag())
    &&& model_from(ev, d.neural_network, "NeuralNetwork"@, neural_network_tag())
}

/// A document with nothing in it.
pub open spec fn is_empty_document(d: RawPmml) -> bool {
    &&& d.data_dictionary@.len() == 0
    &&& d.tree_model is None
    &&& d.regression_model is None
    &&& d.mining_model is None
    &&& d.scorecard is None
    &&& d.clustering_model is None
    &&& d.naive_bayes_model is None
    &&& d.nearest_neighbor_model is None
    &&& d.support_vector_machine_model is None
    &&& d.neural_network is None
    &&& d.general_regression_model is None
    &&& d.association_model is None
    &&& d.rule_set_model is None
    &&& d.transformation_dictionary@.len() == 0
    &&& d.define_functions@.len() == 0
    &&& d.extensions@.len() == 0
    &&& d.unsupported_model is None
}

fn empty_document() -> (d: RawPmml)
    ensures
        is_empty_document(d),
{
    RawPmml {
        data_dictionary: Vec::new(),
        tree_model: None,
        regression_model: None,
        mining_model: None,
        scorecard: None,
        clustering_model: None,
        naive_bayes_model: None,
        nearest_neighbor_model: None,
        support_vector_machine_model: None,
        neural_network: None,
        general_regression_model: None,
        association_model: None,
        rule_set_model: None,
        transformation_dictionary: Vec::new(),
        define_functions: Vec::new(),
        extensions: Vec::new(),
        unsupported_model: None,
    }
}

/// Record `name` as the unsupported model unless one is recorded already.
fn note_unsupported(doc: &mut RawPmml, name: &String)
    requires
        unsupported_ok(old(doc).unsupported_model),
        is_unsupported_name(name@),
    ensures
        *final(doc) == (RawPmml {
            unsupported_model: final(doc).unsupported_model,
            ..*old(doc)
        }),
        old(doc).unsupported_model is Some ==> final(doc).unsupported_model == old(
            doc,
        ).unsupported_model,
        old(doc).unsupported_model is None ==> (final(doc).unsupported_model matches Some(n) && n@
            == name@),
        unsupported_ok(final(doc).unsupported_model),
{
    if doc.unsupported_model.is_none() {
        doc.unsupported_model = Some(name.clone());
    }
}

/// The start-tag names whose elements are read into the document (all but
/// `Extension` can fail).
pub open spec fn read_start_name(n: Seq<char>) -> bool {
    ||| n == "DataDictionary"@
    ||| n == "TreeModel"@
    ||| n == "RegressionModel"@
    ||| n == "MiningModel"@
    ||| n == "Scorecard"@
    ||| n == "ClusteringModel"@
    ||| n == "NaiveBayesModel"@
    ||| n == "NearestNeighborModel"@
    ||| n == "SupportVectorMachineModel"@
    ||| n == "GeneralRegressionModel"@
    ||| n == "AssociationModel"@
    ||| n == "RuleSetModel"@
    ||| n == "NeuralNetwork"@
    ||| n == "TransformationDictionary"@
    ||| n == "LocalTransformations"@
}

/// The empty-element tag names whose models are read into the document.
pub open spec fn read_empty_name(n: Seq<char>) -> bool {
    ||| n == "TreeModel"@
    ||| n == "RegressionModel"@
    ||| n == "MiningModel"@
    ||| n == "Scorecard"@
    ||| n == "ClusteringModel"@
    ||| n == "NaiveBayesModel"@
    ||| n == "NearestNeighborModel"@
}

/// Whether the events `ev` of a document can be read in full: the stream is
/// well nested and holds no reader error; every tag carries the attributes
/// that reading it requires, data fields their `name`; every model element
/// is complete, every tree model has a root `Node` child and every segment a
/// model child; and there is no transformation dictionary and no local
/// transformations.
pub open spec fn doc_readable(ev: Seq<XmlEvent>) -> bool {
    &&& well_nested(ev)
    &&& forall|k: int| 0 <= k < ev.len() ==> !(#[trigger] ev[k] is Error)
    &&& attrs_complete(ev, 0)
    &&& tags_carry(ev, 0, "DataField"@, "name"@)
    &&& nested_models_ok(ev)
    &&& forall|p: int| !#[trigger] start_named_at(ev, p, "TransformationDictionary"@)
    &&& forall|p: int| !#[trigger] start_named_at(ev, p, "LocalTransformations"@)
}

/// Whether every model that `d` holds, `e` holds as well.
pub open spec fn models_kept(d: RawPmml, e: RawPmml) -> bool {
    &&& d.tree_model is Some ==> e.tree_model is Some
    &&& d.regression_model is Some ==> e.regression_model is Some
    &&& d.mining_model is Some ==> e.mining_model is Some
    &&& d.scorecard is Some ==> e.scorecard is Some
    &&& d.clustering_model is Some ==> e.clustering_model is Some
    &&& d.naive_bayes_model is Some ==> e.naive_bayes_model is Some
    &&& d.nearest_neighbor_model is Some ==> e.nearest_neighbor_model is Some
    &&& d.support_vector_machine_model is Some ==> e.support_vector_machine_model is Some
    &&& d.general_regression_model is Some ==> e.general_regression_model is Some
    &&& d.association_model is Some ==> e.association_model is Some
    &&& d.rule_set_model is Some ==> e.rule_set_model is Some
    &&& d.neural_network is Some ==> e.neural_network is Some
}

/// Whether `d` holds the model that an element named `n` gives, when `n`
/// names a model that is read.
pub open spec fn model_held(d: RawPmml, n: Seq<char>) -> bool {
    &&& n == "TreeModel"@ ==> d.tree_model is Some
    &&& n == "RegressionModel"@ ==> d.regression_model is Some
    &&& n == "MiningModel"@ ==> d.mining_model is Some
    &&& n == "Scorecard"@ ==> d.scorecard is Some
    &&& n == "ClusteringModel"@ ==> d.clustering_model is Some
    &&& n == "NaiveBayesModel"@ ==> d.naive_bayes_model is Some
    &&& n == "NearestNeighborModel"@ ==> d.nearest_neighbor_model is Some
    &&& n == "SupportVectorMachineModel"@ ==> d.support_vector_machine_model is Some
    &&& n == "GeneralRegressionModel"@ ==> d.general_regression_model is Some
    &&& n == "AssociationModel"@ ==> d.association_model is Some
    &&& n == "RuleSetModel"@ ==> d.rule_set_model is Some
    &&& n == "NeuralNetwork"@ ==> d.neural_network is Some
}

/// Whether every start tag in `[0, hi)` that reading reached, outside the
/// spans it passed over as the content of elements, gave `d` its model.
pub open spec fn models_reached(ev: Seq<XmlEvent>, hi: int, spans: Seq<(int, int)>, d: RawPmml) -> bool {
    forall|p: int|
        0 <= p < hi && !in_span(spans, p) ==> match #[trigger] ev[p] {
            XmlEvent::Start(t) => model_held(d, t.name@),
            _ => true,
        }
}

/// Whether `d` holds a model for every model start tag that reading the
/// events up to their end (or an `Eof` event) reached: every one outside the
/// content of the elements it read or passed over.
pub open spec fn reached_models_read(ev: Seq<XmlEvent>, d: RawPmml) -> bool {
    exists|hi: int, spans: Seq<(int, int)>|
        at_end(ev, hi) && hi <= ev.len() && spans_ok(ev, spans, 0, hi) && #[trigger] models_reached(ev, hi, spans, d)
}

/// The lengths of the element names the document loop tells apart, and
/// the names among them of equal length differ in their first letter.
proof fn lemma_element_names()
    ensures
        "TreeModel"@.len() == 9,
        "RegressionModel"@.len() == 15,
        "MiningModel"@.len() == 11,
        "Scorecard"@.len() == 9,
        "ClusteringModel"@.len() == 15,
        "NaiveBayesModel"@.len() == 15,
        "NearestNeighborModel"@.len() == 20,
        "SupportVectorMachineModel"@.len() == 25,
        "GeneralRegressionModel"@.len() == 22,
        "AssociationModel"@.len() == 16,
        "RuleSetModel"@.len() == 12,
        "NeuralNetwork"@.len() == 13,
        "DataDictionary"@.len() == 14,
        "TransformationDictionary"@.len() == 24,
        "LocalTransformations"@.len() == 20,
        "Extension"@.len() == 9,
        "TreeModel"@ != "Scorecard"@,
        "TreeModel"@ != "Extension"@,
        "Scorecard"@ != "Extension"@,
        "RegressionModel"@ != "ClusteringModel"@,
        "RegressionModel"@ != "NaiveBayesModel"@,
        "ClusteringModel"@ != "NaiveBayesModel"@,
        "NearestNeighborModel"@ != "LocalTransformations"@,
{
    reveal_strlit("TreeModel");
    reveal_strlit("RegressionModel");
    reveal_strlit("MiningModel");
    reveal_strlit("Scorecard");
    reveal_strlit("ClusteringModel");
    reveal_strlit("NaiveBayesModel");
    reveal_strlit("NearestNeighborModel");
    reveal_strlit("SupportVectorMachineModel");
    reveal_strlit("GeneralRegressionModel");
    reveal_strlit("AssociationModel");
    reveal_strlit("RuleSetModel");
    reveal_strlit("NeuralNetwork");
    reveal_strlit("DataDictionary");
    reveal_strlit("TransformationDictionary");
    reveal_strlit("LocalTransformations");
    reveal_strlit("Extension");
    assert("TreeModel"@[0] != "Scorecard"@[0]);
    assert("TreeModel"@[0] != "Extension"@[0]);
    assert("Scorecard"@[0] != "Extension"@[0]);
    assert("RegressionModel"@[0] != "ClusteringModel"@[0]);
    assert("RegressionModel"@[0] != "NaiveBayesModel"@[0]);
    assert("ClusteringModel"@[0] != "NaiveBayesModel"@[0]);
    assert("NearestNeighborModel"@[0] != "LocalTransformations"@[0]);
}

/// Read the element whose start tag `t` was just read (at position `i - 1`)
/// into `doc`.
#[verifier::spinoff_prover]
#[verifier::rlimit(40)]
fn read_start_element(ev: &Vec<XmlEvent>, i: usize, t: &XmlTag, doc: &mut RawPmml) -> (r: Result<
    usize,
    PmmlError,
>)
    requires
        0 < i <= ev@.len(),
        ev@[i - 1] == XmlEvent::Start(*t),
        document_from(ev@, *old(doc)),
    ensures
        r matches Ok(j) ==> progressed(ev@, i as int, j as int) && document_from(ev@, *final(doc)),
        r matches Ok(j) ==> (j == i || stops_at_end_or_tag(ev@, i as int, j as int, t.name@))
            && models_kept(*old(doc), *final(doc)) && model_held(*final(doc), t.name@),
        r matches Ok(j) ==> (t.name@ == "DataDictionary"@ ==> final(doc).data_dictionary@.len() >= old(doc).data_dictionary@.len()
            && final(doc).data_dictionary@.subrange(0, old(doc).data_dictionary@.len() as int) == old(doc).data_dictionary@
            && read_each_reached(ev@, i as int, j as int, final(doc).data_dictionary@.skip(old(doc).data_dictionary@.len() as int), "DataField"@, data_field_tag())),
        r is Ok && t.name@ != "DataDictionary"@ ==> final(doc).data_dictionary == old(doc).data_dictionary,
        !read_start_name(t.name@) ==> r is Ok,
        !read_start_name(t.name@) && t.name@ != "Extension"@ && !is_unsupported_name(t.name@) ==> r
            == Ok::<usize, PmmlError>(i) && *final(doc) == *old(doc),
        doc_readable(ev@) ==> r is Ok,
{
    proof {
        lemma_element_names();
    }
    proof {
        if doc_readable(ev@) {
            assert(!start_named_at(ev@, i - 1, "TransformationDictionary"@));
            assert(!start_named_at(ev@, i - 1, "LocalTransformations"@));
        }
    }
    let name = &t.name;
    if name_is(name, "DataDictionary") {
        let ghost before = doc.data_dictionary@;
        let j = parse_data_dictionary(ev, i, &mut doc.data_dictionary)?;
        proof {
            assert forall|x: int| 0 <= x < doc.data_dictionary@.len() implies field_in(
                ev@,
                #[trigger] doc.data_dictionary@[x],
            ) by {
                if x < before.len() {
                    assert(doc.data_dictionary@.subrange(0, before.len() as int)[x] == before[x]);
                }
            }
        }
        return Ok(j);
    }
    if name_is(name, "TreeModel") {
        let (m, j) = parse_tree_model(ev, i, t)?;
        proof {
            lemma_model_from(ev@, i - 1, "TreeModel"@, m, tree_model_tag());
        }
        doc.tree_model = Some(m);
        return Ok(j);
    }
    if name_is(name, "RegressionModel") {
        let (m, j) = parse_regression_model(ev, i, t)?;
        proof {
            lemma_model_from(ev@, i - 1, "RegressionModel"@, m, regression_model_tag());
        }
        doc.regression_model = Some(m);
        return Ok(j);
    }
    if name_is(name, "MiningModel") {
        let (m, j) = parse_mining_model(ev, i, t)?;
        proof {
            lemma_model_from(ev@, i - 1, "MiningModel"@, m, mining_model_tag());
        }
        doc.mining_model = Some(m);
        return Ok(j);
    }
    if name_is(name, "Scorecard") {
        let (m, j) = parse_scorecard(ev, i, t)?;
        proof {
            lemma_model_from(ev@, i - 1, "Scorecard"@, m, scorecard_tag());
        }
        doc.scorecard = Some(m);
        return Ok(j);
    }
    if name_is(name, "ClusteringModel") {
        let (m, j) = parse_clustering_model(ev, i, t)?;
        proof {
            lemma_model_from(ev@, i - 1, "ClusteringModel"@, m, clustering_model_tag());
        }
        doc.clustering_model = Some(m);
        return Ok(j);
    }
    if name_is(name, "NaiveBayesModel") {
        let (m, j) = parse_naive_bayes_model(ev, i, t)?;
        proof {
            lemma_model_from(ev@, i - 1, "NaiveBayesModel"@, m, naive_bayes_model_tag());
        }
        doc.naive_bayes_model = Some(m);
        return Ok(j);
    }
    if name_is(name, "NearestNeighborModel") {
        let (m, j) = parse_nearest_neighbor_model(ev, i, t)?;
        proof {
            lemma_model_from(ev@, i - 1, "NearestNeighborModel"@, m, nearest_neighbor_model_tag());
        }
        doc.nearest_neighbor_model = Some(m);
        return Ok(j);
    }
    if name_is(name, "SupportVectorMachineModel") {
        let (m, j) = parse_support_vector_machine_model(ev, i, t)?;
        proof {
            lemma_model_from(ev@, i - 1, "SupportVectorMachineModel"@, m, support_vector_machine_model_tag());
        }
        doc.support_vector_machine_model = Some(m);
        return Ok(j);
    }
    if name_is(name, "GeneralRegressionModel") {
        let (m, j) = parse_general_regression_model(ev, i, t)?;
        proof {
            lemma_model_from(ev@, i - 1, "GeneralRegressionModel"@, m, general_regression_model_tag());
        }
        doc.general_regression_model = Some(m);
        return Ok(j);
    }
    if name_is(name, "AssociationModel") {
        let (m, j) = parse_association_model(ev, i, t)?;
        proof {
            lemma_model_from(ev@, i - 1, "AssociationModel"@, m, association_model_tag());
        }
        doc.association_model = Some(m);
        return Ok(j);
    }
    if name_is(name, "RuleSetModel") {
        let (m, j) = parse_rule_set_model(ev, i, t)?;
        proof {
            lemma_model_from(ev@, i - 1, "RuleSetModel"@, m, rule_set_model_tag());
        }
        doc.rule_set_model = Some(m);
        return Ok(j);
    }
    if name_is(name, "NeuralNetwork") {
        let (m, j) = parse_neural_network(ev, i, t)?;
        proof {
            lemma_model_from(ev@, i - 1, "NeuralNetwork"@, m, neural_network_tag());
        }
        doc.neural_network = Some(m);
        return Ok(j);
    }
    if name_is(name, "TransformationDictionary") {
        let (mut funcs, mut fields, j) = parse_transformation_dictionary(ev, i)?;
        proof {
            lemma_all_read_append(ev@, doc.define_functions@, funcs@, i as int, j as int, "DefineFunction"@, define_function_tag());
            lemma_all_read_append(ev@, doc.transformation_dictionary@, fields@, i as int, j as int, "DerivedField"@, derived_field_tag());
        }
        doc.define_functions.append(&mut funcs);
        doc.transformation_dictionary.append(&mut fields);
        return Ok(j);
    }
    if name_is(name, "LocalTransformations") {
        let (mut fields, j) = parse_local_transformations(ev, i)?;
        proof {
            lemma_all_read_append(ev@, doc.transformation_dictionary@, fields@, i as int, j as int, "DerivedField"@, derived_field_tag());
        }
        doc.transformation_dictionary.append(&mut fields);
        return Ok(j);
    }
    if name_is(name, "Extension") {
        let mut x = parse_extension(t);
        let (content, j) = read_extension_content(ev, i);
        if !content.as_str().is_empty() {
            x.content = Some(content);
        }
        doc.extensions.push(x);
        return Ok(j);
    }
    if listed_unsupported(name) || ends_with(name.as_str(), "Model") {
        note_unsupported(doc, name);
        return Ok(skip_same_named(ev, i, name.as_str()));
    }
    Ok(i)
}

/// Read the element whose empty-element tag `t` was just read (at position
/// `i - 1`) into `doc`. A tree model reads on from here as from a start tag;
/// a regression or mining model does so under a tag of the same name with
/// no attributes.
fn read_empty_element(ev: &Vec<XmlEvent>, i: usize, t: &XmlTag, doc: &mut RawPmml) -> (r: Result<
    usize,
    PmmlError,
>)
    requires
        0 < i <= ev@.len(),
        ev@[i - 1] == XmlEvent::Empty(*t),
        document_from(ev@, *old(doc)),
    ensures
        r matches Ok(j) ==> progressed(ev@, i as int, j as int) && document_from(ev@, *final(doc)),
        r matches Ok(j) ==> (j == i || stops_at_end_or_tag(ev@, i as int, j as int, t.name@))
            && models_kept(*old(doc), *final(doc)) && final(doc).data_dictionary == old(doc).data_dictionary,
        !read_empty_name(t.name@) ==> r == Ok::<usize, PmmlError>(i),
        !read_empty_name(t.name@) && t.name@ != "Extension"@ && !has_suffix(t.name@, "Model"@)
            && t.name@ != "ModelComposition"@ ==> *final(doc) == *old(doc),
{
    let name = &t.name;
    if name_is(name, "TreeModel") {
        let (m, j) = parse_tree_model(ev, i, t)?;
        proof {
            lemma_model_from(ev@, i - 1, "TreeModel"@, m, tree_model_tag());
        }
        doc.tree_model = Some(m);
        return Ok(j);
    }
    if name_is(name, "RegressionModel") {
        let bare = XmlTag { name: string_from("RegressionModel"), attributes: Vec::new() };
        let (m, j) = parse_regression_model(ev, i, &bare)?;
        doc.regression_model = Some(m);
        return Ok(j);
    }
    if name_is(name, "MiningModel") {
        let bare = XmlTag { name: string_from("MiningModel"), attributes: Vec::new() };
        let (m, j) = parse_mining_model(ev, i, &bare)?;
        doc.mining_model = Some(m);
        return Ok(j);
    }
    if name_is(name, "Scorecard") {
        let (m, j) = parse_scorecard(ev, i, t)?;
        proof {
            lemma_model_from(ev@, i - 1, "Scorecard"@, m, scorecard_tag());
        }
        doc.scorecard = Some(m);
        return Ok(j);
    }
    if name_is(name, "ClusteringModel") {
        let (m, j) = parse_clustering_model(ev, i, t)?;
        proof {
            lemma_model_from(ev@, i - 1, "ClusteringModel"@, m, clustering_model_tag());
        }
        doc.clustering_model = Some(m);
        return Ok(j);
    }
    if name_is(name, "NaiveBayesModel") {
        let (m, j) = parse_naive_bayes_model(ev, i, t)?;
        proof {
            lemma_model_from(ev@, i - 1, "NaiveBayesModel"@, m, naive_bayes_model_tag());
        }
        doc.naive_bayes_model = Some(m);
        return Ok(j);
    }
    if name_is(name, "NearestNeighborModel") {
        let (m, j) = parse_nearest_neighbor_model(ev, i, t)?;
        proof {
            lemma_model_from(ev@, i - 1, "NearestNeighborModel"@, m, nearest_neighbor_model_tag());
        }
        doc.nearest_neighbor_model = Some(m);
        return Ok(j);
    }
    if name_is(name, "Extension") {
        doc.extensions.push(parse_extension(t));
        return Ok(i);
    }
    if ends_with(name.as_str(), "Model") || name_is(name, "ModelComposition") {
        note_unsupported(doc, name);
    }
    Ok(i)
}

/// Whether `e` is the parse error for a reader error with message `m`.
pub open spec fn is_xml_error(e: PmmlError, m: Seq<char>) -> bool {
    e matches PmmlError::ParseError { context, message } && context@ == "xml"@ && message@ == m
}

/// Whether the data dictionary `d` holds is, in order, the data fields of
/// every `DataDictionary` element that reading the events up to their end
/// (or an `Eof` event) reached, each with those of every `DataField` it
/// reached.
pub open spec fn dictionary_read(ev: Seq<XmlEvent>, d: RawPmml) -> bool {
    exists|hi: int|
        at_end(ev, hi) && hi <= ev.len() && #[trigger] read_each_section(
            ev,
            0,
            hi,
            d.data_dictionary@,
            "DataDictionary"@,
            "DataField"@,
            data_field_tag(),
        )
}

/// Whether `r` is what [`unmarshal_events`] gives for the events `ev`: on
/// success a document read from the events; for no events the empty
/// document; for a stream that opens with a reader error, that error.
pub open spec fn events_unmarshalled(ev: Seq<XmlEvent>, r: Result<RawPmml, PmmlError>) -> bool {
    &&& r matches Ok(d) ==> document_from(ev, d) && reached_models_read(ev, d) && dictionary_read(ev, d)
    &&& ev.len() == 0 ==> (r matches Ok(d) && is_empty_document(d))
    &&& ev.len() > 0 ==> (ev[0] matches XmlEvent::Error(m) ==> (r matches Err(e) && is_xml_error(e, m@)))
}

/// One step of the document loop, from the tag (or other event) at `here`
/// to `next`: the models held so far stay held, the start tag at `here`
/// gave its model, and the events between were passed over as the content
/// of the element.
proof fn lemma_models_step(ev: Seq<XmlEvent>, here: int, next: int, spans: Seq<(int, int)>, d: RawPmml, e: RawPmml)
    requires
        0 <= here < next <= ev.len(),
        spans_ok(ev, spans, 0, here),
        models_reached(ev, here, spans, d),
        models_kept(d, e),
        ev[here] matches XmlEvent::Start(t) ==> model_held(e, t.name@),
        next > here + 1 ==> nested_span(ev, here, next),
    ensures
        spans_ok(ev, span_step(spans, here, next), 0, next),
        models_reached(ev, next, span_step(spans, here, next), e),
{
    let sp = span_step(spans, here, next);
    assert forall|x: int| 0 <= x < sp.len() implies 0 <= #[trigger] sp[x].0 && sp[x].1 <= next && nested_span(ev, sp[x].0, sp[x].1) by {
        if x < spans.len() {
            assert(sp[x] == spans[x]);
        }
    }
    assert forall|p: int| 0 <= p < next && !in_span(sp, p) implies match #[trigger] ev[p] {
        XmlEvent::Start(t) => model_held(e, t.name@),
        _ => true,
    } by {
        if p < here {
            if in_span(spans, p) {
                let x = choose|x: int| 0 <= x < spans.len() && #[trigger] spans[x].0 < p < spans[x].1;
                assert(sp[x] == spans[x]);
                assert(sp[x].0 < p < sp[x].1);
                assert(in_span(sp, p));
            }
        } else if p > here {
            assert(sp[spans.len() as int] == (here, next));
            assert(sp[spans.len() as int].0 < p < sp[spans.len() as int].1);
            assert(in_span(sp, p));
        }
    }
}

/// The document held by an event stream, read up to its end (or an `Eof`
/// event). A reader error among the top-level events fails the read with
/// its message.
pub fn unmarshal_events(ev: &Vec<XmlEvent>) -> (r: Result<RawPmml, PmmlError>)
    ensures
        events_unmarshalled(ev@, r),
        doc_readable(ev@) ==> r is Ok,
{
    let mut doc = empty_document();
    let mut k: usize = 0;
    let ghost mut spans: Seq<(int, int)> = Seq::empty();
    let ghost mut secs: Seq<int> = Seq::empty();
    let ghost mut ends: Seq<int> = Seq::empty();
    let ghost mut parts: Seq<Seq<RawDataField>> = Seq::empty();
    proof {
        assert(parts.flatten() =~= Seq::<RawDataField>::empty());
    }
    loop
        invariant
            k <= ev@.len(),
            document_from(ev@, doc),
            spans_ok(ev@, spans, 0, k as int),
            models_reached(ev@, k as int, spans, doc),
            sections_read(ev@, 0, k as int, secs, ends, parts, "DataDictionary"@, "DataField"@, data_field_tag()),
            covers_level(ev@, 0, k as int, secs, spans, "DataDictionary"@),
            doc.data_dictionary@ == parts.flatten(),
            ev@.len() == 0 ==> is_empty_document(doc),
            ev@.len() > 0 && ev@[0] is Error ==> k == 0,
        ensures
            at_end(ev@, k as int),
        decreases ev@.len() - k,
    {
        if end_at(ev, k) {
            break;
        }
        let ghost here = k as int;
        let ghost d0 = doc;
        match &ev[k] {
            XmlEvent::Start(t) => {
                k = read_start_element(ev, k + 1, t, &mut doc)?;
                proof {
                    reveal_strlit("DataDictionary");
                    if t.name@ == "DataDictionary"@ {
                        let ys = doc.data_dictionary@.skip(d0.data_dictionary@.len() as int);
                        assert(doc.data_dictionary@ =~= d0.data_dictionary@ + ys);
                        lemma_sections_push(ev@, 0, here, k as int, secs, ends, parts, ys, "DataDictionary"@, "DataField"@, data_field_tag());
                        lemma_covers_level_step(ev@, 0, here, k as int, secs, secs.push(here), spans, "DataDictionary"@);
                        secs = secs.push(here);
                        ends = ends.push(k as int);
                        parts = parts.push(ys);
                    } else {
                        lemma_covers_level_step(ev@, 0, here, k as int, secs, secs, spans, "DataDictionary"@);
                        lemma_sections_widen(ev@, 0, here, k as int, secs, ends, parts, "DataDictionary"@, "DataField"@, data_field_tag());
                    }
                    lemma_models_step(ev@, here, k as int, spans, d0, doc);
                    spans = span_step(spans, here, k as int);
                }
            },
            XmlEvent::Empty(t) => {
                k = read_empty_element(ev, k + 1, t, &mut doc)?;
                proof {
                    lemma_covers_level_step(ev@, 0, here, k as int, secs, secs, spans, "DataDictionary"@);
                    lemma_sections_widen(ev@, 0, here, k as int, secs, ends, parts, "DataDictionary"@, "DataField"@, data_field_tag());
                    lemma_models_step(ev@, here, k as int, spans, d0, doc);
                    spans = span_step(spans, here, k as int);
                }
            },
            XmlEvent::Error(m) => {
                return Err(PmmlError::ParseError { context: string_from("xml"), message: m.clone() });
            },
            _ => {
                k = k + 1;
                proof {
                    lemma_covers_level_step(ev@, 0, here, k as int, secs, secs, spans, "DataDictionary"@);
                    lemma_sections_widen(ev@, 0, here, k as int, secs, ends, parts, "DataDictionary"@, "DataField"@, data_field_tag());
                    lemma_models_step(ev@, here, k as int, spans, d0, doc);
                    spans = span_step(spans, here, k as int);
                }
            },
        }
    }
    proof {
        assert(models_reached(ev@, k as int, spans, doc));
        assert(read_each_section(ev@, 0, k as int, doc.data_dictionary@, "DataDictionary"@, "DataField"@, data_field_tag()));
    }
    Ok(doc)
}

/// Unmarshal a PMML document: a validation error when it is larger than the
/// size cap; otherwise the document its events hold.
pub fn unmarshal(bytes: &[u8]) -> (r: Result<RawPmml, PmmlError>)
    ensures
        bytes@.len() > MAX_FILE_BYTES ==> (r matches Err(e) && is_too_large(e, bytes@.len())),
        bytes@.len() <= MAX_FILE_BYTES ==> events_unmarshalled(document_events(bytes@), r),
        r matches Ok(d) ==> unsupported_ok(d.unsupported_model),
        bytes@.len() <= MAX_FILE_BYTES && doc_readable(document_events(bytes@)) ==> r is Ok,
{
    if bytes.len() > MAX_FILE_BYTES {
        return Err(too_large_error(bytes.len()));
    }
    let events = read_all_events(bytes);
    unmarshal_events(&events)
}

} // verus!
