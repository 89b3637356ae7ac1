//! `MiningModel`: segmentations of tree and regression models.

use vstd::prelude::*;
use crate::unmarshal::nesting::{depth_step};
use crate::unmarshal::nesting::{is_model_name, lemma_attrs_from};
use crate::unmarshal::tree::{has_child_named, no_tag_named, tree_model_readable};
use crate::unmarshal::nesting::{nested_models_ok, depth_at};
use crate::unmarshal::tree::{node_part_lacks_at};
use crate::unmarshal::cursor::{start_named_at, last_tag_reached, lemma_last_tag_start, lemma_last_tag_step, lemma_last_tag_is, in_span, nested_span};
use crate::unmarshal::nesting::{model_readable, attrs_complete};
use crate::unmarshal::nesting::{closing, closes_at, lemma_nested_step, lemma_closing};
use crate::error::PmmlError;
use crate::strings::string_from;
use crate::xml::{XmlEvent, XmlTag, attr, attr_required, tag_attr, opt_view, is_missing_attr, name_is};
use crate::unmarshal::raw::{
    RawSegment, RawSegmentModel, RawSegmentation, RawMiningModel, RawPredicate, RawRegressionModel,
    RawRegressionTable, RawMiningField, RawOutputField, RawDerivedField,
};
use crate::unmarshal::common::{predicate_read_at, predicate_from, set_array_from, lemma_predicate_names, output_field_tag, attr_or, parse_simple_predicate, parse_simple_set_predicate, parse_mining_schema, parse_output, mining_field_tag};
use crate::unmarshal::expr::{parse_local_transformations, derived_field_tag};
use crate::unmarshal::common::simple_predicate_of;
use crate::unmarshal::tree::{parse_tree_model, tree_model_of};
use crate::unmarshal::regression::{parse_regression_table, parse_regression_model, regression_table_tag, regression_model_of};
use crate::unmarshal::cursor::{
    element_named, tags_carry,
    sections_read, read_each_section, lemma_sections_push, lemma_sections_widen,
    spans_ok, covers_level, read_each_reached, lemma_covers_level_step, span_step, lemma_read_each_reached,
    end_at, skip_one, skip_element, skip_to_end_tag, unexpected_end, stops_after_tag, is_end_named, stops_at_end_or_tag, at_end, read_at_positions, read_in_order, lemma_read_extend, lemma_read_in_order, lemma_read_push, lemma_read_one, lemma_read_widen, childless, plain_until, plain_event,
};

verus! {

/// The predicate children among the events `s`: the tag of each simple
/// predicate (start or empty-element), and `None` for each empty `True` tag
/// when `empty_true` holds.
pub open spec fn predicate_children(s: Seq<XmlEvent>, empty_true: bool) -> Seq<Option<XmlTag>>
    decreases s.len(),
{
    if s.len() == 0 {
        Seq::empty()
    } else {
        predicate_children(s.drop_last(), empty_true) + match s.last() {
            XmlEvent::Start(t) => if t.name@ == "SimplePredicate"@ {
                seq![Some(t)]
            } else {
                Seq::empty()
            },
            XmlEvent::Empty(t) => if t.name@ == "SimplePredicate"@ {
                seq![Some(t)]
            } else if empty_true && t.name@ == "True"@ {
                seq![None]
            } else {
                Seq::empty()
            },
            _ => Seq::empty(),
        }
    }
}

/// Whether `preds` are the predicates that the children `c` stand for.
pub open spec fn predicates_of_children(c: Seq<Option<XmlTag>>, preds: Seq<RawPredicate>) -> bool {
    &&& preds.len() == c.len()
    &&& forall|x: int|
        0 <= x < c.len() ==> match #[trigger] c[x] {
            Some(t) => simple_predicate_of(t, preds[x]),
            None => preds[x] is True,
        }
}

/// The children of a segment's or a scorecard attribute's
/// `CompoundPredicate` whose start tag was just read: simple predicates
/// (start or empty-element tags), and empty `True` tags when `empty_true`
/// holds, up to its end tag.
pub fn parse_simple_compound_children(ev: &Vec<XmlEvent>, i: usize, empty_true: bool) -> (r: Result<
    (Vec<RawPredicate>, usize),
    PmmlError,
>)
    requires
        i <= ev@.len(),
    ensures
        r matches Ok((preds, j)) ==> stops_after_tag(ev@, i as int, j as int, "CompoundPredicate"@)
            && predicates_of_children(
            predicate_children(ev@.subrange(i as int, j as int), empty_true),
            preds@,
        ),
        childless(ev@, i as int, "CompoundPredicate"@) ==> r is Ok,
        element_named(ev@, i as int, "CompoundPredicate"@) && attrs_complete(ev@, i as int) ==> (r matches Ok((_, j)) && j <= closing(ev@, i - 1) + 1),
{
    let mut preds: Vec<RawPredicate> = Vec::new();
    let ghost q: int = if childless(ev@, i as int, "CompoundPredicate"@) {
        choose|q: int| plain_until(ev@, i as int, q, "CompoundPredicate"@)
    } else {
        0
    };
    let mut k = i;
    proof {
        assert(ev@.subrange(i as int, i as int) =~= Seq::<XmlEvent>::empty());
    }
    proof {
        if element_named(ev@, i as int, "CompoundPredicate"@) {
            lemma_closing(ev@, i - 1);
        }
    }
    loop
        invariant_except_break
            element_named(ev@, i as int, "CompoundPredicate"@) && attrs_complete(ev@, i as int) ==> k <= closing(ev@, i - 1) && closes_at(ev@, i - 1, closing(ev@, i - 1)),
            i <= k <= ev@.len(),
            predicates_of_children(predicate_children(ev@.subrange(i as int, k as int), empty_true), preds@),
            childless(ev@, i as int, "CompoundPredicate"@) ==> plain_until(ev@, i as int, q, "CompoundPredicate"@) && k <= q,
        ensures
            element_named(ev@, i as int, "CompoundPredicate"@) && attrs_complete(ev@, i as int) ==> k <= closing(ev@, i - 1) + 1,
            i <= k <= ev@.len(),
            predicates_of_children(predicate_children(ev@.subrange(i as int, k as int), empty_true), preds@),
        decreases ev@.len() - k,
    {
        proof {
            if childless(ev@, i as int, "CompoundPredicate"@) && k < q {
                assert(plain_event(ev@[k as int], "CompoundPredicate"@));
            }
        }
        proof {
            if element_named(ev@, i as int, "CompoundPredicate"@) && attrs_complete(ev@, i as int) {
                lemma_nested_step(ev@, i as int, k as int);
                assert(!node_part_lacks_at(ev@, k as int));
            }
        }
        if end_at(ev, k) {
            return Err(unexpected_end());
        }
        let ghost before = preds@;
        let ghost c0 = predicate_children(ev@.subrange(i as int, k as int), empty_true);
        proof {
            assert(ev@.subrange(i as int, k + 1 as int).drop_last() =~= ev@.subrange(i as int, k as int));
        }
        match &ev[k] {
            XmlEvent::Start(t) => {
                if name_is(&t.name, "SimplePredicate") {
                    preds.push(parse_simple_predicate(t)?);
                    proof {
                        let c1 = predicate_children(ev@.subrange(i as int, k + 1 as int), empty_true);
                        assert(c1 == c0.push(Some(*t)));
                        assert forall|x: int| 0 <= x < c1.len() implies match #[trigger] c1[x] {
                            Some(tt) => simple_predicate_of(tt, preds@[x]),
                            None => preds@[x] is True,
                        } by {
                            if x < c0.len() {
                                assert(c1[x] == c0[x]);
                                assert(preds@[x] == before[x]);
                            }
                        }
                    }
                }
            },
            XmlEvent::Empty(t) => {
                if name_is(&t.name, "SimplePredicate") {
                    preds.push(parse_simple_predicate(t)?);
                    proof {
                        let c1 = predicate_children(ev@.subrange(i as int, k + 1 as int), empty_true);
                        assert(c1 == c0.push(Some(*t)));
                        assert forall|x: int| 0 <= x < c1.len() implies match #[trigger] c1[x] {
                            Some(tt) => simple_predicate_of(tt, preds@[x]),
                            None => preds@[x] is True,
                        } by {
                            if x < c0.len() {
                                assert(c1[x] == c0[x]);
                                assert(preds@[x] == before[x]);
                            }
                        }
                    }
                } else if empty_true && name_is(&t.name, "True") {
                    preds.push(RawPredicate::True);
                    proof {
                        let c1 = predicate_children(ev@.subrange(i as int, k + 1 as int), empty_true);
                        assert(c1 == c0.push(None));
                        assert forall|x: int| 0 <= x < c1.len() implies match #[trigger] c1[x] {
                            Some(tt) => simple_predicate_of(tt, preds@[x]),
                            None => preds@[x] is True,
                        } by {
                            if x < c0.len() {
                                assert(c1[x] == c0[x]);
                                assert(preds@[x] == before[x]);
                            }
                        }
                    }
                }
            },
            XmlEvent::End(n) => {
                if name_is(n, "CompoundPredicate") {
                    assert(predicate_children(ev@.subrange(i as int, k + 1 as int), empty_true) == c0);
                    return Ok((preds, k + 1));
                }
            },
            _ => {},
        }
        k = k + 1;
    }
}

/// Whether `m` holds what an embedded `Regression` tag `t` gives: its
/// `functionName` (default `regression`).
pub open spec fn embedded_regression_of(t: XmlTag, m: RawRegressionModel) -> bool {
    m.function_name@ == match tag_attr(t, "functionName"@) {
        Some(s) => s,
        None => "regression"@,
    }
}

/// Whether the segment model `m` was read from the model tag at event `k`:
/// a `TreeModel` or `RegressionModel` with the attributes it holds, or an
/// embedded `Regression` with its function name.
pub open spec fn segment_model_read_at(ev: Seq<XmlEvent>, k: int, m: RawSegmentModel) -> bool {
    &&& 0 <= k < ev.len()
    &&& ev[k] matches XmlEvent::Start(t)
    &&& match m {
        RawSegmentModel::Tree(tm) => t.name@ == "TreeModel"@ && tree_model_of(t, tm),
        RawSegmentModel::Regression(rm) => (t.name@ == "RegressionModel"@ && regression_model_of(t, rm)) || (
        t.name@ == "Regression"@ && embedded_regression_of(t, rm)),
    }
}

/// Whether the segment whose start tag was just read, at `i - 1`, can be
/// read in full: the stream is well nested; every tag from `i` on carries the
/// attributes that reading it requires; the models in the stream can be read
/// where they stand; and within the segment there is no
/// `LocalTransformations` element and no end tag named `Segment`.
pub open spec fn segment_readable(ev: Seq<XmlEvent>, i: int) -> bool {
    &&& element_named(ev, i, "Segment"@)
    &&& attrs_complete(ev, i)
    &&& nested_models_ok(ev)
    &&& forall|p: int| i <= p < closing(ev, i - 1) ==> !#[trigger] start_named_at(ev, p, "LocalTransformations"@)
    &&& forall|p: int| i <= p < closing(ev, i - 1) ==> !#[trigger] is_end_named(ev[p], "Segment"@)
}

/// Whether the element whose start tag was just read, at `i - 1`, has a
/// model child that a segment reads: a tree model, a regression model or an
/// embedded regression.
pub open spec fn has_segment_model(ev: Seq<XmlEvent>, i: int) -> bool {
    has_child_named(ev, i, "TreeModel"@) || has_child_named(ev, i, "RegressionModel"@) || has_child_named(
        ev,
        i,
        "Regression"@,
    )
}

/// Whether no model that a segment reads stands inside the element whose
/// start tag was just read, at `i - 1`.
pub open spec fn no_segment_model(ev: Seq<XmlEvent>, i: int) -> bool {
    no_tag_named(ev, i, "TreeModel"@) && no_tag_named(ev, i, "RegressionModel"@) && no_tag_named(ev, i, "Regression"@)
}

/// Whether `e` is the error for a segment without a model.
pub open spec fn is_missing_model(e: PmmlError) -> bool {
    e matches PmmlError::ParseError { context, message } && context@ == "Segment"@ && message@ == "missing model"@
}

/// An embedded `Regression` whose start tag was just read: a regression
/// model with its `functionName` (default `regression`) and tables only.
fn parse_embedded_regression(ev: &Vec<XmlEvent>, i: usize, start: &XmlTag) -> (r: Result<
    (RawRegressionModel, usize),
    PmmlError,
>)
    requires
        i <= ev@.len(),
    ensures
        r matches Ok((m, j)) ==> read_each_reached(ev@, i as int, j as int, m.regression_tables@, "RegressionTable"@, regression_table_tag())
                && read_in_order(ev@, i as int, j as int, m.regression_tables@, "RegressionTable"@, regression_table_tag())
            && stops_after_tag(ev@, i as int, j as int, "Regression"@)
            && embedded_regression_of(*start, m),
        childless(ev@, i as int, "Regression"@) ==> r is Ok,
        element_named(ev@, i as int, "Regression"@) && attrs_complete(ev@, i as int) ==> (r matches Ok((_, j)) && j <= closing(ev@, i - 1) + 1),
{
    let function_name = attr_or(start, "functionName", "regression");
    let mut regression_tables: Vec<RawRegressionTable> = Vec::new();
    let ghost mut regression_tables_at: Seq<int> = Seq::empty();
    let ghost q: int = if childless(ev@, i as int, "Regression"@) {
        choose|q: int| plain_until(ev@, i as int, q, "Regression"@)
    } else {
        0
    };
    let ghost mut spans: Seq<(int, int)> = Seq::empty();
    let mut k = i;
    proof {
        if element_named(ev@, i as int, "Regression"@) {
            lemma_closing(ev@, i - 1);
        }
    }
    loop
        invariant_except_break
            element_named(ev@, i as int, "Regression"@) && attrs_complete(ev@, i as int) ==> k <= closing(ev@, i - 1) && closes_at(ev@, i - 1, closing(ev@, i - 1)),
            i <= k <= ev@.len(),
            spans_ok(ev@, spans, i as int, k as int),
            covers_level(ev@, i as int, k as int, regression_tables_at, spans, "RegressionTable"@),
            read_at_positions(ev@, i as int, regression_tables_at, regression_tables@, "RegressionTable"@, regression_table_tag()),
            regression_tables_at.len() > 0 ==> regression_tables_at.last() < k,
            childless(ev@, i as int, "Regression"@) ==> plain_until(ev@, i as int, q, "Regression"@) && k <= q,
        ensures
            element_named(ev@, i as int, "Regression"@) && attrs_complete(ev@, i as int) ==> k <= closing(ev@, i - 1) + 1,
            i < k && is_end_named(ev@[k - 1], "Regression"@),
            spans_ok(ev@, spans, i as int, k as int),
            covers_level(ev@, i as int, k as int, regression_tables_at, spans, "RegressionTable"@),
            read_at_positions(ev@, i as int, regression_tables_at, regression_tables@, "RegressionTable"@, regression_table_tag()),
            regression_tables_at.len() > 0 ==> regression_tables_at.last() < k,
            i <= k <= ev@.len(),
        decreases ev@.len() - k,
    {
        proof {
            if childless(ev@, i as int, "Regression"@) && k < q {
                assert(plain_event(ev@[k as int], "Regression"@));
            }
        }
        proof {
            if element_named(ev@, i as int, "Regression"@) && attrs_complete(ev@, i as int) {
                lemma_nested_step(ev@, i as int, k as int);
            }
        }
        if end_at(ev, k) {
            return Err(unexpected_end());
        }
        let ghost here = k as int;
        let ghost regression_tables_at0 = regression_tables_at;
        let ghost mut stepped = false;
        proof {
            reveal_strlit("RegressionTable");
        }
        match &ev[k] {
            XmlEvent::Start(t) => {
                k = k + 1;
                if name_is(&t.name, "RegressionTable") {
                    let (tbl, j) = parse_regression_table(ev, k, t)?;
                    let item = tbl;
                    proof {
                        lemma_read_push(ev@, i as int, regression_tables_at, regression_tables@, "RegressionTable"@, regression_table_tag(), here, item);
                        regression_tables_at = regression_tables_at.push(here);
                    }
                    regression_tables.push(item);
                    k = j;
                }
            },
            XmlEvent::End(n) => {
                k = k + 1;
                proof {
                    lemma_covers_level_step(ev@, i as int, here, k as int, regression_tables_at0, regression_tables_at, spans, "RegressionTable"@);
                    spans = span_step(spans, here, k as int);
                    stepped = true;
                }
                if name_is(n, "Regression") {
                    break;
                }
            },
            _ => {
                k = k + 1;
            },
        }
        proof {
            if !stepped {
                lemma_covers_level_step(ev@, i as int, here, k as int, regression_tables_at0, regression_tables_at, spans, "RegressionTable"@);
                spans = span_step(spans, here, k as int);
            }
        }
    }
    proof {
        lemma_read_each_reached(ev@, i as int, k as int, regression_tables_at, spans, regression_tables@, "RegressionTable"@, regression_table_tag());
    }
    proof {
        lemma_read_in_order(ev@, i as int, k as int, regression_tables_at, regression_tables@, "RegressionTable"@, regression_table_tag());
    }
    Ok((RawRegressionModel {
        function_name,
        target_field_name: None,
        mining_schema: Vec::new(),
        output: Vec::new(),
        targets: Vec::new(),
        regression_tables,
        normalization_method: None,
        model_name: None,
        local_derived_fields: Vec::new(),
    }, k))
}

/// How a segment is read from its tag: its `id` and `weight`.
pub open spec fn segment_tag() -> spec_fn(XmlTag, RawSegment) -> bool {
    |t: XmlTag, s: RawSegment| opt_view(s.id) == tag_attr(t, "id"@) && opt_view(s.weight) == tag_attr(t, "weight"@)
}

/// Whether `pred` is a compound predicate whose children are those of the
/// content read from `lo` up to its `CompoundPredicate` end tag.
pub open spec fn simple_compound_from(ev: Seq<XmlEvent>, lo: int, pred: RawPredicate, empty_true: bool) -> bool {
    pred matches RawPredicate::Compound { predicates, .. } && exists|e: int|
        lo < e <= ev.len() && is_end_named(ev[e - 1], "CompoundPredicate"@) && #[trigger] predicates_of_children(
            predicate_children(ev.subrange(lo, e), empty_true),
            predicates@,
        )
}

/// Whether `pred` is the predicate that the predicate tag at `pa` gives
/// (`True` for `pa == -1`), a compound one with the children its content
/// holds.
pub open spec fn compound_pred_from(ev: Seq<XmlEvent>, pa: int, pred: RawPredicate, empty_true: bool) -> bool {
    &&& predicate_from(ev, pa, pred)
    &&& start_named_at(ev, pa, "CompoundPredicate"@) ==> simple_compound_from(ev, pa + 1, pred, empty_true)
}

/// Whether event `e` is a predicate tag that a `Segment` reads: a `True`,
/// `SimplePredicate`, `SimpleSetPredicate` or `CompoundPredicate` start tag,
/// or a `True` or `SimplePredicate` empty-element tag.
pub open spec fn is_segment_pred_tag(e: XmlEvent) -> bool {
    match e {
        XmlEvent::Start(t) => t.name@ == "True"@ || t.name@ == "SimplePredicate"@ || t.name@ == "SimpleSetPredicate"@
            || t.name@ == "CompoundPredicate"@,
        XmlEvent::Empty(t) => t.name@ == "True"@ || t.name@ == "SimplePredicate"@,
        _ => false,
    }
}

/// [`is_segment_pred_tag`] as a value.
pub open spec fn segment_pred_tag() -> spec_fn(XmlEvent) -> bool {
    |e: XmlEvent| is_segment_pred_tag(e)
}

/// The tags whose content a `Segment` passes over: its predicate tags and
/// the start tags of the models it reads.
pub open spec fn segment_part_tag() -> spec_fn(XmlEvent) -> bool {
    |e: XmlEvent|
        is_segment_pred_tag(e) || (e matches XmlEvent::Start(t) && (t.name@ == "TreeModel"@ || t.name@
            == "RegressionModel"@ || t.name@ == "Regression"@))
}

/// Whether `pred` is the predicate of the last predicate tag that reading
/// reached in `[lo, hi)` (`True` for a `True` tag), or `True` when it
/// reached none.
pub open spec fn segment_predicate_read(ev: Seq<XmlEvent>, lo: int, hi: int, pred: RawPredicate) -> bool {
    exists|pa: int, spans: Seq<(int, int)>|
        #[trigger] last_tag_reached(ev, lo, hi, spans, pa, segment_pred_tag(), segment_part_tag()) && compound_pred_from(ev, pa, pred, true)
}

/// A `Segment` whose start tag was just read: its predicate (the last one
/// read), its weight text and its model (the last one read; a segment
/// without a model is an error).
#[verifier::rlimit(80)]
pub fn parse_segment(ev: &Vec<XmlEvent>, i: usize, start: &XmlTag) -> (r: Result<(RawSegment, usize), PmmlError>)
    requires
        0 < i <= ev@.len(),
    ensures
        r matches Ok((s, j)) ==> stops_at_end_or_tag(ev@, i as int, j as int, "Segment"@)
            && (s.predicate is True || exists|p: int| i <= p < j && #[trigger] predicate_read_at(ev@, p, s.predicate))
            && segment_predicate_read(ev@, i as int, j as int, s.predicate)
            && (exists|p: int| i <= p < j && #[trigger] segment_model_read_at(ev@, p, s.model))
            && opt_view(s.id) == tag_attr(
            *start,
            "id"@,
        ) && opt_view(s.weight) == tag_attr(*start, "weight"@),
        childless(ev@, i as int, "Segment"@) ==> (r matches Err(e) && e matches PmmlError::ParseError { context, message } && context@ == "Segment"@ && message@ == "missing model"@),
        segment_readable(ev@, i as int) ==> (r is Ok || (r matches Err(e) && is_missing_model(e))),
        segment_readable(ev@, i as int) ==> (r matches Ok((_, j)) ==> j <= closing(ev@, i - 1) + 1),
        segment_readable(ev@, i as int) && has_segment_model(ev@, i as int) ==> r is Ok,
        segment_readable(ev@, i as int) && no_segment_model(ev@, i as int) ==> (r matches Err(e) && is_missing_model(e)),
{
    let id = attr(start, "id");
    let weight = attr(start, "weight");
    let mut predicate = RawPredicate::True;
    let ghost mut pred_at: int = 0;
    let ghost mut pa: int = -1;
    let ghost mut spans: Seq<(int, int)> = Seq::empty();
    proof {
        lemma_last_tag_start(ev@, i as int, segment_pred_tag(), segment_part_tag());
    }
    let mut model: Option<RawSegmentModel> = None;
    let ghost mut model_at: int = 0;
    let ghost q: int = if childless(ev@, i as int, "Segment"@) {
        choose|q: int| plain_until(ev@, i as int, q, "Segment"@)
    } else {
        0
    };
    let mut k = i;
    proof {
        if element_named(ev@, i as int, "Segment"@) {
            lemma_closing(ev@, i - 1);
        }
    }
    loop
        invariant_except_break
            element_named(ev@, i as int, "Segment"@) && segment_readable(ev@, i as int) ==> k <= closing(ev@, i - 1) && closes_at(ev@, i - 1, closing(ev@, i - 1)),
            segment_readable(ev@, i as int) && model is None ==> (forall|p: int| i <= p < k && #[trigger] start_named_at(ev@, p, "TreeModel"@) ==> depth_at(ev@, p) > depth_at(ev@, i as int))
                && (forall|p: int| i <= p < k && #[trigger] start_named_at(ev@, p, "RegressionModel"@) ==> depth_at(ev@, p) > depth_at(ev@, i as int))
                && (forall|p: int| i <= p < k && #[trigger] start_named_at(ev@, p, "Regression"@) ==> depth_at(ev@, p) > depth_at(ev@, i as int)),
            0 < i <= k <= ev@.len(),
            predicate is True || (i <= pred_at < k && predicate_read_at(ev@, pred_at, predicate)),
            last_tag_reached(ev@, i as int, k as int, spans, pa, segment_pred_tag(), segment_part_tag()),
            compound_pred_from(ev@, pa, predicate, true),
            model matches Some(mm) ==> i <= model_at < k && segment_model_read_at(ev@, model_at, mm),
            childless(ev@, i as int, "Segment"@) ==> plain_until(ev@, i as int, q, "Segment"@) && k <= q,
            childless(ev@, i as int, "Segment"@) ==> model is None,
        ensures
            element_named(ev@, i as int, "Segment"@) && segment_readable(ev@, i as int) ==> k <= closing(ev@, i - 1) + 1 && k == closing(ev@, i - 1) + 1,
            segment_readable(ev@, i as int) && model is None ==> (forall|p: int| i <= p < k && #[trigger] start_named_at(ev@, p, "TreeModel"@) ==> depth_at(ev@, p) > depth_at(ev@, i as int))
                && (forall|p: int| i <= p < k && #[trigger] start_named_at(ev@, p, "RegressionModel"@) ==> depth_at(ev@, p) > depth_at(ev@, i as int))
                && (forall|p: int| i <= p < k && #[trigger] start_named_at(ev@, p, "Regression"@) ==> depth_at(ev@, p) > depth_at(ev@, i as int)),
            childless(ev@, i as int, "Segment"@) ==> model is None,
            at_end(ev@, k as int) || (i < k && is_end_named(ev@[k - 1], "Segment"@)),
            predicate is True || (i <= pred_at < k && predicate_read_at(ev@, pred_at, predicate)),
            last_tag_reached(ev@, i as int, k as int, spans, pa, segment_pred_tag(), segment_part_tag()),
            compound_pred_from(ev@, pa, predicate, true),
            model matches Some(mm) ==> i <= model_at < k && segment_model_read_at(ev@, model_at, mm),
            0 < i <= k <= ev@.len(),
        decreases ev@.len() - k,
    {
        proof {
            if childless(ev@, i as int, "Segment"@) && k < q {
                assert(plain_event(ev@[k as int], "Segment"@));
            }
        }
        proof {
            if element_named(ev@, i as int, "Segment"@) && segment_readable(ev@, i as int) {
lemma_nested_step(ev@, i as int, k as int);
                assert(depth_at(ev@, i as int) == depth_at(ev@, i - 1) + depth_step(ev@[i - 1]));
                reveal_strlit("True");
                reveal_strlit("SimplePredicate");
                reveal_strlit("SimpleSetPredicate");
                reveal_strlit("CompoundPredicate");
                reveal_strlit("TreeModel");
                reveal_strlit("RegressionModel");
                reveal_strlit("Regression");
                reveal_strlit("Segment");
                assert("TreeModel"@ != "True"@) by { assert("TreeModel"@.len() != "True"@.len()); }
                assert("TreeModel"@ != "SimplePredicate"@) by { assert("TreeModel"@.len() != "SimplePredicate"@.len()); }
                assert("TreeModel"@ != "SimpleSetPredicate"@) by { assert("TreeModel"@.len() != "SimpleSetPredicate"@.len()); }
                assert("TreeModel"@ != "CompoundPredicate"@) by { assert("TreeModel"@.len() != "CompoundPredicate"@.len()); }
                assert("TreeModel"@ != "RegressionModel"@) by { assert("TreeModel"@.len() != "RegressionModel"@.len()); }
                assert("TreeModel"@ != "Regression"@) by { assert("TreeModel"@.len() != "Regression"@.len()); }
                assert("TreeModel"@ != "Segment"@) by { assert("TreeModel"@.len() != "Segment"@.len()); }
                assert("RegressionModel"@ != "True"@) by { assert("RegressionModel"@.len() != "True"@.len()); }
                assert("RegressionModel"@ != "SimplePredicate"@) by { assert("RegressionModel"@[0] != "SimplePredicate"@[0]); }
                assert("RegressionModel"@ != "SimpleSetPredicate"@) by { assert("RegressionModel"@.len() != "SimpleSetPredicate"@.len()); }
                assert("RegressionModel"@ != "CompoundPredicate"@) by { assert("RegressionModel"@.len() != "CompoundPredicate"@.len()); }
                assert("RegressionModel"@ != "TreeModel"@) by { assert("RegressionModel"@.len() != "TreeModel"@.len()); }
                assert("RegressionModel"@ != "Regression"@) by { assert("RegressionModel"@.len() != "Regression"@.len()); }
                assert("RegressionModel"@ != "Segment"@) by { assert("RegressionModel"@.len() != "Segment"@.len()); }
                assert("Regression"@ != "True"@) by { assert("Regression"@.len() != "True"@.len()); }
                assert("Regression"@ != "SimplePredicate"@) by { assert("Regression"@.len() != "SimplePredicate"@.len()); }
                assert("Regression"@ != "SimpleSetPredicate"@) by { assert("Regression"@.len() != "SimpleSetPredicate"@.len()); }
                assert("Regression"@ != "CompoundPredicate"@) by { assert("Regression"@.len() != "CompoundPredicate"@.len()); }
                assert("Regression"@ != "TreeModel"@) by { assert("Regression"@.len() != "TreeModel"@.len()); }
                assert("Regression"@ != "RegressionModel"@) by { assert("Regression"@.len() != "RegressionModel"@.len()); }
                assert("Regression"@ != "Segment"@) by { assert("Regression"@.len() != "Segment"@.len()); }
                if k < closing(ev@, i - 1) {
                    assert(depth_at(ev@, k as int) > depth_at(ev@, i - 1));
                    assert(!start_named_at(ev@, k as int, "LocalTransformations"@));
                    assert(!is_end_named(ev@[k as int], "Segment"@));
                    assert(!node_part_lacks_at(ev@, k as int));
                }
            }
        }
        if end_at(ev, k) {
            break;
        }
        proof {
            lemma_predicate_names();
        }
        let ghost here = k as int;
        match &ev[k] {
            XmlEvent::Start(t) => {
                k = k + 1;
                if name_is(&t.name, "True") {
                    predicate = RawPredicate::True;
                    k = skip_to_end_tag(ev, k, "True", true)?;
                    proof {
                        lemma_last_tag_step(ev@, i as int, here, k as int, spans, pa, here, segment_pred_tag(), segment_part_tag());
                        spans = span_step(spans, here, k as int);
                        pa = here;
                    }
                    proof {
                        if segment_readable(ev@, i as int) {
                            assert(is_end_named(ev@[closing(ev@, here)], "True"@));
                            assert(k <= closing(ev@, here) + 1);
                        }
                    }
                } else if name_is(&t.name, "SimplePredicate") {
                    predicate = parse_simple_predicate(t)?;
                    proof {
                        pred_at = here;
                        lemma_predicate_names();
                    }
                    k = skip_one(ev, k);
                    proof {
                        lemma_last_tag_step(ev@, i as int, here, k as int, spans, pa, here, segment_pred_tag(), segment_part_tag());
                        spans = span_step(spans, here, k as int);
                        pa = here;
                    }
                } else if name_is(&t.name, "SimpleSetPredicate") {
                    let (p, j) = parse_simple_set_predicate(t, ev, k)?;
                    predicate = p;
                    proof {
                        pred_at = here;
                        lemma_predicate_names();
                        assert(set_array_from(ev@, here + 1, predicate));
                        assert(predicate_read_at(ev@, here, predicate));
                    }
                    k = j;
                    proof {
                        lemma_last_tag_step(ev@, i as int, here, k as int, spans, pa, here, segment_pred_tag(), segment_part_tag());
                        spans = span_step(spans, here, k as int);
                        pa = here;
                    }
                } else if name_is(&t.name, "CompoundPredicate") {
                    let boolean_operator = attr_required(t, "booleanOperator", "CompoundPredicate")?;
                    let (predicates, j) = parse_simple_compound_children(ev, k, true)?;
                    let ghost children = predicates@;
                    predicate = RawPredicate::Compound { boolean_operator, predicates };
                    proof {
                        assert(predicate->predicates@ == children);
                        assert(simple_compound_from(ev@, here + 1, predicate, true));
                    }
                    proof {
                        pred_at = here;
                        lemma_predicate_names();
                    }
                    k = j;
                    proof {
                        lemma_last_tag_step(ev@, i as int, here, k as int, spans, pa, here, segment_pred_tag(), segment_part_tag());
                        spans = span_step(spans, here, k as int);
                        pa = here;
                    }
                } else if name_is(&t.name, "TreeModel") {
proof {
                        if segment_readable(ev@, i as int) {
                            assert(start_named_at(ev@, here, "TreeModel"@));
                            assert(is_model_name(t.name@));
                            assert(tag_attr(*t, "functionName"@) is Some);
                            lemma_attrs_from(ev@, i as int, k as int);
                            assert(element_named(ev@, k as int, "TreeModel"@));
                            assert(has_child_named(ev@, k as int, "Node"@));
                            assert(tree_model_readable(ev@, k as int, *t));
                        }
                    }
                                        let (m, j) = parse_tree_model(ev, k, t)?;
                    model = Some(RawSegmentModel::Tree(m));
                    proof {
                        model_at = here;
                    }
                    k = j;
                    proof {
                        lemma_last_tag_step(ev@, i as int, here, k as int, spans, pa, pa, segment_pred_tag(), segment_part_tag());
                        spans = span_step(spans, here, k as int);
                    }
                } else if name_is(&t.name, "RegressionModel") {
                    let (m, j) = parse_regression_model(ev, k, t)?;
                    model = Some(RawSegmentModel::Regression(m));
                    proof {
                        model_at = here;
                    }
                    k = j;
                    proof {
                        lemma_last_tag_step(ev@, i as int, here, k as int, spans, pa, pa, segment_pred_tag(), segment_part_tag());
                        spans = span_step(spans, here, k as int);
                    }
                } else if name_is(&t.name, "Regression") {
                    let (m, j) = parse_embedded_regression(ev, k, t)?;
                    model = Some(RawSegmentModel::Regression(m));
                    proof {
                        model_at = here;
                    }
                    k = j;
                    proof {
                        lemma_last_tag_step(ev@, i as int, here, k as int, spans, pa, pa, segment_pred_tag(), segment_part_tag());
                        spans = span_step(spans, here, k as int);
                    }
                } else {
                    proof {
                        lemma_last_tag_step(ev@, i as int, here, k as int, spans, pa, pa, segment_pred_tag(), segment_part_tag());
                        spans = span_step(spans, here, k as int);
                    }
                }
            },
            XmlEvent::Empty(t) => {
                k = k + 1;
                if name_is(&t.name, "True") {
                    predicate = RawPredicate::True;
                    proof {
                        lemma_last_tag_step(ev@, i as int, here, k as int, spans, pa, here, segment_pred_tag(), segment_part_tag());
                        spans = span_step(spans, here, k as int);
                        pa = here;
                    }
                } else if name_is(&t.name, "SimplePredicate") {
                    predicate = parse_simple_predicate(t)?;
                    proof {
                        pred_at = here;
                        lemma_predicate_names();
                    }
                    proof {
                        lemma_last_tag_step(ev@, i as int, here, k as int, spans, pa, here, segment_pred_tag(), segment_part_tag());
                        spans = span_step(spans, here, k as int);
                        pa = here;
                    }
                } else {
                    proof {
                        lemma_last_tag_step(ev@, i as int, here, k as int, spans, pa, pa, segment_pred_tag(), segment_part_tag());
                        spans = span_step(spans, here, k as int);
                    }
                }
            },
            XmlEvent::End(n) => {
                k = k + 1;
                proof {
                    lemma_last_tag_step(ev@, i as int, here, k as int, spans, pa, pa, segment_pred_tag(), segment_part_tag());
                    spans = span_step(spans, here, k as int);
                }
                if name_is(n, "Segment") {
                    break;
                }
            },
            _ => {
                k = k + 1;
                proof {
                    lemma_last_tag_step(ev@, i as int, here, k as int, spans, pa, pa, segment_pred_tag(), segment_part_tag());
                    spans = span_step(spans, here, k as int);
                }
            },
        }
    }
    proof {
        if segment_readable(ev@, i as int) && no_segment_model(ev@, i as int) && model is Some {
            lemma_closing(ev@, i - 1);
            if model_at < closing(ev@, i - 1) {
                assert(!start_named_at(ev@, model_at, "TreeModel"@));
                assert(!start_named_at(ev@, model_at, "RegressionModel"@));
                assert(!start_named_at(ev@, model_at, "Regression"@));
            }
            assert(false);
        }
    }
    let model = match model {
        Some(m) => {
            assert(segment_model_read_at(ev@, model_at, m));
            m
        },
        None => {
            return Err(PmmlError::ParseError {
                context: string_from("Segment"),
                message: string_from("missing model"),
            });
        },
    };
    proof {
        if !(predicate is True) {
            assert(predicate_read_at(ev@, pred_at, predicate));
        }
    }
    Ok((RawSegment { id, predicate, model, weight }, k))
}

/// A segment whose content opens with a predicate tag at `p`, and holds no
/// other predicate tag after it, has the predicate that tag gives (`True`
/// for a `True` tag).
pub proof fn law_segment_leading_predicate(ev: Seq<XmlEvent>, lo: int, hi: int, pred: RawPredicate, p: int)
    requires
        segment_predicate_read(ev, lo, hi, pred),
        0 <= lo <= p < hi <= ev.len(),
        is_segment_pred_tag(ev[p]),
        forall|q: int| lo <= q < p ==> !(#[trigger] segment_part_tag()(ev[q])),
        forall|q: int| p < q < hi ==> !is_segment_pred_tag(#[trigger] ev[q]),
    ensures
        predicate_read_at(ev, p, pred),
{
    let (pa, spans) = choose|pa: int, spans: Seq<(int, int)>|
        #[trigger] last_tag_reached(ev, lo, hi, spans, pa, segment_pred_tag(), segment_part_tag()) && compound_pred_from(ev, pa, pred, true);
    assert forall|q: int| p < q < hi implies !(#[trigger] segment_pred_tag()(ev[q])) by {
        assert(!is_segment_pred_tag(ev[q]));
    }
    lemma_last_tag_is(ev, lo, hi, spans, pa, segment_pred_tag(), segment_part_tag(), p);
}

/// A segment whose content holds no predicate tag has the predicate `True`.
pub proof fn law_segment_without_predicate_is_true(ev: Seq<XmlEvent>, lo: int, hi: int, pred: RawPredicate)
    requires
        segment_predicate_read(ev, lo, hi, pred),
        forall|q: int| lo <= q < hi ==> !is_segment_pred_tag(#[trigger] ev[q]),
    ensures
        pred is True,
{
    let (pa, spans) = choose|pa: int, spans: Seq<(int, int)>|
        #[trigger] last_tag_reached(ev, lo, hi, spans, pa, segment_pred_tag(), segment_part_tag()) && compound_pred_from(ev, pa, pred, true);
    if pa != -1 {
        assert(is_segment_pred_tag(ev[pa]));
    }
}

/// Whether `s` is the segment read at the `Segment` tag at `p`: its
/// predicate is the one its content gives, up to its end tag (or the end of
/// the document).
pub open spec fn segment_content_read(ev: Seq<XmlEvent>, p: int, s: RawSegment) -> bool {
    exists|e: int|
        p + 1 <= e <= ev.len() && (at_end(ev, e) || (p + 1 < e && is_end_named(ev[e - 1], "Segment"@)))
            && #[trigger] segment_predicate_read(ev, p + 1, e, s.predicate)
}

/// Whether the segments `segs` were read, in order, from `Segment` tags
/// from `lo` on, each with the predicate its content gives.
pub open spec fn segments_read(ev: Seq<XmlEvent>, lo: int, segs: Seq<RawSegment>) -> bool {
    exists|at: Seq<int>|
        #[trigger] read_at_positions(ev, lo, at, segs, "Segment"@, segment_tag()) && forall|x: int|
            0 <= x < at.len() ==> #[trigger] segment_content_read(ev, at[x], segs[x])
}

/// Whether `s` holds the attributes of `Segmentation` tag `t`.
pub open spec fn segmentation_of(t: XmlTag, s: RawSegmentation) -> bool {
    &&& tag_attr(t, "multipleModelMethod"@) == Some(s.multiple_model_method@)
    &&& opt_view(s.missing_prediction_treatment) == tag_attr(t, "missingPredictionTreatment"@)
}

/// How a `Segmentation` is read from its tag.
pub open spec fn segmentation_tag() -> spec_fn(XmlTag, RawSegmentation) -> bool {
    |t: XmlTag, s: RawSegmentation| segmentation_of(t, s)
}

/// Whether the segmentation `s` was read from a `Segmentation` tag within
/// `[i, j)`, with its segments in document order.
pub open spec fn segmentation_read(ev: Seq<XmlEvent>, i: int, j: int, s: RawSegmentation) -> bool {
    &&& read_in_order(ev, i, j, seq![s], "Segmentation"@, segmentation_tag())
    &&& read_in_order(ev, i, j, s.segments@, "Segment"@, segment_tag())
}

/// A `Segmentation` whose start tag was just read: `multipleModelMethod` is
/// required; its segments, up to its end tag or the end of the document.
pub fn parse_segmentation(ev: &Vec<XmlEvent>, i: usize, start: &XmlTag) -> (r: Result<
    (RawSegmentation, usize),
    PmmlError,
>)
    requires
        0 < i <= ev@.len(),
    ensures
        r matches Ok((s, j)) ==> read_each_reached(ev@, i as int, j as int, s.segments@, "Segment"@, segment_tag())
                && read_in_order(ev@, i as int, j as int, s.segments@, "Segment"@, segment_tag())
                && segments_read(ev@, i as int, s.segments@)
            && stops_at_end_or_tag(ev@, i as int, j as int, "Segmentation"@)
            && segmentation_of(*start, s),
        childless(ev@, i as int, "Segmentation"@) && tag_attr(*start, "multipleModelMethod"@) is Some ==> r is Ok,
        element_named(ev@, i as int, "Segmentation"@) && attrs_complete(ev@, i as int) && nested_models_ok(ev@) && tag_attr(*start, "multipleModelMethod"@) is Some && (forall|p: int| i <= p < closing(ev@, i - 1) ==> !#[trigger] start_named_at(ev@, p, "LocalTransformations"@)) ==> (r matches Ok((_, j)) && j <= closing(ev@, i - 1) + 1),
{
    let multiple_model_method = attr_required(start, "multipleModelMethod", "Segmentation")?;
    let missing_prediction_treatment = attr(start, "missingPredictionTreatment");
    let mut segments: Vec<RawSegment> = Vec::new();
    let ghost mut segments_at: Seq<int> = Seq::empty();
    let ghost q: int = if childless(ev@, i as int, "Segmentation"@) {
        choose|q: int| plain_until(ev@, i as int, q, "Segmentation"@)
    } else {
        0
    };
    let ghost mut spans: Seq<(int, int)> = Seq::empty();
    let mut k = i;
    proof {
        if element_named(ev@, i as int, "Segmentation"@) {
            lemma_closing(ev@, i - 1);
        }
    }
    loop
        invariant_except_break
            element_named(ev@, i as int, "Segmentation"@) && attrs_complete(ev@, i as int) && nested_models_ok(ev@) && tag_attr(*start, "multipleModelMethod"@) is Some && (forall|p: int| i <= p < closing(ev@, i - 1) ==> !#[trigger] start_named_at(ev@, p, "LocalTransformations"@)) ==> k <= closing(ev@, i - 1) && closes_at(ev@, i - 1, closing(ev@, i - 1)),
            0 < i <= k <= ev@.len(),
            spans_ok(ev@, spans, i as int, k as int),
            covers_level(ev@, i as int, k as int, segments_at, spans, "Segment"@),
            read_at_positions(ev@, i as int, segments_at, segments@, "Segment"@, segment_tag()),
            forall|x: int| 0 <= x < segments_at.len() ==> #[trigger] segment_content_read(ev@, segments_at[x], segments@[x]),
            segments_at.len() > 0 ==> segments_at.last() < k,
            childless(ev@, i as int, "Segmentation"@) ==> plain_until(ev@, i as int, q, "Segmentation"@) && k <= q,
        ensures
            element_named(ev@, i as int, "Segmentation"@) && attrs_complete(ev@, i as int) && nested_models_ok(ev@) && tag_attr(*start, "multipleModelMethod"@) is Some && (forall|p: int| i <= p < closing(ev@, i - 1) ==> !#[trigger] start_named_at(ev@, p, "LocalTransformations"@)) ==> k <= closing(ev@, i - 1) + 1,
            at_end(ev@, k as int) || (i < k && is_end_named(ev@[k - 1], "Segmentation"@)),
            spans_ok(ev@, spans, i as int, k as int),
            covers_level(ev@, i as int, k as int, segments_at, spans, "Segment"@),
            read_at_positions(ev@, i as int, segments_at, segments@, "Segment"@, segment_tag()),
            forall|x: int| 0 <= x < segments_at.len() ==> #[trigger] segment_content_read(ev@, segments_at[x], segments@[x]),
            segments_at.len() > 0 ==> segments_at.last() < k,
            0 < i <= k <= ev@.len(),
        decreases ev@.len() - k,
    {
        proof {
            if childless(ev@, i as int, "Segmentation"@) && k < q {
                assert(plain_event(ev@[k as int], "Segmentation"@));
            }
        }
        proof {
            if element_named(ev@, i as int, "Segmentation"@) && attrs_complete(ev@, i as int) && nested_models_ok(ev@) && tag_attr(*start, "multipleModelMethod"@) is Some && (forall|p: int| i <= p < closing(ev@, i - 1) ==> !#[trigger] start_named_at(ev@, p, "LocalTransformations"@)) {
                lemma_nested_step(ev@, i as int, k as int);
            }
        }
        if end_at(ev, k) {
            break;
        }
        let ghost here = k as int;
        let ghost segments_at0 = segments_at;
        let ghost mut stepped = false;
        proof {
            reveal_strlit("Segment");
        }
        match &ev[k] {
            XmlEvent::Start(t) => {
                k = k + 1;
                if name_is(&t.name, "Segment") {
proof {
                        if element_named(ev@, i as int, "Segmentation"@) && attrs_complete(ev@, i as int) && nested_models_ok(ev@) && tag_attr(*start, "multipleModelMethod"@) is Some && (forall|p: int| i <= p < closing(ev@, i - 1) ==> !#[trigger] start_named_at(ev@, p, "LocalTransformations"@)) {
                            lemma_attrs_from(ev@, i as int, k as int);
                            assert(start_named_at(ev@, k - 1, "Segment"@));
                            assert(element_named(ev@, k as int, "Segment"@));
                            assert(has_segment_model(ev@, k as int));
                            assert(forall|p2: int| k - 1 < p2 < closing(ev@, k - 1) ==> !#[trigger] is_end_named(ev@[p2], "Segment"@));
                            assert(closing(ev@, k - 1) < closing(ev@, i - 1));
                            assert(forall|p: int| k <= p < closing(ev@, k - 1) ==> !#[trigger] start_named_at(ev@, p, "LocalTransformations"@));
                            assert(forall|p: int| k <= p < closing(ev@, k - 1) ==> !#[trigger] is_end_named(ev@[p], "Segment"@));
                            assert(segment_readable(ev@, k as int));
                        }
                    }
                                        let (s, j) = parse_segment(ev, k, t)?;
                    let item = s;
                    let ghost before = segments@;
                    let ghost at_before = segments_at;
                    proof {
                        assert(segment_content_read(ev@, here, item));
                        lemma_read_push(ev@, i as int, segments_at, segments@, "Segment"@, segment_tag(), here, item);
                        segments_at = segments_at.push(here);
                    }
                    segments.push(item);
                    proof {
                        assert forall|x: int| 0 <= x < segments_at.len() implies #[trigger] segment_content_read(ev@, segments_at[x], segments@[x]) by {
                            if x < at_before.len() {
                                assert(segments_at[x] == at_before[x] && segments@[x] == before[x]);
                            }
                        }
                    }
                    k = j;
                }
            },
            XmlEvent::End(n) => {
                k = k + 1;
                proof {
                    lemma_covers_level_step(ev@, i as int, here, k as int, segments_at0, segments_at, spans, "Segment"@);
                    spans = span_step(spans, here, k as int);
                    stepped = true;
                }
                if name_is(n, "Segmentation") {
                    break;
                }
            },
            _ => {
                k = k + 1;
            },
        }
        proof {
            if !stepped {
                lemma_covers_level_step(ev@, i as int, here, k as int, segments_at0, segments_at, spans, "Segment"@);
                spans = span_step(spans, here, k as int);
            }
        }
    }
    proof {
        lemma_read_each_reached(ev@, i as int, k as int, segments_at, spans, segments@, "Segment"@, segment_tag());
    }
    proof {
        lemma_read_in_order(ev@, i as int, k as int, segments_at, segments@, "Segment"@, segment_tag());
    }
    proof {
        assert(read_at_positions(ev@, i as int, segments_at, segments@, "Segment"@, segment_tag()));
    }
    Ok((RawSegmentation { multiple_model_method, missing_prediction_treatment, segments }, k))
}

/// Whether `m` holds the attributes of `MiningModel` tag `t`.
pub open spec fn mining_model_of(t: XmlTag, m: RawMiningModel) -> bool {
    &&& tag_attr(t, "functionName"@) == Some(m.function_name@)
    &&& opt_view(m.model_name) == tag_attr(t, "modelName"@)
    &&& m.targets@.len() == 0
}

/// A `MiningModel` whose start tag was just read: `functionName` is required.
pub fn parse_mining_model(ev: &Vec<XmlEvent>, i: usize, start: &XmlTag) -> (r: Result<
    (RawMiningModel, usize),
    PmmlError,
>)
    requires
        0 < i <= ev@.len(),
    ensures
        match r {
            Ok((m, j)) => read_each_section(ev@, i as int, j as int, m.local_derived_fields@, "LocalTransformations"@, "DerivedField"@, derived_field_tag())
                && read_each_section(ev@, i as int, j as int, m.output@, "Output"@, "OutputField"@, output_field_tag())
                && read_each_section(ev@, i as int, j as int, m.mining_schema@, "MiningSchema"@, "MiningField"@, mining_field_tag())
                && read_in_order(ev@, i as int, j as int, m.local_derived_fields@, "DerivedField"@, derived_field_tag()) && read_in_order(ev@, i as int, j as int, m.output@, "OutputField"@, output_field_tag()) && read_in_order(ev@, i as int, j as int, m.mining_schema@, "MiningField"@, mining_field_tag())
                && (m.segmentation matches Some(s) ==> segmentation_read(ev@, i as int, j as int, s))
                && stops_at_end_or_tag(ev@, i as int, j as int, "MiningModel"@)
                && mining_model_of(*start, m),
            Err(e) => tag_attr(*start, "functionName"@) is None ==> is_missing_attr(
                e,
                "MiningModel"@,
                "functionName"@,
            ),
        },
        element_named(ev@, i as int, "MiningModel"@) && model_readable(ev@, i as int, *start, "MiningModel"@) && nested_models_ok(ev@) ==> (r matches Ok((_, j)) && j <= closing(ev@, i - 1) + 1),
{
    let function_name = attr_required(start, "functionName", "MiningModel")?;
    let model_name = attr(start, "modelName");
    let mut mining_schema: Vec<RawMiningField> = Vec::new();
    let ghost mut schema_at: Seq<int> = Seq::empty();
    let mut output: Vec<RawOutputField> = Vec::new();
    let ghost mut output_at: Seq<int> = Seq::empty();
    let mut segmentation: Option<RawSegmentation> = None;
    let ghost mut segmentation_hi: int = i as int;
    let mut local_derived_fields: Vec<RawDerivedField> = Vec::new();
    let ghost mut local_derived_fields_at: Seq<int> = Seq::empty();
    let ghost mut ms_secs: Seq<int> = Seq::empty();
    let ghost mut ms_ends: Seq<int> = Seq::empty();
    let ghost mut ms_parts: Seq<Seq<RawMiningField>> = Seq::empty();
    let ghost mut ms_spans: Seq<(int, int)> = Seq::empty();
    proof {
        assert(ms_parts.flatten() =~= Seq::<RawMiningField>::empty());
    }
    let ghost mut out_secs: Seq<int> = Seq::empty();
    let ghost mut out_ends: Seq<int> = Seq::empty();
    let ghost mut out_parts: Seq<Seq<RawOutputField>> = Seq::empty();
    let ghost mut out_spans: Seq<(int, int)> = Seq::empty();
    proof {
        assert(out_parts.flatten() =~= Seq::<RawOutputField>::empty());
    }
    let ghost mut ldf_secs: Seq<int> = Seq::empty();
    let ghost mut ldf_ends: Seq<int> = Seq::empty();
    let ghost mut ldf_parts: Seq<Seq<RawDerivedField>> = Seq::empty();
    let ghost mut ldf_spans: Seq<(int, int)> = Seq::empty();
    proof {
        assert(ldf_parts.flatten() =~= Seq::<RawDerivedField>::empty());
    }
    let mut k = i;
    proof {
        if element_named(ev@, i as int, "MiningModel"@) {
            lemma_closing(ev@, i - 1);
        }
    }
    loop
        invariant_except_break
            element_named(ev@, i as int, "MiningModel"@) && model_readable(ev@, i as int, *start, "MiningModel"@) && nested_models_ok(ev@) ==> k <= closing(ev@, i - 1) && closes_at(ev@, i - 1, closing(ev@, i - 1)),
            0 < i <= k <= ev@.len(),
            sections_read(ev@, i as int, k as int, ldf_secs, ldf_ends, ldf_parts, "LocalTransformations"@, "DerivedField"@, derived_field_tag()),
            covers_level(ev@, i as int, k as int, ldf_secs, ldf_spans, "LocalTransformations"@),
            spans_ok(ev@, ldf_spans, i as int, k as int),
            local_derived_fields@ == ldf_parts.flatten(),
            sections_read(ev@, i as int, k as int, out_secs, out_ends, out_parts, "Output"@, "OutputField"@, output_field_tag()),
            covers_level(ev@, i as int, k as int, out_secs, out_spans, "Output"@),
            spans_ok(ev@, out_spans, i as int, k as int),
            output@ == out_parts.flatten(),
            sections_read(ev@, i as int, k as int, ms_secs, ms_ends, ms_parts, "MiningSchema"@, "MiningField"@, mining_field_tag()),
            covers_level(ev@, i as int, k as int, ms_secs, ms_spans, "MiningSchema"@),
            spans_ok(ev@, ms_spans, i as int, k as int),
            mining_schema@ == ms_parts.flatten(),
            tag_attr(*start, "functionName"@) == Some(function_name@),
            read_at_positions(ev@, i as int, schema_at, mining_schema@, "MiningField"@, mining_field_tag()),
            schema_at.len() > 0 ==> schema_at.last() < k,
            read_at_positions(ev@, i as int, output_at, output@, "OutputField"@, output_field_tag()),
            output_at.len() > 0 ==> output_at.last() < k,
            read_at_positions(ev@, i as int, local_derived_fields_at, local_derived_fields@, "DerivedField"@, derived_field_tag()),
            local_derived_fields_at.len() > 0 ==> local_derived_fields_at.last() < k,
            segmentation matches Some(s) ==> segmentation_hi <= k && segmentation_read(ev@, i as int, segmentation_hi, s),
        ensures
            element_named(ev@, i as int, "MiningModel"@) && model_readable(ev@, i as int, *start, "MiningModel"@) && nested_models_ok(ev@) ==> k <= closing(ev@, i - 1) + 1,
            0 < i <= k <= ev@.len(),
            sections_read(ev@, i as int, k as int, ldf_secs, ldf_ends, ldf_parts, "LocalTransformations"@, "DerivedField"@, derived_field_tag()),
            covers_level(ev@, i as int, k as int, ldf_secs, ldf_spans, "LocalTransformations"@),
            spans_ok(ev@, ldf_spans, i as int, k as int),
            local_derived_fields@ == ldf_parts.flatten(),
            sections_read(ev@, i as int, k as int, out_secs, out_ends, out_parts, "Output"@, "OutputField"@, output_field_tag()),
            covers_level(ev@, i as int, k as int, out_secs, out_spans, "Output"@),
            spans_ok(ev@, out_spans, i as int, k as int),
            output@ == out_parts.flatten(),
            sections_read(ev@, i as int, k as int, ms_secs, ms_ends, ms_parts, "MiningSchema"@, "MiningField"@, mining_field_tag()),
            covers_level(ev@, i as int, k as int, ms_secs, ms_spans, "MiningSchema"@),
            spans_ok(ev@, ms_spans, i as int, k as int),
            mining_schema@ == ms_parts.flatten(),
            tag_attr(*start, "functionName"@) == Some(function_name@),
            read_at_positions(ev@, i as int, schema_at, mining_schema@, "MiningField"@, mining_field_tag()),
            schema_at.len() > 0 ==> schema_at.last() < k,
            read_at_positions(ev@, i as int, output_at, output@, "OutputField"@, output_field_tag()),
            output_at.len() > 0 ==> output_at.last() < k,
            read_at_positions(ev@, i as int, local_derived_fields_at, local_derived_fields@, "DerivedField"@, derived_field_tag()),
            local_derived_fields_at.len() > 0 ==> local_derived_fields_at.last() < k,
            segmentation matches Some(s) ==> segmentation_hi <= k && segmentation_read(ev@, i as int, segmentation_hi, s),
            at_end(ev@, k as int) || (i < k && is_end_named(ev@[k - 1], "MiningModel"@)),
            sections_read(ev@, i as int, k as int, ldf_secs, ldf_ends, ldf_parts, "LocalTransformations"@, "DerivedField"@, derived_field_tag()),
            covers_level(ev@, i as int, k as int, ldf_secs, ldf_spans, "LocalTransformations"@),
            spans_ok(ev@, ldf_spans, i as int, k as int),
            local_derived_fields@ == ldf_parts.flatten(),
            sections_read(ev@, i as int, k as int, out_secs, out_ends, out_parts, "Output"@, "OutputField"@, output_field_tag()),
            covers_level(ev@, i as int, k as int, out_secs, out_spans, "Output"@),
            spans_ok(ev@, out_spans, i as int, k as int),
            output@ == out_parts.flatten(),
            sections_read(ev@, i as int, k as int, ms_secs, ms_ends, ms_parts, "MiningSchema"@, "MiningField"@, mining_field_tag()),
            covers_level(ev@, i as int, k as int, ms_secs, ms_spans, "MiningSchema"@),
            spans_ok(ev@, ms_spans, i as int, k as int),
            mining_schema@ == ms_parts.flatten(),
            read_at_positions(ev@, i as int, schema_at, mining_schema@, "MiningField"@, mining_field_tag()),
            schema_at.len() > 0 ==> schema_at.last() < k,
            read_at_positions(ev@, i as int, output_at, output@, "OutputField"@, output_field_tag()),
            output_at.len() > 0 ==> output_at.last() < k,
            read_at_positions(ev@, i as int, local_derived_fields_at, local_derived_fields@, "DerivedField"@, derived_field_tag()),
            local_derived_fields_at.len() > 0 ==> local_derived_fields_at.last() < k,
            segmentation matches Some(s) ==> segmentation_hi <= k && segmentation_read(ev@, i as int, segmentation_hi, s),
        decreases ev@.len() - k,
    {
        proof {
            if element_named(ev@, i as int, "MiningModel"@) && model_readable(ev@, i as int, *start, "MiningModel"@) && nested_models_ok(ev@) {
                lemma_nested_step(ev@, i as int, k as int);
                if k < closing(ev@, i - 1) {
                    assert(!start_named_at(ev@, k as int, "LocalTransformations"@));
                    assert(!is_end_named(ev@[k as int], "MiningModel"@));
                }
            }
        }
        if end_at(ev, k) {
            break;
        }
        let ghost ldf_here = k as int;
        let ghost ldf_secs0 = ldf_secs;
        let ghost mut ldf_stepped = false;
        proof {
            reveal_strlit("LocalTransformations");
            reveal_strlit("MiningSchema");
            reveal_strlit("Output");
            reveal_strlit("Segmentation");
            reveal_strlit("Targets");
            assert("LocalTransformations"@ != "MiningSchema"@) by { assert("LocalTransformations"@.len() != "MiningSchema"@.len()); }
            assert("LocalTransformations"@ != "Output"@) by { assert("LocalTransformations"@.len() != "Output"@.len()); }
            assert("LocalTransformations"@ != "Segmentation"@) by { assert("LocalTransformations"@.len() != "Segmentation"@.len()); }
            assert("LocalTransformations"@ != "Targets"@) by { assert("LocalTransformations"@.len() != "Targets"@.len()); }
        }
        let ghost out_here = k as int;
        let ghost out_secs0 = out_secs;
        let ghost mut out_stepped = false;
        proof {
            reveal_strlit("LocalTransformations");
            reveal_strlit("MiningSchema");
            reveal_strlit("Output");
            reveal_strlit("Segmentation");
            reveal_strlit("Targets");
            assert("Output"@ != "LocalTransformations"@) by { assert("Output"@.len() != "LocalTransformations"@.len()); }
            assert("Output"@ != "MiningSchema"@) by { assert("Output"@.len() != "MiningSchema"@.len()); }
            assert("Output"@ != "Segmentation"@) by { assert("Output"@.len() != "Segmentation"@.len()); }
            assert("Output"@ != "Targets"@) by { assert("Output"@.len() != "Targets"@.len()); }
        }
        let ghost ms_here = k as int;
        let ghost ms_secs0 = ms_secs;
        let ghost mut ms_stepped = false;
        proof {
            reveal_strlit("LocalTransformations");
            reveal_strlit("MiningSchema");
            reveal_strlit("Output");
            reveal_strlit("Segmentation");
            reveal_strlit("Targets");
            assert("MiningSchema"@ != "LocalTransformations"@) by { assert("MiningSchema"@.len() != "LocalTransformations"@.len()); }
            assert("MiningSchema"@ != "Output"@) by { assert("MiningSchema"@.len() != "Output"@.len()); }
            assert("MiningSchema"@ != "Segmentation"@) by { assert("MiningSchema"@[0] != "Segmentation"@[0]); }
            assert("MiningSchema"@ != "Targets"@) by { assert("MiningSchema"@.len() != "Targets"@.len()); }
        }
        let ghost here = k as int;
        match &ev[k] {
            XmlEvent::Start(t) => {
                k = k + 1;
                if name_is(&t.name, "MiningSchema") {
                    let ghost ms_before = mining_schema@;
                    let (mut fields, j) = parse_mining_schema(ev, k, false)?;
                    let ghost ms_ys = fields@;
                    proof {
                        schema_at = lemma_read_extend(ev@, i as int, schema_at, mining_schema@, "MiningField"@, mining_field_tag(), k as int, j as int, fields@);
                    }
                    mining_schema.append(&mut fields);
                    proof {
                        assert(mining_schema@ =~= ms_before + ms_ys);
                        lemma_sections_push(ev@, i as int, ms_here, j as int, ms_secs, ms_ends, ms_parts, ms_ys, "MiningSchema"@, "MiningField"@, mining_field_tag());
                        lemma_covers_level_step(ev@, i as int, ms_here, j as int, ms_secs0, ms_secs0.push(ms_here), ms_spans, "MiningSchema"@);
                        ms_secs = ms_secs.push(ms_here);
                        ms_ends = ms_ends.push(j as int);
                        ms_parts = ms_parts.push(ms_ys);
                        ms_spans = span_step(ms_spans, ms_here, j as int);
                        ms_stepped = true;
                    }
                    k = j;
                } else if name_is(&t.name, "Segmentation") {
                    let (s, j) = parse_segmentation(ev, k, t)?;
                    proof {
                        lemma_read_one(ev@, i as int, j as int, here, s, "Segmentation"@, segmentation_tag());
                        lemma_read_widen(ev@, k as int, j as int, i as int, j as int, s.segments@, "Segment"@, segment_tag());
                        segmentation_hi = j as int;
                    }
                    segmentation = Some(s);
                    k = j;
                } else if name_is(&t.name, "Output") {
                    let ghost out_before = output@;
                    let (mut fields, j) = parse_output(ev, k, false)?;
                    let ghost out_ys = fields@;
                    proof {
                        output_at = lemma_read_extend(ev@, i as int, output_at, output@, "OutputField"@, output_field_tag(), k as int, j as int, fields@);
                    }
                    output.append(&mut fields);
                    proof {
                        assert(output@ =~= out_before + out_ys);
                        lemma_sections_push(ev@, i as int, out_here, j as int, out_secs, out_ends, out_parts, out_ys, "Output"@, "OutputField"@, output_field_tag());
                        lemma_covers_level_step(ev@, i as int, out_here, j as int, out_secs0, out_secs0.push(out_here), out_spans, "Output"@);
                        out_secs = out_secs.push(out_here);
                        out_ends = out_ends.push(j as int);
                        out_parts = out_parts.push(out_ys);
                        out_spans = span_step(out_spans, out_here, j as int);
                        out_stepped = true;
                    }
                    k = j;
                } else if name_is(&t.name, "LocalTransformations") {
                    let ghost ldf_before = local_derived_fields@;
                    let (mut fields, j) = parse_local_transformations(ev, k)?;
                    let ghost ldf_ys = fields@;
                    proof {
                        local_derived_fields_at = lemma_read_extend(ev@, i as int, local_derived_fields_at, local_derived_fields@, "DerivedField"@, derived_field_tag(), k as int, j as int, fields@);
                    }
                    local_derived_fields.append(&mut fields);
                    proof {
                        assert(local_derived_fields@ =~= ldf_before + ldf_ys);
                        lemma_sections_push(ev@, i as int, ldf_here, j as int, ldf_secs, ldf_ends, ldf_parts, ldf_ys, "LocalTransformations"@, "DerivedField"@, derived_field_tag());
                        lemma_covers_level_step(ev@, i as int, ldf_here, j as int, ldf_secs0, ldf_secs0.push(ldf_here), ldf_spans, "LocalTransformations"@);
                        ldf_secs = ldf_secs.push(ldf_here);
                        ldf_ends = ldf_ends.push(j as int);
                        ldf_parts = ldf_parts.push(ldf_ys);
                        ldf_spans = span_step(ldf_spans, ldf_here, j as int);
                        ldf_stepped = true;
                    }
                    k = j;
                } else if name_is(&t.name, "Targets") {
                    k = skip_element(ev, k, "Targets", true)?;
                }
            },
            XmlEvent::End(n) => {
                k = k + 1;
                proof {
                    lemma_covers_level_step(ev@, i as int, ldf_here, k as int, ldf_secs0, ldf_secs0, ldf_spans, "LocalTransformations"@);
                    lemma_sections_widen(ev@, i as int, ldf_here, k as int, ldf_secs, ldf_ends, ldf_parts, "LocalTransformations"@, "DerivedField"@, derived_field_tag());
                    ldf_spans = span_step(ldf_spans, ldf_here, k as int);
                    ldf_stepped = true;
                }
                proof {
                    lemma_covers_level_step(ev@, i as int, out_here, k as int, out_secs0, out_secs0, out_spans, "Output"@);
                    lemma_sections_widen(ev@, i as int, out_here, k as int, out_secs, out_ends, out_parts, "Output"@, "OutputField"@, output_field_tag());
                    out_spans = span_step(out_spans, out_here, k as int);
                    out_stepped = true;
                }
                proof {
                    lemma_covers_level_step(ev@, i as int, ms_here, k as int, ms_secs0, ms_secs0, ms_spans, "MiningSchema"@);
                    lemma_sections_widen(ev@, i as int, ms_here, k as int, ms_secs, ms_ends, ms_parts, "MiningSchema"@, "MiningField"@, mining_field_tag());
                    ms_spans = span_step(ms_spans, ms_here, k as int);
                    ms_stepped = true;
                }
                if name_is(n, "MiningModel") {
                    break;
                }
            },
            _ => {
                k = k + 1;
            },
        }
        proof {
            if !ldf_stepped {
                lemma_covers_level_step(ev@, i as int, ldf_here, k as int, ldf_secs0, ldf_secs0, ldf_spans, "LocalTransformations"@);
                lemma_sections_widen(ev@, i as int, ldf_here, k as int, ldf_secs, ldf_ends, ldf_parts, "LocalTransformations"@, "DerivedField"@, derived_field_tag());
                ldf_spans = span_step(ldf_spans, ldf_here, k as int);
                ldf_stepped = true;
            }
        }
        proof {
            if !out_stepped {
                lemma_covers_level_step(ev@, i as int, out_here, k as int, out_secs0, out_secs0, out_spans, "Output"@);
                lemma_sections_widen(ev@, i as int, out_here, k as int, out_secs, out_ends, out_parts, "Output"@, "OutputField"@, output_field_tag());
                out_spans = span_step(out_spans, out_here, k as int);
                out_stepped = true;
            }
        }
        proof {
            if !ms_stepped {
                lemma_covers_level_step(ev@, i as int, ms_here, k as int, ms_secs0, ms_secs0, ms_spans, "MiningSchema"@);
                lemma_sections_widen(ev@, i as int, ms_here, k as int, ms_secs, ms_ends, ms_parts, "MiningSchema"@, "MiningField"@, mining_field_tag());
                ms_spans = span_step(ms_spans, ms_here, k as int);
                ms_stepped = true;
            }
        }
    }
    proof {
        if segmentation is Some {
            lemma_read_widen(ev@, i as int, segmentation_hi, i as int, k as int, seq![segmentation->0], "Segmentation"@, segmentation_tag());
            lemma_read_widen(ev@, i as int, segmentation_hi, i as int, k as int, segmentation->0.segments@, "Segment"@, segment_tag());
        }
        lemma_read_in_order(ev@, i as int, k as int, schema_at, mining_schema@, "MiningField"@, mining_field_tag());
    }
    proof {
        lemma_read_in_order(ev@, i as int, k as int, output_at, output@, "OutputField"@, output_field_tag());
    }
    proof {
        lemma_read_in_order(ev@, i as int, k as int, local_derived_fields_at, local_derived_fields@, "DerivedField"@, derived_field_tag());
    }
    Ok((RawMiningModel {
        function_name,
        mining_schema,
        segmentation,
        output,
        targets: Vec::new(),
        model_name,
        local_derived_fields,
    }, k))
}

} // verus!
