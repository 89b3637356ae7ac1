//! `RegressionModel` and its regression tables.

use vstd::prelude::*;
use crate::unmarshal::cursor::{start_named_at};
use crate::unmarshal::nesting::{model_readable};
use crate::unmarshal::nesting::{closing, closes_at, lemma_nested_step, lemma_closing, attrs_complete};
use crate::error::PmmlError;
use crate::xml::{XmlEvent, XmlTag, attr, attr_required, tag_attr, opt_view, is_missing_attr, name_is};
use crate::unmarshal::raw::{
    RawRegressionTable, RawNumericPredictor, RawCategoricalPredictor, RawRegressionModel,
    RawMiningField, RawOutputField, RawDerivedField,
};
use crate::unmarshal::common::{output_field_tag, attr_i32, opt_i32, parse_mining_schema, parse_output, mining_field_tag};
use crate::unmarshal::expr::{parse_local_transformations, derived_field_tag};
use crate::unmarshal::cursor::{
    element_named, tags_carry,
    sections_read, read_each_section, lemma_sections_push, lemma_sections_widen,
    spans_ok, covers_level, read_each_reached, lemma_covers_level_step, span_step, lemma_read_each_reached,
    end_at, skip_one, skip_element, stops_at_end_or_tag, is_end_named, at_end, read_at_positions, read_in_order, lemma_read_extend, lemma_read_in_order, lemma_read_push, childless, plain_until, plain_event,
};

verus! {

/// A `NumericPredictor` from its tag: `name` is required, `exponent`
/// defaults to 1 (also when it is not an integer).
fn numeric_predictor(t: &XmlTag) -> (r: Result<RawNumericPredictor, PmmlError>)
    ensures
        r matches Ok(p) ==> tag_attr(*t, "name"@) == Some(p.name@) && opt_view(p.coefficient)
            == tag_attr(*t, "coefficient"@) && p.exponent == (match opt_i32(
            tag_attr(*t, "exponent"@),
        ) {
            Some(x) => x,
            None => 1,
        }),
        r is Ok <==> tag_attr(*t, "name"@) is Some,
        r matches Err(e) ==> is_missing_attr(e, "NumericPredictor"@, "name"@),
{
    let name = attr_required(t, "name", "NumericPredictor")?;
    let coefficient = attr(t, "coefficient");
    let exponent = match attr_i32(t, "exponent") {
        Some(x) => x,
        None => 1,
    };
    Ok(RawNumericPredictor { name, exponent, coefficient })
}

/// A `CategoricalPredictor` from its tag: `name` and `value` are required.
fn categorical_predictor(t: &XmlTag) -> (r: Result<RawCategoricalPredictor, PmmlError>)
    ensures
        r matches Ok(p) ==> tag_attr(*t, "name"@) == Some(p.name@) && tag_attr(*t, "value"@)
            == Some(p.value@) && opt_view(p.coefficient) == tag_attr(*t, "coefficient"@),
        r is Ok <==> tag_attr(*t, "name"@) is Some && tag_attr(*t, "value"@) is Some,
        r matches Err(e) ==> if tag_attr(*t, "name"@) is None {
            is_missing_attr(e, "CategoricalPredictor"@, "name"@)
        } else {
            is_missing_attr(e, "CategoricalPredictor"@, "value"@)
        },
{
    let name = attr_required(t, "name", "CategoricalPredictor")?;
    let value = attr_required(t, "value", "CategoricalPredictor")?;
    let coefficient = attr(t, "coefficient");
    Ok(RawCategoricalPredictor { name, value, coefficient })
}

/// How a numeric predictor is read from its tag.
pub open spec fn numeric_predictor_tag() -> spec_fn(XmlTag, RawNumericPredictor) -> bool {
    |t: XmlTag, p: RawNumericPredictor|
        tag_attr(t, "name"@) == Some(p.name@) && opt_view(p.coefficient) == tag_attr(t, "coefficient"@)
            && p.exponent == (match opt_i32(tag_attr(t, "exponent"@)) {
            Some(x) => x,
            None => 1,
        })
}

/// How a categorical predictor is read from its tag.
pub open spec fn categorical_predictor_tag() -> spec_fn(XmlTag, RawCategoricalPredictor) -> bool {
    |t: XmlTag, p: RawCategoricalPredictor|
        tag_attr(t, "name"@) == Some(p.name@) && tag_attr(t, "value"@) == Some(p.value@) && opt_view(
            p.coefficient,
        ) == tag_attr(t, "coefficient"@)
}

/// How a regression table is read from its tag: its `intercept` and
/// `targetCategory`.
pub open spec fn regression_table_tag() -> spec_fn(XmlTag, RawRegressionTable) -> bool {
    |t: XmlTag, r: RawRegressionTable|
        opt_view(r.intercept) == tag_attr(t, "intercept"@) && opt_view(r.target_category) == tag_attr(
            t,
            "targetCategory"@,
        )
}

/// A `RegressionTable` whose start tag was just read: its intercept, target
/// category and predictors, up to its end tag or the end of the document.
pub fn parse_regression_table(ev: &Vec<XmlEvent>, i: usize, start: &XmlTag) -> (r: Result<
    (RawRegressionTable, usize),
    PmmlError,
>)
    requires
        i <= ev@.len(),
    ensures
        r matches Ok((t, j)) ==> read_each_reached(ev@, i as int, j as int, t.numeric_predictors@, "NumericPredictor"@, numeric_predictor_tag()) && read_each_reached(ev@, i as int, j as int, t.categorical_predictors@, "CategoricalPredictor"@, categorical_predictor_tag())
                && read_in_order(ev@, i as int, j as int, t.categorical_predictors@, "CategoricalPredictor"@, categorical_predictor_tag())
            && read_in_order(ev@, i as int, j as int, t.numeric_predictors@, "NumericPredictor"@, numeric_predictor_tag())
            && stops_at_end_or_tag(ev@, i as int, j as int, "RegressionTable"@)
            && opt_view(t.intercept)
            == tag_attr(*start, "intercept"@) && opt_view(t.target_category) == tag_attr(
            *start,
            "targetCategory"@,
        ),
        childless(ev@, i as int, "RegressionTable"@) ==> r is Ok,
        element_named(ev@, i as int, "RegressionTable"@) && attrs_complete(ev@, i as int) ==> (r matches Ok((_, j)) && j <= closing(ev@, i - 1) + 1),
{
    let intercept = attr(start, "intercept");
    let target_category = attr(start, "targetCategory");
    let mut numeric_predictors: Vec<RawNumericPredictor> = Vec::new();
    let ghost mut numeric_predictors_at: Seq<int> = Seq::empty();
    let mut categorical_predictors: Vec<RawCategoricalPredictor> = Vec::new();
    let ghost mut categorical_predictors_at: Seq<int> = Seq::empty();
    let ghost q: int = if childless(ev@, i as int, "RegressionTable"@) {
        choose|q: int| plain_until(ev@, i as int, q, "RegressionTable"@)
    } else {
        0
    };
    let ghost mut spans: Seq<(int, int)> = Seq::empty();
    let mut k = i;
    proof {
        if element_named(ev@, i as int, "RegressionTable"@) {
            lemma_closing(ev@, i - 1);
        }
    }
    loop
        invariant_except_break
            element_named(ev@, i as int, "RegressionTable"@) && attrs_complete(ev@, i as int) ==> k <= closing(ev@, i - 1) && closes_at(ev@, i - 1, closing(ev@, i - 1)),
            i <= k <= ev@.len(),
            spans_ok(ev@, spans, i as int, k as int),
            covers_level(ev@, i as int, k as int, numeric_predictors_at, spans, "NumericPredictor"@),
            covers_level(ev@, i as int, k as int, categorical_predictors_at, spans, "CategoricalPredictor"@),
            read_at_positions(ev@, i as int, numeric_predictors_at, numeric_predictors@, "NumericPredictor"@, numeric_predictor_tag()),
            numeric_predictors_at.len() > 0 ==> numeric_predictors_at.last() < k,
            read_at_positions(ev@, i as int, categorical_predictors_at, categorical_predictors@, "CategoricalPredictor"@, categorical_predictor_tag()),
            categorical_predictors_at.len() > 0 ==> categorical_predictors_at.last() < k,
            childless(ev@, i as int, "RegressionTable"@) ==> plain_until(ev@, i as int, q, "RegressionTable"@) && k <= q,
        ensures
            element_named(ev@, i as int, "RegressionTable"@) && attrs_complete(ev@, i as int) ==> k <= closing(ev@, i - 1) + 1,
            at_end(ev@, k as int) || (i < k && is_end_named(ev@[k - 1], "RegressionTable"@)),
            spans_ok(ev@, spans, i as int, k as int),
            covers_level(ev@, i as int, k as int, numeric_predictors_at, spans, "NumericPredictor"@),
            covers_level(ev@, i as int, k as int, categorical_predictors_at, spans, "CategoricalPredictor"@),
            read_at_positions(ev@, i as int, numeric_predictors_at, numeric_predictors@, "NumericPredictor"@, numeric_predictor_tag()),
            numeric_predictors_at.len() > 0 ==> numeric_predictors_at.last() < k,
            read_at_positions(ev@, i as int, categorical_predictors_at, categorical_predictors@, "CategoricalPredictor"@, categorical_predictor_tag()),
            categorical_predictors_at.len() > 0 ==> categorical_predictors_at.last() < k,
            i <= k <= ev@.len(),
        decreases ev@.len() - k,
    {
        proof {
            if childless(ev@, i as int, "RegressionTable"@) && k < q {
                assert(plain_event(ev@[k as int], "RegressionTable"@));
            }
        }
        proof {
            if element_named(ev@, i as int, "RegressionTable"@) && attrs_complete(ev@, i as int) {
                lemma_nested_step(ev@, i as int, k as int);
            }
        }
        if end_at(ev, k) {
            break;
        }
        let ghost here = k as int;
        let ghost numeric_predictors_at0 = numeric_predictors_at;
        let ghost categorical_predictors_at0 = categorical_predictors_at;
        let ghost mut stepped = false;
        proof {
            reveal_strlit("CategoricalPredictor");
            reveal_strlit("NumericPredictor");
            assert("NumericPredictor"@ != "CategoricalPredictor"@) by { assert("NumericPredictor"@.len() != "CategoricalPredictor"@.len()); }
            assert("CategoricalPredictor"@ != "NumericPredictor"@) by { assert("CategoricalPredictor"@.len() != "NumericPredictor"@.len()); }
        }
        match &ev[k] {
            XmlEvent::Start(t) => {
                k = k + 1;
                if name_is(&t.name, "NumericPredictor") {
                    let item = numeric_predictor(t)?;
                    proof {
                        lemma_read_push(ev@, i as int, numeric_predictors_at, numeric_predictors@, "NumericPredictor"@, numeric_predictor_tag(), here, item);
                        numeric_predictors_at = numeric_predictors_at.push(here);
                    }
                    numeric_predictors.push(item);
                    k = skip_one(ev, k);
                } else if name_is(&t.name, "CategoricalPredictor") {
                    let item = categorical_predictor(t)?;
                    proof {
                        lemma_read_push(ev@, i as int, categorical_predictors_at, categorical_predictors@, "CategoricalPredictor"@, categorical_predictor_tag(), here, item);
                        categorical_predictors_at = categorical_predictors_at.push(here);
                    }
                    categorical_predictors.push(item);
                    k = skip_one(ev, k);
                }
            },
            XmlEvent::Empty(t) => {
                k = k + 1;
                if name_is(&t.name, "NumericPredictor") {
                    let item = numeric_predictor(t)?;
                    proof {
                        lemma_read_push(ev@, i as int, numeric_predictors_at, numeric_predictors@, "NumericPredictor"@, numeric_predictor_tag(), here, item);
                        numeric_predictors_at = numeric_predictors_at.push(here);
                    }
                    numeric_predictors.push(item);
                } else if name_is(&t.name, "CategoricalPredictor") {
                    let item = categorical_predictor(t)?;
                    proof {
                        lemma_read_push(ev@, i as int, categorical_predictors_at, categorical_predictors@, "CategoricalPredictor"@, categorical_predictor_tag(), here, item);
                        categorical_predictors_at = categorical_predictors_at.push(here);
                    }
                    categorical_predictors.push(item);
                }
            },
            XmlEvent::End(n) => {
                k = k + 1;
                proof {
                    lemma_covers_level_step(ev@, i as int, here, k as int, numeric_predictors_at0, numeric_predictors_at, spans, "NumericPredictor"@);
                    lemma_covers_level_step(ev@, i as int, here, k as int, categorical_predictors_at0, categorical_predictors_at, spans, "CategoricalPredictor"@);
                    spans = span_step(spans, here, k as int);
                    stepped = true;
                }
                if name_is(n, "RegressionTable") {
                    break;
                }
            },
            _ => {
                k = k + 1;
            },
        }
        proof {
            if !stepped {
                lemma_covers_level_step(ev@, i as int, here, k as int, numeric_predictors_at0, numeric_predictors_at, spans, "NumericPredictor"@);
                lemma_covers_level_step(ev@, i as int, here, k as int, categorical_predictors_at0, categorical_predictors_at, spans, "CategoricalPredictor"@);
                spans = span_step(spans, here, k as int);
            }
        }
    }
    proof {
        lemma_read_each_reached(ev@, i as int, k as int, numeric_predictors_at, spans, numeric_predictors@, "NumericPredictor"@, numeric_predictor_tag());
        lemma_read_each_reached(ev@, i as int, k as int, categorical_predictors_at, spans, categorical_predictors@, "CategoricalPredictor"@, categorical_predictor_tag());
    }
    proof {
        lemma_read_in_order(ev@, i as int, k as int, numeric_predictors_at, numeric_predictors@, "NumericPredictor"@, numeric_predictor_tag());
    }
    proof {
        lemma_read_in_order(ev@, i as int, k as int, categorical_predictors_at, categorical_predictors@, "CategoricalPredictor"@, categorical_predictor_tag());
    }
    Ok((RawRegressionTable { intercept, target_category, numeric_predictors, categorical_predictors }, k))
}

/// Whether `m` holds the attributes of `RegressionModel` tag `t`.
pub open spec fn regression_model_of(t: XmlTag, m: RawRegressionModel) -> bool {
    &&& tag_attr(t, "functionName"@) == Some(m.function_name@)
    &&& opt_view(m.target_field_name) == tag_attr(t, "targetFieldName"@)
    &&& opt_view(m.normalization_method) == tag_attr(t, "normalizationMethod"@)
    &&& opt_view(m.model_name) == tag_attr(t, "modelName"@)
    &&& m.targets@.len() == 0
}

/// A `RegressionModel` whose start tag was just read: `functionName` is
/// required.
pub fn parse_regression_model(ev: &Vec<XmlEvent>, i: usize, start: &XmlTag) -> (r: Result<
    (RawRegressionModel, usize),
    PmmlError,
>)
    requires
        0 < i <= ev@.len(),
    ensures
        match r {
            Ok((m, j)) => read_each_section(ev@, i as int, j as int, m.local_derived_fields@, "LocalTransformations"@, "DerivedField"@, derived_field_tag())
                && read_each_section(ev@, i as int, j as int, m.output@, "Output"@, "OutputField"@, output_field_tag())
                && read_each_section(ev@, i as int, j as int, m.mining_schema@, "MiningSchema"@, "MiningField"@, mining_field_tag())
                && read_each_reached(ev@, i as int, j as int, m.regression_tables@, "RegressionTable"@, regression_table_tag())
                && read_in_order(ev@, i as int, j as int, m.local_derived_fields@, "DerivedField"@, derived_field_tag()) && read_in_order(ev@, i as int, j as int, m.output@, "OutputField"@, output_field_tag()) && read_in_order(ev@, i as int, j as int, m.regression_tables@, "RegressionTable"@, regression_table_tag())
                && read_in_order(ev@, i as int, j as int, m.mining_schema@, "MiningField"@, mining_field_tag())
                && stops_at_end_or_tag(ev@, i as int, j as int, "RegressionModel"@)
                && regression_model_of(*start, m),
            Err(e) => tag_attr(*start, "functionName"@) is None ==> is_missing_attr(
                e,
                "RegressionModel"@,
                "functionName"@,
            ),
        },
        element_named(ev@, i as int, "RegressionModel"@) && model_readable(ev@, i as int, *start, "RegressionModel"@) ==> (r matches Ok((_, j)) && j <= closing(ev@, i - 1) + 1),
{
    let function_name = attr_required(start, "functionName", "RegressionModel")?;
    let target_field_name = attr(start, "targetFieldName");
    let normalization_method = attr(start, "normalizationMethod");
    let model_name = attr(start, "modelName");
    let mut mining_schema: Vec<RawMiningField> = Vec::new();
    let ghost mut schema_at: Seq<int> = Seq::empty();
    let mut output: Vec<RawOutputField> = Vec::new();
    let ghost mut output_at: Seq<int> = Seq::empty();
    let mut regression_tables: Vec<RawRegressionTable> = Vec::new();
    let ghost mut regression_tables_at: Seq<int> = Seq::empty();
    let mut local_derived_fields: Vec<RawDerivedField> = Vec::new();
    let ghost mut local_derived_fields_at: Seq<int> = Seq::empty();
    let ghost mut spans: Seq<(int, int)> = Seq::empty();
    let ghost mut ms_secs: Seq<int> = Seq::empty();
    let ghost mut ms_ends: Seq<int> = Seq::empty();
    let ghost mut ms_parts: Seq<Seq<RawMiningField>> = Seq::empty();
    let ghost mut ms_spans: Seq<(int, int)> = Seq::empty();
    proof {
        assert(ms_parts.flatten() =~= Seq::<RawMiningField>::empty());
    }
    let ghost mut out_secs: Seq<int> = Seq::empty();
    let ghost mut out_ends: Seq<int> = Seq::empty();
    let ghost mut out_parts: Seq<Seq<RawOutputField>> = Seq::empty();
    let ghost mut out_spans: Seq<(int, int)> = Seq::empty();
    proof {
        assert(out_parts.flatten() =~= Seq::<RawOutputField>::empty());
    }
    let ghost mut ldf_secs: Seq<int> = Seq::empty();
    let ghost mut ldf_ends: Seq<int> = Seq::empty();
    let ghost mut ldf_parts: Seq<Seq<RawDerivedField>> = Seq::empty();
    let ghost mut ldf_spans: Seq<(int, int)> = Seq::empty();
    proof {
        assert(ldf_parts.flatten() =~= Seq::<RawDerivedField>::empty());
    }
    let mut k = i;
    proof {
        if element_named(ev@, i as int, "RegressionModel"@) {
            lemma_closing(ev@, i - 1);
        }
    }
    loop
        invariant_except_break
            element_named(ev@, i as int, "RegressionModel"@) && model_readable(ev@, i as int, *start, "RegressionModel"@) ==> k <= closing(ev@, i - 1) && closes_at(ev@, i - 1, closing(ev@, i - 1)),
            0 < i <= k <= ev@.len(),
            sections_read(ev@, i as int, k as int, ldf_secs, ldf_ends, ldf_parts, "LocalTransformations"@, "DerivedField"@, derived_field_tag()),
            covers_level(ev@, i as int, k as int, ldf_secs, ldf_spans, "LocalTransformations"@),
            spans_ok(ev@, ldf_spans, i as int, k as int),
            local_derived_fields@ == ldf_parts.flatten(),
            sections_read(ev@, i as int, k as int, out_secs, out_ends, out_parts, "Output"@, "OutputField"@, output_field_tag()),
            covers_level(ev@, i as int, k as int, out_secs, out_spans, "Output"@),
            spans_ok(ev@, out_spans, i as int, k as int),
            output@ == out_parts.flatten(),
            sections_read(ev@, i as int, k as int, ms_secs, ms_ends, ms_parts, "MiningSchema"@, "MiningField"@, mining_field_tag()),
            covers_level(ev@, i as int, k as int, ms_secs, ms_spans, "MiningSchema"@),
            spans_ok(ev@, ms_spans, i as int, k as int),
            mining_schema@ == ms_parts.flatten(),
            spans_ok(ev@, spans, i as int, k as int),
            covers_level(ev@, i as int, k as int, regression_tables_at, spans, "RegressionTable"@),
            tag_attr(*start, "functionName"@) == Some(function_name@),
            read_at_positions(ev@, i as int, schema_at, mining_schema@, "MiningField"@, mining_field_tag()),
            schema_at.len() > 0 ==> schema_at.last() < k,
            read_at_positions(ev@, i as int, regression_tables_at, regression_tables@, "RegressionTable"@, regression_table_tag()),
            regression_tables_at.len() > 0 ==> regression_tables_at.last() < k,
            read_at_positions(ev@, i as int, output_at, output@, "OutputField"@, output_field_tag()),
            output_at.len() > 0 ==> output_at.last() < k,
            read_at_positions(ev@, i as int, local_derived_fields_at, local_derived_fields@, "DerivedField"@, derived_field_tag()),
            local_derived_fields_at.len() > 0 ==> local_derived_fields_at.last() < k,
        ensures
            element_named(ev@, i as int, "RegressionModel"@) && model_readable(ev@, i as int, *start, "RegressionModel"@) ==> k <= closing(ev@, i - 1) + 1,
            0 < i <= k <= ev@.len(),
            sections_read(ev@, i as int, k as int, ldf_secs, ldf_ends, ldf_parts, "LocalTransformations"@, "DerivedField"@, derived_field_tag()),
            covers_level(ev@, i as int, k as int, ldf_secs, ldf_spans, "LocalTransformations"@),
            spans_ok(ev@, ldf_spans, i as int, k as int),
            local_derived_fields@ == ldf_parts.flatten(),
            sections_read(ev@, i as int, k as int, out_secs, out_ends, out_parts, "Output"@, "OutputField"@, output_field_tag()),
            covers_level(ev@, i as int, k as int, out_secs, out_spans, "Output"@),
            spans_ok(ev@, out_spans, i as int, k as int),
            output@ == out_parts.flatten(),
            sections_read(ev@, i as int, k as int, ms_secs, ms_ends, ms_parts, "MiningSchema"@, "MiningField"@, mining_field_tag()),
            covers_level(ev@, i as int, k as int, ms_secs, ms_spans, "MiningSchema"@),
            spans_ok(ev@, ms_spans, i as int, k as int),
            mining_schema@ == ms_parts.flatten(),
            spans_ok(ev@, spans, i as int, k as int),
            covers_level(ev@, i as int, k as int, regression_tables_at, spans, "RegressionTable"@),
            tag_attr(*start, "functionName"@) == Some(function_name@),
            read_at_positions(ev@, i as int, schema_at, mining_schema@, "MiningField"@, mining_field_tag()),
            schema_at.len() > 0 ==> schema_at.last() < k,
            read_at_positions(ev@, i as int, regression_tables_at, regression_tables@, "RegressionTable"@, regression_table_tag()),
            regression_tables_at.len() > 0 ==> regression_tables_at.last() < k,
            read_at_positions(ev@, i as int, output_at, output@, "OutputField"@, output_field_tag()),
            output_at.len() > 0 ==> output_at.last() < k,
            read_at_positions(ev@, i as int, local_derived_fields_at, local_derived_fields@, "DerivedField"@, derived_field_tag()),
            local_derived_fields_at.len() > 0 ==> local_derived_fields_at.last() < k,
            at_end(ev@, k as int) || (i < k && is_end_named(ev@[k - 1], "RegressionModel"@)),
            sections_read(ev@, i as int, k as int, ldf_secs, ldf_ends, ldf_parts, "LocalTransformations"@, "DerivedField"@, derived_field_tag()),
            covers_level(ev@, i as int, k as int, ldf_secs, ldf_spans, "LocalTransformations"@),
            spans_ok(ev@, ldf_spans, i as int, k as int),
            local_derived_fields@ == ldf_parts.flatten(),
            sections_read(ev@, i as int, k as int, out_secs, out_ends, out_parts, "Output"@, "OutputField"@, output_field_tag()),
            covers_level(ev@, i as int, k as int, out_secs, out_spans, "Output"@),
            spans_ok(ev@, out_spans, i as int, k as int),
            output@ == out_parts.flatten(),
            sections_read(ev@, i as int, k as int, ms_secs, ms_ends, ms_parts, "MiningSchema"@, "MiningField"@, mining_field_tag()),
            covers_level(ev@, i as int, k as int, ms_secs, ms_spans, "MiningSchema"@),
            spans_ok(ev@, ms_spans, i as int, k as int),
            mining_schema@ == ms_parts.flatten(),
            spans_ok(ev@, spans, i as int, k as int),
            covers_level(ev@, i as int, k as int, regression_tables_at, spans, "RegressionTable"@),
            read_at_positions(ev@, i as int, schema_at, mining_schema@, "MiningField"@, mining_field_tag()),
            schema_at.len() > 0 ==> schema_at.last() < k,
            read_at_positions(ev@, i as int, regression_tables_at, regression_tables@, "RegressionTable"@, regression_table_tag()),
            regression_tables_at.len() > 0 ==> regression_tables_at.last() < k,
            read_at_positions(ev@, i as int, output_at, output@, "OutputField"@, output_field_tag()),
            output_at.len() > 0 ==> output_at.last() < k,
            read_at_positions(ev@, i as int, local_derived_fields_at, local_derived_fields@, "DerivedField"@, derived_field_tag()),
            local_derived_fields_at.len() > 0 ==> local_derived_fields_at.last() < k,
        decreases ev@.len() - k,
    {
        proof {
            if element_named(ev@, i as int, "RegressionModel"@) && model_readable(ev@, i as int, *start, "RegressionModel"@) {
                lemma_nested_step(ev@, i as int, k as int);
                if k < closing(ev@, i - 1) {
                    assert(!start_named_at(ev@, k as int, "LocalTransformations"@));
                    assert(!is_end_named(ev@[k as int], "RegressionModel"@));
                }
            }
        }
        if end_at(ev, k) {
            break;
        }
        let ghost ldf_here = k as int;
        let ghost ldf_secs0 = ldf_secs;
        let ghost mut ldf_stepped = false;
        proof {
            reveal_strlit("LocalTransformations");
            reveal_strlit("MiningSchema");
            reveal_strlit("ModelStats");
            reveal_strlit("Output");
            reveal_strlit("RegressionTable");
            reveal_strlit("Targets");
            assert("LocalTransformations"@ != "MiningSchema"@) by { assert("LocalTransformations"@.len() != "MiningSchema"@.len()); }
            assert("LocalTransformations"@ != "ModelStats"@) by { assert("LocalTransformations"@.len() != "ModelStats"@.len()); }
            assert("LocalTransformations"@ != "Output"@) by { assert("LocalTransformations"@.len() != "Output"@.len()); }
            assert("LocalTransformations"@ != "RegressionTable"@) by { assert("LocalTransformations"@.len() != "RegressionTable"@.len()); }
            assert("LocalTransformations"@ != "Targets"@) by { assert("LocalTransformations"@.len() != "Targets"@.len()); }
        }
        let ghost out_here = k as int;
        let ghost out_secs0 = out_secs;
        let ghost mut out_stepped = false;
        proof {
            reveal_strlit("LocalTransformations");
            reveal_strlit("MiningSchema");
            reveal_strlit("ModelStats");
            reveal_strlit("Output");
            reveal_strlit("RegressionTable");
            reveal_strlit("Targets");
            assert("Output"@ != "LocalTransformations"@) by { assert("Output"@.len() != "LocalTransformations"@.len()); }
            assert("Output"@ != "MiningSchema"@) by { assert("Output"@.len() != "MiningSchema"@.len()); }
            assert("Output"@ != "ModelStats"@) by { assert("Output"@.len() != "ModelStats"@.len()); }
            assert("Output"@ != "RegressionTable"@) by { assert("Output"@.len() != "RegressionTable"@.len()); }
            assert("Output"@ != "Targets"@) by { assert("Output"@.len() != "Targets"@.len()); }
        }
        let ghost ms_here = k as int;
        let ghost ms_secs0 = ms_secs;
        let ghost mut ms_stepped = false;
        proof {
            reveal_strlit("LocalTransformations");
            reveal_strlit("MiningSchema");
            reveal_strlit("ModelStats");
            reveal_strlit("Output");
            reveal_strlit("RegressionTable");
            reveal_strlit("Targets");
            assert("MiningSchema"@ != "LocalTransformations"@) by { assert("MiningSchema"@.len() != "LocalTransformations"@.len()); }
            assert("MiningSchema"@ != "ModelStats"@) by { assert("MiningSchema"@.len() != "ModelStats"@.len()); }
            assert("MiningSchema"@ != "Output"@) by { assert("MiningSchema"@.len() != "Output"@.len()); }
            assert("MiningSchema"@ != "RegressionTable"@) by { assert("MiningSchema"@.len() != "RegressionTable"@.len()); }
            assert("MiningSchema"@ != "Targets"@) by { assert("MiningSchema"@.len() != "Targets"@.len()); }
        }
        let ghost here = k as int;
        let ghost regression_tables_at0 = regression_tables_at;
        let ghost mut stepped = false;
        proof {
            reveal_strlit("LocalTransformations");
            reveal_strlit("MiningSchema");
            reveal_strlit("ModelStats");
            reveal_strlit("Output");
            reveal_strlit("RegressionTable");
            reveal_strlit("Targets");
            assert("RegressionTable"@ != "LocalTransformations"@) by { assert("RegressionTable"@.len() != "LocalTransformations"@.len()); }
            assert("RegressionTable"@ != "MiningSchema"@) by { assert("RegressionTable"@.len() != "MiningSchema"@.len()); }
            assert("RegressionTable"@ != "ModelStats"@) by { assert("RegressionTable"@.len() != "ModelStats"@.len()); }
            assert("RegressionTable"@ != "Output"@) by { assert("RegressionTable"@.len() != "Output"@.len()); }
            assert("RegressionTable"@ != "Targets"@) by { assert("RegressionTable"@.len() != "Targets"@.len()); }
        }
        match &ev[k] {
            XmlEvent::Start(t) => {
                k = k + 1;
                if name_is(&t.name, "MiningSchema") {
                    let ghost ms_before = mining_schema@;
                    let (mut fields, j) = parse_mining_schema(ev, k, true)?;
                    let ghost ms_ys = fields@;
                    proof {
                        schema_at = lemma_read_extend(ev@, i as int, schema_at, mining_schema@, "MiningField"@, mining_field_tag(), k as int, j as int, fields@);
                    }
                    mining_schema.append(&mut fields);
                    proof {
                        assert(mining_schema@ =~= ms_before + ms_ys);
                        lemma_sections_push(ev@, i as int, ms_here, j as int, ms_secs, ms_ends, ms_parts, ms_ys, "MiningSchema"@, "MiningField"@, mining_field_tag());
                        lemma_covers_level_step(ev@, i as int, ms_here, j as int, ms_secs0, ms_secs0.push(ms_here), ms_spans, "MiningSchema"@);
                        ms_secs = ms_secs.push(ms_here);
                        ms_ends = ms_ends.push(j as int);
                        ms_parts = ms_parts.push(ms_ys);
                        ms_spans = span_step(ms_spans, ms_here, j as int);
                        ms_stepped = true;
                    }
                    k = j;
                } else if name_is(&t.name, "Output") {
                    let ghost out_before = output@;
                    let (mut fields, j) = parse_output(ev, k, false)?;
                    let ghost out_ys = fields@;
                    proof {
                        output_at = lemma_read_extend(ev@, i as int, output_at, output@, "OutputField"@, output_field_tag(), k as int, j as int, fields@);
                    }
                    output.append(&mut fields);
                    proof {
                        assert(output@ =~= out_before + out_ys);
                        lemma_sections_push(ev@, i as int, out_here, j as int, out_secs, out_ends, out_parts, out_ys, "Output"@, "OutputField"@, output_field_tag());
                        lemma_covers_level_step(ev@, i as int, out_here, j as int, out_secs0, out_secs0.push(out_here), out_spans, "Output"@);
                        out_secs = out_secs.push(out_here);
                        out_ends = out_ends.push(j as int);
                        out_parts = out_parts.push(out_ys);
                        out_spans = span_step(out_spans, out_here, j as int);
                        out_stepped = true;
                    }
                    k = j;
                } else if name_is(&t.name, "RegressionTable") {
                    let (tbl, j) = parse_regression_table(ev, k, t)?;
                    let item = tbl;
                    proof {
                        lemma_read_push(ev@, i as int, regression_tables_at, regression_tables@, "RegressionTable"@, regression_table_tag(), here, item);
                        regression_tables_at = regression_tables_at.push(here);
                    }
                    regression_tables.push(item);
                    k = j;
                } else if name_is(&t.name, "LocalTransformations") {
                    let ghost ldf_before = local_derived_fields@;
                    let (mut fields, j) = parse_local_transformations(ev, k)?;
                    let ghost ldf_ys = fields@;
                    proof {
                        local_derived_fields_at = lemma_read_extend(ev@, i as int, local_derived_fields_at, local_derived_fields@, "DerivedField"@, derived_field_tag(), k as int, j as int, fields@);
                    }
                    local_derived_fields.append(&mut fields);
                    proof {
                        assert(local_derived_fields@ =~= ldf_before + ldf_ys);
                        lemma_sections_push(ev@, i as int, ldf_here, j as int, ldf_secs, ldf_ends, ldf_parts, ldf_ys, "LocalTransformations"@, "DerivedField"@, derived_field_tag());
                        lemma_covers_level_step(ev@, i as int, ldf_here, j as int, ldf_secs0, ldf_secs0.push(ldf_here), ldf_spans, "LocalTransformations"@);
                        ldf_secs = ldf_secs.push(ldf_here);
                        ldf_ends = ldf_ends.push(j as int);
                        ldf_parts = ldf_parts.push(ldf_ys);
                        ldf_spans = span_step(ldf_spans, ldf_here, j as int);
                        ldf_stepped = true;
                    }
                    k = j;
                } else if name_is(&t.name, "Targets") || name_is(&t.name, "ModelStats") {
                    k = skip_element(ev, k, t.name.as_str(), true)?;
                }
            },
            XmlEvent::End(n) => {
                k = k + 1;
                proof {
                    lemma_covers_level_step(ev@, i as int, ldf_here, k as int, ldf_secs0, ldf_secs0, ldf_spans, "LocalTransformations"@);
                    lemma_sections_widen(ev@, i as int, ldf_here, k as int, ldf_secs, ldf_ends, ldf_parts, "LocalTransformations"@, "DerivedField"@, derived_field_tag());
                    ldf_spans = span_step(ldf_spans, ldf_here, k as int);
                    ldf_stepped = true;
                }
                proof {
                    lemma_covers_level_step(ev@, i as int, out_here, k as int, out_secs0, out_secs0, out_spans, "Output"@);
                    lemma_sections_widen(ev@, i as int, out_here, k as int, out_secs, out_ends, out_parts, "Output"@, "OutputField"@, output_field_tag());
                    out_spans = span_step(out_spans, out_here, k as int);
                    out_stepped = true;
                }
                proof {
                    lemma_covers_level_step(ev@, i as int, ms_here, k as int, ms_secs0, ms_secs0, ms_spans, "MiningSchema"@);
                    lemma_sections_widen(ev@, i as int, ms_here, k as int, ms_secs, ms_ends, ms_parts, "MiningSchema"@, "MiningField"@, mining_field_tag());
                    ms_spans = span_step(ms_spans, ms_here, k as int);
                    ms_stepped = true;
                }
                proof {
                    lemma_covers_level_step(ev@, i as int, here, k as int, regression_tables_at0, regression_tables_at, spans, "RegressionTable"@);
                    spans = span_step(spans, here, k as int);
                    stepped = true;
                }
                if name_is(n, "RegressionModel") {
                    break;
                }
            },
            _ => {
                k = k + 1;
            },
        }
        proof {
            if !ldf_stepped {
                lemma_covers_level_step(ev@, i as int, ldf_here, k as int, ldf_secs0, ldf_secs0, ldf_spans, "LocalTransformations"@);
                lemma_sections_widen(ev@, i as int, ldf_here, k as int, ldf_secs, ldf_ends, ldf_parts, "LocalTransformations"@, "DerivedField"@, derived_field_tag());
                ldf_spans = span_step(ldf_spans, ldf_here, k as int);
                ldf_stepped = true;
            }
        }
        proof {
            if !out_stepped {
                lemma_covers_level_step(ev@, i as int, out_here, k as int, out_secs0, out_secs0, out_spans, "Output"@);
                lemma_sections_widen(ev@, i as int, out_here, k as int, out_secs, out_ends, out_parts, "Output"@, "OutputField"@, output_field_tag());
                out_spans = span_step(out_spans, out_here, k as int);
                out_stepped = true;
            }
        }
        proof {
            if !ms_stepped {
                lemma_covers_level_step(ev@, i as int, ms_here, k as int, ms_secs0, ms_secs0, ms_spans, "MiningSchema"@);
                lemma_sections_widen(ev@, i as int, ms_here, k as int, ms_secs, ms_ends, ms_parts, "MiningSchema"@, "MiningField"@, mining_field_tag());
                ms_spans = span_step(ms_spans, ms_here, k as int);
                ms_stepped = true;
            }
        }
        proof {
            if !stepped {
                lemma_covers_level_step(ev@, i as int, here, k as int, regression_tables_at0, regression_tables_at, spans, "RegressionTable"@);
                spans = span_step(spans, here, k as int);
            }
        }
    }
    proof {
        lemma_read_each_reached(ev@, i as int, k as int, regression_tables_at, spans, regression_tables@, "RegressionTable"@, regression_table_tag());
    }
    proof {
        lemma_read_in_order(ev@, i as int, k as int, schema_at, mining_schema@, "MiningField"@, mining_field_tag());
    }
    proof {
        lemma_read_in_order(ev@, i as int, k as int, regression_tables_at, regression_tables@, "RegressionTable"@, regression_table_tag());
    }
    proof {
        lemma_read_in_order(ev@, i as int, k as int, output_at, output@, "OutputField"@, output_field_tag());
    }
    proof {
        lemma_read_in_order(ev@, i as int, k as int, local_derived_fields_at, local_derived_fields@, "DerivedField"@, derived_field_tag());
    }
    Ok((RawRegressionModel {
        function_name,
        target_field_name,
        mining_schema,
        output,
        targets: Vec::new(),
        regression_tables,
        normalization_method,
        model_name,
        local_derived_fields,
    }, k))
}

} // verus!
