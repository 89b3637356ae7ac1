//! `GeneralRegressionModel`: parameters, factors, covariates and the
//! parameter-predictor and parameter matrices.

use vstd::prelude::*;
use crate::unmarshal::cursor::{start_named_at, lemma_all_to_each};
use crate::unmarshal::nesting::{closing, closes_at, lemma_nested_step, lemma_closing, model_readable, attrs_complete};
use crate::error::PmmlError;
use crate::strings::split_whitespace;
use crate::xml::{XmlEvent, XmlTag, attr, attr_required, tag_attr, opt_view, is_missing_attr, name_is};
use crate::unmarshal::raw::{
    RawGeneralRegressionModel, RawParameter, RawFactor, RawPPCell, RawPCell, RawMiningField,
    RawDerivedField,
};
use crate::unmarshal::common::{
    parse_mining_schema, parse_array_last_text, mining_field_tag, ListEntry, entry_tag, parse_list,
};
use crate::unmarshal::expr::{parse_local_transformations, derived_field_tag};
use crate::unmarshal::cursor::{
    element_named, tags_carry,
    sections_read, read_each_section, lemma_sections_push, lemma_sections_widen,
    spans_ok, covers_level, read_each_reached, lemma_covers_level_step, span_step, lemma_read_each_reached,
    end_at, skip_one, unexpected_end, stops_after_tag, is_end_named, stops_at_end_or_tag, at_end, read_at_positions, read_in_order, lemma_read_extend, lemma_read_in_order, lemma_read_push, childless, plain_until, plain_event,
};

verus! {

/// Whether `p` holds the attributes of `Parameter` tag `t`.
pub open spec fn parameter_of(t: XmlTag, p: RawParameter) -> bool {
    tag_attr(t, "name"@) == Some(p.name@) && opt_view(p.label) == tag_attr(t, "label"@)
}

/// Whether `name` is the name of covariate `Predictor` tag `t`.
pub open spec fn covariate_of(t: XmlTag, name: String) -> bool {
    tag_attr(t, "name"@) == Some(name@)
}

/// Whether `c` holds the attributes of `PPCell` tag `t`.
pub open spec fn pp_cell_of(t: XmlTag, c: RawPPCell) -> bool {
    &&& tag_attr(t, "value"@) == Some(c.value@)
    &&& tag_attr(t, "predictorName"@) == Some(c.predictor_name@)
    &&& tag_attr(t, "parameterName"@) == Some(c.parameter_name@)
}

/// Whether `c` holds the attributes of `PCell` tag `t`.
pub open spec fn p_cell_of(t: XmlTag, c: RawPCell) -> bool {
    &&& opt_view(c.target_category) == tag_attr(t, "targetCategory"@)
    &&& tag_attr(t, "parameterName"@) == Some(c.parameter_name@)
    &&& opt_view(c.beta) == tag_attr(t, "beta"@)
}

/// Whether `f` holds the attributes of factor `Predictor` tag `t`.
pub open spec fn factor_of(t: XmlTag, f: RawFactor) -> bool {
    tag_attr(t, "name"@) == Some(f.name@) && opt_view(f.contrast_type) == tag_attr(t, "contrastMatrixType"@)
}

/// Whether `v` is the value of `Category` tag `t`.
pub open spec fn category_of(t: XmlTag, v: String) -> bool {
    tag_attr(t, "value"@) == Some(v@)
}

/// How a `Parameter` is read from its tag.
pub open spec fn parameter_tag() -> spec_fn(XmlTag, RawParameter) -> bool {
    |t: XmlTag, p: RawParameter| parameter_of(t, p)
}

/// How a covariate is read from its `Predictor` tag.
pub open spec fn covariate_tag() -> spec_fn(XmlTag, String) -> bool {
    |t: XmlTag, name: String| covariate_of(t, name)
}

/// How a `PPCell` is read from its tag.
pub open spec fn pp_cell_tag() -> spec_fn(XmlTag, RawPPCell) -> bool {
    |t: XmlTag, c: RawPPCell| pp_cell_of(t, c)
}

/// How a `PCell` is read from its tag.
pub open spec fn p_cell_tag() -> spec_fn(XmlTag, RawPCell) -> bool {
    |t: XmlTag, c: RawPCell| p_cell_of(t, c)
}

/// How a factor is read from its `Predictor` tag.
pub open spec fn factor_tag() -> spec_fn(XmlTag, RawFactor) -> bool {
    |t: XmlTag, f: RawFactor| factor_of(t, f)
}

/// How a category value is read from its `Category` tag.
pub open spec fn category_tag() -> spec_fn(XmlTag, String) -> bool {
    |t: XmlTag, v: String| category_of(t, v)
}

/// A `Parameter`: `name` is required.
impl ListEntry for RawParameter {
    open spec fn read_from(t: XmlTag, x: Self) -> bool {
        parameter_of(t, x)
    }

    open spec fn has_required(t: XmlTag) -> bool {
        tag_attr(t, "name"@) is Some
    }

    fn from_tag(t: &XmlTag) -> (r: Result<Self, PmmlError>) {
        let name = attr_required(t, "name", "Parameter")?;
        let label = attr(t, "label");
        Ok(RawParameter { name, label })
    }
}

/// A covariate `Predictor`: its `name`, which is required.
impl ListEntry for String {
    open spec fn read_from(t: XmlTag, x: Self) -> bool {
        covariate_of(t, x)
    }

    open spec fn has_required(t: XmlTag) -> bool {
        tag_attr(t, "name"@) is Some
    }

    fn from_tag(t: &XmlTag) -> (r: Result<Self, PmmlError>) {
        attr_required(t, "name", "Predictor")
    }
}

/// A `PPCell`: `value`, `predictorName` and `parameterName` are required.
impl ListEntry for RawPPCell {
    open spec fn read_from(t: XmlTag, x: Self) -> bool {
        pp_cell_of(t, x)
    }

    open spec fn has_required(t: XmlTag) -> bool {
        tag_attr(t, "value"@) is Some && tag_attr(t, "predictorName"@) is Some && tag_attr(t, "parameterName"@) is Some
    }

    fn from_tag(t: &XmlTag) -> (r: Result<Self, PmmlError>) {
        let value = attr_required(t, "value", "PPCell")?;
        let predictor_name = attr_required(t, "predictorName", "PPCell")?;
        let parameter_name = attr_required(t, "parameterName", "PPCell")?;
        Ok(RawPPCell { value, predictor_name, parameter_name })
    }
}

/// A `PCell`: `parameterName` is required.
impl ListEntry for RawPCell {
    open spec fn read_from(t: XmlTag, x: Self) -> bool {
        p_cell_of(t, x)
    }

    open spec fn has_required(t: XmlTag) -> bool {
        tag_attr(t, "parameterName"@) is Some
    }

    fn from_tag(t: &XmlTag) -> (r: Result<Self, PmmlError>) {
        let target_category = attr(t, "targetCategory");
        let parameter_name = attr_required(t, "parameterName", "PCell")?;
        let beta = attr(t, "beta");
        Ok(RawPCell { target_category, parameter_name, beta })
    }
}

/// The `value` of each `Category` child of a `Categories` whose start tag was
/// just read, in document order (categories without a value are passed
/// over), up to its end tag.
fn parse_categories(ev: &Vec<XmlEvent>, i: usize) -> (r: Result<(Vec<String>, usize), PmmlError>)
    requires
        i <= ev@.len(),
    ensures
        r matches Ok((cats, j)) ==> stops_after_tag(ev@, i as int, j as int, "Categories"@)
            && read_in_order(ev@, i as int, j as int, cats@, "Category"@, category_tag()),
        childless(ev@, i as int, "Categories"@) ==> r is Ok,
        element_named(ev@, i as int, "Categories"@) ==> (r matches Ok((_, j)) && j <= closing(ev@, i - 1) + 1),
{
    let mut cats: Vec<String> = Vec::new();
    let ghost mut at: Seq<int> = Seq::empty();
    let ghost q: int = if childless(ev@, i as int, "Categories"@) {
        choose|q: int| plain_until(ev@, i as int, q, "Categories"@)
    } else {
        0
    };
    let mut k = i;
    proof {
        if element_named(ev@, i as int, "Categories"@) {
            lemma_closing(ev@, i - 1);
        }
    }
    loop
        invariant_except_break
            element_named(ev@, i as int, "Categories"@) ==> k <= closing(ev@, i - 1) && closes_at(ev@, i - 1, closing(ev@, i - 1)),
            i <= k <= ev@.len(),
            read_at_positions(ev@, i as int, at, cats@, "Category"@, category_tag()),
            at.len() > 0 ==> at.last() < k,
            childless(ev@, i as int, "Categories"@) ==> plain_until(ev@, i as int, q, "Categories"@) && k <= q,
        ensures
            element_named(ev@, i as int, "Categories"@) ==> k <= closing(ev@, i - 1) + 1,
            i < k && is_end_named(ev@[k - 1], "Categories"@),
            read_at_positions(ev@, i as int, at, cats@, "Category"@, category_tag()),
            at.len() > 0 ==> at.last() < k,
            i <= k <= ev@.len(),
        decreases ev@.len() - k,
    {
        proof {
            if childless(ev@, i as int, "Categories"@) && k < q {
                assert(plain_event(ev@[k as int], "Categories"@));
            }
        }
        proof {
            if element_named(ev@, i as int, "Categories"@) {
                lemma_nested_step(ev@, i as int, k as int);
            }
        }
        if end_at(ev, k) {
            return Err(unexpected_end());
        }
        let ghost here = k as int;
        match &ev[k] {
            XmlEvent::Start(t) => {
                k = k + 1;
                if name_is(&t.name, "Category") {
                    match attr(t, "value") {
                        Some(v) => {
                            proof {
                                lemma_read_push(ev@, i as int, at, cats@, "Category"@, category_tag(), here, v);
                                at = at.push(here);
                            }
                            cats.push(v);
                        },
                        None => {},
                    }
                    k = skip_one(ev, k);
                }
            },
            XmlEvent::End(n) => {
                k = k + 1;
                if name_is(n, "Categories") {
                    break;
                }
            },
            _ => {
                k = k + 1;
            },
        }
    }
    proof {
        lemma_read_in_order(ev@, i as int, k as int, at, cats@, "Category"@, category_tag());
    }
    Ok((cats, k))
}

/// The rows of a `Matrix` whose start tag was just read: the words of the
/// last text of each `Array` child.
fn parse_matrix(ev: &Vec<XmlEvent>, i: usize, matrix: &mut Vec<Vec<String>>) -> (r: Result<usize, PmmlError>)
    requires
        i <= ev@.len(),
    ensures
        r matches Ok(j) ==> stops_after_tag(ev@, i as int, j as int, "Matrix"@),
        childless(ev@, i as int, "Matrix"@) ==> r is Ok,
        element_named(ev@, i as int, "Matrix"@) ==> (r matches Ok(j) && j <= closing(ev@, i - 1) + 1),
{
    let ghost q: int = if childless(ev@, i as int, "Matrix"@) {
        choose|q: int| plain_until(ev@, i as int, q, "Matrix"@)
    } else {
        0
    };
    let mut k = i;
    proof {
        if element_named(ev@, i as int, "Matrix"@) {
            lemma_closing(ev@, i - 1);
        }
    }
    loop
        invariant_except_break
            element_named(ev@, i as int, "Matrix"@) ==> k <= closing(ev@, i - 1) && closes_at(ev@, i - 1, closing(ev@, i - 1)),
            i <= k <= ev@.len(),
            childless(ev@, i as int, "Matrix"@) ==> plain_until(ev@, i as int, q, "Matrix"@) && k <= q,
        ensures
            element_named(ev@, i as int, "Matrix"@) ==> k <= closing(ev@, i - 1) + 1,
            i < k && is_end_named(ev@[k - 1], "Matrix"@),
            i <= k <= ev@.len(),
        decreases ev@.len() - k,
    {
        proof {
            if childless(ev@, i as int, "Matrix"@) && k < q {
                assert(plain_event(ev@[k as int], "Matrix"@));
            }
        }
        proof {
            if element_named(ev@, i as int, "Matrix"@) {
                lemma_nested_step(ev@, i as int, k as int);
            }
        }
        if end_at(ev, k) {
            return Err(unexpected_end());
        }
        match &ev[k] {
            XmlEvent::Start(t) => {
                k = k + 1;
                if name_is(&t.name, "Array") {
                    let (text, j) = parse_array_last_text(ev, k)?;
                    matrix.push(split_whitespace(text.as_str()));
                    k = j;
                }
            },
            XmlEvent::End(n) => {
                k = k + 1;
                if name_is(n, "Matrix") {
                    break;
                }
            },
            _ => {
                k = k + 1;
            },
        }
    }
    Ok(k)
}

/// A factor `Predictor` whose start tag `start` was just read: `name` is
/// required; its categories, in document order, and contrast matrix rows.
fn parse_factor(ev: &Vec<XmlEvent>, i: usize, start: &XmlTag) -> (r: Result<(RawFactor, usize), PmmlError>)
    requires
        i <= ev@.len(),
    ensures
        r matches Ok((f, j)) ==> stops_after_tag(ev@, i as int, j as int, "Predictor"@)
            && factor_of(*start, f)
            && read_in_order(ev@, i as int, j as int, f.categories@, "Category"@, category_tag()),
        childless(ev@, i as int, "Predictor"@) && tag_attr(*start, "name"@) is Some ==> r is Ok,
        element_named(ev@, i as int, "Predictor"@) && attrs_complete(ev@, i as int) && tag_attr(*start, "name"@) is Some ==> (r matches Ok((_, j)) && j <= closing(ev@, i - 1) + 1),
{
    let name = attr_required(start, "name", "Predictor")?;
    let contrast_type = attr(start, "contrastMatrixType");
    let mut categories: Vec<String> = Vec::new();
    let ghost mut at: Seq<int> = Seq::empty();
    let mut matrix: Vec<Vec<String>> = Vec::new();
    let ghost q: int = if childless(ev@, i as int, "Predictor"@) {
        choose|q: int| plain_until(ev@, i as int, q, "Predictor"@)
    } else {
        0
    };
    let mut k = i;
    proof {
        if element_named(ev@, i as int, "Predictor"@) {
            lemma_closing(ev@, i - 1);
        }
    }
    loop
        invariant_except_break
            element_named(ev@, i as int, "Predictor"@) && attrs_complete(ev@, i as int) && tag_attr(*start, "name"@) is Some ==> k <= closing(ev@, i - 1) && closes_at(ev@, i - 1, closing(ev@, i - 1)),
            i <= k <= ev@.len(),
            read_at_positions(ev@, i as int, at, categories@, "Category"@, category_tag()),
            at.len() > 0 ==> at.last() < k,
            childless(ev@, i as int, "Predictor"@) ==> plain_until(ev@, i as int, q, "Predictor"@) && k <= q,
        ensures
            element_named(ev@, i as int, "Predictor"@) && attrs_complete(ev@, i as int) && tag_attr(*start, "name"@) is Some ==> k <= closing(ev@, i - 1) + 1,
            i < k && is_end_named(ev@[k - 1], "Predictor"@),
            read_at_positions(ev@, i as int, at, categories@, "Category"@, category_tag()),
            at.len() > 0 ==> at.last() < k,
            i <= k <= ev@.len(),
        decreases ev@.len() - k,
    {
        proof {
            if childless(ev@, i as int, "Predictor"@) && k < q {
                assert(plain_event(ev@[k as int], "Predictor"@));
            }
        }
        proof {
            if element_named(ev@, i as int, "Predictor"@) && attrs_complete(ev@, i as int) && tag_attr(*start, "name"@) is Some {
                lemma_nested_step(ev@, i as int, k as int);
            }
        }
        if end_at(ev, k) {
            return Err(unexpected_end());
        }
        match &ev[k] {
            XmlEvent::Start(t) => {
                k = k + 1;
                if name_is(&t.name, "Categories") {
                    let (mut cats, j) = parse_categories(ev, k)?;
                    proof {
                        at = lemma_read_extend(ev@, i as int, at, categories@, "Category"@, category_tag(), k as int, j as int, cats@);
                    }
                    categories.append(&mut cats);
                    k = j;
                } else if name_is(&t.name, "Matrix") {
                    k = parse_matrix(ev, k, &mut matrix)?;
                }
            },
            XmlEvent::End(n) => {
                k = k + 1;
                if name_is(n, "Predictor") {
                    break;
                }
            },
            _ => {
                k = k + 1;
            },
        }
    }
    proof {
        lemma_read_in_order(ev@, i as int, k as int, at, categories@, "Category"@, category_tag());
    }
    Ok((RawFactor { name, categories, matrix, contrast_type }, k))
}

/// The factor predictors of a `FactorList` whose start tag was just read, in
/// document order, up to its end tag.
fn parse_factor_list(ev: &Vec<XmlEvent>, i: usize) -> (r: Result<(Vec<RawFactor>, usize), PmmlError>)
    requires
        i <= ev@.len(),
    ensures
        r matches Ok((factors, j)) ==> read_each_reached(ev@, i as int, j as int, factors@, "Predictor"@, factor_tag())
                && stops_after_tag(ev@, i as int, j as int, "FactorList"@)
            && read_in_order(ev@, i as int, j as int, factors@, "Predictor"@, factor_tag()),
        childless(ev@, i as int, "FactorList"@) ==> r is Ok,
        element_named(ev@, i as int, "FactorList"@) && attrs_complete(ev@, i as int) ==> (r matches Ok((_, j)) && j <= closing(ev@, i - 1) + 1),
{
    let mut factors: Vec<RawFactor> = Vec::new();
    let ghost mut at: Seq<int> = Seq::empty();
    let ghost q: int = if childless(ev@, i as int, "FactorList"@) {
        choose|q: int| plain_until(ev@, i as int, q, "FactorList"@)
    } else {
        0
    };
    let ghost mut spans: Seq<(int, int)> = Seq::empty();
    let mut k = i;
    proof {
        if element_named(ev@, i as int, "FactorList"@) {
            lemma_closing(ev@, i - 1);
        }
    }
    loop
        invariant_except_break
            element_named(ev@, i as int, "FactorList"@) && attrs_complete(ev@, i as int) ==> k <= closing(ev@, i - 1) && closes_at(ev@, i - 1, closing(ev@, i - 1)),
            i <= k <= ev@.len(),
            spans_ok(ev@, spans, i as int, k as int),
            covers_level(ev@, i as int, k as int, at, spans, "Predictor"@),
            read_at_positions(ev@, i as int, at, factors@, "Predictor"@, factor_tag()),
            at.len() > 0 ==> at.last() < k,
            childless(ev@, i as int, "FactorList"@) ==> plain_until(ev@, i as int, q, "FactorList"@) && k <= q,
        ensures
            element_named(ev@, i as int, "FactorList"@) && attrs_complete(ev@, i as int) ==> k <= closing(ev@, i - 1) + 1,
            i < k && is_end_named(ev@[k - 1], "FactorList"@),
            spans_ok(ev@, spans, i as int, k as int),
            covers_level(ev@, i as int, k as int, at, spans, "Predictor"@),
            read_at_positions(ev@, i as int, at, factors@, "Predictor"@, factor_tag()),
            at.len() > 0 ==> at.last() < k,
            i <= k <= ev@.len(),
        decreases ev@.len() - k,
    {
        proof {
            if childless(ev@, i as int, "FactorList"@) && k < q {
                assert(plain_event(ev@[k as int], "FactorList"@));
            }
        }
        proof {
            if element_named(ev@, i as int, "FactorList"@) && attrs_complete(ev@, i as int) {
                lemma_nested_step(ev@, i as int, k as int);
            }
        }
        if end_at(ev, k) {
            return Err(unexpected_end());
        }
        let ghost here = k as int;
        let ghost at0 = at;
        let ghost mut stepped = false;
        proof {
            reveal_strlit("Predictor");
        }
        match &ev[k] {
            XmlEvent::Start(t) => {
                k = k + 1;
                if name_is(&t.name, "Predictor") {
                    let (f, j) = parse_factor(ev, k, t)?;
                    proof {
                        lemma_read_push(ev@, i as int, at, factors@, "Predictor"@, factor_tag(), here, f);
                        at = at.push(here);
                    }
                    factors.push(f);
                    k = j;
                }
            },
            XmlEvent::End(n) => {
                k = k + 1;
                proof {
                    lemma_covers_level_step(ev@, i as int, here, k as int, at0, at, spans, "Predictor"@);
                    spans = span_step(spans, here, k as int);
                    stepped = true;
                }
                if name_is(n, "FactorList") {
                    break;
                }
            },
            _ => {
                k = k + 1;
            },
        }
        proof {
            if !stepped {
                lemma_covers_level_step(ev@, i as int, here, k as int, at0, at, spans, "Predictor"@);
                spans = span_step(spans, here, k as int);
            }
        }
    }
    proof {
        lemma_read_each_reached(ev@, i as int, k as int, at, spans, factors@, "Predictor"@, factor_tag());
    }
    proof {
        lemma_read_in_order(ev@, i as int, k as int, at, factors@, "Predictor"@, factor_tag());
    }
    Ok((factors, k))
}

/// Whether `m` holds the attributes of `GeneralRegressionModel` tag `t`.
pub open spec fn general_regression_model_of(t: XmlTag, m: RawGeneralRegressionModel) -> bool {
    &&& tag_attr(t, "functionName"@) == Some(m.function_name@)
    &&& opt_view(m.model_type) == tag_attr(t, "modelType"@)
    &&& opt_view(m.target_variable_name) == tag_attr(t, "targetVariableName"@)
    &&& opt_view(m.target_reference_category) == tag_attr(t, "targetReferenceCategory"@)
    &&& m.output@.len() == 0
    &&& m.targets@.len() == 0
}

/// Whether the lists of `m` were read, each in document order, from the
/// tags of their names among the events in `[i, j)`.
pub open spec fn general_regression_lists_read(ev: Seq<XmlEvent>, i: int, j: int, m: RawGeneralRegressionModel) -> bool {
    &&& read_in_order(ev, i, j, m.mining_schema@, "MiningField"@, mining_field_tag())
    &&& read_in_order(ev, i, j, m.parameters@, "Parameter"@, parameter_tag())
    &&& read_in_order(ev, i, j, m.factors@, "Predictor"@, factor_tag())
    &&& read_in_order(ev, i, j, m.covariates@, "Predictor"@, covariate_tag())
    &&& read_in_order(ev, i, j, m.pp_matrix@, "PPCell"@, pp_cell_tag())
    &&& read_in_order(ev, i, j, m.param_matrix@, "PCell"@, p_cell_tag())
}

/// A `GeneralRegressionModel` whose start tag was just read: `functionName`
/// is required.
#[verifier::rlimit(50)]
pub fn parse_general_regression_model(ev: &Vec<XmlEvent>, i: usize, start: &XmlTag) -> (r: Result<
    (RawGeneralRegressionModel, usize),
    PmmlError,
>)
    requires
        0 < i <= ev@.len(),
    ensures
        match r {
            Ok((m, j)) => read_each_section(ev@, i as int, j as int, m.local_derived_fields@, "LocalTransformations"@, "DerivedField"@, derived_field_tag())
                && read_each_section(ev@, i as int, j as int, m.mining_schema@, "MiningSchema"@, "MiningField"@, mining_field_tag())
                && read_each_section(ev@, i as int, j as int, m.covariates@, "CovariateList"@, "Predictor"@, covariate_tag())
                && read_each_section(ev@, i as int, j as int, m.param_matrix@, "ParamMatrix"@, "PCell"@, p_cell_tag())
                && read_each_section(ev@, i as int, j as int, m.pp_matrix@, "PPMatrix"@, "PPCell"@, pp_cell_tag())
                && read_each_section(ev@, i as int, j as int, m.parameters@, "ParameterList"@, "Parameter"@, parameter_tag())
                && read_in_order(ev@, i as int, j as int, m.local_derived_fields@, "DerivedField"@, derived_field_tag()) && general_regression_lists_read(ev@, i as int, j as int, m)
                && stops_at_end_or_tag(ev@, i as int, j as int, "GeneralRegressionModel"@)
                && general_regression_model_of(*start, m),
            Err(e) => tag_attr(*start, "functionName"@) is None ==> is_missing_attr(
                e,
                "GeneralRegressionModel"@,
                "functionName"@,
            ),
        },
        element_named(ev@, i as int, "GeneralRegressionModel"@) && model_readable(ev@, i as int, *start, "GeneralRegressionModel"@) ==> (r matches Ok((_, j)) && j <= closing(ev@, i - 1) + 1),
{
    let function_name = attr_required(start, "functionName", "GeneralRegressionModel")?;
    let model_type = attr(start, "modelType");
    let target_variable_name = attr(start, "targetVariableName");
    let target_reference_category = attr(start, "targetReferenceCategory");
    let mut mining_schema: Vec<RawMiningField> = Vec::new();
    let ghost mut schema_at: Seq<int> = Seq::empty();
    let mut parameters: Vec<RawParameter> = Vec::new();
    let ghost mut param_at: Seq<int> = Seq::empty();
    let mut factors: Vec<RawFactor> = Vec::new();
    let ghost mut factor_at: Seq<int> = Seq::empty();
    let mut covariates: Vec<String> = Vec::new();
    let ghost mut cov_at: Seq<int> = Seq::empty();
    let mut pp_matrix: Vec<RawPPCell> = Vec::new();
    let ghost mut pp_at: Seq<int> = Seq::empty();
    let mut param_matrix: Vec<RawPCell> = Vec::new();
    let ghost mut pc_at: Seq<int> = Seq::empty();
    let mut local_derived_fields: Vec<RawDerivedField> = Vec::new();
    let ghost mut local_derived_fields_at: Seq<int> = Seq::empty();
    let ghost mut pl_secs: Seq<int> = Seq::empty();
    let ghost mut pl_ends: Seq<int> = Seq::empty();
    let ghost mut pl_parts: Seq<Seq<RawParameter>> = Seq::empty();
    let ghost mut pl_spans: Seq<(int, int)> = Seq::empty();
    proof {
        assert(pl_parts.flatten() =~= Seq::<RawParameter>::empty());
    }
    let ghost mut pp_secs: Seq<int> = Seq::empty();
    let ghost mut pp_ends: Seq<int> = Seq::empty();
    let ghost mut pp_parts: Seq<Seq<RawPPCell>> = Seq::empty();
    let ghost mut pp_spans: Seq<(int, int)> = Seq::empty();
    proof {
        assert(pp_parts.flatten() =~= Seq::<RawPPCell>::empty());
    }
    let ghost mut pc_secs: Seq<int> = Seq::empty();
    let ghost mut pc_ends: Seq<int> = Seq::empty();
    let ghost mut pc_parts: Seq<Seq<RawPCell>> = Seq::empty();
    let ghost mut pc_spans: Seq<(int, int)> = Seq::empty();
    proof {
        assert(pc_parts.flatten() =~= Seq::<RawPCell>::empty());
    }
    let ghost mut cv_secs: Seq<int> = Seq::empty();
    let ghost mut cv_ends: Seq<int> = Seq::empty();
    let ghost mut cv_parts: Seq<Seq<String>> = Seq::empty();
    let ghost mut cv_spans: Seq<(int, int)> = Seq::empty();
    proof {
        assert(cv_parts.flatten() =~= Seq::<String>::empty());
    }
    let ghost mut ms_secs: Seq<int> = Seq::empty();
    let ghost mut ms_ends: Seq<int> = Seq::empty();
    let ghost mut ms_parts: Seq<Seq<RawMiningField>> = Seq::empty();
    let ghost mut ms_spans: Seq<(int, int)> = Seq::empty();
    proof {
        assert(ms_parts.flatten() =~= Seq::<RawMiningField>::empty());
    }
    let ghost mut ldf_secs: Seq<int> = Seq::empty();
    let ghost mut ldf_ends: Seq<int> = Seq::empty();
    let ghost mut ldf_parts: Seq<Seq<RawDerivedField>> = Seq::empty();
    let ghost mut ldf_spans: Seq<(int, int)> = Seq::empty();
    proof {
        assert(ldf_parts.flatten() =~= Seq::<RawDerivedField>::empty());
    }
    let mut k = i;
    proof {
        if element_named(ev@, i as int, "GeneralRegressionModel"@) {
            lemma_closing(ev@, i - 1);
        }
    }
    loop
        invariant_except_break
            element_named(ev@, i as int, "GeneralRegressionModel"@) && model_readable(ev@, i as int, *start, "GeneralRegressionModel"@) ==> k <= closing(ev@, i - 1) && closes_at(ev@, i - 1, closing(ev@, i - 1)),
            0 < i <= k <= ev@.len(),
            sections_read(ev@, i as int, k as int, ldf_secs, ldf_ends, ldf_parts, "LocalTransformations"@, "DerivedField"@, derived_field_tag()),
            covers_level(ev@, i as int, k as int, ldf_secs, ldf_spans, "LocalTransformations"@),
            spans_ok(ev@, ldf_spans, i as int, k as int),
            local_derived_fields@ == ldf_parts.flatten(),
            sections_read(ev@, i as int, k as int, ms_secs, ms_ends, ms_parts, "MiningSchema"@, "MiningField"@, mining_field_tag()),
            sections_read(ev@, i as int, k as int, cv_secs, cv_ends, cv_parts, "CovariateList"@, "Predictor"@, covariate_tag()),
            covers_level(ev@, i as int, k as int, cv_secs, cv_spans, "CovariateList"@),
            spans_ok(ev@, cv_spans, i as int, k as int),
            covariates@ == cv_parts.flatten(),
            sections_read(ev@, i as int, k as int, pc_secs, pc_ends, pc_parts, "ParamMatrix"@, "PCell"@, p_cell_tag()),
            covers_level(ev@, i as int, k as int, pc_secs, pc_spans, "ParamMatrix"@),
            spans_ok(ev@, pc_spans, i as int, k as int),
            param_matrix@ == pc_parts.flatten(),
            sections_read(ev@, i as int, k as int, pp_secs, pp_ends, pp_parts, "PPMatrix"@, "PPCell"@, pp_cell_tag()),
            covers_level(ev@, i as int, k as int, pp_secs, pp_spans, "PPMatrix"@),
            spans_ok(ev@, pp_spans, i as int, k as int),
            pp_matrix@ == pp_parts.flatten(),
            sections_read(ev@, i as int, k as int, pl_secs, pl_ends, pl_parts, "ParameterList"@, "Parameter"@, parameter_tag()),
            covers_level(ev@, i as int, k as int, pl_secs, pl_spans, "ParameterList"@),
            spans_ok(ev@, pl_spans, i as int, k as int),
            parameters@ == pl_parts.flatten(),
            covers_level(ev@, i as int, k as int, ms_secs, ms_spans, "MiningSchema"@),
            spans_ok(ev@, ms_spans, i as int, k as int),
            mining_schema@ == ms_parts.flatten(),
            tag_attr(*start, "functionName"@) == Some(function_name@),
            read_at_positions(ev@, i as int, schema_at, mining_schema@, "MiningField"@, mining_field_tag()),
            schema_at.len() > 0 ==> schema_at.last() < k,
            read_at_positions(ev@, i as int, param_at, parameters@, "Parameter"@, parameter_tag()),
            param_at.len() > 0 ==> param_at.last() < k,
            read_at_positions(ev@, i as int, factor_at, factors@, "Predictor"@, factor_tag()),
            factor_at.len() > 0 ==> factor_at.last() < k,
            read_at_positions(ev@, i as int, cov_at, covariates@, "Predictor"@, covariate_tag()),
            cov_at.len() > 0 ==> cov_at.last() < k,
            read_at_positions(ev@, i as int, pp_at, pp_matrix@, "PPCell"@, pp_cell_tag()),
            pp_at.len() > 0 ==> pp_at.last() < k,
            read_at_positions(ev@, i as int, pc_at, param_matrix@, "PCell"@, p_cell_tag()),
            pc_at.len() > 0 ==> pc_at.last() < k,
            read_at_positions(ev@, i as int, local_derived_fields_at, local_derived_fields@, "DerivedField"@, derived_field_tag()),
            local_derived_fields_at.len() > 0 ==> local_derived_fields_at.last() < k,
        ensures
            element_named(ev@, i as int, "GeneralRegressionModel"@) && model_readable(ev@, i as int, *start, "GeneralRegressionModel"@) ==> k <= closing(ev@, i - 1) + 1,
            0 < i <= k <= ev@.len(),
            sections_read(ev@, i as int, k as int, ldf_secs, ldf_ends, ldf_parts, "LocalTransformations"@, "DerivedField"@, derived_field_tag()),
            covers_level(ev@, i as int, k as int, ldf_secs, ldf_spans, "LocalTransformations"@),
            spans_ok(ev@, ldf_spans, i as int, k as int),
            local_derived_fields@ == ldf_parts.flatten(),
            sections_read(ev@, i as int, k as int, ms_secs, ms_ends, ms_parts, "MiningSchema"@, "MiningField"@, mining_field_tag()),
            sections_read(ev@, i as int, k as int, cv_secs, cv_ends, cv_parts, "CovariateList"@, "Predictor"@, covariate_tag()),
            covers_level(ev@, i as int, k as int, cv_secs, cv_spans, "CovariateList"@),
            spans_ok(ev@, cv_spans, i as int, k as int),
            covariates@ == cv_parts.flatten(),
            sections_read(ev@, i as int, k as int, pc_secs, pc_ends, pc_parts, "ParamMatrix"@, "PCell"@, p_cell_tag()),
            covers_level(ev@, i as int, k as int, pc_secs, pc_spans, "ParamMatrix"@),
            spans_ok(ev@, pc_spans, i as int, k as int),
            param_matrix@ == pc_parts.flatten(),
            sections_read(ev@, i as int, k as int, pp_secs, pp_ends, pp_parts, "PPMatrix"@, "PPCell"@, pp_cell_tag()),
            covers_level(ev@, i as int, k as int, pp_secs, pp_spans, "PPMatrix"@),
            spans_ok(ev@, pp_spans, i as int, k as int),
            pp_matrix@ == pp_parts.flatten(),
            sections_read(ev@, i as int, k as int, pl_secs, pl_ends, pl_parts, "ParameterList"@, "Parameter"@, parameter_tag()),
            covers_level(ev@, i as int, k as int, pl_secs, pl_spans, "ParameterList"@),
            spans_ok(ev@, pl_spans, i as int, k as int),
            parameters@ == pl_parts.flatten(),
            covers_level(ev@, i as int, k as int, ms_secs, ms_spans, "MiningSchema"@),
            spans_ok(ev@, ms_spans, i as int, k as int),
            mining_schema@ == ms_parts.flatten(),
            tag_attr(*start, "functionName"@) == Some(function_name@),
            read_at_positions(ev@, i as int, schema_at, mining_schema@, "MiningField"@, mining_field_tag()),
            schema_at.len() > 0 ==> schema_at.last() < k,
            read_at_positions(ev@, i as int, param_at, parameters@, "Parameter"@, parameter_tag()),
            param_at.len() > 0 ==> param_at.last() < k,
            read_at_positions(ev@, i as int, factor_at, factors@, "Predictor"@, factor_tag()),
            factor_at.len() > 0 ==> factor_at.last() < k,
            read_at_positions(ev@, i as int, cov_at, covariates@, "Predictor"@, covariate_tag()),
            cov_at.len() > 0 ==> cov_at.last() < k,
            read_at_positions(ev@, i as int, pp_at, pp_matrix@, "PPCell"@, pp_cell_tag()),
            pp_at.len() > 0 ==> pp_at.last() < k,
            read_at_positions(ev@, i as int, pc_at, param_matrix@, "PCell"@, p_cell_tag()),
            pc_at.len() > 0 ==> pc_at.last() < k,
            read_at_positions(ev@, i as int, local_derived_fields_at, local_derived_fields@, "DerivedField"@, derived_field_tag()),
            local_derived_fields_at.len() > 0 ==> local_derived_fields_at.last() < k,
            at_end(ev@, k as int) || (i < k && is_end_named(ev@[k - 1], "GeneralRegressionModel"@)),
            sections_read(ev@, i as int, k as int, ldf_secs, ldf_ends, ldf_parts, "LocalTransformations"@, "DerivedField"@, derived_field_tag()),
            covers_level(ev@, i as int, k as int, ldf_secs, ldf_spans, "LocalTransformations"@),
            spans_ok(ev@, ldf_spans, i as int, k as int),
            local_derived_fields@ == ldf_parts.flatten(),
            sections_read(ev@, i as int, k as int, ms_secs, ms_ends, ms_parts, "MiningSchema"@, "MiningField"@, mining_field_tag()),
            sections_read(ev@, i as int, k as int, cv_secs, cv_ends, cv_parts, "CovariateList"@, "Predictor"@, covariate_tag()),
            covers_level(ev@, i as int, k as int, cv_secs, cv_spans, "CovariateList"@),
            spans_ok(ev@, cv_spans, i as int, k as int),
            covariates@ == cv_parts.flatten(),
            sections_read(ev@, i as int, k as int, pc_secs, pc_ends, pc_parts, "ParamMatrix"@, "PCell"@, p_cell_tag()),
            covers_level(ev@, i as int, k as int, pc_secs, pc_spans, "ParamMatrix"@),
            spans_ok(ev@, pc_spans, i as int, k as int),
            param_matrix@ == pc_parts.flatten(),
            sections_read(ev@, i as int, k as int, pp_secs, pp_ends, pp_parts, "PPMatrix"@, "PPCell"@, pp_cell_tag()),
            covers_level(ev@, i as int, k as int, pp_secs, pp_spans, "PPMatrix"@),
            spans_ok(ev@, pp_spans, i as int, k as int),
            pp_matrix@ == pp_parts.flatten(),
            sections_read(ev@, i as int, k as int, pl_secs, pl_ends, pl_parts, "ParameterList"@, "Parameter"@, parameter_tag()),
            covers_level(ev@, i as int, k as int, pl_secs, pl_spans, "ParameterList"@),
            spans_ok(ev@, pl_spans, i as int, k as int),
            parameters@ == pl_parts.flatten(),
            covers_level(ev@, i as int, k as int, ms_secs, ms_spans, "MiningSchema"@),
            spans_ok(ev@, ms_spans, i as int, k as int),
            mining_schema@ == ms_parts.flatten(),
            read_at_positions(ev@, i as int, schema_at, mining_schema@, "MiningField"@, mining_field_tag()),
            schema_at.len() > 0 ==> schema_at.last() < k,
            read_at_positions(ev@, i as int, param_at, parameters@, "Parameter"@, parameter_tag()),
            param_at.len() > 0 ==> param_at.last() < k,
            read_at_positions(ev@, i as int, factor_at, factors@, "Predictor"@, factor_tag()),
            factor_at.len() > 0 ==> factor_at.last() < k,
            read_at_positions(ev@, i as int, cov_at, covariates@, "Predictor"@, covariate_tag()),
            cov_at.len() > 0 ==> cov_at.last() < k,
            read_at_positions(ev@, i as int, pp_at, pp_matrix@, "PPCell"@, pp_cell_tag()),
            pp_at.len() > 0 ==> pp_at.last() < k,
            read_at_positions(ev@, i as int, pc_at, param_matrix@, "PCell"@, p_cell_tag()),
            pc_at.len() > 0 ==> pc_at.last() < k,
            read_at_positions(ev@, i as int, local_derived_fields_at, local_derived_fields@, "DerivedField"@, derived_field_tag()),
            local_derived_fields_at.len() > 0 ==> local_derived_fields_at.last() < k,
        decreases ev@.len() - k,
    {
        proof {
            if element_named(ev@, i as int, "GeneralRegressionModel"@) && model_readable(ev@, i as int, *start, "GeneralRegressionModel"@) {
                lemma_nested_step(ev@, i as int, k as int);
                if k < closing(ev@, i - 1) {
                    assert(!start_named_at(ev@, k as int, "LocalTransformations"@));
                    assert(!is_end_named(ev@[k as int], "GeneralRegressionModel"@));
                }
            }
        }
        if end_at(ev, k) {
            break;
        }
        let ghost ldf_here = k as int;
        let ghost ldf_secs0 = ldf_secs;
        let ghost mut ldf_stepped = false;
        proof {
            reveal_strlit("CovariateList");
            reveal_strlit("FactorList");
            reveal_strlit("LocalTransformations");
            reveal_strlit("MiningSchema");
            reveal_strlit("PPMatrix");
            reveal_strlit("ParamMatrix");
            reveal_strlit("ParameterList");
            assert("LocalTransformations"@ != "CovariateList"@) by { assert("LocalTransformations"@.len() != "CovariateList"@.len()); }
            assert("LocalTransformations"@ != "FactorList"@) by { assert("LocalTransformations"@.len() != "FactorList"@.len()); }
            assert("LocalTransformations"@ != "MiningSchema"@) by { assert("LocalTransformations"@.len() != "MiningSchema"@.len()); }
            assert("LocalTransformations"@ != "PPMatrix"@) by { assert("LocalTransformations"@.len() != "PPMatrix"@.len()); }
            assert("LocalTransformations"@ != "ParamMatrix"@) by { assert("LocalTransformations"@.len() != "ParamMatrix"@.len()); }
            assert("LocalTransformations"@ != "ParameterList"@) by { assert("LocalTransformations"@.len() != "ParameterList"@.len()); }
        }
        let ghost pl_secs0 = pl_secs;
        let ghost mut pl_stepped = false;
        proof {
            reveal_strlit("MiningSchema");
            reveal_strlit("ParameterList");
            reveal_strlit("FactorList");
            reveal_strlit("CovariateList");
            reveal_strlit("PPMatrix");
            reveal_strlit("ParamMatrix");
            reveal_strlit("LocalTransformations");
            assert("ParameterList"@ != "MiningSchema"@) by { assert("ParameterList"@.len() != "MiningSchema"@.len()); }
            assert("ParameterList"@ != "FactorList"@) by { assert("ParameterList"@.len() != "FactorList"@.len()); }
            assert("ParameterList"@ != "CovariateList"@) by { assert("ParameterList"@[0] != "CovariateList"@[0]); }
            assert("ParameterList"@ != "PPMatrix"@) by { assert("ParameterList"@.len() != "PPMatrix"@.len()); }
            assert("ParameterList"@ != "ParamMatrix"@) by { assert("ParameterList"@.len() != "ParamMatrix"@.len()); }
            assert("ParameterList"@ != "LocalTransformations"@) by { assert("ParameterList"@.len() != "LocalTransformations"@.len()); }
        }
        let ghost pp_secs0 = pp_secs;
        let ghost mut pp_stepped = false;
        proof {
            reveal_strlit("MiningSchema");
            reveal_strlit("ParameterList");
            reveal_strlit("FactorList");
            reveal_strlit("CovariateList");
            reveal_strlit("PPMatrix");
            reveal_strlit("ParamMatrix");
            reveal_strlit("LocalTransformations");
            assert("PPMatrix"@ != "MiningSchema"@) by { assert("PPMatrix"@.len() != "MiningSchema"@.len()); }
            assert("PPMatrix"@ != "ParameterList"@) by { assert("PPMatrix"@.len() != "ParameterList"@.len()); }
            assert("PPMatrix"@ != "FactorList"@) by { assert("PPMatrix"@.len() != "FactorList"@.len()); }
            assert("PPMatrix"@ != "CovariateList"@) by { assert("PPMatrix"@.len() != "CovariateList"@.len()); }
            assert("PPMatrix"@ != "ParamMatrix"@) by { assert("PPMatrix"@.len() != "ParamMatrix"@.len()); }
            assert("PPMatrix"@ != "LocalTransformations"@) by { assert("PPMatrix"@.len() != "LocalTransformations"@.len()); }
        }
        let ghost pc_secs0 = pc_secs;
        let ghost mut pc_stepped = false;
        proof {
            reveal_strlit("MiningSchema");
            reveal_strlit("ParameterList");
            reveal_strlit("FactorList");
            reveal_strlit("CovariateList");
            reveal_strlit("PPMatrix");
            reveal_strlit("ParamMatrix");
            reveal_strlit("LocalTransformations");
            assert("ParamMatrix"@ != "MiningSchema"@) by { assert("ParamMatrix"@.len() != "MiningSchema"@.len()); }
            assert("ParamMatrix"@ != "ParameterList"@) by { assert("ParamMatrix"@.len() != "ParameterList"@.len()); }
            assert("ParamMatrix"@ != "FactorList"@) by { assert("ParamMatrix"@.len() != "FactorList"@.len()); }
            assert("ParamMatrix"@ != "CovariateList"@) by { assert("ParamMatrix"@.len() != "CovariateList"@.len()); }
            assert("ParamMatrix"@ != "PPMatrix"@) by { assert("ParamMatrix"@.len() != "PPMatrix"@.len()); }
            assert("ParamMatrix"@ != "LocalTransformations"@) by { assert("ParamMatrix"@.len() != "LocalTransformations"@.len()); }
        }
        let ghost cv_secs0 = cv_secs;
        let ghost mut cv_stepped = false;
        proof {
            reveal_strlit("MiningSchema");
            reveal_strlit("ParameterList");
            reveal_strlit("FactorList");
            reveal_strlit("CovariateList");
            reveal_strlit("PPMatrix");
            reveal_strlit("ParamMatrix");
            reveal_strlit("LocalTransformations");
            assert("CovariateList"@ != "MiningSchema"@) by { assert("CovariateList"@.len() != "MiningSchema"@.len()); }
            assert("CovariateList"@ != "ParameterList"@) by { assert("CovariateList"@[0] != "ParameterList"@[0]); }
            assert("CovariateList"@ != "FactorList"@) by { assert("CovariateList"@.len() != "FactorList"@.len()); }
            assert("CovariateList"@ != "PPMatrix"@) by { assert("CovariateList"@.len() != "PPMatrix"@.len()); }
            assert("CovariateList"@ != "ParamMatrix"@) by { assert("CovariateList"@.len() != "ParamMatrix"@.len()); }
            assert("CovariateList"@ != "LocalTransformations"@) by { assert("CovariateList"@.len() != "LocalTransformations"@.len()); }
        }
        let ghost ms_here = k as int;
        let ghost ms_secs0 = ms_secs;
        let ghost mut ms_stepped = false;
        proof {
            reveal_strlit("CovariateList");
            reveal_strlit("FactorList");
            reveal_strlit("LocalTransformations");
            reveal_strlit("MiningSchema");
            reveal_strlit("PPMatrix");
            reveal_strlit("ParamMatrix");
            reveal_strlit("ParameterList");
            assert("MiningSchema"@ != "CovariateList"@) by { assert("MiningSchema"@.len() != "CovariateList"@.len()); }
            assert("MiningSchema"@ != "FactorList"@) by { assert("MiningSchema"@.len() != "FactorList"@.len()); }
            assert("MiningSchema"@ != "LocalTransformations"@) by { assert("MiningSchema"@.len() != "LocalTransformations"@.len()); }
            assert("MiningSchema"@ != "PPMatrix"@) by { assert("MiningSchema"@.len() != "PPMatrix"@.len()); }
            assert("MiningSchema"@ != "ParamMatrix"@) by { assert("MiningSchema"@.len() != "ParamMatrix"@.len()); }
            assert("MiningSchema"@ != "ParameterList"@) by { assert("MiningSchema"@.len() != "ParameterList"@.len()); }
        }
        match &ev[k] {
            XmlEvent::Start(t) => {
                k = k + 1;
                if name_is(&t.name, "MiningSchema") {
                    let ghost ms_before = mining_schema@;
                    let (mut fields, j) = parse_mining_schema(ev, k, false)?;
                    let ghost ms_ys = fields@;
                    proof {
                        schema_at = lemma_read_extend(ev@, i as int, schema_at, mining_schema@, "MiningField"@, mining_field_tag(), k as int, j as int, fields@);
                    }
                    mining_schema.append(&mut fields);
                    proof {
                        assert(mining_schema@ =~= ms_before + ms_ys);
                        lemma_sections_push(ev@, i as int, ms_here, j as int, ms_secs, ms_ends, ms_parts, ms_ys, "MiningSchema"@, "MiningField"@, mining_field_tag());
                        lemma_covers_level_step(ev@, i as int, ms_here, j as int, ms_secs0, ms_secs0.push(ms_here), ms_spans, "MiningSchema"@);
                        ms_secs = ms_secs.push(ms_here);
                        ms_ends = ms_ends.push(j as int);
                        ms_parts = ms_parts.push(ms_ys);
                        ms_spans = span_step(ms_spans, ms_here, j as int);
                        ms_stepped = true;
                    }
                    k = j;
                } else if name_is(&t.name, "ParameterList") {
                    let ghost pl_before = parameters@;
                    let (mut xs, j) = parse_list::<RawParameter>(ev, k, "ParameterList", "Parameter")?;
                    proof {
                        assert(entry_tag::<RawParameter>() =~= parameter_tag());
                        param_at = lemma_read_extend(ev@, i as int, param_at, parameters@, "Parameter"@, parameter_tag(), k as int, j as int, xs@);
                    }
                    proof {
                        lemma_all_to_each(ev@, k as int, j as int, xs@, "Parameter"@, entry_tag::<RawParameter>());
                    }
                    let ghost pl_ys = xs@;
                    parameters.append(&mut xs);
                    proof {
                        assert(parameters@ =~= pl_before + pl_ys);
                        lemma_sections_push(ev@, i as int, ms_here, j as int, pl_secs, pl_ends, pl_parts, pl_ys, "ParameterList"@, "Parameter"@, parameter_tag());
                        lemma_covers_level_step(ev@, i as int, ms_here, j as int, pl_secs0, pl_secs0.push(ms_here), pl_spans, "ParameterList"@);
                        pl_secs = pl_secs.push(ms_here);
                        pl_ends = pl_ends.push(j as int);
                        pl_parts = pl_parts.push(pl_ys);
                        pl_spans = span_step(pl_spans, ms_here, j as int);
                        pl_stepped = true;
                    }
                    k = j;
                } else if name_is(&t.name, "FactorList") {
                    let (mut xs, j) = parse_factor_list(ev, k)?;
                    proof {
                        factor_at = lemma_read_extend(ev@, i as int, factor_at, factors@, "Predictor"@, factor_tag(), k as int, j as int, xs@);
                    }
                    factors.append(&mut xs);
                    k = j;
                } else if name_is(&t.name, "CovariateList") {
                    let ghost cv_before = covariates@;
                    let (mut xs, j) = parse_list::<String>(ev, k, "CovariateList", "Predictor")?;
                    proof {
                        assert(entry_tag::<String>() =~= covariate_tag());
                        cov_at = lemma_read_extend(ev@, i as int, cov_at, covariates@, "Predictor"@, covariate_tag(), k as int, j as int, xs@);
                    }
                    proof {
                        lemma_all_to_each(ev@, k as int, j as int, xs@, "Predictor"@, entry_tag::<String>());
                    }
                    let ghost cv_ys = xs@;
                    covariates.append(&mut xs);
                    proof {
                        assert(covariates@ =~= cv_before + cv_ys);
                        lemma_sections_push(ev@, i as int, ms_here, j as int, cv_secs, cv_ends, cv_parts, cv_ys, "CovariateList"@, "Predictor"@, covariate_tag());
                        lemma_covers_level_step(ev@, i as int, ms_here, j as int, cv_secs0, cv_secs0.push(ms_here), cv_spans, "CovariateList"@);
                        cv_secs = cv_secs.push(ms_here);
                        cv_ends = cv_ends.push(j as int);
                        cv_parts = cv_parts.push(cv_ys);
                        cv_spans = span_step(cv_spans, ms_here, j as int);
                        cv_stepped = true;
                    }
                    k = j;
                } else if name_is(&t.name, "PPMatrix") {
                    let ghost pp_before = pp_matrix@;
                    let (mut xs, j) = parse_list::<RawPPCell>(ev, k, "PPMatrix", "PPCell")?;
                    proof {
                        assert(entry_tag::<RawPPCell>() =~= pp_cell_tag());
                        pp_at = lemma_read_extend(ev@, i as int, pp_at, pp_matrix@, "PPCell"@, pp_cell_tag(), k as int, j as int, xs@);
                    }
                    proof {
                        lemma_all_to_each(ev@, k as int, j as int, xs@, "PPCell"@, entry_tag::<RawPPCell>());
                    }
                    let ghost pp_ys = xs@;
                    pp_matrix.append(&mut xs);
                    proof {
                        assert(pp_matrix@ =~= pp_before + pp_ys);
                        lemma_sections_push(ev@, i as int, ms_here, j as int, pp_secs, pp_ends, pp_parts, pp_ys, "PPMatrix"@, "PPCell"@, pp_cell_tag());
                        lemma_covers_level_step(ev@, i as int, ms_here, j as int, pp_secs0, pp_secs0.push(ms_here), pp_spans, "PPMatrix"@);
                        pp_secs = pp_secs.push(ms_here);
                        pp_ends = pp_ends.push(j as int);
                        pp_parts = pp_parts.push(pp_ys);
                        pp_spans = span_step(pp_spans, ms_here, j as int);
                        pp_stepped = true;
                    }
                    k = j;
                } else if name_is(&t.name, "ParamMatrix") {
                    let ghost pc_before = param_matrix@;
                    let (mut xs, j) = parse_list::<RawPCell>(ev, k, "ParamMatrix", "PCell")?;
                    proof {
                        assert(entry_tag::<RawPCell>() =~= p_cell_tag());
                        pc_at = lemma_read_extend(ev@, i as int, pc_at, param_matrix@, "PCell"@, p_cell_tag(), k as int, j as int, xs@);
                    }
                    proof {
                        lemma_all_to_each(ev@, k as int, j as int, xs@, "PCell"@, entry_tag::<RawPCell>());
                    }
                    let ghost pc_ys = xs@;
                    param_matrix.append(&mut xs);
                    proof {
                        assert(param_matrix@ =~= pc_before + pc_ys);
                        lemma_sections_push(ev@, i as int, ms_here, j as int, pc_secs, pc_ends, pc_parts, pc_ys, "ParamMatrix"@, "PCell"@, p_cell_tag());
                        lemma_covers_level_step(ev@, i as int, ms_here, j as int, pc_secs0, pc_secs0.push(ms_here), pc_spans, "ParamMatrix"@);
                        pc_secs = pc_secs.push(ms_here);
                        pc_ends = pc_ends.push(j as int);
                        pc_parts = pc_parts.push(pc_ys);
                        pc_spans = span_step(pc_spans, ms_here, j as int);
                        pc_stepped = true;
                    }
                    k = j;
                } else if name_is(&t.name, "LocalTransformations") {
                    let ghost ldf_before = local_derived_fields@;
                    let (mut fields, j) = parse_local_transformations(ev, k)?;
                    let ghost ldf_ys = fields@;
                    proof {
                        local_derived_fields_at = lemma_read_extend(ev@, i as int, local_derived_fields_at, local_derived_fields@, "DerivedField"@, derived_field_tag(), k as int, j as int, fields@);
                    }
                    local_derived_fields.append(&mut fields);
                    proof {
                        assert(local_derived_fields@ =~= ldf_before + ldf_ys);
                        lemma_sections_push(ev@, i as int, ldf_here, j as int, ldf_secs, ldf_ends, ldf_parts, ldf_ys, "LocalTransformations"@, "DerivedField"@, derived_field_tag());
                        lemma_covers_level_step(ev@, i as int, ldf_here, j as int, ldf_secs0, ldf_secs0.push(ldf_here), ldf_spans, "LocalTransformations"@);
                        ldf_secs = ldf_secs.push(ldf_here);
                        ldf_ends = ldf_ends.push(j as int);
                        ldf_parts = ldf_parts.push(ldf_ys);
                        ldf_spans = span_step(ldf_spans, ldf_here, j as int);
                        ldf_stepped = true;
                    }
                    k = j;
                }
            },
            XmlEvent::End(n) => {
                k = k + 1;
                proof {
                    lemma_covers_level_step(ev@, i as int, ldf_here, k as int, ldf_secs0, ldf_secs0, ldf_spans, "LocalTransformations"@);
                    lemma_sections_widen(ev@, i as int, ldf_here, k as int, ldf_secs, ldf_ends, ldf_parts, "LocalTransformations"@, "DerivedField"@, derived_field_tag());
                    ldf_spans = span_step(ldf_spans, ldf_here, k as int);
                    ldf_stepped = true;
                }
                proof {
                    lemma_covers_level_step(ev@, i as int, ms_here, k as int, ms_secs0, ms_secs0, ms_spans, "MiningSchema"@);
                    lemma_sections_widen(ev@, i as int, ms_here, k as int, ms_secs, ms_ends, ms_parts, "MiningSchema"@, "MiningField"@, mining_field_tag());
                    ms_spans = span_step(ms_spans, ms_here, k as int);
                    ms_stepped = true;
                }
                proof {
                    lemma_covers_level_step(ev@, i as int, ms_here, k as int, pl_secs0, pl_secs0, pl_spans, "ParameterList"@);
                    lemma_sections_widen(ev@, i as int, ms_here, k as int, pl_secs, pl_ends, pl_parts, "ParameterList"@, "Parameter"@, parameter_tag());
                    pl_spans = span_step(pl_spans, ms_here, k as int);
                    pl_stepped = true;
                }
                proof {
                    lemma_covers_level_step(ev@, i as int, ms_here, k as int, pp_secs0, pp_secs0, pp_spans, "PPMatrix"@);
                    lemma_sections_widen(ev@, i as int, ms_here, k as int, pp_secs, pp_ends, pp_parts, "PPMatrix"@, "PPCell"@, pp_cell_tag());
                    pp_spans = span_step(pp_spans, ms_here, k as int);
                    pp_stepped = true;
                }
                proof {
                    lemma_covers_level_step(ev@, i as int, ms_here, k as int, pc_secs0, pc_secs0, pc_spans, "ParamMatrix"@);
                    lemma_sections_widen(ev@, i as int, ms_here, k as int, pc_secs, pc_ends, pc_parts, "ParamMatrix"@, "PCell"@, p_cell_tag());
                    pc_spans = span_step(pc_spans, ms_here, k as int);
                    pc_stepped = true;
                }
                proof {
                    lemma_covers_level_step(ev@, i as int, ms_here, k as int, cv_secs0, cv_secs0, cv_spans, "CovariateList"@);
                    lemma_sections_widen(ev@, i as int, ms_here, k as int, cv_secs, cv_ends, cv_parts, "CovariateList"@, "Predictor"@, covariate_tag());
                    cv_spans = span_step(cv_spans, ms_here, k as int);
                    cv_stepped = true;
                }
                if name_is(n, "GeneralRegressionModel") {
                    break;
                }
            },
            _ => {
                k = k + 1;
            },
        }
        proof {
            if !ldf_stepped {
                lemma_covers_level_step(ev@, i as int, ldf_here, k as int, ldf_secs0, ldf_secs0, ldf_spans, "LocalTransformations"@);
                lemma_sections_widen(ev@, i as int, ldf_here, k as int, ldf_secs, ldf_ends, ldf_parts, "LocalTransformations"@, "DerivedField"@, derived_field_tag());
                ldf_spans = span_step(ldf_spans, ldf_here, k as int);
                ldf_stepped = true;
            }
        }
        proof {
            if !pl_stepped {
                lemma_covers_level_step(ev@, i as int, ms_here, k as int, pl_secs0, pl_secs0, pl_spans, "ParameterList"@);
                lemma_sections_widen(ev@, i as int, ms_here, k as int, pl_secs, pl_ends, pl_parts, "ParameterList"@, "Parameter"@, parameter_tag());
                pl_spans = span_step(pl_spans, ms_here, k as int);
            }
        }
        proof {
            if !pp_stepped {
                lemma_covers_level_step(ev@, i as int, ms_here, k as int, pp_secs0, pp_secs0, pp_spans, "PPMatrix"@);
                lemma_sections_widen(ev@, i as int, ms_here, k as int, pp_secs, pp_ends, pp_parts, "PPMatrix"@, "PPCell"@, pp_cell_tag());
                pp_spans = span_step(pp_spans, ms_here, k as int);
            }
        }
        proof {
            if !pc_stepped {
                lemma_covers_level_step(ev@, i as int, ms_here, k as int, pc_secs0, pc_secs0, pc_spans, "ParamMatrix"@);
                lemma_sections_widen(ev@, i as int, ms_here, k as int, pc_secs, pc_ends, pc_parts, "ParamMatrix"@, "PCell"@, p_cell_tag());
                pc_spans = span_step(pc_spans, ms_here, k as int);
            }
        }
        proof {
            if !cv_stepped {
                lemma_covers_level_step(ev@, i as int, ms_here, k as int, cv_secs0, cv_secs0, cv_spans, "CovariateList"@);
                lemma_sections_widen(ev@, i as int, ms_here, k as int, cv_secs, cv_ends, cv_parts, "CovariateList"@, "Predictor"@, covariate_tag());
                cv_spans = span_step(cv_spans, ms_here, k as int);
            }
        }
        proof {
            if !ms_stepped {
                lemma_covers_level_step(ev@, i as int, ms_here, k as int, ms_secs0, ms_secs0, ms_spans, "MiningSchema"@);
                lemma_sections_widen(ev@, i as int, ms_here, k as int, ms_secs, ms_ends, ms_parts, "MiningSchema"@, "MiningField"@, mining_field_tag());
                ms_spans = span_step(ms_spans, ms_here, k as int);
                ms_stepped = true;
            }
        }
    }
    proof {
        lemma_read_in_order(ev@, i as int, k as int, schema_at, mining_schema@, "MiningField"@, mining_field_tag());
        lemma_read_in_order(ev@, i as int, k as int, param_at, parameters@, "Parameter"@, parameter_tag());
        lemma_read_in_order(ev@, i as int, k as int, factor_at, factors@, "Predictor"@, factor_tag());
        lemma_read_in_order(ev@, i as int, k as int, cov_at, covariates@, "Predictor"@, covariate_tag());
        lemma_read_in_order(ev@, i as int, k as int, pp_at, pp_matrix@, "PPCell"@, pp_cell_tag());
        lemma_read_in_order(ev@, i as int, k as int, pc_at, param_matrix@, "PCell"@, p_cell_tag());
    }
    proof {
        lemma_read_in_order(ev@, i as int, k as int, local_derived_fields_at, local_derived_fields@, "DerivedField"@, derived_field_tag());
    }
    Ok((RawGeneralRegressionModel {
        function_name,
        mining_schema,
        output: Vec::new(),
        targets: Vec::new(),
        model_type,
        target_variable_name,
        target_reference_category,
        parameters,
        factors,
        covariates,
        pp_matrix,
        param_matrix,
        local_derived_fields,
    }, k))
}

} // verus!
