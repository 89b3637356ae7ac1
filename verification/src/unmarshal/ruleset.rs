//! `RuleSetModel`: a rule set of simple rules, each a score guarded by a
//! simple or compound predicate.

use vstd::prelude::*;
use crate::unmarshal::tree::{node_part_lacks_at};
use crate::unmarshal::cursor::{start_named_at};
use crate::unmarshal::nesting::{closing, closes_at, lemma_nested_step, lemma_closing, model_readable, attrs_complete};
use crate::error::PmmlError;
use crate::xml::{XmlEvent, XmlTag, attr, attr_required, tag_attr, opt_view, is_missing_attr, name_is};
use crate::unmarshal::raw::{
    RawRuleSetModel, RawRuleSet, RawSimpleRule, RawPredicate, RawMiningField, RawDerivedField,
};
use crate::unmarshal::common::{predicate_read_at, lemma_predicate_names, parse_mining_schema, parse_simple_predicate, mining_field_tag};
use crate::unmarshal::expr::{parse_local_transformations, derived_field_tag};
use crate::unmarshal::mining::{parse_simple_compound_children, predicate_children, predicates_of_children};
use crate::unmarshal::cursor::{
    element_named, tags_carry,
    sections_read, read_each_section, lemma_sections_push, lemma_sections_widen,
    spans_ok, covers_level, read_each_reached, lemma_covers_level_step, span_step, lemma_read_each_reached,
    end_at, unexpected_end, at_end, is_end_named, stops_after_tag, stops_at_end_or_tag, read_at_positions, read_in_order, lemma_read_extend, lemma_read_in_order, lemma_read_push, lemma_read_one, lemma_read_widen, childless, plain_until, plain_event,
};

verus! {

/// The simple predicates of a `CompoundPredicate` whose start tag was just
/// read, up to its end tag: `booleanOperator` is required.
fn parse_rule_compound(ev: &Vec<XmlEvent>, i: usize, start: &XmlTag) -> (r: Result<
    (RawPredicate, usize),
    PmmlError,
>)
    requires
        i <= ev@.len(),
    ensures
        match r {
            Ok((p, j)) => stops_after_tag(ev@, i as int, j as int, "CompoundPredicate"@) && (
            p matches RawPredicate::Compound { boolean_operator, predicates } && tag_attr(
                *start,
                "booleanOperator"@,
            ) == Some(boolean_operator@) && predicates_of_children(
                predicate_children(ev@.subrange(i as int, j as int), false),
                predicates@,
            )),
            Err(e) => tag_attr(*start, "booleanOperator"@) is None ==> is_missing_attr(
                e,
                "CompoundPredicate"@,
                "booleanOperator"@,
            ),
        },
        element_named(ev@, i as int, "CompoundPredicate"@) && attrs_complete(ev@, i as int) && tag_attr(*start, "booleanOperator"@) is Some ==> (r matches Ok((_, j)) && j <= closing(ev@, i - 1) + 1),
{
    let boolean_operator = attr_required(start, "booleanOperator", "CompoundPredicate")?;
    let (predicates, j) = parse_simple_compound_children(ev, i, false)?;
    Ok((RawPredicate::Compound { boolean_operator, predicates }, j))
}

/// How a simple rule is read from its tag: its `score` and `id`.
pub open spec fn simple_rule_tag() -> spec_fn(XmlTag, RawSimpleRule) -> bool {
    |t: XmlTag, s: RawSimpleRule| tag_attr(t, "score"@) == Some(s.score@) && opt_view(s.id) == tag_attr(t, "id"@)
}

/// A `SimpleRule` whose start tag was just read: `score` is required; its
/// predicate is the last simple or compound predicate read, up to its end
/// tag, and always true when there is none.
fn parse_simple_rule(ev: &Vec<XmlEvent>, i: usize, start: &XmlTag) -> (r: Result<
    (RawSimpleRule, usize),
    PmmlError,
>)
    requires
        i <= ev@.len(),
    ensures
        match r {
            Ok((s, j)) => stops_after_tag(ev@, i as int, j as int, "SimpleRule"@)
            && (s.predicate is True || exists|p: int| i <= p < j && #[trigger] predicate_read_at(ev@, p, s.predicate))
                && tag_attr(*start, "score"@) == Some(
                s.score@,
            ) && opt_view(s.id) == tag_attr(*start, "id"@),
            Err(e) => tag_attr(*start, "score"@) is None ==> is_missing_attr(
                e,
                "SimpleRule"@,
                "score"@,
            ),
        },
        element_named(ev@, i as int, "SimpleRule"@) && attrs_complete(ev@, i as int) && tag_attr(*start, "score"@) is Some ==> (r matches Ok((_, j)) && j <= closing(ev@, i - 1) + 1),
{
    let id = attr(start, "id");
    let score = attr_required(start, "score", "SimpleRule")?;
    let mut predicate = RawPredicate::True;
    let ghost mut pred_at: int = 0;
    let mut k = i;
    proof {
        if element_named(ev@, i as int, "SimpleRule"@) {
            lemma_closing(ev@, i - 1);
        }
    }
    loop
        invariant_except_break
            element_named(ev@, i as int, "SimpleRule"@) && attrs_complete(ev@, i as int) && tag_attr(*start, "score"@) is Some ==> k <= closing(ev@, i - 1) && closes_at(ev@, i - 1, closing(ev@, i - 1)),
            i <= k <= ev@.len(),
            tag_attr(*start, "score"@) == Some(score@),
            opt_view(id) == tag_attr(*start, "id"@),
            predicate is True || (i <= pred_at < k && predicate_read_at(ev@, pred_at, predicate)),
        ensures
            element_named(ev@, i as int, "SimpleRule"@) && attrs_complete(ev@, i as int) && tag_attr(*start, "score"@) is Some ==> k <= closing(ev@, i - 1) + 1,
            i <= k <= ev@.len(),
            tag_attr(*start, "score"@) == Some(score@),
            opt_view(id) == tag_attr(*start, "id"@),
            predicate is True || (i <= pred_at < k && predicate_read_at(ev@, pred_at, predicate)),
            i < k && is_end_named(ev@[k - 1], "SimpleRule"@),
            predicate is True || (i <= pred_at < k && predicate_read_at(ev@, pred_at, predicate)),
        decreases ev@.len() - k,
    {
        proof {
            if element_named(ev@, i as int, "SimpleRule"@) && attrs_complete(ev@, i as int) && tag_attr(*start, "score"@) is Some {
                lemma_nested_step(ev@, i as int, k as int);
                assert(!node_part_lacks_at(ev@, k as int));
            }
        }
        if end_at(ev, k) {
            return Err(unexpected_end());
        }
        let ghost here = k as int;
        match &ev[k] {
            XmlEvent::Start(t) => {
                k = k + 1;
                if name_is(&t.name, "CompoundPredicate") {
                    let (p, j) = parse_rule_compound(ev, k, t)?;
                    predicate = p;
                    proof {
                        pred_at = here;
                        lemma_predicate_names();
                    }
                    k = j;
                } else if name_is(&t.name, "SimplePredicate") {
                    predicate = parse_simple_predicate(t)?;
                    proof {
                        pred_at = here;
                        lemma_predicate_names();
                    }
                }
            },
            XmlEvent::Empty(t) => {
                k = k + 1;
                if name_is(&t.name, "SimplePredicate") {
                    predicate = parse_simple_predicate(t)?;
                    proof {
                        pred_at = here;
                        lemma_predicate_names();
                    }
                }
            },
            XmlEvent::End(n) => {
                k = k + 1;
                if name_is(n, "SimpleRule") {
                    break;
                }
            },
            _ => {
                k = k + 1;
            },
        }
    }
    proof {
        if !(predicate is True) {
            assert(predicate_read_at(ev@, pred_at, predicate));
        }
    }
    Ok((RawSimpleRule { id, score, predicate }, k))
}

/// Whether `s` holds the attributes of `RuleSet` tag `t`.
pub open spec fn rule_set_of(t: XmlTag, s: RawRuleSet) -> bool {
    &&& opt_view(s.record_count) == tag_attr(t, "recordCount"@)
    &&& opt_view(s.nb_correct) == tag_attr(t, "nbCorrect"@)
    &&& opt_view(s.default_score) == tag_attr(t, "defaultScore"@)
}

/// A `RuleSet` whose start tag was just read: its `SimpleRule` elements, up
/// to its end tag.
pub fn parse_rule_set(ev: &Vec<XmlEvent>, i: usize, start: &XmlTag) -> (r: Result<
    (RawRuleSet, usize),
    PmmlError,
>)
    requires
        i <= ev@.len(),
    ensures
        r matches Ok((s, j)) ==> read_each_reached(ev@, i as int, j as int, s.rules@, "SimpleRule"@, simple_rule_tag())
                && read_in_order(ev@, i as int, j as int, s.rules@, "SimpleRule"@, simple_rule_tag())
            && stops_after_tag(ev@, i as int, j as int, "RuleSet"@)
            && rule_set_of(*start, s),
        childless(ev@, i as int, "RuleSet"@) ==> r is Ok,
        element_named(ev@, i as int, "RuleSet"@) && attrs_complete(ev@, i as int) ==> (r matches Ok((_, j)) && j <= closing(ev@, i - 1) + 1),
{
    let record_count = attr(start, "recordCount");
    let nb_correct = attr(start, "nbCorrect");
    let default_score = attr(start, "defaultScore");
    let mut rules: Vec<RawSimpleRule> = Vec::new();
    let ghost mut rules_at: Seq<int> = Seq::empty();
    let ghost q: int = if childless(ev@, i as int, "RuleSet"@) {
        choose|q: int| plain_until(ev@, i as int, q, "RuleSet"@)
    } else {
        0
    };
    let ghost mut spans: Seq<(int, int)> = Seq::empty();
    let mut k = i;
    proof {
        if element_named(ev@, i as int, "RuleSet"@) {
            lemma_closing(ev@, i - 1);
        }
    }
    loop
        invariant_except_break
            element_named(ev@, i as int, "RuleSet"@) && attrs_complete(ev@, i as int) ==> k <= closing(ev@, i - 1) && closes_at(ev@, i - 1, closing(ev@, i - 1)),
            i <= k <= ev@.len(),
            spans_ok(ev@, spans, i as int, k as int),
            covers_level(ev@, i as int, k as int, rules_at, spans, "SimpleRule"@),
            read_at_positions(ev@, i as int, rules_at, rules@, "SimpleRule"@, simple_rule_tag()),
            rules_at.len() > 0 ==> rules_at.last() < k,
            childless(ev@, i as int, "RuleSet"@) ==> plain_until(ev@, i as int, q, "RuleSet"@) && k <= q,
        ensures
            element_named(ev@, i as int, "RuleSet"@) && attrs_complete(ev@, i as int) ==> k <= closing(ev@, i - 1) + 1,
            i < k && is_end_named(ev@[k - 1], "RuleSet"@),
            spans_ok(ev@, spans, i as int, k as int),
            covers_level(ev@, i as int, k as int, rules_at, spans, "SimpleRule"@),
            read_at_positions(ev@, i as int, rules_at, rules@, "SimpleRule"@, simple_rule_tag()),
            rules_at.len() > 0 ==> rules_at.last() < k,
            i <= k <= ev@.len(),
        decreases ev@.len() - k,
    {
        proof {
            if childless(ev@, i as int, "RuleSet"@) && k < q {
                assert(plain_event(ev@[k as int], "RuleSet"@));
            }
        }
        proof {
            if element_named(ev@, i as int, "RuleSet"@) && attrs_complete(ev@, i as int) {
                lemma_nested_step(ev@, i as int, k as int);
            }
        }
        if end_at(ev, k) {
            return Err(unexpected_end());
        }
        let ghost here = k as int;
        let ghost rules_at0 = rules_at;
        let ghost mut stepped = false;
        proof {
            reveal_strlit("SimpleRule");
        }
        match &ev[k] {
            XmlEvent::Start(t) => {
                k = k + 1;
                if name_is(&t.name, "SimpleRule") {
                    let (s, j) = parse_simple_rule(ev, k, t)?;
                    let item = s;
                    proof {
                        lemma_read_push(ev@, i as int, rules_at, rules@, "SimpleRule"@, simple_rule_tag(), here, item);
                        rules_at = rules_at.push(here);
                    }
                    rules.push(item);
                    k = j;
                }
            },
            XmlEvent::End(n) => {
                k = k + 1;
                proof {
                    lemma_covers_level_step(ev@, i as int, here, k as int, rules_at0, rules_at, spans, "SimpleRule"@);
                    spans = span_step(spans, here, k as int);
                    stepped = true;
                }
                if name_is(n, "RuleSet") {
                    break;
                }
            },
            _ => {
                k = k + 1;
            },
        }
        proof {
            if !stepped {
                lemma_covers_level_step(ev@, i as int, here, k as int, rules_at0, rules_at, spans, "SimpleRule"@);
                spans = span_step(spans, here, k as int);
            }
        }
    }
    proof {
        lemma_read_each_reached(ev@, i as int, k as int, rules_at, spans, rules@, "SimpleRule"@, simple_rule_tag());
    }
    proof {
        lemma_read_in_order(ev@, i as int, k as int, rules_at, rules@, "SimpleRule"@, simple_rule_tag());
    }
    Ok((RawRuleSet { record_count, nb_correct, default_score, rules }, k))
}

/// How a `RuleSet` is read from its tag.
pub open spec fn rule_set_tag() -> spec_fn(XmlTag, RawRuleSet) -> bool {
    |t: XmlTag, s: RawRuleSet| rule_set_of(t, s)
}

/// Whether the rule set `s` was read from a `RuleSet` tag within `[i, j)`,
/// with its rules in document order.
pub open spec fn rule_set_read(ev: Seq<XmlEvent>, i: int, j: int, s: RawRuleSet) -> bool {
    &&& read_in_order(ev, i, j, seq![s], "RuleSet"@, rule_set_tag())
    &&& read_in_order(ev, i, j, s.rules@, "SimpleRule"@, simple_rule_tag())
}

/// Whether `m` holds the attributes of `RuleSetModel` tag `t`.
pub open spec fn rule_set_model_of(t: XmlTag, m: RawRuleSetModel) -> bool {
    &&& tag_attr(t, "functionName"@) == Some(m.function_name@)
    &&& m.output@.len() == 0
    &&& m.targets@.len() == 0
}

/// A `RuleSetModel` whose start tag was just read, up to its end tag or the
/// end of the document: `functionName` is required; the last `RuleSet` read
/// is kept.
pub fn parse_rule_set_model(ev: &Vec<XmlEvent>, i: usize, start: &XmlTag) -> (r: Result<
    (RawRuleSetModel, usize),
    PmmlError,
>)
    requires
        0 < i <= ev@.len(),
    ensures
        match r {
            Ok((m, j)) => read_each_section(ev@, i as int, j as int, m.local_derived_fields@, "LocalTransformations"@, "DerivedField"@, derived_field_tag())
                && read_each_section(ev@, i as int, j as int, m.mining_schema@, "MiningSchema"@, "MiningField"@, mining_field_tag())
                && read_in_order(ev@, i as int, j as int, m.local_derived_fields@, "DerivedField"@, derived_field_tag()) && read_in_order(ev@, i as int, j as int, m.mining_schema@, "MiningField"@, mining_field_tag())
                && (m.rule_set matches Some(s) ==> rule_set_read(ev@, i as int, j as int, s))
                && stops_at_end_or_tag(ev@, i as int, j as int, "RuleSetModel"@)
                && rule_set_model_of(*start, m),
            Err(e) => tag_attr(*start, "functionName"@) is None ==> is_missing_attr(
                e,
                "RuleSetModel"@,
                "functionName"@,
            ),
        },
        element_named(ev@, i as int, "RuleSetModel"@) && model_readable(ev@, i as int, *start, "RuleSetModel"@) ==> (r matches Ok((_, j)) && j <= closing(ev@, i - 1) + 1),
{
    let function_name = attr_required(start, "functionName", "RuleSetModel")?;
    let mut mining_schema: Vec<RawMiningField> = Vec::new();
    let ghost mut schema_at: Seq<int> = Seq::empty();
    let mut rule_set: Option<RawRuleSet> = None;
    let ghost mut rule_set_hi: int = i as int;
    let mut local_derived_fields: Vec<RawDerivedField> = Vec::new();
    let ghost mut local_derived_fields_at: Seq<int> = Seq::empty();
    let ghost mut ms_secs: Seq<int> = Seq::empty();
    let ghost mut ms_ends: Seq<int> = Seq::empty();
    let ghost mut ms_parts: Seq<Seq<RawMiningField>> = Seq::empty();
    let ghost mut ms_spans: Seq<(int, int)> = Seq::empty();
    proof {
        assert(ms_parts.flatten() =~= Seq::<RawMiningField>::empty());
    }
    let ghost mut ldf_secs: Seq<int> = Seq::empty();
    let ghost mut ldf_ends: Seq<int> = Seq::empty();
    let ghost mut ldf_parts: Seq<Seq<RawDerivedField>> = Seq::empty();
    let ghost mut ldf_spans: Seq<(int, int)> = Seq::empty();
    proof {
        assert(ldf_parts.flatten() =~= Seq::<RawDerivedField>::empty());
    }
    let mut k = i;
    proof {
        if element_named(ev@, i as int, "RuleSetModel"@) {
            lemma_closing(ev@, i - 1);
        }
    }
    loop
        invariant_except_break
            element_named(ev@, i as int, "RuleSetModel"@) && model_readable(ev@, i as int, *start, "RuleSetModel"@) ==> k <= closing(ev@, i - 1) && closes_at(ev@, i - 1, closing(ev@, i - 1)),
            0 < i <= k <= ev@.len(),
            sections_read(ev@, i as int, k as int, ldf_secs, ldf_ends, ldf_parts, "LocalTransformations"@, "DerivedField"@, derived_field_tag()),
            covers_level(ev@, i as int, k as int, ldf_secs, ldf_spans, "LocalTransformations"@),
            spans_ok(ev@, ldf_spans, i as int, k as int),
            local_derived_fields@ == ldf_parts.flatten(),
            sections_read(ev@, i as int, k as int, ms_secs, ms_ends, ms_parts, "MiningSchema"@, "MiningField"@, mining_field_tag()),
            covers_level(ev@, i as int, k as int, ms_secs, ms_spans, "MiningSchema"@),
            spans_ok(ev@, ms_spans, i as int, k as int),
            mining_schema@ == ms_parts.flatten(),
            tag_attr(*start, "functionName"@) == Some(function_name@),
            read_at_positions(ev@, i as int, schema_at, mining_schema@, "MiningField"@, mining_field_tag()),
            schema_at.len() > 0 ==> schema_at.last() < k,
            read_at_positions(ev@, i as int, local_derived_fields_at, local_derived_fields@, "DerivedField"@, derived_field_tag()),
            local_derived_fields_at.len() > 0 ==> local_derived_fields_at.last() < k,
            rule_set matches Some(s) ==> rule_set_hi <= k && rule_set_read(ev@, i as int, rule_set_hi, s),
        ensures
            element_named(ev@, i as int, "RuleSetModel"@) && model_readable(ev@, i as int, *start, "RuleSetModel"@) ==> k <= closing(ev@, i - 1) + 1,
            0 < i <= k <= ev@.len(),
            sections_read(ev@, i as int, k as int, ldf_secs, ldf_ends, ldf_parts, "LocalTransformations"@, "DerivedField"@, derived_field_tag()),
            covers_level(ev@, i as int, k as int, ldf_secs, ldf_spans, "LocalTransformations"@),
            spans_ok(ev@, ldf_spans, i as int, k as int),
            local_derived_fields@ == ldf_parts.flatten(),
            sections_read(ev@, i as int, k as int, ms_secs, ms_ends, ms_parts, "MiningSchema"@, "MiningField"@, mining_field_tag()),
            covers_level(ev@, i as int, k as int, ms_secs, ms_spans, "MiningSchema"@),
            spans_ok(ev@, ms_spans, i as int, k as int),
            mining_schema@ == ms_parts.flatten(),
            tag_attr(*start, "functionName"@) == Some(function_name@),
            read_at_positions(ev@, i as int, schema_at, mining_schema@, "MiningField"@, mining_field_tag()),
            schema_at.len() > 0 ==> schema_at.last() < k,
            read_at_positions(ev@, i as int, local_derived_fields_at, local_derived_fields@, "DerivedField"@, derived_field_tag()),
            local_derived_fields_at.len() > 0 ==> local_derived_fields_at.last() < k,
            rule_set matches Some(s) ==> rule_set_hi <= k && rule_set_read(ev@, i as int, rule_set_hi, s),
            at_end(ev@, k as int) || (i < k && is_end_named(ev@[k - 1], "RuleSetModel"@)),
            sections_read(ev@, i as int, k as int, ldf_secs, ldf_ends, ldf_parts, "LocalTransformations"@, "DerivedField"@, derived_field_tag()),
            covers_level(ev@, i as int, k as int, ldf_secs, ldf_spans, "LocalTransformations"@),
            spans_ok(ev@, ldf_spans, i as int, k as int),
            local_derived_fields@ == ldf_parts.flatten(),
            sections_read(ev@, i as int, k as int, ms_secs, ms_ends, ms_parts, "MiningSchema"@, "MiningField"@, mining_field_tag()),
            covers_level(ev@, i as int, k as int, ms_secs, ms_spans, "MiningSchema"@),
            spans_ok(ev@, ms_spans, i as int, k as int),
            mining_schema@ == ms_parts.flatten(),
            read_at_positions(ev@, i as int, schema_at, mining_schema@, "MiningField"@, mining_field_tag()),
            schema_at.len() > 0 ==> schema_at.last() < k,
            read_at_positions(ev@, i as int, local_derived_fields_at, local_derived_fields@, "DerivedField"@, derived_field_tag()),
            local_derived_fields_at.len() > 0 ==> local_derived_fields_at.last() < k,
            rule_set matches Some(s) ==> rule_set_hi <= k && rule_set_read(ev@, i as int, rule_set_hi, s),
        decreases ev@.len() - k,
    {
        proof {
            if element_named(ev@, i as int, "RuleSetModel"@) && model_readable(ev@, i as int, *start, "RuleSetModel"@) {
                lemma_nested_step(ev@, i as int, k as int);
                if k < closing(ev@, i - 1) {
                    assert(!start_named_at(ev@, k as int, "LocalTransformations"@));
                    assert(!is_end_named(ev@[k as int], "RuleSetModel"@));
                }
            }
        }
        if end_at(ev, k) {
            break;
        }
        let ghost ldf_here = k as int;
        let ghost ldf_secs0 = ldf_secs;
        let ghost mut ldf_stepped = false;
        proof {
            reveal_strlit("LocalTransformations");
            reveal_strlit("MiningSchema");
            reveal_strlit("RuleSet");
            assert("LocalTransformations"@ != "MiningSchema"@) by { assert("LocalTransformations"@.len() != "MiningSchema"@.len()); }
            assert("LocalTransformations"@ != "RuleSet"@) by { assert("LocalTransformations"@.len() != "RuleSet"@.len()); }
        }
        let ghost ms_here = k as int;
        let ghost ms_secs0 = ms_secs;
        let ghost mut ms_stepped = false;
        proof {
            reveal_strlit("LocalTransformations");
            reveal_strlit("MiningSchema");
            reveal_strlit("RuleSet");
            assert("MiningSchema"@ != "LocalTransformations"@) by { assert("MiningSchema"@.len() != "LocalTransformations"@.len()); }
            assert("MiningSchema"@ != "RuleSet"@) by { assert("MiningSchema"@.len() != "RuleSet"@.len()); }
        }
        let ghost here = k as int;
        match &ev[k] {
            XmlEvent::Start(t) => {
                k = k + 1;
                if name_is(&t.name, "MiningSchema") {
                    let ghost ms_before = mining_schema@;
                    let (mut fields, j) = parse_mining_schema(ev, k, false)?;
                    let ghost ms_ys = fields@;
                    proof {
                        schema_at = lemma_read_extend(ev@, i as int, schema_at, mining_schema@, "MiningField"@, mining_field_tag(), k as int, j as int, fields@);
                    }
                    mining_schema.append(&mut fields);
                    proof {
                        assert(mining_schema@ =~= ms_before + ms_ys);
                        lemma_sections_push(ev@, i as int, ms_here, j as int, ms_secs, ms_ends, ms_parts, ms_ys, "MiningSchema"@, "MiningField"@, mining_field_tag());
                        lemma_covers_level_step(ev@, i as int, ms_here, j as int, ms_secs0, ms_secs0.push(ms_here), ms_spans, "MiningSchema"@);
                        ms_secs = ms_secs.push(ms_here);
                        ms_ends = ms_ends.push(j as int);
                        ms_parts = ms_parts.push(ms_ys);
                        ms_spans = span_step(ms_spans, ms_here, j as int);
                        ms_stepped = true;
                    }
                    k = j;
                } else if name_is(&t.name, "RuleSet") {
                    let (s, j) = parse_rule_set(ev, k, t)?;
                    proof {
                        lemma_read_one(ev@, i as int, j as int, here, s, "RuleSet"@, rule_set_tag());
                        lemma_read_widen(ev@, k as int, j as int, i as int, j as int, s.rules@, "SimpleRule"@, simple_rule_tag());
                        rule_set_hi = j as int;
                    }
                    rule_set = Some(s);
                    k = j;
                } else if name_is(&t.name, "LocalTransformations") {
                    let ghost ldf_before = local_derived_fields@;
                    let (mut fields, j) = parse_local_transformations(ev, k)?;
                    let ghost ldf_ys = fields@;
                    proof {
                        local_derived_fields_at = lemma_read_extend(ev@, i as int, local_derived_fields_at, local_derived_fields@, "DerivedField"@, derived_field_tag(), k as int, j as int, fields@);
                    }
                    local_derived_fields.append(&mut fields);
                    proof {
                        assert(local_derived_fields@ =~= ldf_before + ldf_ys);
                        lemma_sections_push(ev@, i as int, ldf_here, j as int, ldf_secs, ldf_ends, ldf_parts, ldf_ys, "LocalTransformations"@, "DerivedField"@, derived_field_tag());
                        lemma_covers_level_step(ev@, i as int, ldf_here, j as int, ldf_secs0, ldf_secs0.push(ldf_here), ldf_spans, "LocalTransformations"@);
                        ldf_secs = ldf_secs.push(ldf_here);
                        ldf_ends = ldf_ends.push(j as int);
                        ldf_parts = ldf_parts.push(ldf_ys);
                        ldf_spans = span_step(ldf_spans, ldf_here, j as int);
                        ldf_stepped = true;
                    }
                    k = j;
                }
            },
            XmlEvent::End(n) => {
                k = k + 1;
                proof {
                    lemma_covers_level_step(ev@, i as int, ldf_here, k as int, ldf_secs0, ldf_secs0, ldf_spans, "LocalTransformations"@);
                    lemma_sections_widen(ev@, i as int, ldf_here, k as int, ldf_secs, ldf_ends, ldf_parts, "LocalTransformations"@, "DerivedField"@, derived_field_tag());
                    ldf_spans = span_step(ldf_spans, ldf_here, k as int);
                    ldf_stepped = true;
                }
                proof {
                    lemma_covers_level_step(ev@, i as int, ms_here, k as int, ms_secs0, ms_secs0, ms_spans, "MiningSchema"@);
                    lemma_sections_widen(ev@, i as int, ms_here, k as int, ms_secs, ms_ends, ms_parts, "MiningSchema"@, "MiningField"@, mining_field_tag());
                    ms_spans = span_step(ms_spans, ms_here, k as int);
                    ms_stepped = true;
                }
                if name_is(n, "RuleSetModel") {
                    break;
                }
            },
            _ => {
                k = k + 1;
            },
        }
        proof {
            if !ldf_stepped {
                lemma_covers_level_step(ev@, i as int, ldf_here, k as int, ldf_secs0, ldf_secs0, ldf_spans, "LocalTransformations"@);
                lemma_sections_widen(ev@, i as int, ldf_here, k as int, ldf_secs, ldf_ends, ldf_parts, "LocalTransformations"@, "DerivedField"@, derived_field_tag());
                ldf_spans = span_step(ldf_spans, ldf_here, k as int);
                ldf_stepped = true;
            }
        }
        proof {
            if !ms_stepped {
                lemma_covers_level_step(ev@, i as int, ms_here, k as int, ms_secs0, ms_secs0, ms_spans, "MiningSchema"@);
                lemma_sections_widen(ev@, i as int, ms_here, k as int, ms_secs, ms_ends, ms_parts, "MiningSchema"@, "MiningField"@, mining_field_tag());
                ms_spans = span_step(ms_spans, ms_here, k as int);
                ms_stepped = true;
            }
        }
    }
    proof {
        if rule_set is Some {
            lemma_read_widen(ev@, i as int, rule_set_hi, i as int, k as int, seq![rule_set->0], "RuleSet"@, rule_set_tag());
            lemma_read_widen(ev@, i as int, rule_set_hi, i as int, k as int, rule_set->0.rules@, "SimpleRule"@, simple_rule_tag());
        }
        lemma_read_in_order(ev@, i as int, k as int, schema_at, mining_schema@, "MiningField"@, mining_field_tag());
    }
    proof {
        lemma_read_in_order(ev@, i as int, k as int, local_derived_fields_at, local_derived_fields@, "DerivedField"@, derived_field_tag());
    }
    Ok((RawRuleSetModel {
        function_name,
        mining_schema,
        output: Vec::new(),
        targets: Vec::new(),
        rule_set,
        local_derived_fields,
    }, k))
}

} // verus!
