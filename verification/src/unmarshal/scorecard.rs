//! `Scorecard`: characteristics and their scored attributes.

use vstd::prelude::*;
use crate::unmarshal::tree::{node_part_lacks_at};
use crate::unmarshal::cursor::{start_named_at, last_tag_reached, lemma_last_tag_start, lemma_last_tag_step, lemma_last_tag_is, lemma_nothing_reached, in_span, nested_span};
use crate::unmarshal::nesting::{closing, closes_at, lemma_nested_step, lemma_closing, model_readable, attrs_complete};
use crate::error::PmmlError;
use crate::xml::{XmlEvent, XmlTag, attr, attr_required, tag_attr, opt_view, is_missing_attr, name_is};
use crate::unmarshal::raw::{
    RawScorecard, RawCharacteristic, RawAttribute, RawPredicate, RawMiningField, RawOutputField,
    RawDerivedField,
};
use crate::unmarshal::common::{predicate_read_at, predicate_from, lemma_predicate_names, output_field_tag, opt_flag, parse_simple_predicate, parse_mining_schema, parse_output, mining_field_tag};
use crate::unmarshal::expr::{parse_local_transformations, derived_field_tag};
use crate::unmarshal::mining::{parse_simple_compound_children, compound_pred_from, simple_compound_from};
use crate::unmarshal::cursor::{
    element_named, tags_carry,
    sections_read, read_each_section, lemma_sections_push, lemma_sections_widen,
    spans_ok, covers_level, read_each_reached, lemma_covers_level_step, span_step, lemma_read_each_reached,
    end_at, skip_one, unexpected_end, stops_after_tag, is_end_named, stops_at_end_or_tag, at_end, read_at_positions, read_in_order, lemma_read_extend, lemma_read_in_order, lemma_read_push, childless, plain_until, plain_event,
};

verus! {

/// How a scorecard attribute is read from its tag: its `partialScore` and
/// `reasonCode`.
pub open spec fn attribute_tag() -> spec_fn(XmlTag, RawAttribute) -> bool {
    |t: XmlTag, a: RawAttribute|
        opt_view(a.partial_score) == tag_attr(t, "partialScore"@) && opt_view(a.reason_code) == tag_attr(
            t,
            "reasonCode"@,
        )
}

/// Whether event `e` is a predicate tag that an `Attribute` reads: a
/// `SimplePredicate` start or empty-element tag, or a `CompoundPredicate`
/// start tag.
pub open spec fn is_attribute_pred_tag(e: XmlEvent) -> bool {
    match e {
        XmlEvent::Start(t) => t.name@ == "SimplePredicate"@ || t.name@ == "CompoundPredicate"@,
        XmlEvent::Empty(t) => t.name@ == "SimplePredicate"@,
        _ => false,
    }
}

/// [`is_attribute_pred_tag`] as a value.
pub open spec fn attribute_pred_tag() -> spec_fn(XmlEvent) -> bool {
    |e: XmlEvent| is_attribute_pred_tag(e)
}

/// Whether `pred` is the predicate of the last simple or compound predicate
/// tag that reading reached in `[lo, hi)`, or `True` when it reached none.
pub open spec fn attribute_predicate_read(ev: Seq<XmlEvent>, lo: int, hi: int, pred: RawPredicate) -> bool {
    exists|pa: int, spans: Seq<(int, int)>|
        #[trigger] last_tag_reached(ev, lo, hi, spans, pa, attribute_pred_tag(), attribute_pred_tag()) && compound_pred_from(ev, pa, pred, false)
}

/// An `Attribute` whose start tag was just read: its partial score text,
/// reason code and predicate (the last simple or compound predicate read;
/// `True` when there is none), up to its end tag.
fn parse_attribute(ev: &Vec<XmlEvent>, i: usize, start: &XmlTag) -> (r: Result<(RawAttribute, usize), PmmlError>)
    requires
        i <= ev@.len(),
    ensures
        r matches Ok((a, j)) ==> stops_after_tag(ev@, i as int, j as int, "Attribute"@)
            && (a.predicate is True || exists|p: int| i <= p < j && #[trigger] predicate_read_at(ev@, p, a.predicate))
            && attribute_predicate_read(ev@, i as int, j as int, a.predicate)
            && opt_view(a.partial_score)
            == tag_attr(*start, "partialScore"@) && opt_view(a.reason_code) == tag_attr(
            *start,
            "reasonCode"@,
        ),
        childless(ev@, i as int, "Attribute"@) ==> r is Ok,
        element_named(ev@, i as int, "Attribute"@) && attrs_complete(ev@, i as int) ==> (r matches Ok((_, j)) && j <= closing(ev@, i - 1) + 1),
{
    let partial_score = attr(start, "partialScore");
    let reason_code = attr(start, "reasonCode");
    let mut predicate = RawPredicate::True;
    let ghost mut pred_at: int = 0;
    let ghost mut pa: int = -1;
    let ghost mut spans: Seq<(int, int)> = Seq::empty();
    proof {
        lemma_last_tag_start(ev@, i as int, attribute_pred_tag(), attribute_pred_tag());
    }
    let ghost q: int = if childless(ev@, i as int, "Attribute"@) {
        choose|q: int| plain_until(ev@, i as int, q, "Attribute"@)
    } else {
        0
    };
    let mut k = i;
    proof {
        if element_named(ev@, i as int, "Attribute"@) {
            lemma_closing(ev@, i - 1);
        }
    }
    loop
        invariant_except_break
            element_named(ev@, i as int, "Attribute"@) && attrs_complete(ev@, i as int) ==> k <= closing(ev@, i - 1) && closes_at(ev@, i - 1, closing(ev@, i - 1)),
            i <= k <= ev@.len(),
            predicate is True || (i <= pred_at < k && predicate_read_at(ev@, pred_at, predicate)),
            last_tag_reached(ev@, i as int, k as int, spans, pa, attribute_pred_tag(), attribute_pred_tag()),
            compound_pred_from(ev@, pa, predicate, false),
            childless(ev@, i as int, "Attribute"@) ==> plain_until(ev@, i as int, q, "Attribute"@) && k <= q,
        ensures
            element_named(ev@, i as int, "Attribute"@) && attrs_complete(ev@, i as int) ==> k <= closing(ev@, i - 1) + 1,
            i < k && is_end_named(ev@[k - 1], "Attribute"@),
            predicate is True || (i <= pred_at < k && predicate_read_at(ev@, pred_at, predicate)),
            last_tag_reached(ev@, i as int, k as int, spans, pa, attribute_pred_tag(), attribute_pred_tag()),
            compound_pred_from(ev@, pa, predicate, false),
            i <= k <= ev@.len(),
        decreases ev@.len() - k,
    {
        proof {
            if childless(ev@, i as int, "Attribute"@) && k < q {
                assert(plain_event(ev@[k as int], "Attribute"@));
            }
        }
        proof {
            if element_named(ev@, i as int, "Attribute"@) && attrs_complete(ev@, i as int) {
                lemma_nested_step(ev@, i as int, k as int);
                assert(!node_part_lacks_at(ev@, k as int));
            }
        }
        if end_at(ev, k) {
            return Err(unexpected_end());
        }
        let ghost here = k as int;
        proof {
            reveal_strlit("SimplePredicate");
            reveal_strlit("CompoundPredicate");
            reveal_strlit("Attribute");
        }
        match &ev[k] {
            XmlEvent::Start(t) => {
                k = k + 1;
                if name_is(&t.name, "SimplePredicate") {
                    predicate = parse_simple_predicate(t)?;
                    proof {
                        pred_at = here;
                        lemma_predicate_names();
                    }
                    k = skip_one(ev, k);
                    proof {
                        lemma_last_tag_step(ev@, i as int, here, k as int, spans, pa, here, attribute_pred_tag(), attribute_pred_tag());
                        spans = span_step(spans, here, k as int);
                        pa = here;
                    }
                } else if name_is(&t.name, "CompoundPredicate") {
                    let boolean_operator = attr_required(t, "booleanOperator", "CompoundPredicate")?;
                    let (predicates, j) = parse_simple_compound_children(ev, k, false)?;
                    let ghost children = predicates@;
                    predicate = RawPredicate::Compound { boolean_operator, predicates };
                    proof {
                        assert(predicate->predicates@ == children);
                        assert(simple_compound_from(ev@, here + 1, predicate, false));
                    }
                    proof {
                        pred_at = here;
                        lemma_predicate_names();
                    }
                    k = j;
                    proof {
                        lemma_last_tag_step(ev@, i as int, here, k as int, spans, pa, here, attribute_pred_tag(), attribute_pred_tag());
                        spans = span_step(spans, here, k as int);
                        pa = here;
                    }
                } else {
                    proof {
                        lemma_last_tag_step(ev@, i as int, here, k as int, spans, pa, pa, attribute_pred_tag(), attribute_pred_tag());
                        spans = span_step(spans, here, k as int);
                    }
                }
            },
            XmlEvent::Empty(t) => {
                k = k + 1;
                if name_is(&t.name, "SimplePredicate") {
                    predicate = parse_simple_predicate(t)?;
                    proof {
                        pred_at = here;
                        lemma_predicate_names();
                        lemma_last_tag_step(ev@, i as int, here, k as int, spans, pa, here, attribute_pred_tag(), attribute_pred_tag());
                        spans = span_step(spans, here, k as int);
                        pa = here;
                    }
                } else {
                    proof {
                        lemma_last_tag_step(ev@, i as int, here, k as int, spans, pa, pa, attribute_pred_tag(), attribute_pred_tag());
                        spans = span_step(spans, here, k as int);
                    }
                }
            },
            XmlEvent::End(n) => {
                k = k + 1;
                proof {
                    lemma_last_tag_step(ev@, i as int, here, k as int, spans, pa, pa, attribute_pred_tag(), attribute_pred_tag());
                    spans = span_step(spans, here, k as int);
                }
                if name_is(n, "Attribute") {
                    break;
                }
            },
            _ => {
                k = k + 1;
                proof {
                    lemma_last_tag_step(ev@, i as int, here, k as int, spans, pa, pa, attribute_pred_tag(), attribute_pred_tag());
                    spans = span_step(spans, here, k as int);
                }
            },
        }
    }
    proof {
        if !(predicate is True) {
            assert(predicate_read_at(ev@, pred_at, predicate));
        }
    }
    Ok((RawAttribute { partial_score, predicate, reason_code }, k))
}

/// An attribute's predicate is `True` exactly when its content holds no
/// simple or compound predicate tag.
pub proof fn law_attribute_true_iff_no_predicate(ev: Seq<XmlEvent>, lo: int, hi: int, pred: RawPredicate)
    requires
        attribute_predicate_read(ev, lo, hi, pred),
        0 <= lo <= hi <= ev.len(),
    ensures
        (pred is True) <==> (forall|q: int| lo <= q < hi ==> !is_attribute_pred_tag(#[trigger] ev[q])),
{
    let (pa, spans) = choose|pa: int, spans: Seq<(int, int)>|
        #[trigger] last_tag_reached(ev, lo, hi, spans, pa, attribute_pred_tag(), attribute_pred_tag()) && compound_pred_from(ev, pa, pred, false);
    lemma_predicate_names();
    reveal_strlit("SimplePredicate");
    reveal_strlit("CompoundPredicate");
    reveal_strlit("True");
    if pa == -1 {
        assert forall|q: int| lo <= q < hi implies !is_attribute_pred_tag(#[trigger] ev[q]) by {
            lemma_nothing_reached(ev, lo, hi, spans, attribute_pred_tag(), attribute_pred_tag(), q);
        }
    } else {
        assert(is_attribute_pred_tag(ev[pa]));
        assert(predicate_read_at(ev, pa, pred));
        assert(!(pred is True));
    }
}

/// An attribute whose content holds exactly one simple or compound
/// predicate tag, at `p`, has the predicate that tag gives.
pub proof fn law_attribute_single_predicate(ev: Seq<XmlEvent>, lo: int, hi: int, pred: RawPredicate, p: int)
    requires
        attribute_predicate_read(ev, lo, hi, pred),
        0 <= lo <= p < hi <= ev.len(),
        is_attribute_pred_tag(ev[p]),
        forall|q: int| lo <= q < hi && q != p ==> !is_attribute_pred_tag(#[trigger] ev[q]),
    ensures
        predicate_read_at(ev, p, pred),
        !(pred is True),
{
    let (pa, spans) = choose|pa: int, spans: Seq<(int, int)>|
        #[trigger] last_tag_reached(ev, lo, hi, spans, pa, attribute_pred_tag(), attribute_pred_tag()) && compound_pred_from(ev, pa, pred, false);
    lemma_last_tag_is(ev, lo, hi, spans, pa, attribute_pred_tag(), attribute_pred_tag(), p);
    lemma_predicate_names();
    reveal_strlit("SimplePredicate");
    reveal_strlit("CompoundPredicate");
    reveal_strlit("True");
}

/// Whether `a` is the attribute read at the `Attribute` tag at `p`: its
/// predicate is the one its content gives, up to its end tag.
pub open spec fn attribute_content_read(ev: Seq<XmlEvent>, p: int, a: RawAttribute) -> bool {
    exists|e: int|
        p + 1 < e <= ev.len() && is_end_named(ev[e - 1], "Attribute"@) && #[trigger] attribute_predicate_read(
            ev,
            p + 1,
            e,
            a.predicate,
        )
}

/// Whether the attributes `attrs` were read, in order, from `Attribute`
/// tags from `lo` on, each with the predicate its content gives.
pub open spec fn attributes_read(ev: Seq<XmlEvent>, lo: int, attrs: Seq<RawAttribute>) -> bool {
    exists|at: Seq<int>|
        #[trigger] read_at_positions(ev, lo, at, attrs, "Attribute"@, attribute_tag()) && forall|x: int|
            0 <= x < at.len() ==> #[trigger] attribute_content_read(ev, at[x], attrs[x])
}

/// A `Characteristic` whose start tag was just read: `name` is required; its
/// attributes, up to its end tag.
fn parse_characteristic(ev: &Vec<XmlEvent>, i: usize, start: &XmlTag) -> (r: Result<
    (RawCharacteristic, usize),
    PmmlError,
>)
    requires
        i <= ev@.len(),
    ensures
        r matches Ok((c, j)) ==> read_each_reached(ev@, i as int, j as int, c.attributes@, "Attribute"@, attribute_tag())
                && read_in_order(ev@, i as int, j as int, c.attributes@, "Attribute"@, attribute_tag())
            && attributes_read(ev@, i as int, c.attributes@)
            && stops_after_tag(ev@, i as int, j as int, "Characteristic"@)
            && tag_attr(*start, "name"@)
            == Some(c.name@) && opt_view(c.reason_code) == tag_attr(*start, "reasonCode"@)
            && opt_view(c.baseline_score) == tag_attr(*start, "baselineScore"@),
        childless(ev@, i as int, "Characteristic"@) && tag_attr(*start, "name"@) is Some ==> r is Ok,
        element_named(ev@, i as int, "Characteristic"@) && attrs_complete(ev@, i as int) && tag_attr(*start, "name"@) is Some ==> (r matches Ok((_, j)) && j <= closing(ev@, i - 1) + 1),
{
    let name = attr_required(start, "name", "Characteristic")?;
    let reason_code = attr(start, "reasonCode");
    let baseline_score = attr(start, "baselineScore");
    let mut attributes: Vec<RawAttribute> = Vec::new();
    let ghost mut attributes_at: Seq<int> = Seq::empty();
    let ghost q: int = if childless(ev@, i as int, "Characteristic"@) {
        choose|q: int| plain_until(ev@, i as int, q, "Characteristic"@)
    } else {
        0
    };
    let ghost mut spans: Seq<(int, int)> = Seq::empty();
    let mut k = i;
    proof {
        if element_named(ev@, i as int, "Characteristic"@) {
            lemma_closing(ev@, i - 1);
        }
    }
    loop
        invariant_except_break
            element_named(ev@, i as int, "Characteristic"@) && attrs_complete(ev@, i as int) && tag_attr(*start, "name"@) is Some ==> k <= closing(ev@, i - 1) && closes_at(ev@, i - 1, closing(ev@, i - 1)),
            i <= k <= ev@.len(),
            spans_ok(ev@, spans, i as int, k as int),
            covers_level(ev@, i as int, k as int, attributes_at, spans, "Attribute"@),
            read_at_positions(ev@, i as int, attributes_at, attributes@, "Attribute"@, attribute_tag()),
            forall|x: int| 0 <= x < attributes_at.len() ==> #[trigger] attribute_content_read(ev@, attributes_at[x], attributes@[x]),
            attributes_at.len() > 0 ==> attributes_at.last() < k,
            childless(ev@, i as int, "Characteristic"@) ==> plain_until(ev@, i as int, q, "Characteristic"@) && k <= q,
        ensures
            element_named(ev@, i as int, "Characteristic"@) && attrs_complete(ev@, i as int) && tag_attr(*start, "name"@) is Some ==> k <= closing(ev@, i - 1) + 1,
            i < k && is_end_named(ev@[k - 1], "Characteristic"@),
            spans_ok(ev@, spans, i as int, k as int),
            covers_level(ev@, i as int, k as int, attributes_at, spans, "Attribute"@),
            read_at_positions(ev@, i as int, attributes_at, attributes@, "Attribute"@, attribute_tag()),
            forall|x: int| 0 <= x < attributes_at.len() ==> #[trigger] attribute_content_read(ev@, attributes_at[x], attributes@[x]),
            attributes_at.len() > 0 ==> attributes_at.last() < k,
            i <= k <= ev@.len(),
        decreases ev@.len() - k,
    {
        proof {
            if childless(ev@, i as int, "Characteristic"@) && k < q {
                assert(plain_event(ev@[k as int], "Characteristic"@));
            }
        }
        proof {
            if element_named(ev@, i as int, "Characteristic"@) && attrs_complete(ev@, i as int) && tag_attr(*start, "name"@) is Some {
                lemma_nested_step(ev@, i as int, k as int);
            }
        }
        if end_at(ev, k) {
            return Err(unexpected_end());
        }
        let ghost here = k as int;
        let ghost attributes_at0 = attributes_at;
        let ghost mut stepped = false;
        proof {
            reveal_strlit("Attribute");
        }
        match &ev[k] {
            XmlEvent::Start(t) => {
                k = k + 1;
                if name_is(&t.name, "Attribute") {
                    let (a, j) = parse_attribute(ev, k, t)?;
                    let item = a;
                    let ghost before = attributes@;
                    let ghost at_before = attributes_at;
                    proof {
                        assert(attribute_content_read(ev@, here, item));
                        lemma_read_push(ev@, i as int, attributes_at, attributes@, "Attribute"@, attribute_tag(), here, item);
                        attributes_at = attributes_at.push(here);
                    }
                    attributes.push(item);
                    proof {
                        assert forall|x: int| 0 <= x < attributes_at.len() implies #[trigger] attribute_content_read(ev@, attributes_at[x], attributes@[x]) by {
                            if x < at_before.len() {
                                assert(attributes_at[x] == at_before[x] && attributes@[x] == before[x]);
                            }
                        }
                    }
                    k = j;
                }
            },
            XmlEvent::End(n) => {
                k = k + 1;
                proof {
                    lemma_covers_level_step(ev@, i as int, here, k as int, attributes_at0, attributes_at, spans, "Attribute"@);
                    spans = span_step(spans, here, k as int);
                    stepped = true;
                }
                if name_is(n, "Characteristic") {
                    break;
                }
            },
            _ => {
                k = k + 1;
            },
        }
        proof {
            if !stepped {
                lemma_covers_level_step(ev@, i as int, here, k as int, attributes_at0, attributes_at, spans, "Attribute"@);
                spans = span_step(spans, here, k as int);
            }
        }
    }
    proof {
        lemma_read_each_reached(ev@, i as int, k as int, attributes_at, spans, attributes@, "Attribute"@, attribute_tag());
    }
    proof {
        lemma_read_in_order(ev@, i as int, k as int, attributes_at, attributes@, "Attribute"@, attribute_tag());
    }
    proof {
        assert(read_at_positions(ev@, i as int, attributes_at, attributes@, "Attribute"@, attribute_tag()));
    }
    Ok((RawCharacteristic { name, reason_code, baseline_score, attributes }, k))
}

/// How a characteristic is read from its tag: its `name`, `reasonCode` and
/// `baselineScore`.
pub open spec fn characteristic_tag() -> spec_fn(XmlTag, RawCharacteristic) -> bool {
    |t: XmlTag, c: RawCharacteristic|
        tag_attr(t, "name"@) == Some(c.name@) && opt_view(c.reason_code) == tag_attr(t, "reasonCode"@)
            && opt_view(c.baseline_score) == tag_attr(t, "baselineScore"@)
}

/// The `Characteristic` elements of a `Characteristics` section whose start
/// tag was just read, up to its end tag.
fn parse_characteristics(ev: &Vec<XmlEvent>, i: usize) -> (r: Result<
    (Vec<RawCharacteristic>, usize),
    PmmlError,
>)
    requires
        i <= ev@.len(),
    ensures
        r matches Ok((cs, j)) ==> read_each_reached(ev@, i as int, j as int, cs@, "Characteristic"@, characteristic_tag())
                && read_in_order(ev@, i as int, j as int, cs@, "Characteristic"@, characteristic_tag())
            && stops_after_tag(ev@, i as int, j as int, "Characteristics"@),
        childless(ev@, i as int, "Characteristics"@) ==> r is Ok,
        element_named(ev@, i as int, "Characteristics"@) && attrs_complete(ev@, i as int) ==> (r matches Ok((_, j)) && j <= closing(ev@, i - 1) + 1),
{
    let mut characteristics: Vec<RawCharacteristic> = Vec::new();
    let ghost mut characteristics_at: Seq<int> = Seq::empty();
    let ghost q: int = if childless(ev@, i as int, "Characteristics"@) {
        choose|q: int| plain_until(ev@, i as int, q, "Characteristics"@)
    } else {
        0
    };
    let ghost mut spans: Seq<(int, int)> = Seq::empty();
    let mut k = i;
    proof {
        if element_named(ev@, i as int, "Characteristics"@) {
            lemma_closing(ev@, i - 1);
        }
    }
    loop
        invariant_except_break
            element_named(ev@, i as int, "Characteristics"@) && attrs_complete(ev@, i as int) ==> k <= closing(ev@, i - 1) && closes_at(ev@, i - 1, closing(ev@, i - 1)),
            i <= k <= ev@.len(),
            spans_ok(ev@, spans, i as int, k as int),
            covers_level(ev@, i as int, k as int, characteristics_at, spans, "Characteristic"@),
            read_at_positions(ev@, i as int, characteristics_at, characteristics@, "Characteristic"@, characteristic_tag()),
            characteristics_at.len() > 0 ==> characteristics_at.last() < k,
            childless(ev@, i as int, "Characteristics"@) ==> plain_until(ev@, i as int, q, "Characteristics"@) && k <= q,
        ensures
            element_named(ev@, i as int, "Characteristics"@) && attrs_complete(ev@, i as int) ==> k <= closing(ev@, i - 1) + 1,
            i < k && is_end_named(ev@[k - 1], "Characteristics"@),
            spans_ok(ev@, spans, i as int, k as int),
            covers_level(ev@, i as int, k as int, characteristics_at, spans, "Characteristic"@),
            read_at_positions(ev@, i as int, characteristics_at, characteristics@, "Characteristic"@, characteristic_tag()),
            characteristics_at.len() > 0 ==> characteristics_at.last() < k,
            i <= k <= ev@.len(),
        decreases ev@.len() - k,
    {
        proof {
            if childless(ev@, i as int, "Characteristics"@) && k < q {
                assert(plain_event(ev@[k as int], "Characteristics"@));
            }
        }
        proof {
            if element_named(ev@, i as int, "Characteristics"@) && attrs_complete(ev@, i as int) {
                lemma_nested_step(ev@, i as int, k as int);
            }
        }
        if end_at(ev, k) {
            return Err(unexpected_end());
        }
        let ghost here = k as int;
        let ghost characteristics_at0 = characteristics_at;
        let ghost mut stepped = false;
        proof {
            reveal_strlit("Characteristic");
        }
        match &ev[k] {
            XmlEvent::Start(t) => {
                k = k + 1;
                if name_is(&t.name, "Characteristic") {
                    let (c, j) = parse_characteristic(ev, k, t)?;
                    let item = c;
                    proof {
                        lemma_read_push(ev@, i as int, characteristics_at, characteristics@, "Characteristic"@, characteristic_tag(), here, item);
                        characteristics_at = characteristics_at.push(here);
                    }
                    characteristics.push(item);
                    k = j;
                }
            },
            XmlEvent::End(n) => {
                k = k + 1;
                proof {
                    lemma_covers_level_step(ev@, i as int, here, k as int, characteristics_at0, characteristics_at, spans, "Characteristic"@);
                    spans = span_step(spans, here, k as int);
                    stepped = true;
                }
                if name_is(n, "Characteristics") {
                    break;
                }
            },
            _ => {
                k = k + 1;
            },
        }
        proof {
            if !stepped {
                lemma_covers_level_step(ev@, i as int, here, k as int, characteristics_at0, characteristics_at, spans, "Characteristic"@);
                spans = span_step(spans, here, k as int);
            }
        }
    }
    proof {
        lemma_read_each_reached(ev@, i as int, k as int, characteristics_at, spans, characteristics@, "Characteristic"@, characteristic_tag());
    }
    proof {
        lemma_read_in_order(ev@, i as int, k as int, characteristics_at, characteristics@, "Characteristic"@, characteristic_tag());
    }
    Ok((characteristics, k))
}

/// Whether `m` holds the attributes of `Scorecard` tag `t`.
pub open spec fn scorecard_of(t: XmlTag, m: RawScorecard) -> bool {
    &&& tag_attr(t, "functionName"@) == Some(m.function_name@)
    &&& opt_view(m.model_name) == tag_attr(t, "modelName"@)
    &&& opt_view(m.initial_score) == tag_attr(t, "initialScore"@)
    &&& m.use_reason_codes == opt_flag(tag_attr(t, "useReasonCodes"@))
    &&& opt_view(m.reason_code_algorithm) == tag_attr(t, "reasonCodeAlgorithm"@)
    &&& opt_view(m.baseline_method) == tag_attr(t, "baselineMethod"@)
    &&& m.targets@.len() == 0
}

/// A `Scorecard` whose start tag was just read: `functionName` is required.
pub fn parse_scorecard(ev: &Vec<XmlEvent>, i: usize, start: &XmlTag) -> (r: Result<
    (RawScorecard, usize),
    PmmlError,
>)
    requires
        0 < i <= ev@.len(),
    ensures
        match r {
            Ok((m, j)) => read_each_section(ev@, i as int, j as int, m.local_derived_fields@, "LocalTransformations"@, "DerivedField"@, derived_field_tag())
                && read_each_section(ev@, i as int, j as int, m.output@, "Output"@, "OutputField"@, output_field_tag())
                && read_each_section(ev@, i as int, j as int, m.mining_schema@, "MiningSchema"@, "MiningField"@, mining_field_tag())
                && read_each_section(ev@, i as int, j as int, m.characteristics@, "Characteristics"@, "Characteristic"@, characteristic_tag())
                && read_in_order(ev@, i as int, j as int, m.local_derived_fields@, "DerivedField"@, derived_field_tag()) && read_in_order(ev@, i as int, j as int, m.output@, "OutputField"@, output_field_tag()) && read_in_order(ev@, i as int, j as int, m.characteristics@, "Characteristic"@, characteristic_tag())
                && read_in_order(ev@, i as int, j as int, m.mining_schema@, "MiningField"@, mining_field_tag())
                && stops_at_end_or_tag(ev@, i as int, j as int, "Scorecard"@)
                && scorecard_of(*start, m),
            Err(e) => tag_attr(*start, "functionName"@) is None ==> is_missing_attr(
                e,
                "Scorecard"@,
                "functionName"@,
            ),
        },
        element_named(ev@, i as int, "Scorecard"@) && model_readable(ev@, i as int, *start, "Scorecard"@) ==> (r matches Ok((_, j)) && j <= closing(ev@, i - 1) + 1),
{
    let function_name = attr_required(start, "functionName", "Scorecard")?;
    let model_name = attr(start, "modelName");
    let initial_score = attr(start, "initialScore");
    let use_reason_codes = match attr(start, "useReasonCodes") {
        Some(s) => Some(name_is(&s, "true")),
        None => None,
    };
    let reason_code_algorithm = attr(start, "reasonCodeAlgorithm");
    let baseline_method = attr(start, "baselineMethod");
    let mut mining_schema: Vec<RawMiningField> = Vec::new();
    let ghost mut schema_at: Seq<int> = Seq::empty();
    let mut output: Vec<RawOutputField> = Vec::new();
    let ghost mut output_at: Seq<int> = Seq::empty();
    let mut characteristics: Vec<RawCharacteristic> = Vec::new();
    let ghost mut characteristics_at: Seq<int> = Seq::empty();
    let mut local_derived_fields: Vec<RawDerivedField> = Vec::new();
    let ghost mut local_derived_fields_at: Seq<int> = Seq::empty();
    let ghost mut ch_secs: Seq<int> = Seq::empty();
    let ghost mut ch_ends: Seq<int> = Seq::empty();
    let ghost mut ch_parts: Seq<Seq<RawCharacteristic>> = Seq::empty();
    let ghost mut ch_spans: Seq<(int, int)> = Seq::empty();
    proof {
        assert(ch_parts.flatten() =~= Seq::<RawCharacteristic>::empty());
    }
    let ghost mut ms_secs: Seq<int> = Seq::empty();
    let ghost mut ms_ends: Seq<int> = Seq::empty();
    let ghost mut ms_parts: Seq<Seq<RawMiningField>> = Seq::empty();
    let ghost mut ms_spans: Seq<(int, int)> = Seq::empty();
    proof {
        assert(ms_parts.flatten() =~= Seq::<RawMiningField>::empty());
    }
    let ghost mut out_secs: Seq<int> = Seq::empty();
    let ghost mut out_ends: Seq<int> = Seq::empty();
    let ghost mut out_parts: Seq<Seq<RawOutputField>> = Seq::empty();
    let ghost mut out_spans: Seq<(int, int)> = Seq::empty();
    proof {
        assert(out_parts.flatten() =~= Seq::<RawOutputField>::empty());
    }
    let ghost mut ldf_secs: Seq<int> = Seq::empty();
    let ghost mut ldf_ends: Seq<int> = Seq::empty();
    let ghost mut ldf_parts: Seq<Seq<RawDerivedField>> = Seq::empty();
    let ghost mut ldf_spans: Seq<(int, int)> = Seq::empty();
    proof {
        assert(ldf_parts.flatten() =~= Seq::<RawDerivedField>::empty());
    }
    let mut k = i;
    proof {
        if element_named(ev@, i as int, "Scorecard"@) {
            lemma_closing(ev@, i - 1);
        }
    }
    loop
        invariant_except_break
            element_named(ev@, i as int, "Scorecard"@) && model_readable(ev@, i as int, *start, "Scorecard"@) ==> k <= closing(ev@, i - 1) && closes_at(ev@, i - 1, closing(ev@, i - 1)),
            0 < i <= k <= ev@.len(),
            sections_read(ev@, i as int, k as int, ldf_secs, ldf_ends, ldf_parts, "LocalTransformations"@, "DerivedField"@, derived_field_tag()),
            covers_level(ev@, i as int, k as int, ldf_secs, ldf_spans, "LocalTransformations"@),
            spans_ok(ev@, ldf_spans, i as int, k as int),
            local_derived_fields@ == ldf_parts.flatten(),
            sections_read(ev@, i as int, k as int, out_secs, out_ends, out_parts, "Output"@, "OutputField"@, output_field_tag()),
            covers_level(ev@, i as int, k as int, out_secs, out_spans, "Output"@),
            spans_ok(ev@, out_spans, i as int, k as int),
            output@ == out_parts.flatten(),
            sections_read(ev@, i as int, k as int, ms_secs, ms_ends, ms_parts, "MiningSchema"@, "MiningField"@, mining_field_tag()),
            sections_read(ev@, i as int, k as int, ch_secs, ch_ends, ch_parts, "Characteristics"@, "Characteristic"@, characteristic_tag()),
            covers_level(ev@, i as int, k as int, ch_secs, ch_spans, "Characteristics"@),
            spans_ok(ev@, ch_spans, i as int, k as int),
            characteristics@ == ch_parts.flatten(),
            covers_level(ev@, i as int, k as int, ms_secs, ms_spans, "MiningSchema"@),
            spans_ok(ev@, ms_spans, i as int, k as int),
            mining_schema@ == ms_parts.flatten(),
            tag_attr(*start, "functionName"@) == Some(function_name@),
            read_at_positions(ev@, i as int, schema_at, mining_schema@, "MiningField"@, mining_field_tag()),
            schema_at.len() > 0 ==> schema_at.last() < k,
            read_at_positions(ev@, i as int, characteristics_at, characteristics@, "Characteristic"@, characteristic_tag()),
            characteristics_at.len() > 0 ==> characteristics_at.last() < k,
            read_at_positions(ev@, i as int, output_at, output@, "OutputField"@, output_field_tag()),
            output_at.len() > 0 ==> output_at.last() < k,
            read_at_positions(ev@, i as int, local_derived_fields_at, local_derived_fields@, "DerivedField"@, derived_field_tag()),
            local_derived_fields_at.len() > 0 ==> local_derived_fields_at.last() < k,
        ensures
            element_named(ev@, i as int, "Scorecard"@) && model_readable(ev@, i as int, *start, "Scorecard"@) ==> k <= closing(ev@, i - 1) + 1,
            0 < i <= k <= ev@.len(),
            sections_read(ev@, i as int, k as int, ldf_secs, ldf_ends, ldf_parts, "LocalTransformations"@, "DerivedField"@, derived_field_tag()),
            covers_level(ev@, i as int, k as int, ldf_secs, ldf_spans, "LocalTransformations"@),
            spans_ok(ev@, ldf_spans, i as int, k as int),
            local_derived_fields@ == ldf_parts.flatten(),
            sections_read(ev@, i as int, k as int, out_secs, out_ends, out_parts, "Output"@, "OutputField"@, output_field_tag()),
            covers_level(ev@, i as int, k as int, out_secs, out_spans, "Output"@),
            spans_ok(ev@, out_spans, i as int, k as int),
            output@ == out_parts.flatten(),
            sections_read(ev@, i as int, k as int, ms_secs, ms_ends, ms_parts, "MiningSchema"@, "MiningField"@, mining_field_tag()),
            sections_read(ev@, i as int, k as int, ch_secs, ch_ends, ch_parts, "Characteristics"@, "Characteristic"@, characteristic_tag()),
            covers_level(ev@, i as int, k as int, ch_secs, ch_spans, "Characteristics"@),
            spans_ok(ev@, ch_spans, i as int, k as int),
            characteristics@ == ch_parts.flatten(),
            covers_level(ev@, i as int, k as int, ms_secs, ms_spans, "MiningSchema"@),
            spans_ok(ev@, ms_spans, i as int, k as int),
            mining_schema@ == ms_parts.flatten(),
            tag_attr(*start, "functionName"@) == Some(function_name@),
            read_at_positions(ev@, i as int, schema_at, mining_schema@, "MiningField"@, mining_field_tag()),
            schema_at.len() > 0 ==> schema_at.last() < k,
            read_at_positions(ev@, i as int, characteristics_at, characteristics@, "Characteristic"@, characteristic_tag()),
            characteristics_at.len() > 0 ==> characteristics_at.last() < k,
            read_at_positions(ev@, i as int, output_at, output@, "OutputField"@, output_field_tag()),
            output_at.len() > 0 ==> output_at.last() < k,
            read_at_positions(ev@, i as int, local_derived_fields_at, local_derived_fields@, "DerivedField"@, derived_field_tag()),
            local_derived_fields_at.len() > 0 ==> local_derived_fields_at.last() < k,
            at_end(ev@, k as int) || (i < k && is_end_named(ev@[k - 1], "Scorecard"@)),
            sections_read(ev@, i as int, k as int, ldf_secs, ldf_ends, ldf_parts, "LocalTransformations"@, "DerivedField"@, derived_field_tag()),
            covers_level(ev@, i as int, k as int, ldf_secs, ldf_spans, "LocalTransformations"@),
            spans_ok(ev@, ldf_spans, i as int, k as int),
            local_derived_fields@ == ldf_parts.flatten(),
            sections_read(ev@, i as int, k as int, out_secs, out_ends, out_parts, "Output"@, "OutputField"@, output_field_tag()),
            covers_level(ev@, i as int, k as int, out_secs, out_spans, "Output"@),
            spans_ok(ev@, out_spans, i as int, k as int),
            output@ == out_parts.flatten(),
            sections_read(ev@, i as int, k as int, ms_secs, ms_ends, ms_parts, "MiningSchema"@, "MiningField"@, mining_field_tag()),
            sections_read(ev@, i as int, k as int, ch_secs, ch_ends, ch_parts, "Characteristics"@, "Characteristic"@, characteristic_tag()),
            covers_level(ev@, i as int, k as int, ch_secs, ch_spans, "Characteristics"@),
            spans_ok(ev@, ch_spans, i as int, k as int),
            characteristics@ == ch_parts.flatten(),
            covers_level(ev@, i as int, k as int, ms_secs, ms_spans, "MiningSchema"@),
            spans_ok(ev@, ms_spans, i as int, k as int),
            mining_schema@ == ms_parts.flatten(),
            read_at_positions(ev@, i as int, schema_at, mining_schema@, "MiningField"@, mining_field_tag()),
            schema_at.len() > 0 ==> schema_at.last() < k,
            read_at_positions(ev@, i as int, characteristics_at, characteristics@, "Characteristic"@, characteristic_tag()),
            characteristics_at.len() > 0 ==> characteristics_at.last() < k,
            read_at_positions(ev@, i as int, output_at, output@, "OutputField"@, output_field_tag()),
            output_at.len() > 0 ==> output_at.last() < k,
            read_at_positions(ev@, i as int, local_derived_fields_at, local_derived_fields@, "DerivedField"@, derived_field_tag()),
            local_derived_fields_at.len() > 0 ==> local_derived_fields_at.last() < k,
        decreases ev@.len() - k,
    {
        proof {
            if element_named(ev@, i as int, "Scorecard"@) && model_readable(ev@, i as int, *start, "Scorecard"@) {
                lemma_nested_step(ev@, i as int, k as int);
                if k < closing(ev@, i - 1) {
                    assert(!start_named_at(ev@, k as int, "LocalTransformations"@));
                    assert(!is_end_named(ev@[k as int], "Scorecard"@));
                }
            }
        }
        if end_at(ev, k) {
            break;
        }
        let ghost ldf_here = k as int;
        let ghost ldf_secs0 = ldf_secs;
        let ghost mut ldf_stepped = false;
        proof {
            reveal_strlit("Characteristics");
            reveal_strlit("LocalTransformations");
            reveal_strlit("MiningSchema");
            reveal_strlit("Output");
            assert("LocalTransformations"@ != "Characteristics"@) by { assert("LocalTransformations"@.len() != "Characteristics"@.len()); }
            assert("LocalTransformations"@ != "MiningSchema"@) by { assert("LocalTransformations"@.len() != "MiningSchema"@.len()); }
            assert("LocalTransformations"@ != "Output"@) by { assert("LocalTransformations"@.len() != "Output"@.len()); }
        }
        let ghost out_here = k as int;
        let ghost out_secs0 = out_secs;
        let ghost mut out_stepped = false;
        proof {
            reveal_strlit("Characteristics");
            reveal_strlit("LocalTransformations");
            reveal_strlit("MiningSchema");
            reveal_strlit("Output");
            assert("Output"@ != "Characteristics"@) by { assert("Output"@.len() != "Characteristics"@.len()); }
            assert("Output"@ != "LocalTransformations"@) by { assert("Output"@.len() != "LocalTransformations"@.len()); }
            assert("Output"@ != "MiningSchema"@) by { assert("Output"@.len() != "MiningSchema"@.len()); }
        }
        let ghost ch_secs0 = ch_secs;
        let ghost mut ch_stepped = false;
        let ghost ms_here = k as int;
        let ghost ms_secs0 = ms_secs;
        let ghost mut ms_stepped = false;
        proof {
            reveal_strlit("Characteristics");
            reveal_strlit("LocalTransformations");
            reveal_strlit("MiningSchema");
            reveal_strlit("Output");
            assert("MiningSchema"@ != "Characteristics"@) by { assert("MiningSchema"@.len() != "Characteristics"@.len()); }
            assert("MiningSchema"@ != "LocalTransformations"@) by { assert("MiningSchema"@.len() != "LocalTransformations"@.len()); }
            assert("MiningSchema"@ != "Output"@) by { assert("MiningSchema"@.len() != "Output"@.len()); }
        }
        match &ev[k] {
            XmlEvent::Start(t) => {
                k = k + 1;
                if name_is(&t.name, "MiningSchema") {
                    let ghost ms_before = mining_schema@;
                    let (mut fields, j) = parse_mining_schema(ev, k, false)?;
                    let ghost ms_ys = fields@;
                    proof {
                        schema_at = lemma_read_extend(ev@, i as int, schema_at, mining_schema@, "MiningField"@, mining_field_tag(), k as int, j as int, fields@);
                    }
                    mining_schema.append(&mut fields);
                    proof {
                        assert(mining_schema@ =~= ms_before + ms_ys);
                        lemma_sections_push(ev@, i as int, ms_here, j as int, ms_secs, ms_ends, ms_parts, ms_ys, "MiningSchema"@, "MiningField"@, mining_field_tag());
                        lemma_covers_level_step(ev@, i as int, ms_here, j as int, ms_secs0, ms_secs0.push(ms_here), ms_spans, "MiningSchema"@);
                        ms_secs = ms_secs.push(ms_here);
                        ms_ends = ms_ends.push(j as int);
                        ms_parts = ms_parts.push(ms_ys);
                        ms_spans = span_step(ms_spans, ms_here, j as int);
                        ms_stepped = true;
                    }
                    k = j;
                } else if name_is(&t.name, "Output") {
                    let ghost out_before = output@;
                    let (mut fields, j) = parse_output(ev, k, false)?;
                    let ghost out_ys = fields@;
                    proof {
                        output_at = lemma_read_extend(ev@, i as int, output_at, output@, "OutputField"@, output_field_tag(), k as int, j as int, fields@);
                    }
                    output.append(&mut fields);
                    proof {
                        assert(output@ =~= out_before + out_ys);
                        lemma_sections_push(ev@, i as int, out_here, j as int, out_secs, out_ends, out_parts, out_ys, "Output"@, "OutputField"@, output_field_tag());
                        lemma_covers_level_step(ev@, i as int, out_here, j as int, out_secs0, out_secs0.push(out_here), out_spans, "Output"@);
                        out_secs = out_secs.push(out_here);
                        out_ends = out_ends.push(j as int);
                        out_parts = out_parts.push(out_ys);
                        out_spans = span_step(out_spans, out_here, j as int);
                        out_stepped = true;
                    }
                    k = j;
                } else if name_is(&t.name, "Characteristics") {
                    let ghost ch_before = characteristics@;
                    let (mut cs, j) = parse_characteristics(ev, k)?;
                    let ghost ch_ys = cs@;
                    proof {
                        characteristics_at = lemma_read_extend(ev@, i as int, characteristics_at, characteristics@, "Characteristic"@, characteristic_tag(), k as int, j as int, cs@);
                    }
                    characteristics.append(&mut cs);
                    proof {
                        assert(characteristics@ =~= ch_before + ch_ys);
                        lemma_sections_push(ev@, i as int, ms_here, j as int, ch_secs, ch_ends, ch_parts, ch_ys, "Characteristics"@, "Characteristic"@, characteristic_tag());
                        lemma_covers_level_step(ev@, i as int, ms_here, j as int, ch_secs0, ch_secs0.push(ms_here), ch_spans, "Characteristics"@);
                        ch_secs = ch_secs.push(ms_here);
                        ch_ends = ch_ends.push(j as int);
                        ch_parts = ch_parts.push(ch_ys);
                        ch_spans = span_step(ch_spans, ms_here, j as int);
                        ch_stepped = true;
                    }
                    k = j;
                } else if name_is(&t.name, "LocalTransformations") {
                    let ghost ldf_before = local_derived_fields@;
                    let (mut fields, j) = parse_local_transformations(ev, k)?;
                    let ghost ldf_ys = fields@;
                    proof {
                        local_derived_fields_at = lemma_read_extend(ev@, i as int, local_derived_fields_at, local_derived_fields@, "DerivedField"@, derived_field_tag(), k as int, j as int, fields@);
                    }
                    local_derived_fields.append(&mut fields);
                    proof {
                        assert(local_derived_fields@ =~= ldf_before + ldf_ys);
                        lemma_sections_push(ev@, i as int, ldf_here, j as int, ldf_secs, ldf_ends, ldf_parts, ldf_ys, "LocalTransformations"@, "DerivedField"@, derived_field_tag());
                        lemma_covers_level_step(ev@, i as int, ldf_here, j as int, ldf_secs0, ldf_secs0.push(ldf_here), ldf_spans, "LocalTransformations"@);
                        ldf_secs = ldf_secs.push(ldf_here);
                        ldf_ends = ldf_ends.push(j as int);
                        ldf_parts = ldf_parts.push(ldf_ys);
                        ldf_spans = span_step(ldf_spans, ldf_here, j as int);
                        ldf_stepped = true;
                    }
                    k = j;
                }
            },
            XmlEvent::End(n) => {
                k = k + 1;
                proof {
                    lemma_covers_level_step(ev@, i as int, ldf_here, k as int, ldf_secs0, ldf_secs0, ldf_spans, "LocalTransformations"@);
                    lemma_sections_widen(ev@, i as int, ldf_here, k as int, ldf_secs, ldf_ends, ldf_parts, "LocalTransformations"@, "DerivedField"@, derived_field_tag());
                    ldf_spans = span_step(ldf_spans, ldf_here, k as int);
                    ldf_stepped = true;
                }
                proof {
                    lemma_covers_level_step(ev@, i as int, out_here, k as int, out_secs0, out_secs0, out_spans, "Output"@);
                    lemma_sections_widen(ev@, i as int, out_here, k as int, out_secs, out_ends, out_parts, "Output"@, "OutputField"@, output_field_tag());
                    out_spans = span_step(out_spans, out_here, k as int);
                    out_stepped = true;
                }
                proof {
                    lemma_covers_level_step(ev@, i as int, ms_here, k as int, ms_secs0, ms_secs0, ms_spans, "MiningSchema"@);
                    lemma_sections_widen(ev@, i as int, ms_here, k as int, ms_secs, ms_ends, ms_parts, "MiningSchema"@, "MiningField"@, mining_field_tag());
                    ms_spans = span_step(ms_spans, ms_here, k as int);
                    ms_stepped = true;
                }
                proof {
                    lemma_covers_level_step(ev@, i as int, ms_here, k as int, ch_secs0, ch_secs0, ch_spans, "Characteristics"@);
                    lemma_sections_widen(ev@, i as int, ms_here, k as int, ch_secs, ch_ends, ch_parts, "Characteristics"@, "Characteristic"@, characteristic_tag());
                    ch_spans = span_step(ch_spans, ms_here, k as int);
                    ch_stepped = true;
                }
                if name_is(n, "Scorecard") {
                    break;
                }
            },
            _ => {
                k = k + 1;
            },
        }
        proof {
            if !ldf_stepped {
                lemma_covers_level_step(ev@, i as int, ldf_here, k as int, ldf_secs0, ldf_secs0, ldf_spans, "LocalTransformations"@);
                lemma_sections_widen(ev@, i as int, ldf_here, k as int, ldf_secs, ldf_ends, ldf_parts, "LocalTransformations"@, "DerivedField"@, derived_field_tag());
                ldf_spans = span_step(ldf_spans, ldf_here, k as int);
                ldf_stepped = true;
            }
        }
        proof {
            if !out_stepped {
                lemma_covers_level_step(ev@, i as int, out_here, k as int, out_secs0, out_secs0, out_spans, "Output"@);
                lemma_sections_widen(ev@, i as int, out_here, k as int, out_secs, out_ends, out_parts, "Output"@, "OutputField"@, output_field_tag());
                out_spans = span_step(out_spans, out_here, k as int);
                out_stepped = true;
            }
        }
        proof {
            if !ch_stepped {
                lemma_covers_level_step(ev@, i as int, ms_here, k as int, ch_secs0, ch_secs0, ch_spans, "Characteristics"@);
                lemma_sections_widen(ev@, i as int, ms_here, k as int, ch_secs, ch_ends, ch_parts, "Characteristics"@, "Characteristic"@, characteristic_tag());
                ch_spans = span_step(ch_spans, ms_here, k as int);
            }
        }
        proof {
            if !ms_stepped {
                lemma_covers_level_step(ev@, i as int, ms_here, k as int, ms_secs0, ms_secs0, ms_spans, "MiningSchema"@);
                lemma_sections_widen(ev@, i as int, ms_here, k as int, ms_secs, ms_ends, ms_parts, "MiningSchema"@, "MiningField"@, mining_field_tag());
                ms_spans = span_step(ms_spans, ms_here, k as int);
                ms_stepped = true;
            }
        }
    }
    proof {
        lemma_read_in_order(ev@, i as int, k as int, schema_at, mining_schema@, "MiningField"@, mining_field_tag());
    }
    proof {
        lemma_read_in_order(ev@, i as int, k as int, characteristics_at, characteristics@, "Characteristic"@, characteristic_tag());
    }
    proof {
        lemma_read_in_order(ev@, i as int, k as int, output_at, output@, "OutputField"@, output_field_tag());
    }
    proof {
        lemma_read_in_order(ev@, i as int, k as int, local_derived_fields_at, local_derived_fields@, "DerivedField"@, derived_field_tag());
    }
    Ok((RawScorecard {
        model_name,
        function_name,
        initial_score,
        use_reason_codes,
        reason_code_algorithm,
        mining_schema,
        output,
        targets: Vec::new(),
        characteristics,
        baseline_method,
        local_derived_fields,
    }, k))
}

} // verus!
