//! Elements shared by every model: mining fields, output fields, targets and
//! the simple predicates, with the `MiningSchema` and `Output` sections.

use vstd::prelude::*;
use crate::unmarshal::nesting::{closing, closes_at, lemma_nested_step, lemma_closing, end_matches};
use crate::error::PmmlError;
use crate::textmap::TextMap;
use crate::strings::{string_from, parse_i32, parsed_i32, split_whitespace, views, words};
use crate::xml::{XmlEvent, XmlTag, attr, attr_required, tag_attr, opt_view, is_missing_attr, name_is};
use crate::unmarshal::raw::{RawMiningField, RawOutputField, RawTarget, RawPredicate};
use crate::unmarshal::cursor::{start_named_at,
    element_named, tags_carry,
    read_each_reached, lemma_all_to_each,
    end_at, at_end, skip_one, unexpected_end, is_unexpected_end, is_end_named, stops_after_tag, stops_at_end_or_tag, read_at_positions, read_in_order, lemma_read_push, lemma_read_in_order, read_all_in_order, covers_entries, lemma_covers_step, lemma_covers_skip, childless, plain_until, plain_event,
};

verus! {

/// The first of two optional values that is present.
pub open spec fn or_else(a: Option<Seq<char>>, b: Option<Seq<char>>) -> Option<Seq<char>> {
    if a is Some {
        a
    } else {
        b
    }
}

/// An optional integer attribute: `None` when absent or not an `i32`.
pub open spec fn opt_i32(a: Option<Seq<char>>) -> Option<i32> {
    match a {
        Some(s) => parsed_i32(s),
        None => None,
    }
}

/// An optional flag attribute: present and equal to `true`.
pub open spec fn opt_flag(a: Option<Seq<char>>) -> Option<bool> {
    match a {
        Some(s) => Some(s == "true"@),
        None => None,
    }
}

/// The text of an optional attribute, empty when absent.
pub open spec fn or_empty(a: Option<Seq<char>>) -> Seq<char> {
    match a {
        Some(s) => s,
        None => Seq::empty(),
    }
}

/// An optional `i32` parsed from optional text.
pub fn attr_i32(tag: &XmlTag, key: &str) -> (r: Option<i32>)
    ensures
        r == opt_i32(tag_attr(*tag, key@)),
{
    match attr(tag, key) {
        Some(s) => parse_i32(s.as_str()),
        None => None,
    }
}

/// The text of attribute `key`, empty when absent.
pub fn attr_or_empty(tag: &XmlTag, key: &str) -> (r: String)
    ensures
        r@ == or_empty(tag_attr(*tag, key@)),
{
    match attr(tag, key) {
        Some(s) => s,
        None => String::new(),
    }
}

/// The text of attribute `key`, or `default` when absent.
pub fn attr_or(tag: &XmlTag, key: &str, default: &str) -> (r: String)
    ensures
        r@ == match tag_attr(*tag, key@) {
            Some(s) => s,
            None => default@,
        },
{
    match attr(tag, key) {
        Some(s) => s,
        None => string_from(default),
    }
}

/// Whether `m` holds the attributes of `MiningField` tag `t`.
pub open spec fn mining_field_of(t: XmlTag, m: RawMiningField) -> bool {
    &&& tag_attr(t, "name"@) == Some(m.name@)
    &&& opt_view(m.usage_type) == tag_attr(t, "usageType"@)
    &&& opt_view(m.importance) == tag_attr(t, "importance"@)
    &&& opt_view(m.outliers) == or_else(tag_attr(t, "outliers"@), tag_attr(t, "outlierTreatment"@))
    &&& opt_view(m.low_value) == tag_attr(t, "lowValue"@)
    &&& opt_view(m.high_value) == tag_attr(t, "highValue"@)
    &&& opt_view(m.missing_value_replacement) == tag_attr(t, "missingValueReplacement"@)
    &&& opt_view(m.missing_value_treatment) == tag_attr(t, "missingValueTreatment"@)
    &&& opt_view(m.invalid_value_treatment) == tag_attr(t, "invalidValueTreatment"@)
    &&& opt_view(m.invalid_value_replacement) == tag_attr(t, "invalidValueReplacement"@)
    &&& opt_view(m.op_type) == tag_attr(t, "opType"@)
}

/// A `MiningField` from its tag; `name` is required.
pub fn parse_mining_field(e: &XmlTag) -> (r: Result<RawMiningField, PmmlError>)
    ensures
        match r {
            Ok(m) => mining_field_of(*e, m),
            Err(err) => tag_attr(*e, "name"@) is None && is_missing_attr(err, "MiningField"@, "name"@),
        },
{
    let name = attr_required(e, "name", "MiningField")?;
    let usage_type = attr(e, "usageType");
    let importance = attr(e, "importance");
    let outliers = match attr(e, "outliers") {
        Some(o) => Some(o),
        None => attr(e, "outlierTreatment"),
    };
    let low_value = attr(e, "lowValue");
    let high_value = attr(e, "highValue");
    let missing_value_replacement = attr(e, "missingValueReplacement");
    let missing_value_treatment = attr(e, "missingValueTreatment");
    let invalid_value_treatment = attr(e, "invalidValueTreatment");
    let invalid_value_replacement = attr(e, "invalidValueReplacement");
    let op_type = attr(e, "opType");
    Ok(RawMiningField {
        name,
        usage_type,
        importance,
        outliers,
        low_value,
        high_value,
        missing_value_replacement,
        missing_value_treatment,
        invalid_value_treatment,
        invalid_value_replacement,
        op_type,
    })
}

/// Whether `o` holds the attributes of `OutputField` tag `t`.
pub open spec fn output_field_of(t: XmlTag, o: RawOutputField) -> bool {
    &&& tag_attr(t, "name"@) == Some(o.name@)
    &&& opt_view(o.feature) == tag_attr(t, "feature"@)
    &&& opt_view(o.value) == tag_attr(t, "value"@)
    &&& opt_view(o.target_field) == tag_attr(t, "targetField"@)
    &&& opt_view(o.data_type) == tag_attr(t, "dataType"@)
    &&& opt_view(o.op_type) == tag_attr(t, "opType"@)
    &&& opt_view(o.rule_feature) == tag_attr(t, "ruleFeature"@)
    &&& opt_view(o.algorithm) == tag_attr(t, "algorithm"@)
    &&& o.rank == opt_i32(tag_attr(t, "rank"@))
    &&& opt_view(o.rank_basis) == tag_attr(t, "rankBasis"@)
    &&& opt_view(o.rank_order) == tag_attr(t, "rankOrder"@)
    &&& opt_view(o.is_multi_valued) == tag_attr(t, "isMultiValued"@)
    &&& opt_view(o.segment_id) == tag_attr(t, "segmentId"@)
    &&& o.is_final_result == opt_flag(tag_attr(t, "isFinalResult"@))
    &&& opt_view(o.display_name) == tag_attr(t, "displayName"@)
}

/// How an `OutputField` is read from its tag.
pub open spec fn output_field_tag() -> spec_fn(XmlTag, RawOutputField) -> bool {
    |t: XmlTag, o: RawOutputField| output_field_of(t, o)
}

/// An `OutputField` from its tag; `name` is required.
pub fn parse_output_field(e: &XmlTag) -> (r: Result<RawOutputField, PmmlError>)
    ensures
        match r {
            Ok(o) => output_field_of(*e, o),
            Err(err) => tag_attr(*e, "name"@) is None && is_missing_attr(err, "OutputField"@, "name"@),
        },
{
    let name = attr_required(e, "name", "OutputField")?;
    let feature = attr(e, "feature");
    let value = attr(e, "value");
    let target_field = attr(e, "targetField");
    let data_type = attr(e, "dataType");
    let op_type = attr(e, "opType");
    let rule_feature = attr(e, "ruleFeature");
    let algorithm = attr(e, "algorithm");
    let rank = attr_i32(e, "rank");
    let rank_basis = attr(e, "rankBasis");
    let rank_order = attr(e, "rankOrder");
    let is_multi_valued = attr(e, "isMultiValued");
    let segment_id = attr(e, "segmentId");
    let is_final_result = match attr(e, "isFinalResult") {
        Some(s) => Some(name_is(&s, "true")),
        None => None,
    };
    let display_name = attr(e, "displayName");
    Ok(RawOutputField {
        name,
        feature,
        value,
        target_field,
        data_type,
        op_type,
        rule_feature,
        algorithm,
        rank,
        rank_basis,
        rank_order,
        is_multi_valued,
        segment_id,
        is_final_result,
        display_name,
    })
}

/// Whether `t` holds the attributes of `Target` tag `s`.
pub open spec fn target_of(s: XmlTag, t: RawTarget) -> bool {
    &&& opt_view(t.field) == tag_attr(s, "field"@)
    &&& opt_view(t.op_type) == tag_attr(s, "opType"@)
    &&& opt_view(t.cast_integer) == tag_attr(s, "castInteger"@)
    &&& t.min is None
    &&& t.max is None
    &&& opt_view(t.rescale_constant) == tag_attr(s, "rescaleConstant"@)
    &&& opt_view(t.rescale_factor) == tag_attr(s, "rescaleFactor"@)
    &&& t.target_values@.len() == 0
}

/// How a `Target` is read from its tag.
pub open spec fn target_tag() -> spec_fn(XmlTag, RawTarget) -> bool {
    |s: XmlTag, t: RawTarget| target_of(s, t)
}

/// A `Target` whose start tag was just read: its attributes, then events are
/// read up to its end tag, an empty-element tag, or the end of the document.
pub fn parse_target(ev: &Vec<XmlEvent>, i: usize, start: &XmlTag) -> (r: Result<(RawTarget, usize), PmmlError>)
    requires
        i <= ev@.len(),
    ensures
        r matches Ok((t, j)) && target_of(*start, t) && i <= j <= ev@.len() && (at_end(ev@, j as int)
            || (i < j && (is_end_named(ev@[j - 1], "Target"@) || ev@[j - 1] is Empty))),
{
    let field = attr(start, "field");
    let op_type = attr(start, "opType");
    let cast_integer = attr(start, "castInteger");
    let rescale_constant = attr(start, "rescaleConstant");
    let rescale_factor = attr(start, "rescaleFactor");
    let mut k = i;
    loop
        invariant
            i <= k <= ev@.len(),
        ensures
            i <= k <= ev@.len(),
            at_end(ev@, k as int) || (i < k && (is_end_named(ev@[k - 1], "Target"@) || ev@[k - 1] is Empty)),
        decreases ev@.len() - k,
    {
        if end_at(ev, k) {
            break;
        }
        match &ev[k] {
            XmlEvent::End(n) => {
                if name_is(n, "Target") {
                    k = k + 1;
                    break;
                }
            },
            XmlEvent::Empty(_) => {
                k = k + 1;
                break;
            },
            _ => {},
        }
        k = k + 1;
    }
    Ok((RawTarget {
        field,
        op_type,
        cast_integer,
        min: None,
        max: None,
        rescale_constant,
        rescale_factor,
        target_values: Vec::new(),
    }, k))
}

/// The `Target` elements of a `Targets` section whose start tag was just
/// read, up to its end tag.
pub fn parse_targets(ev: &Vec<XmlEvent>, i: usize) -> (r: Result<(Vec<RawTarget>, usize), PmmlError>)
    requires
        i <= ev@.len(),
    ensures
        match r {
            Ok((targets, j)) => read_in_order(ev@, i as int, j as int, targets@, "Target"@, target_tag()) && stops_after_tag(ev@, i as int, j as int, "Targets"@),
            Err(e) => is_unexpected_end(e),
        },
{
    let mut targets: Vec<RawTarget> = Vec::new();
    let ghost mut targets_at: Seq<int> = Seq::empty();
    let mut k = i;
    loop
        invariant
            i <= k <= ev@.len(),
            read_at_positions(ev@, i as int, targets_at, targets@, "Target"@, target_tag()),
            targets_at.len() > 0 ==> targets_at.last() < k,
        ensures
            i < k && is_end_named(ev@[k - 1], "Targets"@),
            read_at_positions(ev@, i as int, targets_at, targets@, "Target"@, target_tag()),
            targets_at.len() > 0 ==> targets_at.last() < k,
        decreases ev@.len() - k,
    {
        if end_at(ev, k) {
            return Err(unexpected_end());
        }
        let ghost here = k as int;
        match &ev[k] {
            XmlEvent::Start(t) | XmlEvent::Empty(t) => {
                if name_is(&t.name, "Target") {
                    let (tg, j) = parse_target(ev, k + 1, t)?;
                    let item = tg;
                    proof {
                        lemma_read_push(ev@, i as int, targets_at, targets@, "Target"@, target_tag(), here, item);
                        targets_at = targets_at.push(here);
                    }
                    targets.push(item);
                    k = j;
                } else {
                    k = k + 1;
                }
            },
            XmlEvent::End(n) => {
                k = k + 1;
                if name_is(n, "Targets") {
                    break;
                }
            },
            _ => {
                k = k + 1;
            },
        }
    }
    proof {
        lemma_read_in_order(ev@, i as int, k as int, targets_at, targets@, "Target"@, target_tag());
    }
    Ok((targets, k))
}

/// Whether `p` is the simple predicate of tag `t`.
pub open spec fn simple_predicate_of(t: XmlTag, p: RawPredicate) -> bool {
    p matches RawPredicate::Simple { field, operator, value } && tag_attr(t, "field"@) == Some(
        field@,
    ) && tag_attr(t, "operator"@) == Some(operator@) && value@ == or_empty(tag_attr(t, "value"@))
}

/// Whether the predicate `p` holds what was read from predicate tag `t`: a
/// `True`, a simple or simple-set predicate with its attributes, or a
/// compound predicate with its operator.
pub open spec fn predicate_tag_of(t: XmlTag, p: RawPredicate) -> bool {
    if t.name@ == "True"@ {
        p is True
    } else if t.name@ == "SimplePredicate"@ {
        simple_predicate_of(t, p)
    } else if t.name@ == "SimpleSetPredicate"@ {
        simple_set_predicate_of(t, p)
    } else if t.name@ == "CompoundPredicate"@ {
        p matches RawPredicate::Compound { boolean_operator, .. } && tag_attr(t, "booleanOperator"@) == Some(
            boolean_operator@,
        )
    } else {
        false
    }
}

/// The predicate tag names are distinct: each has its own length.
pub proof fn lemma_predicate_names()
    ensures
        "True"@.len() == 4,
        "SimplePredicate"@.len() == 15,
        "SimpleSetPredicate"@.len() == 18,
        "CompoundPredicate"@.len() == 17,
{
    reveal_strlit("True");
    reveal_strlit("SimplePredicate");
    reveal_strlit("SimpleSetPredicate");
    reveal_strlit("CompoundPredicate");
}

/// Whether the predicate `p` was read from the predicate tag at event `k`:
/// from its attributes and, for a `SimpleSetPredicate` start tag, the array
/// of its content as well.
pub open spec fn predicate_read_at(ev: Seq<XmlEvent>, k: int, p: RawPredicate) -> bool {
    0 <= k < ev.len() && match ev[k] {
        XmlEvent::Start(t) => predicate_tag_of(t, p) && (t.name@ == "SimpleSetPredicate"@ ==> set_array_from(
            ev,
            k + 1,
            p,
        )),
        XmlEvent::Empty(t) => predicate_tag_of(t, p),
        _ => false,
    }
}

/// Whether `p` is a simple-set predicate whose array is the one read from
/// `lo` up to the predicate's end tag (or the end of the document).
pub open spec fn set_array_from(ev: Seq<XmlEvent>, lo: int, p: RawPredicate) -> bool {
    p matches RawPredicate::SimpleSet { array, .. } && exists|e: int|
        lo <= e <= ev.len() && (at_end(ev, e) || (lo < e && is_end_named(ev[e - 1], "SimpleSetPredicate"@)))
            && #[trigger] set_array_read(ev, lo, e, array@)
}

/// Whether `pred` is the predicate that the predicate tag at `pa` gives, or
/// `True` when `pa == -1` (no predicate tag was read).
pub open spec fn predicate_from(ev: Seq<XmlEvent>, pa: int, pred: RawPredicate) -> bool {
    if pa == -1 {
        pred is True
    } else {
        predicate_read_at(ev, pa, pred)
    }
}

/// A `SimplePredicate` from its tag; `field` and `operator` are required.
pub fn parse_simple_predicate(e: &XmlTag) -> (r: Result<RawPredicate, PmmlError>)
    ensures
        match r {
            Ok(p) => simple_predicate_of(*e, p),
            Err(err) => (tag_attr(*e, "field"@) is None && is_missing_attr(
                err,
                "SimplePredicate"@,
                "field"@,
            )) || (tag_attr(*e, "field"@) is Some && tag_attr(*e, "operator"@) is None
                && is_missing_attr(err, "SimplePredicate"@, "operator"@)),
        },
{
    let field = attr_required(e, "field", "SimplePredicate")?;
    let operator = attr_required(e, "operator", "SimplePredicate")?;
    let value = attr_or_empty(e, "value");
    Ok(RawPredicate::Simple { field, operator, value })
}

/// Whether `p` is a simple-set predicate with the attributes of tag `t`.
pub open spec fn simple_set_predicate_of(t: XmlTag, p: RawPredicate) -> bool {
    p matches RawPredicate::SimpleSet { field, boolean_operator, array } && tag_attr(t, "field"@)
        == Some(field@) && tag_attr(t, "booleanOperator"@) == Some(boolean_operator@)
}

/// The characters a `Text` event holds (none when unescaping failed, and
/// none for other events).
pub open spec fn event_text(e: XmlEvent) -> Seq<char> {
    match e {
        XmlEvent::Text(Some(s)) => s@,
        _ => Seq::empty(),
    }
}

/// Whether position `p` lies inside an `Array` element opened at or after
/// `lo`: after an `Array` start tag with no `Array` end tag in between.
pub open spec fn inside_array(ev: Seq<XmlEvent>, lo: int, p: int) -> bool {
    exists|a: int|
        lo <= a < p && #[trigger] start_named_at(ev, a, "Array"@) && forall|t: int|
            a < t < p ==> !is_end_named(#[trigger] ev[t], "Array"@)
}

/// Whether event `p` is a text inside an `Array` element opened at or after
/// `lo`.
pub open spec fn array_text_at(ev: Seq<XmlEvent>, lo: int, p: int) -> bool {
    0 <= p < ev.len() && ev[p] is Text && inside_array(ev, lo, p)
}

/// Whether `arr` is the text of the last text event inside an `Array`
/// element among the events in `[lo, hi)`, or empty when there is none.
pub open spec fn set_array_read(ev: Seq<XmlEvent>, lo: int, hi: int, arr: Seq<char>) -> bool {
    ||| arr == Seq::<char>::empty() && forall|p: int| lo <= p < hi ==> !#[trigger] array_text_at(ev, lo, p)
    ||| exists|p: int|
        lo <= p < hi && #[trigger] array_text_at(ev, lo, p) && arr == event_text(ev[p]) && forall|q: int|
            p < q < hi ==> !#[trigger] array_text_at(ev, lo, q)
}

/// The array texts seen so far: `last` is the last one before `k` (or `-1`
/// when there is none) and `arr` its text.
spec fn array_texts_upto(ev: Seq<XmlEvent>, lo: int, k: int, last: int, arr: Seq<char>) -> bool {
    ||| last == -1 && arr == Seq::<char>::empty() && forall|p: int| lo <= p < k ==> !#[trigger] array_text_at(ev, lo, p)
    ||| lo <= last < k && array_text_at(ev, lo, last) && arr == event_text(ev[last]) && forall|q: int|
        last < q < k ==> !#[trigger] array_text_at(ev, lo, q)
}

/// Past a position outside every `Array` element that is no `Array` start
/// tag, reading is still outside every `Array` element.
proof fn lemma_outside_array_step(ev: Seq<XmlEvent>, lo: int, k: int)
    requires
        0 <= k < ev.len(),
        !inside_array(ev, lo, k),
        !start_named_at(ev, k, "Array"@),
    ensures
        !inside_array(ev, lo, k + 1),
{
    if inside_array(ev, lo, k + 1) {
        let a = choose|a: int|
            lo <= a < k + 1 && #[trigger] start_named_at(ev, a, "Array"@) && forall|t: int|
                a < t < k + 1 ==> !is_end_named(#[trigger] ev[t], "Array"@);
        assert(a < k);
        assert forall|t: int| a < t < k implies !is_end_named(#[trigger] ev[t], "Array"@) by {}
        assert(inside_array(ev, lo, k));
    }
}

/// Past an `Array` end tag, reading is outside every `Array` element.
proof fn lemma_after_array_end(ev: Seq<XmlEvent>, lo: int, k: int)
    requires
        0 <= k < ev.len(),
        is_end_named(ev[k], "Array"@),
    ensures
        !inside_array(ev, lo, k + 1),
{
    if inside_array(ev, lo, k + 1) {
        let a = choose|a: int|
            lo <= a < k + 1 && #[trigger] start_named_at(ev, a, "Array"@) && forall|t: int|
                a < t < k + 1 ==> !is_end_named(#[trigger] ev[t], "Array"@);
        if a == k {
            assert(start_named_at(ev, k, "Array"@));
        } else {
            assert(!is_end_named(ev[k], "Array"@));
        }
    }
}

/// One event past `k`, where whether `k` is an array text is known, the
/// array texts seen so far extend.
proof fn lemma_array_texts_step(ev: Seq<XmlEvent>, lo: int, k: int, last: int, arr: Seq<char>, last2: int, arr2: Seq<char>)
    requires
        lo <= k < ev.len(),
        array_texts_upto(ev, lo, k, last, arr),
        array_text_at(ev, lo, k) ==> last2 == k && arr2 == event_text(ev[k]),
        !array_text_at(ev, lo, k) ==> last2 == last && arr2 == arr,
    ensures
        array_texts_upto(ev, lo, k + 1, last2, arr2),
{
}

/// The array a simple-set predicate reads is determined by the events: two
/// arrays read from the same events are equal.
pub proof fn law_set_array_determined(ev: Seq<XmlEvent>, lo: int, hi: int, a1: Seq<char>, a2: Seq<char>)
    requires
        set_array_read(ev, lo, hi, a1),
        set_array_read(ev, lo, hi, a2),
    ensures
        a1 == a2,
{
    if exists|p: int| lo <= p < hi && #[trigger] array_text_at(ev, lo, p) {
        let p0 = choose|p: int| lo <= p < hi && #[trigger] array_text_at(ev, lo, p);
        let p1 = choose|p: int|
            lo <= p < hi && #[trigger] array_text_at(ev, lo, p) && a1 == event_text(ev[p]) && forall|q: int|
                p < q < hi ==> !#[trigger] array_text_at(ev, lo, q);
        let p2 = choose|p: int|
            lo <= p < hi && #[trigger] array_text_at(ev, lo, p) && a2 == event_text(ev[p]) && forall|q: int|
                p < q < hi ==> !#[trigger] array_text_at(ev, lo, q);
        assert(array_text_at(ev, lo, p0));
        if p1 < p2 {
            assert(!array_text_at(ev, lo, p2));
        } else if p2 < p1 {
            assert(!array_text_at(ev, lo, p1));
        }
    }
}

/// A text at `p` inside an `Array` element opened at `a`, with no text
/// after it, is the array a simple-set predicate reads.
pub proof fn law_set_array_is_last_array_text(ev: Seq<XmlEvent>, lo: int, hi: int, arr: Seq<char>, a: int, p: int)
    requires
        set_array_read(ev, lo, hi, arr),
        lo <= a < p < hi <= ev.len(),
        start_named_at(ev, a, "Array"@),
        ev[p] is Text,
        forall|t: int| a < t < p ==> !is_end_named(#[trigger] ev[t], "Array"@),
        forall|q: int| p < q < hi ==> !(#[trigger] ev[q] is Text),
    ensures
        arr == event_text(ev[p]),
{
    assert(inside_array(ev, lo, p));
    assert(array_text_at(ev, lo, p));
    if !(arr == Seq::<char>::empty() && forall|q: int| lo <= q < hi ==> !#[trigger] array_text_at(ev, lo, q)) {
        let p1 = choose|q: int|
            lo <= q < hi && #[trigger] array_text_at(ev, lo, q) && arr == event_text(ev[q]) && forall|r: int|
                q < r < hi ==> !#[trigger] array_text_at(ev, lo, r);
        if p1 < p {
            assert(!array_text_at(ev, lo, p));
        } else if p1 > p {
            assert(!(ev[p1] is Text));
        }
    }
}

/// A `SimpleSetPredicate` whose start tag was just read: `field` and
/// `booleanOperator` are required; the array is the last text read inside an
/// `Array` child, and reading stops at the predicate's end tag or the end of
/// the document.
pub fn parse_simple_set_predicate(e: &XmlTag, ev: &Vec<XmlEvent>, i: usize) -> (r: Result<
    (RawPredicate, usize),
    PmmlError,
>)
    requires
        i <= ev@.len(),
    ensures
        match r {
            Ok((p, j)) => stops_at_end_or_tag(ev@, i as int, j as int, "SimpleSetPredicate"@)
                && simple_set_predicate_of(*e, p) && (p matches RawPredicate::SimpleSet { array, .. } && set_array_read(
                ev@,
                i as int,
                j as int,
                array@,
            )),
            Err(err) => (tag_attr(*e, "field"@) is None && is_missing_attr(
                err,
                "SimpleSetPredicate"@,
                "field"@,
            )) || (tag_attr(*e, "field"@) is Some && tag_attr(*e, "booleanOperator"@) is None
                && is_missing_attr(err, "SimpleSetPredicate"@, "booleanOperator"@)),
        },
        element_named(ev@, i as int, "SimpleSetPredicate"@) && tag_attr(*e, "field"@) is Some && tag_attr(*e, "booleanOperator"@) is Some ==> (r matches Ok((_, j)) && j <= closing(ev@, i - 1) + 1),
{
    let field = attr_required(e, "field", "SimpleSetPredicate")?;
    let boolean_operator = attr_required(e, "booleanOperator", "SimpleSetPredicate")?;
    let mut array = String::new();
    let ghost mut last: int = -1;
    let mut k = i;
    proof {
        reveal_strlit("Array");
        assert(array@ =~= Seq::<char>::empty());
    }
    proof {
        if element_named(ev@, i as int, "SimpleSetPredicate"@) {
            lemma_closing(ev@, i - 1);
        }
    }
    loop
        invariant_except_break
            element_named(ev@, i as int, "SimpleSetPredicate"@) ==> k <= closing(ev@, i - 1) && closes_at(ev@, i - 1, closing(ev@, i - 1)),
            i <= k <= ev@.len(),
            tag_attr(*e, "field"@) == Some(field@),
            tag_attr(*e, "booleanOperator"@) == Some(boolean_operator@),
            array_texts_upto(ev@, i as int, k as int, last, array@),
            !inside_array(ev@, i as int, k as int) || at_end(ev@, k as int),
        ensures
            array_texts_upto(ev@, i as int, k as int, last, array@),
            element_named(ev@, i as int, "SimpleSetPredicate"@) ==> k <= closing(ev@, i - 1) + 1,
            i <= k <= ev@.len(),
            tag_attr(*e, "field"@) == Some(field@),
            tag_attr(*e, "booleanOperator"@) == Some(boolean_operator@),
            at_end(ev@, k as int) || (i < k && is_end_named(ev@[k - 1], "SimpleSetPredicate"@)),
        decreases ev@.len() - k,
    {
        proof {
            if element_named(ev@, i as int, "SimpleSetPredicate"@) {
                lemma_nested_step(ev@, i as int, k as int);
            }
        }
        if end_at(ev, k) {
            break;
        }
        let ghost here0 = k as int;
        proof {
            assert(!array_text_at(ev@, i as int, here0));
            lemma_array_texts_step(ev@, i as int, here0, last, array@, last, array@);
        }
        match &ev[k] {
            XmlEvent::Start(t) => {
                k = k + 1;
                if !name_is(&t.name, "Array") {
                    proof {
                        lemma_outside_array_step(ev@, i as int, here0);
                    }
                }
                if name_is(&t.name, "Array") {
                    let ghost k0 = k;
                    proof {
                        if element_named(ev@, i as int, "SimpleSetPredicate"@) {
                            assert(end_matches(ev@, k0 - 1, closing(ev@, k0 - 1)));
                        }
                    }
                    loop
                        invariant_except_break
                            i <= k0 <= k <= ev@.len(),
                            forall|t: int| k0 <= t < k ==> !#[trigger] is_end_named(ev@[t], "Array"@),
                            i < k0,
                            start_named_at(ev@, k0 - 1, "Array"@),
                            array_texts_upto(ev@, i as int, k as int, last, array@),
                            element_named(ev@, i as int, "SimpleSetPredicate"@) ==> k0 - 1 < closing(ev@, k0 - 1) < closing(ev@, i - 1)
                                && is_end_named(ev@[closing(ev@, k0 - 1)], "Array"@) && closing(ev@, k0 - 1) < ev@.len()
                                && closes_at(ev@, i - 1, closing(ev@, i - 1)) && k <= closing(ev@, k0 - 1) + 1,
                        ensures
                            i <= k0 <= k <= ev@.len(),
                            array_texts_upto(ev@, i as int, k as int, last, array@),
                            !inside_array(ev@, i as int, k as int) || at_end(ev@, k as int),
                            element_named(ev@, i as int, "SimpleSetPredicate"@) ==> closing(ev@, k0 - 1) < closing(ev@, i - 1)
                                && closes_at(ev@, i - 1, closing(ev@, i - 1)) && k <= closing(ev@, k0 - 1) + 1,
                        decreases ev@.len() - k,
                    {
                        if end_at(ev, k) {
                            break;
                        }
                        let ghost here = k as int;
                        let ghost arr0 = array@;
                        proof {
                            assert(inside_array(ev@, i as int, here)) by {
                                assert(forall|t: int| k0 - 1 < t < here ==> !is_end_named(#[trigger] ev@[t], "Array"@));
                            }
                        }
                        match &ev[k] {
                            XmlEvent::Text(txt) => {
                                array = match txt {
                                    Some(s) => s.clone(),
                                    None => String::new(),
                                };
                                proof {
                                    assert(array@ == event_text(ev@[here]));
                                    lemma_array_texts_step(ev@, i as int, here, last, arr0, here, array@);
                                    last = here;
                                }
                            },
                            XmlEvent::End(n) => {
                                proof {
                                    lemma_array_texts_step(ev@, i as int, here, last, arr0, last, array@);
                                }
                                if name_is(n, "Array") {
                                    k = k + 1;
                                    proof {
                                        lemma_after_array_end(ev@, i as int, here);
                                    }
                                    break;
                                }
                            },
                            _ => {
                                proof {
                                    lemma_array_texts_step(ev@, i as int, here, last, arr0, last, array@);
                                }
                            },
                        }
                        k = k + 1;
                    }
                }
            },
            XmlEvent::End(n) => {
                k = k + 1;
                proof {
                    lemma_outside_array_step(ev@, i as int, here0);
                }
                if name_is(n, "SimpleSetPredicate") {
                    break;
                }
            },
            _ => {
                k = k + 1;
                proof {
                    lemma_outside_array_step(ev@, i as int, here0);
                }
            },
        }
    }
    proof {
        if last == -1 {
            assert(set_array_read(ev@, i as int, k as int, array@));
        } else {
            assert(array_text_at(ev@, i as int, last));
            assert(set_array_read(ev@, i as int, k as int, array@));
        }
    }
    Ok((RawPredicate::SimpleSet { field, boolean_operator, array }, k))
}

/// How a mining field is read from its tag.
pub open spec fn mining_field_tag() -> spec_fn(XmlTag, RawMiningField) -> bool {
    |t: XmlTag, m: RawMiningField| mining_field_of(t, m)
}

/// The `MiningField` elements of a `MiningSchema` section whose start tag was
/// just read, up to its end tag, in document order. At the end of the
/// document reading stops when `stop_at_end` holds and fails otherwise.
pub fn parse_mining_schema(ev: &Vec<XmlEvent>, i: usize, stop_at_end: bool) -> (r: Result<
    (Vec<RawMiningField>, usize),
    PmmlError,
>)
    requires
        i <= ev@.len(),
    ensures
        r matches Ok((fields, j)) ==> {
            &&& if stop_at_end {
                stops_at_end_or_tag(ev@, i as int, j as int, "MiningSchema"@)
            } else {
                stops_after_tag(ev@, i as int, j as int, "MiningSchema"@)
            }
            &&& read_in_order(ev@, i as int, j as int, fields@, "MiningField"@, mining_field_tag())
            &&& read_all_in_order(ev@, i as int, j as int, fields@, "MiningField"@, mining_field_tag())
            &&& read_each_reached(ev@, i as int, j as int, fields@, "MiningField"@, mining_field_tag())
        },
        childless(ev@, i as int, "MiningSchema"@) ==> r is Ok,
        element_named(ev@, i as int, "MiningSchema"@) && tags_carry(ev@, i as int, "MiningField"@, "name"@) ==> (r matches Ok((_, j)) && j <= closing(ev@, i - 1) + 1),
{
    let mut fields: Vec<RawMiningField> = Vec::new();
    let ghost mut at: Seq<int> = Seq::empty();
    let ghost q: int = if childless(ev@, i as int, "MiningSchema"@) {
        choose|q: int| plain_until(ev@, i as int, q, "MiningSchema"@)
    } else {
        0
    };
    let mut k = i;
    proof {
        if element_named(ev@, i as int, "MiningSchema"@) {
            lemma_closing(ev@, i - 1);
        }
    }
    loop
        invariant_except_break
            i <= k <= ev@.len(),
            read_at_positions(ev@, i as int, at, fields@, "MiningField"@, mining_field_tag()),
            at.len() > 0 ==> at.last() < k,
            covers_entries(ev@, i as int, k as int, at, "MiningField"@),
            childless(ev@, i as int, "MiningSchema"@) ==> plain_until(ev@, i as int, q, "MiningSchema"@) && k <= q,
            element_named(ev@, i as int, "MiningSchema"@) ==> k <= closing(ev@, i - 1) && closes_at(ev@, i - 1, closing(ev@, i - 1)),
        ensures
            element_named(ev@, i as int, "MiningSchema"@) ==> k <= closing(ev@, i - 1) + 1,
            (stop_at_end && at_end(ev@, k as int)) || (i < k && is_end_named(ev@[k - 1], "MiningSchema"@)),
            read_at_positions(ev@, i as int, at, fields@, "MiningField"@, mining_field_tag()),
            at.len() > 0 ==> at.last() < k,
            covers_entries(ev@, i as int, k as int, at, "MiningField"@),
            i <= k <= ev@.len(),
        decreases ev@.len() - k,
    {
        proof {
            if childless(ev@, i as int, "MiningSchema"@) && k < q {
                assert(plain_event(ev@[k as int], "MiningSchema"@));
            }
        }
        proof {
            if element_named(ev@, i as int, "MiningSchema"@) {
                lemma_nested_step(ev@, i as int, k as int);
            }
        }
        if end_at(ev, k) {
            if stop_at_end {
                break;
            }
            return Err(unexpected_end());
        }
        let ghost here = k as int;
        match &ev[k] {
            XmlEvent::Start(t) => {
                k = k + 1;
                if name_is(&t.name, "MiningField") {
                    let mf = parse_mining_field(t)?;
                    proof {
                        lemma_read_push(ev@, i as int, at, fields@, "MiningField"@, mining_field_tag(), here, mf);
                        lemma_covers_step(ev@, i as int, here, at, "MiningField"@, true);
                        at = at.push(here);
                    }
                    fields.push(mf);
                    if !end_at(ev, k) {
                        proof {
                            lemma_covers_skip(ev@, i as int, k as int, at, "MiningField"@);
                        }
                    }
                    k = skip_one(ev, k);
                } else {
                    proof {
                        lemma_covers_skip(ev@, i as int, here, at, "MiningField"@);
                    }
                }
            },
            XmlEvent::Empty(t) => {
                k = k + 1;
                if name_is(&t.name, "MiningField") {
                    let mf = parse_mining_field(t)?;
                    proof {
                        lemma_read_push(ev@, i as int, at, fields@, "MiningField"@, mining_field_tag(), here, mf);
                        lemma_covers_step(ev@, i as int, here, at, "MiningField"@, true);
                        at = at.push(here);
                    }
                    fields.push(mf);
                } else {
                    proof {
                        lemma_covers_skip(ev@, i as int, here, at, "MiningField"@);
                    }
                }
            },
            XmlEvent::End(n) => {
                proof {
                    lemma_covers_skip(ev@, i as int, here, at, "MiningField"@);
                }
                k = k + 1;
                if name_is(n, "MiningSchema") {
                    break;
                }
            },
            _ => {
                proof {
                    lemma_covers_skip(ev@, i as int, here, at, "MiningField"@);
                }
                k = k + 1;
            },
        }
    }
    proof {
        lemma_read_in_order(ev@, i as int, k as int, at, fields@, "MiningField"@, mining_field_tag());
        assert(read_at_positions(ev@, i as int, at, fields@, "MiningField"@, mining_field_tag()) && (at.len()
            > 0 ==> at.last() < k) && covers_entries(ev@, i as int, k as int, at, "MiningField"@));
        lemma_all_to_each(ev@, i as int, k as int, fields@, "MiningField"@, mining_field_tag());
    }
    Ok((fields, k))
}

/// The `OutputField` elements of an `Output` section whose start tag was just
/// read, up to its end tag. At the end of the document reading stops when
/// `stop_at_end` holds and fails otherwise.
pub fn parse_output(ev: &Vec<XmlEvent>, i: usize, stop_at_end: bool) -> (r: Result<
    (Vec<RawOutputField>, usize),
    PmmlError,
>)
    requires
        i <= ev@.len(),
    ensures
        r matches Ok((fields, j)) ==> read_in_order(ev@, i as int, j as int, fields@, "OutputField"@, output_field_tag())
            && read_all_in_order(ev@, i as int, j as int, fields@, "OutputField"@, output_field_tag())
            && read_each_reached(ev@, i as int, j as int, fields@, "OutputField"@, output_field_tag()) && if stop_at_end {
            stops_at_end_or_tag(ev@, i as int, j as int, "Output"@)
        } else {
            stops_after_tag(ev@, i as int, j as int, "Output"@)
        },
        childless(ev@, i as int, "Output"@) ==> r is Ok,
        element_named(ev@, i as int, "Output"@) && tags_carry(ev@, i as int, "OutputField"@, "name"@) ==> (r matches Ok((_, j)) && j <= closing(ev@, i - 1) + 1),
{
    let mut fields: Vec<RawOutputField> = Vec::new();
    let ghost mut fields_at: Seq<int> = Seq::empty();
    let ghost q: int = if childless(ev@, i as int, "Output"@) {
        choose|q: int| plain_until(ev@, i as int, q, "Output"@)
    } else {
        0
    };
    let mut k = i;
    proof {
        if element_named(ev@, i as int, "Output"@) {
            lemma_closing(ev@, i - 1);
        }
    }
    loop
        invariant_except_break
            element_named(ev@, i as int, "Output"@) ==> k <= closing(ev@, i - 1) && closes_at(ev@, i - 1, closing(ev@, i - 1)),
            i <= k <= ev@.len(),
            read_at_positions(ev@, i as int, fields_at, fields@, "OutputField"@, output_field_tag()),
            fields_at.len() > 0 ==> fields_at.last() < k,
            covers_entries(ev@, i as int, k as int, fields_at, "OutputField"@),
            childless(ev@, i as int, "Output"@) ==> plain_until(ev@, i as int, q, "Output"@) && k <= q,
        ensures
            element_named(ev@, i as int, "Output"@) ==> k <= closing(ev@, i - 1) + 1,
            (stop_at_end && at_end(ev@, k as int)) || (i < k && is_end_named(ev@[k - 1], "Output"@)),
            read_at_positions(ev@, i as int, fields_at, fields@, "OutputField"@, output_field_tag()),
            fields_at.len() > 0 ==> fields_at.last() < k,
            covers_entries(ev@, i as int, k as int, fields_at, "OutputField"@),
            i <= k <= ev@.len(),
        decreases ev@.len() - k,
    {
        proof {
            if childless(ev@, i as int, "Output"@) && k < q {
                assert(plain_event(ev@[k as int], "Output"@));
            }
        }
        proof {
            if element_named(ev@, i as int, "Output"@) {
                lemma_nested_step(ev@, i as int, k as int);
            }
        }
        if end_at(ev, k) {
            if stop_at_end {
                break;
            }
            return Err(unexpected_end());
        }
        let ghost here = k as int;
        match &ev[k] {
            XmlEvent::Start(t) => {
                k = k + 1;
                if name_is(&t.name, "OutputField") {
                    let of = parse_output_field(t)?;
                    let item = of;
                    proof {
                        lemma_read_push(ev@, i as int, fields_at, fields@, "OutputField"@, output_field_tag(), here, item);
                        lemma_covers_step(ev@, i as int, here, fields_at, "OutputField"@, true);
                        fields_at = fields_at.push(here);
                    }
                    fields.push(item);
                    if !end_at(ev, k) {
                        proof {
                            lemma_covers_skip(ev@, i as int, k as int, fields_at, "OutputField"@);
                        }
                    }
                    k = skip_one(ev, k);
                } else {
                    proof {
                        lemma_covers_skip(ev@, i as int, here, fields_at, "OutputField"@);
                    }
                }
            },
            XmlEvent::Empty(t) => {
                k = k + 1;
                if name_is(&t.name, "OutputField") {
                    let of = parse_output_field(t)?;
                    let item = of;
                    proof {
                        lemma_read_push(ev@, i as int, fields_at, fields@, "OutputField"@, output_field_tag(), here, item);
                        lemma_covers_step(ev@, i as int, here, fields_at, "OutputField"@, true);
                        fields_at = fields_at.push(here);
                    }
                    fields.push(item);
                } else {
                    proof {
                        lemma_covers_skip(ev@, i as int, here, fields_at, "OutputField"@);
                    }
                }
            },
            XmlEvent::End(n) => {
                proof {
                    lemma_covers_skip(ev@, i as int, here, fields_at, "OutputField"@);
                }
                k = k + 1;
                if name_is(n, "Output") {
                    break;
                }
            },
            _ => {
                proof {
                    lemma_covers_skip(ev@, i as int, here, fields_at, "OutputField"@);
                }
                k = k + 1;
            },
        }
    }
    proof {
        lemma_read_in_order(ev@, i as int, k as int, fields_at, fields@, "OutputField"@, output_field_tag());
        assert(read_at_positions(ev@, i as int, fields_at, fields@, "OutputField"@, output_field_tag())
            && (fields_at.len() > 0 ==> fields_at.last() < k) && covers_entries(ev@, i as int, k as int, fields_at, "OutputField"@));
        lemma_all_to_each(ev@, i as int, k as int, fields@, "OutputField"@, output_field_tag());
    }
    Ok((fields, k))
}

/// The words of the text events of `s`, in order; text that could not be
/// unescaped has none.
pub open spec fn words_of_texts(s: Seq<XmlEvent>) -> Seq<Seq<char>>
    decreases s.len(),
{
    if s.len() == 0 {
        Seq::empty()
    } else {
        words_of_texts(s.drop_last()) + match s.last() {
            XmlEvent::Text(Some(t)) => words(t@),
            _ => Seq::empty(),
        }
    }
}

/// Append the whitespace-separated words of the texts inside an element
/// named `end_name` whose start tag was just read, up to its end tag.
pub fn parse_words(ev: &Vec<XmlEvent>, i: usize, end_name: &str, out: &mut Vec<String>) -> (r: Result<
    usize,
    PmmlError,
>)
    requires
        i <= ev@.len(),
    ensures
        match r {
            Ok(j) => stops_after_tag(ev@, i as int, j as int, end_name@) && views(final(out)@)
                == views(old(out)@) + words_of_texts(ev@.subrange(i as int, j as int)),
            Err(e) => is_unexpected_end(e),
        },
        element_named(ev@, i as int, end_name@) ==> (r matches Ok(j) && j <= closing(ev@, i - 1) + 1),
{
    let mut k = i;
    proof {
        assert(ev@.subrange(i as int, i as int) =~= Seq::<XmlEvent>::empty());
        assert(views(out@) =~= views(old(out)@) + Seq::<Seq<char>>::empty());
    }
    proof {
        if element_named(ev@, i as int, end_name@) {
            lemma_closing(ev@, i - 1);
        }
    }
    loop
        invariant
            element_named(ev@, i as int, end_name@) ==> k <= closing(ev@, i - 1) && closes_at(ev@, i - 1, closing(ev@, i - 1)),
            i <= k <= ev@.len(),
            views(out@) == views(old(out)@) + words_of_texts(ev@.subrange(i as int, k as int)),
        decreases ev@.len() - k,
    {
        proof {
            if element_named(ev@, i as int, end_name@) {
                lemma_nested_step(ev@, i as int, k as int);
            }
        }
        if end_at(ev, k) {
            return Err(unexpected_end());
        }
        let ghost before = out@;
        proof {
            assert(ev@.subrange(i as int, k + 1 as int).drop_last() =~= ev@.subrange(i as int, k as int));
        }
        match &ev[k] {
            XmlEvent::Text(t) => {
                let mut parts = match t {
                    Some(s) => split_whitespace(s.as_str()),
                    None => Vec::new(),
                };
                let ghost added = parts@;
                out.append(&mut parts);
                proof {
                    assert(views(before + added) =~= views(before) + views(added));
                    assert(views(added) =~= match t {
                        Some(s) => words(s@),
                        None => Seq::<Seq<char>>::empty(),
                    });
                }
            },
            XmlEvent::End(n) => {
                if name_is(n, end_name) {
                    return Ok(k + 1);
                }
            },
            _ => {},
        }
        k = k + 1;
    }
}

/// The content of the last text event of `s`, empty when there is none or
/// when it could not be unescaped.
pub open spec fn last_text(s: Seq<XmlEvent>) -> Seq<char>
    decreases s.len(),
{
    if s.len() == 0 {
        Seq::empty()
    } else {
        match s.last() {
            XmlEvent::Text(Some(t)) => t@,
            XmlEvent::Text(None) => Seq::empty(),
            _ => last_text(s.drop_last()),
        }
    }
}

/// Whether `val` is the cell named `key` read from the events in `[p, q)`:
/// a start tag named `key` at `p` and the last text read after it, before
/// `q`; or an empty-element tag named `key` at `p` with the empty text.
pub open spec fn cell_read_at(ev: Seq<XmlEvent>, p: int, q: int, key: Seq<char>, val: Seq<char>) -> bool {
    &&& 0 <= p < q <= ev.len()
    &&& match ev[p] {
        XmlEvent::Start(t) => t.name@ == key && val == last_text(ev.subrange(p + 1, q)),
        XmlEvent::Empty(t) => t.name@ == key && val.len() == 0,
        _ => false,
    }
}

/// Whether `val` is a cell named `key` read from the events in `[i, j)`.
pub open spec fn cell_read_in(ev: Seq<XmlEvent>, i: int, j: int, key: Seq<char>, val: Seq<char>) -> bool {
    exists|p: int, q: int| i <= p && q <= j && #[trigger] cell_read_at(ev, p, q, key, val)
}

/// Whether every entry of `row` is a cell read from the events in `[i, j)`.
pub open spec fn row_cells_read(ev: Seq<XmlEvent>, i: int, j: int, row: Map<Seq<char>, Seq<char>>) -> bool {
    forall|key: Seq<char>| #[trigger] row.contains_key(key) ==> cell_read_in(ev, i, j, key, row[key])
}

/// Cells read within `[i, k)` were read within `[i, j)` for `k <= j`; a cell
/// read there may be added.
pub proof fn lemma_row_cells_insert(
    ev: Seq<XmlEvent>,
    i: int,
    k: int,
    j: int,
    row: Map<Seq<char>, Seq<char>>,
    p: int,
    q: int,
    key: Seq<char>,
    val: Seq<char>,
)
    requires
        row_cells_read(ev, i, k, row),
        k <= j,
        i <= p,
        q <= j,
        cell_read_at(ev, p, q, key, val),
    ensures
        row_cells_read(ev, i, j, row),
        row_cells_read(ev, i, j, row.insert(key, val)),
{
    lemma_row_cells_widen(ev, i, k, j, row);
    assert forall|x: Seq<char>| #[trigger] row.insert(key, val).contains_key(x) implies cell_read_in(
        ev,
        i,
        j,
        x,
        row.insert(key, val)[x],
    ) by {
        if x == key {
            assert(cell_read_at(ev, p, q, key, val));
        } else {
            assert(row.contains_key(x));
        }
    }
}

/// Cells read within `[i, k)` were read within `[i, j)` for `k <= j`.
pub proof fn lemma_row_cells_widen(ev: Seq<XmlEvent>, i: int, k: int, j: int, row: Map<Seq<char>, Seq<char>>)
    requires
        row_cells_read(ev, i, k, row),
        k <= j,
    ensures
        row_cells_read(ev, i, j, row),
{
    assert forall|x: Seq<char>| #[trigger] row.contains_key(x) implies cell_read_in(ev, i, j, x, row[x]) by {
        assert(cell_read_in(ev, i, k, x, row[x]));
        let (p, q) = choose|p: int, q: int| i <= p && q <= k && #[trigger] cell_read_at(ev, p, q, x, row[x]);
        assert(cell_read_at(ev, p, q, x, row[x]));
    }
}

/// Cells read within `[k, j)` were read within `[i, j)` for `i <= k`.
pub proof fn lemma_row_cells_from(ev: Seq<XmlEvent>, k: int, i: int, j: int, row: Map<Seq<char>, Seq<char>>)
    requires
        row_cells_read(ev, k, j, row),
        i <= k,
    ensures
        row_cells_read(ev, i, j, row),
{
    assert forall|x: Seq<char>| #[trigger] row.contains_key(x) implies cell_read_in(ev, i, j, x, row[x]) by {
        assert(cell_read_in(ev, k, j, x, row[x]));
        let (p, q) = choose|p: int, q: int| k <= p && q <= j && #[trigger] cell_read_at(ev, p, q, x, row[x]);
        assert(cell_read_at(ev, p, q, x, row[x]));
    }
}

/// Whether every row of `rows` holds only cells read from the events in
/// `[i, j)`.
pub open spec fn rows_cells_read(ev: Seq<XmlEvent>, i: int, j: int, rows: Seq<TextMap>) -> bool {
    forall|x: int| 0 <= x < rows.len() ==> #[trigger] row_cells_read(ev, i, j, rows[x]@)
}

/// Rows of cells read within `[i, k)` are rows of cells read within
/// `[i, j)` for `k <= j`.
pub proof fn lemma_rows_cells_widen(ev: Seq<XmlEvent>, i: int, k: int, j: int, rows: Seq<TextMap>)
    requires
        rows_cells_read(ev, i, k, rows),
        k <= j,
    ensures
        rows_cells_read(ev, i, j, rows),
{
    assert forall|x: int| 0 <= x < rows.len() implies #[trigger] row_cells_read(ev, i, j, rows[x]@) by {
        assert(row_cells_read(ev, i, k, rows[x]@));
        lemma_row_cells_widen(ev, i, k, j, rows[x]@);
    }
}

/// Rows of cells read within `[i, h)`, followed by rows of cells read
/// within `[k, j)`, for `h <= j` and `i <= k`: all are rows of cells read
/// within `[i, j)`.
pub proof fn lemma_rows_cells_append(
    ev: Seq<XmlEvent>,
    i: int,
    h: int,
    k: int,
    j: int,
    rows: Seq<TextMap>,
    more: Seq<TextMap>,
)
    requires
        rows_cells_read(ev, i, h, rows),
        rows_cells_read(ev, k, j, more),
        h <= j,
        i <= k,
    ensures
        rows_cells_read(ev, i, j, rows + more),
{
    assert forall|x: int| 0 <= x < (rows + more).len() implies #[trigger] row_cells_read(ev, i, j, (rows + more)[x]@) by {
        if x < rows.len() {
            assert((rows + more)[x] == rows[x]);
            assert(row_cells_read(ev, i, h, rows[x]@));
            lemma_row_cells_widen(ev, i, h, j, rows[x]@);
        } else {
            assert((rows + more)[x] == more[x - rows.len()]);
            assert(row_cells_read(ev, k, j, more[x - rows.len()]@));
            lemma_row_cells_from(ev, k, i, j, more[x - rows.len()]@);
        }
    }
}

/// Rows of cells read within `[i, k)`, with one more row of cells read
/// within `[i, j)`, for `k <= j`: all are rows of cells read within `[i, j)`.
pub proof fn lemma_rows_cells_push(ev: Seq<XmlEvent>, i: int, k: int, j: int, rows: Seq<TextMap>, row: TextMap)
    requires
        rows_cells_read(ev, i, k, rows),
        row_cells_read(ev, i, j, row@),
        k <= j,
    ensures
        rows_cells_read(ev, i, j, rows.push(row)),
{
    assert forall|x: int| 0 <= x < rows.push(row).len() implies #[trigger] row_cells_read(ev, i, j, rows.push(row)[x]@) by {
        if x < rows.len() {
            assert(rows.push(row)[x] == rows[x]);
            assert(row_cells_read(ev, i, k, rows[x]@));
            lemma_row_cells_widen(ev, i, k, j, rows[x]@);
        }
    }
}

/// The last text read inside an `Array` whose start tag was just read
/// (empty when there is none), up to its end tag.
pub fn parse_array_last_text(ev: &Vec<XmlEvent>, i: usize) -> (r: Result<(String, usize), PmmlError>)
    requires
        i <= ev@.len(),
    ensures
        match r {
            Ok((text, j)) => stops_after_tag(ev@, i as int, j as int, "Array"@)
                && text@ == last_text(
                ev@.subrange(i as int, j as int),
            ),
            Err(e) => is_unexpected_end(e),
        },
        element_named(ev@, i as int, "Array"@) ==> (r matches Ok((_, j)) && j <= closing(ev@, i - 1) + 1),
{
    let mut text = String::new();
    let mut k = i;
    proof {
        assert(ev@.subrange(i as int, i as int) =~= Seq::<XmlEvent>::empty());
    }
    proof {
        if element_named(ev@, i as int, "Array"@) {
            lemma_closing(ev@, i - 1);
        }
    }
    loop
        invariant
            element_named(ev@, i as int, "Array"@) ==> k <= closing(ev@, i - 1) && closes_at(ev@, i - 1, closing(ev@, i - 1)),
            i <= k <= ev@.len(),
            text@ == last_text(ev@.subrange(i as int, k as int)),
        decreases ev@.len() - k,
    {
        proof {
            if element_named(ev@, i as int, "Array"@) {
                lemma_nested_step(ev@, i as int, k as int);
            }
        }
        if end_at(ev, k) {
            return Err(unexpected_end());
        }
        proof {
            assert(ev@.subrange(i as int, k + 1 as int).drop_last() =~= ev@.subrange(i as int, k as int));
        }
        match &ev[k] {
            XmlEvent::Text(t) => {
                text = match t {
                    Some(s) => s.clone(),
                    None => String::new(),
                };
            },
            XmlEvent::End(n) => {
                if name_is(n, "Array") {
                    return Ok((text, k + 1));
                }
            },
            _ => {},
        }
        k = k + 1;
    }
}

/// Whether every start (or empty-element) tag named `child` from event `i`
/// on holds the attributes that an entry of type `T` requires.
pub open spec fn entries_complete<T: ListEntry>(ev: Seq<XmlEvent>, i: int, child: Seq<char>) -> bool {
    forall|p: int|
        i <= p < ev.len() ==> match #[trigger] ev[p] {
            XmlEvent::Start(t) => t.name@ == child ==> T::has_required(t),
            XmlEvent::Empty(t) => t.name@ == child ==> T::has_required(t),
            _ => true,
        }
}

/// An entry of a list section, read from the attributes of its tag.
pub trait ListEntry: Sized {
    /// Whether `x` holds what was read from tag `t`.
    spec fn read_from(t: XmlTag, x: Self) -> bool;

    /// Whether tag `t` holds the attributes an entry requires.
    spec fn has_required(t: XmlTag) -> bool;

    /// The entry of tag `t`; an error exactly where a required attribute is
    /// missing.
    fn from_tag(t: &XmlTag) -> (r: Result<Self, PmmlError>)
        ensures
            r matches Ok(x) ==> Self::read_from(*t, x),
            r is Ok <==> Self::has_required(*t),
    ;
}

/// [`ListEntry::read_from`] as a relation.
pub open spec fn entry_tag<T: ListEntry>() -> spec_fn(XmlTag, T) -> bool {
    |t: XmlTag, x: T| T::read_from(t, x)
}

/// The entries read from the children named `child` of a list section named
/// `list` whose start tag was just read, in document order, up to the
/// section's end tag.
pub fn parse_list<T: ListEntry>(ev: &Vec<XmlEvent>, i: usize, list: &str, child: &str) -> (r: Result<
    (Vec<T>, usize),
    PmmlError,
>)
    requires
        i <= ev@.len(),
    ensures
        r matches Ok((xs, j)) ==> {
            &&& stops_after_tag(ev@, i as int, j as int, list@)
            &&& read_all_in_order(ev@, i as int, j as int, xs@, child@, entry_tag::<T>())
            &&& read_in_order(ev@, i as int, j as int, xs@, child@, entry_tag::<T>())
        },
        childless(ev@, i as int, list@) ==> r is Ok,
        element_named(ev@, i as int, list@) && entries_complete::<T>(ev@, i as int, child@) ==> (r matches Ok((_, j)) && j <= closing(ev@, i - 1) + 1),
{
    let mut xs: Vec<T> = Vec::new();
    let ghost mut at: Seq<int> = Seq::empty();
    let ghost q: int = if childless(ev@, i as int, list@) {
        choose|q: int| plain_until(ev@, i as int, q, list@)
    } else {
        0
    };
    let mut k = i;
    proof {
        if element_named(ev@, i as int, list@) {
            lemma_closing(ev@, i - 1);
        }
    }
    loop
        invariant_except_break
            element_named(ev@, i as int, list@) && entries_complete::<T>(ev@, i as int, child@) ==> k <= closing(ev@, i - 1) && closes_at(ev@, i - 1, closing(ev@, i - 1)),
            i <= k <= ev@.len(),
            read_at_positions(ev@, i as int, at, xs@, child@, entry_tag::<T>()),
            at.len() > 0 ==> at.last() < k,
            covers_entries(ev@, i as int, k as int, at, child@),
            childless(ev@, i as int, list@) ==> plain_until(ev@, i as int, q, list@) && k <= q,
        ensures
            element_named(ev@, i as int, list@) && entries_complete::<T>(ev@, i as int, child@) ==> k <= closing(ev@, i - 1) + 1,
            i < k && is_end_named(ev@[k - 1], list@),
            read_at_positions(ev@, i as int, at, xs@, child@, entry_tag::<T>()),
            at.len() > 0 ==> at.last() < k,
            covers_entries(ev@, i as int, k as int, at, child@),
            i <= k <= ev@.len(),
        decreases ev@.len() - k,
    {
        proof {
            if childless(ev@, i as int, list@) && k < q {
                assert(plain_event(ev@[k as int], list@));
            }
        }
        proof {
            if element_named(ev@, i as int, list@) && entries_complete::<T>(ev@, i as int, child@) {
                lemma_nested_step(ev@, i as int, k as int);
            }
        }
        if end_at(ev, k) {
            return Err(unexpected_end());
        }
        let ghost here = k as int;
        match &ev[k] {
            XmlEvent::Start(t) => {
                k = k + 1;
                if name_is(&t.name, child) {
                    let x = T::from_tag(t)?;
                    proof {
                        lemma_read_push(ev@, i as int, at, xs@, child@, entry_tag::<T>(), here, x);
                        lemma_covers_step(ev@, i as int, here, at, child@, true);
                        at = at.push(here);
                    }
                    xs.push(x);
                    if !end_at(ev, k) {
                        proof {
                            lemma_covers_skip(ev@, i as int, k as int, at, child@);
                        }
                    }
                    k = skip_one(ev, k);
                } else {
                    proof {
                        lemma_covers_skip(ev@, i as int, here, at, child@);
                    }
                }
            },
            XmlEvent::Empty(t) => {
                k = k + 1;
                if name_is(&t.name, child) {
                    let x = T::from_tag(t)?;
                    proof {
                        lemma_read_push(ev@, i as int, at, xs@, child@, entry_tag::<T>(), here, x);
                        lemma_covers_step(ev@, i as int, here, at, child@, true);
                        at = at.push(here);
                    }
                    xs.push(x);
                } else {
                    proof {
                        lemma_covers_skip(ev@, i as int, here, at, child@);
                    }
                }
            },
            XmlEvent::End(n) => {
                proof {
                    lemma_covers_skip(ev@, i as int, here, at, child@);
                }
                k = k + 1;
                if name_is(n, list) {
                    break;
                }
            },
            _ => {
                proof {
                    lemma_covers_skip(ev@, i as int, here, at, child@);
                }
                k = k + 1;
            },
        }
    }
    proof {
        lemma_read_in_order(ev@, i as int, k as int, at, xs@, child@, entry_tag::<T>());
        assert(read_at_positions(ev@, i as int, at, xs@, child@, entry_tag::<T>()) && (at.len() > 0
            ==> at.last() < k) && covers_entries(ev@, i as int, k as int, at, child@));
    }
    Ok((xs, k))
}

} // verus!
