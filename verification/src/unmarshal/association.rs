//! `AssociationModel`: items, itemsets of item references, and the rules
//! that relate an antecedent itemset to a consequent one.

use vstd::prelude::*;
use crate::unmarshal::cursor::{start_named_at};
use crate::unmarshal::nesting::{closing, closes_at, lemma_nested_step, lemma_closing, model_readable, attrs_complete};
use crate::error::PmmlError;
use crate::xml::{XmlEvent, XmlTag, attr, attr_required, tag_attr, opt_view, is_missing_attr, name_is};
use crate::unmarshal::raw::{
    RawAssociationModel, RawItem, RawItemset, RawAssociationRule, RawMiningField, RawDerivedField,
};
use crate::unmarshal::common::{parse_mining_schema, mining_field_tag};
use crate::unmarshal::expr::{parse_local_transformations, derived_field_tag};
use crate::unmarshal::cursor::{
    element_named, tags_carry,
    sections_read, read_each_section, lemma_sections_push, lemma_sections_widen,
    spans_ok, covers_level, read_each_reached, lemma_covers_level_step, span_step, lemma_read_each_reached,
    end_at, skip_one, unexpected_end, at_end, is_end_named, stops_after_tag, stops_at_end_or_tag, read_at_positions, read_in_order, lemma_read_extend, lemma_read_in_order, lemma_read_push, read_all_in_order, covers_entries, lemma_covers_step, lemma_covers_skip,
};

verus! {

/// Whether `m` holds the attributes of `Item` tag `t`.
pub open spec fn item_of(t: XmlTag, m: RawItem) -> bool {
    tag_attr(t, "id"@) == Some(m.id@) && tag_attr(t, "value"@) == Some(m.value@)
}

/// An `Item` from its tag; `id` and then `value` are required.
pub fn parse_item(t: &XmlTag) -> (r: Result<RawItem, PmmlError>)
    ensures
        match r {
            Ok(m) => item_of(*t, m),
            Err(e) => (tag_attr(*t, "id"@) is None && is_missing_attr(e, "Item"@, "id"@)) || (
            tag_attr(*t, "id"@) is Some && tag_attr(*t, "value"@) is None && is_missing_attr(
                e,
                "Item"@,
                "value"@,
            )),
        },
{
    let id = attr_required(t, "id", "Item")?;
    let value = attr_required(t, "value", "Item")?;
    Ok(RawItem { id, value })
}

/// Whether `r` holds the attributes of `AssociationRule` tag `t`.
pub open spec fn association_rule_of(t: XmlTag, r: RawAssociationRule) -> bool {
    &&& tag_attr(t, "antecedent"@) == Some(r.antecedent@)
    &&& tag_attr(t, "consequent"@) == Some(r.consequent@)
    &&& opt_view(r.support) == tag_attr(t, "support"@)
    &&& opt_view(r.confidence) == tag_attr(t, "confidence"@)
    &&& opt_view(r.lift) == tag_attr(t, "lift"@)
}

/// An `AssociationRule` from its tag; `antecedent` and then `consequent` are
/// required.
pub fn parse_association_rule(t: &XmlTag) -> (r: Result<RawAssociationRule, PmmlError>)
    ensures
        match r {
            Ok(a) => association_rule_of(*t, a),
            Err(e) => (tag_attr(*t, "antecedent"@) is None && is_missing_attr(
                e,
                "AssociationRule"@,
                "antecedent"@,
            )) || (tag_attr(*t, "antecedent"@) is Some && tag_attr(*t, "consequent"@) is None
                && is_missing_attr(e, "AssociationRule"@, "consequent"@)),
        },
{
    let antecedent = attr_required(t, "antecedent", "AssociationRule")?;
    let consequent = attr_required(t, "consequent", "AssociationRule")?;
    let support = attr(t, "support");
    let confidence = attr(t, "confidence");
    let lift = attr(t, "lift");
    Ok(RawAssociationRule { antecedent, consequent, support, confidence, lift })
}

/// How an item is read from its tag.
pub open spec fn item_tag() -> spec_fn(XmlTag, RawItem) -> bool {
    |t: XmlTag, m: RawItem| item_of(t, m)
}

/// How an association rule is read from its tag.
pub open spec fn association_rule_tag() -> spec_fn(XmlTag, RawAssociationRule) -> bool {
    |t: XmlTag, r: RawAssociationRule| association_rule_of(t, r)
}

/// How an itemset is read from its tag: its `id`.
pub open spec fn itemset_tag() -> spec_fn(XmlTag, RawItemset) -> bool {
    |t: XmlTag, s: RawItemset| tag_attr(t, "id"@) == Some(s.id@)
}

/// How an item reference is read from its tag: its `itemRef`.
pub open spec fn item_ref_tag() -> spec_fn(XmlTag, String) -> bool {
    |t: XmlTag, r: String| tag_attr(t, "itemRef"@) == Some(r@)
}

/// An `Itemset` whose start tag was just read: `id` is required; the
/// `itemRef` of each `ItemRef`, in order, up to its end tag.
fn parse_itemset(ev: &Vec<XmlEvent>, i: usize, start: &XmlTag) -> (r: Result<(RawItemset, usize), PmmlError>)
    requires
        i <= ev@.len(),
    ensures
        match r {
            Ok((s, j)) => read_in_order(ev@, i as int, j as int, s.item_refs@, "ItemRef"@, item_ref_tag())
            && read_all_in_order(ev@, i as int, j as int, s.item_refs@, "ItemRef"@, item_ref_tag())
                && stops_after_tag(ev@, i as int, j as int, "Itemset"@)
                && tag_attr(*start, "id"@) == Some(
                s.id@,
            ),
            Err(e) => tag_attr(*start, "id"@) is None ==> is_missing_attr(e, "Itemset"@, "id"@),
        },
        element_named(ev@, i as int, "Itemset"@) && attrs_complete(ev@, i as int) && tag_attr(*start, "id"@) is Some ==> (r matches Ok((_, j)) && j <= closing(ev@, i - 1) + 1),
{
    let id = attr_required(start, "id", "Itemset")?;
    let mut item_refs: Vec<String> = Vec::new();
    let ghost mut item_refs_at: Seq<int> = Seq::empty();
    let mut k = i;
    proof {
        if element_named(ev@, i as int, "Itemset"@) {
            lemma_closing(ev@, i - 1);
        }
    }
    loop
        invariant_except_break
            element_named(ev@, i as int, "Itemset"@) && attrs_complete(ev@, i as int) && tag_attr(*start, "id"@) is Some ==> k <= closing(ev@, i - 1) && closes_at(ev@, i - 1, closing(ev@, i - 1)),
            i <= k <= ev@.len(),
            tag_attr(*start, "id"@) == Some(id@),
            read_at_positions(ev@, i as int, item_refs_at, item_refs@, "ItemRef"@, item_ref_tag()),
            item_refs_at.len() > 0 ==> item_refs_at.last() < k,
            covers_entries(ev@, i as int, k as int, item_refs_at, "ItemRef"@),
        ensures
            element_named(ev@, i as int, "Itemset"@) && attrs_complete(ev@, i as int) && tag_attr(*start, "id"@) is Some ==> k <= closing(ev@, i - 1) + 1,
            i <= k <= ev@.len(),
            tag_attr(*start, "id"@) == Some(id@),
            read_at_positions(ev@, i as int, item_refs_at, item_refs@, "ItemRef"@, item_ref_tag()),
            item_refs_at.len() > 0 ==> item_refs_at.last() < k,
            covers_entries(ev@, i as int, k as int, item_refs_at, "ItemRef"@),
            i < k && is_end_named(ev@[k - 1], "Itemset"@),
            read_at_positions(ev@, i as int, item_refs_at, item_refs@, "ItemRef"@, item_ref_tag()),
            item_refs_at.len() > 0 ==> item_refs_at.last() < k,
            covers_entries(ev@, i as int, k as int, item_refs_at, "ItemRef"@),
        decreases ev@.len() - k,
    {
        proof {
            if element_named(ev@, i as int, "Itemset"@) && attrs_complete(ev@, i as int) && tag_attr(*start, "id"@) is Some {
                lemma_nested_step(ev@, i as int, k as int);
            }
        }
        if end_at(ev, k) {
            return Err(unexpected_end());
        }
        let ghost here = k as int;
        match &ev[k] {
            XmlEvent::Start(t) => {
                k = k + 1;
                if name_is(&t.name, "ItemRef") {
                    let item = attr_required(t, "itemRef", "ItemRef")?;
                    proof {
                        lemma_read_push(ev@, i as int, item_refs_at, item_refs@, "ItemRef"@, item_ref_tag(), here, item);
                        lemma_covers_step(ev@, i as int, here, item_refs_at, "ItemRef"@, true);
                        item_refs_at = item_refs_at.push(here);
                    }
                    item_refs.push(item);
                    if !end_at(ev, k) {
                        proof {
                            lemma_covers_skip(ev@, i as int, k as int, item_refs_at, "ItemRef"@);
                        }
                    }
                    k = skip_one(ev, k);
                } else {
                    proof {
                        lemma_covers_skip(ev@, i as int, here, item_refs_at, "ItemRef"@);
                    }
                }
            },
            XmlEvent::Empty(t) => {
                k = k + 1;
                if name_is(&t.name, "ItemRef") {
                    let item = attr_required(t, "itemRef", "ItemRef")?;
                    proof {
                        lemma_read_push(ev@, i as int, item_refs_at, item_refs@, "ItemRef"@, item_ref_tag(), here, item);
                        lemma_covers_step(ev@, i as int, here, item_refs_at, "ItemRef"@, true);
                        item_refs_at = item_refs_at.push(here);
                    }
                    item_refs.push(item);
                } else {
                    proof {
                        lemma_covers_skip(ev@, i as int, here, item_refs_at, "ItemRef"@);
                    }
                }
            },
            XmlEvent::End(n) => {
                proof {
                    lemma_covers_skip(ev@, i as int, here, item_refs_at, "ItemRef"@);
                }
                k = k + 1;
                if name_is(n, "Itemset") {
                    break;
                }
            },
            _ => {
                proof {
                    lemma_covers_skip(ev@, i as int, here, item_refs_at, "ItemRef"@);
                }
                k = k + 1;
            },
        }
    }
    proof {
        lemma_read_in_order(ev@, i as int, k as int, item_refs_at, item_refs@, "ItemRef"@, item_ref_tag());
        assert(read_at_positions(ev@, i as int, item_refs_at, item_refs@, "ItemRef"@, item_ref_tag()) && (item_refs_at.len() > 0 ==> item_refs_at.last() < k)
            && covers_entries(ev@, i as int, k as int, item_refs_at, "ItemRef"@));
    }
    Ok((RawItemset { id, item_refs }, k))
}

/// Whether `m` holds the attributes of `AssociationModel` tag `t`.
pub open spec fn association_model_of(t: XmlTag, m: RawAssociationModel) -> bool {
    &&& tag_attr(t, "functionName"@) == Some(m.function_name@)
    &&& m.output@.len() == 0
    &&& m.targets@.len() == 0
}

/// An `AssociationModel` whose start tag was just read, up to its end tag or
/// the end of the document: `functionName` is required.
pub fn parse_association_model(ev: &Vec<XmlEvent>, i: usize, start: &XmlTag) -> (r: Result<
    (RawAssociationModel, usize),
    PmmlError,
>)
    requires
        0 < i <= ev@.len(),
    ensures
        match r {
            Ok((m, j)) => read_each_section(ev@, i as int, j as int, m.local_derived_fields@, "LocalTransformations"@, "DerivedField"@, derived_field_tag())
                && read_each_section(ev@, i as int, j as int, m.mining_schema@, "MiningSchema"@, "MiningField"@, mining_field_tag())
                && read_each_reached(ev@, i as int, j as int, m.items@, "Item"@, item_tag()) && read_each_reached(ev@, i as int, j as int, m.itemsets@, "Itemset"@, itemset_tag()) && read_each_reached(ev@, i as int, j as int, m.rules@, "AssociationRule"@, association_rule_tag())
                && read_in_order(ev@, i as int, j as int, m.local_derived_fields@, "DerivedField"@, derived_field_tag()) && read_in_order(ev@, i as int, j as int, m.rules@, "AssociationRule"@, association_rule_tag())
                && read_in_order(ev@, i as int, j as int, m.itemsets@, "Itemset"@, itemset_tag())
                && read_in_order(ev@, i as int, j as int, m.items@, "Item"@, item_tag())
                && read_in_order(ev@, i as int, j as int, m.mining_schema@, "MiningField"@, mining_field_tag())
                && stops_at_end_or_tag(ev@, i as int, j as int, "AssociationModel"@)
                && association_model_of(*start, m),
            Err(e) => tag_attr(*start, "functionName"@) is None ==> is_missing_attr(
                e,
                "AssociationModel"@,
                "functionName"@,
            ),
        },
        element_named(ev@, i as int, "AssociationModel"@) && model_readable(ev@, i as int, *start, "AssociationModel"@) ==> (r matches Ok((_, j)) && j <= closing(ev@, i - 1) + 1),
{
    let function_name = attr_required(start, "functionName", "AssociationModel")?;
    let mut mining_schema: Vec<RawMiningField> = Vec::new();
    let ghost mut schema_at: Seq<int> = Seq::empty();
    let mut items: Vec<RawItem> = Vec::new();
    let ghost mut items_at: Seq<int> = Seq::empty();
    let mut itemsets: Vec<RawItemset> = Vec::new();
    let ghost mut itemsets_at: Seq<int> = Seq::empty();
    let mut rules: Vec<RawAssociationRule> = Vec::new();
    let ghost mut rules_at: Seq<int> = Seq::empty();
    let mut local_derived_fields: Vec<RawDerivedField> = Vec::new();
    let ghost mut local_derived_fields_at: Seq<int> = Seq::empty();
    let ghost mut spans: Seq<(int, int)> = Seq::empty();
    let ghost mut ms_secs: Seq<int> = Seq::empty();
    let ghost mut ms_ends: Seq<int> = Seq::empty();
    let ghost mut ms_parts: Seq<Seq<RawMiningField>> = Seq::empty();
    let ghost mut ms_spans: Seq<(int, int)> = Seq::empty();
    proof {
        assert(ms_parts.flatten() =~= Seq::<RawMiningField>::empty());
    }
    let ghost mut ldf_secs: Seq<int> = Seq::empty();
    let ghost mut ldf_ends: Seq<int> = Seq::empty();
    let ghost mut ldf_parts: Seq<Seq<RawDerivedField>> = Seq::empty();
    let ghost mut ldf_spans: Seq<(int, int)> = Seq::empty();
    proof {
        assert(ldf_parts.flatten() =~= Seq::<RawDerivedField>::empty());
    }
    let mut k = i;
    proof {
        if element_named(ev@, i as int, "AssociationModel"@) {
            lemma_closing(ev@, i - 1);
        }
    }
    loop
        invariant_except_break
            element_named(ev@, i as int, "AssociationModel"@) && model_readable(ev@, i as int, *start, "AssociationModel"@) ==> k <= closing(ev@, i - 1) && closes_at(ev@, i - 1, closing(ev@, i - 1)),
            0 < i <= k <= ev@.len(),
            sections_read(ev@, i as int, k as int, ldf_secs, ldf_ends, ldf_parts, "LocalTransformations"@, "DerivedField"@, derived_field_tag()),
            covers_level(ev@, i as int, k as int, ldf_secs, ldf_spans, "LocalTransformations"@),
            spans_ok(ev@, ldf_spans, i as int, k as int),
            local_derived_fields@ == ldf_parts.flatten(),
            sections_read(ev@, i as int, k as int, ms_secs, ms_ends, ms_parts, "MiningSchema"@, "MiningField"@, mining_field_tag()),
            covers_level(ev@, i as int, k as int, ms_secs, ms_spans, "MiningSchema"@),
            spans_ok(ev@, ms_spans, i as int, k as int),
            mining_schema@ == ms_parts.flatten(),
            spans_ok(ev@, spans, i as int, k as int),
            covers_level(ev@, i as int, k as int, items_at, spans, "Item"@),
            covers_level(ev@, i as int, k as int, itemsets_at, spans, "Itemset"@),
            covers_level(ev@, i as int, k as int, rules_at, spans, "AssociationRule"@),
            tag_attr(*start, "functionName"@) == Some(function_name@),
            read_at_positions(ev@, i as int, schema_at, mining_schema@, "MiningField"@, mining_field_tag()),
            schema_at.len() > 0 ==> schema_at.last() < k,
            read_at_positions(ev@, i as int, items_at, items@, "Item"@, item_tag()),
            items_at.len() > 0 ==> items_at.last() < k,
            read_at_positions(ev@, i as int, itemsets_at, itemsets@, "Itemset"@, itemset_tag()),
            itemsets_at.len() > 0 ==> itemsets_at.last() < k,
            read_at_positions(ev@, i as int, rules_at, rules@, "AssociationRule"@, association_rule_tag()),
            rules_at.len() > 0 ==> rules_at.last() < k,
            read_at_positions(ev@, i as int, local_derived_fields_at, local_derived_fields@, "DerivedField"@, derived_field_tag()),
            local_derived_fields_at.len() > 0 ==> local_derived_fields_at.last() < k,
        ensures
            element_named(ev@, i as int, "AssociationModel"@) && model_readable(ev@, i as int, *start, "AssociationModel"@) ==> k <= closing(ev@, i - 1) + 1,
            0 < i <= k <= ev@.len(),
            sections_read(ev@, i as int, k as int, ldf_secs, ldf_ends, ldf_parts, "LocalTransformations"@, "DerivedField"@, derived_field_tag()),
            covers_level(ev@, i as int, k as int, ldf_secs, ldf_spans, "LocalTransformations"@),
            spans_ok(ev@, ldf_spans, i as int, k as int),
            local_derived_fields@ == ldf_parts.flatten(),
            sections_read(ev@, i as int, k as int, ms_secs, ms_ends, ms_parts, "MiningSchema"@, "MiningField"@, mining_field_tag()),
            covers_level(ev@, i as int, k as int, ms_secs, ms_spans, "MiningSchema"@),
            spans_ok(ev@, ms_spans, i as int, k as int),
            mining_schema@ == ms_parts.flatten(),
            spans_ok(ev@, spans, i as int, k as int),
            covers_level(ev@, i as int, k as int, items_at, spans, "Item"@),
            covers_level(ev@, i as int, k as int, itemsets_at, spans, "Itemset"@),
            covers_level(ev@, i as int, k as int, rules_at, spans, "AssociationRule"@),
            tag_attr(*start, "functionName"@) == Some(function_name@),
            read_at_positions(ev@, i as int, schema_at, mining_schema@, "MiningField"@, mining_field_tag()),
            schema_at.len() > 0 ==> schema_at.last() < k,
            read_at_positions(ev@, i as int, items_at, items@, "Item"@, item_tag()),
            items_at.len() > 0 ==> items_at.last() < k,
            read_at_positions(ev@, i as int, itemsets_at, itemsets@, "Itemset"@, itemset_tag()),
            itemsets_at.len() > 0 ==> itemsets_at.last() < k,
            read_at_positions(ev@, i as int, rules_at, rules@, "AssociationRule"@, association_rule_tag()),
            rules_at.len() > 0 ==> rules_at.last() < k,
            read_at_positions(ev@, i as int, local_derived_fields_at, local_derived_fields@, "DerivedField"@, derived_field_tag()),
            local_derived_fields_at.len() > 0 ==> local_derived_fields_at.last() < k,
            at_end(ev@, k as int) || (i < k && is_end_named(ev@[k - 1], "AssociationModel"@)),
            sections_read(ev@, i as int, k as int, ldf_secs, ldf_ends, ldf_parts, "LocalTransformations"@, "DerivedField"@, derived_field_tag()),
            covers_level(ev@, i as int, k as int, ldf_secs, ldf_spans, "LocalTransformations"@),
            spans_ok(ev@, ldf_spans, i as int, k as int),
            local_derived_fields@ == ldf_parts.flatten(),
            sections_read(ev@, i as int, k as int, ms_secs, ms_ends, ms_parts, "MiningSchema"@, "MiningField"@, mining_field_tag()),
            covers_level(ev@, i as int, k as int, ms_secs, ms_spans, "MiningSchema"@),
            spans_ok(ev@, ms_spans, i as int, k as int),
            mining_schema@ == ms_parts.flatten(),
            spans_ok(ev@, spans, i as int, k as int),
            covers_level(ev@, i as int, k as int, items_at, spans, "Item"@),
            covers_level(ev@, i as int, k as int, itemsets_at, spans, "Itemset"@),
            covers_level(ev@, i as int, k as int, rules_at, spans, "AssociationRule"@),
            read_at_positions(ev@, i as int, schema_at, mining_schema@, "MiningField"@, mining_field_tag()),
            schema_at.len() > 0 ==> schema_at.last() < k,
            read_at_positions(ev@, i as int, items_at, items@, "Item"@, item_tag()),
            items_at.len() > 0 ==> items_at.last() < k,
            read_at_positions(ev@, i as int, itemsets_at, itemsets@, "Itemset"@, itemset_tag()),
            itemsets_at.len() > 0 ==> itemsets_at.last() < k,
            read_at_positions(ev@, i as int, rules_at, rules@, "AssociationRule"@, association_rule_tag()),
            rules_at.len() > 0 ==> rules_at.last() < k,
            read_at_positions(ev@, i as int, local_derived_fields_at, local_derived_fields@, "DerivedField"@, derived_field_tag()),
            local_derived_fields_at.len() > 0 ==> local_derived_fields_at.last() < k,
        decreases ev@.len() - k,
    {
        proof {
            if element_named(ev@, i as int, "AssociationModel"@) && model_readable(ev@, i as int, *start, "AssociationModel"@) {
                lemma_nested_step(ev@, i as int, k as int);
                if k < closing(ev@, i - 1) {
                    assert(!start_named_at(ev@, k as int, "LocalTransformations"@));
                    assert(!is_end_named(ev@[k as int], "AssociationModel"@));
                }
            }
        }
        if end_at(ev, k) {
            break;
        }
        let ghost ldf_here = k as int;
        let ghost ldf_secs0 = ldf_secs;
        let ghost mut ldf_stepped = false;
        proof {
            reveal_strlit("AssociationRule");
            reveal_strlit("Item");
            reveal_strlit("Itemset");
            reveal_strlit("LocalTransformations");
            reveal_strlit("MiningSchema");
            assert("LocalTransformations"@ != "AssociationRule"@) by { assert("LocalTransformations"@.len() != "AssociationRule"@.len()); }
            assert("LocalTransformations"@ != "Item"@) by { assert("LocalTransformations"@.len() != "Item"@.len()); }
            assert("LocalTransformations"@ != "Itemset"@) by { assert("LocalTransformations"@.len() != "Itemset"@.len()); }
            assert("LocalTransformations"@ != "MiningSchema"@) by { assert("LocalTransformations"@.len() != "MiningSchema"@.len()); }
        }
        let ghost ms_here = k as int;
        let ghost ms_secs0 = ms_secs;
        let ghost mut ms_stepped = false;
        proof {
            reveal_strlit("AssociationRule");
            reveal_strlit("Item");
            reveal_strlit("Itemset");
            reveal_strlit("LocalTransformations");
            reveal_strlit("MiningSchema");
            assert("MiningSchema"@ != "AssociationRule"@) by { assert("MiningSchema"@.len() != "AssociationRule"@.len()); }
            assert("MiningSchema"@ != "Item"@) by { assert("MiningSchema"@.len() != "Item"@.len()); }
            assert("MiningSchema"@ != "Itemset"@) by { assert("MiningSchema"@.len() != "Itemset"@.len()); }
            assert("MiningSchema"@ != "LocalTransformations"@) by { assert("MiningSchema"@.len() != "LocalTransformations"@.len()); }
        }
        let ghost here = k as int;
        let ghost items_at0 = items_at;
        let ghost itemsets_at0 = itemsets_at;
        let ghost rules_at0 = rules_at;
        let ghost mut stepped = false;
        proof {
            reveal_strlit("AssociationRule");
            reveal_strlit("Item");
            reveal_strlit("Itemset");
            reveal_strlit("LocalTransformations");
            reveal_strlit("MiningSchema");
            assert("Item"@ != "AssociationRule"@) by { assert("Item"@.len() != "AssociationRule"@.len()); }
            assert("Item"@ != "Itemset"@) by { assert("Item"@.len() != "Itemset"@.len()); }
            assert("Item"@ != "LocalTransformations"@) by { assert("Item"@.len() != "LocalTransformations"@.len()); }
            assert("Item"@ != "MiningSchema"@) by { assert("Item"@.len() != "MiningSchema"@.len()); }
            assert("Itemset"@ != "AssociationRule"@) by { assert("Itemset"@.len() != "AssociationRule"@.len()); }
            assert("Itemset"@ != "Item"@) by { assert("Itemset"@.len() != "Item"@.len()); }
            assert("Itemset"@ != "LocalTransformations"@) by { assert("Itemset"@.len() != "LocalTransformations"@.len()); }
            assert("Itemset"@ != "MiningSchema"@) by { assert("Itemset"@.len() != "MiningSchema"@.len()); }
            assert("AssociationRule"@ != "Item"@) by { assert("AssociationRule"@.len() != "Item"@.len()); }
            assert("AssociationRule"@ != "Itemset"@) by { assert("AssociationRule"@.len() != "Itemset"@.len()); }
            assert("AssociationRule"@ != "LocalTransformations"@) by { assert("AssociationRule"@.len() != "LocalTransformations"@.len()); }
            assert("AssociationRule"@ != "MiningSchema"@) by { assert("AssociationRule"@.len() != "MiningSchema"@.len()); }
        }
        match &ev[k] {
            XmlEvent::Start(t) => {
                k = k + 1;
                if name_is(&t.name, "MiningSchema") {
                    let ghost ms_before = mining_schema@;
                    let (mut fields, j) = parse_mining_schema(ev, k, false)?;
                    let ghost ms_ys = fields@;
                    proof {
                        schema_at = lemma_read_extend(ev@, i as int, schema_at, mining_schema@, "MiningField"@, mining_field_tag(), k as int, j as int, fields@);
                    }
                    mining_schema.append(&mut fields);
                    proof {
                        assert(mining_schema@ =~= ms_before + ms_ys);
                        lemma_sections_push(ev@, i as int, ms_here, j as int, ms_secs, ms_ends, ms_parts, ms_ys, "MiningSchema"@, "MiningField"@, mining_field_tag());
                        lemma_covers_level_step(ev@, i as int, ms_here, j as int, ms_secs0, ms_secs0.push(ms_here), ms_spans, "MiningSchema"@);
                        ms_secs = ms_secs.push(ms_here);
                        ms_ends = ms_ends.push(j as int);
                        ms_parts = ms_parts.push(ms_ys);
                        ms_spans = span_step(ms_spans, ms_here, j as int);
                        ms_stepped = true;
                    }
                    k = j;
                } else if name_is(&t.name, "Item") {
                    let item = parse_item(t)?;
                    proof {
                        lemma_read_push(ev@, i as int, items_at, items@, "Item"@, item_tag(), here, item);
                        items_at = items_at.push(here);
                    }
                    items.push(item);
                    k = skip_one(ev, k);
                } else if name_is(&t.name, "Itemset") {
                    let (s, j) = parse_itemset(ev, k, t)?;
                    let item = s;
                    proof {
                        lemma_read_push(ev@, i as int, itemsets_at, itemsets@, "Itemset"@, itemset_tag(), here, item);
                        itemsets_at = itemsets_at.push(here);
                    }
                    itemsets.push(item);
                    k = j;
                } else if name_is(&t.name, "AssociationRule") {
                    let item = parse_association_rule(t)?;
                    proof {
                        lemma_read_push(ev@, i as int, rules_at, rules@, "AssociationRule"@, association_rule_tag(), here, item);
                        rules_at = rules_at.push(here);
                    }
                    rules.push(item);
                    k = skip_one(ev, k);
                } else if name_is(&t.name, "LocalTransformations") {
                    let ghost ldf_before = local_derived_fields@;
                    let (mut fields, j) = parse_local_transformations(ev, k)?;
                    let ghost ldf_ys = fields@;
                    proof {
                        local_derived_fields_at = lemma_read_extend(ev@, i as int, local_derived_fields_at, local_derived_fields@, "DerivedField"@, derived_field_tag(), k as int, j as int, fields@);
                    }
                    local_derived_fields.append(&mut fields);
                    proof {
                        assert(local_derived_fields@ =~= ldf_before + ldf_ys);
                        lemma_sections_push(ev@, i as int, ldf_here, j as int, ldf_secs, ldf_ends, ldf_parts, ldf_ys, "LocalTransformations"@, "DerivedField"@, derived_field_tag());
                        lemma_covers_level_step(ev@, i as int, ldf_here, j as int, ldf_secs0, ldf_secs0.push(ldf_here), ldf_spans, "LocalTransformations"@);
                        ldf_secs = ldf_secs.push(ldf_here);
                        ldf_ends = ldf_ends.push(j as int);
                        ldf_parts = ldf_parts.push(ldf_ys);
                        ldf_spans = span_step(ldf_spans, ldf_here, j as int);
                        ldf_stepped = true;
                    }
                    k = j;
                }
            },
            XmlEvent::Empty(t) => {
                k = k + 1;
                if name_is(&t.name, "Item") {
                    let item = parse_item(t)?;
                    proof {
                        lemma_read_push(ev@, i as int, items_at, items@, "Item"@, item_tag(), here, item);
                        items_at = items_at.push(here);
                    }
                    items.push(item);
                } else if name_is(&t.name, "AssociationRule") {
                    let item = parse_association_rule(t)?;
                    proof {
                        lemma_read_push(ev@, i as int, rules_at, rules@, "AssociationRule"@, association_rule_tag(), here, item);
                        rules_at = rules_at.push(here);
                    }
                    rules.push(item);
                }
            },
            XmlEvent::End(n) => {
                k = k + 1;
                proof {
                    lemma_covers_level_step(ev@, i as int, ldf_here, k as int, ldf_secs0, ldf_secs0, ldf_spans, "LocalTransformations"@);
                    lemma_sections_widen(ev@, i as int, ldf_here, k as int, ldf_secs, ldf_ends, ldf_parts, "LocalTransformations"@, "DerivedField"@, derived_field_tag());
                    ldf_spans = span_step(ldf_spans, ldf_here, k as int);
                    ldf_stepped = true;
                }
                proof {
                    lemma_covers_level_step(ev@, i as int, ms_here, k as int, ms_secs0, ms_secs0, ms_spans, "MiningSchema"@);
                    lemma_sections_widen(ev@, i as int, ms_here, k as int, ms_secs, ms_ends, ms_parts, "MiningSchema"@, "MiningField"@, mining_field_tag());
                    ms_spans = span_step(ms_spans, ms_here, k as int);
                    ms_stepped = true;
                }
                proof {
                    lemma_covers_level_step(ev@, i as int, here, k as int, items_at0, items_at, spans, "Item"@);
                    lemma_covers_level_step(ev@, i as int, here, k as int, itemsets_at0, itemsets_at, spans, "Itemset"@);
                    lemma_covers_level_step(ev@, i as int, here, k as int, rules_at0, rules_at, spans, "AssociationRule"@);
                    spans = span_step(spans, here, k as int);
                    stepped = true;
                }
                if name_is(n, "AssociationModel") {
                    break;
                }
            },
            _ => {
                k = k + 1;
            },
        }
        proof {
            if !ldf_stepped {
                lemma_covers_level_step(ev@, i as int, ldf_here, k as int, ldf_secs0, ldf_secs0, ldf_spans, "LocalTransformations"@);
                lemma_sections_widen(ev@, i as int, ldf_here, k as int, ldf_secs, ldf_ends, ldf_parts, "LocalTransformations"@, "DerivedField"@, derived_field_tag());
                ldf_spans = span_step(ldf_spans, ldf_here, k as int);
                ldf_stepped = true;
            }
        }
        proof {
            if !ms_stepped {
                lemma_covers_level_step(ev@, i as int, ms_here, k as int, ms_secs0, ms_secs0, ms_spans, "MiningSchema"@);
                lemma_sections_widen(ev@, i as int, ms_here, k as int, ms_secs, ms_ends, ms_parts, "MiningSchema"@, "MiningField"@, mining_field_tag());
                ms_spans = span_step(ms_spans, ms_here, k as int);
                ms_stepped = true;
            }
        }
        proof {
            if !stepped {
                lemma_covers_level_step(ev@, i as int, here, k as int, items_at0, items_at, spans, "Item"@);
                lemma_covers_level_step(ev@, i as int, here, k as int, itemsets_at0, itemsets_at, spans, "Itemset"@);
                lemma_covers_level_step(ev@, i as int, here, k as int, rules_at0, rules_at, spans, "AssociationRule"@);
                spans = span_step(spans, here, k as int);
            }
        }
    }
    proof {
        lemma_read_each_reached(ev@, i as int, k as int, items_at, spans, items@, "Item"@, item_tag());
        lemma_read_each_reached(ev@, i as int, k as int, itemsets_at, spans, itemsets@, "Itemset"@, itemset_tag());
        lemma_read_each_reached(ev@, i as int, k as int, rules_at, spans, rules@, "AssociationRule"@, association_rule_tag());
    }
    proof {
        lemma_read_in_order(ev@, i as int, k as int, schema_at, mining_schema@, "MiningField"@, mining_field_tag());
    }
    proof {
        lemma_read_in_order(ev@, i as int, k as int, items_at, items@, "Item"@, item_tag());
    }
    proof {
        lemma_read_in_order(ev@, i as int, k as int, itemsets_at, itemsets@, "Itemset"@, itemset_tag());
    }
    proof {
        lemma_read_in_order(ev@, i as int, k as int, rules_at, rules@, "AssociationRule"@, association_rule_tag());
    }
    proof {
        lemma_read_in_order(ev@, i as int, k as int, local_derived_fields_at, local_derived_fields@, "DerivedField"@, derived_field_tag());
    }
    Ok((RawAssociationModel {
        function_name,
        mining_schema,
        output: Vec::new(),
        targets: Vec::new(),
        items,
        itemsets,
        rules,
        local_derived_fields,
    }, k))
}

} // verus!
