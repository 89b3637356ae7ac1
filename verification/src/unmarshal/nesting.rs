//! Element nesting in an event stream: the depth before each event, the
//! matching end tag of each start tag, and the well-nested streams that a
//! well-formed document gives.

use vstd::prelude::*;
use crate::xml::XmlEvent;
use crate::unmarshal::cursor::{is_end_named, tags_carry, start_named_at, element_named};
use crate::xml::{XmlTag, tag_attr};
use crate::unmarshal::tree::{node_parts_complete, has_child_named};

verus! {

/// How an event changes the element depth: a start tag opens one level, an
/// end tag closes one.
pub open spec fn depth_step(e: XmlEvent) -> int {
    match e {
        XmlEvent::Start(_) => 1,
        XmlEvent::End(_) => -1,
        _ => 0,
    }
}

/// The element depth before event `k`.
pub open spec fn depth_at(ev: Seq<XmlEvent>, k: int) -> int
    decreases k,
{
    if k <= 0 {
        0
    } else {
        depth_at(ev, k - 1) + depth_step(ev[k - 1])
    }
}

/// Whether event `s` is a start tag.
pub open spec fn is_start(ev: Seq<XmlEvent>, s: int) -> bool {
    0 <= s < ev.len() && ev[s] is Start
}

/// Whether the end tag at `q` closes the start tag at `s`: the depth after
/// `q` is back to the depth before `s`, and stays above it in between.
pub open spec fn closes_at(ev: Seq<XmlEvent>, s: int, q: int) -> bool {
    &&& is_start(ev, s)
    &&& s < q < ev.len()
    &&& depth_at(ev, q + 1) == depth_at(ev, s)
    &&& forall|r: int| s < r <= q ==> #[trigger] depth_at(ev, r) > depth_at(ev, s)
}

/// The position of the end tag that closes the start tag at `s`.
pub open spec fn closing(ev: Seq<XmlEvent>, s: int) -> int {
    choose|q: int| closes_at(ev, s, q)
}

/// Whether the event at `q` is an end tag named as the start tag at `s`.
pub open spec fn end_matches(ev: Seq<XmlEvent>, s: int, q: int) -> bool {
    match ev[s] {
        XmlEvent::Start(t) => is_end_named(ev[q], t.name@),
        _ => false,
    }
}

/// Whether a stream is well nested, as the events of a well-formed document
/// read with empty elements expanded are: the depth never drops below zero
/// and ends at zero, every end tag is named as the start tag it closes, and
/// there is no empty-element tag and no end-of-document event.
pub open spec fn well_nested(ev: Seq<XmlEvent>) -> bool {
    &&& forall|k: int| 0 <= k <= ev.len() ==> #[trigger] depth_at(ev, k) >= 0
    &&& depth_at(ev, ev.len() as int) == 0
    &&& forall|k: int| 0 <= k < ev.len() ==> !(#[trigger] ev[k] is Empty) && !(ev[k] is Eof)
    &&& forall|s: int, q: int| #[trigger] closes_at(ev, s, q) ==> end_matches(ev, s, q)
}

/// Whether every tag from event `i` on carries the attributes that reading
/// it requires: the attributes of tree-node parts, and the required
/// attributes of the other tags the model readers need.
pub open spec fn attrs_complete(ev: Seq<XmlEvent>, i: int) -> bool {
    &&& node_parts_complete(ev, i)
    &&& tags_carry(ev, i, "MiningField"@, "name"@)
    &&& tags_carry(ev, i, "OutputField"@, "name"@)
    &&& tags_carry(ev, i, "NumericPredictor"@, "name"@)
    &&& tags_carry(ev, i, "CategoricalPredictor"@, "name"@)
    &&& tags_carry(ev, i, "CategoricalPredictor"@, "value"@)
    &&& tags_carry(ev, i, "BayesInput"@, "fieldName"@)
    &&& tags_carry(ev, i, "TargetValueStat"@, "value"@)
    &&& tags_carry(ev, i, "TargetValueCount"@, "value"@)
    &&& tags_carry(ev, i, "Cluster"@, "name"@)
    &&& tags_carry(ev, i, "ClusteringField"@, "field"@)
    &&& tags_carry(ev, i, "Characteristic"@, "name"@)
    &&& tags_carry(ev, i, "Item"@, "id"@)
    &&& tags_carry(ev, i, "Item"@, "value"@)
    &&& tags_carry(ev, i, "Itemset"@, "id"@)
    &&& tags_carry(ev, i, "ItemRef"@, "itemRef"@)
    &&& tags_carry(ev, i, "AssociationRule"@, "antecedent"@)
    &&& tags_carry(ev, i, "AssociationRule"@, "consequent"@)
    &&& tags_carry(ev, i, "SimpleRule"@, "score"@)
    &&& tags_carry(ev, i, "Neuron"@, "id"@)
    &&& tags_carry(ev, i, "Con"@, "from"@)
    &&& tags_carry(ev, i, "FieldRef"@, "field"@)
    &&& tags_carry(ev, i, "NeuralInput"@, "id"@)
    &&& tags_carry(ev, i, "InstanceField"@, "field"@)
    &&& tags_carry(ev, i, "KNNInput"@, "field"@)
    &&& tags_carry(ev, i, "Parameter"@, "name"@)
    &&& tags_carry(ev, i, "Predictor"@, "name"@)
    &&& tags_carry(ev, i, "PPCell"@, "value"@)
    &&& tags_carry(ev, i, "PPCell"@, "predictorName"@)
    &&& tags_carry(ev, i, "PPCell"@, "parameterName"@)
    &&& tags_carry(ev, i, "PCell"@, "parameterName"@)
    &&& tags_carry(ev, i, "SupportVector"@, "vectorId"@)
    &&& tags_carry(ev, i, "Segmentation"@, "multipleModelMethod"@)
}

/// What every tag from `a` on carries, every tag from a later `b` on does.
pub proof fn lemma_attrs_from(ev: Seq<XmlEvent>, a: int, b: int)
    requires
        attrs_complete(ev, a),
        a <= b,
    ensures
        attrs_complete(ev, b),
{
}

/// Whether the model element named `name`, whose start tag `start` was
/// just read at `i - 1`, can be read in full: the stream is well nested;
/// `functionName` is present; every tag from `i` on carries the attributes
/// that reading it requires; and within the model there is no
/// `LocalTransformations` element and no nested end tag named as the model.
pub open spec fn model_readable(ev: Seq<XmlEvent>, i: int, start: XmlTag, name: Seq<char>) -> bool {
    &&& element_named(ev, i, name)
    &&& tag_attr(start, "functionName"@) is Some
    &&& attrs_complete(ev, i)
    &&& forall|p: int| i <= p < closing(ev, i - 1) ==> !#[trigger] start_named_at(ev, p, "LocalTransformations"@)
    &&& forall|p: int| i <= p < closing(ev, i - 1) ==> !#[trigger] is_end_named(ev[p], name)
}

/// Whether `n` names one of the models this reader reads.
pub open spec fn is_model_name(n: Seq<char>) -> bool {
    n == "TreeModel"@ || n == "RegressionModel"@ || n == "MiningModel"@ || n == "Scorecard"@ || n
        == "ClusteringModel"@ || n == "NaiveBayesModel"@ || n == "NearestNeighborModel"@ || n
        == "SupportVectorMachineModel"@ || n == "GeneralRegressionModel"@ || n == "AssociationModel"@
        || n == "RuleSetModel"@ || n == "NeuralNetwork"@
}

/// Whether every model element of `ev` carries `functionName` and holds no
/// end tag of its own name before its own end tag.
pub open spec fn models_complete(ev: Seq<XmlEvent>) -> bool {
    forall|p: int|
        0 <= p < ev.len() ==> match #[trigger] ev[p] {
            XmlEvent::Start(t) => is_model_name(t.name@) ==> tag_attr(t, "functionName"@) is Some && forall|p2: int|
                p < p2 < closing(ev, p) ==> !#[trigger] is_end_named(ev[p2], t.name@),
            _ => true,
        }
}

/// Whether the model elements of `ev` can be read where they stand: each is
/// complete, every tree model has a root `Node` child, and every segment has
/// a model child and holds no end tag named `Segment` before its own.
pub open spec fn nested_models_ok(ev: Seq<XmlEvent>) -> bool {
    &&& models_complete(ev)
    &&& forall|p: int| #[trigger] start_named_at(ev, p, "TreeModel"@) ==> has_child_named(ev, p + 1, "Node"@)
    &&& forall|p: int|
        #[trigger] start_named_at(ev, p, "Segment"@) ==> has_child_named(ev, p + 1, "TreeModel"@) || has_child_named(
            ev,
            p + 1,
            "RegressionModel"@,
        ) || has_child_named(ev, p + 1, "Regression"@)
    &&& forall|p: int|
        #[trigger] start_named_at(ev, p, "Segment"@) ==> forall|p2: int|
            p < p2 < closing(ev, p) ==> !#[trigger] is_end_named(ev[p2], "Segment"@)
}

/// Whether the element whose start tag was just read, at `i - 1`, stands in
/// a well-nested stream.
pub open spec fn nested_element(ev: Seq<XmlEvent>, i: int) -> bool {
    well_nested(ev) && 1 <= i && is_start(ev, i - 1)
}

/// Scanning on from `r`, past which the depth has stayed above that before
/// the start tag at `s`, reaches the end tag that closes it.
proof fn lemma_drop_from(ev: Seq<XmlEvent>, s: int, r: int) -> (q: int)
    requires
        well_nested(ev),
        is_start(ev, s),
        s < r <= ev.len(),
        forall|t: int| s < t <= r ==> #[trigger] depth_at(ev, t) > depth_at(ev, s),
    ensures
        closes_at(ev, s, q),
        r - 1 <= q,
    decreases ev.len() - r,
{
    assert(depth_at(ev, s) >= 0);
    assert(depth_at(ev, r) > depth_at(ev, s));
    if r == ev.len() {
        assert(false);
        r
    } else {
        assert(depth_at(ev, r + 1) == depth_at(ev, r) + depth_step(ev[r]));
        if depth_at(ev, r + 1) > depth_at(ev, s) {
            lemma_drop_from(ev, s, r + 1)
        } else {
            r
        }
    }
}

/// Two end tags that close the same start tag are the same.
proof fn lemma_closes_unique(ev: Seq<XmlEvent>, s: int, q1: int, q2: int)
    requires
        closes_at(ev, s, q1),
        closes_at(ev, s, q2),
    ensures
        q1 == q2,
{
    if q1 < q2 {
        assert(depth_at(ev, q1 + 1) > depth_at(ev, s));
    } else if q2 < q1 {
        assert(depth_at(ev, q2 + 1) > depth_at(ev, s));
    }
}

/// In a well-nested stream every start tag is closed, by an end tag of its
/// name.
pub proof fn lemma_closing(ev: Seq<XmlEvent>, s: int)
    requires
        well_nested(ev),
        is_start(ev, s),
    ensures
        closes_at(ev, s, closing(ev, s)),
        end_matches(ev, s, closing(ev, s)),
        s < closing(ev, s) < ev.len(),
{
    assert(depth_at(ev, s + 1) == depth_at(ev, s) + depth_step(ev[s]));
    let q = lemma_drop_from(ev, s, s + 1);
    assert(closes_at(ev, s, closing(ev, s)));
}

/// A start tag inside an element is closed inside it, and the depth within
/// it stays above the depth before it.
pub proof fn lemma_closing_inner(ev: Seq<XmlEvent>, s: int, k: int)
    requires
        well_nested(ev),
        is_start(ev, s),
        s < k < closing(ev, s),
        is_start(ev, k),
    ensures
        closes_at(ev, k, closing(ev, k)),
        end_matches(ev, k, closing(ev, k)),
        k < closing(ev, k) < closing(ev, s),
        depth_at(ev, k) > depth_at(ev, s),
{
    lemma_closing(ev, s);
    lemma_closing(ev, k);
    let q = closing(ev, s);
    let q2 = closing(ev, k);
    assert(depth_at(ev, k) > depth_at(ev, s));
    if q2 >= q {
        if q2 == q {
            assert(depth_at(ev, q2 + 1) == depth_at(ev, k));
        } else {
            assert(depth_at(ev, q + 1) > depth_at(ev, k));
        }
    }
}

/// What a reading loop inside the element whose start tag is at `i - 1`
/// knows at position `k`, not past its closing end tag: the event there is
/// no end of the document; a start tag there is closed before the element's
/// own end tag; and at that end tag stands an end tag of the element's name.
pub proof fn lemma_nested_step(ev: Seq<XmlEvent>, i: int, k: int)
    requires
        nested_element(ev, i),
        i <= k <= closing(ev, i - 1),
    ensures
        closes_at(ev, i - 1, closing(ev, i - 1)),
        end_matches(ev, i - 1, closing(ev, i - 1)),
        closing(ev, i - 1) < ev.len(),
        k < ev.len(),
        !(ev[k] is Eof),
        !(ev[k] is Empty),
        k < closing(ev, i - 1) && ev[k] is Start ==> closes_at(ev, k, closing(ev, k)) && end_matches(ev, k, closing(ev, k))
            && k < closing(ev, k) < closing(ev, i - 1),
{
    lemma_closing(ev, i - 1);
    if k < closing(ev, i - 1) && ev[k] is Start {
        lemma_closing_inner(ev, i - 1, k);
    }
}

/// The depth inside an element stays above the depth before its start tag.
pub proof fn lemma_inside(ev: Seq<XmlEvent>, s: int, r: int)
    requires
        closes_at(ev, s, closing(ev, s)),
        s < r <= closing(ev, s),
    ensures
        depth_at(ev, r) > depth_at(ev, s),
{
}

} // verus!
