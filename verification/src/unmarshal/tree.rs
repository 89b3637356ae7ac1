//! `TreeModel`: the node tree with its predicates and score distributions.

use vstd::prelude::*;
use crate::unmarshal::nesting::{depth_at, closing, closes_at, lemma_nested_step, lemma_closing};
use crate::error::PmmlError;
use crate::strings::string_from;
use crate::xml::{XmlEvent, XmlTag, attr, attr_required, tag_attr, opt_view, is_missing_attr, name_is};
use crate::unmarshal::raw::{
    RawNode, RawPredicate, RawScoreDistribution, RawTreeModel, RawMiningField, RawOutputField,
    RawDerivedField,
};
use crate::unmarshal::common::{predicate_read_at, set_array_from, lemma_predicate_names, output_field_tag, parse_simple_predicate, parse_simple_set_predicate, parse_mining_schema, parse_output, mining_field_tag};
use crate::unmarshal::expr::{parse_local_transformations, derived_field_tag};
use crate::unmarshal::cursor::{
    element_named, tags_carry, tags_covered, lemma_tags_covered_step, in_span,
    sections_read, read_each_section, lemma_sections_push, lemma_sections_widen,
    end_at, skip_one, skip_element, skip_to_end_tag, stops_at_end_or_tag, is_end_named, at_end, read_at_positions, read_in_order, lemma_read_extend, lemma_read_in_order, lemma_read_push, childless, plain_until, plain_event, tag_gives, spans_ok, covers_level, start_named_at, read_each_reached, lemma_covers_level_step, span_step, lemma_read_each_reached,
};

verus! {

/// A `ScoreDistribution` from its tag; `value` is required.
fn score_distribution(t: &XmlTag) -> (r: Result<RawScoreDistribution, PmmlError>)
    ensures
        r matches Ok(s) ==> tag_attr(*t, "value"@) == Some(s.value@) && opt_view(s.record_count)
            == tag_attr(*t, "recordCount"@),
        r is Ok <==> tag_attr(*t, "value"@) is Some,
        r matches Err(e) ==> is_missing_attr(e, "ScoreDistribution"@, "value"@),
{
    let value = attr_required(t, "value", "ScoreDistribution")?;
    let record_count = attr(t, "recordCount");
    Ok(RawScoreDistribution { value, record_count })
}

/// Whether tag `t` lacks an attribute that reading it as part of a tree node
/// requires: `field` and `operator` of a simple predicate, `field` and
/// `booleanOperator` of a simple-set predicate, `booleanOperator` of a
/// compound predicate, `value` of a score distribution.
pub open spec fn node_part_lacks(t: XmlTag) -> bool {
    ||| t.name@ == "SimplePredicate"@ && (tag_attr(t, "field"@) is None || tag_attr(t, "operator"@) is None)
    ||| t.name@ == "SimpleSetPredicate"@ && (tag_attr(t, "field"@) is None || tag_attr(t, "booleanOperator"@) is None)
    ||| t.name@ == "CompoundPredicate"@ && tag_attr(t, "booleanOperator"@) is None
    ||| t.name@ == "ScoreDistribution"@ && tag_attr(t, "value"@) is None
}

/// Whether event `p` is a start or empty-element tag that lacks an
/// attribute a tree node requires of it.
pub open spec fn node_part_lacks_at(ev: Seq<XmlEvent>, p: int) -> bool {
    0 <= p < ev.len() && match ev[p] {
        XmlEvent::Start(t) => node_part_lacks(t),
        XmlEvent::Empty(t) => node_part_lacks(t),
        _ => false,
    }
}

/// Whether every predicate and score-distribution tag from event `i` on
/// carries the attributes that a tree node requires of it.
pub open spec fn node_parts_complete(ev: Seq<XmlEvent>, i: int) -> bool {
    forall|p: int| i <= p < ev.len() ==> !#[trigger] node_part_lacks_at(ev, p)
}

/// Whether event `p` is the start tag of a predicate element.
pub open spec fn is_pred_start(ev: Seq<XmlEvent>, p: int) -> bool {
    ||| start_named_at(ev, p, "True"@)
    ||| start_named_at(ev, p, "SimplePredicate"@)
    ||| start_named_at(ev, p, "SimpleSetPredicate"@)
    ||| start_named_at(ev, p, "CompoundPredicate"@)
}

/// Whether `pred` is a compound predicate whose children are those read
/// from `lo` up to its end tag (or the end of the document).
pub open spec fn compound_children_from(ev: Seq<XmlEvent>, lo: int, pred: RawPredicate) -> bool {
    pred matches RawPredicate::Compound { predicates, .. } && exists|e: int|
        lo <= e <= ev.len() && (at_end(ev, e) || (lo < e && is_end_named(ev[e - 1], "CompoundPredicate"@)))
            && #[trigger] child_predicates_read(ev, lo, e, predicates@)
}

/// Whether `pred` is the predicate of the last predicate element that stands
/// directly inside the element whose start tag is at `i - 1`, read up to `hi`.
pub open spec fn predicate_is_last(ev: Seq<XmlEvent>, i: int, hi: int, pred: RawPredicate) -> bool {
    exists|pa: int| #[trigger] last_predicate(ev, i, hi, pa, pred)
}

/// Whether `pred` is the predicate of the last predicate element read, from
/// `i` to `hi`, inside the element whose start tag is at `i - 1`: the one
/// whose start tag is at `pa` (`True` for a `True` element), or `True` when
/// none was read (`pa == -1`); and every predicate element after it, up to `hi`,
/// stands deeper than the element's direct children.
pub open spec fn last_predicate(ev: Seq<XmlEvent>, i: int, hi: int, pa: int, pred: RawPredicate) -> bool {
    &&& (pa == -1 && pred is True) || (i <= pa < hi && is_pred_start(ev, pa) && (start_named_at(ev, pa, "True"@)
        ==> pred is True) && (!start_named_at(ev, pa, "True"@) ==> predicate_read_at(ev, pa, pred)))
    &&& start_named_at(ev, pa, "CompoundPredicate"@) ==> compound_children_from(ev, pa + 1, pred)
    &&& forall|p: int| pa < p < hi && i <= p && #[trigger] is_pred_start(ev, p) ==> depth_at(ev, p) > depth_at(ev, i)
}

/// Whether event `e` is a predicate tag that a tree's compound predicate
/// reads as a child: a `SimplePredicate`, `SimpleSetPredicate`, `True` or
/// `CompoundPredicate` start tag, or a `SimplePredicate` or `True`
/// empty-element tag.
pub open spec fn is_tree_child_pred_tag(e: XmlEvent) -> bool {
    match e {
        XmlEvent::Start(t) => t.name@ == "SimplePredicate"@ || t.name@ == "SimpleSetPredicate"@ || t.name@ == "True"@
            || t.name@ == "CompoundPredicate"@,
        XmlEvent::Empty(t) => t.name@ == "SimplePredicate"@ || t.name@ == "True"@,
        _ => false,
    }
}

/// [`is_tree_child_pred_tag`] as a value.
pub open spec fn tree_child_pred_tag() -> spec_fn(XmlEvent) -> bool {
    |e: XmlEvent| is_tree_child_pred_tag(e)
}

/// Whether `at` lists, in increasing order, positions from `lo` on of the
/// predicate tags that the predicates `preds` were read from, one for one.
pub open spec fn predicates_at(ev: Seq<XmlEvent>, lo: int, at: Seq<int>, preds: Seq<RawPredicate>) -> bool {
    &&& at.len() == preds.len()
    &&& forall|x: int|
        0 <= x < at.len() ==> lo <= #[trigger] at[x] && predicate_read_at(ev, at[x], preds[x]) && is_tree_child_pred_tag(
            ev[at[x]],
        )
    &&& forall|x: int, y: int| 0 <= x < y < at.len() ==> at[x] < at[y]
}

/// Whether `preds` are, in document order, the predicates of every child
/// predicate tag that reading reached in `[lo, hi)`, and nothing else.
pub open spec fn child_predicates_read(ev: Seq<XmlEvent>, lo: int, hi: int, preds: Seq<RawPredicate>) -> bool {
    exists|at: Seq<int>, spans: Seq<(int, int)>|
        #[trigger] predicates_at(ev, lo, at, preds) && (at.len() > 0 ==> at.last() < hi) && #[trigger] tags_covered(
            ev,
            lo,
            hi,
            at,
            spans,
            tree_child_pred_tag(),
            tree_child_pred_tag(),
        )
}

/// A predicate read at `k`, past the positions recorded so far, extends the
/// record.
proof fn lemma_predicates_push(ev: Seq<XmlEvent>, lo: int, at: Seq<int>, preds: Seq<RawPredicate>, k: int, p: RawPredicate)
    requires
        predicates_at(ev, lo, at, preds),
        at.len() > 0 ==> at.last() < k,
        lo <= k,
        predicate_read_at(ev, k, p),
        is_tree_child_pred_tag(ev[k]),
    ensures
        predicates_at(ev, lo, at.push(k), preds.push(p)),
{
    let at2 = at.push(k);
    let p2 = preds.push(p);
    assert forall|x: int| 0 <= x < at2.len() implies lo <= #[trigger] at2[x] && predicate_read_at(ev, at2[x], p2[x]) && is_tree_child_pred_tag(ev[at2[x]]) by {
        if x < at.len() {
            assert(at2[x] == at[x] && p2[x] == preds[x]);
        }
    }
    assert forall|x: int, y: int| 0 <= x < y < at2.len() implies at2[x] < at2[y] by {
        if y == at.len() {
            if x < at.len() - 1 {
                assert(at[x] < at[at.len() - 1]);
            }
        }
    }
}

/// The first child predicate tag of a compound predicate gives its first
/// child.
pub proof fn law_compound_first_child(ev: Seq<XmlEvent>, lo: int, hi: int, preds: Seq<RawPredicate>, p: int)
    requires
        child_predicates_read(ev, lo, hi, preds),
        0 <= lo <= p < hi <= ev.len(),
        is_tree_child_pred_tag(ev[p]),
        forall|q: int| lo <= q < p ==> !is_tree_child_pred_tag(#[trigger] ev[q]),
    ensures
        preds.len() > 0,
        predicate_read_at(ev, p, preds[0]),
{
    let (at, spans) = choose|at: Seq<int>, spans: Seq<(int, int)>|
        #[trigger] predicates_at(ev, lo, at, preds) && (at.len() > 0 ==> at.last() < hi) && #[trigger] tags_covered(
            ev,
            lo,
            hi,
            at,
            spans,
            tree_child_pred_tag(),
            tree_child_pred_tag(),
        );
    if in_span(spans, p) {
        let x = choose|x: int| 0 <= x < spans.len() && #[trigger] spans[x].0 < p < spans[x].1;
        assert(lo <= spans[x].0);
        assert(tree_child_pred_tag()(ev[spans[x].0]));
    }
    assert(tree_child_pred_tag()(ev[p]));
    assert(at.contains(p));
    let y = choose|y: int| 0 <= y < at.len() && at[y] == p;
    lemma_predicate_names();
    reveal_strlit("SimplePredicate");
    reveal_strlit("SimpleSetPredicate");
    reveal_strlit("CompoundPredicate");
    reveal_strlit("True");
    if at[0] < p {
        assert(predicate_read_at(ev, at[0], preds[0]));
        assert(is_tree_child_pred_tag(ev[at[0]]));
    }
    if y > 0 {
        assert(at[0] < at[y]);
    }
}

/// A compound predicate whose content holds no child predicate tag has no
/// children.
pub proof fn law_compound_without_child_tags(ev: Seq<XmlEvent>, lo: int, hi: int, preds: Seq<RawPredicate>)
    requires
        child_predicates_read(ev, lo, hi, preds),
        forall|q: int| lo <= q < hi ==> !is_tree_child_pred_tag(#[trigger] ev[q]),
    ensures
        preds.len() == 0,
{
    let (at, spans) = choose|at: Seq<int>, spans: Seq<(int, int)>|
        #[trigger] predicates_at(ev, lo, at, preds) && (at.len() > 0 ==> at.last() < hi) && #[trigger] tags_covered(
            ev,
            lo,
            hi,
            at,
            spans,
            tree_child_pred_tag(),
            tree_child_pred_tag(),
        );
    if preds.len() > 0 {
        assert(predicate_read_at(ev, at[0], preds[0]));
        if at.len() > 1 {
            assert(at[0] < at[at.len() - 1]);
        }
        lemma_predicate_names();
        reveal_strlit("SimplePredicate");
        reveal_strlit("SimpleSetPredicate");
        reveal_strlit("CompoundPredicate");
        reveal_strlit("True");
        assert(is_tree_child_pred_tag(ev[at[0]]));
    }
}

/// The children of a `CompoundPredicate` whose start tag was just read:
/// simple, simple-set, `True` and compound predicates, in order, up to its
/// end tag or the end of the document; a nested compound predicate holds its
/// own children in turn.
fn parse_compound_children(ev: &Vec<XmlEvent>, i: usize) -> (r: Result<
    (Vec<RawPredicate>, usize),
    PmmlError,
>)
    requires
        i <= ev@.len(),
    ensures
        r matches Ok((preds, j)) ==> stops_at_end_or_tag(ev@, i as int, j as int, "CompoundPredicate"@)
            && child_predicates_read(ev@, i as int, j as int, preds@),
        childless(ev@, i as int, "CompoundPredicate"@) ==> r is Ok,
        node_parts_complete(ev@, i as int) ==> r is Ok,
        element_named(ev@, i as int, "CompoundPredicate"@) && node_parts_complete(ev@, i as int) ==> (r matches Ok((_, j)) && j <= closing(ev@, i - 1) + 1),
    decreases ev@.len() - i,
{
    let mut preds: Vec<RawPredicate> = Vec::new();
    let ghost q: int = if childless(ev@, i as int, "CompoundPredicate"@) {
        choose|q: int| plain_until(ev@, i as int, q, "CompoundPredicate"@)
    } else {
        0
    };
    let ghost mut at: Seq<int> = Seq::empty();
    let ghost mut spans: Seq<(int, int)> = Seq::empty();
    let mut k = i;
    proof {
        if element_named(ev@, i as int, "CompoundPredicate"@) {
            lemma_closing(ev@, i - 1);
        }
    }
    loop
        invariant_except_break
            element_named(ev@, i as int, "CompoundPredicate"@) && node_parts_complete(ev@, i as int) ==> k <= closing(ev@, i - 1) && closes_at(ev@, i - 1, closing(ev@, i - 1)),
            i <= k <= ev@.len(),
            childless(ev@, i as int, "CompoundPredicate"@) ==> plain_until(ev@, i as int, q, "CompoundPredicate"@) && k <= q,
            node_parts_complete(ev@, i as int) ==> node_parts_complete(ev@, k as int),
            predicates_at(ev@, i as int, at, preds@),
            at.len() > 0 ==> at.last() < k,
            tags_covered(ev@, i as int, k as int, at, spans, tree_child_pred_tag(), tree_child_pred_tag()),
        ensures
            predicates_at(ev@, i as int, at, preds@),
            at.len() > 0 ==> at.last() < k,
            tags_covered(ev@, i as int, k as int, at, spans, tree_child_pred_tag(), tree_child_pred_tag()),
            element_named(ev@, i as int, "CompoundPredicate"@) && node_parts_complete(ev@, i as int) ==> k <= closing(ev@, i - 1) + 1,
            at_end(ev@, k as int) || (i < k && is_end_named(ev@[k - 1], "CompoundPredicate"@)),
            i <= k <= ev@.len(),
        decreases ev@.len() - k,
    {
        proof {
            if childless(ev@, i as int, "CompoundPredicate"@) && k < q {
                assert(plain_event(ev@[k as int], "CompoundPredicate"@));
            }
        }
        proof {
            if element_named(ev@, i as int, "CompoundPredicate"@) && node_parts_complete(ev@, i as int) {
                lemma_nested_step(ev@, i as int, k as int);
            }
        }
        if end_at(ev, k) {
            break;
        }
        proof {
            if node_parts_complete(ev@, i as int) {
                assert(!node_part_lacks_at(ev@, k as int));
            }
        }
        let ghost here = k as int;
        let ghost at0 = at;
        let ghost before = preds@;
        proof {
            lemma_predicate_names();
        }
        match &ev[k] {
            XmlEvent::Start(t) => {
                k = k + 1;
                if name_is(&t.name, "SimplePredicate") {
                    let p = parse_simple_predicate(t)?;
                    proof {
                        lemma_predicates_push(ev@, i as int, at, preds@, here, p);
                        at = at.push(here);
                    }
                    preds.push(p);
                } else if name_is(&t.name, "SimpleSetPredicate") {
                    let (p, j) = parse_simple_set_predicate(t, ev, k)?;
                    proof {
                        assert(set_array_from(ev@, here + 1, p));
                        lemma_predicates_push(ev@, i as int, at, preds@, here, p);
                        at = at.push(here);
                    }
                    preds.push(p);
                    k = j;
                } else if name_is(&t.name, "True") {
                    proof {
                        lemma_predicates_push(ev@, i as int, at, preds@, here, RawPredicate::True);
                        at = at.push(here);
                    }
                    preds.push(RawPredicate::True);
                } else if name_is(&t.name, "CompoundPredicate") {
                    let boolean_operator = attr_required(t, "booleanOperator", "CompoundPredicate")?;
                    let (predicates, j) = parse_compound_children(ev, k)?;
                    let p = RawPredicate::Compound { boolean_operator, predicates };
                    proof {
                        lemma_predicates_push(ev@, i as int, at, preds@, here, p);
                        at = at.push(here);
                    }
                    preds.push(p);
                    k = j;
                }
                proof {
                    lemma_tags_covered_step(ev@, i as int, here, k as int, at0, at, spans, tree_child_pred_tag(), tree_child_pred_tag());
                    spans = span_step(spans, here, k as int);
                }
            },
            XmlEvent::Empty(t) => {
                k = k + 1;
                if name_is(&t.name, "SimplePredicate") {
                    let p = parse_simple_predicate(t)?;
                    proof {
                        lemma_predicates_push(ev@, i as int, at, preds@, here, p);
                        at = at.push(here);
                    }
                    preds.push(p);
                } else if name_is(&t.name, "True") {
                    proof {
                        lemma_predicates_push(ev@, i as int, at, preds@, here, RawPredicate::True);
                        at = at.push(here);
                    }
                    preds.push(RawPredicate::True);
                }
                proof {
                    lemma_tags_covered_step(ev@, i as int, here, k as int, at0, at, spans, tree_child_pred_tag(), tree_child_pred_tag());
                    spans = span_step(spans, here, k as int);
                }
            },
            XmlEvent::End(n) => {
                k = k + 1;
                proof {
                    lemma_tags_covered_step(ev@, i as int, here, k as int, at0, at, spans, tree_child_pred_tag(), tree_child_pred_tag());
                    spans = span_step(spans, here, k as int);
                }
                if name_is(n, "CompoundPredicate") {
                    break;
                }
            },
            _ => {
                k = k + 1;
                proof {
                    lemma_tags_covered_step(ev@, i as int, here, k as int, at0, at, spans, tree_child_pred_tag(), tree_child_pred_tag());
                    spans = span_step(spans, here, k as int);
                }
            },
        }
    }
    proof {
        assert(predicates_at(ev@, i as int, at, preds@) && (at.len() > 0 ==> at.last() < k)
            && tags_covered(ev@, i as int, k as int, at, spans, tree_child_pred_tag(), tree_child_pred_tag()));
    }
    Ok((preds, k))
}

/// Whether `n` holds the attributes of `Node` tag `t`.
pub open spec fn node_of(t: XmlTag, n: RawNode) -> bool {
    &&& opt_view(n.id) == tag_attr(t, "id"@)
    &&& opt_view(n.score) == tag_attr(t, "score"@)
    &&& opt_view(n.record_count) == tag_attr(t, "recordCount"@)
    &&& opt_view(n.default_child) == tag_attr(t, "defaultChild"@)
}

/// How a node is read from its tag.
pub open spec fn node_tag() -> spec_fn(XmlTag, RawNode) -> bool {
    |t: XmlTag, n: RawNode| node_of(t, n)
}

/// How a score distribution is read from its tag: its `value` and
/// `recordCount`.
pub open spec fn score_distribution_tag() -> spec_fn(XmlTag, RawScoreDistribution) -> bool {
    |t: XmlTag, s: RawScoreDistribution|
        tag_attr(t, "value"@) == Some(s.value@) && opt_view(s.record_count) == tag_attr(t, "recordCount"@)
}

/// A `Node` whose start tag was just read: its predicate (the last one read;
/// `True` when there is none), score distributions and child nodes, up to
/// its end tag or the end of the document.
pub fn parse_node(ev: &Vec<XmlEvent>, i: usize, start: &XmlTag) -> (r: Result<(RawNode, usize), PmmlError>)
    requires
        0 < i <= ev@.len(),
    ensures
        r matches Ok((n, j)) ==> read_in_order(ev@, i as int, j as int, n.score_distributions@, "ScoreDistribution"@, score_distribution_tag())
            && read_in_order(ev@, i as int, j as int, n.children@, "Node"@, node_tag())
            && read_each_reached(ev@, i as int, j as int, n.children@, "Node"@, node_tag())
            && read_each_reached(ev@, i as int, j as int, n.score_distributions@, "ScoreDistribution"@, score_distribution_tag())
            && stops_at_end_or_tag(ev@, i as int, j as int, "Node"@)
            && (n.predicate is True || exists|p: int| i <= p < j && #[trigger] predicate_read_at(ev@, p, n.predicate))
            && node_of(*start, n),
        childless(ev@, i as int, "Node"@) ==> r is Ok,
        node_parts_complete(ev@, i as int) ==> r is Ok,
        element_named(ev@, i as int, "Node"@) && node_parts_complete(ev@, i as int) ==> (r matches Ok((_, j)) && j <= closing(ev@, i - 1) + 1),
        element_named(ev@, i as int, "Node"@) && node_parts_complete(ev@, i as int) ==> (r matches Ok((n, j)) ==> predicate_is_last(ev@, i as int, j as int, n.predicate)),
    decreases ev@.len() - i,
{
    let id = attr(start, "id");
    let score = attr(start, "score");
    let record_count = attr(start, "recordCount");
    let default_child = attr(start, "defaultChild");
    let mut predicate = RawPredicate::True;
    let ghost mut pred_at: int = 0;
    let ghost mut last_pa: int = -1;
    let mut children: Vec<RawNode> = Vec::new();
    let ghost mut children_at: Seq<int> = Seq::empty();
    let ghost mut spans: Seq<(int, int)> = Seq::empty();
    let mut score_distributions: Vec<RawScoreDistribution> = Vec::new();
    let ghost mut score_distributions_at: Seq<int> = Seq::empty();
    let ghost q: int = if childless(ev@, i as int, "Node"@) {
        choose|q: int| plain_until(ev@, i as int, q, "Node"@)
    } else {
        0
    };
    let mut k = i;
    proof {
        if element_named(ev@, i as int, "Node"@) {
            lemma_closing(ev@, i - 1);
        }
    }
    loop
        invariant_except_break
            element_named(ev@, i as int, "Node"@) && node_parts_complete(ev@, i as int) ==> k <= closing(ev@, i - 1) && closes_at(ev@, i - 1, closing(ev@, i - 1)),
            element_named(ev@, i as int, "Node"@) && node_parts_complete(ev@, i as int) ==> last_predicate(ev@, i as int, k as int, last_pa, predicate),
            0 < i <= k <= ev@.len(),
            read_at_positions(ev@, i as int, children_at, children@, "Node"@, node_tag()),
            children_at.len() > 0 ==> children_at.last() < k,
            read_at_positions(ev@, i as int, score_distributions_at, score_distributions@, "ScoreDistribution"@, score_distribution_tag()),
            score_distributions_at.len() > 0 ==> score_distributions_at.last() < k,
            predicate is True || (i <= pred_at < k && predicate_read_at(ev@, pred_at, predicate)),
            childless(ev@, i as int, "Node"@) ==> plain_until(ev@, i as int, q, "Node"@) && k <= q,
            node_parts_complete(ev@, i as int) ==> node_parts_complete(ev@, k as int),
            spans_ok(ev@, spans, i as int, k as int),
            covers_level(ev@, i as int, k as int, children_at, spans, "Node"@),
            covers_level(ev@, i as int, k as int, score_distributions_at, spans, "ScoreDistribution"@),
        ensures
            element_named(ev@, i as int, "Node"@) && node_parts_complete(ev@, i as int) ==> k <= closing(ev@, i - 1) + 1,
            element_named(ev@, i as int, "Node"@) && node_parts_complete(ev@, i as int) ==> last_predicate(ev@, i as int, k as int, last_pa, predicate),
            spans_ok(ev@, spans, i as int, k as int),
            covers_level(ev@, i as int, k as int, children_at, spans, "Node"@),
            covers_level(ev@, i as int, k as int, score_distributions_at, spans, "ScoreDistribution"@),
            at_end(ev@, k as int) || (i < k && is_end_named(ev@[k - 1], "Node"@)),
            read_at_positions(ev@, i as int, children_at, children@, "Node"@, node_tag()),
            children_at.len() > 0 ==> children_at.last() < k,
            read_at_positions(ev@, i as int, score_distributions_at, score_distributions@, "ScoreDistribution"@, score_distribution_tag()),
            score_distributions_at.len() > 0 ==> score_distributions_at.last() < k,
            predicate is True || (i <= pred_at < k && predicate_read_at(ev@, pred_at, predicate)),
            0 < i <= k <= ev@.len(),
        decreases ev@.len() - k,
    {
        proof {
            if childless(ev@, i as int, "Node"@) && k < q {
                assert(plain_event(ev@[k as int], "Node"@));
            }
        }
        proof {
            if element_named(ev@, i as int, "Node"@) && node_parts_complete(ev@, i as int) {
                lemma_nested_step(ev@, i as int, k as int);
            }
        }
        if end_at(ev, k) {
            break;
        }
        proof {
            lemma_predicate_names();
        }
        let ghost here = k as int;
        let ghost at0 = children_at;
        let ghost sd0 = score_distributions_at;
        let ghost mut stepped = false;
        proof {
            reveal_strlit("Node");
            reveal_strlit("True");
            reveal_strlit("SimplePredicate");
            reveal_strlit("SimpleSetPredicate");
            reveal_strlit("CompoundPredicate");
            reveal_strlit("ScoreDistribution");
            assert("Node"@ != "True"@) by {
                assert("Node"@[0] != "True"@[0]);
            }
            assert("Node"@ != "SimplePredicate"@) by {
                assert("Node"@.len() != "SimplePredicate"@.len());
            }
            assert("Node"@ != "SimpleSetPredicate"@) by {
                assert("Node"@.len() != "SimpleSetPredicate"@.len());
            }
            assert("Node"@ != "CompoundPredicate"@) by {
                assert("Node"@.len() != "CompoundPredicate"@.len());
            }
            assert("Node"@ != "ScoreDistribution"@) by {
                assert("Node"@.len() != "ScoreDistribution"@.len());
            }
            assert("ScoreDistribution"@ != "True"@) by {
                assert("ScoreDistribution"@.len() != "True"@.len());
            }
            assert("ScoreDistribution"@ != "SimplePredicate"@) by {
                assert("ScoreDistribution"@.len() != "SimplePredicate"@.len());
            }
            assert("ScoreDistribution"@ != "SimpleSetPredicate"@) by {
                assert("ScoreDistribution"@.len() != "SimpleSetPredicate"@.len());
            }
            assert("ScoreDistribution"@ != "CompoundPredicate"@) by {
                assert("ScoreDistribution"@[0] != "CompoundPredicate"@[0]);
            }
            if node_parts_complete(ev@, i as int) {
                assert(!node_part_lacks_at(ev@, here));
            }
        }
        match &ev[k] {
            XmlEvent::Start(t) => {
                k = k + 1;
                if name_is(&t.name, "True") {
                    predicate = RawPredicate::True;
                    proof {
                        last_pa = here;
                    }
                    k = skip_to_end_tag(ev, k, "True", true)?;
                } else if name_is(&t.name, "SimplePredicate") {
                    predicate = parse_simple_predicate(t)?;
                    proof {
                        pred_at = here;
                        last_pa = here;
                        lemma_predicate_names();
                    }
                    k = skip_one(ev, k);
                } else if name_is(&t.name, "SimpleSetPredicate") {
                    let (p, j) = parse_simple_set_predicate(t, ev, k)?;
                    predicate = p;
                    proof {
                        pred_at = here;
                        last_pa = here;
                        lemma_predicate_names();
                    }
                    k = j;
                } else if name_is(&t.name, "CompoundPredicate") {
                    let boolean_operator = attr_required(t, "booleanOperator", "CompoundPredicate")?;
                    let (predicates, j) = parse_compound_children(ev, k)?;
                    let ghost children = predicates@;
                    proof {
                        assert(child_predicates_read(ev@, here + 1, j as int, children));
                        assert(here + 1 <= j <= ev@.len());
                        assert(at_end(ev@, j as int) || (here + 1 < j && is_end_named(ev@[j - 1], "CompoundPredicate"@)));
                    }
                    predicate = RawPredicate::Compound { boolean_operator, predicates };
                    proof {
                        pred_at = here;
                        last_pa = here;
                        lemma_predicate_names();
                        assert(predicate->predicates@ == children);
                        assert(compound_children_from(ev@, here + 1, predicate));
                    }
                    k = j;
                } else if name_is(&t.name, "ScoreDistribution") {
                    let item = score_distribution(t)?;
                    proof {
                        lemma_read_push(ev@, i as int, score_distributions_at, score_distributions@, "ScoreDistribution"@, score_distribution_tag(), here, item);
                        score_distributions_at = score_distributions_at.push(here);
                    }
                    score_distributions.push(item);
                    k = skip_one(ev, k);
                } else if name_is(&t.name, "Node") {
                    let (child, j) = parse_node(ev, k, t)?;
                    let item = child;
                    proof {
                        lemma_read_push(ev@, i as int, children_at, children@, "Node"@, node_tag(), here, item);
                        children_at = children_at.push(here);
                    }
                    children.push(item);
                    k = j;
                }
            },
            XmlEvent::Empty(t) => {
                k = k + 1;
                if name_is(&t.name, "True") {
                    predicate = RawPredicate::True;
                } else if name_is(&t.name, "SimplePredicate") {
                    predicate = parse_simple_predicate(t)?;
                    proof {
                        pred_at = here;
                        lemma_predicate_names();
                    }
                } else if name_is(&t.name, "SimpleSetPredicate") {
                    let field = attr_required(t, "field", "SimpleSetPredicate")?;
                    let boolean_operator = attr_required(t, "booleanOperator", "SimpleSetPredicate")?;
                    predicate = RawPredicate::SimpleSet { field, boolean_operator, array: String::new() };
                    proof {
                        pred_at = here;
                        lemma_predicate_names();
                    }
                } else if name_is(&t.name, "ScoreDistribution") {
                    let item = score_distribution(t)?;
                    proof {
                        lemma_read_push(ev@, i as int, score_distributions_at, score_distributions@, "ScoreDistribution"@, score_distribution_tag(), here, item);
                        score_distributions_at = score_distributions_at.push(here);
                    }
                    score_distributions.push(item);
                }
            },
            XmlEvent::End(n) => {
                k = k + 1;
                proof {
                    lemma_covers_level_step(ev@, i as int, here, k as int, at0, children_at, spans, "Node"@);
                lemma_covers_level_step(ev@, i as int, here, k as int, sd0, score_distributions_at, spans, "ScoreDistribution"@);
                spans = span_step(spans, here, k as int);
                    stepped = true;
                }
                if name_is(n, "Node") {
                    break;
                }
            },
            _ => {
                k = k + 1;
            },
        }
        proof {
            if !stepped {
                lemma_covers_level_step(ev@, i as int, here, k as int, at0, children_at, spans, "Node"@);
                lemma_covers_level_step(ev@, i as int, here, k as int, sd0, score_distributions_at, spans, "ScoreDistribution"@);
                spans = span_step(spans, here, k as int);
            }
        }
    }
    proof {
        lemma_read_in_order(ev@, i as int, k as int, children_at, children@, "Node"@, node_tag());
        lemma_read_each_reached(ev@, i as int, k as int, children_at, spans, children@, "Node"@, node_tag());
        lemma_read_each_reached(ev@, i as int, k as int, score_distributions_at, spans, score_distributions@, "ScoreDistribution"@, score_distribution_tag());
    }
    proof {
        lemma_read_in_order(ev@, i as int, k as int, score_distributions_at, score_distributions@, "ScoreDistribution"@, score_distribution_tag());
    }
    proof {
        if !(predicate is True) {
            assert(predicate_read_at(ev@, pred_at, predicate));
        }
    }
    proof {
        if element_named(ev@, i as int, "Node"@) && node_parts_complete(ev@, i as int) {
            assert(last_predicate(ev@, i as int, k as int, last_pa, predicate));
        }
    }
    let res = RawNode {
        id,
        score,
        record_count,
        predicate,
        score_distributions,
        children,
        default_child,
    };
    proof {
        if element_named(ev@, i as int, "Node"@) && node_parts_complete(ev@, i as int) {
            assert(last_predicate(ev@, i as int, k as int, last_pa, res.predicate));
            assert(predicate_is_last(ev@, i as int, k as int, res.predicate));
        }
    }
    Ok((res, k))
}

/// Whether the tree model whose start tag `start` was just read, at `i - 1`,
/// can be read in full: the stream is well nested; `functionName` is
/// present; every predicate, score-distribution, mining-field and
/// output-field tag from `i` on carries the attributes it needs; and within
/// the model there is no `LocalTransformations` element and no nested end tag
/// named `TreeModel`.
pub open spec fn tree_model_readable(ev: Seq<XmlEvent>, i: int, start: XmlTag) -> bool {
    &&& element_named(ev, i, "TreeModel"@)
    &&& tag_attr(start, "functionName"@) is Some
    &&& node_parts_complete(ev, i)
    &&& tags_carry(ev, i, "MiningField"@, "name"@)
    &&& tags_carry(ev, i, "OutputField"@, "name"@)
    &&& forall|p: int| i <= p < closing(ev, i - 1) ==> !#[trigger] start_named_at(ev, p, "LocalTransformations"@)
    &&& forall|p: int| i <= p < closing(ev, i - 1) ==> !#[trigger] is_end_named(ev[p], "TreeModel"@)
}

/// Whether the element whose start tag was just read, at `i - 1`, has a
/// child element named `name`: a start tag of that name, inside it, at the
/// depth just inside it.
pub open spec fn has_child_named(ev: Seq<XmlEvent>, i: int, name: Seq<char>) -> bool {
    exists|p: int|
        i <= p < closing(ev, i - 1) && #[trigger] start_named_at(ev, p, name) && depth_at(ev, p) == depth_at(ev, i)
}

/// Whether no start tag named `name` stands inside the element whose start
/// tag was just read, at `i - 1`.
pub open spec fn no_tag_named(ev: Seq<XmlEvent>, i: int, name: Seq<char>) -> bool {
    forall|p: int| i <= p < closing(ev, i - 1) ==> !#[trigger] start_named_at(ev, p, name)
}

/// Whether `e` is the error for a tree model without a root node.
pub open spec fn is_missing_root(e: PmmlError) -> bool {
    e matches PmmlError::ParseError { context, message } && context@ == "TreeModel"@ && message@
        == "missing root Node"@
}

/// Whether `m` holds the attributes of `TreeModel` tag `t`.
pub open spec fn tree_model_of(t: XmlTag, m: RawTreeModel) -> bool {
    &&& tag_attr(t, "functionName"@) == Some(m.function_name@)
    &&& opt_view(m.missing_value_strategy) == tag_attr(t, "missingValueStrategy"@)
    &&& opt_view(m.no_true_child_strategy) == tag_attr(t, "noTrueChildStrategy"@)
    &&& m.targets@.len() == 0
}

/// A `TreeModel` whose start (or empty-element) tag was just read:
/// `functionName` is required and a root `Node` must be present.
pub fn parse_tree_model(ev: &Vec<XmlEvent>, i: usize, start: &XmlTag) -> (r: Result<
    (RawTreeModel, usize),
    PmmlError,
>)
    requires
        0 < i <= ev@.len(),
    ensures
        match r {
            Ok((m, j)) => read_each_section(ev@, i as int, j as int, m.local_derived_fields@, "LocalTransformations"@, "DerivedField"@, derived_field_tag())
                && read_each_section(ev@, i as int, j as int, m.output@, "Output"@, "OutputField"@, output_field_tag())
                && read_each_section(ev@, i as int, j as int, m.mining_schema@, "MiningSchema"@, "MiningField"@, mining_field_tag())
                && read_in_order(ev@, i as int, j as int, m.local_derived_fields@, "DerivedField"@, derived_field_tag()) && read_in_order(ev@, i as int, j as int, m.output@, "OutputField"@, output_field_tag()) && read_in_order(ev@, i as int, j as int, m.mining_schema@, "MiningField"@, mining_field_tag())
                && stops_at_end_or_tag(ev@, i as int, j as int, "TreeModel"@)
                && tree_model_of(*start, m)
                && exists|p: int| i <= p < j && #[trigger] tag_gives(ev@, p, "Node"@, m.root, node_tag()),
            Err(e) => tag_attr(*start, "functionName"@) is None ==> is_missing_attr(
                e,
                "TreeModel"@,
                "functionName"@,
            ),
        },
        tree_model_readable(ev@, i as int, *start) ==> (r is Ok || (r matches Err(e) && is_missing_root(e))),
        tree_model_readable(ev@, i as int, *start) ==> (r matches Ok((_, j)) ==> j <= closing(ev@, i - 1) + 1),
        tree_model_readable(ev@, i as int, *start) && has_child_named(ev@, i as int, "Node"@) ==> r is Ok,
        tree_model_readable(ev@, i as int, *start) && no_tag_named(ev@, i as int, "Node"@) ==> (r matches Err(e) && is_missing_root(e)),
{
    let function_name = attr_required(start, "functionName", "TreeModel")?;
    let missing_value_strategy = attr(start, "missingValueStrategy");
    let no_true_child_strategy = attr(start, "noTrueChildStrategy");
    let mut mining_schema: Vec<RawMiningField> = Vec::new();
    let ghost mut schema_at: Seq<int> = Seq::empty();
    let mut output: Vec<RawOutputField> = Vec::new();
    let ghost mut output_at: Seq<int> = Seq::empty();
    let mut root: Option<RawNode> = None;
    let ghost mut root_at: int = 0;
    let mut local_derived_fields: Vec<RawDerivedField> = Vec::new();
    let ghost mut local_derived_fields_at: Seq<int> = Seq::empty();
    let ghost mut ms_secs: Seq<int> = Seq::empty();
    let ghost mut ms_ends: Seq<int> = Seq::empty();
    let ghost mut ms_parts: Seq<Seq<RawMiningField>> = Seq::empty();
    let ghost mut ms_spans: Seq<(int, int)> = Seq::empty();
    proof {
        assert(ms_parts.flatten() =~= Seq::<RawMiningField>::empty());
    }
    let ghost mut out_secs: Seq<int> = Seq::empty();
    let ghost mut out_ends: Seq<int> = Seq::empty();
    let ghost mut out_parts: Seq<Seq<RawOutputField>> = Seq::empty();
    let ghost mut out_spans: Seq<(int, int)> = Seq::empty();
    proof {
        assert(out_parts.flatten() =~= Seq::<RawOutputField>::empty());
    }
    let ghost mut ldf_secs: Seq<int> = Seq::empty();
    let ghost mut ldf_ends: Seq<int> = Seq::empty();
    let ghost mut ldf_parts: Seq<Seq<RawDerivedField>> = Seq::empty();
    let ghost mut ldf_spans: Seq<(int, int)> = Seq::empty();
    proof {
        assert(ldf_parts.flatten() =~= Seq::<RawDerivedField>::empty());
    }
    let mut k = i;
    proof {
        if element_named(ev@, i as int, "TreeModel"@) {
            lemma_closing(ev@, i - 1);
        }
    }
    loop
        invariant_except_break
            element_named(ev@, i as int, "TreeModel"@) && tree_model_readable(ev@, i as int, *start) ==> k <= closing(ev@, i - 1) && closes_at(ev@, i - 1, closing(ev@, i - 1)),
            tree_model_readable(ev@, i as int, *start) && root is None ==> forall|p: int| i <= p < k && #[trigger] start_named_at(ev@, p, "Node"@) ==> depth_at(ev@, p) > depth_at(ev@, i as int),
            0 < i <= k <= ev@.len(),
            sections_read(ev@, i as int, k as int, ldf_secs, ldf_ends, ldf_parts, "LocalTransformations"@, "DerivedField"@, derived_field_tag()),
            covers_level(ev@, i as int, k as int, ldf_secs, ldf_spans, "LocalTransformations"@),
            spans_ok(ev@, ldf_spans, i as int, k as int),
            local_derived_fields@ == ldf_parts.flatten(),
            sections_read(ev@, i as int, k as int, out_secs, out_ends, out_parts, "Output"@, "OutputField"@, output_field_tag()),
            covers_level(ev@, i as int, k as int, out_secs, out_spans, "Output"@),
            spans_ok(ev@, out_spans, i as int, k as int),
            output@ == out_parts.flatten(),
            sections_read(ev@, i as int, k as int, ms_secs, ms_ends, ms_parts, "MiningSchema"@, "MiningField"@, mining_field_tag()),
            covers_level(ev@, i as int, k as int, ms_secs, ms_spans, "MiningSchema"@),
            spans_ok(ev@, ms_spans, i as int, k as int),
            mining_schema@ == ms_parts.flatten(),
            tag_attr(*start, "functionName"@) == Some(function_name@),
            read_at_positions(ev@, i as int, schema_at, mining_schema@, "MiningField"@, mining_field_tag()),
            schema_at.len() > 0 ==> schema_at.last() < k,
            read_at_positions(ev@, i as int, output_at, output@, "OutputField"@, output_field_tag()),
            output_at.len() > 0 ==> output_at.last() < k,
            read_at_positions(ev@, i as int, local_derived_fields_at, local_derived_fields@, "DerivedField"@, derived_field_tag()),
            local_derived_fields_at.len() > 0 ==> local_derived_fields_at.last() < k,
            root matches Some(n) ==> i <= root_at < k && tag_gives(ev@, root_at, "Node"@, n, node_tag()),
        ensures
            element_named(ev@, i as int, "TreeModel"@) && tree_model_readable(ev@, i as int, *start) ==> k <= closing(ev@, i - 1) + 1 && (k == closing(ev@, i - 1) + 1),
            tree_model_readable(ev@, i as int, *start) && root is None ==> forall|p: int| i <= p < k && #[trigger] start_named_at(ev@, p, "Node"@) ==> depth_at(ev@, p) > depth_at(ev@, i as int),
            0 < i <= k <= ev@.len(),
            sections_read(ev@, i as int, k as int, ldf_secs, ldf_ends, ldf_parts, "LocalTransformations"@, "DerivedField"@, derived_field_tag()),
            covers_level(ev@, i as int, k as int, ldf_secs, ldf_spans, "LocalTransformations"@),
            spans_ok(ev@, ldf_spans, i as int, k as int),
            local_derived_fields@ == ldf_parts.flatten(),
            sections_read(ev@, i as int, k as int, out_secs, out_ends, out_parts, "Output"@, "OutputField"@, output_field_tag()),
            covers_level(ev@, i as int, k as int, out_secs, out_spans, "Output"@),
            spans_ok(ev@, out_spans, i as int, k as int),
            output@ == out_parts.flatten(),
            sections_read(ev@, i as int, k as int, ms_secs, ms_ends, ms_parts, "MiningSchema"@, "MiningField"@, mining_field_tag()),
            covers_level(ev@, i as int, k as int, ms_secs, ms_spans, "MiningSchema"@),
            spans_ok(ev@, ms_spans, i as int, k as int),
            mining_schema@ == ms_parts.flatten(),
            tag_attr(*start, "functionName"@) == Some(function_name@),
            read_at_positions(ev@, i as int, schema_at, mining_schema@, "MiningField"@, mining_field_tag()),
            schema_at.len() > 0 ==> schema_at.last() < k,
            read_at_positions(ev@, i as int, output_at, output@, "OutputField"@, output_field_tag()),
            output_at.len() > 0 ==> output_at.last() < k,
            read_at_positions(ev@, i as int, local_derived_fields_at, local_derived_fields@, "DerivedField"@, derived_field_tag()),
            local_derived_fields_at.len() > 0 ==> local_derived_fields_at.last() < k,
            root matches Some(n) ==> i <= root_at < k && tag_gives(ev@, root_at, "Node"@, n, node_tag()),
            root matches Some(n) ==> i <= root_at < k && tag_gives(ev@, root_at, "Node"@, n, node_tag()),
            at_end(ev@, k as int) || (i < k && is_end_named(ev@[k - 1], "TreeModel"@)),
            sections_read(ev@, i as int, k as int, ldf_secs, ldf_ends, ldf_parts, "LocalTransformations"@, "DerivedField"@, derived_field_tag()),
            covers_level(ev@, i as int, k as int, ldf_secs, ldf_spans, "LocalTransformations"@),
            spans_ok(ev@, ldf_spans, i as int, k as int),
            local_derived_fields@ == ldf_parts.flatten(),
            sections_read(ev@, i as int, k as int, out_secs, out_ends, out_parts, "Output"@, "OutputField"@, output_field_tag()),
            covers_level(ev@, i as int, k as int, out_secs, out_spans, "Output"@),
            spans_ok(ev@, out_spans, i as int, k as int),
            output@ == out_parts.flatten(),
            sections_read(ev@, i as int, k as int, ms_secs, ms_ends, ms_parts, "MiningSchema"@, "MiningField"@, mining_field_tag()),
            covers_level(ev@, i as int, k as int, ms_secs, ms_spans, "MiningSchema"@),
            spans_ok(ev@, ms_spans, i as int, k as int),
            mining_schema@ == ms_parts.flatten(),
            read_at_positions(ev@, i as int, schema_at, mining_schema@, "MiningField"@, mining_field_tag()),
            schema_at.len() > 0 ==> schema_at.last() < k,
            read_at_positions(ev@, i as int, output_at, output@, "OutputField"@, output_field_tag()),
            output_at.len() > 0 ==> output_at.last() < k,
            read_at_positions(ev@, i as int, local_derived_fields_at, local_derived_fields@, "DerivedField"@, derived_field_tag()),
            local_derived_fields_at.len() > 0 ==> local_derived_fields_at.last() < k,
        decreases ev@.len() - k,
    {
        proof {
            if element_named(ev@, i as int, "TreeModel"@) && tree_model_readable(ev@, i as int, *start) {
                lemma_nested_step(ev@, i as int, k as int);
                if k < closing(ev@, i - 1) {
                    assert(!start_named_at(ev@, k as int, "LocalTransformations"@));
                    assert(!is_end_named(ev@[k as int], "TreeModel"@));
                }
            }
        }
        if end_at(ev, k) {
            break;
        }
        let ghost ldf_here = k as int;
        let ghost ldf_secs0 = ldf_secs;
        let ghost mut ldf_stepped = false;
        proof {
            reveal_strlit("LocalTransformations");
            reveal_strlit("MiningSchema");
            reveal_strlit("ModelExplanation");
            reveal_strlit("ModelStats");
            reveal_strlit("Node");
            reveal_strlit("Output");
            reveal_strlit("Targets");
            assert("LocalTransformations"@ != "MiningSchema"@) by { assert("LocalTransformations"@.len() != "MiningSchema"@.len()); }
            assert("LocalTransformations"@ != "ModelExplanation"@) by { assert("LocalTransformations"@.len() != "ModelExplanation"@.len()); }
            assert("LocalTransformations"@ != "ModelStats"@) by { assert("LocalTransformations"@.len() != "ModelStats"@.len()); }
            assert("LocalTransformations"@ != "Node"@) by { assert("LocalTransformations"@.len() != "Node"@.len()); }
            assert("LocalTransformations"@ != "Output"@) by { assert("LocalTransformations"@.len() != "Output"@.len()); }
            assert("LocalTransformations"@ != "Targets"@) by { assert("LocalTransformations"@.len() != "Targets"@.len()); }
        }
        let ghost out_here = k as int;
        let ghost out_secs0 = out_secs;
        let ghost mut out_stepped = false;
        proof {
            reveal_strlit("LocalTransformations");
            reveal_strlit("MiningSchema");
            reveal_strlit("ModelExplanation");
            reveal_strlit("ModelStats");
            reveal_strlit("Node");
            reveal_strlit("Output");
            reveal_strlit("Targets");
            assert("Output"@ != "LocalTransformations"@) by { assert("Output"@.len() != "LocalTransformations"@.len()); }
            assert("Output"@ != "MiningSchema"@) by { assert("Output"@.len() != "MiningSchema"@.len()); }
            assert("Output"@ != "ModelExplanation"@) by { assert("Output"@.len() != "ModelExplanation"@.len()); }
            assert("Output"@ != "ModelStats"@) by { assert("Output"@.len() != "ModelStats"@.len()); }
            assert("Output"@ != "Node"@) by { assert("Output"@.len() != "Node"@.len()); }
            assert("Output"@ != "Targets"@) by { assert("Output"@.len() != "Targets"@.len()); }
        }
        let ghost ms_here = k as int;
        let ghost ms_secs0 = ms_secs;
        let ghost mut ms_stepped = false;
        proof {
            reveal_strlit("LocalTransformations");
            reveal_strlit("MiningSchema");
            reveal_strlit("ModelExplanation");
            reveal_strlit("ModelStats");
            reveal_strlit("Node");
            reveal_strlit("Output");
            reveal_strlit("Targets");
            assert("MiningSchema"@ != "LocalTransformations"@) by { assert("MiningSchema"@.len() != "LocalTransformations"@.len()); }
            assert("MiningSchema"@ != "ModelExplanation"@) by { assert("MiningSchema"@.len() != "ModelExplanation"@.len()); }
            assert("MiningSchema"@ != "ModelStats"@) by { assert("MiningSchema"@.len() != "ModelStats"@.len()); }
            assert("MiningSchema"@ != "Node"@) by { assert("MiningSchema"@.len() != "Node"@.len()); }
            assert("MiningSchema"@ != "Output"@) by { assert("MiningSchema"@.len() != "Output"@.len()); }
            assert("MiningSchema"@ != "Targets"@) by { assert("MiningSchema"@.len() != "Targets"@.len()); }
        }
        match &ev[k] {
            XmlEvent::Start(t) => {
                k = k + 1;
                if name_is(&t.name, "MiningSchema") {
                    let ghost ms_before = mining_schema@;
                    let (mut fields, j) = parse_mining_schema(ev, k, true)?;
                    let ghost ms_ys = fields@;
                    proof {
                        schema_at = lemma_read_extend(ev@, i as int, schema_at, mining_schema@, "MiningField"@, mining_field_tag(), k as int, j as int, fields@);
                    }
                    mining_schema.append(&mut fields);
                    proof {
                        assert(mining_schema@ =~= ms_before + ms_ys);
                        lemma_sections_push(ev@, i as int, ms_here, j as int, ms_secs, ms_ends, ms_parts, ms_ys, "MiningSchema"@, "MiningField"@, mining_field_tag());
                        lemma_covers_level_step(ev@, i as int, ms_here, j as int, ms_secs0, ms_secs0.push(ms_here), ms_spans, "MiningSchema"@);
                        ms_secs = ms_secs.push(ms_here);
                        ms_ends = ms_ends.push(j as int);
                        ms_parts = ms_parts.push(ms_ys);
                        ms_spans = span_step(ms_spans, ms_here, j as int);
                        ms_stepped = true;
                    }
                    k = j;
                } else if name_is(&t.name, "Output") {
                    let ghost out_before = output@;
                    let (mut fields, j) = parse_output(ev, k, true)?;
                    let ghost out_ys = fields@;
                    proof {
                        output_at = lemma_read_extend(ev@, i as int, output_at, output@, "OutputField"@, output_field_tag(), k as int, j as int, fields@);
                    }
                    output.append(&mut fields);
                    proof {
                        assert(output@ =~= out_before + out_ys);
                        lemma_sections_push(ev@, i as int, out_here, j as int, out_secs, out_ends, out_parts, out_ys, "Output"@, "OutputField"@, output_field_tag());
                        lemma_covers_level_step(ev@, i as int, out_here, j as int, out_secs0, out_secs0.push(out_here), out_spans, "Output"@);
                        out_secs = out_secs.push(out_here);
                        out_ends = out_ends.push(j as int);
                        out_parts = out_parts.push(out_ys);
                        out_spans = span_step(out_spans, out_here, j as int);
                        out_stepped = true;
                    }
                    k = j;
                } else if name_is(&t.name, "Node") {
                    let (n, j) = parse_node(ev, k, t)?;
                    proof {
                        root_at = k - 1;
                    }
                    root = Some(n);
                    k = j;
                } else if name_is(&t.name, "LocalTransformations") {
                    let ghost ldf_before = local_derived_fields@;
                    let (mut fields, j) = parse_local_transformations(ev, k)?;
                    let ghost ldf_ys = fields@;
                    proof {
                        local_derived_fields_at = lemma_read_extend(ev@, i as int, local_derived_fields_at, local_derived_fields@, "DerivedField"@, derived_field_tag(), k as int, j as int, fields@);
                    }
                    local_derived_fields.append(&mut fields);
                    proof {
                        assert(local_derived_fields@ =~= ldf_before + ldf_ys);
                        lemma_sections_push(ev@, i as int, ldf_here, j as int, ldf_secs, ldf_ends, ldf_parts, ldf_ys, "LocalTransformations"@, "DerivedField"@, derived_field_tag());
                        lemma_covers_level_step(ev@, i as int, ldf_here, j as int, ldf_secs0, ldf_secs0.push(ldf_here), ldf_spans, "LocalTransformations"@);
                        ldf_secs = ldf_secs.push(ldf_here);
                        ldf_ends = ldf_ends.push(j as int);
                        ldf_parts = ldf_parts.push(ldf_ys);
                        ldf_spans = span_step(ldf_spans, ldf_here, j as int);
                        ldf_stepped = true;
                    }
                    k = j;
                } else if name_is(&t.name, "Targets") || name_is(&t.name, "ModelStats") || name_is(
                    &t.name,
                    "ModelExplanation",
                ) {
                    k = skip_element(ev, k, t.name.as_str(), true)?;
                }
            },
            XmlEvent::Empty(t) => {
                k = k + 1;
                if name_is(&t.name, "Node") {
                    let (n, j) = parse_node(ev, k, t)?;
                    proof {
                        root_at = k - 1;
                    }
                    root = Some(n);
                    k = j;
                }
            },
            XmlEvent::End(n) => {
                k = k + 1;
                proof {
                    lemma_covers_level_step(ev@, i as int, ldf_here, k as int, ldf_secs0, ldf_secs0, ldf_spans, "LocalTransformations"@);
                    lemma_sections_widen(ev@, i as int, ldf_here, k as int, ldf_secs, ldf_ends, ldf_parts, "LocalTransformations"@, "DerivedField"@, derived_field_tag());
                    ldf_spans = span_step(ldf_spans, ldf_here, k as int);
                    ldf_stepped = true;
                }
                proof {
                    lemma_covers_level_step(ev@, i as int, out_here, k as int, out_secs0, out_secs0, out_spans, "Output"@);
                    lemma_sections_widen(ev@, i as int, out_here, k as int, out_secs, out_ends, out_parts, "Output"@, "OutputField"@, output_field_tag());
                    out_spans = span_step(out_spans, out_here, k as int);
                    out_stepped = true;
                }
                proof {
                    lemma_covers_level_step(ev@, i as int, ms_here, k as int, ms_secs0, ms_secs0, ms_spans, "MiningSchema"@);
                    lemma_sections_widen(ev@, i as int, ms_here, k as int, ms_secs, ms_ends, ms_parts, "MiningSchema"@, "MiningField"@, mining_field_tag());
                    ms_spans = span_step(ms_spans, ms_here, k as int);
                    ms_stepped = true;
                }
                if name_is(n, "TreeModel") {
                    break;
                }
            },
            _ => {
                k = k + 1;
            },
        }
        proof {
            if !ldf_stepped {
                lemma_covers_level_step(ev@, i as int, ldf_here, k as int, ldf_secs0, ldf_secs0, ldf_spans, "LocalTransformations"@);
                lemma_sections_widen(ev@, i as int, ldf_here, k as int, ldf_secs, ldf_ends, ldf_parts, "LocalTransformations"@, "DerivedField"@, derived_field_tag());
                ldf_spans = span_step(ldf_spans, ldf_here, k as int);
                ldf_stepped = true;
            }
        }
        proof {
            if !out_stepped {
                lemma_covers_level_step(ev@, i as int, out_here, k as int, out_secs0, out_secs0, out_spans, "Output"@);
                lemma_sections_widen(ev@, i as int, out_here, k as int, out_secs, out_ends, out_parts, "Output"@, "OutputField"@, output_field_tag());
                out_spans = span_step(out_spans, out_here, k as int);
                out_stepped = true;
            }
        }
        proof {
            if !ms_stepped {
                lemma_covers_level_step(ev@, i as int, ms_here, k as int, ms_secs0, ms_secs0, ms_spans, "MiningSchema"@);
                lemma_sections_widen(ev@, i as int, ms_here, k as int, ms_secs, ms_ends, ms_parts, "MiningSchema"@, "MiningField"@, mining_field_tag());
                ms_spans = span_step(ms_spans, ms_here, k as int);
                ms_stepped = true;
            }
        }
    }
    proof {
        if tree_model_readable(ev@, i as int, *start) && no_tag_named(ev@, i as int, "Node"@) && root is Some {
            lemma_closing(ev@, i - 1);
            assert(!(ev@[root_at] is Empty));
            if root_at < closing(ev@, i - 1) {
                assert(!start_named_at(ev@, root_at, "Node"@));
            }
            assert(false);
        }
    }
    let root = match root {
        Some(n) => n,
        None => {
            return Err(PmmlError::ParseError {
                context: string_from("TreeModel"),
                message: string_from("missing root Node"),
            });
        },
    };
    proof {
        lemma_read_in_order(ev@, i as int, k as int, schema_at, mining_schema@, "MiningField"@, mining_field_tag());
    }
    proof {
        lemma_read_in_order(ev@, i as int, k as int, output_at, output@, "OutputField"@, output_field_tag());
    }
    proof {
        lemma_read_in_order(ev@, i as int, k as int, local_derived_fields_at, local_derived_fields@, "DerivedField"@, derived_field_tag());
    }
    Ok((RawTreeModel {
        function_name,
        missing_value_strategy,
        no_true_child_strategy,
        mining_schema,
        output,
        targets: Vec::new(),
        root,
        local_derived_fields,
    }, k))
}

} // verus!
