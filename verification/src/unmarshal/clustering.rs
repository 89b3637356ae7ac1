//! `ClusteringModel`: comparison measure, clustering fields and clusters.

use vstd::prelude::*;
use crate::unmarshal::cursor::{start_named_at};
use crate::unmarshal::nesting::{closing, closes_at, lemma_nested_step, lemma_closing, model_readable, attrs_complete};
use crate::error::PmmlError;
use crate::strings::parse_usize;
use crate::xml::{XmlEvent, XmlTag, attr, attr_required, tag_attr, opt_view, is_missing_attr, name_is};
use crate::unmarshal::raw::{
    RawClusteringModel, RawCluster, RawComparisonMeasure, RawMiningField, RawOutputField,
    RawDerivedField,
};
use crate::unmarshal::common::{output_field_tag, attr_or, parse_mining_schema, parse_output, parse_words, mining_field_tag, words_of_texts};
use crate::strings::views;
use crate::unmarshal::expr::{parse_local_transformations, derived_field_tag};
use crate::unmarshal::cursor::{
    element_named, tags_carry,
    sections_read, read_each_section, lemma_sections_push, lemma_sections_widen,
    spans_ok, covers_level, read_each_reached, lemma_covers_level_step, span_step, lemma_read_each_reached,
    end_at, skip_one, skip_to_end_tag, unexpected_end, stops_after_tag, is_end_named, stops_at_end_or_tag, at_end, read_at_positions, read_in_order, lemma_read_extend, lemma_read_in_order, lemma_read_push, lemma_read_one, lemma_read_widen, childless, plain_until, plain_event,
};
use crate::strings::parsed_usize;

verus! {

/// An optional `usize` attribute: `None` when absent or not a `usize`.
pub open spec fn opt_usize(a: Option<Seq<char>>) -> Option<usize> {
    match a {
        Some(s) => parsed_usize(s),
        None => None,
    }
}

/// An optional `usize` parsed from attribute `key`.
pub fn attr_usize(tag: &XmlTag, key: &str) -> (r: Option<usize>)
    ensures
        r == opt_usize(tag_attr(*tag, key@)),
{
    match attr(tag, key) {
        Some(s) => parse_usize(s.as_str()),
        None => None,
    }
}

/// How a cluster is read from its tag: its `name`.
pub open spec fn cluster_tag() -> spec_fn(XmlTag, RawCluster) -> bool {
    |t: XmlTag, c: RawCluster| tag_attr(t, "name"@) == Some(c.name@)
}

/// How a clustering field is read from its tag: its `field`.
pub open spec fn clustering_field_tag() -> spec_fn(XmlTag, String) -> bool {
    |t: XmlTag, f: String| tag_attr(t, "field"@) == Some(f@)
}

/// Whether the start tags at `secs`, in `[lo, hi)`, each opened an `Array`
/// element that reading passed through up to `ends`, in order, and `ws` are
/// the whitespace-separated words of the texts inside each.
pub open spec fn array_sections(
    ev: Seq<XmlEvent>,
    lo: int,
    hi: int,
    secs: Seq<int>,
    ends: Seq<int>,
    ws: Seq<Seq<Seq<char>>>,
) -> bool {
    &&& secs.len() == ends.len()
    &&& ends.len() == ws.len()
    &&& forall|x: int|
        0 <= x < secs.len() ==> lo <= #[trigger] secs[x] < ends[x] <= hi && start_named_at(ev, secs[x], "Array"@)
            && ws[x] == words_of_texts(ev.subrange(secs[x] + 1, ends[x]))
    &&& forall|x: int, y: int| 0 <= x < y < secs.len() ==> #[trigger] ends[x] <= #[trigger] secs[y]
}

/// Whether `words` are, in order, the words of every `Array` element that
/// reading reached in `[lo, hi)`.
pub open spec fn array_words_read(ev: Seq<XmlEvent>, lo: int, hi: int, words: Seq<Seq<char>>) -> bool {
    exists|secs: Seq<int>, ends: Seq<int>, ws: Seq<Seq<Seq<char>>>, spans: Seq<(int, int)>|
        #[trigger] array_sections(ev, lo, hi, secs, ends, ws) && #[trigger] covers_level(ev, lo, hi, secs, spans, "Array"@)
            && spans_ok(ev, spans, lo, hi) && words == ws.flatten()
}

/// An `Array` read from `here` to `next` extends the sections read so far.
proof fn lemma_array_push(
    ev: Seq<XmlEvent>,
    lo: int,
    here: int,
    next: int,
    secs: Seq<int>,
    ends: Seq<int>,
    ws: Seq<Seq<Seq<char>>>,
)
    requires
        array_sections(ev, lo, here, secs, ends, ws),
        lo <= here < next,
        start_named_at(ev, here, "Array"@),
    ensures
        array_sections(ev, lo, next, secs.push(here), ends.push(next), ws.push(words_of_texts(ev.subrange(here + 1, next)))),
        ws.push(words_of_texts(ev.subrange(here + 1, next))).flatten() == ws.flatten() + words_of_texts(ev.subrange(here + 1, next)),
{
    let w = words_of_texts(ev.subrange(here + 1, next));
    let s2 = secs.push(here);
    let e2 = ends.push(next);
    let w2 = ws.push(w);
    assert forall|x: int| 0 <= x < s2.len() implies lo <= #[trigger] s2[x] < e2[x] <= next && start_named_at(ev, s2[x], "Array"@)
        && w2[x] == words_of_texts(ev.subrange(s2[x] + 1, e2[x])) by {
        if x < secs.len() {
            assert(s2[x] == secs[x] && e2[x] == ends[x] && w2[x] == ws[x]);
        }
    }
    assert forall|x: int, y: int| 0 <= x < y < s2.len() implies #[trigger] e2[x] <= #[trigger] s2[y] by {
        if y < secs.len() {
            assert(s2[y] == secs[y] && e2[x] == ends[x]);
            assert(ends[x] <= secs[y]);
        } else {
            assert(e2[x] == ends[x]);
            assert(0 <= x < secs.len());
            assert(lo <= secs[x] < ends[x] <= here);
            assert(s2[y] == here);
        }
    }
    ws.lemma_flatten_push(w);
}

/// A `Cluster` whose start tag was just read: `name` is required; the words
/// of its `Array` children, up to its end tag.
fn parse_cluster(ev: &Vec<XmlEvent>, i: usize, start: &XmlTag) -> (r: Result<(RawCluster, usize), PmmlError>)
    requires
        i <= ev@.len(),
    ensures
        r matches Ok((c, j)) ==> stops_after_tag(ev@, i as int, j as int, "Cluster"@)
            && tag_attr(*start, "name"@)
            == Some(c.name@) && array_words_read(ev@, i as int, j as int, views(c.array@)),
        childless(ev@, i as int, "Cluster"@) && tag_attr(*start, "name"@) is Some ==> r is Ok,
        element_named(ev@, i as int, "Cluster"@) && attrs_complete(ev@, i as int) && tag_attr(*start, "name"@) is Some ==> (r matches Ok((_, j)) && j <= closing(ev@, i - 1) + 1),
{
    let name = attr_required(start, "name", "Cluster")?;
    let mut array: Vec<String> = Vec::new();
    let ghost q: int = if childless(ev@, i as int, "Cluster"@) {
        choose|q: int| plain_until(ev@, i as int, q, "Cluster"@)
    } else {
        0
    };
    let ghost mut secs: Seq<int> = Seq::empty();
    let ghost mut ends: Seq<int> = Seq::empty();
    let ghost mut ws: Seq<Seq<Seq<char>>> = Seq::empty();
    let ghost mut spans: Seq<(int, int)> = Seq::empty();
    proof {
        assert(ws.flatten() =~= Seq::<Seq<char>>::empty());
        assert(views(array@) =~= Seq::<Seq<char>>::empty());
    }
    let mut k = i;
    proof {
        if element_named(ev@, i as int, "Cluster"@) {
            lemma_closing(ev@, i - 1);
        }
    }
    loop
        invariant_except_break
            element_named(ev@, i as int, "Cluster"@) && attrs_complete(ev@, i as int) && tag_attr(*start, "name"@) is Some ==> k <= closing(ev@, i - 1) && closes_at(ev@, i - 1, closing(ev@, i - 1)),
            i <= k <= ev@.len(),
            childless(ev@, i as int, "Cluster"@) ==> plain_until(ev@, i as int, q, "Cluster"@) && k <= q,
            array_sections(ev@, i as int, k as int, secs, ends, ws),
            covers_level(ev@, i as int, k as int, secs, spans, "Array"@),
            spans_ok(ev@, spans, i as int, k as int),
            views(array@) == ws.flatten(),
        ensures
            array_sections(ev@, i as int, k as int, secs, ends, ws),
            covers_level(ev@, i as int, k as int, secs, spans, "Array"@),
            spans_ok(ev@, spans, i as int, k as int),
            views(array@) == ws.flatten(),
            element_named(ev@, i as int, "Cluster"@) && attrs_complete(ev@, i as int) && tag_attr(*start, "name"@) is Some ==> k <= closing(ev@, i - 1) + 1,
            i < k && is_end_named(ev@[k - 1], "Cluster"@),
            i <= k <= ev@.len(),
        decreases ev@.len() - k,
    {
        proof {
            if childless(ev@, i as int, "Cluster"@) && k < q {
                assert(plain_event(ev@[k as int], "Cluster"@));
            }
        }
        proof {
            if element_named(ev@, i as int, "Cluster"@) && attrs_complete(ev@, i as int) && tag_attr(*start, "name"@) is Some {
                lemma_nested_step(ev@, i as int, k as int);
            }
        }
        if end_at(ev, k) {
            return Err(unexpected_end());
        }
        let ghost here = k as int;
        let ghost secs0 = secs;
        let ghost mut stepped = false;
        proof {
            reveal_strlit("Array");
        }
        match &ev[k] {
            XmlEvent::Start(t) => {
                k = k + 1;
                if name_is(&t.name, "Array") {
                    let j = parse_words(ev, k, "Array", &mut array)?;
                    proof {
                        lemma_array_push(ev@, i as int, here, j as int, secs, ends, ws);
                        lemma_covers_level_step(ev@, i as int, here, j as int, secs0, secs0.push(here), spans, "Array"@);
                        ws = ws.push(words_of_texts(ev@.subrange(here + 1, j as int)));
                        secs = secs.push(here);
                        ends = ends.push(j as int);
                        spans = span_step(spans, here, j as int);
                        stepped = true;
                    }
                    k = j;
                }
            },
            XmlEvent::End(n) => {
                k = k + 1;
                proof {
                    lemma_covers_level_step(ev@, i as int, here, k as int, secs0, secs0, spans, "Array"@);
                    spans = span_step(spans, here, k as int);
                    stepped = true;
                }
                if name_is(n, "Cluster") {
                    break;
                }
            },
            _ => {
                k = k + 1;
            },
        }
        proof {
            if !stepped {
                lemma_covers_level_step(ev@, i as int, here, k as int, secs0, secs0, spans, "Array"@);
                spans = span_step(spans, here, k as int);
            }
        }
    }
    Ok((RawCluster { name, array }, k))
}

/// How a comparison measure is read from its tag: its `kind`, `distance`
/// when absent.
pub open spec fn comparison_measure_tag() -> spec_fn(XmlTag, RawComparisonMeasure) -> bool {
    |t: XmlTag, c: RawComparisonMeasure|
        c.kind@ == match tag_attr(t, "kind"@) {
            Some(s) => s,
            None => "distance"@,
        } && c.compare_function is None
}

/// Whether `m` holds the attributes of `ClusteringModel` tag `t`.
pub open spec fn clustering_model_of(t: XmlTag, m: RawClusteringModel) -> bool {
    &&& tag_attr(t, "functionName"@) == Some(m.function_name@)
    &&& opt_view(m.model_name) == tag_attr(t, "modelName"@)
    &&& opt_view(m.model_class) == tag_attr(t, "modelClass"@)
    &&& m.number_of_clusters == opt_usize(tag_attr(t, "numberOfClusters"@))
    &&& m.targets@.len() == 0
}

/// A `ClusteringModel` whose start (or empty-element) tag was just read:
/// `functionName` is required.
pub fn parse_clustering_model(ev: &Vec<XmlEvent>, i: usize, start: &XmlTag) -> (r: Result<
    (RawClusteringModel, usize),
    PmmlError,
>)
    requires
        0 < i <= ev@.len(),
    ensures
        match r {
            Ok((m, j)) => read_each_section(ev@, i as int, j as int, m.local_derived_fields@, "LocalTransformations"@, "DerivedField"@, derived_field_tag())
                && read_each_section(ev@, i as int, j as int, m.output@, "Output"@, "OutputField"@, output_field_tag())
                && read_each_section(ev@, i as int, j as int, m.mining_schema@, "MiningSchema"@, "MiningField"@, mining_field_tag())
                && read_each_reached(ev@, i as int, j as int, m.clusters@, "Cluster"@, cluster_tag()) && read_each_reached(ev@, i as int, j as int, m.clustering_fields@, "ClusteringField"@, clustering_field_tag())
                && read_in_order(ev@, i as int, j as int, m.local_derived_fields@, "DerivedField"@, derived_field_tag()) && read_in_order(ev@, i as int, j as int, m.output@, "OutputField"@, output_field_tag()) && read_in_order(ev@, i as int, j as int, m.clustering_fields@, "ClusteringField"@, clustering_field_tag())
                && read_in_order(ev@, i as int, j as int, m.clusters@, "Cluster"@, cluster_tag())
                && read_in_order(ev@, i as int, j as int, m.mining_schema@, "MiningField"@, mining_field_tag())
                && (m.comparison_measure matches Some(c) ==> read_in_order(ev@, i as int, j as int, seq![c], "ComparisonMeasure"@, comparison_measure_tag()))
                && stops_at_end_or_tag(ev@, i as int, j as int, "ClusteringModel"@)
                && clustering_model_of(*start, m),
            Err(e) => tag_attr(*start, "functionName"@) is None ==> is_missing_attr(
                e,
                "ClusteringModel"@,
                "functionName"@,
            ),
        },
        element_named(ev@, i as int, "ClusteringModel"@) && model_readable(ev@, i as int, *start, "ClusteringModel"@) ==> (r matches Ok((_, j)) && j <= closing(ev@, i - 1) + 1),
{
    let function_name = attr_required(start, "functionName", "ClusteringModel")?;
    let model_name = attr(start, "modelName");
    let model_class = attr(start, "modelClass");
    let number_of_clusters = attr_usize(start, "numberOfClusters");
    let mut mining_schema: Vec<RawMiningField> = Vec::new();
    let ghost mut schema_at: Seq<int> = Seq::empty();
    let mut output: Vec<RawOutputField> = Vec::new();
    let ghost mut output_at: Seq<int> = Seq::empty();
    let mut comparison_measure: Option<RawComparisonMeasure> = None;
    let ghost mut measure_hi: int = i as int;
    let mut clustering_fields: Vec<String> = Vec::new();
    let ghost mut clustering_fields_at: Seq<int> = Seq::empty();
    let mut clusters: Vec<RawCluster> = Vec::new();
    let ghost mut clusters_at: Seq<int> = Seq::empty();
    let mut local_derived_fields: Vec<RawDerivedField> = Vec::new();
    let ghost mut local_derived_fields_at: Seq<int> = Seq::empty();
    let ghost mut spans: Seq<(int, int)> = Seq::empty();
    let ghost mut ms_secs: Seq<int> = Seq::empty();
    let ghost mut ms_ends: Seq<int> = Seq::empty();
    let ghost mut ms_parts: Seq<Seq<RawMiningField>> = Seq::empty();
    let ghost mut ms_spans: Seq<(int, int)> = Seq::empty();
    proof {
        assert(ms_parts.flatten() =~= Seq::<RawMiningField>::empty());
    }
    let ghost mut out_secs: Seq<int> = Seq::empty();
    let ghost mut out_ends: Seq<int> = Seq::empty();
    let ghost mut out_parts: Seq<Seq<RawOutputField>> = Seq::empty();
    let ghost mut out_spans: Seq<(int, int)> = Seq::empty();
    proof {
        assert(out_parts.flatten() =~= Seq::<RawOutputField>::empty());
    }
    let ghost mut ldf_secs: Seq<int> = Seq::empty();
    let ghost mut ldf_ends: Seq<int> = Seq::empty();
    let ghost mut ldf_parts: Seq<Seq<RawDerivedField>> = Seq::empty();
    let ghost mut ldf_spans: Seq<(int, int)> = Seq::empty();
    proof {
        assert(ldf_parts.flatten() =~= Seq::<RawDerivedField>::empty());
    }
    let mut k = i;
    proof {
        if element_named(ev@, i as int, "ClusteringModel"@) {
            lemma_closing(ev@, i - 1);
        }
    }
    loop
        invariant_except_break
            element_named(ev@, i as int, "ClusteringModel"@) && model_readable(ev@, i as int, *start, "ClusteringModel"@) ==> k <= closing(ev@, i - 1) && closes_at(ev@, i - 1, closing(ev@, i - 1)),
            0 < i <= k <= ev@.len(),
            sections_read(ev@, i as int, k as int, ldf_secs, ldf_ends, ldf_parts, "LocalTransformations"@, "DerivedField"@, derived_field_tag()),
            covers_level(ev@, i as int, k as int, ldf_secs, ldf_spans, "LocalTransformations"@),
            spans_ok(ev@, ldf_spans, i as int, k as int),
            local_derived_fields@ == ldf_parts.flatten(),
            sections_read(ev@, i as int, k as int, out_secs, out_ends, out_parts, "Output"@, "OutputField"@, output_field_tag()),
            covers_level(ev@, i as int, k as int, out_secs, out_spans, "Output"@),
            spans_ok(ev@, out_spans, i as int, k as int),
            output@ == out_parts.flatten(),
            sections_read(ev@, i as int, k as int, ms_secs, ms_ends, ms_parts, "MiningSchema"@, "MiningField"@, mining_field_tag()),
            covers_level(ev@, i as int, k as int, ms_secs, ms_spans, "MiningSchema"@),
            spans_ok(ev@, ms_spans, i as int, k as int),
            mining_schema@ == ms_parts.flatten(),
            spans_ok(ev@, spans, i as int, k as int),
            covers_level(ev@, i as int, k as int, clusters_at, spans, "Cluster"@),
            covers_level(ev@, i as int, k as int, clustering_fields_at, spans, "ClusteringField"@),
            tag_attr(*start, "functionName"@) == Some(function_name@),
            read_at_positions(ev@, i as int, schema_at, mining_schema@, "MiningField"@, mining_field_tag()),
            schema_at.len() > 0 ==> schema_at.last() < k,
            read_at_positions(ev@, i as int, clusters_at, clusters@, "Cluster"@, cluster_tag()),
            clusters_at.len() > 0 ==> clusters_at.last() < k,
            read_at_positions(ev@, i as int, clustering_fields_at, clustering_fields@, "ClusteringField"@, clustering_field_tag()),
            clustering_fields_at.len() > 0 ==> clustering_fields_at.last() < k,
            read_at_positions(ev@, i as int, output_at, output@, "OutputField"@, output_field_tag()),
            output_at.len() > 0 ==> output_at.last() < k,
            read_at_positions(ev@, i as int, local_derived_fields_at, local_derived_fields@, "DerivedField"@, derived_field_tag()),
            local_derived_fields_at.len() > 0 ==> local_derived_fields_at.last() < k,
            comparison_measure matches Some(c) ==> measure_hi <= k && read_in_order(ev@, i as int, measure_hi, seq![c], "ComparisonMeasure"@, comparison_measure_tag()),
        ensures
            element_named(ev@, i as int, "ClusteringModel"@) && model_readable(ev@, i as int, *start, "ClusteringModel"@) ==> k <= closing(ev@, i - 1) + 1,
            0 < i <= k <= ev@.len(),
            sections_read(ev@, i as int, k as int, ldf_secs, ldf_ends, ldf_parts, "LocalTransformations"@, "DerivedField"@, derived_field_tag()),
            covers_level(ev@, i as int, k as int, ldf_secs, ldf_spans, "LocalTransformations"@),
            spans_ok(ev@, ldf_spans, i as int, k as int),
            local_derived_fields@ == ldf_parts.flatten(),
            sections_read(ev@, i as int, k as int, out_secs, out_ends, out_parts, "Output"@, "OutputField"@, output_field_tag()),
            covers_level(ev@, i as int, k as int, out_secs, out_spans, "Output"@),
            spans_ok(ev@, out_spans, i as int, k as int),
            output@ == out_parts.flatten(),
            sections_read(ev@, i as int, k as int, ms_secs, ms_ends, ms_parts, "MiningSchema"@, "MiningField"@, mining_field_tag()),
            covers_level(ev@, i as int, k as int, ms_secs, ms_spans, "MiningSchema"@),
            spans_ok(ev@, ms_spans, i as int, k as int),
            mining_schema@ == ms_parts.flatten(),
            spans_ok(ev@, spans, i as int, k as int),
            covers_level(ev@, i as int, k as int, clusters_at, spans, "Cluster"@),
            covers_level(ev@, i as int, k as int, clustering_fields_at, spans, "ClusteringField"@),
            tag_attr(*start, "functionName"@) == Some(function_name@),
            read_at_positions(ev@, i as int, schema_at, mining_schema@, "MiningField"@, mining_field_tag()),
            schema_at.len() > 0 ==> schema_at.last() < k,
            read_at_positions(ev@, i as int, clusters_at, clusters@, "Cluster"@, cluster_tag()),
            clusters_at.len() > 0 ==> clusters_at.last() < k,
            read_at_positions(ev@, i as int, clustering_fields_at, clustering_fields@, "ClusteringField"@, clustering_field_tag()),
            clustering_fields_at.len() > 0 ==> clustering_fields_at.last() < k,
            read_at_positions(ev@, i as int, output_at, output@, "OutputField"@, output_field_tag()),
            output_at.len() > 0 ==> output_at.last() < k,
            read_at_positions(ev@, i as int, local_derived_fields_at, local_derived_fields@, "DerivedField"@, derived_field_tag()),
            local_derived_fields_at.len() > 0 ==> local_derived_fields_at.last() < k,
            comparison_measure matches Some(c) ==> measure_hi <= k && read_in_order(ev@, i as int, measure_hi, seq![c], "ComparisonMeasure"@, comparison_measure_tag()),
            at_end(ev@, k as int) || (i < k && is_end_named(ev@[k - 1], "ClusteringModel"@)),
            sections_read(ev@, i as int, k as int, ldf_secs, ldf_ends, ldf_parts, "LocalTransformations"@, "DerivedField"@, derived_field_tag()),
            covers_level(ev@, i as int, k as int, ldf_secs, ldf_spans, "LocalTransformations"@),
            spans_ok(ev@, ldf_spans, i as int, k as int),
            local_derived_fields@ == ldf_parts.flatten(),
            sections_read(ev@, i as int, k as int, out_secs, out_ends, out_parts, "Output"@, "OutputField"@, output_field_tag()),
            covers_level(ev@, i as int, k as int, out_secs, out_spans, "Output"@),
            spans_ok(ev@, out_spans, i as int, k as int),
            output@ == out_parts.flatten(),
            sections_read(ev@, i as int, k as int, ms_secs, ms_ends, ms_parts, "MiningSchema"@, "MiningField"@, mining_field_tag()),
            covers_level(ev@, i as int, k as int, ms_secs, ms_spans, "MiningSchema"@),
            spans_ok(ev@, ms_spans, i as int, k as int),
            mining_schema@ == ms_parts.flatten(),
            spans_ok(ev@, spans, i as int, k as int),
            covers_level(ev@, i as int, k as int, clusters_at, spans, "Cluster"@),
            covers_level(ev@, i as int, k as int, clustering_fields_at, spans, "ClusteringField"@),
            read_at_positions(ev@, i as int, schema_at, mining_schema@, "MiningField"@, mining_field_tag()),
            schema_at.len() > 0 ==> schema_at.last() < k,
            read_at_positions(ev@, i as int, clusters_at, clusters@, "Cluster"@, cluster_tag()),
            clusters_at.len() > 0 ==> clusters_at.last() < k,
            read_at_positions(ev@, i as int, clustering_fields_at, clustering_fields@, "ClusteringField"@, clustering_field_tag()),
            clustering_fields_at.len() > 0 ==> clustering_fields_at.last() < k,
            read_at_positions(ev@, i as int, output_at, output@, "OutputField"@, output_field_tag()),
            output_at.len() > 0 ==> output_at.last() < k,
            read_at_positions(ev@, i as int, local_derived_fields_at, local_derived_fields@, "DerivedField"@, derived_field_tag()),
            local_derived_fields_at.len() > 0 ==> local_derived_fields_at.last() < k,
            comparison_measure matches Some(c) ==> measure_hi <= k && read_in_order(ev@, i as int, measure_hi, seq![c], "ComparisonMeasure"@, comparison_measure_tag()),
        decreases ev@.len() - k,
    {
        proof {
            if element_named(ev@, i as int, "ClusteringModel"@) && model_readable(ev@, i as int, *start, "ClusteringModel"@) {
                lemma_nested_step(ev@, i as int, k as int);
                if k < closing(ev@, i - 1) {
                    assert(!start_named_at(ev@, k as int, "LocalTransformations"@));
                    assert(!is_end_named(ev@[k as int], "ClusteringModel"@));
                }
            }
        }
        if end_at(ev, k) {
            break;
        }
        let ghost ldf_here = k as int;
        let ghost ldf_secs0 = ldf_secs;
        let ghost mut ldf_stepped = false;
        proof {
            reveal_strlit("Cluster");
            reveal_strlit("ClusteringField");
            reveal_strlit("ComparisonMeasure");
            reveal_strlit("LocalTransformations");
            reveal_strlit("MiningSchema");
            reveal_strlit("Output");
            assert("LocalTransformations"@ != "Cluster"@) by { assert("LocalTransformations"@.len() != "Cluster"@.len()); }
            assert("LocalTransformations"@ != "ClusteringField"@) by { assert("LocalTransformations"@.len() != "ClusteringField"@.len()); }
            assert("LocalTransformations"@ != "ComparisonMeasure"@) by { assert("LocalTransformations"@.len() != "ComparisonMeasure"@.len()); }
            assert("LocalTransformations"@ != "MiningSchema"@) by { assert("LocalTransformations"@.len() != "MiningSchema"@.len()); }
            assert("LocalTransformations"@ != "Output"@) by { assert("LocalTransformations"@.len() != "Output"@.len()); }
        }
        let ghost out_here = k as int;
        let ghost out_secs0 = out_secs;
        let ghost mut out_stepped = false;
        proof {
            reveal_strlit("Cluster");
            reveal_strlit("ClusteringField");
            reveal_strlit("ComparisonMeasure");
            reveal_strlit("LocalTransformations");
            reveal_strlit("MiningSchema");
            reveal_strlit("Output");
            assert("Output"@ != "Cluster"@) by { assert("Output"@.len() != "Cluster"@.len()); }
            assert("Output"@ != "ClusteringField"@) by { assert("Output"@.len() != "ClusteringField"@.len()); }
            assert("Output"@ != "ComparisonMeasure"@) by { assert("Output"@.len() != "ComparisonMeasure"@.len()); }
            assert("Output"@ != "LocalTransformations"@) by { assert("Output"@.len() != "LocalTransformations"@.len()); }
            assert("Output"@ != "MiningSchema"@) by { assert("Output"@.len() != "MiningSchema"@.len()); }
        }
        let ghost ms_here = k as int;
        let ghost ms_secs0 = ms_secs;
        let ghost mut ms_stepped = false;
        proof {
            reveal_strlit("Cluster");
            reveal_strlit("ClusteringField");
            reveal_strlit("ComparisonMeasure");
            reveal_strlit("LocalTransformations");
            reveal_strlit("MiningSchema");
            reveal_strlit("Output");
            assert("MiningSchema"@ != "Cluster"@) by { assert("MiningSchema"@.len() != "Cluster"@.len()); }
            assert("MiningSchema"@ != "ClusteringField"@) by { assert("MiningSchema"@.len() != "ClusteringField"@.len()); }
            assert("MiningSchema"@ != "ComparisonMeasure"@) by { assert("MiningSchema"@.len() != "ComparisonMeasure"@.len()); }
            assert("MiningSchema"@ != "LocalTransformations"@) by { assert("MiningSchema"@.len() != "LocalTransformations"@.len()); }
            assert("MiningSchema"@ != "Output"@) by { assert("MiningSchema"@.len() != "Output"@.len()); }
        }
        let ghost here = k as int;
        let ghost clusters_at0 = clusters_at;
        let ghost clustering_fields_at0 = clustering_fields_at;
        let ghost mut stepped = false;
        proof {
            reveal_strlit("Cluster");
            reveal_strlit("ClusteringField");
            reveal_strlit("ComparisonMeasure");
            reveal_strlit("LocalTransformations");
            reveal_strlit("MiningSchema");
            reveal_strlit("Output");
            assert("Cluster"@ != "ClusteringField"@) by { assert("Cluster"@.len() != "ClusteringField"@.len()); }
            assert("Cluster"@ != "ComparisonMeasure"@) by { assert("Cluster"@.len() != "ComparisonMeasure"@.len()); }
            assert("Cluster"@ != "LocalTransformations"@) by { assert("Cluster"@.len() != "LocalTransformations"@.len()); }
            assert("Cluster"@ != "MiningSchema"@) by { assert("Cluster"@.len() != "MiningSchema"@.len()); }
            assert("Cluster"@ != "Output"@) by { assert("Cluster"@.len() != "Output"@.len()); }
            assert("ClusteringField"@ != "Cluster"@) by { assert("ClusteringField"@.len() != "Cluster"@.len()); }
            assert("ClusteringField"@ != "ComparisonMeasure"@) by { assert("ClusteringField"@.len() != "ComparisonMeasure"@.len()); }
            assert("ClusteringField"@ != "LocalTransformations"@) by { assert("ClusteringField"@.len() != "LocalTransformations"@.len()); }
            assert("ClusteringField"@ != "MiningSchema"@) by { assert("ClusteringField"@.len() != "MiningSchema"@.len()); }
            assert("ClusteringField"@ != "Output"@) by { assert("ClusteringField"@.len() != "Output"@.len()); }
        }
        match &ev[k] {
            XmlEvent::Start(t) => {
                k = k + 1;
                if name_is(&t.name, "MiningSchema") {
                    let ghost ms_before = mining_schema@;
                    let (mut fields, j) = parse_mining_schema(ev, k, false)?;
                    let ghost ms_ys = fields@;
                    proof {
                        schema_at = lemma_read_extend(ev@, i as int, schema_at, mining_schema@, "MiningField"@, mining_field_tag(), k as int, j as int, fields@);
                    }
                    mining_schema.append(&mut fields);
                    proof {
                        assert(mining_schema@ =~= ms_before + ms_ys);
                        lemma_sections_push(ev@, i as int, ms_here, j as int, ms_secs, ms_ends, ms_parts, ms_ys, "MiningSchema"@, "MiningField"@, mining_field_tag());
                        lemma_covers_level_step(ev@, i as int, ms_here, j as int, ms_secs0, ms_secs0.push(ms_here), ms_spans, "MiningSchema"@);
                        ms_secs = ms_secs.push(ms_here);
                        ms_ends = ms_ends.push(j as int);
                        ms_parts = ms_parts.push(ms_ys);
                        ms_spans = span_step(ms_spans, ms_here, j as int);
                        ms_stepped = true;
                    }
                    k = j;
                } else if name_is(&t.name, "Output") {
                    let ghost out_before = output@;
                    let (mut fields, j) = parse_output(ev, k, false)?;
                    let ghost out_ys = fields@;
                    proof {
                        output_at = lemma_read_extend(ev@, i as int, output_at, output@, "OutputField"@, output_field_tag(), k as int, j as int, fields@);
                    }
                    output.append(&mut fields);
                    proof {
                        assert(output@ =~= out_before + out_ys);
                        lemma_sections_push(ev@, i as int, out_here, j as int, out_secs, out_ends, out_parts, out_ys, "Output"@, "OutputField"@, output_field_tag());
                        lemma_covers_level_step(ev@, i as int, out_here, j as int, out_secs0, out_secs0.push(out_here), out_spans, "Output"@);
                        out_secs = out_secs.push(out_here);
                        out_ends = out_ends.push(j as int);
                        out_parts = out_parts.push(out_ys);
                        out_spans = span_step(out_spans, out_here, j as int);
                        out_stepped = true;
                    }
                    k = j;
                } else if name_is(&t.name, "ComparisonMeasure") {
                    let kind = attr_or(t, "kind", "distance");
                    comparison_measure = Some(RawComparisonMeasure { kind, compare_function: None });
                    proof {
                        lemma_read_one(ev@, i as int, k as int, here, comparison_measure->0, "ComparisonMeasure"@, comparison_measure_tag());
                        measure_hi = k as int;
                    }
                    k = skip_to_end_tag(ev, k, "ComparisonMeasure", false)?;
                } else if name_is(&t.name, "ClusteringField") {
                    let field = attr_required(t, "field", "ClusteringField")?;
                    let item = field;
                    proof {
                        lemma_read_push(ev@, i as int, clustering_fields_at, clustering_fields@, "ClusteringField"@, clustering_field_tag(), here, item);
                        clustering_fields_at = clustering_fields_at.push(here);
                    }
                    clustering_fields.push(item);
                    k = skip_one(ev, k);
                } else if name_is(&t.name, "Cluster") {
                    let (c, j) = parse_cluster(ev, k, t)?;
                    let item = c;
                    proof {
                        lemma_read_push(ev@, i as int, clusters_at, clusters@, "Cluster"@, cluster_tag(), here, item);
                        clusters_at = clusters_at.push(here);
                    }
                    clusters.push(item);
                    k = j;
                } else if name_is(&t.name, "LocalTransformations") {
                    let ghost ldf_before = local_derived_fields@;
                    let (mut fields, j) = parse_local_transformations(ev, k)?;
                    let ghost ldf_ys = fields@;
                    proof {
                        local_derived_fields_at = lemma_read_extend(ev@, i as int, local_derived_fields_at, local_derived_fields@, "DerivedField"@, derived_field_tag(), k as int, j as int, fields@);
                    }
                    local_derived_fields.append(&mut fields);
                    proof {
                        assert(local_derived_fields@ =~= ldf_before + ldf_ys);
                        lemma_sections_push(ev@, i as int, ldf_here, j as int, ldf_secs, ldf_ends, ldf_parts, ldf_ys, "LocalTransformations"@, "DerivedField"@, derived_field_tag());
                        lemma_covers_level_step(ev@, i as int, ldf_here, j as int, ldf_secs0, ldf_secs0.push(ldf_here), ldf_spans, "LocalTransformations"@);
                        ldf_secs = ldf_secs.push(ldf_here);
                        ldf_ends = ldf_ends.push(j as int);
                        ldf_parts = ldf_parts.push(ldf_ys);
                        ldf_spans = span_step(ldf_spans, ldf_here, j as int);
                        ldf_stepped = true;
                    }
                    k = j;
                }
            },
            XmlEvent::End(n) => {
                k = k + 1;
                proof {
                    lemma_covers_level_step(ev@, i as int, ldf_here, k as int, ldf_secs0, ldf_secs0, ldf_spans, "LocalTransformations"@);
                    lemma_sections_widen(ev@, i as int, ldf_here, k as int, ldf_secs, ldf_ends, ldf_parts, "LocalTransformations"@, "DerivedField"@, derived_field_tag());
                    ldf_spans = span_step(ldf_spans, ldf_here, k as int);
                    ldf_stepped = true;
                }
                proof {
                    lemma_covers_level_step(ev@, i as int, out_here, k as int, out_secs0, out_secs0, out_spans, "Output"@);
                    lemma_sections_widen(ev@, i as int, out_here, k as int, out_secs, out_ends, out_parts, "Output"@, "OutputField"@, output_field_tag());
                    out_spans = span_step(out_spans, out_here, k as int);
                    out_stepped = true;
                }
                proof {
                    lemma_covers_level_step(ev@, i as int, ms_here, k as int, ms_secs0, ms_secs0, ms_spans, "MiningSchema"@);
                    lemma_sections_widen(ev@, i as int, ms_here, k as int, ms_secs, ms_ends, ms_parts, "MiningSchema"@, "MiningField"@, mining_field_tag());
                    ms_spans = span_step(ms_spans, ms_here, k as int);
                    ms_stepped = true;
                }
                proof {
                    lemma_covers_level_step(ev@, i as int, here, k as int, clusters_at0, clusters_at, spans, "Cluster"@);
                    lemma_covers_level_step(ev@, i as int, here, k as int, clustering_fields_at0, clustering_fields_at, spans, "ClusteringField"@);
                    spans = span_step(spans, here, k as int);
                    stepped = true;
                }
                if name_is(n, "ClusteringModel") {
                    break;
                }
            },
            _ => {
                k = k + 1;
            },
        }
        proof {
            if !ldf_stepped {
                lemma_covers_level_step(ev@, i as int, ldf_here, k as int, ldf_secs0, ldf_secs0, ldf_spans, "LocalTransformations"@);
                lemma_sections_widen(ev@, i as int, ldf_here, k as int, ldf_secs, ldf_ends, ldf_parts, "LocalTransformations"@, "DerivedField"@, derived_field_tag());
                ldf_spans = span_step(ldf_spans, ldf_here, k as int);
                ldf_stepped = true;
            }
        }
        proof {
            if !out_stepped {
                lemma_covers_level_step(ev@, i as int, out_here, k as int, out_secs0, out_secs0, out_spans, "Output"@);
                lemma_sections_widen(ev@, i as int, out_here, k as int, out_secs, out_ends, out_parts, "Output"@, "OutputField"@, output_field_tag());
                out_spans = span_step(out_spans, out_here, k as int);
                out_stepped = true;
            }
        }
        proof {
            if !ms_stepped {
                lemma_covers_level_step(ev@, i as int, ms_here, k as int, ms_secs0, ms_secs0, ms_spans, "MiningSchema"@);
                lemma_sections_widen(ev@, i as int, ms_here, k as int, ms_secs, ms_ends, ms_parts, "MiningSchema"@, "MiningField"@, mining_field_tag());
                ms_spans = span_step(ms_spans, ms_here, k as int);
                ms_stepped = true;
            }
        }
        proof {
            if !stepped {
                lemma_covers_level_step(ev@, i as int, here, k as int, clusters_at0, clusters_at, spans, "Cluster"@);
                lemma_covers_level_step(ev@, i as int, here, k as int, clustering_fields_at0, clustering_fields_at, spans, "ClusteringField"@);
                spans = span_step(spans, here, k as int);
            }
        }
    }
    proof {
        lemma_read_each_reached(ev@, i as int, k as int, clusters_at, spans, clusters@, "Cluster"@, cluster_tag());
        lemma_read_each_reached(ev@, i as int, k as int, clustering_fields_at, spans, clustering_fields@, "ClusteringField"@, clustering_field_tag());
    }
    proof {
        if comparison_measure is Some {
            lemma_read_widen(ev@, i as int, measure_hi, i as int, k as int, seq![comparison_measure->0], "ComparisonMeasure"@, comparison_measure_tag());
        }
        lemma_read_in_order(ev@, i as int, k as int, schema_at, mining_schema@, "MiningField"@, mining_field_tag());
    }
    proof {
        lemma_read_in_order(ev@, i as int, k as int, clusters_at, clusters@, "Cluster"@, cluster_tag());
    }
    proof {
        lemma_read_in_order(ev@, i as int, k as int, clustering_fields_at, clustering_fields@, "ClusteringField"@, clustering_field_tag());
    }
    proof {
        lemma_read_in_order(ev@, i as int, k as int, output_at, output@, "OutputField"@, output_field_tag());
    }
    proof {
        lemma_read_in_order(ev@, i as int, k as int, local_derived_fields_at, local_derived_fields@, "DerivedField"@, derived_field_tag());
    }
    Ok((RawClusteringModel {
        model_name,
        function_name,
        model_class,
        number_of_clusters,
        mining_schema,
        output,
        targets: Vec::new(),
        comparison_measure,
        clustering_fields,
        clusters,
        local_derived_fields,
    }, k))
}

} // verus!
