//! `NaiveBayesModel`: Bayes inputs with their statistics and pair counts,
//! and the Bayes output counts.

use vstd::prelude::*;
use crate::unmarshal::cursor::{start_named_at};
use crate::unmarshal::nesting::{closing, closes_at, lemma_nested_step, lemma_closing, model_readable, attrs_complete};
use crate::error::PmmlError;
use crate::xml::{XmlEvent, XmlTag, attr, attr_required, tag_attr, opt_view, is_missing_attr, name_is};
use crate::unmarshal::raw::{
    RawNaiveBayesModel, RawBayesInput, RawTargetValueStat, RawPairCounts, RawTargetValueCount,
    RawMiningField, RawDerivedField,
};
use crate::unmarshal::common::{attr_or_empty, or_empty, parse_mining_schema, mining_field_tag};
use crate::unmarshal::expr::{parse_local_transformations, derived_field_tag};
use crate::unmarshal::cursor::{
    element_named, tags_carry,
    spans_ok, covers_level, read_each_reached, lemma_covers_level_step, span_step, lemma_read_each_reached, lemma_covers_level_section, sections_read, read_each_section, lemma_sections_push, lemma_sections_widen,
    end_at, skip_one, unexpected_end, stops_after_tag, is_end_named, stops_at_end_or_tag, at_end, read_at_positions, read_in_order, lemma_read_extend, lemma_read_in_order, lemma_read_push, lemma_read_extend_mut, lemma_read_one, lemma_read_widen, read_all_in_order, covers_entries, lemma_covers_step, lemma_covers_skip, childless, plain_until, plain_event,
};

verus! {

/// How a mean and a variance are read from a `GaussianDistribution` tag.
pub open spec fn gaussian_tag() -> spec_fn(XmlTag, (Option<String>, Option<String>)) -> bool {
    |t: XmlTag, g: (Option<String>, Option<String>)|
        opt_view(g.0) == tag_attr(t, "mean"@) && opt_view(g.1) == tag_attr(t, "variance"@)
}

/// Whether the mean and variance of `s` are absent, or were read from a
/// `GaussianDistribution` tag within `[i, j)`.
pub open spec fn gaussian_read(ev: Seq<XmlEvent>, i: int, j: int, s: RawTargetValueStat) -> bool {
    (s.gaussian_mean is None && s.gaussian_variance is None) || read_in_order(
        ev,
        i,
        j,
        seq![(s.gaussian_mean, s.gaussian_variance)],
        "GaussianDistribution"@,
        gaussian_tag(),
    )
}

/// How a target value statistic is read from its tag: its `value`.
pub open spec fn target_value_stat_tag() -> spec_fn(XmlTag, RawTargetValueStat) -> bool {
    |t: XmlTag, s: RawTargetValueStat| tag_attr(t, "value"@) == Some(s.value@)
}

/// A `TargetValueStat` whose start tag was just read: `value` is required;
/// mean and variance of its last `GaussianDistribution` child.
fn parse_target_value_stat(ev: &Vec<XmlEvent>, i: usize, start: &XmlTag) -> (r: Result<
    (RawTargetValueStat, usize),
    PmmlError,
>)
    requires
        i <= ev@.len(),
    ensures
        r matches Ok((s, j)) ==> stops_after_tag(ev@, i as int, j as int, "TargetValueStat"@)
            && tag_attr(*start, "value"@) == Some(s.value@) && gaussian_read(ev@, i as int, j as int, s),
        childless(ev@, i as int, "TargetValueStat"@) && tag_attr(*start, "value"@) is Some ==> r is Ok,
        element_named(ev@, i as int, "TargetValueStat"@) && attrs_complete(ev@, i as int) && tag_attr(*start, "value"@) is Some ==> (r matches Ok((_, j)) && j <= closing(ev@, i - 1) + 1),
{
    let value = attr_required(start, "value", "TargetValueStat")?;
    let mut gaussian_mean: Option<String> = None;
    let mut gaussian_variance: Option<String> = None;
    let ghost mut gaussian_hi: int = i as int;
    let ghost q: int = if childless(ev@, i as int, "TargetValueStat"@) {
        choose|q: int| plain_until(ev@, i as int, q, "TargetValueStat"@)
    } else {
        0
    };
    let mut k = i;
    proof {
        if element_named(ev@, i as int, "TargetValueStat"@) {
            lemma_closing(ev@, i - 1);
        }
    }
    loop
        invariant_except_break
            element_named(ev@, i as int, "TargetValueStat"@) && attrs_complete(ev@, i as int) && tag_attr(*start, "value"@) is Some ==> k <= closing(ev@, i - 1) && closes_at(ev@, i - 1, closing(ev@, i - 1)),
            i <= k <= ev@.len(),
            gaussian_hi <= k,
            (gaussian_mean is None && gaussian_variance is None) || read_in_order(
                ev@,
                i as int,
                gaussian_hi,
                seq![(gaussian_mean, gaussian_variance)],
                "GaussianDistribution"@,
                gaussian_tag(),
            ),
            childless(ev@, i as int, "TargetValueStat"@) ==> plain_until(ev@, i as int, q, "TargetValueStat"@) && k <= q,
        ensures
            element_named(ev@, i as int, "TargetValueStat"@) && attrs_complete(ev@, i as int) && tag_attr(*start, "value"@) is Some ==> k <= closing(ev@, i - 1) + 1,
            i < k && is_end_named(ev@[k - 1], "TargetValueStat"@),
            gaussian_hi <= k,
            (gaussian_mean is None && gaussian_variance is None) || read_in_order(
                ev@,
                i as int,
                gaussian_hi,
                seq![(gaussian_mean, gaussian_variance)],
                "GaussianDistribution"@,
                gaussian_tag(),
            ),
            i <= k <= ev@.len(),
        decreases ev@.len() - k,
    {
        proof {
            if childless(ev@, i as int, "TargetValueStat"@) && k < q {
                assert(plain_event(ev@[k as int], "TargetValueStat"@));
            }
        }
        proof {
            if element_named(ev@, i as int, "TargetValueStat"@) && attrs_complete(ev@, i as int) && tag_attr(*start, "value"@) is Some {
                lemma_nested_step(ev@, i as int, k as int);
            }
        }
        if end_at(ev, k) {
            return Err(unexpected_end());
        }
        let ghost here = k as int;
        match &ev[k] {
            XmlEvent::Start(t) => {
                k = k + 1;
                if name_is(&t.name, "GaussianDistribution") {
                    gaussian_mean = attr(t, "mean");
                    gaussian_variance = attr(t, "variance");
                    proof {
                        lemma_read_one(ev@, i as int, k as int, here, (gaussian_mean, gaussian_variance), "GaussianDistribution"@, gaussian_tag());
                        gaussian_hi = k as int;
                    }
                    k = skip_one(ev, k);
                }
            },
            XmlEvent::End(n) => {
                k = k + 1;
                if name_is(n, "TargetValueStat") {
                    break;
                }
            },
            _ => {
                k = k + 1;
            },
        }
    }
    proof {
        if !(gaussian_mean is None && gaussian_variance is None) {
            lemma_read_widen(ev@, i as int, gaussian_hi, i as int, k as int, seq![(gaussian_mean, gaussian_variance)], "GaussianDistribution"@, gaussian_tag());
        }
    }
    Ok((RawTargetValueStat { value, gaussian_mean, gaussian_variance }, k))
}

/// The `TargetValueStat` elements of a `TargetValueStats` whose start tag
/// was just read, in document order.
fn parse_target_value_stats(ev: &Vec<XmlEvent>, i: usize) -> (r: Result<(Vec<RawTargetValueStat>, usize), PmmlError>)
    requires
        i <= ev@.len(),
    ensures
        r matches Ok((stats, j)) ==> read_each_reached(ev@, i as int, j as int, stats@, "TargetValueStat"@, target_value_stat_tag())
                && read_in_order(ev@, i as int, j as int, stats@, "TargetValueStat"@, target_value_stat_tag()) && stops_after_tag(ev@, i as int, j as int, "TargetValueStats"@),
        childless(ev@, i as int, "TargetValueStats"@) ==> r is Ok,
        element_named(ev@, i as int, "TargetValueStats"@) && attrs_complete(ev@, i as int) ==> (r matches Ok((_, j)) && j <= closing(ev@, i - 1) + 1),
{
    let mut stats: Vec<RawTargetValueStat> = Vec::new();
    let ghost mut stats_at: Seq<int> = Seq::empty();
    let ghost q: int = if childless(ev@, i as int, "TargetValueStats"@) {
        choose|q: int| plain_until(ev@, i as int, q, "TargetValueStats"@)
    } else {
        0
    };
    let ghost mut spans: Seq<(int, int)> = Seq::empty();
    let mut k = i;
    proof {
        if element_named(ev@, i as int, "TargetValueStats"@) {
            lemma_closing(ev@, i - 1);
        }
    }
    loop
        invariant_except_break
            element_named(ev@, i as int, "TargetValueStats"@) && attrs_complete(ev@, i as int) ==> k <= closing(ev@, i - 1) && closes_at(ev@, i - 1, closing(ev@, i - 1)),
            i <= k <= ev@.len(),
            spans_ok(ev@, spans, i as int, k as int),
            covers_level(ev@, i as int, k as int, stats_at, spans, "TargetValueStat"@),
            read_at_positions(ev@, i as int, stats_at, stats@, "TargetValueStat"@, target_value_stat_tag()),
            stats_at.len() > 0 ==> stats_at.last() < k,
            childless(ev@, i as int, "TargetValueStats"@) ==> plain_until(ev@, i as int, q, "TargetValueStats"@) && k <= q,
        ensures
            element_named(ev@, i as int, "TargetValueStats"@) && attrs_complete(ev@, i as int) ==> k <= closing(ev@, i - 1) + 1,
            i < k && is_end_named(ev@[k - 1], "TargetValueStats"@),
            spans_ok(ev@, spans, i as int, k as int),
            covers_level(ev@, i as int, k as int, stats_at, spans, "TargetValueStat"@),
            read_at_positions(ev@, i as int, stats_at, stats@, "TargetValueStat"@, target_value_stat_tag()),
            stats_at.len() > 0 ==> stats_at.last() < k,
            i <= k <= ev@.len(),
        decreases ev@.len() - k,
    {
        proof {
            if childless(ev@, i as int, "TargetValueStats"@) && k < q {
                assert(plain_event(ev@[k as int], "TargetValueStats"@));
            }
        }
        proof {
            if element_named(ev@, i as int, "TargetValueStats"@) && attrs_complete(ev@, i as int) {
                lemma_nested_step(ev@, i as int, k as int);
            }
        }
        if end_at(ev, k) {
            return Err(unexpected_end());
        }
        let ghost here = k as int;
        let ghost stats_at0 = stats_at;
        let ghost mut stepped = false;
        proof {
            reveal_strlit("TargetValueStat");
        }
        match &ev[k] {
            XmlEvent::Start(t) => {
                k = k + 1;
                if name_is(&t.name, "TargetValueStat") {
                    let (s, j) = parse_target_value_stat(ev, k, t)?;
                    let item = s;
                    proof {
                        lemma_read_push(ev@, i as int, stats_at, stats@, "TargetValueStat"@, target_value_stat_tag(), here, item);
                        stats_at = stats_at.push(here);
                    }
                    stats.push(item);
                    k = j;
                }
            },
            XmlEvent::End(n) => {
                k = k + 1;
                proof {
                    lemma_covers_level_step(ev@, i as int, here, k as int, stats_at0, stats_at, spans, "TargetValueStat"@);
                    spans = span_step(spans, here, k as int);
                    stepped = true;
                }
                if name_is(n, "TargetValueStats") {
                    break;
                }
            },
            _ => {
                k = k + 1;
            },
        }
        proof {
            if !stepped {
                lemma_covers_level_step(ev@, i as int, here, k as int, stats_at0, stats_at, spans, "TargetValueStat"@);
                spans = span_step(spans, here, k as int);
            }
        }
    }
    proof {
        lemma_read_each_reached(ev@, i as int, k as int, stats_at, spans, stats@, "TargetValueStat"@, target_value_stat_tag());
    }
    proof {
        lemma_read_in_order(ev@, i as int, k as int, stats_at, stats@, "TargetValueStat"@, target_value_stat_tag());
    }
    Ok((stats, k))
}

/// How a target value count is read from its tag: its `value` and `count`.
pub open spec fn target_value_count_tag() -> spec_fn(XmlTag, RawTargetValueCount) -> bool {
    |t: XmlTag, c: RawTargetValueCount| tag_attr(t, "value"@) == Some(c.value@) && opt_view(c.count) == tag_attr(t, "count"@)
}

/// How a Bayes input is read from its tag: its `fieldName`.
pub open spec fn bayes_input_tag() -> spec_fn(XmlTag, RawBayesInput) -> bool {
    |t: XmlTag, b: RawBayesInput| tag_attr(t, "fieldName"@) == Some(b.field_name@)
}

/// A `TargetValueCount` from its tag: `value` is required.
fn target_value_count(t: &XmlTag) -> (r: Result<RawTargetValueCount, PmmlError>)
    ensures
        r matches Ok(c) ==> tag_attr(*t, "value"@) == Some(c.value@) && opt_view(c.count)
            == tag_attr(*t, "count"@),
        r is Ok <==> tag_attr(*t, "value"@) is Some,
        r matches Err(e) ==> is_missing_attr(e, "TargetValueCount"@, "value"@),
{
    let value = attr_required(t, "value", "TargetValueCount")?;
    let count = attr(t, "count");
    Ok(RawTargetValueCount { value, count })
}

/// The `TargetValueCount` elements of a `TargetValueCounts` whose start tag
/// was just read, appended in order.
fn parse_target_value_counts(ev: &Vec<XmlEvent>, i: usize, counts: &mut Vec<RawTargetValueCount>) -> (r:
    Result<usize, PmmlError>)
    requires
        i <= ev@.len(),
    ensures
        r matches Ok(j) ==> final(counts)@.len() >= old(counts)@.len()
            && final(counts)@.subrange(0, old(counts)@.len() as int) == old(counts)@
            && read_in_order(ev@, i as int, j as int, final(counts)@.skip(old(counts)@.len() as int), "TargetValueCount"@, target_value_count_tag())
            && read_each_reached(ev@, i as int, j as int, final(counts)@.skip(old(counts)@.len() as int), "TargetValueCount"@, target_value_count_tag())
            && stops_after_tag(ev@, i as int, j as int, "TargetValueCounts"@),
        childless(ev@, i as int, "TargetValueCounts"@) ==> r is Ok,
        element_named(ev@, i as int, "TargetValueCounts"@) && attrs_complete(ev@, i as int) ==> (r matches Ok(j) && j <= closing(ev@, i - 1) + 1),
{
    let ghost mut counts_at: Seq<int> = Seq::empty();
    let ghost q: int = if childless(ev@, i as int, "TargetValueCounts"@) {
        choose|q: int| plain_until(ev@, i as int, q, "TargetValueCounts"@)
    } else {
        0
    };
    let ghost mut spans: Seq<(int, int)> = Seq::empty();
    let mut k = i;
    proof {
        if element_named(ev@, i as int, "TargetValueCounts"@) {
            lemma_closing(ev@, i - 1);
        }
    }
    loop
        invariant_except_break
            element_named(ev@, i as int, "TargetValueCounts"@) && attrs_complete(ev@, i as int) ==> k <= closing(ev@, i - 1) && closes_at(ev@, i - 1, closing(ev@, i - 1)),
            i <= k <= ev@.len(),
            counts@.len() >= old(counts)@.len(),
            counts@.subrange(0, old(counts)@.len() as int) == old(counts)@,
            read_at_positions(ev@, i as int, counts_at, counts@.skip(old(counts)@.len() as int), "TargetValueCount"@, target_value_count_tag()),
            counts_at.len() > 0 ==> counts_at.last() < k,
            spans_ok(ev@, spans, i as int, k as int),
            covers_level(ev@, i as int, k as int, counts_at, spans, "TargetValueCount"@),
            childless(ev@, i as int, "TargetValueCounts"@) ==> plain_until(ev@, i as int, q, "TargetValueCounts"@) && k <= q,
        ensures
            element_named(ev@, i as int, "TargetValueCounts"@) && attrs_complete(ev@, i as int) ==> k <= closing(ev@, i - 1) + 1,
            i < k && is_end_named(ev@[k - 1], "TargetValueCounts"@),
            counts@.len() >= old(counts)@.len(),
            counts@.subrange(0, old(counts)@.len() as int) == old(counts)@,
            read_at_positions(ev@, i as int, counts_at, counts@.skip(old(counts)@.len() as int), "TargetValueCount"@, target_value_count_tag()),
            counts_at.len() > 0 ==> counts_at.last() < k,
            spans_ok(ev@, spans, i as int, k as int),
            covers_level(ev@, i as int, k as int, counts_at, spans, "TargetValueCount"@),
            i <= k <= ev@.len(),
        decreases ev@.len() - k,
    {
        proof {
            if childless(ev@, i as int, "TargetValueCounts"@) && k < q {
                assert(plain_event(ev@[k as int], "TargetValueCounts"@));
            }
        }
        proof {
            if element_named(ev@, i as int, "TargetValueCounts"@) && attrs_complete(ev@, i as int) {
                lemma_nested_step(ev@, i as int, k as int);
            }
        }
        if end_at(ev, k) {
            return Err(unexpected_end());
        }
        let ghost here = k as int;
        let ghost counts_at0 = counts_at;
        let ghost mut stepped = false;
        proof {
            reveal_strlit("TargetValueCount");
        }
        match &ev[k] {
            XmlEvent::Start(t) => {
                k = k + 1;
                if name_is(&t.name, "TargetValueCount") {
                    let item = target_value_count(t)?;
                    proof {
                        lemma_read_push(ev@, i as int, counts_at, counts@.skip(old(counts)@.len() as int), "TargetValueCount"@, target_value_count_tag(), here, item);
                        counts_at = counts_at.push(here);
                    }
                    let ghost before = counts@;
                    counts.push(item);
                    proof {
                        assert(counts@.skip(old(counts)@.len() as int) =~= before.skip(old(counts)@.len() as int).push(item));
                        assert(counts@.subrange(0, old(counts)@.len() as int) =~= before.subrange(0, old(counts)@.len() as int));
                    }
                    k = skip_one(ev, k);
                    proof {
                        lemma_covers_level_step(ev@, i as int, here, k as int, counts_at0, counts_at, spans, "TargetValueCount"@);
                        spans = span_step(spans, here, k as int);
                        stepped = true;
                    }
                }
            },
            XmlEvent::End(n) => {
                k = k + 1;
                proof {
                    lemma_covers_level_step(ev@, i as int, here, k as int, counts_at0, counts_at, spans, "TargetValueCount"@);
                    spans = span_step(spans, here, k as int);
                    stepped = true;
                }
                if name_is(n, "TargetValueCounts") {
                    break;
                }
            },
            _ => {
                k = k + 1;
            },
        }
        proof {
            if !stepped {
                lemma_covers_level_step(ev@, i as int, here, k as int, counts_at0, counts_at, spans, "TargetValueCount"@);
                spans = span_step(spans, here, k as int);
            }
        }
    }
    proof {
        lemma_read_each_reached(ev@, i as int, k as int, counts_at, spans, counts@.skip(old(counts)@.len() as int), "TargetValueCount"@, target_value_count_tag());
    }
    proof {
        lemma_read_in_order(ev@, i as int, k as int, counts_at, counts@.skip(old(counts)@.len() as int), "TargetValueCount"@, target_value_count_tag());
    }
    Ok(k)
}

/// The target value counts inside a `PairCounts` or `BayesOutput` whose
/// start tag was just read, up to the end tag named `end_name`.
fn parse_counts_holder(ev: &Vec<XmlEvent>, i: usize, end_name: &str, counts: &mut Vec<
    RawTargetValueCount,
>) -> (r: Result<usize, PmmlError>)
    requires
        i <= ev@.len(),
    ensures
        r matches Ok(j) ==> final(counts)@.len() >= old(counts)@.len()
            && final(counts)@.subrange(0, old(counts)@.len() as int) == old(counts)@
            && read_in_order(ev@, i as int, j as int, final(counts)@.skip(old(counts)@.len() as int), "TargetValueCount"@, target_value_count_tag())
            && read_each_section(ev@, i as int, j as int, final(counts)@.skip(old(counts)@.len() as int), "TargetValueCounts"@, "TargetValueCount"@, target_value_count_tag())
            && stops_after_tag(ev@, i as int, j as int, end_name@),
        childless(ev@, i as int, end_name@) ==> r is Ok,
        element_named(ev@, i as int, end_name@) && attrs_complete(ev@, i as int) ==> (r matches Ok(j) && j <= closing(ev@, i - 1) + 1),
{
    let ghost mut counts_at: Seq<int> = Seq::empty();
    let ghost q: int = if childless(ev@, i as int, end_name@) {
        choose|q: int| plain_until(ev@, i as int, q, end_name@)
    } else {
        0
    };
    let ghost mut secs: Seq<int> = Seq::empty();
    let ghost mut ends: Seq<int> = Seq::empty();
    let ghost mut parts: Seq<Seq<RawTargetValueCount>> = Seq::empty();
    let ghost mut spans: Seq<(int, int)> = Seq::empty();
    proof {
        assert(parts.flatten() =~= Seq::<RawTargetValueCount>::empty());
        assert(counts@.skip(counts@.len() as int) =~= Seq::<RawTargetValueCount>::empty());
    }
    let mut k = i;
    proof {
        if element_named(ev@, i as int, end_name@) {
            lemma_closing(ev@, i - 1);
        }
    }
    loop
        invariant_except_break
            element_named(ev@, i as int, end_name@) && attrs_complete(ev@, i as int) ==> k <= closing(ev@, i - 1) && closes_at(ev@, i - 1, closing(ev@, i - 1)),
            i <= k <= ev@.len(),
            counts@.len() >= old(counts)@.len(),
            counts@.subrange(0, old(counts)@.len() as int) == old(counts)@,
            read_at_positions(ev@, i as int, counts_at, counts@.skip(old(counts)@.len() as int), "TargetValueCount"@, target_value_count_tag()),
            counts_at.len() > 0 ==> counts_at.last() < k,
            sections_read(ev@, i as int, k as int, secs, ends, parts, "TargetValueCounts"@, "TargetValueCount"@, target_value_count_tag()),
            covers_level(ev@, i as int, k as int, secs, spans, "TargetValueCounts"@),
            spans_ok(ev@, spans, i as int, k as int),
            counts@.skip(old(counts)@.len() as int) == parts.flatten(),
            childless(ev@, i as int, end_name@) ==> plain_until(ev@, i as int, q, end_name@) && k <= q,
        ensures
            element_named(ev@, i as int, end_name@) && attrs_complete(ev@, i as int) ==> k <= closing(ev@, i - 1) + 1,
            i < k && is_end_named(ev@[k - 1], end_name@),
            counts@.len() >= old(counts)@.len(),
            counts@.subrange(0, old(counts)@.len() as int) == old(counts)@,
            read_at_positions(ev@, i as int, counts_at, counts@.skip(old(counts)@.len() as int), "TargetValueCount"@, target_value_count_tag()),
            counts_at.len() > 0 ==> counts_at.last() < k,
            sections_read(ev@, i as int, k as int, secs, ends, parts, "TargetValueCounts"@, "TargetValueCount"@, target_value_count_tag()),
            covers_level(ev@, i as int, k as int, secs, spans, "TargetValueCounts"@),
            spans_ok(ev@, spans, i as int, k as int),
            counts@.skip(old(counts)@.len() as int) == parts.flatten(),
            i <= k <= ev@.len(),
        decreases ev@.len() - k,
    {
        proof {
            if childless(ev@, i as int, end_name@) && k < q {
                assert(plain_event(ev@[k as int], end_name@));
            }
        }
        proof {
            if element_named(ev@, i as int, end_name@) && attrs_complete(ev@, i as int) {
                lemma_nested_step(ev@, i as int, k as int);
            }
        }
        if end_at(ev, k) {
            return Err(unexpected_end());
        }
        let ghost here = k as int;
        let ghost secs0 = secs;
        let ghost mut stepped = false;
        proof {
            reveal_strlit("TargetValueCounts");
        }
        match &ev[k] {
            XmlEvent::Start(t) => {
                k = k + 1;
                if name_is(&t.name, "TargetValueCounts") {
                    let ghost before = counts@;
                    let j = parse_target_value_counts(ev, k, counts)?;
                    proof {
                        counts_at = lemma_read_extend_mut(ev@, i as int, counts_at, before, counts@, old(counts)@.len() as int, "TargetValueCount"@, target_value_count_tag(), k as int, j as int);
                        assert(counts@.subrange(0, old(counts)@.len() as int) =~= before.subrange(0, old(counts)@.len() as int));
                        let ys = counts@.skip(before.len() as int);
                        assert(counts@.skip(old(counts)@.len() as int) =~= before.skip(old(counts)@.len() as int) + ys);
                        lemma_sections_push(ev@, i as int, here, j as int, secs, ends, parts, ys, "TargetValueCounts"@, "TargetValueCount"@, target_value_count_tag());
                        lemma_covers_level_step(ev@, i as int, here, j as int, secs0, secs0.push(here), spans, "TargetValueCounts"@);
                        secs = secs.push(here);
                        ends = ends.push(j as int);
                        parts = parts.push(ys);
                        spans = span_step(spans, here, j as int);
                        stepped = true;
                    }
                    k = j;
                }
            },
            XmlEvent::End(n) => {
                k = k + 1;
                proof {
                    lemma_covers_level_step(ev@, i as int, here, k as int, secs0, secs0, spans, "TargetValueCounts"@);
                    lemma_sections_widen(ev@, i as int, here, k as int, secs, ends, parts, "TargetValueCounts"@, "TargetValueCount"@, target_value_count_tag());
                    spans = span_step(spans, here, k as int);
                    stepped = true;
                }
                if name_is(n, end_name) {
                    break;
                }
            },
            _ => {
                k = k + 1;
            },
        }
        proof {
            if !stepped {
                lemma_covers_level_step(ev@, i as int, here, k as int, secs0, secs0, spans, "TargetValueCounts"@);
                lemma_sections_widen(ev@, i as int, here, k as int, secs, ends, parts, "TargetValueCounts"@, "TargetValueCount"@, target_value_count_tag());
                spans = span_step(spans, here, k as int);
            }
        }
    }
    proof {
        lemma_read_in_order(ev@, i as int, k as int, counts_at, counts@.skip(old(counts)@.len() as int), "TargetValueCount"@, target_value_count_tag());
    }
    Ok(k)
}

/// How pair counts are read from their `PairCounts` tag: the `value`,
/// empty when absent.
pub open spec fn pair_counts_tag() -> spec_fn(XmlTag, RawPairCounts) -> bool {
    |t: XmlTag, p: RawPairCounts| p.value@ == or_empty(tag_attr(t, "value"@))
}

/// A `BayesInput` whose start tag was just read: `fieldName` is required;
/// its target value statistics and, when `with_pair_counts` holds, its pair
/// counts, up to its end tag.
#[verifier::spinoff_prover]
#[verifier::rlimit(40)]
fn parse_bayes_input(ev: &Vec<XmlEvent>, i: usize, start: &XmlTag, with_pair_counts: bool) -> (r: Result<
    (RawBayesInput, usize),
    PmmlError,
>)
    requires
        i <= ev@.len(),
    ensures
        r matches Ok((b, j)) ==> (with_pair_counts ==> read_each_reached(ev@, i as int, j as int, b.pair_counts@, "PairCounts"@, pair_counts_tag()))
                && read_in_order(ev@, i as int, j as int, b.pair_counts@, "PairCounts"@, pair_counts_tag()) && read_in_order(ev@, i as int, j as int, b.target_value_stats@, "TargetValueStat"@, target_value_stat_tag()) && stops_after_tag(ev@, i as int, j as int, "BayesInput"@)
            && tag_attr(
            *start,
            "fieldName"@,
        ) == Some(b.field_name@) && (!with_pair_counts ==> b.pair_counts@.len() == 0),
        childless(ev@, i as int, "BayesInput"@) && tag_attr(*start, "fieldName"@) is Some ==> r is Ok,
        element_named(ev@, i as int, "BayesInput"@) && attrs_complete(ev@, i as int) && tag_attr(*start, "fieldName"@) is Some ==> (r matches Ok((_, j)) && j <= closing(ev@, i - 1) + 1),
{
    let field_name = attr_required(start, "fieldName", "BayesInput")?;
    let mut target_value_stats: Vec<RawTargetValueStat> = Vec::new();
    let ghost mut target_value_stats_at: Seq<int> = Seq::empty();
    let mut pair_counts: Vec<RawPairCounts> = Vec::new();
    let ghost mut pair_counts_at: Seq<int> = Seq::empty();
    let ghost q: int = if childless(ev@, i as int, "BayesInput"@) {
        choose|q: int| plain_until(ev@, i as int, q, "BayesInput"@)
    } else {
        0
    };
    let ghost mut spans: Seq<(int, int)> = Seq::empty();
    let mut k = i;
    proof {
        if element_named(ev@, i as int, "BayesInput"@) {
            lemma_closing(ev@, i - 1);
        }
    }
    loop
        invariant_except_break
            element_named(ev@, i as int, "BayesInput"@) && attrs_complete(ev@, i as int) && tag_attr(*start, "fieldName"@) is Some ==> k <= closing(ev@, i - 1) && closes_at(ev@, i - 1, closing(ev@, i - 1)),
            i <= k <= ev@.len(),
            spans_ok(ev@, spans, i as int, k as int),
            with_pair_counts ==> covers_level(ev@, i as int, k as int, pair_counts_at, spans, "PairCounts"@),
            !with_pair_counts ==> pair_counts@.len() == 0,
            read_at_positions(ev@, i as int, target_value_stats_at, target_value_stats@, "TargetValueStat"@, target_value_stat_tag()),
            target_value_stats_at.len() > 0 ==> target_value_stats_at.last() < k,
            read_at_positions(ev@, i as int, pair_counts_at, pair_counts@, "PairCounts"@, pair_counts_tag()),
            pair_counts_at.len() > 0 ==> pair_counts_at.last() < k,
            childless(ev@, i as int, "BayesInput"@) ==> plain_until(ev@, i as int, q, "BayesInput"@) && k <= q,
        ensures
            element_named(ev@, i as int, "BayesInput"@) && attrs_complete(ev@, i as int) && tag_attr(*start, "fieldName"@) is Some ==> k <= closing(ev@, i - 1) + 1,
            i < k && is_end_named(ev@[k - 1], "BayesInput"@),
            spans_ok(ev@, spans, i as int, k as int),
            with_pair_counts ==> covers_level(ev@, i as int, k as int, pair_counts_at, spans, "PairCounts"@),
            read_at_positions(ev@, i as int, target_value_stats_at, target_value_stats@, "TargetValueStat"@, target_value_stat_tag()),
            target_value_stats_at.len() > 0 ==> target_value_stats_at.last() < k,
            read_at_positions(ev@, i as int, pair_counts_at, pair_counts@, "PairCounts"@, pair_counts_tag()),
            pair_counts_at.len() > 0 ==> pair_counts_at.last() < k,
            i <= k <= ev@.len(),
            !with_pair_counts ==> pair_counts@.len() == 0,
        decreases ev@.len() - k,
    {
        proof {
            if childless(ev@, i as int, "BayesInput"@) && k < q {
                assert(plain_event(ev@[k as int], "BayesInput"@));
            }
        }
        proof {
            if element_named(ev@, i as int, "BayesInput"@) && attrs_complete(ev@, i as int) && tag_attr(*start, "fieldName"@) is Some {
                lemma_nested_step(ev@, i as int, k as int);
            }
        }
        if end_at(ev, k) {
            return Err(unexpected_end());
        }
        let ghost here = k as int;
        let ghost pair_counts_at0 = pair_counts_at;
        let ghost mut stepped = false;
        proof {
            reveal_strlit("PairCounts");
            reveal_strlit("TargetValueStats");
            assert("PairCounts"@ != "TargetValueStats"@) by { assert("PairCounts"@.len() != "TargetValueStats"@.len()); }
        }
        match &ev[k] {
            XmlEvent::Start(t) => {
                k = k + 1;
                if name_is(&t.name, "TargetValueStats") {
                    let (mut stats, j) = parse_target_value_stats(ev, k)?;
                    proof {
                        target_value_stats_at = lemma_read_extend(ev@, i as int, target_value_stats_at, target_value_stats@, "TargetValueStat"@, target_value_stat_tag(), k as int, j as int, stats@);
                    }
                    target_value_stats.append(&mut stats);
                    k = j;
                } else if with_pair_counts && name_is(&t.name, "PairCounts") {
                    let value = attr_or_empty(t, "value");
                    let mut target_counts: Vec<RawTargetValueCount> = Vec::new();
                    k = parse_counts_holder(ev, k, "PairCounts", &mut target_counts)?;
                    let item = RawPairCounts { value, target_counts };
                    proof {
                        lemma_read_push(ev@, i as int, pair_counts_at, pair_counts@, "PairCounts"@, pair_counts_tag(), here, item);
                        pair_counts_at = pair_counts_at.push(here);
                    }
                    pair_counts.push(item);
                }
            },
            XmlEvent::End(n) => {
                k = k + 1;
                proof {
                    if with_pair_counts {
                    lemma_covers_level_step(ev@, i as int, here, k as int, pair_counts_at0, pair_counts_at, spans, "PairCounts"@);
                }
                    spans = span_step(spans, here, k as int);
                    stepped = true;
                }
                if name_is(n, "BayesInput") {
                    break;
                }
            },
            _ => {
                k = k + 1;
            },
        }
        proof {
            if !stepped {
                if with_pair_counts {
                    lemma_covers_level_step(ev@, i as int, here, k as int, pair_counts_at0, pair_counts_at, spans, "PairCounts"@);
                }
                spans = span_step(spans, here, k as int);
            }
        }
    }
    proof {
        if with_pair_counts {
            lemma_read_each_reached(ev@, i as int, k as int, pair_counts_at, spans, pair_counts@, "PairCounts"@, pair_counts_tag());
        }
    }
    proof {
        lemma_read_in_order(ev@, i as int, k as int, target_value_stats_at, target_value_stats@, "TargetValueStat"@, target_value_stat_tag());
    }
    proof {
        lemma_read_in_order(ev@, i as int, k as int, pair_counts_at, pair_counts@, "PairCounts"@, pair_counts_tag());
    }
    Ok((RawBayesInput { field_name, target_value_stats, pair_counts }, k))
}

/// The Bayes inputs of an `Extension` inside `BayesInputs` whose start tag
/// was just read: each `BayesInput` there keeps its statistics only.
fn parse_bayes_extension(ev: &Vec<XmlEvent>, i: usize, inputs: &mut Vec<RawBayesInput>) -> (r: Result<
    usize,
    PmmlError,
>)
    requires
        i <= ev@.len(),
    ensures
        r matches Ok(j) ==> read_each_reached(ev@, i as int, j as int, final(inputs)@.skip(old(inputs)@.len() as int), "BayesInput"@, bayes_input_tag())
                && final(inputs)@.len() >= old(inputs)@.len()
            && final(inputs)@.subrange(0, old(inputs)@.len() as int) == old(inputs)@
            && read_in_order(ev@, i as int, j as int, final(inputs)@.skip(old(inputs)@.len() as int), "BayesInput"@, bayes_input_tag())
            && stops_after_tag(ev@, i as int, j as int, "Extension"@),
        childless(ev@, i as int, "Extension"@) ==> r is Ok,
        element_named(ev@, i as int, "Extension"@) && attrs_complete(ev@, i as int) ==> (r matches Ok(j) && j <= closing(ev@, i - 1) + 1),
{
    let ghost mut inputs_at: Seq<int> = Seq::empty();
    let ghost q: int = if childless(ev@, i as int, "Extension"@) {
        choose|q: int| plain_until(ev@, i as int, q, "Extension"@)
    } else {
        0
    };
    let ghost mut spans: Seq<(int, int)> = Seq::empty();
    let mut k = i;
    proof {
        if element_named(ev@, i as int, "Extension"@) {
            lemma_closing(ev@, i - 1);
        }
    }
    loop
        invariant_except_break
            element_named(ev@, i as int, "Extension"@) && attrs_complete(ev@, i as int) ==> k <= closing(ev@, i - 1) && closes_at(ev@, i - 1, closing(ev@, i - 1)),
            i <= k <= ev@.len(),
            spans_ok(ev@, spans, i as int, k as int),
            covers_level(ev@, i as int, k as int, inputs_at, spans, "BayesInput"@),
            inputs@.len() >= old(inputs)@.len(),
            inputs@.subrange(0, old(inputs)@.len() as int) == old(inputs)@,
            read_at_positions(ev@, i as int, inputs_at, inputs@.skip(old(inputs)@.len() as int), "BayesInput"@, bayes_input_tag()),
            inputs_at.len() > 0 ==> inputs_at.last() < k,
            childless(ev@, i as int, "Extension"@) ==> plain_until(ev@, i as int, q, "Extension"@) && k <= q,
        ensures
            element_named(ev@, i as int, "Extension"@) && attrs_complete(ev@, i as int) ==> k <= closing(ev@, i - 1) + 1,
            i < k && is_end_named(ev@[k - 1], "Extension"@),
            spans_ok(ev@, spans, i as int, k as int),
            covers_level(ev@, i as int, k as int, inputs_at, spans, "BayesInput"@),
            inputs@.len() >= old(inputs)@.len(),
            inputs@.subrange(0, old(inputs)@.len() as int) == old(inputs)@,
            read_at_positions(ev@, i as int, inputs_at, inputs@.skip(old(inputs)@.len() as int), "BayesInput"@, bayes_input_tag()),
            inputs_at.len() > 0 ==> inputs_at.last() < k,
            i <= k <= ev@.len(),
        decreases ev@.len() - k,
    {
        proof {
            if childless(ev@, i as int, "Extension"@) && k < q {
                assert(plain_event(ev@[k as int], "Extension"@));
            }
        }
        proof {
            if element_named(ev@, i as int, "Extension"@) && attrs_complete(ev@, i as int) {
                lemma_nested_step(ev@, i as int, k as int);
            }
        }
        if end_at(ev, k) {
            return Err(unexpected_end());
        }
        let ghost here = k as int;
        let ghost inputs_at0 = inputs_at;
        let ghost mut stepped = false;
        proof {
            reveal_strlit("BayesInput");
        }
        match &ev[k] {
            XmlEvent::Start(t) => {
                k = k + 1;
                if name_is(&t.name, "BayesInput") {
                    let (b, j) = parse_bayes_input(ev, k, t, false)?;
                    let item = b;
                    proof {
                        lemma_read_push(ev@, i as int, inputs_at, inputs@.skip(old(inputs)@.len() as int), "BayesInput"@, bayes_input_tag(), here, item);
                        inputs_at = inputs_at.push(here);
                    }
                    let ghost before = inputs@;
                    inputs.push(item);
                    proof {
                        assert(inputs@.skip(old(inputs)@.len() as int) =~= before.skip(old(inputs)@.len() as int).push(item));
                        assert(inputs@.subrange(0, old(inputs)@.len() as int) =~= before.subrange(0, old(inputs)@.len() as int));
                    }
                    k = j;
                }
            },
            XmlEvent::End(n) => {
                k = k + 1;
                proof {
                    lemma_covers_level_step(ev@, i as int, here, k as int, inputs_at0, inputs_at, spans, "BayesInput"@);
                    spans = span_step(spans, here, k as int);
                    stepped = true;
                }
                if name_is(n, "Extension") {
                    break;
                }
            },
            _ => {
                k = k + 1;
            },
        }
        proof {
            if !stepped {
                lemma_covers_level_step(ev@, i as int, here, k as int, inputs_at0, inputs_at, spans, "BayesInput"@);
                spans = span_step(spans, here, k as int);
            }
        }
    }
    proof {
        lemma_read_each_reached(ev@, i as int, k as int, inputs_at, spans, inputs@.skip(old(inputs)@.len() as int), "BayesInput"@, bayes_input_tag());
    }
    proof {
        lemma_read_in_order(ev@, i as int, k as int, inputs_at, inputs@.skip(old(inputs)@.len() as int), "BayesInput"@, bayes_input_tag());
    }
    Ok(k)
}

/// The `BayesInput` elements of a `BayesInputs` whose start tag was just
/// read, including those wrapped in an `Extension`.
fn parse_bayes_inputs(ev: &Vec<XmlEvent>, i: usize, inputs: &mut Vec<RawBayesInput>) -> (r: Result<
    usize,
    PmmlError,
>)
    requires
        i <= ev@.len(),
    ensures
        r matches Ok(j) ==> read_each_reached(ev@, i as int, j as int, final(inputs)@.skip(old(inputs)@.len() as int), "BayesInput"@, bayes_input_tag())
                && final(inputs)@.len() >= old(inputs)@.len()
            && final(inputs)@.subrange(0, old(inputs)@.len() as int) == old(inputs)@
            && read_in_order(ev@, i as int, j as int, final(inputs)@.skip(old(inputs)@.len() as int), "BayesInput"@, bayes_input_tag())
            && stops_after_tag(ev@, i as int, j as int, "BayesInputs"@),
        childless(ev@, i as int, "BayesInputs"@) ==> r is Ok,
        element_named(ev@, i as int, "BayesInputs"@) && attrs_complete(ev@, i as int) ==> (r matches Ok(j) && j <= closing(ev@, i - 1) + 1),
{
    let ghost mut inputs_at: Seq<int> = Seq::empty();
    let ghost q: int = if childless(ev@, i as int, "BayesInputs"@) {
        choose|q: int| plain_until(ev@, i as int, q, "BayesInputs"@)
    } else {
        0
    };
    let ghost mut spans: Seq<(int, int)> = Seq::empty();
    let mut k = i;
    proof {
        if element_named(ev@, i as int, "BayesInputs"@) {
            lemma_closing(ev@, i - 1);
        }
    }
    loop
        invariant_except_break
            element_named(ev@, i as int, "BayesInputs"@) && attrs_complete(ev@, i as int) ==> k <= closing(ev@, i - 1) && closes_at(ev@, i - 1, closing(ev@, i - 1)),
            i <= k <= ev@.len(),
            spans_ok(ev@, spans, i as int, k as int),
            covers_level(ev@, i as int, k as int, inputs_at, spans, "BayesInput"@),
            inputs@.len() >= old(inputs)@.len(),
            inputs@.subrange(0, old(inputs)@.len() as int) == old(inputs)@,
            read_at_positions(ev@, i as int, inputs_at, inputs@.skip(old(inputs)@.len() as int), "BayesInput"@, bayes_input_tag()),
            inputs_at.len() > 0 ==> inputs_at.last() < k,
            childless(ev@, i as int, "BayesInputs"@) ==> plain_until(ev@, i as int, q, "BayesInputs"@) && k <= q,
        ensures
            element_named(ev@, i as int, "BayesInputs"@) && attrs_complete(ev@, i as int) ==> k <= closing(ev@, i - 1) + 1,
            i < k && is_end_named(ev@[k - 1], "BayesInputs"@),
            spans_ok(ev@, spans, i as int, k as int),
            covers_level(ev@, i as int, k as int, inputs_at, spans, "BayesInput"@),
            inputs@.len() >= old(inputs)@.len(),
            inputs@.subrange(0, old(inputs)@.len() as int) == old(inputs)@,
            read_at_positions(ev@, i as int, inputs_at, inputs@.skip(old(inputs)@.len() as int), "BayesInput"@, bayes_input_tag()),
            inputs_at.len() > 0 ==> inputs_at.last() < k,
            i <= k <= ev@.len(),
        decreases ev@.len() - k,
    {
        proof {
            if childless(ev@, i as int, "BayesInputs"@) && k < q {
                assert(plain_event(ev@[k as int], "BayesInputs"@));
            }
        }
        proof {
            if element_named(ev@, i as int, "BayesInputs"@) && attrs_complete(ev@, i as int) {
                lemma_nested_step(ev@, i as int, k as int);
            }
        }
        if end_at(ev, k) {
            return Err(unexpected_end());
        }
        let ghost here = k as int;
        let ghost inputs_at0 = inputs_at;
        let ghost mut stepped = false;
        proof {
            reveal_strlit("BayesInput");
            reveal_strlit("Extension");
            assert("BayesInput"@ != "Extension"@) by { assert("BayesInput"@.len() != "Extension"@.len()); }
        }
        match &ev[k] {
            XmlEvent::Start(t) => {
                k = k + 1;
                if name_is(&t.name, "BayesInput") {
                    let (b, j) = parse_bayes_input(ev, k, t, true)?;
                    let item = b;
                    proof {
                        lemma_read_push(ev@, i as int, inputs_at, inputs@.skip(old(inputs)@.len() as int), "BayesInput"@, bayes_input_tag(), here, item);
                        inputs_at = inputs_at.push(here);
                    }
                    let ghost before = inputs@;
                    inputs.push(item);
                    proof {
                        assert(inputs@.skip(old(inputs)@.len() as int) =~= before.skip(old(inputs)@.len() as int).push(item));
                        assert(inputs@.subrange(0, old(inputs)@.len() as int) =~= before.subrange(0, old(inputs)@.len() as int));
                    }
                    k = j;
                } else if name_is(&t.name, "Extension") {
                    let ghost before = inputs@;
                    let j = parse_bayes_extension(ev, k, inputs)?;
                    proof {
                        let n0 = old(inputs)@.len() as int;
                        assert(inputs@.skip(n0) =~= before.skip(n0) + inputs@.skip(before.len() as int));
                        let res = lemma_covers_level_section(ev@, i as int, here, j as int, inputs_at, spans, before.skip(n0), inputs@.skip(before.len() as int), "BayesInput"@, bayes_input_tag());
                        inputs_at = res.0;
                        spans = res.1;
                        stepped = true;
                        assert(inputs@.subrange(0, old(inputs)@.len() as int) =~= before.subrange(0, old(inputs)@.len() as int));
                    }
                    k = j;
                }
            },
            XmlEvent::End(n) => {
                k = k + 1;
                proof {
                    lemma_covers_level_step(ev@, i as int, here, k as int, inputs_at0, inputs_at, spans, "BayesInput"@);
                    spans = span_step(spans, here, k as int);
                    stepped = true;
                }
                if name_is(n, "BayesInputs") {
                    break;
                }
            },
            _ => {
                k = k + 1;
            },
        }
        proof {
            if !stepped {
                lemma_covers_level_step(ev@, i as int, here, k as int, inputs_at0, inputs_at, spans, "BayesInput"@);
                spans = span_step(spans, here, k as int);
            }
        }
    }
    proof {
        lemma_read_each_reached(ev@, i as int, k as int, inputs_at, spans, inputs@.skip(old(inputs)@.len() as int), "BayesInput"@, bayes_input_tag());
    }
    proof {
        lemma_read_in_order(ev@, i as int, k as int, inputs_at, inputs@.skip(old(inputs)@.len() as int), "BayesInput"@, bayes_input_tag());
    }
    Ok(k)
}

/// Whether `m` holds the attributes of `NaiveBayesModel` tag `t`.
pub open spec fn naive_bayes_model_of(t: XmlTag, m: RawNaiveBayesModel) -> bool {
    &&& tag_attr(t, "functionName"@) == Some(m.function_name@)
    &&& opt_view(m.threshold) == tag_attr(t, "threshold"@)
    &&& m.output@.len() == 0
    &&& m.targets@.len() == 0
}

/// Whether the start tags at `secs`, in `[lo, hi)`, each opened a
/// `BayesOutput` element that reading passed through up to `ends`, in order,
/// and whose own reading gave `parts`: the target value counts of every
/// `TargetValueCounts` it reached.
pub open spec fn output_sections_read(
    ev: Seq<XmlEvent>,
    lo: int,
    hi: int,
    secs: Seq<int>,
    ends: Seq<int>,
    parts: Seq<Seq<RawTargetValueCount>>,
) -> bool {
    &&& secs.len() == ends.len()
    &&& ends.len() == parts.len()
    &&& forall|x: int|
        0 <= x < secs.len() ==> lo <= #[trigger] secs[x] < ends[x] <= hi && start_named_at(ev, secs[x], "BayesOutput"@)
            && read_each_section(ev, secs[x] + 1, ends[x], parts[x], "TargetValueCounts"@, "TargetValueCount"@, target_value_count_tag())
    &&& forall|x: int, y: int| 0 <= x < y < secs.len() ==> #[trigger] ends[x] <= #[trigger] secs[y]
}

/// Whether the counts `xs` are, in order, those of the `BayesOutput`
/// elements that reading reached in `[lo, hi)`: every start tag named
/// `BayesOutput` it reached opened such an element, and each gave the counts
/// of every `TargetValueCount` inside every `TargetValueCounts` it reached.
pub open spec fn output_counts_read(ev: Seq<XmlEvent>, lo: int, hi: int, xs: Seq<RawTargetValueCount>) -> bool {
    exists|secs: Seq<int>, ends: Seq<int>, parts: Seq<Seq<RawTargetValueCount>>, spans: Seq<(int, int)>|
        #[trigger] output_sections_read(ev, lo, hi, secs, ends, parts) && #[trigger] covers_level(
            ev,
            lo,
            hi,
            secs,
            spans,
            "BayesOutput"@,
        ) && spans_ok(ev, spans, lo, hi) && xs == parts.flatten()
}

/// The output sections read so far stay read as reading goes on to `next`.
proof fn lemma_output_widen(
    ev: Seq<XmlEvent>,
    lo: int,
    hi: int,
    next: int,
    secs: Seq<int>,
    ends: Seq<int>,
    parts: Seq<Seq<RawTargetValueCount>>,
)
    requires
        output_sections_read(ev, lo, hi, secs, ends, parts),
        hi <= next,
    ensures
        output_sections_read(ev, lo, next, secs, ends, parts),
{
}

/// A `BayesOutput` read from `here` to `next` extends the output sections.
proof fn lemma_output_push(
    ev: Seq<XmlEvent>,
    lo: int,
    here: int,
    next: int,
    secs: Seq<int>,
    ends: Seq<int>,
    parts: Seq<Seq<RawTargetValueCount>>,
    ys: Seq<RawTargetValueCount>,
)
    requires
        output_sections_read(ev, lo, here, secs, ends, parts),
        lo <= here < next,
        start_named_at(ev, here, "BayesOutput"@),
        read_each_section(ev, here + 1, next, ys, "TargetValueCounts"@, "TargetValueCount"@, target_value_count_tag()),
    ensures
        output_sections_read(ev, lo, next, secs.push(here), ends.push(next), parts.push(ys)),
        parts.push(ys).flatten() == parts.flatten() + ys,
{
    let s2 = secs.push(here);
    let e2 = ends.push(next);
    let p2 = parts.push(ys);
    assert forall|x: int| 0 <= x < s2.len() implies lo <= #[trigger] s2[x] < e2[x] <= next && start_named_at(ev, s2[x], "BayesOutput"@)
        && read_each_section(ev, s2[x] + 1, e2[x], p2[x], "TargetValueCounts"@, "TargetValueCount"@, target_value_count_tag()) by {
        if x < secs.len() {
            assert(s2[x] == secs[x] && e2[x] == ends[x] && p2[x] == parts[x]);
        }
    }
    assert forall|x: int, y: int| 0 <= x < y < s2.len() implies #[trigger] e2[x] <= #[trigger] s2[y] by {
        if y < secs.len() {
            assert(s2[y] == secs[y] && e2[x] == ends[x]);
            assert(ends[x] <= secs[y]);
        } else {
            assert(e2[x] == ends[x]);
            assert(0 <= x < secs.len());
            assert(lo <= secs[x] < ends[x] <= here);
            assert(s2[y] == here);
        }
    }
    parts.lemma_flatten_push(ys);
}

/// A `NaiveBayesModel` whose start (or empty-element) tag was just read:
/// `functionName` is required.
pub fn parse_naive_bayes_model(ev: &Vec<XmlEvent>, i: usize, start: &XmlTag) -> (r: Result<
    (RawNaiveBayesModel, usize),
    PmmlError,
>)
    requires
        0 < i <= ev@.len(),
    ensures
        match r {
            Ok((m, j)) => read_each_section(ev@, i as int, j as int, m.local_derived_fields@, "LocalTransformations"@, "DerivedField"@, derived_field_tag())
                && read_each_section(ev@, i as int, j as int, m.mining_schema@, "MiningSchema"@, "MiningField"@, mining_field_tag())
                && read_in_order(ev@, i as int, j as int, m.local_derived_fields@, "DerivedField"@, derived_field_tag()) && read_in_order(ev@, i as int, j as int, m.bayes_output_counts@, "TargetValueCount"@, target_value_count_tag())
                && read_in_order(ev@, i as int, j as int, m.bayes_inputs@, "BayesInput"@, bayes_input_tag())
                && read_each_section(ev@, i as int, j as int, m.bayes_inputs@, "BayesInputs"@, "BayesInput"@, bayes_input_tag())
                && output_counts_read(ev@, i as int, j as int, m.bayes_output_counts@)
                && read_in_order(ev@, i as int, j as int, m.mining_schema@, "MiningField"@, mining_field_tag())
                && stops_at_end_or_tag(ev@, i as int, j as int, "NaiveBayesModel"@)
                && naive_bayes_model_of(*start, m),
            Err(e) => tag_attr(*start, "functionName"@) is None ==> is_missing_attr(
                e,
                "NaiveBayesModel"@,
                "functionName"@,
            ),
        },
        element_named(ev@, i as int, "NaiveBayesModel"@) && model_readable(ev@, i as int, *start, "NaiveBayesModel"@) ==> (r matches Ok((_, j)) && j <= closing(ev@, i - 1) + 1),
{
    let function_name = attr_required(start, "functionName", "NaiveBayesModel")?;
    let threshold = attr(start, "threshold");
    let mut mining_schema: Vec<RawMiningField> = Vec::new();
    let ghost mut schema_at: Seq<int> = Seq::empty();
    let mut bayes_inputs: Vec<RawBayesInput> = Vec::new();
    let ghost mut bayes_inputs_at: Seq<int> = Seq::empty();
    let mut bayes_output_counts: Vec<RawTargetValueCount> = Vec::new();
    let ghost mut bayes_output_counts_at: Seq<int> = Seq::empty();
    let mut local_derived_fields: Vec<RawDerivedField> = Vec::new();
    let ghost mut local_derived_fields_at: Seq<int> = Seq::empty();
    let ghost mut secs: Seq<int> = Seq::empty();
    let ghost mut ends: Seq<int> = Seq::empty();
    let ghost mut parts: Seq<Seq<RawBayesInput>> = Seq::empty();
    let ghost mut sspans: Seq<(int, int)> = Seq::empty();
    let ghost mut ms_secs: Seq<int> = Seq::empty();
    let ghost mut ms_ends: Seq<int> = Seq::empty();
    let ghost mut ms_parts: Seq<Seq<RawMiningField>> = Seq::empty();
    let ghost mut ms_spans: Seq<(int, int)> = Seq::empty();
    proof {
        assert(ms_parts.flatten() =~= Seq::<RawMiningField>::empty());
    }
    let ghost mut ldf_secs: Seq<int> = Seq::empty();
    let ghost mut ldf_ends: Seq<int> = Seq::empty();
    let ghost mut ldf_parts: Seq<Seq<RawDerivedField>> = Seq::empty();
    let ghost mut ldf_spans: Seq<(int, int)> = Seq::empty();
    proof {
        assert(ldf_parts.flatten() =~= Seq::<RawDerivedField>::empty());
    }
    let ghost mut bo_secs: Seq<int> = Seq::empty();
    let ghost mut bo_ends: Seq<int> = Seq::empty();
    let ghost mut bo_parts: Seq<Seq<RawTargetValueCount>> = Seq::empty();
    let ghost mut bo_spans: Seq<(int, int)> = Seq::empty();
    proof {
        assert(bo_parts.flatten() =~= Seq::<RawTargetValueCount>::empty());
    }
    let mut k = i;
    proof {
        assert(parts.flatten() =~= Seq::<RawBayesInput>::empty());
    }
    proof {
        if element_named(ev@, i as int, "NaiveBayesModel"@) {
            lemma_closing(ev@, i - 1);
        }
    }
    loop
        invariant_except_break
            element_named(ev@, i as int, "NaiveBayesModel"@) && model_readable(ev@, i as int, *start, "NaiveBayesModel"@) ==> k <= closing(ev@, i - 1) && closes_at(ev@, i - 1, closing(ev@, i - 1)),
            0 < i <= k <= ev@.len(),
            sections_read(ev@, i as int, k as int, ldf_secs, ldf_ends, ldf_parts, "LocalTransformations"@, "DerivedField"@, derived_field_tag()),
            covers_level(ev@, i as int, k as int, ldf_secs, ldf_spans, "LocalTransformations"@),
            spans_ok(ev@, ldf_spans, i as int, k as int),
            local_derived_fields@ == ldf_parts.flatten(),
            sections_read(ev@, i as int, k as int, ms_secs, ms_ends, ms_parts, "MiningSchema"@, "MiningField"@, mining_field_tag()),
            covers_level(ev@, i as int, k as int, ms_secs, ms_spans, "MiningSchema"@),
            spans_ok(ev@, ms_spans, i as int, k as int),
            mining_schema@ == ms_parts.flatten(),
            sections_read(ev@, i as int, k as int, secs, ends, parts, "BayesInputs"@, "BayesInput"@, bayes_input_tag()),
            covers_level(ev@, i as int, k as int, secs, sspans, "BayesInputs"@),
            spans_ok(ev@, sspans, i as int, k as int),
            bayes_inputs@ == parts.flatten(),
            output_sections_read(ev@, i as int, k as int, bo_secs, bo_ends, bo_parts),
            covers_level(ev@, i as int, k as int, bo_secs, bo_spans, "BayesOutput"@),
            spans_ok(ev@, bo_spans, i as int, k as int),
            bayes_output_counts@ == bo_parts.flatten(),
            tag_attr(*start, "functionName"@) == Some(function_name@),
            read_at_positions(ev@, i as int, schema_at, mining_schema@, "MiningField"@, mining_field_tag()),
            schema_at.len() > 0 ==> schema_at.last() < k,
            read_at_positions(ev@, i as int, bayes_inputs_at, bayes_inputs@, "BayesInput"@, bayes_input_tag()),
            bayes_inputs_at.len() > 0 ==> bayes_inputs_at.last() < k,
            read_at_positions(ev@, i as int, bayes_output_counts_at, bayes_output_counts@, "TargetValueCount"@, target_value_count_tag()),
            bayes_output_counts_at.len() > 0 ==> bayes_output_counts_at.last() < k,
            read_at_positions(ev@, i as int, local_derived_fields_at, local_derived_fields@, "DerivedField"@, derived_field_tag()),
            local_derived_fields_at.len() > 0 ==> local_derived_fields_at.last() < k,
        ensures
            element_named(ev@, i as int, "NaiveBayesModel"@) && model_readable(ev@, i as int, *start, "NaiveBayesModel"@) ==> k <= closing(ev@, i - 1) + 1,
            0 < i <= k <= ev@.len(),
            sections_read(ev@, i as int, k as int, ldf_secs, ldf_ends, ldf_parts, "LocalTransformations"@, "DerivedField"@, derived_field_tag()),
            covers_level(ev@, i as int, k as int, ldf_secs, ldf_spans, "LocalTransformations"@),
            spans_ok(ev@, ldf_spans, i as int, k as int),
            local_derived_fields@ == ldf_parts.flatten(),
            sections_read(ev@, i as int, k as int, ms_secs, ms_ends, ms_parts, "MiningSchema"@, "MiningField"@, mining_field_tag()),
            covers_level(ev@, i as int, k as int, ms_secs, ms_spans, "MiningSchema"@),
            spans_ok(ev@, ms_spans, i as int, k as int),
            mining_schema@ == ms_parts.flatten(),
            sections_read(ev@, i as int, k as int, secs, ends, parts, "BayesInputs"@, "BayesInput"@, bayes_input_tag()),
            covers_level(ev@, i as int, k as int, secs, sspans, "BayesInputs"@),
            spans_ok(ev@, sspans, i as int, k as int),
            bayes_inputs@ == parts.flatten(),
            output_sections_read(ev@, i as int, k as int, bo_secs, bo_ends, bo_parts),
            covers_level(ev@, i as int, k as int, bo_secs, bo_spans, "BayesOutput"@),
            spans_ok(ev@, bo_spans, i as int, k as int),
            bayes_output_counts@ == bo_parts.flatten(),
            tag_attr(*start, "functionName"@) == Some(function_name@),
            read_at_positions(ev@, i as int, schema_at, mining_schema@, "MiningField"@, mining_field_tag()),
            schema_at.len() > 0 ==> schema_at.last() < k,
            read_at_positions(ev@, i as int, bayes_inputs_at, bayes_inputs@, "BayesInput"@, bayes_input_tag()),
            bayes_inputs_at.len() > 0 ==> bayes_inputs_at.last() < k,
            read_at_positions(ev@, i as int, bayes_output_counts_at, bayes_output_counts@, "TargetValueCount"@, target_value_count_tag()),
            bayes_output_counts_at.len() > 0 ==> bayes_output_counts_at.last() < k,
            read_at_positions(ev@, i as int, local_derived_fields_at, local_derived_fields@, "DerivedField"@, derived_field_tag()),
            local_derived_fields_at.len() > 0 ==> local_derived_fields_at.last() < k,
            at_end(ev@, k as int) || (i < k && is_end_named(ev@[k - 1], "NaiveBayesModel"@)),
            sections_read(ev@, i as int, k as int, ldf_secs, ldf_ends, ldf_parts, "LocalTransformations"@, "DerivedField"@, derived_field_tag()),
            covers_level(ev@, i as int, k as int, ldf_secs, ldf_spans, "LocalTransformations"@),
            spans_ok(ev@, ldf_spans, i as int, k as int),
            local_derived_fields@ == ldf_parts.flatten(),
            sections_read(ev@, i as int, k as int, ms_secs, ms_ends, ms_parts, "MiningSchema"@, "MiningField"@, mining_field_tag()),
            covers_level(ev@, i as int, k as int, ms_secs, ms_spans, "MiningSchema"@),
            spans_ok(ev@, ms_spans, i as int, k as int),
            mining_schema@ == ms_parts.flatten(),
            sections_read(ev@, i as int, k as int, secs, ends, parts, "BayesInputs"@, "BayesInput"@, bayes_input_tag()),
            covers_level(ev@, i as int, k as int, secs, sspans, "BayesInputs"@),
            spans_ok(ev@, sspans, i as int, k as int),
            bayes_inputs@ == parts.flatten(),
            output_sections_read(ev@, i as int, k as int, bo_secs, bo_ends, bo_parts),
            covers_level(ev@, i as int, k as int, bo_secs, bo_spans, "BayesOutput"@),
            spans_ok(ev@, bo_spans, i as int, k as int),
            bayes_output_counts@ == bo_parts.flatten(),
            read_at_positions(ev@, i as int, schema_at, mining_schema@, "MiningField"@, mining_field_tag()),
            schema_at.len() > 0 ==> schema_at.last() < k,
            read_at_positions(ev@, i as int, bayes_inputs_at, bayes_inputs@, "BayesInput"@, bayes_input_tag()),
            bayes_inputs_at.len() > 0 ==> bayes_inputs_at.last() < k,
            read_at_positions(ev@, i as int, bayes_output_counts_at, bayes_output_counts@, "TargetValueCount"@, target_value_count_tag()),
            bayes_output_counts_at.len() > 0 ==> bayes_output_counts_at.last() < k,
            read_at_positions(ev@, i as int, local_derived_fields_at, local_derived_fields@, "DerivedField"@, derived_field_tag()),
            local_derived_fields_at.len() > 0 ==> local_derived_fields_at.last() < k,
        decreases ev@.len() - k,
    {
        proof {
            if element_named(ev@, i as int, "NaiveBayesModel"@) && model_readable(ev@, i as int, *start, "NaiveBayesModel"@) {
                lemma_nested_step(ev@, i as int, k as int);
                if k < closing(ev@, i - 1) {
                    assert(!start_named_at(ev@, k as int, "LocalTransformations"@));
                    assert(!is_end_named(ev@[k as int], "NaiveBayesModel"@));
                }
            }
        }
        if end_at(ev, k) {
            break;
        }
        let ghost ldf_here = k as int;
        let ghost ldf_secs0 = ldf_secs;
        let ghost mut ldf_stepped = false;
        proof {
            reveal_strlit("BayesInputs");
            reveal_strlit("BayesOutput");
            reveal_strlit("LocalTransformations");
            reveal_strlit("MiningSchema");
            assert("LocalTransformations"@ != "BayesInputs"@) by { assert("LocalTransformations"@.len() != "BayesInputs"@.len()); }
            assert("LocalTransformations"@ != "BayesOutput"@) by { assert("LocalTransformations"@.len() != "BayesOutput"@.len()); }
            assert("LocalTransformations"@ != "MiningSchema"@) by { assert("LocalTransformations"@.len() != "MiningSchema"@.len()); }
        }
        let ghost ms_here = k as int;
        let ghost ms_secs0 = ms_secs;
        let ghost mut ms_stepped = false;
        proof {
            reveal_strlit("BayesInputs");
            reveal_strlit("BayesOutput");
            reveal_strlit("LocalTransformations");
            reveal_strlit("MiningSchema");
            assert("MiningSchema"@ != "BayesInputs"@) by { assert("MiningSchema"@.len() != "BayesInputs"@.len()); }
            assert("MiningSchema"@ != "BayesOutput"@) by { assert("MiningSchema"@.len() != "BayesOutput"@.len()); }
            assert("MiningSchema"@ != "LocalTransformations"@) by { assert("MiningSchema"@.len() != "LocalTransformations"@.len()); }
        }
        let ghost bo_secs0 = bo_secs;
        let ghost mut bo_stepped = false;
        proof {
            reveal_strlit("BayesInputs");
            reveal_strlit("BayesOutput");
            reveal_strlit("LocalTransformations");
            reveal_strlit("MiningSchema");
            assert("BayesOutput"@ != "MiningSchema"@) by { assert("BayesOutput"@.len() != "MiningSchema"@.len()); }
            assert("BayesOutput"@ != "LocalTransformations"@) by { assert("BayesOutput"@.len() != "LocalTransformations"@.len()); }
        }
        let ghost here = k as int;
        let ghost secs0 = secs;
        let ghost mut stepped = false;
        proof {
            reveal_strlit("BayesInputs");
            reveal_strlit("MiningSchema");
            reveal_strlit("BayesOutput");
            reveal_strlit("LocalTransformations");
            assert("BayesInputs"@ != "MiningSchema"@) by { assert("BayesInputs"@.len() != "MiningSchema"@.len()); }
            assert("BayesInputs"@ != "BayesOutput"@) by { assert("BayesInputs"@[5] != "BayesOutput"@[5]); }
            assert("BayesInputs"@ != "LocalTransformations"@) by { assert("BayesInputs"@.len() != "LocalTransformations"@.len()); }
        }
        match &ev[k] {
            XmlEvent::Start(t) => {
                k = k + 1;
                if name_is(&t.name, "MiningSchema") {
                    let ghost ms_before = mining_schema@;
                    let (mut fields, j) = parse_mining_schema(ev, k, false)?;
                    let ghost ms_ys = fields@;
                    proof {
                        schema_at = lemma_read_extend(ev@, i as int, schema_at, mining_schema@, "MiningField"@, mining_field_tag(), k as int, j as int, fields@);
                    }
                    mining_schema.append(&mut fields);
                    proof {
                        assert(mining_schema@ =~= ms_before + ms_ys);
                        lemma_sections_push(ev@, i as int, ms_here, j as int, ms_secs, ms_ends, ms_parts, ms_ys, "MiningSchema"@, "MiningField"@, mining_field_tag());
                        lemma_covers_level_step(ev@, i as int, ms_here, j as int, ms_secs0, ms_secs0.push(ms_here), ms_spans, "MiningSchema"@);
                        ms_secs = ms_secs.push(ms_here);
                        ms_ends = ms_ends.push(j as int);
                        ms_parts = ms_parts.push(ms_ys);
                        ms_spans = span_step(ms_spans, ms_here, j as int);
                        ms_stepped = true;
                    }
                    k = j;
                } else if name_is(&t.name, "BayesInputs") {
                    let ghost before = bayes_inputs@;
                    let j = parse_bayes_inputs(ev, k, &mut bayes_inputs)?;
                    proof {
                        let ys = bayes_inputs@.skip(before.len() as int);
                        assert(bayes_inputs@ =~= before + ys);
                        lemma_sections_push(ev@, i as int, here, j as int, secs, ends, parts, ys, "BayesInputs"@, "BayesInput"@, bayes_input_tag());
                        lemma_covers_level_step(ev@, i as int, here, j as int, secs0, secs0.push(here), sspans, "BayesInputs"@);
                        secs = secs.push(here);
                        ends = ends.push(j as int);
                        parts = parts.push(ys);
                        sspans = span_step(sspans, here, j as int);
                        stepped = true;
                        assert(before.skip(0) =~= before);
                        bayes_inputs_at = lemma_read_extend_mut(ev@, i as int, bayes_inputs_at, before, bayes_inputs@, 0, "BayesInput"@, bayes_input_tag(), k as int, j as int);
                        assert(bayes_inputs@.skip(0) =~= bayes_inputs@);
                    }
                    k = j;
                } else if name_is(&t.name, "BayesOutput") {
                    let ghost before = bayes_output_counts@;
                    let j = parse_counts_holder(ev, k, "BayesOutput", &mut bayes_output_counts)?;
                    proof {
                        assert(before.skip(0) =~= before);
                        bayes_output_counts_at = lemma_read_extend_mut(ev@, i as int, bayes_output_counts_at, before, bayes_output_counts@, 0, "TargetValueCount"@, target_value_count_tag(), k as int, j as int);
                        assert(bayes_output_counts@.skip(0) =~= bayes_output_counts@);
                        let ys = bayes_output_counts@.skip(before.len() as int);
                        assert(bayes_output_counts@ =~= before + ys);
                        lemma_output_push(ev@, i as int, here, j as int, bo_secs, bo_ends, bo_parts, ys);
                        lemma_covers_level_step(ev@, i as int, here, j as int, bo_secs0, bo_secs0.push(here), bo_spans, "BayesOutput"@);
                        bo_secs = bo_secs.push(here);
                        bo_ends = bo_ends.push(j as int);
                        bo_parts = bo_parts.push(ys);
                        bo_spans = span_step(bo_spans, here, j as int);
                        bo_stepped = true;
                    }
                    k = j;
                } else if name_is(&t.name, "LocalTransformations") {
                    let ghost ldf_before = local_derived_fields@;
                    let (mut fields, j) = parse_local_transformations(ev, k)?;
                    let ghost ldf_ys = fields@;
                    proof {
                        local_derived_fields_at = lemma_read_extend(ev@, i as int, local_derived_fields_at, local_derived_fields@, "DerivedField"@, derived_field_tag(), k as int, j as int, fields@);
                    }
                    local_derived_fields.append(&mut fields);
                    proof {
                        assert(local_derived_fields@ =~= ldf_before + ldf_ys);
                        lemma_sections_push(ev@, i as int, ldf_here, j as int, ldf_secs, ldf_ends, ldf_parts, ldf_ys, "LocalTransformations"@, "DerivedField"@, derived_field_tag());
                        lemma_covers_level_step(ev@, i as int, ldf_here, j as int, ldf_secs0, ldf_secs0.push(ldf_here), ldf_spans, "LocalTransformations"@);
                        ldf_secs = ldf_secs.push(ldf_here);
                        ldf_ends = ldf_ends.push(j as int);
                        ldf_parts = ldf_parts.push(ldf_ys);
                        ldf_spans = span_step(ldf_spans, ldf_here, j as int);
                        ldf_stepped = true;
                    }
                    k = j;
                }
            },
            XmlEvent::End(n) => {
                k = k + 1;
                proof {
                    lemma_covers_level_step(ev@, i as int, ldf_here, k as int, ldf_secs0, ldf_secs0, ldf_spans, "LocalTransformations"@);
                    lemma_sections_widen(ev@, i as int, ldf_here, k as int, ldf_secs, ldf_ends, ldf_parts, "LocalTransformations"@, "DerivedField"@, derived_field_tag());
                    ldf_spans = span_step(ldf_spans, ldf_here, k as int);
                    ldf_stepped = true;
                }
                proof {
                    lemma_covers_level_step(ev@, i as int, ms_here, k as int, ms_secs0, ms_secs0, ms_spans, "MiningSchema"@);
                    lemma_sections_widen(ev@, i as int, ms_here, k as int, ms_secs, ms_ends, ms_parts, "MiningSchema"@, "MiningField"@, mining_field_tag());
                    ms_spans = span_step(ms_spans, ms_here, k as int);
                    ms_stepped = true;
                }
                proof {
                    lemma_covers_level_step(ev@, i as int, here, k as int, secs0, secs0, sspans, "BayesInputs"@);
                    lemma_sections_widen(ev@, i as int, here, k as int, secs, ends, parts, "BayesInputs"@, "BayesInput"@, bayes_input_tag());
                    sspans = span_step(sspans, here, k as int);
                    stepped = true;
                }
                proof {
                    lemma_covers_level_step(ev@, i as int, here, k as int, bo_secs0, bo_secs0, bo_spans, "BayesOutput"@);
                    lemma_output_widen(ev@, i as int, here, k as int, bo_secs, bo_ends, bo_parts);
                    bo_spans = span_step(bo_spans, here, k as int);
                    bo_stepped = true;
                }
                if name_is(n, "NaiveBayesModel") {
                    break;
                }
            },
            _ => {
                k = k + 1;
            },
        }
        proof {
            if !ldf_stepped {
                lemma_covers_level_step(ev@, i as int, ldf_here, k as int, ldf_secs0, ldf_secs0, ldf_spans, "LocalTransformations"@);
                lemma_sections_widen(ev@, i as int, ldf_here, k as int, ldf_secs, ldf_ends, ldf_parts, "LocalTransformations"@, "DerivedField"@, derived_field_tag());
                ldf_spans = span_step(ldf_spans, ldf_here, k as int);
                ldf_stepped = true;
            }
        }
        proof {
            if !ms_stepped {
                lemma_covers_level_step(ev@, i as int, ms_here, k as int, ms_secs0, ms_secs0, ms_spans, "MiningSchema"@);
                lemma_sections_widen(ev@, i as int, ms_here, k as int, ms_secs, ms_ends, ms_parts, "MiningSchema"@, "MiningField"@, mining_field_tag());
                ms_spans = span_step(ms_spans, ms_here, k as int);
                ms_stepped = true;
            }
        }
        proof {
            if !bo_stepped {
                lemma_covers_level_step(ev@, i as int, here, k as int, bo_secs0, bo_secs0, bo_spans, "BayesOutput"@);
                lemma_output_widen(ev@, i as int, here, k as int, bo_secs, bo_ends, bo_parts);
                bo_spans = span_step(bo_spans, here, k as int);
            }
        }
        proof {
            if !stepped {
                lemma_covers_level_step(ev@, i as int, here, k as int, secs0, secs0, sspans, "BayesInputs"@);
                lemma_sections_widen(ev@, i as int, here, k as int, secs, ends, parts, "BayesInputs"@, "BayesInput"@, bayes_input_tag());
                sspans = span_step(sspans, here, k as int);
            }
        }
    }
    proof {
        lemma_read_in_order(ev@, i as int, k as int, schema_at, mining_schema@, "MiningField"@, mining_field_tag());
    }
    proof {
        lemma_read_in_order(ev@, i as int, k as int, bayes_inputs_at, bayes_inputs@, "BayesInput"@, bayes_input_tag());
    }
    proof {
        lemma_read_in_order(ev@, i as int, k as int, bayes_output_counts_at, bayes_output_counts@, "TargetValueCount"@, target_value_count_tag());
    }
    proof {
        lemma_read_in_order(ev@, i as int, k as int, local_derived_fields_at, local_derived_fields@, "DerivedField"@, derived_field_tag());
    }
    Ok((RawNaiveBayesModel {
        function_name,
        threshold,
        mining_schema,
        output: Vec::new(),
        targets: Vec::new(),
        bayes_inputs,
        bayes_output_counts,
        local_derived_fields,
    }, k))
}

} // verus!
