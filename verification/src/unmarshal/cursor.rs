//! Reading position over an event stream, and the skipping loops the
//! unmarshaler uses to pass over elements it does not interpret.
//!
//! A position `i` reads event `i` of the stream; at or past the end of the
//! stream, or at an `Eof` event, it reads the end of the document and does
//! not move, so everything after an `Eof` event is never read.

use vstd::prelude::*;
use crate::error::PmmlError;
use crate::strings::string_from;
use crate::xml::{XmlEvent, XmlTag, name_is, tag_attr};
use crate::unmarshal::nesting::{nested_element, closing, closes_at, depth_at, depth_step, lemma_closing};

verus! {

/// Whether reading at position `i` yields the end of the document.
pub open spec fn at_end(ev: Seq<XmlEvent>, i: int) -> bool {
    i >= ev.len() || ev[i] is Eof
}

/// The position after reading one event at `i`.
pub open spec fn after_one(ev: Seq<XmlEvent>, i: int) -> int {
    if at_end(ev, i) {
        i
    } else {
        i + 1
    }
}

/// Whether reading went forward from `i` to `j`, within the stream.
pub open spec fn progressed(ev: Seq<XmlEvent>, i: int, j: int) -> bool {
    i <= j <= ev.len()
}

/// Whether event `e` is an end tag named `name`.
pub open spec fn is_end_named(e: XmlEvent, name: Seq<char>) -> bool {
    e matches XmlEvent::End(n) && n@ == name
}

/// Whether `e` is the error reported when the document ends inside an
/// element whose reading loop has no way out at the end of the document.
pub open spec fn is_unexpected_end(e: PmmlError) -> bool {
    e matches PmmlError::ParseError { context, message } && context@ == "xml"@ && message@
        == "unexpected end of document"@
}

/// Whether `e` is the error reported when an end tag closes more elements
/// than were opened inside a skipped element.
pub open spec fn is_unbalanced(e: PmmlError) -> bool {
    e matches PmmlError::ParseError { context, message } && context@ == "xml"@ && message@
        == "unbalanced end tag"@
}

/// Whether reading from `i` stopped at `j` either at the end of the document
/// or right after an end tag named `name`.
pub open spec fn stops_at_end_or_tag(ev: Seq<XmlEvent>, i: int, j: int, name: Seq<char>) -> bool {
    &&& i <= j <= ev.len()
    &&& (at_end(ev, j) || (i < j && is_end_named(ev[j - 1], name)))
}

/// Whether reading from `i` stopped at `j`, right after an end tag named
/// `name`.
pub open spec fn stops_after_tag(ev: Seq<XmlEvent>, i: int, j: int, name: Seq<char>) -> bool {
    &&& i < j <= ev.len()
    &&& is_end_named(ev[j - 1], name)
}

/// Whether event `e` can stand inside an element named `name` that holds no
/// child element: it is no start or empty-element tag, no `Eof`, and no end
/// tag named `name`.
pub open spec fn plain_event(e: XmlEvent, name: Seq<char>) -> bool {
    !(e is Start) && !(e is Empty) && !(e is Eof) && !is_end_named(e, name)
}

/// Whether the element read from `lo` ends at the end tag named `name` at
/// `q` with only plain events before it.
pub open spec fn plain_until(ev: Seq<XmlEvent>, lo: int, q: int, name: Seq<char>) -> bool {
    &&& lo <= q < ev.len()
    &&& is_end_named(ev[q], name)
    &&& forall|p: int| lo <= p < q ==> #[trigger] plain_event(ev[p], name)
}

/// Whether the element read from `lo` holds no child element: an end tag
/// named `name` comes before any tag or the end of the document.
pub open spec fn childless(ev: Seq<XmlEvent>, lo: int, name: Seq<char>) -> bool {
    exists|q: int| plain_until(ev, lo, q, name)
}

/// Whether the element read from `lo` ends at the end tag named `name` at
/// `q` with only plain events and no other end tag before it.
pub open spec fn flat_until(ev: Seq<XmlEvent>, lo: int, q: int, name: Seq<char>) -> bool {
    &&& plain_until(ev, lo, q, name)
    &&& forall|p: int| lo <= p < q ==> !(#[trigger] ev[p] is End)
}

/// Whether the element read from `lo` holds only text (and comments,
/// declarations and the like) before its end tag named `name`.
pub open spec fn flat(ev: Seq<XmlEvent>, lo: int, name: Seq<char>) -> bool {
    exists|q: int| flat_until(ev, lo, q, name)
}

/// Whether event `k` of `ev` is a start or empty-element tag named `name`
/// that the value `x` was read from, as `f` relates tags and values.
pub open spec fn tag_gives<T>(ev: Seq<XmlEvent>, k: int, name: Seq<char>, x: T, f: spec_fn(XmlTag, T) -> bool) -> bool {
    0 <= k < ev.len() && match ev[k] {
        XmlEvent::Start(t) => t.name@ == name && f(t, x),
        XmlEvent::Empty(t) => t.name@ == name && f(t, x),
        _ => false,
    }
}

/// Whether `at` lists, in increasing order, positions from `lo` on of tags
/// named `name` that the values `xs` were read from, one for one.
pub open spec fn read_at_positions<T>(
    ev: Seq<XmlEvent>,
    lo: int,
    at: Seq<int>,
    xs: Seq<T>,
    name: Seq<char>,
    f: spec_fn(XmlTag, T) -> bool,
) -> bool {
    &&& at.len() == xs.len()
    &&& forall|x: int| 0 <= x < at.len() ==> lo <= #[trigger] at[x] && tag_gives(ev, at[x], name, xs[x], f)
    &&& forall|x: int, y: int| 0 <= x < y < at.len() ==> at[x] < at[y]
}

/// Whether the values `xs` were read, in order, from tags named `name` among
/// the events in `[lo, hi)`.
pub open spec fn read_in_order<T>(
    ev: Seq<XmlEvent>,
    lo: int,
    hi: int,
    xs: Seq<T>,
    name: Seq<char>,
    f: spec_fn(XmlTag, T) -> bool,
) -> bool {
    exists|at: Seq<int>|
        #[trigger] read_at_positions(ev, lo, at, xs, name, f) && (at.len() > 0 ==> at.last() < hi)
}

/// Whether event `p` is a start tag named `name`.
pub open spec fn start_named_at(ev: Seq<XmlEvent>, p: int, name: Seq<char>) -> bool {
    0 <= p < ev.len() && (ev[p] matches XmlEvent::Start(t) && t.name@ == name)
}

/// Whether a reading loop, at the start (or empty-element) tag at `s`,
/// passed over the events up to (not including) `e` as the content of that
/// element: `e` is just past an end tag of the same name, or at the end of
/// the stream, or just past the one event that follows the tag.
pub open spec fn nested_span(ev: Seq<XmlEvent>, s: int, e: int) -> bool {
    &&& 0 <= s < e <= ev.len()
    &&& match ev[s] {
        XmlEvent::Start(t) => e == s + 2 || at_end(ev, e) || (s + 1 < e && is_end_named(ev[e - 1], t.name@)),
        XmlEvent::Empty(t) => e == s + 2 || at_end(ev, e) || (s + 1 < e && is_end_named(ev[e - 1], t.name@)),
        _ => false,
    }
}

/// Whether the spans `spans`, each a start tag's position and where reading
/// resumed after its content, lie in `[lo, hi]` and are nested spans.
pub open spec fn spans_ok(ev: Seq<XmlEvent>, spans: Seq<(int, int)>, lo: int, hi: int) -> bool {
    forall|x: int|
        0 <= x < spans.len() ==> lo <= #[trigger] spans[x].0 && spans[x].1 <= hi && nested_span(
            ev,
            spans[x].0,
            spans[x].1,
        )
}

/// Whether position `p` lies inside the content of one of the spans.
pub open spec fn in_span(spans: Seq<(int, int)>, p: int) -> bool {
    exists|x: int| 0 <= x < spans.len() && #[trigger] spans[x].0 < p < spans[x].1
}

/// Whether every start tag named `name` in `[lo, hi)` that lies outside the
/// passed-over spans is one of the positions `at`.
pub open spec fn covers_level(
    ev: Seq<XmlEvent>,
    lo: int,
    hi: int,
    at: Seq<int>,
    spans: Seq<(int, int)>,
    name: Seq<char>,
) -> bool {
    forall|p: int|
        lo <= p < hi && #[trigger] start_named_at(ev, p, name) ==> at.contains(p) || in_span(spans, p)
}

/// Whether the values `xs` were read, in order, from tags named `name`
/// among the events in `[lo, hi)`, one from every start tag of that name
/// that reading reached: reading passed over nothing but the content of
/// nested elements.
pub open spec fn read_each_reached<T>(
    ev: Seq<XmlEvent>,
    lo: int,
    hi: int,
    xs: Seq<T>,
    name: Seq<char>,
    f: spec_fn(XmlTag, T) -> bool,
) -> bool {
    exists|at: Seq<int>, spans: Seq<(int, int)>|
        #[trigger] read_at_positions(ev, lo, at, xs, name, f) && (at.len() > 0 ==> at.last() < hi)
            && spans_ok(ev, spans, lo, hi) && #[trigger] covers_level(ev, lo, hi, at, spans, name)
}

/// The passed-over spans after a step of a reading loop from `here` to
/// `next`: the events between, when there are any, were passed over.
pub open spec fn span_step(spans: Seq<(int, int)>, here: int, next: int) -> Seq<(int, int)> {
    if next > here + 1 {
        spans.push((here, next))
    } else {
        spans
    }
}

/// One step of a reading loop from `here` to `next`: the start tag at
/// `here`, when it is named `name`, was recorded, and the events between
/// were passed over as a nested span.
pub proof fn lemma_covers_level_step(
    ev: Seq<XmlEvent>,
    lo: int,
    here: int,
    next: int,
    at: Seq<int>,
    at2: Seq<int>,
    spans: Seq<(int, int)>,
    name: Seq<char>,
)
    requires
        lo <= here < next <= ev.len(),
        covers_level(ev, lo, here, at, spans, name),
        spans_ok(ev, spans, lo, here),
        at2 == at || at2 == at.push(here),
        start_named_at(ev, here, name) ==> at2 == at.push(here),
        next > here + 1 ==> nested_span(ev, here, next),
    ensures
        covers_level(ev, lo, next, at2, span_step(spans, here, next), name),
        spans_ok(ev, span_step(spans, here, next), lo, next),
{
    let spans2 = span_step(spans, here, next);
    assert forall|p: int| lo <= p < next && #[trigger] start_named_at(ev, p, name) implies at2.contains(p) || in_span(spans2, p) by {
        if p < here {
            if at.contains(p) {
                let x = choose|x: int| 0 <= x < at.len() && at[x] == p;
                assert(at2[x] == p);
            } else {
                let x = choose|x: int| 0 <= x < spans.len() && #[trigger] spans[x].0 < p < spans[x].1;
                assert(spans2[x] == spans[x]);
                assert(spans2[x].0 < p < spans2[x].1);
                assert(in_span(spans2, p));
            }
        } else if p == here {
            assert(at2[at.len() as int] == here);
        } else {
            assert(spans2[spans.len() as int] == (here, next));
            assert(spans2[spans.len() as int].0 < p < spans2[spans.len() as int].1);
            assert(in_span(spans2, p));
        }
    }
    assert forall|x: int| 0 <= x < spans2.len() implies lo <= #[trigger] spans2[x].0 && spans2[x].1 <= next
        && nested_span(ev, spans2[x].0, spans2[x].1) by {
        if x < spans.len() {
            assert(spans2[x] == spans[x]);
        }
    }
}

/// A reading loop that stops at `hi` having recorded `at` and passed over
/// `spans` read each start tag named `name` it reached.
pub proof fn lemma_read_each_reached<T>(
    ev: Seq<XmlEvent>,
    lo: int,
    hi: int,
    at: Seq<int>,
    spans: Seq<(int, int)>,
    xs: Seq<T>,
    name: Seq<char>,
    f: spec_fn(XmlTag, T) -> bool,
)
    requires
        read_at_positions(ev, lo, at, xs, name, f),
        at.len() > 0 ==> at.last() < hi,
        spans_ok(ev, spans, lo, hi),
        covers_level(ev, lo, hi, at, spans, name),
    ensures
        read_each_reached(ev, lo, hi, xs, name, f),
{
}

/// A nested element read from `here` to `next`, whose values `ys` were read
/// from every start tag named `name` that its own reading reached, extends a
/// loop's record: the positions `at` of the values `xs` read so far, and the
/// spans `spans` passed over so far.
pub proof fn lemma_covers_level_section<T>(
    ev: Seq<XmlEvent>,
    lo: int,
    here: int,
    next: int,
    at: Seq<int>,
    spans: Seq<(int, int)>,
    xs: Seq<T>,
    ys: Seq<T>,
    name: Seq<char>,
    f: spec_fn(XmlTag, T) -> bool,
) -> (res: (Seq<int>, Seq<(int, int)>))
    requires
        lo <= here < next <= ev.len(),
        read_at_positions(ev, lo, at, xs, name, f),
        at.len() > 0 ==> at.last() < here,
        covers_level(ev, lo, here, at, spans, name),
        spans_ok(ev, spans, lo, here),
        !start_named_at(ev, here, name),
        read_each_reached(ev, here + 1, next, ys, name, f),
    ensures
        read_at_positions(ev, lo, res.0, xs + ys, name, f),
        res.0.len() > 0 ==> res.0.last() < next,
        covers_level(ev, lo, next, res.0, res.1, name),
        spans_ok(ev, res.1, lo, next),
{
    let (at2, sp2) = choose|a: Seq<int>, sp: Seq<(int, int)>|
        #[trigger] read_at_positions(ev, here + 1, a, ys, name, f) && (a.len() > 0 ==> a.last() < next)
            && spans_ok(ev, sp, here + 1, next) && #[trigger] covers_level(ev, here + 1, next, a, sp, name);
    let all = at + at2;
    let sps = spans + sp2;
    assert forall|x: int| 0 <= x < all.len() implies lo <= #[trigger] all[x] && tag_gives(ev, all[x], name, (xs + ys)[x], f) by {
        if x < at.len() {
            assert(all[x] == at[x]);
            assert((xs + ys)[x] == xs[x]);
        } else {
            assert(all[x] == at2[x - at.len()]);
            assert((xs + ys)[x] == ys[x - at.len()]);
        }
    }
    assert forall|x: int, y: int| 0 <= x < y < all.len() implies all[x] < all[y] by {
        if y < at.len() {
        } else if x < at.len() {
            assert(all[y] == at2[y - at.len()]);
            assert(at[x] <= at.last());
        } else {
            assert(all[x] == at2[x - at.len()]);
            assert(all[y] == at2[y - at.len()]);
        }
    }
    assert(read_at_positions(ev, lo, all, xs + ys, name, f));
    assert(all.len() > 0 ==> all.last() < next) by {
        if at2.len() > 0 {
            assert(all.last() == at2.last());
        } else {
            assert(all =~= at);
        }
    }
    assert forall|p: int| lo <= p < next && #[trigger] start_named_at(ev, p, name) implies all.contains(p) || in_span(sps, p) by {
        if p < here {
            if at.contains(p) {
                let x = choose|x: int| 0 <= x < at.len() && at[x] == p;
                assert(all[x] == p);
            } else {
                let x = choose|x: int| 0 <= x < spans.len() && #[trigger] spans[x].0 < p < spans[x].1;
                assert(sps[x] == spans[x]);
                assert(sps[x].0 < p < sps[x].1);
                assert(in_span(sps, p));
            }
        } else if p > here {
            if at2.contains(p) {
                let x = choose|x: int| 0 <= x < at2.len() && at2[x] == p;
                assert(all[at.len() + x] == p);
            } else {
                let x = choose|x: int| 0 <= x < sp2.len() && #[trigger] sp2[x].0 < p < sp2[x].1;
                assert(sps[spans.len() + x] == sp2[x]);
                assert(sps[spans.len() + x].0 < p < sps[spans.len() + x].1);
                assert(in_span(sps, p));
            }
        }
    }
    assert forall|x: int| 0 <= x < sps.len() implies lo <= #[trigger] sps[x].0 && sps[x].1 <= next
        && nested_span(ev, sps[x].0, sps[x].1) by {
        if x < spans.len() {
            assert(sps[x] == spans[x]);
        } else {
            assert(sps[x] == sp2[x - spans.len()]);
        }
    }
    (all, sps)
}

/// Whether the start tags at `secs`, in `[lo, hi)`, each opened an element
/// named `sec` that reading passed through up to `ends`, in order, and
/// whose own reading gave `parts`, one from every start tag named `name`
/// that it reached.
pub open spec fn sections_read<T>(
    ev: Seq<XmlEvent>,
    lo: int,
    hi: int,
    secs: Seq<int>,
    ends: Seq<int>,
    parts: Seq<Seq<T>>,
    sec: Seq<char>,
    name: Seq<char>,
    f: spec_fn(XmlTag, T) -> bool,
) -> bool {
    &&& secs.len() == ends.len()
    &&& ends.len() == parts.len()
    &&& forall|x: int|
        0 <= x < secs.len() ==> lo <= #[trigger] secs[x] < ends[x] <= hi && start_named_at(ev, secs[x], sec)
            && read_each_reached(ev, secs[x] + 1, ends[x], parts[x], name, f)
    &&& forall|x: int, y: int| 0 <= x < y < secs.len() ==> #[trigger] ends[x] <= #[trigger] secs[y]
}

/// Whether the values `xs` are, in order, what the elements named `sec`
/// that reading reached in `[lo, hi)` held: every start tag named `sec` it
/// reached opened such an element, and each gave, in turn, the values read
/// from every start tag named `name` that its own reading reached.
pub open spec fn read_each_section<T>(
    ev: Seq<XmlEvent>,
    lo: int,
    hi: int,
    xs: Seq<T>,
    sec: Seq<char>,
    name: Seq<char>,
    f: spec_fn(XmlTag, T) -> bool,
) -> bool {
    exists|secs: Seq<int>, ends: Seq<int>, parts: Seq<Seq<T>>, spans: Seq<(int, int)>|
        #[trigger] sections_read(ev, lo, hi, secs, ends, parts, sec, name, f) && #[trigger] covers_level(
            ev,
            lo,
            hi,
            secs,
            spans,
            sec,
        ) && spans_ok(ev, spans, lo, hi) && xs == parts.flatten()
}

/// The sections read so far stay read as reading goes on to `next`.
pub proof fn lemma_sections_widen<T>(
    ev: Seq<XmlEvent>,
    lo: int,
    hi: int,
    next: int,
    secs: Seq<int>,
    ends: Seq<int>,
    parts: Seq<Seq<T>>,
    sec: Seq<char>,
    name: Seq<char>,
    f: spec_fn(XmlTag, T) -> bool,
)
    requires
        sections_read(ev, lo, hi, secs, ends, parts, sec, name, f),
        hi <= next,
    ensures
        sections_read(ev, lo, next, secs, ends, parts, sec, name, f),
{
}

/// A section read from `here` to `next` extends the sections read so far.
pub proof fn lemma_sections_push<T>(
    ev: Seq<XmlEvent>,
    lo: int,
    here: int,
    next: int,
    secs: Seq<int>,
    ends: Seq<int>,
    parts: Seq<Seq<T>>,
    ys: Seq<T>,
    sec: Seq<char>,
    name: Seq<char>,
    f: spec_fn(XmlTag, T) -> bool,
)
    requires
        sections_read(ev, lo, here, secs, ends, parts, sec, name, f),
        lo <= here < next,
        start_named_at(ev, here, sec),
        read_each_reached(ev, here + 1, next, ys, name, f),
    ensures
        sections_read(ev, lo, next, secs.push(here), ends.push(next), parts.push(ys), sec, name, f),
        parts.push(ys).flatten() == parts.flatten() + ys,
{
    let s2 = secs.push(here);
    let e2 = ends.push(next);
    let p2 = parts.push(ys);
    assert forall|x: int| 0 <= x < s2.len() implies lo <= #[trigger] s2[x] < e2[x] <= next && start_named_at(ev, s2[x], sec)
        && read_each_reached(ev, s2[x] + 1, e2[x], p2[x], name, f) by {
        if x < secs.len() {
            assert(s2[x] == secs[x] && e2[x] == ends[x] && p2[x] == parts[x]);
        }
    }
    assert forall|x: int, y: int| 0 <= x < y < s2.len() implies #[trigger] e2[x] <= #[trigger] s2[y] by {
        if y < secs.len() {
            assert(s2[y] == secs[y] && e2[x] == ends[x]);
            assert(ends[x] <= secs[y]);
        } else {
            assert(e2[x] == ends[x]);
            assert(0 <= x < secs.len());
            assert(lo <= secs[x] < ends[x] <= here && start_named_at(ev, secs[x], sec));
            assert(s2[y] == here);
        }
    }
    parts.lemma_flatten_push(ys);
}

/// The spans that a list reading tags named `name` from `lo` passes over
/// before `hi`: the one event after each start tag of that name that is
/// followed by another of that name.
pub open spec fn entry_skips(ev: Seq<XmlEvent>, lo: int, hi: int, name: Seq<char>) -> Seq<(int, int)>
    decreases hi - lo,
{
    if hi <= lo {
        Seq::empty()
    } else {
        let rest = entry_skips(ev, lo, hi - 1, name);
        if hi - 2 >= lo && start_named_at(ev, hi - 2, name) && start_named_at(ev, hi - 1, name) {
            rest.push((hi - 2, hi))
        } else {
            rest
        }
    }
}

/// The spans of [`entry_skips`] are nested spans in `[lo, hi]`, and every
/// start tag named `name` in `[lo, hi)` that is no entry tag lies inside one.
pub proof fn lemma_entry_skips(ev: Seq<XmlEvent>, lo: int, hi: int, name: Seq<char>)
    requires
        0 <= lo <= hi <= ev.len(),
    ensures
        spans_ok(ev, entry_skips(ev, lo, hi, name), lo, hi),
        forall|p: int|
            lo <= p < hi && #[trigger] start_named_at(ev, p, name) && !entry_tag_at(ev, lo, p, name) ==> in_span(
                entry_skips(ev, lo, hi, name),
                p,
            ),
    decreases hi - lo,
{
    if hi > lo {
        lemma_entry_skips(ev, lo, hi - 1, name);
        let rest = entry_skips(ev, lo, hi - 1, name);
        let sp = entry_skips(ev, lo, hi, name);
        assert forall|x: int| 0 <= x < sp.len() implies lo <= #[trigger] sp[x].0 && sp[x].1 <= hi && nested_span(
            ev,
            sp[x].0,
            sp[x].1,
        ) by {
            if x < rest.len() {
                assert(sp[x] == rest[x]);
            } else {
                assert(sp[x] == (hi - 2, hi));
                assert(start_named_at(ev, hi - 2, name));
            }
        }
        assert forall|p: int|
            lo <= p < hi && #[trigger] start_named_at(ev, p, name) && !entry_tag_at(ev, lo, p, name) implies in_span(
            sp,
            p,
        ) by {
            if p < hi - 1 {
                let x = choose|x: int| 0 <= x < rest.len() && #[trigger] rest[x].0 < p < rest[x].1;
                assert(sp[x] == rest[x]);
                assert(sp[x].0 < p < sp[x].1);
            } else {
                assert(p == hi - 1);
                assert(ev[p] matches XmlEvent::Start(t) && t.name@ == name);
                assert(p != lo && (ev[p - 1] matches XmlEvent::Start(t) && t.name@ == name));
                assert(start_named_at(ev, p - 1, name));
                assert(sp[rest.len() as int] == (hi - 2, hi));
                assert(sp[rest.len() as int].0 < p < sp[rest.len() as int].1);
            }
        }
    }
}

/// Values read in order from every entry tag were read from every start
/// tag reached, the one event after a start tag passed over where another
/// of the same name follows it.
pub proof fn lemma_all_to_each<T>(
    ev: Seq<XmlEvent>,
    lo: int,
    hi: int,
    xs: Seq<T>,
    name: Seq<char>,
    f: spec_fn(XmlTag, T) -> bool,
)
    requires
        0 <= lo <= hi <= ev.len(),
        read_all_in_order(ev, lo, hi, xs, name, f),
    ensures
        read_each_reached(ev, lo, hi, xs, name, f),
{
    let at = choose|a: Seq<int>|
        #[trigger] read_at_positions(ev, lo, a, xs, name, f) && (a.len() > 0 ==> a.last() < hi)
            && covers_entries(ev, lo, hi, a, name);
    let sp = entry_skips(ev, lo, hi, name);
    lemma_entry_skips(ev, lo, hi, name);
    assert forall|p: int| lo <= p < hi && #[trigger] start_named_at(ev, p, name) implies at.contains(p) || in_span(sp, p) by {
        if entry_tag_at(ev, lo, p, name) {
            assert(at.contains(p));
        }
    }
    assert(covers_level(ev, lo, hi, at, sp, name));
}

/// Whether the element whose start tag, named `name`, was just read at
/// `i - 1` stands in a well-nested stream.
pub open spec fn element_named(ev: Seq<XmlEvent>, i: int, name: Seq<char>) -> bool {
    nested_element(ev, i) && start_named_at(ev, i - 1, name)
}

/// Whether every start (or empty-element) tag named `name` from event `i` on
/// carries attribute `key`.
pub open spec fn tags_carry(ev: Seq<XmlEvent>, i: int, name: Seq<char>, key: Seq<char>) -> bool {
    forall|p: int|
        i <= p < ev.len() ==> match #[trigger] ev[p] {
            XmlEvent::Start(t) => t.name@ == name ==> tag_attr(t, key) is Some,
            XmlEvent::Empty(t) => t.name@ == name ==> tag_attr(t, key) is Some,
            _ => true,
        }
}

/// Whether `x` was read from a tag named `name` of `ev`.
pub open spec fn read_from_tag<T>(ev: Seq<XmlEvent>, x: T, name: Seq<char>, f: spec_fn(XmlTag, T) -> bool) -> bool {
    exists|k: int| #[trigger] tag_gives(ev, k, name, x, f)
}

/// Whether every value of `xs` was read from a tag named `name` of `ev`.
pub open spec fn all_read_from<T>(ev: Seq<XmlEvent>, xs: Seq<T>, name: Seq<char>, f: spec_fn(XmlTag, T) -> bool) -> bool {
    forall|x: int| 0 <= x < xs.len() ==> #[trigger] read_from_tag(ev, xs[x], name, f)
}

/// Values read in order anywhere in the stream, appended to values read
/// from tags of the stream, leave every value read from a tag of it.
pub proof fn lemma_all_read_append<T>(
    ev: Seq<XmlEvent>,
    xs: Seq<T>,
    ys: Seq<T>,
    lo: int,
    hi: int,
    name: Seq<char>,
    f: spec_fn(XmlTag, T) -> bool,
)
    requires
        all_read_from(ev, xs, name, f),
        read_in_order(ev, lo, hi, ys, name, f),
    ensures
        all_read_from(ev, xs + ys, name, f),
{
    let at = choose|a: Seq<int>| #[trigger] read_at_positions(ev, lo, a, ys, name, f) && (a.len() > 0
        ==> a.last() < hi);
    assert forall|x: int| 0 <= x < (xs + ys).len() implies #[trigger] read_from_tag(ev, (xs + ys)[x], name, f) by {
        if x < xs.len() {
            assert((xs + ys)[x] == xs[x]);
            assert(read_from_tag(ev, xs[x], name, f));
        } else {
            let y = x - xs.len();
            assert((xs + ys)[x] == ys[y]);
            assert(tag_gives(ev, at[y], name, ys[y], f));
        }
    }
}

/// Whether event `p` is a start or empty-element tag named `name` that a
/// list read from `lo` reaches: the first event, or one that does not come
/// right after a start tag of the same name (whose element the list passes
/// over by one event).
pub open spec fn entry_tag_at(ev: Seq<XmlEvent>, lo: int, p: int, name: Seq<char>) -> bool {
    &&& lo <= p < ev.len()
    &&& (ev[p] matches XmlEvent::Start(t) && t.name@ == name) || (ev[p] matches XmlEvent::Empty(t)
        && t.name@ == name)
    &&& (p == lo || !(ev[p - 1] matches XmlEvent::Start(t) && t.name@ == name))
}

/// Whether the positions `at` include every entry tag named `name` that a
/// list read from `lo` reaches before `hi`.
pub open spec fn covers_entries(ev: Seq<XmlEvent>, lo: int, hi: int, at: Seq<int>, name: Seq<char>) -> bool {
    forall|p: int| #[trigger] entry_tag_at(ev, lo, p, name) && p < hi ==> at.contains(p)
}

/// Whether the values `xs` were read, in order, from tags named `name` among
/// the events in `[lo, hi)`, one from every entry tag of that name reached.
pub open spec fn read_all_in_order<T>(
    ev: Seq<XmlEvent>,
    lo: int,
    hi: int,
    xs: Seq<T>,
    name: Seq<char>,
    f: spec_fn(XmlTag, T) -> bool,
) -> bool {
    exists|at: Seq<int>|
        #[trigger] read_at_positions(ev, lo, at, xs, name, f) && (at.len() > 0 ==> at.last() < hi)
            && covers_entries(ev, lo, hi, at, name)
}

/// Values read in order from every entry tag were read in order.
pub proof fn lemma_read_all_in_order<T>(
    ev: Seq<XmlEvent>,
    lo: int,
    hi: int,
    xs: Seq<T>,
    name: Seq<char>,
    f: spec_fn(XmlTag, T) -> bool,
)
    requires
        read_all_in_order(ev, lo, hi, xs, name, f),
    ensures
        read_in_order(ev, lo, hi, xs, name, f),
{
    let at = choose|a: Seq<int>|
        #[trigger] read_at_positions(ev, lo, a, xs, name, f) && (a.len() > 0 ==> a.last() < hi)
            && covers_entries(ev, lo, hi, a, name);
    lemma_read_in_order(ev, lo, hi, at, xs, name, f);
}

/// Covering the entries before `hi` and, when event `hi` is an entry tag,
/// reading it, covers the entries before `hi + 1`.
pub proof fn lemma_covers_step(ev: Seq<XmlEvent>, lo: int, hi: int, at: Seq<int>, name: Seq<char>, pushed: bool)
    requires
        covers_entries(ev, lo, hi, at, name),
        entry_tag_at(ev, lo, hi, name) ==> pushed,
    ensures
        covers_entries(ev, lo, hi + 1, if pushed { at.push(hi) } else { at }, name),
{
    let at2 = if pushed { at.push(hi) } else { at };
    assert forall|p: int| #[trigger] entry_tag_at(ev, lo, p, name) && p < hi + 1 implies at2.contains(p) by {
        if p == hi {
            assert(at2[at.len() as int] == hi);
        } else {
            assert(at.contains(p));
            let x = choose|x: int| 0 <= x < at.len() && at[x] == p;
            if pushed {
                assert(at2[x] == p);
            }
        }
    }
}

/// Covering the entries before `hi`, where event `hi` is no entry tag,
/// covers those before `hi + 1`.
pub proof fn lemma_covers_skip(ev: Seq<XmlEvent>, lo: int, hi: int, at: Seq<int>, name: Seq<char>)
    requires
        covers_entries(ev, lo, hi, at, name),
        !entry_tag_at(ev, lo, hi, name),
    ensures
        covers_entries(ev, lo, hi + 1, at, name),
{
    lemma_covers_step(ev, lo, hi, at, name, false);
}

/// Positions before `hi` show that the values were read in order.
pub proof fn lemma_read_in_order<T>(
    ev: Seq<XmlEvent>,
    lo: int,
    hi: int,
    at: Seq<int>,
    xs: Seq<T>,
    name: Seq<char>,
    f: spec_fn(XmlTag, T) -> bool,
)
    requires
        read_at_positions(ev, lo, at, xs, name, f),
        at.len() > 0 ==> at.last() < hi,
    ensures
        read_in_order(ev, lo, hi, xs, name, f),
{
    assert(read_at_positions(ev, lo, at, xs, name, f) && (at.len() > 0 ==> at.last() < hi));
}

/// Values read in order from tags within `[lo, hi)` were read in order
/// within any range that holds it.
pub proof fn lemma_read_widen<T>(
    ev: Seq<XmlEvent>,
    lo: int,
    hi: int,
    lo2: int,
    hi2: int,
    xs: Seq<T>,
    name: Seq<char>,
    f: spec_fn(XmlTag, T) -> bool,
)
    requires
        read_in_order(ev, lo, hi, xs, name, f),
        lo2 <= lo,
        hi <= hi2,
    ensures
        read_in_order(ev, lo2, hi2, xs, name, f),
{
    let at = choose|a: Seq<int>| #[trigger] read_at_positions(ev, lo, a, xs, name, f) && (a.len() > 0
        ==> a.last() < hi);
    assert(read_at_positions(ev, lo2, at, xs, name, f));
}

/// A value read from the tag at `k` alone, within `[lo, hi)`.
pub proof fn lemma_read_one<T>(ev: Seq<XmlEvent>, lo: int, hi: int, k: int, x: T, name: Seq<char>, f: spec_fn(XmlTag, T) -> bool)
    requires
        lo <= k < hi,
        tag_gives(ev, k, name, x, f),
    ensures
        read_in_order(ev, lo, hi, seq![x], name, f),
{
    lemma_read_push(ev, lo, Seq::empty(), Seq::empty(), name, f, k, x);
    assert(Seq::<T>::empty().push(x) =~= seq![x]);
    lemma_read_in_order(ev, lo, hi, Seq::<int>::empty().push(k), seq![x], name, f);
}

/// Values read in order from `[k, j)`, after all the earlier ones, extend
/// them; the positions of the whole come back.
pub proof fn lemma_read_extend<T>(
    ev: Seq<XmlEvent>,
    lo: int,
    at: Seq<int>,
    xs: Seq<T>,
    name: Seq<char>,
    f: spec_fn(XmlTag, T) -> bool,
    k: int,
    j: int,
    ys: Seq<T>,
) -> (all: Seq<int>)
    requires
        read_at_positions(ev, lo, at, xs, name, f),
        at.len() > 0 ==> at.last() < k,
        read_in_order(ev, k, j, ys, name, f),
        lo <= k <= j,
    ensures
        read_at_positions(ev, lo, all, xs + ys, name, f),
        all.len() > 0 ==> all.last() < j,
{
    let at2 = choose|a: Seq<int>| #[trigger] read_at_positions(ev, k, a, ys, name, f)
        && (a.len() > 0
        ==> a.last() < j);
    lemma_read_append(ev, lo, at, xs, at2, ys, name, f, k);
    at + at2
}

/// A callee that appended, to a list whose entries from `n0` on were read
/// at positions `at`, values read in order from `[k, j)`: the positions of
/// all the entries from `n0` on come back.
pub proof fn lemma_read_extend_mut<T>(
    ev: Seq<XmlEvent>,
    lo: int,
    at: Seq<int>,
    before: Seq<T>,
    after: Seq<T>,
    n0: int,
    name: Seq<char>,
    f: spec_fn(XmlTag, T) -> bool,
    k: int,
    j: int,
) -> (all: Seq<int>)
    requires
        0 <= n0 <= before.len(),
        read_at_positions(ev, lo, at, before.skip(n0), name, f),
        at.len() > 0 ==> at.last() < k,
        after.len() >= before.len(),
        after.subrange(0, before.len() as int) == before,
        read_in_order(ev, k, j, after.skip(before.len() as int), name, f),
        lo <= k <= j,
    ensures
        read_at_positions(ev, lo, all, after.skip(n0), name, f),
        all.len() > 0 ==> all.last() < j,
{
    assert(after.skip(n0) =~= before.skip(n0) + after.skip(before.len() as int));
    lemma_read_extend(ev, lo, at, before.skip(n0), name, f, k, j, after.skip(before.len() as int))
}

/// A value read from the tag at `k`, past every earlier position, extends
/// the positions.
pub proof fn lemma_read_push<T>(
    ev: Seq<XmlEvent>,
    lo: int,
    at: Seq<int>,
    xs: Seq<T>,
    name: Seq<char>,
    f: spec_fn(XmlTag, T) -> bool,
    k: int,
    x: T,
)
    requires
        read_at_positions(ev, lo, at, xs, name, f),
        at.len() > 0 ==> at.last() < k,
        lo <= k,
        tag_gives(ev, k, name, x, f),
    ensures
        read_at_positions(ev, lo, at.push(k), xs.push(x), name, f),
{
    assert forall|a: int| 0 <= a < at.push(k).len() implies lo <= #[trigger] at.push(k)[a] && tag_gives(
        ev,
        at.push(k)[a],
        name,
        xs.push(x)[a],
        f,
    ) by {
        if a < at.len() {
            assert(at.push(k)[a] == at[a]);
            assert(xs.push(x)[a] == xs[a]);
        }
    }
    assert forall|a: int, b: int| 0 <= a < b < at.push(k).len() implies at.push(k)[a] < at.push(k)[b] by {
        if b < at.len() {
            assert(at[a] < at[b]);
        } else if at.len() > 0 {
            assert(at[a] <= at.last());
        }
    }
}

/// Values read after all the earlier ones extend them.
pub proof fn lemma_read_append<T>(
    ev: Seq<XmlEvent>,
    lo: int,
    at: Seq<int>,
    xs: Seq<T>,
    at2: Seq<int>,
    ys: Seq<T>,
    name: Seq<char>,
    f: spec_fn(XmlTag, T) -> bool,
    k: int,
)
    requires
        read_at_positions(ev, lo, at, xs, name, f),
        at.len() > 0 ==> at.last() < k,
        read_at_positions(ev, k, at2, ys, name, f),
        lo <= k,
    ensures
        read_at_positions(ev, lo, at + at2, xs + ys, name, f),
        at2.len() > 0 ==> (at + at2).last() == at2.last(),
        at2.len() == 0 && at.len() > 0 ==> (at + at2).last() == at.last(),
{
    let c = at + at2;
    let zs = xs + ys;
    assert forall|a: int| 0 <= a < c.len() implies lo <= #[trigger] c[a] && tag_gives(ev, c[a], name, zs[a], f) by {
        if a < at.len() {
            assert(c[a] == at[a] && zs[a] == xs[a]);
        } else {
            assert(c[a] == at2[a - at.len()] && zs[a] == ys[a - at.len()]);
        }
    }
    assert forall|a: int, b: int| 0 <= a < b < c.len() implies c[a] < c[b] by {
        if b < at.len() {
            assert(c[a] == at[a] && c[b] == at[b]);
        } else if a >= at.len() {
            assert(c[a] == at2[a - at.len()] && c[b] == at2[b - at.len()]);
        } else {
            assert(c[a] == at[a] && at[a] <= at.last());
            assert(c[b] == at2[b - at.len()]);
        }
    }
}

/// Whether reading at `i` yields the end of the document.
pub fn end_at(ev: &Vec<XmlEvent>, i: usize) -> (r: bool)
    ensures
        r == at_end(ev@, i as int),
        ev@.len() <= usize::MAX,
{
    if i >= ev.len() {
        true
    } else {
        match &ev[i] {
            XmlEvent::Eof => true,
            _ => false,
        }
    }
}

/// Read and ignore one event.
pub fn skip_one(ev: &Vec<XmlEvent>, i: usize) -> (j: usize)
    requires
        i <= ev@.len(),
    ensures
        j == after_one(ev@, i as int),
        i <= j <= ev@.len(),
{
    if end_at(ev, i) {
        i
    } else {
        i + 1
    }
}

/// The error for a document that ends inside an element.
pub fn unexpected_end() -> (e: PmmlError)
    ensures
        is_unexpected_end(e),
{
    PmmlError::ParseError {
        context: string_from("xml"),
        message: string_from("unexpected end of document"),
    }
}

/// The error for an end tag that closes more than was opened.
pub fn unbalanced() -> (e: PmmlError)
    ensures
        is_unbalanced(e),
{
    PmmlError::ParseError { context: string_from("xml"), message: string_from("unbalanced end tag") }
}

/// Whether `e` is an end tag named `name`.
pub fn end_named(e: &XmlEvent, name: &str) -> (r: bool)
    ensures
        r == is_end_named(*e, name@),
{
    match e {
        XmlEvent::End(n) => name_is(n, name),
        _ => false,
    }
}

/// Skip the rest of an element named `tag` whose start tag was just read
/// (at position `i - 1`):
/// every start tag opens one more level, every end tag closes one, and the
/// element ends at an end tag named `tag` that closes the last level. At the
/// end of the document the skip stops when `stop_at_end` holds and fails
/// otherwise.
pub fn skip_element(ev: &Vec<XmlEvent>, i: usize, tag: &str, stop_at_end: bool) -> (r: Result<
    usize,
    PmmlError,
>)
    requires
        0 < i <= ev@.len(),
    ensures
        match r {
            Ok(j) => i <= j <= ev@.len() && ((stop_at_end && at_end(ev@, j as int)) || (i < j
                && is_end_named(ev@[j - 1], tag@))),
            Err(e) => is_unexpected_end(e) || is_unbalanced(e),
        },
        flat(ev@, i as int, tag@) ==> r is Ok,
        nested_element(ev@, i as int) && start_named_at(ev@, i - 1, tag@) ==> r == Ok::<usize, PmmlError>(
            (closing(ev@, i - 1) + 1) as usize,
        ),
{
    proof {
        if nested_element(ev@, i as int) {
            lemma_closing(ev@, i - 1);
            assert(depth_at(ev@, i as int) == depth_at(ev@, i - 1) + depth_step(ev@[i - 1]));
        }
    }
    let mut depth: usize = 1;
    let ghost q: int = if flat(ev@, i as int, tag@) {
        choose|q: int| flat_until(ev@, i as int, q, tag@)
    } else {
        0
    };
    let mut k = i;
    loop
        invariant
            0 < i <= k <= ev@.len(),
            depth <= k - i + 1,
            flat(ev@, i as int, tag@) ==> flat_until(ev@, i as int, q, tag@) && k <= q && depth == 1,
            nested_element(ev@, i as int) && start_named_at(ev@, i - 1, tag@) ==> k <= closing(ev@, i - 1)
                && closes_at(ev@, i - 1, closing(ev@, i - 1)) && depth == depth_at(ev@, k as int) - depth_at(
                ev@,
                i - 1,
            ),
        decreases ev@.len() - k,
    {
        proof {
            if flat(ev@, i as int, tag@) && k < q {
                assert(plain_event(ev@[k as int], tag@));
                assert(!(ev@[k as int] is End));
            }
            if nested_element(ev@, i as int) && start_named_at(ev@, i - 1, tag@) {
                assert(depth_at(ev@, k as int) > depth_at(ev@, i - 1));
                assert(depth_at(ev@, k + 1) == depth_at(ev@, k as int) + depth_step(ev@[k as int]));
                assert(!(ev@[k as int] is Eof));
                if depth_at(ev@, k + 1) == depth_at(ev@, i - 1) {
                    if k < closing(ev@, i - 1) {
                        assert(depth_at(ev@, k + 1) > depth_at(ev@, i - 1));
                    }
                }
            }
        }
        if end_at(ev, k) {
            if stop_at_end {
                return Ok(k);
            }
            return Err(unexpected_end());
        }
        match &ev[k] {
            XmlEvent::Start(_) => {
                depth = depth + 1;
            },
            XmlEvent::End(n) => {
                if depth == 0 {
                    return Err(unbalanced());
                }
                depth = depth - 1;
                if depth == 0 && name_is(n, tag) {
                    return Ok(k + 1);
                }
            },
            _ => {},
        }
        k = k + 1;
    }
}

/// Skip the rest of an element named `tag` whose start tag was just read
/// (at position `i - 1`),
/// counting only start and end tags named `tag`; the skip also stops at the
/// end of the document.
pub fn skip_same_named(ev: &Vec<XmlEvent>, i: usize, tag: &str) -> (j: usize)
    requires
        0 < i <= ev@.len(),
    ensures
        i <= j <= ev@.len(),
        at_end(ev@, j as int) || (i < j && is_end_named(ev@[j - 1], tag@)),
{
    let mut depth: usize = 1;
    let mut k = i;
    loop
        invariant
            0 < i <= k <= ev@.len(),
            1 <= depth <= k - i + 1,
        decreases ev@.len() - k,
    {
        if end_at(ev, k) {
            return k;
        }
        match &ev[k] {
            XmlEvent::Start(t) => {
                if name_is(&t.name, tag) {
                    depth = depth + 1;
                }
            },
            XmlEvent::End(n) => {
                if name_is(n, tag) {
                    depth = depth - 1;
                    if depth == 0 {
                        return k + 1;
                    }
                }
            },
            _ => {},
        }
        k = k + 1;
    }
}

/// Read events until an end tag named `name` (inclusive). At the end of the
/// document reading stops when `stop_at_end` holds and fails otherwise.
pub fn skip_to_end_tag(ev: &Vec<XmlEvent>, i: usize, name: &str, stop_at_end: bool) -> (r: Result<
    usize,
    PmmlError,
>)
    requires
        i <= ev@.len(),
    ensures
        match r {
            Ok(j) => i <= j <= ev@.len() && ((stop_at_end && at_end(ev@, j as int)) || (i < j
                && is_end_named(ev@[j - 1], name@))) && forall|t: int|
                i <= t < j && #[trigger] is_end_named(ev@[t], name@) ==> t == j - 1,
            Err(e) => !stop_at_end && is_unexpected_end(e),
        },
        (exists|t: int|
            i <= t < ev@.len() && #[trigger] is_end_named(ev@[t], name@) && forall|u: int|
                i <= u <= t ==> !(#[trigger] ev@[u] is Eof)) ==> r is Ok,
{
    let mut k = i;
    loop
        invariant
            i <= k <= ev@.len(),
            forall|t: int| i <= t < k ==> !#[trigger] is_end_named(ev@[t], name@),
        decreases ev@.len() - k,
    {
        if end_at(ev, k) {
            if stop_at_end {
                return Ok(k);
            }
            return Err(unexpected_end());
        }
        if end_named(&ev[k], name) {
            return Ok(k + 1);
        }
        k = k + 1;
    }
}


/// Whether `pa` is the last event accepted by `is_tag` that reading reached
/// in `[lo, hi)`, or `-1` when it reached none: reading passed over nothing
/// but the spans `spans`, each the content of an element whose tag `opens`
/// accepts, and every event that `is_tag` accepts after `pa` lies inside one
/// of them.
pub open spec fn last_tag_reached(
    ev: Seq<XmlEvent>,
    lo: int,
    hi: int,
    spans: Seq<(int, int)>,
    pa: int,
    is_tag: spec_fn(XmlEvent) -> bool,
    opens: spec_fn(XmlEvent) -> bool,
) -> bool {
    &&& spans_ok(ev, spans, lo, hi)
    &&& forall|x: int| 0 <= x < spans.len() ==> opens(ev[#[trigger] spans[x].0])
    &&& pa == -1 || (lo <= pa < hi && is_tag(ev[pa]) && !in_span(spans, pa))
    &&& forall|p: int| lo <= p < hi && pa < p && is_tag(#[trigger] ev[p]) ==> in_span(spans, p)
}

/// Reading has reached nothing before it starts.
pub proof fn lemma_last_tag_start(
    ev: Seq<XmlEvent>,
    lo: int,
    is_tag: spec_fn(XmlEvent) -> bool,
    opens: spec_fn(XmlEvent) -> bool,
)
    ensures
        last_tag_reached(ev, lo, lo, Seq::empty(), -1, is_tag, opens),
{
}

/// One step of a reading loop from `here` to `next`: the event at `here`
/// becomes the last one reached when `is_tag` accepts it, and the events
/// between were passed over as the content of an element that `opens`
/// accepts.
pub proof fn lemma_last_tag_step(
    ev: Seq<XmlEvent>,
    lo: int,
    here: int,
    next: int,
    spans: Seq<(int, int)>,
    pa: int,
    pa2: int,
    is_tag: spec_fn(XmlEvent) -> bool,
    opens: spec_fn(XmlEvent) -> bool,
)
    requires
        lo <= here < next <= ev.len(),
        last_tag_reached(ev, lo, here, spans, pa, is_tag, opens),
        is_tag(ev[here]) ==> pa2 == here,
        !is_tag(ev[here]) ==> pa2 == pa,
        next > here + 1 ==> nested_span(ev, here, next) && opens(ev[here]),
    ensures
        last_tag_reached(ev, lo, next, span_step(spans, here, next), pa2, is_tag, opens),
{
    let sp = span_step(spans, here, next);
    assert forall|x: int| 0 <= x < sp.len() implies lo <= #[trigger] sp[x].0 && sp[x].1 <= next && nested_span(ev, sp[x].0, sp[x].1) by {
        if x < spans.len() {
            assert(sp[x] == spans[x]);
        }
    }
    assert forall|x: int| 0 <= x < sp.len() implies opens(ev[#[trigger] sp[x].0]) by {
        if x < spans.len() {
            assert(sp[x] == spans[x]);
        }
    }
    assert forall|p: int| lo <= p < next && pa2 < p && is_tag(#[trigger] ev[p]) implies in_span(sp, p) by {
        if p < here {
            let x = choose|x: int| 0 <= x < spans.len() && #[trigger] spans[x].0 < p < spans[x].1;
            assert(sp[x] == spans[x]);
            assert(sp[x].0 < p < sp[x].1);
        } else if p > here {
            assert(sp[spans.len() as int] == (here, next));
            assert(sp[spans.len() as int].0 < p < sp[spans.len() as int].1);
        }
    }
    if pa2 != -1 {
        if in_span(sp, pa2) {
            let x = choose|x: int| 0 <= x < sp.len() && #[trigger] sp[x].0 < pa2 < sp[x].1;
            if x < spans.len() {
                assert(sp[x] == spans[x]);
                if pa2 == pa {
                    assert(in_span(spans, pa));
                }
            }
        }
    }
}


/// Whether every event in `[lo, hi)` that `is_tag` accepts and that reading
/// reached is one of the positions `at`: reading passed over nothing but the
/// spans `spans`, each the content of an element whose tag `opens` accepts.
pub open spec fn tags_covered(
    ev: Seq<XmlEvent>,
    lo: int,
    hi: int,
    at: Seq<int>,
    spans: Seq<(int, int)>,
    is_tag: spec_fn(XmlEvent) -> bool,
    opens: spec_fn(XmlEvent) -> bool,
) -> bool {
    &&& spans_ok(ev, spans, lo, hi)
    &&& forall|x: int| 0 <= x < spans.len() ==> opens(ev[#[trigger] spans[x].0])
    &&& forall|p: int| lo <= p < hi && is_tag(#[trigger] ev[p]) && !in_span(spans, p) ==> at.contains(p)
}

/// One step of a reading loop from `here` to `next`: the event at `here` was
/// recorded when `is_tag` accepts it, and the events between were passed
/// over as the content of an element that `opens` accepts.
pub proof fn lemma_tags_covered_step(
    ev: Seq<XmlEvent>,
    lo: int,
    here: int,
    next: int,
    at: Seq<int>,
    at2: Seq<int>,
    spans: Seq<(int, int)>,
    is_tag: spec_fn(XmlEvent) -> bool,
    opens: spec_fn(XmlEvent) -> bool,
)
    requires
        lo <= here < next <= ev.len(),
        tags_covered(ev, lo, here, at, spans, is_tag, opens),
        at2 == at || at2 == at.push(here),
        is_tag(ev[here]) ==> at2 == at.push(here),
        next > here + 1 ==> nested_span(ev, here, next) && opens(ev[here]),
    ensures
        tags_covered(ev, lo, next, at2, span_step(spans, here, next), is_tag, opens),
{
    let sp = span_step(spans, here, next);
    assert forall|x: int| 0 <= x < sp.len() implies lo <= #[trigger] sp[x].0 && sp[x].1 <= next && nested_span(ev, sp[x].0, sp[x].1) by {
        if x < spans.len() {
            assert(sp[x] == spans[x]);
        }
    }
    assert forall|x: int| 0 <= x < sp.len() implies opens(ev[#[trigger] sp[x].0]) by {
        if x < spans.len() {
            assert(sp[x] == spans[x]);
        }
    }
    assert forall|p: int| lo <= p < next && is_tag(#[trigger] ev[p]) && !in_span(sp, p) implies at2.contains(p) by {
        if p < here {
            if !in_span(spans, p) {
                assert(at.contains(p));
                let x = choose|x: int| 0 <= x < at.len() && at[x] == p;
                assert(at2[x] == p);
            } else {
                let x = choose|x: int| 0 <= x < spans.len() && #[trigger] spans[x].0 < p < spans[x].1;
                assert(sp[x] == spans[x]);
                assert(sp[x].0 < p < sp[x].1);
            }
        } else if p == here {
            assert(at2[at.len() as int] == here);
        } else {
            assert(sp[spans.len() as int] == (here, next));
            assert(sp[spans.len() as int].0 < p < sp[spans.len() as int].1);
        }
    }
}


/// A tag that `is_tag` accepts, with no tag that `opens` accepts before it
/// and none that `is_tag` accepts after it in `[lo, hi)`, is the last one
/// reached.
pub proof fn lemma_last_tag_is(
    ev: Seq<XmlEvent>,
    lo: int,
    hi: int,
    spans: Seq<(int, int)>,
    pa: int,
    is_tag: spec_fn(XmlEvent) -> bool,
    opens: spec_fn(XmlEvent) -> bool,
    p: int,
)
    requires
        last_tag_reached(ev, lo, hi, spans, pa, is_tag, opens),
        0 <= lo <= p < hi <= ev.len(),
        is_tag(ev[p]),
        forall|q: int| lo <= q < p ==> !opens(#[trigger] ev[q]),
        forall|q: int| p < q < hi ==> !is_tag(#[trigger] ev[q]),
    ensures
        pa == p,
{
    if in_span(spans, p) {
        let x = choose|x: int| 0 <= x < spans.len() && #[trigger] spans[x].0 < p < spans[x].1;
        assert(lo <= spans[x].0);
        assert(opens(ev[spans[x].0]));
    }
    if pa < p {
        assert(in_span(spans, p));
    }
    if pa > p {
        assert(!is_tag(ev[pa]));
    }
}

/// When no tag that `is_tag` accepts was reached, none stands in
/// `[lo, hi)`, provided every tag whose content reading may pass over is one
/// that `is_tag` accepts.
pub proof fn lemma_nothing_reached(
    ev: Seq<XmlEvent>,
    lo: int,
    hi: int,
    spans: Seq<(int, int)>,
    is_tag: spec_fn(XmlEvent) -> bool,
    opens: spec_fn(XmlEvent) -> bool,
    p: int,
)
    requires
        last_tag_reached(ev, lo, hi, spans, -1, is_tag, opens),
        forall|e: XmlEvent| #[trigger] opens(e) ==> is_tag(e),
        0 <= lo <= p < hi <= ev.len(),
    ensures
        !is_tag(ev[p]),
    decreases p - lo,
{
    if is_tag(ev[p]) {
        assert(in_span(spans, p));
        let x = choose|x: int| 0 <= x < spans.len() && #[trigger] spans[x].0 < p < spans[x].1;
        let s = spans[x].0;
        assert(lo <= s);
        assert(opens(ev[s]));
        lemma_nothing_reached(ev, lo, hi, spans, is_tag, opens, s);
    }
}

} // verus!
