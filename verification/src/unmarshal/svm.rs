//! `SupportVectorMachineModel`: the vector dictionary, the machine's support
//! vectors and coefficients, and the radial-basis kernel parameter.

use vstd::prelude::*;
use crate::unmarshal::cursor::{start_named_at};
use crate::unmarshal::nesting::{model_readable, attrs_complete};
use crate::unmarshal::nesting::{closing, closes_at, lemma_nested_step, lemma_closing};
use crate::error::PmmlError;
use crate::strings::{split_whitespace, parse_usize, string_from, push_decimal, decimal};
use crate::xml::{XmlEvent, XmlTag, attr, attr_required, tag_attr, opt_view, is_missing_attr, name_is};
use crate::unmarshal::raw::{
    RawSupportVectorMachineModel, RawVectorField, RawVectorInstance, RawSparseArray,
    RawSupportVectorMachine, RawSupportVector, RawCoefficient, RawMiningField, RawDerivedField,
};
use crate::unmarshal::clustering::{attr_usize, opt_usize};
use crate::unmarshal::common::{parse_mining_schema, parse_words, mining_field_tag, ListEntry, entry_tag, parse_list};
use crate::unmarshal::expr::{parse_local_transformations, derived_field_tag};
use crate::unmarshal::cursor::{
    element_named, tags_carry,
    spans_ok, covers_level, read_each_reached, lemma_covers_level_step, span_step, lemma_read_each_reached,
    end_at, skip_one, unexpected_end, stops_after_tag, is_end_named, stops_at_end_or_tag, at_end, read_at_positions, read_in_order, lemma_read_extend, lemma_read_in_order, lemma_read_push, lemma_read_extend_mut, lemma_read_widen, lemma_read_one, read_all_in_order, covers_entries, lemma_covers_step, lemma_covers_skip, childless, plain_until, plain_event,
};

verus! {

/// The indices (the words that are `usize` numbers) of the texts inside an
/// `Indices` whose start tag was just read, appended in order.
fn parse_indices(ev: &Vec<XmlEvent>, i: usize, indices: &mut Vec<usize>) -> (r: Result<usize, PmmlError>)
    requires
        i <= ev@.len(),
    ensures
        r matches Ok(j) ==> stops_after_tag(ev@, i as int, j as int, "Indices"@),
        childless(ev@, i as int, "Indices"@) ==> r is Ok,
        element_named(ev@, i as int, "Indices"@) ==> (r matches Ok(j) && j <= closing(ev@, i - 1) + 1),
{
    let ghost q: int = if childless(ev@, i as int, "Indices"@) {
        choose|q: int| plain_until(ev@, i as int, q, "Indices"@)
    } else {
        0
    };
    let mut k = i;
    proof {
        if element_named(ev@, i as int, "Indices"@) {
            lemma_closing(ev@, i - 1);
        }
    }
    loop
        invariant_except_break
            element_named(ev@, i as int, "Indices"@) ==> k <= closing(ev@, i - 1) && closes_at(ev@, i - 1, closing(ev@, i - 1)),
            i <= k <= ev@.len(),
            childless(ev@, i as int, "Indices"@) ==> plain_until(ev@, i as int, q, "Indices"@) && k <= q,
        ensures
            element_named(ev@, i as int, "Indices"@) ==> k <= closing(ev@, i - 1) + 1,
            i <= k <= ev@.len(),
        decreases ev@.len() - k,
    {
        proof {
            if childless(ev@, i as int, "Indices"@) && k < q {
                assert(plain_event(ev@[k as int], "Indices"@));
            }
        }
        proof {
            if element_named(ev@, i as int, "Indices"@) {
                lemma_nested_step(ev@, i as int, k as int);
            }
        }
        if end_at(ev, k) {
            return Err(unexpected_end());
        }
        match &ev[k] {
            XmlEvent::Text(t) => {
                let parts = match t {
                    Some(s) => split_whitespace(s.as_str()),
                    None => Vec::new(),
                };
                let mut p: usize = 0;
                while p < parts.len()
                    invariant
                        p <= parts@.len(),
                    decreases parts@.len() - p,
                {
                    match parse_usize(parts[p].as_str()) {
                        Some(x) => indices.push(x),
                        None => {},
                    }
                    p = p + 1;
                }
            },
            XmlEvent::End(n) => {
                if name_is(n, "Indices") {
                    return Ok(k + 1);
                }
            },
            _ => {},
        }
        k = k + 1;
    }
}

/// A `REAL-SparseArray` whose start tag `start` was just read: its length
/// `n`, indices and entry words.
fn parse_sparse_array(ev: &Vec<XmlEvent>, i: usize, start: &XmlTag) -> (r: Result<(RawSparseArray, usize), PmmlError>)
    requires
        i <= ev@.len(),
    ensures
        r matches Ok((s, j)) ==> stops_after_tag(ev@, i as int, j as int, "REAL-SparseArray"@)
            && s.n == opt_usize(tag_attr(*start, "n"@)),
        childless(ev@, i as int, "REAL-SparseArray"@) ==> r is Ok,
        element_named(ev@, i as int, "REAL-SparseArray"@) ==> (r matches Ok((_, j)) && j <= closing(ev@, i - 1) + 1),
{
    let n = attr_usize(start, "n");
    let mut indices: Vec<usize> = Vec::new();
    let mut entries: Vec<String> = Vec::new();
    let ghost q: int = if childless(ev@, i as int, "REAL-SparseArray"@) {
        choose|q: int| plain_until(ev@, i as int, q, "REAL-SparseArray"@)
    } else {
        0
    };
    let mut k = i;
    proof {
        if element_named(ev@, i as int, "REAL-SparseArray"@) {
            lemma_closing(ev@, i - 1);
        }
    }
    loop
        invariant_except_break
            element_named(ev@, i as int, "REAL-SparseArray"@) ==> k <= closing(ev@, i - 1) && closes_at(ev@, i - 1, closing(ev@, i - 1)),
            i <= k <= ev@.len(),
            childless(ev@, i as int, "REAL-SparseArray"@) ==> plain_until(ev@, i as int, q, "REAL-SparseArray"@) && k <= q,
        ensures
            element_named(ev@, i as int, "REAL-SparseArray"@) ==> k <= closing(ev@, i - 1) + 1,
            i < k && is_end_named(ev@[k - 1], "REAL-SparseArray"@),
            i <= k <= ev@.len(),
        decreases ev@.len() - k,
    {
        proof {
            if childless(ev@, i as int, "REAL-SparseArray"@) && k < q {
                assert(plain_event(ev@[k as int], "REAL-SparseArray"@));
            }
        }
        proof {
            if element_named(ev@, i as int, "REAL-SparseArray"@) {
                lemma_nested_step(ev@, i as int, k as int);
            }
        }
        if end_at(ev, k) {
            return Err(unexpected_end());
        }
        match &ev[k] {
            XmlEvent::Start(t) => {
                k = k + 1;
                if name_is(&t.name, "Indices") {
                    k = parse_indices(ev, k, &mut indices)?;
                } else if name_is(&t.name, "REAL-Entries") {
                    k = parse_words(ev, k, "REAL-Entries", &mut entries)?;
                }
            },
            XmlEvent::End(n) => {
                k = k + 1;
                if name_is(n, "REAL-SparseArray") {
                    break;
                }
            },
            _ => {
                k = k + 1;
            },
        }
    }
    Ok((RawSparseArray { n, indices, entries }, k))
}

/// The identifier given to the `n`-th vector instance that has no `id`.
pub open spec fn default_vector_id(n: nat) -> Seq<char> {
    "vec"@ + decimal(n)
}

/// A `VectorInstance` whose start tag was just read, the `n`-th of its
/// dictionary: its `id` (default `vec` followed by `n`), the last sparse
/// array read and the words of the dense arrays read after it.
fn parse_vector_instance(ev: &Vec<XmlEvent>, i: usize, start: &XmlTag, n: usize) -> (r: Result<
    (RawVectorInstance, usize),
    PmmlError,
>)
    requires
        i <= ev@.len(),
    ensures
        r matches Ok((v, j)) ==> stops_after_tag(ev@, i as int, j as int, "VectorInstance"@)
            && v.id@ == (match tag_attr(
            *start,
            "id"@,
        ) {
            Some(s) => s,
            None => default_vector_id(n as nat),
        }),
        childless(ev@, i as int, "VectorInstance"@) ==> r is Ok,
        element_named(ev@, i as int, "VectorInstance"@) ==> (r matches Ok((_, j)) && j <= closing(ev@, i - 1) + 1),
{
    let id = match attr(start, "id") {
        Some(s) => s,
        None => {
            let mut s = string_from("vec");
            push_decimal(&mut s, n);
            s
        },
    };
    let mut sparse: Option<RawSparseArray> = None;
    let mut array: Vec<String> = Vec::new();
    let ghost q: int = if childless(ev@, i as int, "VectorInstance"@) {
        choose|q: int| plain_until(ev@, i as int, q, "VectorInstance"@)
    } else {
        0
    };
    let mut k = i;
    proof {
        if element_named(ev@, i as int, "VectorInstance"@) {
            lemma_closing(ev@, i - 1);
        }
    }
    loop
        invariant_except_break
            element_named(ev@, i as int, "VectorInstance"@) ==> k <= closing(ev@, i - 1) && closes_at(ev@, i - 1, closing(ev@, i - 1)),
            i <= k <= ev@.len(),
            childless(ev@, i as int, "VectorInstance"@) ==> plain_until(ev@, i as int, q, "VectorInstance"@) && k <= q,
        ensures
            element_named(ev@, i as int, "VectorInstance"@) ==> k <= closing(ev@, i - 1) + 1,
            i < k && is_end_named(ev@[k - 1], "VectorInstance"@),
            i <= k <= ev@.len(),
        decreases ev@.len() - k,
    {
        proof {
            if childless(ev@, i as int, "VectorInstance"@) && k < q {
                assert(plain_event(ev@[k as int], "VectorInstance"@));
            }
        }
        proof {
            if element_named(ev@, i as int, "VectorInstance"@) {
                lemma_nested_step(ev@, i as int, k as int);
            }
        }
        if end_at(ev, k) {
            return Err(unexpected_end());
        }
        match &ev[k] {
            XmlEvent::Start(t) => {
                k = k + 1;
                if name_is(&t.name, "REAL-SparseArray") {
                    let (s, j) = parse_sparse_array(ev, k, t)?;
                    sparse = Some(s);
                    array = Vec::new();
                    k = j;
                } else if name_is(&t.name, "Array") {
                    k = parse_words(ev, k, "Array", &mut array)?;
                }
            },
            XmlEvent::End(n) => {
                k = k + 1;
                if name_is(n, "VectorInstance") {
                    break;
                }
            },
            _ => {
                k = k + 1;
            },
        }
    }
    Ok((RawVectorInstance { id, sparse, array }, k))
}

/// How a vector field is read from its `FieldRef` tag: its `field`.
pub open spec fn vector_field_tag() -> spec_fn(XmlTag, RawVectorField) -> bool {
    |t: XmlTag, f: RawVectorField| tag_attr(t, "field"@) == Some(f.field@)
}

/// How a vector instance is read from its tag: its `id`, when the tag has
/// one.
pub open spec fn vector_instance_tag() -> spec_fn(XmlTag, RawVectorInstance) -> bool {
    |t: XmlTag, v: RawVectorInstance| tag_attr(t, "id"@) matches Some(s) ==> v.id@ == s
}

/// The `FieldRef` fields of a `VectorFields` whose start tag was just read.
fn parse_vector_fields(ev: &Vec<XmlEvent>, i: usize, fields: &mut Vec<RawVectorField>) -> (r: Result<
    usize,
    PmmlError,
>)
    requires
        i <= ev@.len(),
    ensures
        r matches Ok(j) ==> final(fields)@.len() >= old(fields)@.len()
            && final(fields)@.subrange(0, old(fields)@.len() as int) == old(fields)@
            && read_in_order(ev@, i as int, j as int, final(fields)@.skip(old(fields)@.len() as int), "FieldRef"@, vector_field_tag())
            && read_all_in_order(ev@, i as int, j as int, final(fields)@.skip(old(fields)@.len() as int), "FieldRef"@, vector_field_tag())
            && stops_after_tag(ev@, i as int, j as int, "VectorFields"@),
        childless(ev@, i as int, "VectorFields"@) ==> r is Ok,
        element_named(ev@, i as int, "VectorFields"@) && attrs_complete(ev@, i as int) ==> (r matches Ok(j) && j <= closing(ev@, i - 1) + 1),
{
    let ghost mut fields_at: Seq<int> = Seq::empty();
    let ghost q: int = if childless(ev@, i as int, "VectorFields"@) {
        choose|q: int| plain_until(ev@, i as int, q, "VectorFields"@)
    } else {
        0
    };
    let mut k = i;
    proof {
        if element_named(ev@, i as int, "VectorFields"@) {
            lemma_closing(ev@, i - 1);
        }
    }
    loop
        invariant_except_break
            element_named(ev@, i as int, "VectorFields"@) && attrs_complete(ev@, i as int) ==> k <= closing(ev@, i - 1) && closes_at(ev@, i - 1, closing(ev@, i - 1)),
            i <= k <= ev@.len(),
            fields@.len() >= old(fields)@.len(),
            fields@.subrange(0, old(fields)@.len() as int) == old(fields)@,
            read_at_positions(ev@, i as int, fields_at, fields@.skip(old(fields)@.len() as int), "FieldRef"@, vector_field_tag()),
            fields_at.len() > 0 ==> fields_at.last() < k,
            covers_entries(ev@, i as int, k as int, fields_at, "FieldRef"@),
            childless(ev@, i as int, "VectorFields"@) ==> plain_until(ev@, i as int, q, "VectorFields"@) && k <= q,
        ensures
            element_named(ev@, i as int, "VectorFields"@) && attrs_complete(ev@, i as int) ==> k <= closing(ev@, i - 1) + 1,
            i < k && is_end_named(ev@[k - 1], "VectorFields"@),
            fields@.len() >= old(fields)@.len(),
            fields@.subrange(0, old(fields)@.len() as int) == old(fields)@,
            read_at_positions(ev@, i as int, fields_at, fields@.skip(old(fields)@.len() as int), "FieldRef"@, vector_field_tag()),
            fields_at.len() > 0 ==> fields_at.last() < k,
            covers_entries(ev@, i as int, k as int, fields_at, "FieldRef"@),
            i <= k <= ev@.len(),
        decreases ev@.len() - k,
    {
        proof {
            if childless(ev@, i as int, "VectorFields"@) && k < q {
                assert(plain_event(ev@[k as int], "VectorFields"@));
            }
        }
        proof {
            if element_named(ev@, i as int, "VectorFields"@) && attrs_complete(ev@, i as int) {
                lemma_nested_step(ev@, i as int, k as int);
            }
        }
        if end_at(ev, k) {
            return Err(unexpected_end());
        }
        let ghost here = k as int;
        match &ev[k] {
            XmlEvent::Start(t) => {
                k = k + 1;
                if name_is(&t.name, "FieldRef") {
                    let field = attr_required(t, "field", "FieldRef")?;
                    let item = RawVectorField { field };
                    proof {
                        lemma_read_push(ev@, i as int, fields_at, fields@.skip(old(fields)@.len() as int), "FieldRef"@, vector_field_tag(), here, item);
                        lemma_covers_step(ev@, i as int, here, fields_at, "FieldRef"@, true);
                        fields_at = fields_at.push(here);
                    }
                    let ghost before = fields@;
                    fields.push(item);
                    proof {
                        assert(fields@.skip(old(fields)@.len() as int) =~= before.skip(old(fields)@.len() as int).push(item));
                        assert(fields@.subrange(0, old(fields)@.len() as int) =~= before.subrange(0, old(fields)@.len() as int));
                    }
                    if !end_at(ev, k) {
                        proof {
                            lemma_covers_skip(ev@, i as int, k as int, fields_at, "FieldRef"@);
                        }
                    }
                    k = skip_one(ev, k);
                } else {
                    proof {
                        lemma_covers_skip(ev@, i as int, here, fields_at, "FieldRef"@);
                    }
                }
            },
            XmlEvent::Empty(t) => {
                k = k + 1;
                if name_is(&t.name, "FieldRef") {
                    let field = attr_required(t, "field", "FieldRef")?;
                    let item = RawVectorField { field };
                    proof {
                        lemma_read_push(ev@, i as int, fields_at, fields@.skip(old(fields)@.len() as int), "FieldRef"@, vector_field_tag(), here, item);
                        lemma_covers_step(ev@, i as int, here, fields_at, "FieldRef"@, true);
                        fields_at = fields_at.push(here);
                    }
                    let ghost before = fields@;
                    fields.push(item);
                    proof {
                        assert(fields@.skip(old(fields)@.len() as int) =~= before.skip(old(fields)@.len() as int).push(item));
                        assert(fields@.subrange(0, old(fields)@.len() as int) =~= before.subrange(0, old(fields)@.len() as int));
                    }
                } else {
                    proof {
                        lemma_covers_skip(ev@, i as int, here, fields_at, "FieldRef"@);
                    }
                }
            },
            XmlEvent::End(n) => {
                proof {
                    lemma_covers_skip(ev@, i as int, here, fields_at, "FieldRef"@);
                }
                k = k + 1;
                if name_is(n, "VectorFields") {
                    break;
                }
            },
            _ => {
                proof {
                    lemma_covers_skip(ev@, i as int, here, fields_at, "FieldRef"@);
                }
                k = k + 1;
            },
        }
    }
    proof {
        lemma_read_in_order(ev@, i as int, k as int, fields_at, fields@.skip(old(fields)@.len() as int), "FieldRef"@, vector_field_tag());
        assert(read_at_positions(ev@, i as int, fields_at, fields@.skip(old(fields)@.len() as int), "FieldRef"@, vector_field_tag()) && (fields_at.len() > 0 ==> fields_at.last() < k)
            && covers_entries(ev@, i as int, k as int, fields_at, "FieldRef"@));
    }
    Ok(k)
}

/// A `VectorDictionary` whose start tag was just read: its vector fields and
/// vector instances, appended in order.
fn parse_vector_dictionary(
    ev: &Vec<XmlEvent>,
    i: usize,
    fields: &mut Vec<RawVectorField>,
    instances: &mut Vec<RawVectorInstance>,
) -> (r: Result<usize, PmmlError>)
    requires
        i <= ev@.len(),
    ensures
        r matches Ok(j) ==> read_each_reached(ev@, i as int, j as int, final(instances)@.skip(old(instances)@.len() as int), "VectorInstance"@, vector_instance_tag())
                && final(instances)@.len() >= old(instances)@.len()
            && final(instances)@.subrange(0, old(instances)@.len() as int) == old(instances)@
            && read_in_order(ev@, i as int, j as int, final(instances)@.skip(old(instances)@.len() as int), "VectorInstance"@, vector_instance_tag())
            && final(fields)@.len() >= old(fields)@.len()
            && final(fields)@.subrange(0, old(fields)@.len() as int) == old(fields)@
            && read_in_order(ev@, i as int, j as int, final(fields)@.skip(old(fields)@.len() as int), "FieldRef"@, vector_field_tag())
            && stops_after_tag(ev@, i as int, j as int, "VectorDictionary"@),
        childless(ev@, i as int, "VectorDictionary"@) ==> r is Ok,
        element_named(ev@, i as int, "VectorDictionary"@) && attrs_complete(ev@, i as int) ==> (r matches Ok(j) && j <= closing(ev@, i - 1) + 1),
{
    let ghost mut fields_at: Seq<int> = Seq::empty();
    let ghost mut instances_at: Seq<int> = Seq::empty();
    let ghost q: int = if childless(ev@, i as int, "VectorDictionary"@) {
        choose|q: int| plain_until(ev@, i as int, q, "VectorDictionary"@)
    } else {
        0
    };
    let ghost mut spans: Seq<(int, int)> = Seq::empty();
    let mut k = i;
    proof {
        if element_named(ev@, i as int, "VectorDictionary"@) {
            lemma_closing(ev@, i - 1);
        }
    }
    loop
        invariant_except_break
            element_named(ev@, i as int, "VectorDictionary"@) && attrs_complete(ev@, i as int) ==> k <= closing(ev@, i - 1) && closes_at(ev@, i - 1, closing(ev@, i - 1)),
            i <= k <= ev@.len(),
            spans_ok(ev@, spans, i as int, k as int),
            covers_level(ev@, i as int, k as int, instances_at, spans, "VectorInstance"@),
            fields@.len() >= old(fields)@.len(),
            fields@.subrange(0, old(fields)@.len() as int) == old(fields)@,
            read_at_positions(ev@, i as int, fields_at, fields@.skip(old(fields)@.len() as int), "FieldRef"@, vector_field_tag()),
            fields_at.len() > 0 ==> fields_at.last() < k,
            instances@.len() >= old(instances)@.len(),
            instances@.subrange(0, old(instances)@.len() as int) == old(instances)@,
            read_at_positions(ev@, i as int, instances_at, instances@.skip(old(instances)@.len() as int), "VectorInstance"@, vector_instance_tag()),
            instances_at.len() > 0 ==> instances_at.last() < k,
            childless(ev@, i as int, "VectorDictionary"@) ==> plain_until(ev@, i as int, q, "VectorDictionary"@) && k <= q,
        ensures
            element_named(ev@, i as int, "VectorDictionary"@) && attrs_complete(ev@, i as int) ==> k <= closing(ev@, i - 1) + 1,
            i < k && is_end_named(ev@[k - 1], "VectorDictionary"@),
            spans_ok(ev@, spans, i as int, k as int),
            covers_level(ev@, i as int, k as int, instances_at, spans, "VectorInstance"@),
            fields@.len() >= old(fields)@.len(),
            fields@.subrange(0, old(fields)@.len() as int) == old(fields)@,
            read_at_positions(ev@, i as int, fields_at, fields@.skip(old(fields)@.len() as int), "FieldRef"@, vector_field_tag()),
            fields_at.len() > 0 ==> fields_at.last() < k,
            instances@.len() >= old(instances)@.len(),
            instances@.subrange(0, old(instances)@.len() as int) == old(instances)@,
            read_at_positions(ev@, i as int, instances_at, instances@.skip(old(instances)@.len() as int), "VectorInstance"@, vector_instance_tag()),
            instances_at.len() > 0 ==> instances_at.last() < k,
            i <= k <= ev@.len(),
        decreases ev@.len() - k,
    {
        proof {
            if childless(ev@, i as int, "VectorDictionary"@) && k < q {
                assert(plain_event(ev@[k as int], "VectorDictionary"@));
            }
        }
        proof {
            if element_named(ev@, i as int, "VectorDictionary"@) && attrs_complete(ev@, i as int) {
                lemma_nested_step(ev@, i as int, k as int);
            }
        }
        if end_at(ev, k) {
            return Err(unexpected_end());
        }
        let ghost here = k as int;
        let ghost instances_at0 = instances_at;
        let ghost mut stepped = false;
        proof {
            reveal_strlit("VectorFields");
            reveal_strlit("VectorInstance");
            assert("VectorInstance"@ != "VectorFields"@) by { assert("VectorInstance"@.len() != "VectorFields"@.len()); }
        }
        match &ev[k] {
            XmlEvent::Start(t) => {
                k = k + 1;
                if name_is(&t.name, "VectorFields") {
                    let ghost before = fields@;
                    let j = parse_vector_fields(ev, k, fields)?;
                    proof {
                        fields_at = lemma_read_extend_mut(ev@, i as int, fields_at, before, fields@, old(fields)@.len() as int, "FieldRef"@, vector_field_tag(), k as int, j as int);
                        assert(fields@.subrange(0, old(fields)@.len() as int) =~= before.subrange(0, old(fields)@.len() as int));
                    }
                    k = j;
                } else if name_is(&t.name, "VectorInstance") {
                    let (v, j) = parse_vector_instance(ev, k, t, instances.len())?;
                    let item = v;
                    proof {
                        lemma_read_push(ev@, i as int, instances_at, instances@.skip(old(instances)@.len() as int), "VectorInstance"@, vector_instance_tag(), here, item);
                        instances_at = instances_at.push(here);
                    }
                    let ghost before = instances@;
                    instances.push(item);
                    proof {
                        assert(instances@.skip(old(instances)@.len() as int) =~= before.skip(old(instances)@.len() as int).push(item));
                        assert(instances@.subrange(0, old(instances)@.len() as int) =~= before.subrange(0, old(instances)@.len() as int));
                    }
                    k = j;
                }
            },
            XmlEvent::End(n) => {
                k = k + 1;
                proof {
                    lemma_covers_level_step(ev@, i as int, here, k as int, instances_at0, instances_at, spans, "VectorInstance"@);
                    spans = span_step(spans, here, k as int);
                    stepped = true;
                }
                if name_is(n, "VectorDictionary") {
                    break;
                }
            },
            _ => {
                k = k + 1;
            },
        }
        proof {
            if !stepped {
                lemma_covers_level_step(ev@, i as int, here, k as int, instances_at0, instances_at, spans, "VectorInstance"@);
                spans = span_step(spans, here, k as int);
            }
        }
    }
    proof {
        lemma_read_each_reached(ev@, i as int, k as int, instances_at, spans, instances@.skip(old(instances)@.len() as int), "VectorInstance"@, vector_instance_tag());
    }
    proof {
        lemma_read_in_order(ev@, i as int, k as int, fields_at, fields@.skip(old(fields)@.len() as int), "FieldRef"@, vector_field_tag());
    }
    proof {
        lemma_read_in_order(ev@, i as int, k as int, instances_at, instances@.skip(old(instances)@.len() as int), "VectorInstance"@, vector_instance_tag());
    }
    Ok(k)
}

/// Whether `v` holds the attributes of `SupportVector` tag `t`.
pub open spec fn support_vector_of(t: XmlTag, v: RawSupportVector) -> bool {
    tag_attr(t, "vectorId"@) == Some(v.vector_id@)
}

/// Whether `c` holds the attributes of `Coefficient` tag `t`.
pub open spec fn coefficient_of(t: XmlTag, c: RawCoefficient) -> bool {
    opt_view(c.value) == tag_attr(t, "value"@)
}

/// How a `SupportVector` is read from its tag.
pub open spec fn support_vector_tag() -> spec_fn(XmlTag, RawSupportVector) -> bool {
    |t: XmlTag, v: RawSupportVector| support_vector_of(t, v)
}

/// How a `Coefficient` is read from its tag.
pub open spec fn coefficient_tag() -> spec_fn(XmlTag, RawCoefficient) -> bool {
    |t: XmlTag, c: RawCoefficient| coefficient_of(t, c)
}

/// How the absolute value of a machine is read from a `Coefficients` tag.
pub open spec fn absolute_value_tag() -> spec_fn(XmlTag, String) -> bool {
    |t: XmlTag, v: String| tag_attr(t, "absoluteValue"@) == Some(v@)
}

/// How the kernel parameter is read from a `RadialBasisKernelType` tag.
pub open spec fn gamma_tag() -> spec_fn(XmlTag, String) -> bool {
    |t: XmlTag, v: String| tag_attr(t, "gamma"@) == Some(v@)
}

/// A `SupportVector`: `vectorId` is required.
impl ListEntry for RawSupportVector {
    open spec fn read_from(t: XmlTag, x: Self) -> bool {
        support_vector_of(t, x)
    }

    open spec fn has_required(t: XmlTag) -> bool {
        tag_attr(t, "vectorId"@) is Some
    }

    fn from_tag(t: &XmlTag) -> (r: Result<Self, PmmlError>) {
        let vector_id = attr_required(t, "vectorId", "SupportVector")?;
        Ok(RawSupportVector { vector_id })
    }
}

/// A `Coefficient`: its optional `value`.
impl ListEntry for RawCoefficient {
    open spec fn read_from(t: XmlTag, x: Self) -> bool {
        coefficient_of(t, x)
    }

    open spec fn has_required(t: XmlTag) -> bool {
        true
    }

    fn from_tag(t: &XmlTag) -> (r: Result<Self, PmmlError>) {
        Ok(RawCoefficient { value: attr(t, "value") })
    }
}

/// Whether the machine `s` was read from the events in `[i, j)`: its
/// support vectors and coefficients in document order, and its absolute
/// value, when present, from a `Coefficients` tag.
pub open spec fn machine_read(ev: Seq<XmlEvent>, i: int, j: int, s: RawSupportVectorMachine) -> bool {
    &&& read_in_order(ev, i, j, s.support_vectors@, "SupportVector"@, support_vector_tag())
    &&& read_in_order(ev, i, j, s.coefficients@, "Coefficient"@, coefficient_tag())
    &&& s.absolute_value matches Some(a) ==> read_in_order(ev, i, j, seq![a], "Coefficients"@, absolute_value_tag())
}

/// A machine read within `[lo, hi)` was read within any range that holds it.
proof fn lemma_machine_widen(ev: Seq<XmlEvent>, lo: int, hi: int, lo2: int, hi2: int, s: RawSupportVectorMachine)
    requires
        machine_read(ev, lo, hi, s),
        lo2 <= lo,
        hi <= hi2,
    ensures
        machine_read(ev, lo2, hi2, s),
{
    lemma_read_widen(ev, lo, hi, lo2, hi2, s.support_vectors@, "SupportVector"@, support_vector_tag());
    lemma_read_widen(ev, lo, hi, lo2, hi2, s.coefficients@, "Coefficient"@, coefficient_tag());
    if let Some(a) = s.absolute_value {
        lemma_read_widen(ev, lo, hi, lo2, hi2, seq![a], "Coefficients"@, absolute_value_tag());
    }
}

/// A `SupportVectorMachine` whose start tag was just read: its support
/// vectors, coefficients and absolute value.
fn parse_support_vector_machine(ev: &Vec<XmlEvent>, i: usize) -> (r: Result<
    (RawSupportVectorMachine, usize),
    PmmlError,
>)
    requires
        i <= ev@.len(),
    ensures
        r matches Ok((s, j)) ==> stops_after_tag(ev@, i as int, j as int, "SupportVectorMachine"@)
            && machine_read(ev@, i as int, j as int, s),
        childless(ev@, i as int, "SupportVectorMachine"@) ==> r is Ok,
        element_named(ev@, i as int, "SupportVectorMachine"@) && attrs_complete(ev@, i as int) ==> (r matches Ok((_, j)) && j <= closing(ev@, i - 1) + 1),
{
    let mut support_vectors: Vec<RawSupportVector> = Vec::new();
    let ghost mut sv_at: Seq<int> = Seq::empty();
    let mut coefficients: Vec<RawCoefficient> = Vec::new();
    let ghost mut co_at: Seq<int> = Seq::empty();
    let mut absolute_value: Option<String> = None;
    let ghost mut abs_hi: int = i as int;
    let ghost q: int = if childless(ev@, i as int, "SupportVectorMachine"@) {
        choose|q: int| plain_until(ev@, i as int, q, "SupportVectorMachine"@)
    } else {
        0
    };
    let mut k = i;
    proof {
        if element_named(ev@, i as int, "SupportVectorMachine"@) {
            lemma_closing(ev@, i - 1);
        }
    }
    loop
        invariant_except_break
            element_named(ev@, i as int, "SupportVectorMachine"@) && attrs_complete(ev@, i as int) ==> k <= closing(ev@, i - 1) && closes_at(ev@, i - 1, closing(ev@, i - 1)),
            i <= k <= ev@.len(),
            read_at_positions(ev@, i as int, sv_at, support_vectors@, "SupportVector"@, support_vector_tag()),
            sv_at.len() > 0 ==> sv_at.last() < k,
            read_at_positions(ev@, i as int, co_at, coefficients@, "Coefficient"@, coefficient_tag()),
            co_at.len() > 0 ==> co_at.last() < k,
            absolute_value matches Some(a) ==> abs_hi <= k && read_in_order(ev@, i as int, abs_hi, seq![a], "Coefficients"@, absolute_value_tag()),
            childless(ev@, i as int, "SupportVectorMachine"@) ==> plain_until(ev@, i as int, q, "SupportVectorMachine"@) && k <= q,
        ensures
            element_named(ev@, i as int, "SupportVectorMachine"@) && attrs_complete(ev@, i as int) ==> k <= closing(ev@, i - 1) + 1,
            i < k && is_end_named(ev@[k - 1], "SupportVectorMachine"@),
            read_at_positions(ev@, i as int, sv_at, support_vectors@, "SupportVector"@, support_vector_tag()),
            sv_at.len() > 0 ==> sv_at.last() < k,
            read_at_positions(ev@, i as int, co_at, coefficients@, "Coefficient"@, coefficient_tag()),
            co_at.len() > 0 ==> co_at.last() < k,
            absolute_value matches Some(a) ==> abs_hi <= k && read_in_order(ev@, i as int, abs_hi, seq![a], "Coefficients"@, absolute_value_tag()),
            i <= k <= ev@.len(),
        decreases ev@.len() - k,
    {
        proof {
            if childless(ev@, i as int, "SupportVectorMachine"@) && k < q {
                assert(plain_event(ev@[k as int], "SupportVectorMachine"@));
            }
        }
        proof {
            if element_named(ev@, i as int, "SupportVectorMachine"@) && attrs_complete(ev@, i as int) {
                lemma_nested_step(ev@, i as int, k as int);
            }
        }
        if end_at(ev, k) {
            return Err(unexpected_end());
        }
        let ghost here = k as int;
        match &ev[k] {
            XmlEvent::Start(t) => {
                k = k + 1;
                if name_is(&t.name, "SupportVectors") {
                    let (mut xs, j) = parse_list::<RawSupportVector>(ev, k, "SupportVectors", "SupportVector")?;
                    proof {
                        assert(entry_tag::<RawSupportVector>() =~= support_vector_tag());
                        sv_at = lemma_read_extend(ev@, i as int, sv_at, support_vectors@, "SupportVector"@, support_vector_tag(), k as int, j as int, xs@);
                    }
                    support_vectors.append(&mut xs);
                    k = j;
                } else if name_is(&t.name, "Coefficients") {
                    absolute_value = attr(t, "absoluteValue");
                    let (mut xs, j) = parse_list::<RawCoefficient>(ev, k, "Coefficients", "Coefficient")?;
                    proof {
                        assert(entry_tag::<RawCoefficient>() =~= coefficient_tag());
                        co_at = lemma_read_extend(ev@, i as int, co_at, coefficients@, "Coefficient"@, coefficient_tag(), k as int, j as int, xs@);
                        if absolute_value is Some {
                            lemma_read_one(ev@, i as int, j as int, here, absolute_value->0, "Coefficients"@, absolute_value_tag());
                        }
                        abs_hi = j as int;
                    }
                    coefficients.append(&mut xs);
                    k = j;
                }
            },
            XmlEvent::End(n) => {
                k = k + 1;
                if name_is(n, "SupportVectorMachine") {
                    break;
                }
            },
            _ => {
                k = k + 1;
            },
        }
    }
    proof {
        if absolute_value is Some {
            lemma_read_widen(ev@, i as int, abs_hi, i as int, k as int, seq![absolute_value->0], "Coefficients"@, absolute_value_tag());
        }
        lemma_read_in_order(ev@, i as int, k as int, sv_at, support_vectors@, "SupportVector"@, support_vector_tag());
        lemma_read_in_order(ev@, i as int, k as int, co_at, coefficients@, "Coefficient"@, coefficient_tag());
    }
    Ok((RawSupportVectorMachine { support_vectors, coefficients, absolute_value }, k))
}

/// Whether `m` holds the attributes of `SupportVectorMachineModel` tag `t`.
pub open spec fn support_vector_machine_model_of(t: XmlTag, m: RawSupportVectorMachineModel) -> bool {
    &&& tag_attr(t, "functionName"@) == Some(m.function_name@)
    &&& m.output@.len() == 0
    &&& m.targets@.len() == 0
}

/// A `SupportVectorMachineModel` whose start tag was just read:
/// `functionName` is required.
#[verifier::rlimit(80)]
pub fn parse_support_vector_machine_model(ev: &Vec<XmlEvent>, i: usize, start: &XmlTag) -> (r: Result<
    (RawSupportVectorMachineModel, usize),
    PmmlError,
>)
    requires
        0 < i <= ev@.len(),
    ensures
        match r {
            Ok((m, j)) => read_in_order(ev@, i as int, j as int, m.local_derived_fields@, "DerivedField"@, derived_field_tag()) && read_in_order(ev@, i as int, j as int, m.vector_fields@, "FieldRef"@, vector_field_tag())
                && read_in_order(ev@, i as int, j as int, m.vector_instances@, "VectorInstance"@, vector_instance_tag())
                && read_in_order(ev@, i as int, j as int, m.mining_schema@, "MiningField"@, mining_field_tag())
                && (m.support_vector_machine matches Some(s) ==> machine_read(ev@, i as int, j as int, s))
                && (m.kernel_gamma matches Some(g) ==> read_in_order(ev@, i as int, j as int, seq![g], "RadialBasisKernelType"@, gamma_tag()))
                && stops_at_end_or_tag(ev@, i as int, j as int, "SupportVectorMachineModel"@)
                && support_vector_machine_model_of(
                *start,
                m,
            ),
            Err(e) => tag_attr(*start, "functionName"@) is None ==> is_missing_attr(
                e,
                "SupportVectorMachineModel"@,
                "functionName"@,
            ),
        },
        element_named(ev@, i as int, "SupportVectorMachineModel"@) && model_readable(ev@, i as int, *start, "SupportVectorMachineModel"@) ==> (r matches Ok((_, j)) && j <= closing(ev@, i - 1) + 1),
{
    let function_name = attr_required(start, "functionName", "SupportVectorMachineModel")?;
    let mut mining_schema: Vec<RawMiningField> = Vec::new();
    let ghost mut schema_at: Seq<int> = Seq::empty();
    let mut vector_fields: Vec<RawVectorField> = Vec::new();
    let ghost mut vector_fields_at: Seq<int> = Seq::empty();
    let mut vector_instances: Vec<RawVectorInstance> = Vec::new();
    let ghost mut vector_instances_at: Seq<int> = Seq::empty();
    let mut support_vector_machine: Option<RawSupportVectorMachine> = None;
    let ghost mut machine_hi: int = i as int;
    let mut kernel_gamma: Option<String> = None;
    let ghost mut gamma_hi: int = i as int;
    let mut local_derived_fields: Vec<RawDerivedField> = Vec::new();
    let ghost mut local_derived_fields_at: Seq<int> = Seq::empty();
    let mut k = i;
    proof {
        if element_named(ev@, i as int, "SupportVectorMachineModel"@) {
            lemma_closing(ev@, i - 1);
        }
    }
    loop
        invariant_except_break
            element_named(ev@, i as int, "SupportVectorMachineModel"@) && model_readable(ev@, i as int, *start, "SupportVectorMachineModel"@) ==> k <= closing(ev@, i - 1) && closes_at(ev@, i - 1, closing(ev@, i - 1)),
            0 < i <= k <= ev@.len(),
            tag_attr(*start, "functionName"@) == Some(function_name@),
            read_at_positions(ev@, i as int, schema_at, mining_schema@, "MiningField"@, mining_field_tag()),
            schema_at.len() > 0 ==> schema_at.last() < k,
            read_at_positions(ev@, i as int, vector_fields_at, vector_fields@, "FieldRef"@, vector_field_tag()),
            vector_fields_at.len() > 0 ==> vector_fields_at.last() < k,
            read_at_positions(ev@, i as int, vector_instances_at, vector_instances@, "VectorInstance"@, vector_instance_tag()),
            vector_instances_at.len() > 0 ==> vector_instances_at.last() < k,
            support_vector_machine matches Some(s) ==> machine_hi <= k && machine_read(ev@, i as int, machine_hi, s),
            kernel_gamma matches Some(g) ==> gamma_hi <= k && read_in_order(ev@, i as int, gamma_hi, seq![g], "RadialBasisKernelType"@, gamma_tag()),
            read_at_positions(ev@, i as int, local_derived_fields_at, local_derived_fields@, "DerivedField"@, derived_field_tag()),
            local_derived_fields_at.len() > 0 ==> local_derived_fields_at.last() < k,
        ensures
            element_named(ev@, i as int, "SupportVectorMachineModel"@) && model_readable(ev@, i as int, *start, "SupportVectorMachineModel"@) ==> k <= closing(ev@, i - 1) + 1,
            0 < i <= k <= ev@.len(),
            tag_attr(*start, "functionName"@) == Some(function_name@),
            read_at_positions(ev@, i as int, schema_at, mining_schema@, "MiningField"@, mining_field_tag()),
            schema_at.len() > 0 ==> schema_at.last() < k,
            read_at_positions(ev@, i as int, vector_fields_at, vector_fields@, "FieldRef"@, vector_field_tag()),
            vector_fields_at.len() > 0 ==> vector_fields_at.last() < k,
            read_at_positions(ev@, i as int, vector_instances_at, vector_instances@, "VectorInstance"@, vector_instance_tag()),
            vector_instances_at.len() > 0 ==> vector_instances_at.last() < k,
            support_vector_machine matches Some(s) ==> machine_hi <= k && machine_read(ev@, i as int, machine_hi, s),
            kernel_gamma matches Some(g) ==> gamma_hi <= k && read_in_order(ev@, i as int, gamma_hi, seq![g], "RadialBasisKernelType"@, gamma_tag()),
            read_at_positions(ev@, i as int, local_derived_fields_at, local_derived_fields@, "DerivedField"@, derived_field_tag()),
            local_derived_fields_at.len() > 0 ==> local_derived_fields_at.last() < k,
            at_end(ev@, k as int) || (i < k && is_end_named(ev@[k - 1], "SupportVectorMachineModel"@)),
            read_at_positions(ev@, i as int, schema_at, mining_schema@, "MiningField"@, mining_field_tag()),
            schema_at.len() > 0 ==> schema_at.last() < k,
            read_at_positions(ev@, i as int, vector_fields_at, vector_fields@, "FieldRef"@, vector_field_tag()),
            vector_fields_at.len() > 0 ==> vector_fields_at.last() < k,
            read_at_positions(ev@, i as int, vector_instances_at, vector_instances@, "VectorInstance"@, vector_instance_tag()),
            vector_instances_at.len() > 0 ==> vector_instances_at.last() < k,
            support_vector_machine matches Some(s) ==> machine_hi <= k && machine_read(ev@, i as int, machine_hi, s),
            kernel_gamma matches Some(g) ==> gamma_hi <= k && read_in_order(ev@, i as int, gamma_hi, seq![g], "RadialBasisKernelType"@, gamma_tag()),
            read_at_positions(ev@, i as int, local_derived_fields_at, local_derived_fields@, "DerivedField"@, derived_field_tag()),
            local_derived_fields_at.len() > 0 ==> local_derived_fields_at.last() < k,
        decreases ev@.len() - k,
    {
        proof {
            if element_named(ev@, i as int, "SupportVectorMachineModel"@) && model_readable(ev@, i as int, *start, "SupportVectorMachineModel"@) {
                lemma_nested_step(ev@, i as int, k as int);
                if k < closing(ev@, i - 1) {
                    assert(!start_named_at(ev@, k as int, "LocalTransformations"@));
                    assert(!is_end_named(ev@[k as int], "SupportVectorMachineModel"@));
                }
            }
        }
        if end_at(ev, k) {
            break;
        }
        let ghost here = k as int;
        match &ev[k] {
            XmlEvent::Start(t) => {
                k = k + 1;
                if name_is(&t.name, "MiningSchema") {
                    let (mut fields, j) = parse_mining_schema(ev, k, false)?;
                    proof {
                        schema_at = lemma_read_extend(ev@, i as int, schema_at, mining_schema@, "MiningField"@, mining_field_tag(), k as int, j as int, fields@);
                    }
                    mining_schema.append(&mut fields);
                    k = j;
                } else if name_is(&t.name, "RadialBasisKernelType") {
                    kernel_gamma = attr(t, "gamma");
                    let ghost k0 = k;
                    loop
                        invariant_except_break
                            0 < i <= k0 <= k <= ev@.len(),
                            tag_attr(*start, "functionName"@) == Some(function_name@),
                            forall|t: int| k0 <= t < k ==> !#[trigger] is_end_named(ev@[t], "RadialBasisKernelType"@),
                            element_named(ev@, i as int, "SupportVectorMachineModel"@) && model_readable(ev@, i as int, *start, "SupportVectorMachineModel"@) ==> k0 - 1 < closing(ev@, k0 - 1) < closing(ev@, i - 1) && is_end_named(ev@[closing(ev@, k0 - 1)], "RadialBasisKernelType"@)
                                && closes_at(ev@, i - 1, closing(ev@, i - 1)) && k <= closing(ev@, k0 - 1),
                        ensures
                            0 < i <= k0 <= k <= ev@.len(),
                            tag_attr(*start, "functionName"@) == Some(function_name@),
                            element_named(ev@, i as int, "SupportVectorMachineModel"@) && model_readable(ev@, i as int, *start, "SupportVectorMachineModel"@) ==> closing(ev@, k0 - 1) < closing(ev@, i - 1) && closes_at(ev@, i - 1, closing(ev@, i - 1)) && k <= closing(ev@, k0 - 1) + 1,
                        decreases ev@.len() - k,
                    {
                        proof {
                            if element_named(ev@, i as int, "SupportVectorMachineModel"@) && model_readable(ev@, i as int, *start, "SupportVectorMachineModel"@) {
                                assert(!(ev@[k as int] is Eof));
                            }
                        }
                        if end_at(ev, k) {
                            return Err(unexpected_end());
                        }
                        match &ev[k] {
                            XmlEvent::End(n) => {
                                k = k + 1;
                                if name_is(n, "RadialBasisKernelType") {
                                    break;
                                }
                            },
                            XmlEvent::Empty(_) => {
                                k = k + 1;
                                break;
                            },
                            _ => {
                                k = k + 1;
                            },
                        }
                    }
                    proof {
                        if kernel_gamma is Some {
                            lemma_read_one(ev@, i as int, k0 as int, here, kernel_gamma->0, "RadialBasisKernelType"@, gamma_tag());
                        }
                        gamma_hi = k0 as int;
                    }
                } else if name_is(&t.name, "VectorDictionary") {
                    let ghost fields_before = vector_fields@;
                    let ghost instances_before = vector_instances@;
                    let j = parse_vector_dictionary(ev, k, &mut vector_fields, &mut vector_instances)?;
                    proof {
                        assert(fields_before.skip(0) =~= fields_before);
                        assert(instances_before.skip(0) =~= instances_before);
                        vector_fields_at = lemma_read_extend_mut(ev@, i as int, vector_fields_at, fields_before, vector_fields@, 0, "FieldRef"@, vector_field_tag(), k as int, j as int);
                        vector_instances_at = lemma_read_extend_mut(ev@, i as int, vector_instances_at, instances_before, vector_instances@, 0, "VectorInstance"@, vector_instance_tag(), k as int, j as int);
                        assert(vector_fields@.skip(0) =~= vector_fields@);
                        assert(vector_instances@.skip(0) =~= vector_instances@);
                    }
                    k = j;
                } else if name_is(&t.name, "SupportVectorMachine") {
                    let (m, j) = parse_support_vector_machine(ev, k)?;
                    proof {
                        lemma_machine_widen(ev@, k as int, j as int, i as int, j as int, m);
                        machine_hi = j as int;
                    }
                    support_vector_machine = Some(m);
                    k = j;
                } else if name_is(&t.name, "LocalTransformations") {
                    let (mut fields, j) = parse_local_transformations(ev, k)?;
                    proof {
                        local_derived_fields_at = lemma_read_extend(ev@, i as int, local_derived_fields_at, local_derived_fields@, "DerivedField"@, derived_field_tag(), k as int, j as int, fields@);
                    }
                    local_derived_fields.append(&mut fields);
                    k = j;
                }
            },
            XmlEvent::End(n) => {
                k = k + 1;
                if name_is(n, "SupportVectorMachineModel") {
                    break;
                }
            },
            _ => {
                k = k + 1;
            },
        }
    }
    proof {
        lemma_read_in_order(ev@, i as int, k as int, schema_at, mining_schema@, "MiningField"@, mining_field_tag());
    }
    proof {
        if support_vector_machine is Some {
            lemma_machine_widen(ev@, i as int, machine_hi, i as int, k as int, support_vector_machine->0);
        }
        if kernel_gamma is Some {
            lemma_read_widen(ev@, i as int, gamma_hi, i as int, k as int, seq![kernel_gamma->0], "RadialBasisKernelType"@, gamma_tag());
        }
        lemma_read_in_order(ev@, i as int, k as int, vector_fields_at, vector_fields@, "FieldRef"@, vector_field_tag());
        lemma_read_in_order(ev@, i as int, k as int, vector_instances_at, vector_instances@, "VectorInstance"@, vector_instance_tag());
    }
    proof {
        lemma_read_in_order(ev@, i as int, k as int, local_derived_fields_at, local_derived_fields@, "DerivedField"@, derived_field_tag());
    }
    Ok((RawSupportVectorMachineModel {
        function_name,
        mining_schema,
        output: Vec::new(),
        targets: Vec::new(),
        vector_fields,
        vector_instances,
        support_vector_machine,
        kernel_gamma,
        local_derived_fields,
    }, k))
}

/// The largest of the indices `ix`, 0 when there are none.
pub open spec fn max_index(ix: Seq<usize>) -> nat
    decreases ix.len(),
{
    if ix.len() == 0 {
        0
    } else {
        let m = max_index(ix.drop_last());
        if ix.last() > m {
            ix.last() as nat
        } else {
            m
        }
    }
}

/// The length of the dense vector that a sparse array stands for: its `n`,
/// or, when it has none, its largest index.
pub fn dense_len(s: &RawSparseArray) -> (n: usize)
    ensures
        n == match s.n {
            Some(n) => n as nat,
            None => max_index(s.indices@),
        },
{
    match s.n {
        Some(n) => n,
        None => {
            let mut m: usize = 0;
            let mut x: usize = 0;
            while x < s.indices.len()
                invariant
                    x <= s.indices@.len(),
                    m == max_index(s.indices@.take(x as int)),
                decreases s.indices@.len() - x,
            {
                assert(s.indices@.take(x + 1).drop_last() =~= s.indices@.take(x as int));
                if s.indices[x] > m {
                    m = s.indices[x];
                }
                x = x + 1;
            }
            assert(s.indices@.take(x as int) =~= s.indices@);
            m
        },
    }
}

/// Which of the first `m` pairs of an index with an entry lands on slot `s`
/// (from 0) of the dense vector: the last one whose (1-based) index is
/// `s + 1`, if any.
pub open spec fn slot_entry(ix: Seq<usize>, m: int, s: int) -> Option<usize>
    decreases m,
{
    if m <= 0 {
        None
    } else if ix[m - 1] == s + 1 {
        Some((m - 1) as usize)
    } else {
        slot_entry(ix, m - 1, s)
    }
}

/// The entry of each slot of a dense vector of length `n`, given a sparse
/// array's `indices` paired in order with its first `count` entries: for
/// slot `s`, the position of the last entry paired with index `s + 1`, or
/// `None` where no entry lands (the slot then holds 0). Indices outside
/// `1..=n` and entries without an index are left out.
pub fn dense_slots(n: usize, indices: &Vec<usize>, count: usize) -> (r: Vec<Option<usize>>)
    ensures
        r@.len() == n,
        forall|s: int|
            0 <= s < n ==> #[trigger] r@[s] == slot_entry(
                indices@,
                if indices@.len() < count { indices@.len() as int } else { count as int },
                s,
            ),
{
    let mut r: Vec<Option<usize>> = Vec::new();
    while r.len() < n
        invariant
            r@.len() <= n,
            forall|s: int| 0 <= s < r@.len() ==> #[trigger] r@[s] == slot_entry(indices@, 0, s),
        decreases n - r@.len(),
    {
        r.push(None);
    }
    let m: usize = if indices.len() < count {
        indices.len()
    } else {
        count
    };
    let mut x: usize = 0;
    while x < m
        invariant
            x <= m,
            m <= indices@.len(),
            m == (if indices@.len() < count { indices@.len() as int } else { count as int }),
            r@.len() == n,
            forall|s: int| 0 <= s < n ==> #[trigger] r@[s] == slot_entry(indices@, x as int, s),
        decreases m - x,
    {
        let idx = indices[x];
        let ghost before = r@;
        if idx >= 1 && idx <= n {
            r.set(idx - 1, Some(x));
        }
        assert forall|s: int| 0 <= s < n implies #[trigger] r@[s] == slot_entry(indices@, x + 1, s) by {
            assert(slot_entry(indices@, x + 1, s) == if indices@[x as int] == s + 1 {
                Some(x)
            } else {
                slot_entry(indices@, x as int, s)
            });
            if idx >= 1 && idx <= n && s == idx - 1 {
            } else {
                assert(r@[s] == before[s]);
            }
        }
        x = x + 1;
    }
    r
}

} // verus!
