//! `NeuralNetwork`: its inputs, each bound to a field through a `FieldRef`,
//! and its layers of neurons with their weighted connections.

use vstd::prelude::*;
use crate::unmarshal::cursor::{start_named_at};
use crate::unmarshal::nesting::{closing, closes_at, lemma_nested_step, lemma_closing, model_readable, attrs_complete};
use crate::error::PmmlError;
use crate::xml::{XmlEvent, XmlTag, attr, attr_required, tag_attr, opt_view, is_missing_attr, name_is, clone_opt};
use crate::unmarshal::raw::{
    RawNeuralNetwork, RawNeuralInput, RawNeuralLayer, RawNeuron, RawCon, RawMiningField,
    RawDerivedField,
};
use crate::unmarshal::common::{parse_mining_schema, or_else, mining_field_tag};
use crate::unmarshal::clustering::{attr_usize, opt_usize};
use crate::unmarshal::expr::{parse_local_transformations, derived_field_tag};
use crate::unmarshal::cursor::{
    element_named, tags_carry,
    sections_read, read_each_section, lemma_sections_push, lemma_sections_widen,
    spans_ok, covers_level, read_each_reached, lemma_covers_level_step, span_step, lemma_read_each_reached,
    end_at, skip_one, unexpected_end, at_end, is_end_named, stops_after_tag, stops_at_end_or_tag, read_at_positions, read_in_order, lemma_read_extend, lemma_read_in_order, lemma_read_push, lemma_read_extend_mut, read_all_in_order, covers_entries, lemma_covers_step, lemma_covers_skip, childless, plain_until, plain_event,
};

verus! {

/// Whether `c` holds the attributes of `Con` tag `t`.
pub open spec fn con_of(t: XmlTag, c: RawCon) -> bool {
    &&& tag_attr(t, "from"@) == Some(c.from@)
    &&& opt_view(c.weight) == tag_attr(t, "weight"@)
}

/// A `Con` from its tag; `from` is required.
pub fn parse_con(t: &XmlTag) -> (r: Result<RawCon, PmmlError>)
    ensures
        match r {
            Ok(c) => con_of(*t, c),
            Err(e) => tag_attr(*t, "from"@) is None && is_missing_attr(e, "Con"@, "from"@),
        },
{
    let from = attr_required(t, "from", "Con")?;
    let weight = attr(t, "weight");
    Ok(RawCon { from, weight })
}

/// How a connection is read from its tag.
pub open spec fn con_tag() -> spec_fn(XmlTag, RawCon) -> bool {
    |t: XmlTag, c: RawCon| con_of(t, c)
}

/// How a neuron is read from its tag: its `id` and `bias`.
pub open spec fn neuron_tag() -> spec_fn(XmlTag, RawNeuron) -> bool {
    |t: XmlTag, n: RawNeuron| tag_attr(t, "id"@) == Some(n.id@) && opt_view(n.bias) == tag_attr(t, "bias"@)
}

/// How a layer is read from its tag when the network's activation function
/// is `default`.
pub open spec fn layer_tag(default: Option<Seq<char>>) -> spec_fn(XmlTag, RawNeuralLayer) -> bool {
    |t: XmlTag, l: RawNeuralLayer|
        l.number_of_neurons == opt_usize(tag_attr(t, "numberOfNeurons"@)) && opt_view(
            l.activation_function,
        ) == or_else(tag_attr(t, "activationFunction"@), default)
}

/// A `Neuron` whose start tag was just read: `id` is required; its `Con`
/// connections, up to its end tag.
fn parse_neuron(ev: &Vec<XmlEvent>, i: usize, start: &XmlTag) -> (r: Result<(RawNeuron, usize), PmmlError>)
    requires
        i <= ev@.len(),
    ensures
        match r {
            Ok((n, j)) => read_in_order(ev@, i as int, j as int, n.cons@, "Con"@, con_tag())
            && read_all_in_order(ev@, i as int, j as int, n.cons@, "Con"@, con_tag())
                && stops_after_tag(ev@, i as int, j as int, "Neuron"@)
                && tag_attr(*start, "id"@) == Some(
                n.id@,
            ) && opt_view(n.bias) == tag_attr(*start, "bias"@),
            Err(e) => tag_attr(*start, "id"@) is None ==> is_missing_attr(e, "Neuron"@, "id"@),
        },
        element_named(ev@, i as int, "Neuron"@) && attrs_complete(ev@, i as int) && tag_attr(*start, "id"@) is Some ==> (r matches Ok((_, j)) && j <= closing(ev@, i - 1) + 1),
{
    let id = attr_required(start, "id", "Neuron")?;
    let bias = attr(start, "bias");
    let mut cons: Vec<RawCon> = Vec::new();
    let ghost mut cons_at: Seq<int> = Seq::empty();
    let mut k = i;
    proof {
        if element_named(ev@, i as int, "Neuron"@) {
            lemma_closing(ev@, i - 1);
        }
    }
    loop
        invariant_except_break
            element_named(ev@, i as int, "Neuron"@) && attrs_complete(ev@, i as int) && tag_attr(*start, "id"@) is Some ==> k <= closing(ev@, i - 1) && closes_at(ev@, i - 1, closing(ev@, i - 1)),
            i <= k <= ev@.len(),
            tag_attr(*start, "id"@) == Some(id@),
            read_at_positions(ev@, i as int, cons_at, cons@, "Con"@, con_tag()),
            cons_at.len() > 0 ==> cons_at.last() < k,
            covers_entries(ev@, i as int, k as int, cons_at, "Con"@),
        ensures
            element_named(ev@, i as int, "Neuron"@) && attrs_complete(ev@, i as int) && tag_attr(*start, "id"@) is Some ==> k <= closing(ev@, i - 1) + 1,
            i <= k <= ev@.len(),
            tag_attr(*start, "id"@) == Some(id@),
            read_at_positions(ev@, i as int, cons_at, cons@, "Con"@, con_tag()),
            cons_at.len() > 0 ==> cons_at.last() < k,
            covers_entries(ev@, i as int, k as int, cons_at, "Con"@),
            i < k && is_end_named(ev@[k - 1], "Neuron"@),
            read_at_positions(ev@, i as int, cons_at, cons@, "Con"@, con_tag()),
            cons_at.len() > 0 ==> cons_at.last() < k,
            covers_entries(ev@, i as int, k as int, cons_at, "Con"@),
        decreases ev@.len() - k,
    {
        proof {
            if element_named(ev@, i as int, "Neuron"@) && attrs_complete(ev@, i as int) && tag_attr(*start, "id"@) is Some {
                lemma_nested_step(ev@, i as int, k as int);
            }
        }
        if end_at(ev, k) {
            return Err(unexpected_end());
        }
        let ghost here = k as int;
        match &ev[k] {
            XmlEvent::Start(t) => {
                k = k + 1;
                if name_is(&t.name, "Con") {
                    let item = parse_con(t)?;
                    proof {
                        lemma_read_push(ev@, i as int, cons_at, cons@, "Con"@, con_tag(), here, item);
                        lemma_covers_step(ev@, i as int, here, cons_at, "Con"@, true);
                        cons_at = cons_at.push(here);
                    }
                    cons.push(item);
                    if !end_at(ev, k) {
                        proof {
                            lemma_covers_skip(ev@, i as int, k as int, cons_at, "Con"@);
                        }
                    }
                    k = skip_one(ev, k);
                } else {
                    proof {
                        lemma_covers_skip(ev@, i as int, here, cons_at, "Con"@);
                    }
                }
            },
            XmlEvent::Empty(t) => {
                k = k + 1;
                if name_is(&t.name, "Con") {
                    let item = parse_con(t)?;
                    proof {
                        lemma_read_push(ev@, i as int, cons_at, cons@, "Con"@, con_tag(), here, item);
                        lemma_covers_step(ev@, i as int, here, cons_at, "Con"@, true);
                        cons_at = cons_at.push(here);
                    }
                    cons.push(item);
                } else {
                    proof {
                        lemma_covers_skip(ev@, i as int, here, cons_at, "Con"@);
                    }
                }
            },
            XmlEvent::End(n) => {
                proof {
                    lemma_covers_skip(ev@, i as int, here, cons_at, "Con"@);
                }
                k = k + 1;
                if name_is(n, "Neuron") {
                    break;
                }
            },
            _ => {
                proof {
                    lemma_covers_skip(ev@, i as int, here, cons_at, "Con"@);
                }
                k = k + 1;
            },
        }
    }
    proof {
        lemma_read_in_order(ev@, i as int, k as int, cons_at, cons@, "Con"@, con_tag());
        assert(read_at_positions(ev@, i as int, cons_at, cons@, "Con"@, con_tag()) && (cons_at.len() > 0 ==> cons_at.last() < k)
            && covers_entries(ev@, i as int, k as int, cons_at, "Con"@));
    }
    Ok((RawNeuron { id, bias, cons }, k))
}

/// A `NeuralLayer` whose start tag was just read: its `Neuron` elements, up
/// to its end tag. The layer's activation function is its own attribute, or
/// `default_activation` (the network's) when it has none.
pub fn parse_neural_layer(
    ev: &Vec<XmlEvent>,
    i: usize,
    start: &XmlTag,
    default_activation: &Option<String>,
) -> (r: Result<(RawNeuralLayer, usize), PmmlError>)
    requires
        i <= ev@.len(),
    ensures
        r matches Ok((l, j)) ==> read_each_reached(ev@, i as int, j as int, l.neurons@, "Neuron"@, neuron_tag())
                && read_in_order(ev@, i as int, j as int, l.neurons@, "Neuron"@, neuron_tag())
            && {
            &&& stops_after_tag(ev@, i as int, j as int, "NeuralLayer"@)
            &&& l.number_of_neurons == opt_usize(tag_attr(*start, "numberOfNeurons"@))
            &&& opt_view(l.activation_function) == or_else(
                tag_attr(*start, "activationFunction"@),
                opt_view(*default_activation),
            )
        },
        childless(ev@, i as int, "NeuralLayer"@) ==> r is Ok,
        element_named(ev@, i as int, "NeuralLayer"@) && attrs_complete(ev@, i as int) ==> (r matches Ok((_, j)) && j <= closing(ev@, i - 1) + 1),
{
    let number_of_neurons = attr_usize(start, "numberOfNeurons");
    let activation_function = match attr(start, "activationFunction") {
        Some(s) => Some(s),
        None => clone_opt(default_activation),
    };
    let mut neurons: Vec<RawNeuron> = Vec::new();
    let ghost mut neurons_at: Seq<int> = Seq::empty();
    let ghost q: int = if childless(ev@, i as int, "NeuralLayer"@) {
        choose|q: int| plain_until(ev@, i as int, q, "NeuralLayer"@)
    } else {
        0
    };
    let ghost mut spans: Seq<(int, int)> = Seq::empty();
    let mut k = i;
    proof {
        if element_named(ev@, i as int, "NeuralLayer"@) {
            lemma_closing(ev@, i - 1);
        }
    }
    loop
        invariant_except_break
            element_named(ev@, i as int, "NeuralLayer"@) && attrs_complete(ev@, i as int) ==> k <= closing(ev@, i - 1) && closes_at(ev@, i - 1, closing(ev@, i - 1)),
            i <= k <= ev@.len(),
            spans_ok(ev@, spans, i as int, k as int),
            covers_level(ev@, i as int, k as int, neurons_at, spans, "Neuron"@),
            read_at_positions(ev@, i as int, neurons_at, neurons@, "Neuron"@, neuron_tag()),
            neurons_at.len() > 0 ==> neurons_at.last() < k,
            childless(ev@, i as int, "NeuralLayer"@) ==> plain_until(ev@, i as int, q, "NeuralLayer"@) && k <= q,
        ensures
            element_named(ev@, i as int, "NeuralLayer"@) && attrs_complete(ev@, i as int) ==> k <= closing(ev@, i - 1) + 1,
            i < k && is_end_named(ev@[k - 1], "NeuralLayer"@),
            spans_ok(ev@, spans, i as int, k as int),
            covers_level(ev@, i as int, k as int, neurons_at, spans, "Neuron"@),
            read_at_positions(ev@, i as int, neurons_at, neurons@, "Neuron"@, neuron_tag()),
            neurons_at.len() > 0 ==> neurons_at.last() < k,
            i <= k <= ev@.len(),
        decreases ev@.len() - k,
    {
        proof {
            if childless(ev@, i as int, "NeuralLayer"@) && k < q {
                assert(plain_event(ev@[k as int], "NeuralLayer"@));
            }
        }
        proof {
            if element_named(ev@, i as int, "NeuralLayer"@) && attrs_complete(ev@, i as int) {
                lemma_nested_step(ev@, i as int, k as int);
            }
        }
        if end_at(ev, k) {
            return Err(unexpected_end());
        }
        let ghost here = k as int;
        let ghost neurons_at0 = neurons_at;
        let ghost mut stepped = false;
        proof {
            reveal_strlit("Neuron");
        }
        match &ev[k] {
            XmlEvent::Start(t) => {
                k = k + 1;
                if name_is(&t.name, "Neuron") {
                    let (n, j) = parse_neuron(ev, k, t)?;
                    let item = n;
                    proof {
                        lemma_read_push(ev@, i as int, neurons_at, neurons@, "Neuron"@, neuron_tag(), here, item);
                        neurons_at = neurons_at.push(here);
                    }
                    neurons.push(item);
                    k = j;
                }
            },
            XmlEvent::End(n) => {
                k = k + 1;
                proof {
                    lemma_covers_level_step(ev@, i as int, here, k as int, neurons_at0, neurons_at, spans, "Neuron"@);
                    spans = span_step(spans, here, k as int);
                    stepped = true;
                }
                if name_is(n, "NeuralLayer") {
                    break;
                }
            },
            _ => {
                k = k + 1;
            },
        }
        proof {
            if !stepped {
                lemma_covers_level_step(ev@, i as int, here, k as int, neurons_at0, neurons_at, spans, "Neuron"@);
                spans = span_step(spans, here, k as int);
            }
        }
    }
    proof {
        lemma_read_each_reached(ev@, i as int, k as int, neurons_at, spans, neurons@, "Neuron"@, neuron_tag());
    }
    proof {
        lemma_read_in_order(ev@, i as int, k as int, neurons_at, neurons@, "Neuron"@, neuron_tag());
    }
    Ok((RawNeuralLayer { number_of_neurons, activation_function, neurons }, k))
}

/// The field of the `FieldRef` inside a `DerivedField` whose start tag was
/// just read, up to its end tag: the last `FieldRef` read wins, and `field`
/// keeps its value when there is none.
fn parse_input_derived_field(ev: &Vec<XmlEvent>, i: usize, field: &mut String) -> (r: Result<
    usize,
    PmmlError,
>)
    requires
        i <= ev@.len(),
    ensures
        r matches Ok(j) ==> stops_after_tag(ev@, i as int, j as int, "DerivedField"@),
        childless(ev@, i as int, "DerivedField"@) ==> r is Ok,
        element_named(ev@, i as int, "DerivedField"@) && attrs_complete(ev@, i as int) ==> (r matches Ok(j) && j <= closing(ev@, i - 1) + 1),
{
    let ghost q: int = if childless(ev@, i as int, "DerivedField"@) {
        choose|q: int| plain_until(ev@, i as int, q, "DerivedField"@)
    } else {
        0
    };
    let mut k = i;
    proof {
        if element_named(ev@, i as int, "DerivedField"@) {
            lemma_closing(ev@, i - 1);
        }
    }
    loop
        invariant_except_break
            element_named(ev@, i as int, "DerivedField"@) && attrs_complete(ev@, i as int) ==> k <= closing(ev@, i - 1) && closes_at(ev@, i - 1, closing(ev@, i - 1)),
            i <= k <= ev@.len(),
            childless(ev@, i as int, "DerivedField"@) ==> plain_until(ev@, i as int, q, "DerivedField"@) && k <= q,
        ensures
            element_named(ev@, i as int, "DerivedField"@) && attrs_complete(ev@, i as int) ==> k <= closing(ev@, i - 1) + 1,
            i < k && is_end_named(ev@[k - 1], "DerivedField"@),
            i <= k <= ev@.len(),
        decreases ev@.len() - k,
    {
        proof {
            if childless(ev@, i as int, "DerivedField"@) && k < q {
                assert(plain_event(ev@[k as int], "DerivedField"@));
            }
        }
        proof {
            if element_named(ev@, i as int, "DerivedField"@) && attrs_complete(ev@, i as int) {
                lemma_nested_step(ev@, i as int, k as int);
            }
        }
        if end_at(ev, k) {
            return Err(unexpected_end());
        }
        match &ev[k] {
            XmlEvent::Start(t) => {
                k = k + 1;
                if name_is(&t.name, "FieldRef") {
                    *field = attr_required(t, "field", "FieldRef")?;
                    k = skip_one(ev, k);
                }
            },
            XmlEvent::End(n) => {
                k = k + 1;
                if name_is(n, "DerivedField") {
                    break;
                }
            },
            _ => {
                k = k + 1;
            },
        }
    }
    Ok(k)
}

/// A `NeuralInput` whose start tag was just read: `id` is required; the
/// field it reads is that of the `FieldRef` in its `DerivedField`, empty when
/// there is none.
fn parse_neural_input(ev: &Vec<XmlEvent>, i: usize, start: &XmlTag) -> (r: Result<
    (RawNeuralInput, usize),
    PmmlError,
>)
    requires
        i <= ev@.len(),
    ensures
        match r {
            Ok((n, j)) => stops_after_tag(ev@, i as int, j as int, "NeuralInput"@)
                && tag_attr(*start, "id"@) == Some(
                n.id@,
            ),
            Err(e) => tag_attr(*start, "id"@) is None ==> is_missing_attr(
                e,
                "NeuralInput"@,
                "id"@,
            ),
        },
        element_named(ev@, i as int, "NeuralInput"@) && attrs_complete(ev@, i as int) && tag_attr(*start, "id"@) is Some ==> (r matches Ok((_, j)) && j <= closing(ev@, i - 1) + 1),
{
    let id = attr_required(start, "id", "NeuralInput")?;
    let mut field = String::new();
    let mut k = i;
    proof {
        if element_named(ev@, i as int, "NeuralInput"@) {
            lemma_closing(ev@, i - 1);
        }
    }
    loop
        invariant_except_break
            element_named(ev@, i as int, "NeuralInput"@) && attrs_complete(ev@, i as int) && tag_attr(*start, "id"@) is Some ==> k <= closing(ev@, i - 1) && closes_at(ev@, i - 1, closing(ev@, i - 1)),
            i <= k <= ev@.len(),
            tag_attr(*start, "id"@) == Some(id@),
        ensures
            element_named(ev@, i as int, "NeuralInput"@) && attrs_complete(ev@, i as int) && tag_attr(*start, "id"@) is Some ==> k <= closing(ev@, i - 1) + 1,
            i <= k <= ev@.len(),
            tag_attr(*start, "id"@) == Some(id@),
            i < k && is_end_named(ev@[k - 1], "NeuralInput"@),
        decreases ev@.len() - k,
    {
        proof {
            if element_named(ev@, i as int, "NeuralInput"@) && attrs_complete(ev@, i as int) && tag_attr(*start, "id"@) is Some {
                lemma_nested_step(ev@, i as int, k as int);
            }
        }
        if end_at(ev, k) {
            return Err(unexpected_end());
        }
        match &ev[k] {
            XmlEvent::Start(t) => {
                k = k + 1;
                if name_is(&t.name, "DerivedField") {
                    k = parse_input_derived_field(ev, k, &mut field)?;
                }
            },
            XmlEvent::End(n) => {
                k = k + 1;
                if name_is(n, "NeuralInput") {
                    break;
                }
            },
            _ => {
                k = k + 1;
            },
        }
    }
    Ok((RawNeuralInput { id, field }, k))
}

/// How a neural input is read from its tag: its `id`.
pub open spec fn neural_input_tag() -> spec_fn(XmlTag, RawNeuralInput) -> bool {
    |t: XmlTag, n: RawNeuralInput| tag_attr(t, "id"@) == Some(n.id@)
}

/// The `NeuralInput` elements of a `NeuralInputs` whose start tag was just
/// read, up to its end tag, appended in order.
fn parse_neural_inputs(ev: &Vec<XmlEvent>, i: usize, inputs: &mut Vec<RawNeuralInput>) -> (r:
    Result<usize, PmmlError>)
    requires
        i <= ev@.len(),
    ensures
        r matches Ok(j) ==> read_each_reached(ev@, i as int, j as int, final(inputs)@.skip(old(inputs)@.len() as int), "NeuralInput"@, neural_input_tag())
                && final(inputs)@.len() >= old(inputs)@.len()
            && final(inputs)@.subrange(0, old(inputs)@.len() as int) == old(inputs)@
            && read_in_order(ev@, i as int, j as int, final(inputs)@.skip(old(inputs)@.len() as int), "NeuralInput"@, neural_input_tag())
            && stops_after_tag(ev@, i as int, j as int, "NeuralInputs"@),
        childless(ev@, i as int, "NeuralInputs"@) ==> r is Ok,
        element_named(ev@, i as int, "NeuralInputs"@) && attrs_complete(ev@, i as int) ==> (r matches Ok(j) && j <= closing(ev@, i - 1) + 1),
{
    let ghost mut inputs_at: Seq<int> = Seq::empty();
    let ghost q: int = if childless(ev@, i as int, "NeuralInputs"@) {
        choose|q: int| plain_until(ev@, i as int, q, "NeuralInputs"@)
    } else {
        0
    };
    let ghost mut spans: Seq<(int, int)> = Seq::empty();
    let mut k = i;
    proof {
        if element_named(ev@, i as int, "NeuralInputs"@) {
            lemma_closing(ev@, i - 1);
        }
    }
    loop
        invariant_except_break
            element_named(ev@, i as int, "NeuralInputs"@) && attrs_complete(ev@, i as int) ==> k <= closing(ev@, i - 1) && closes_at(ev@, i - 1, closing(ev@, i - 1)),
            i <= k <= ev@.len(),
            spans_ok(ev@, spans, i as int, k as int),
            covers_level(ev@, i as int, k as int, inputs_at, spans, "NeuralInput"@),
            inputs@.len() >= old(inputs)@.len(),
            inputs@.subrange(0, old(inputs)@.len() as int) == old(inputs)@,
            read_at_positions(ev@, i as int, inputs_at, inputs@.skip(old(inputs)@.len() as int), "NeuralInput"@, neural_input_tag()),
            inputs_at.len() > 0 ==> inputs_at.last() < k,
            childless(ev@, i as int, "NeuralInputs"@) ==> plain_until(ev@, i as int, q, "NeuralInputs"@) && k <= q,
        ensures
            element_named(ev@, i as int, "NeuralInputs"@) && attrs_complete(ev@, i as int) ==> k <= closing(ev@, i - 1) + 1,
            i < k && is_end_named(ev@[k - 1], "NeuralInputs"@),
            spans_ok(ev@, spans, i as int, k as int),
            covers_level(ev@, i as int, k as int, inputs_at, spans, "NeuralInput"@),
            inputs@.len() >= old(inputs)@.len(),
            inputs@.subrange(0, old(inputs)@.len() as int) == old(inputs)@,
            read_at_positions(ev@, i as int, inputs_at, inputs@.skip(old(inputs)@.len() as int), "NeuralInput"@, neural_input_tag()),
            inputs_at.len() > 0 ==> inputs_at.last() < k,
            i <= k <= ev@.len(),
        decreases ev@.len() - k,
    {
        proof {
            if childless(ev@, i as int, "NeuralInputs"@) && k < q {
                assert(plain_event(ev@[k as int], "NeuralInputs"@));
            }
        }
        proof {
            if element_named(ev@, i as int, "NeuralInputs"@) && attrs_complete(ev@, i as int) {
                lemma_nested_step(ev@, i as int, k as int);
            }
        }
        if end_at(ev, k) {
            return Err(unexpected_end());
        }
        let ghost here = k as int;
        let ghost inputs_at0 = inputs_at;
        let ghost mut stepped = false;
        proof {
            reveal_strlit("NeuralInput");
        }
        match &ev[k] {
            XmlEvent::Start(t) => {
                k = k + 1;
                if name_is(&t.name, "NeuralInput") {
                    let (n, j) = parse_neural_input(ev, k, t)?;
                    let item = n;
                    proof {
                        lemma_read_push(ev@, i as int, inputs_at, inputs@.skip(old(inputs)@.len() as int), "NeuralInput"@, neural_input_tag(), here, item);
                        inputs_at = inputs_at.push(here);
                    }
                    let ghost before = inputs@;
                    inputs.push(item);
                    proof {
                        assert(inputs@.skip(old(inputs)@.len() as int) =~= before.skip(old(inputs)@.len() as int).push(item));
                        assert(inputs@.subrange(0, old(inputs)@.len() as int) =~= before.subrange(0, old(inputs)@.len() as int));
                    }
                    k = j;
                }
            },
            XmlEvent::End(n) => {
                k = k + 1;
                proof {
                    lemma_covers_level_step(ev@, i as int, here, k as int, inputs_at0, inputs_at, spans, "NeuralInput"@);
                    spans = span_step(spans, here, k as int);
                    stepped = true;
                }
                if name_is(n, "NeuralInputs") {
                    break;
                }
            },
            _ => {
                k = k + 1;
            },
        }
        proof {
            if !stepped {
                lemma_covers_level_step(ev@, i as int, here, k as int, inputs_at0, inputs_at, spans, "NeuralInput"@);
                spans = span_step(spans, here, k as int);
            }
        }
    }
    proof {
        lemma_read_each_reached(ev@, i as int, k as int, inputs_at, spans, inputs@.skip(old(inputs)@.len() as int), "NeuralInput"@, neural_input_tag());
    }
    proof {
        lemma_read_in_order(ev@, i as int, k as int, inputs_at, inputs@.skip(old(inputs)@.len() as int), "NeuralInput"@, neural_input_tag());
    }
    Ok(k)
}

/// Whether `m` holds the attributes of `NeuralNetwork` tag `t`.
pub open spec fn neural_network_of(t: XmlTag, m: RawNeuralNetwork) -> bool {
    &&& tag_attr(t, "functionName"@) == Some(m.function_name@)
    &&& opt_view(m.model_name) == tag_attr(t, "modelName"@)
    &&& opt_view(m.activation_function) == tag_attr(t, "activationFunction"@)
    &&& m.output@.len() == 0
    &&& m.targets@.len() == 0
}

/// A `NeuralNetwork` whose start tag was just read, up to its end tag or the
/// end of the document: `functionName` is required.
pub fn parse_neural_network(ev: &Vec<XmlEvent>, i: usize, start: &XmlTag) -> (r: Result<
    (RawNeuralNetwork, usize),
    PmmlError,
>)
    requires
        0 < i <= ev@.len(),
    ensures
        match r {
            Ok((m, j)) => read_each_section(ev@, i as int, j as int, m.local_derived_fields@, "LocalTransformations"@, "DerivedField"@, derived_field_tag())
                && read_each_section(ev@, i as int, j as int, m.mining_schema@, "MiningSchema"@, "MiningField"@, mining_field_tag())
                && read_each_section(ev@, i as int, j as int, m.neural_inputs@, "NeuralInputs"@, "NeuralInput"@, neural_input_tag())
                && read_each_reached(ev@, i as int, j as int, m.neural_layers@, "NeuralLayer"@, layer_tag(opt_view(m.activation_function)))
                && read_in_order(ev@, i as int, j as int, m.local_derived_fields@, "DerivedField"@, derived_field_tag()) && read_in_order(ev@, i as int, j as int, m.neural_inputs@, "NeuralInput"@, neural_input_tag())
                && read_in_order(ev@, i as int, j as int, m.neural_layers@, "NeuralLayer"@, layer_tag(opt_view(m.activation_function)))
                && read_in_order(ev@, i as int, j as int, m.mining_schema@, "MiningField"@, mining_field_tag())
                && stops_at_end_or_tag(ev@, i as int, j as int, "NeuralNetwork"@)
                && neural_network_of(*start, m),
            Err(e) => tag_attr(*start, "functionName"@) is None ==> is_missing_attr(
                e,
                "NeuralNetwork"@,
                "functionName"@,
            ),
        },
        element_named(ev@, i as int, "NeuralNetwork"@) && model_readable(ev@, i as int, *start, "NeuralNetwork"@) ==> (r matches Ok((_, j)) && j <= closing(ev@, i - 1) + 1),
{
    let function_name = attr_required(start, "functionName", "NeuralNetwork")?;
    let model_name = attr(start, "modelName");
    let activation_function = attr(start, "activationFunction");
    let mut mining_schema: Vec<RawMiningField> = Vec::new();
    let ghost mut schema_at: Seq<int> = Seq::empty();
    let mut neural_inputs: Vec<RawNeuralInput> = Vec::new();
    let ghost mut neural_inputs_at: Seq<int> = Seq::empty();
    let mut neural_layers: Vec<RawNeuralLayer> = Vec::new();
    let ghost mut neural_layers_at: Seq<int> = Seq::empty();
    let mut local_derived_fields: Vec<RawDerivedField> = Vec::new();
    let ghost mut local_derived_fields_at: Seq<int> = Seq::empty();
    let ghost mut spans: Seq<(int, int)> = Seq::empty();
    let ghost mut secs: Seq<int> = Seq::empty();
    let ghost mut ends: Seq<int> = Seq::empty();
    let ghost mut parts: Seq<Seq<RawNeuralInput>> = Seq::empty();
    let ghost mut sspans: Seq<(int, int)> = Seq::empty();
    proof {
        assert(parts.flatten() =~= Seq::<RawNeuralInput>::empty());
    }
    let ghost mut ms_secs: Seq<int> = Seq::empty();
    let ghost mut ms_ends: Seq<int> = Seq::empty();
    let ghost mut ms_parts: Seq<Seq<RawMiningField>> = Seq::empty();
    let ghost mut ms_spans: Seq<(int, int)> = Seq::empty();
    proof {
        assert(ms_parts.flatten() =~= Seq::<RawMiningField>::empty());
    }
    let ghost mut ldf_secs: Seq<int> = Seq::empty();
    let ghost mut ldf_ends: Seq<int> = Seq::empty();
    let ghost mut ldf_parts: Seq<Seq<RawDerivedField>> = Seq::empty();
    let ghost mut ldf_spans: Seq<(int, int)> = Seq::empty();
    proof {
        assert(ldf_parts.flatten() =~= Seq::<RawDerivedField>::empty());
    }
    let mut k = i;
    proof {
        if element_named(ev@, i as int, "NeuralNetwork"@) {
            lemma_closing(ev@, i - 1);
        }
    }
    loop
        invariant_except_break
            element_named(ev@, i as int, "NeuralNetwork"@) && model_readable(ev@, i as int, *start, "NeuralNetwork"@) ==> k <= closing(ev@, i - 1) && closes_at(ev@, i - 1, closing(ev@, i - 1)),
            0 < i <= k <= ev@.len(),
            sections_read(ev@, i as int, k as int, ldf_secs, ldf_ends, ldf_parts, "LocalTransformations"@, "DerivedField"@, derived_field_tag()),
            covers_level(ev@, i as int, k as int, ldf_secs, ldf_spans, "LocalTransformations"@),
            spans_ok(ev@, ldf_spans, i as int, k as int),
            local_derived_fields@ == ldf_parts.flatten(),
            sections_read(ev@, i as int, k as int, ms_secs, ms_ends, ms_parts, "MiningSchema"@, "MiningField"@, mining_field_tag()),
            covers_level(ev@, i as int, k as int, ms_secs, ms_spans, "MiningSchema"@),
            spans_ok(ev@, ms_spans, i as int, k as int),
            mining_schema@ == ms_parts.flatten(),
            sections_read(ev@, i as int, k as int, secs, ends, parts, "NeuralInputs"@, "NeuralInput"@, neural_input_tag()),
            covers_level(ev@, i as int, k as int, secs, sspans, "NeuralInputs"@),
            spans_ok(ev@, sspans, i as int, k as int),
            neural_inputs@ == parts.flatten(),
            spans_ok(ev@, spans, i as int, k as int),
            covers_level(ev@, i as int, k as int, neural_layers_at, spans, "NeuralLayer"@),
            tag_attr(*start, "functionName"@) == Some(function_name@),
            read_at_positions(ev@, i as int, schema_at, mining_schema@, "MiningField"@, mining_field_tag()),
            schema_at.len() > 0 ==> schema_at.last() < k,
            read_at_positions(ev@, i as int, neural_layers_at, neural_layers@, "NeuralLayer"@, layer_tag(opt_view(activation_function))),
            neural_layers_at.len() > 0 ==> neural_layers_at.last() < k,
            read_at_positions(ev@, i as int, neural_inputs_at, neural_inputs@, "NeuralInput"@, neural_input_tag()),
            neural_inputs_at.len() > 0 ==> neural_inputs_at.last() < k,
            read_at_positions(ev@, i as int, local_derived_fields_at, local_derived_fields@, "DerivedField"@, derived_field_tag()),
            local_derived_fields_at.len() > 0 ==> local_derived_fields_at.last() < k,
        ensures
            element_named(ev@, i as int, "NeuralNetwork"@) && model_readable(ev@, i as int, *start, "NeuralNetwork"@) ==> k <= closing(ev@, i - 1) + 1,
            0 < i <= k <= ev@.len(),
            sections_read(ev@, i as int, k as int, ldf_secs, ldf_ends, ldf_parts, "LocalTransformations"@, "DerivedField"@, derived_field_tag()),
            covers_level(ev@, i as int, k as int, ldf_secs, ldf_spans, "LocalTransformations"@),
            spans_ok(ev@, ldf_spans, i as int, k as int),
            local_derived_fields@ == ldf_parts.flatten(),
            sections_read(ev@, i as int, k as int, ms_secs, ms_ends, ms_parts, "MiningSchema"@, "MiningField"@, mining_field_tag()),
            covers_level(ev@, i as int, k as int, ms_secs, ms_spans, "MiningSchema"@),
            spans_ok(ev@, ms_spans, i as int, k as int),
            mining_schema@ == ms_parts.flatten(),
            sections_read(ev@, i as int, k as int, secs, ends, parts, "NeuralInputs"@, "NeuralInput"@, neural_input_tag()),
            covers_level(ev@, i as int, k as int, secs, sspans, "NeuralInputs"@),
            spans_ok(ev@, sspans, i as int, k as int),
            neural_inputs@ == parts.flatten(),
            spans_ok(ev@, spans, i as int, k as int),
            covers_level(ev@, i as int, k as int, neural_layers_at, spans, "NeuralLayer"@),
            tag_attr(*start, "functionName"@) == Some(function_name@),
            read_at_positions(ev@, i as int, schema_at, mining_schema@, "MiningField"@, mining_field_tag()),
            schema_at.len() > 0 ==> schema_at.last() < k,
            read_at_positions(ev@, i as int, neural_layers_at, neural_layers@, "NeuralLayer"@, layer_tag(opt_view(activation_function))),
            neural_layers_at.len() > 0 ==> neural_layers_at.last() < k,
            read_at_positions(ev@, i as int, neural_inputs_at, neural_inputs@, "NeuralInput"@, neural_input_tag()),
            neural_inputs_at.len() > 0 ==> neural_inputs_at.last() < k,
            read_at_positions(ev@, i as int, local_derived_fields_at, local_derived_fields@, "DerivedField"@, derived_field_tag()),
            local_derived_fields_at.len() > 0 ==> local_derived_fields_at.last() < k,
            at_end(ev@, k as int) || (i < k && is_end_named(ev@[k - 1], "NeuralNetwork"@)),
            sections_read(ev@, i as int, k as int, ldf_secs, ldf_ends, ldf_parts, "LocalTransformations"@, "DerivedField"@, derived_field_tag()),
            covers_level(ev@, i as int, k as int, ldf_secs, ldf_spans, "LocalTransformations"@),
            spans_ok(ev@, ldf_spans, i as int, k as int),
            local_derived_fields@ == ldf_parts.flatten(),
            sections_read(ev@, i as int, k as int, ms_secs, ms_ends, ms_parts, "MiningSchema"@, "MiningField"@, mining_field_tag()),
            covers_level(ev@, i as int, k as int, ms_secs, ms_spans, "MiningSchema"@),
            spans_ok(ev@, ms_spans, i as int, k as int),
            mining_schema@ == ms_parts.flatten(),
            sections_read(ev@, i as int, k as int, secs, ends, parts, "NeuralInputs"@, "NeuralInput"@, neural_input_tag()),
            covers_level(ev@, i as int, k as int, secs, sspans, "NeuralInputs"@),
            spans_ok(ev@, sspans, i as int, k as int),
            neural_inputs@ == parts.flatten(),
            spans_ok(ev@, spans, i as int, k as int),
            covers_level(ev@, i as int, k as int, neural_layers_at, spans, "NeuralLayer"@),
            read_at_positions(ev@, i as int, schema_at, mining_schema@, "MiningField"@, mining_field_tag()),
            schema_at.len() > 0 ==> schema_at.last() < k,
            read_at_positions(ev@, i as int, neural_layers_at, neural_layers@, "NeuralLayer"@, layer_tag(opt_view(activation_function))),
            neural_layers_at.len() > 0 ==> neural_layers_at.last() < k,
            read_at_positions(ev@, i as int, neural_inputs_at, neural_inputs@, "NeuralInput"@, neural_input_tag()),
            neural_inputs_at.len() > 0 ==> neural_inputs_at.last() < k,
            read_at_positions(ev@, i as int, local_derived_fields_at, local_derived_fields@, "DerivedField"@, derived_field_tag()),
            local_derived_fields_at.len() > 0 ==> local_derived_fields_at.last() < k,
        decreases ev@.len() - k,
    {
        proof {
            if element_named(ev@, i as int, "NeuralNetwork"@) && model_readable(ev@, i as int, *start, "NeuralNetwork"@) {
                lemma_nested_step(ev@, i as int, k as int);
                if k < closing(ev@, i - 1) {
                    assert(!start_named_at(ev@, k as int, "LocalTransformations"@));
                    assert(!is_end_named(ev@[k as int], "NeuralNetwork"@));
                }
            }
        }
        if end_at(ev, k) {
            break;
        }
        let ghost ldf_here = k as int;
        let ghost ldf_secs0 = ldf_secs;
        let ghost mut ldf_stepped = false;
        proof {
            reveal_strlit("LocalTransformations");
            reveal_strlit("MiningSchema");
            reveal_strlit("NeuralInputs");
            reveal_strlit("NeuralLayer");
            assert("LocalTransformations"@ != "MiningSchema"@) by { assert("LocalTransformations"@.len() != "MiningSchema"@.len()); }
            assert("LocalTransformations"@ != "NeuralInputs"@) by { assert("LocalTransformations"@.len() != "NeuralInputs"@.len()); }
            assert("LocalTransformations"@ != "NeuralLayer"@) by { assert("LocalTransformations"@.len() != "NeuralLayer"@.len()); }
        }
        let ghost ms_here = k as int;
        let ghost ms_secs0 = ms_secs;
        let ghost mut ms_stepped = false;
        proof {
            reveal_strlit("LocalTransformations");
            reveal_strlit("MiningSchema");
            reveal_strlit("NeuralInputs");
            reveal_strlit("NeuralLayer");
            assert("MiningSchema"@ != "LocalTransformations"@) by { assert("MiningSchema"@.len() != "LocalTransformations"@.len()); }
            assert("MiningSchema"@ != "NeuralInputs"@) by { assert("MiningSchema"@[0] != "NeuralInputs"@[0]); }
            assert("MiningSchema"@ != "NeuralLayer"@) by { assert("MiningSchema"@.len() != "NeuralLayer"@.len()); }
        }
        let ghost sec_here = k as int;
        let ghost secs0 = secs;
        let ghost mut sec_stepped = false;
        proof {
            reveal_strlit("LocalTransformations");
            reveal_strlit("MiningSchema");
            reveal_strlit("NeuralInputs");
            reveal_strlit("NeuralLayer");
            assert("NeuralInputs"@ != "LocalTransformations"@) by { assert("NeuralInputs"@.len() != "LocalTransformations"@.len()); }
            assert("NeuralInputs"@ != "MiningSchema"@) by { assert("NeuralInputs"@[0] != "MiningSchema"@[0]); }
            assert("NeuralInputs"@ != "NeuralLayer"@) by { assert("NeuralInputs"@.len() != "NeuralLayer"@.len()); }
        }
        let ghost here = k as int;
        let ghost neural_layers_at0 = neural_layers_at;
        let ghost mut stepped = false;
        proof {
            reveal_strlit("LocalTransformations");
            reveal_strlit("MiningSchema");
            reveal_strlit("NeuralInputs");
            reveal_strlit("NeuralLayer");
            assert("NeuralLayer"@ != "LocalTransformations"@) by { assert("NeuralLayer"@.len() != "LocalTransformations"@.len()); }
            assert("NeuralLayer"@ != "MiningSchema"@) by { assert("NeuralLayer"@.len() != "MiningSchema"@.len()); }
            assert("NeuralLayer"@ != "NeuralInputs"@) by { assert("NeuralLayer"@.len() != "NeuralInputs"@.len()); }
        }
        match &ev[k] {
            XmlEvent::Start(t) => {
                k = k + 1;
                if name_is(&t.name, "MiningSchema") {
                    let ghost ms_before = mining_schema@;
                    let (mut fields, j) = parse_mining_schema(ev, k, false)?;
                    let ghost ms_ys = fields@;
                    proof {
                        schema_at = lemma_read_extend(ev@, i as int, schema_at, mining_schema@, "MiningField"@, mining_field_tag(), k as int, j as int, fields@);
                    }
                    mining_schema.append(&mut fields);
                    proof {
                        assert(mining_schema@ =~= ms_before + ms_ys);
                        lemma_sections_push(ev@, i as int, ms_here, j as int, ms_secs, ms_ends, ms_parts, ms_ys, "MiningSchema"@, "MiningField"@, mining_field_tag());
                        lemma_covers_level_step(ev@, i as int, ms_here, j as int, ms_secs0, ms_secs0.push(ms_here), ms_spans, "MiningSchema"@);
                        ms_secs = ms_secs.push(ms_here);
                        ms_ends = ms_ends.push(j as int);
                        ms_parts = ms_parts.push(ms_ys);
                        ms_spans = span_step(ms_spans, ms_here, j as int);
                        ms_stepped = true;
                    }
                    k = j;
                } else if name_is(&t.name, "NeuralInputs") {
                    let ghost before = neural_inputs@;
                    let j = parse_neural_inputs(ev, k, &mut neural_inputs)?;
                    proof {
                        let ys = neural_inputs@.skip(before.len() as int);
                        assert(neural_inputs@ =~= before + ys);
                        lemma_sections_push(ev@, i as int, sec_here, j as int, secs, ends, parts, ys, "NeuralInputs"@, "NeuralInput"@, neural_input_tag());
                        lemma_covers_level_step(ev@, i as int, sec_here, j as int, secs0, secs0.push(sec_here), sspans, "NeuralInputs"@);
                        secs = secs.push(sec_here);
                        ends = ends.push(j as int);
                        parts = parts.push(ys);
                        sspans = span_step(sspans, sec_here, j as int);
                        sec_stepped = true;
                        assert(before.skip(0) =~= before);
                        neural_inputs_at = lemma_read_extend_mut(ev@, i as int, neural_inputs_at, before, neural_inputs@, 0, "NeuralInput"@, neural_input_tag(), k as int, j as int);
                        assert(neural_inputs@.skip(0) =~= neural_inputs@);
                    }
                    k = j;
                } else if name_is(&t.name, "NeuralLayer") {
                    let (layer, j) = parse_neural_layer(ev, k, t, &activation_function)?;
                    let item = layer;
                    proof {
                        lemma_read_push(ev@, i as int, neural_layers_at, neural_layers@, "NeuralLayer"@, layer_tag(opt_view(activation_function)), here, item);
                        neural_layers_at = neural_layers_at.push(here);
                    }
                    neural_layers.push(item);
                    k = j;
                } else if name_is(&t.name, "LocalTransformations") {
                    let ghost ldf_before = local_derived_fields@;
                    let (mut fields, j) = parse_local_transformations(ev, k)?;
                    let ghost ldf_ys = fields@;
                    proof {
                        local_derived_fields_at = lemma_read_extend(ev@, i as int, local_derived_fields_at, local_derived_fields@, "DerivedField"@, derived_field_tag(), k as int, j as int, fields@);
                    }
                    local_derived_fields.append(&mut fields);
                    proof {
                        assert(local_derived_fields@ =~= ldf_before + ldf_ys);
                        lemma_sections_push(ev@, i as int, ldf_here, j as int, ldf_secs, ldf_ends, ldf_parts, ldf_ys, "LocalTransformations"@, "DerivedField"@, derived_field_tag());
                        lemma_covers_level_step(ev@, i as int, ldf_here, j as int, ldf_secs0, ldf_secs0.push(ldf_here), ldf_spans, "LocalTransformations"@);
                        ldf_secs = ldf_secs.push(ldf_here);
                        ldf_ends = ldf_ends.push(j as int);
                        ldf_parts = ldf_parts.push(ldf_ys);
                        ldf_spans = span_step(ldf_spans, ldf_here, j as int);
                        ldf_stepped = true;
                    }
                    k = j;
                }
            },
            XmlEvent::End(n) => {
                k = k + 1;
                proof {
                    lemma_covers_level_step(ev@, i as int, ldf_here, k as int, ldf_secs0, ldf_secs0, ldf_spans, "LocalTransformations"@);
                    lemma_sections_widen(ev@, i as int, ldf_here, k as int, ldf_secs, ldf_ends, ldf_parts, "LocalTransformations"@, "DerivedField"@, derived_field_tag());
                    ldf_spans = span_step(ldf_spans, ldf_here, k as int);
                    ldf_stepped = true;
                }
                proof {
                    lemma_covers_level_step(ev@, i as int, ms_here, k as int, ms_secs0, ms_secs0, ms_spans, "MiningSchema"@);
                    lemma_sections_widen(ev@, i as int, ms_here, k as int, ms_secs, ms_ends, ms_parts, "MiningSchema"@, "MiningField"@, mining_field_tag());
                    ms_spans = span_step(ms_spans, ms_here, k as int);
                    ms_stepped = true;
                }
                proof {
                    lemma_covers_level_step(ev@, i as int, sec_here, k as int, secs0, secs0, sspans, "NeuralInputs"@);
                    lemma_sections_widen(ev@, i as int, sec_here, k as int, secs, ends, parts, "NeuralInputs"@, "NeuralInput"@, neural_input_tag());
                    sspans = span_step(sspans, sec_here, k as int);
                    sec_stepped = true;
                }
                proof {
                    lemma_covers_level_step(ev@, i as int, here, k as int, neural_layers_at0, neural_layers_at, spans, "NeuralLayer"@);
                    spans = span_step(spans, here, k as int);
                    stepped = true;
                }
                if name_is(n, "NeuralNetwork") {
                    break;
                }
            },
            _ => {
                k = k + 1;
            },
        }
        proof {
            if !ldf_stepped {
                lemma_covers_level_step(ev@, i as int, ldf_here, k as int, ldf_secs0, ldf_secs0, ldf_spans, "LocalTransformations"@);
                lemma_sections_widen(ev@, i as int, ldf_here, k as int, ldf_secs, ldf_ends, ldf_parts, "LocalTransformations"@, "DerivedField"@, derived_field_tag());
                ldf_spans = span_step(ldf_spans, ldf_here, k as int);
                ldf_stepped = true;
            }
        }
        proof {
            if !ms_stepped {
                lemma_covers_level_step(ev@, i as int, ms_here, k as int, ms_secs0, ms_secs0, ms_spans, "MiningSchema"@);
                lemma_sections_widen(ev@, i as int, ms_here, k as int, ms_secs, ms_ends, ms_parts, "MiningSchema"@, "MiningField"@, mining_field_tag());
                ms_spans = span_step(ms_spans, ms_here, k as int);
                ms_stepped = true;
            }
        }
        proof {
            if !sec_stepped {
                lemma_covers_level_step(ev@, i as int, sec_here, k as int, secs0, secs0, sspans, "NeuralInputs"@);
                lemma_sections_widen(ev@, i as int, sec_here, k as int, secs, ends, parts, "NeuralInputs"@, "NeuralInput"@, neural_input_tag());
                sspans = span_step(sspans, sec_here, k as int);
                sec_stepped = true;
            }
        }
        proof {
            if !stepped {
                lemma_covers_level_step(ev@, i as int, here, k as int, neural_layers_at0, neural_layers_at, spans, "NeuralLayer"@);
                spans = span_step(spans, here, k as int);
            }
        }
    }
    proof {
        lemma_read_each_reached(ev@, i as int, k as int, neural_layers_at, spans, neural_layers@, "NeuralLayer"@, layer_tag(opt_view(activation_function)));
    }
    proof {
        lemma_read_in_order(ev@, i as int, k as int, schema_at, mining_schema@, "MiningField"@, mining_field_tag());
    }
    proof {
        lemma_read_in_order(ev@, i as int, k as int, neural_layers_at, neural_layers@, "NeuralLayer"@, layer_tag(opt_view(activation_function)));
    }
    proof {
        lemma_read_in_order(ev@, i as int, k as int, neural_inputs_at, neural_inputs@, "NeuralInput"@, neural_input_tag());
    }
    proof {
        lemma_read_in_order(ev@, i as int, k as int, local_derived_fields_at, local_derived_fields@, "DerivedField"@, derived_field_tag());
    }
    Ok((RawNeuralNetwork {
        function_name,
        mining_schema,
        output: Vec::new(),
        targets: Vec::new(),
        neural_inputs,
        neural_layers,
        model_name,
        activation_function,
        local_derived_fields,
    }, k))
}

} // verus!
