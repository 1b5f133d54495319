//! What layers and the registrations they come from are known by.
use vstd::prelude::*;
use vstd::utf8::encode_utf8;
use crate::bytes::{lemma_lex_total, lex_less};
use crate::ident::{layer_is_in, IdentView};
use crate::layer::{
    distinct_names, is_first_duplicate, sorted_by_name, Layer, LayerRegistration, MAX_LAYERS,
};
use crate::text::lemma_same_bytes;

verus! {

/// A registry holds as many layers as there are numbers of one byte, but for the last.
pub proof fn registries_are_numbered_in_one_byte(count: int)
    ensures
        count <= MAX_LAYERS <==> count <= 255,
{
}

/// A layer is one of a registry exactly if its number is, and it has the name that is registered
/// under that number.
pub proof fn layers_are_known_by_number(
    layer: Layer,
    layers: Seq<LayerRegistration>,
    ident: IdentView,
)
    ensures
        layer.is_in(layers) <==> 0 <= layer.id() < layers.len(),
        layer.name_in(layers) == layers[layer.id()].name@,
        layer_is_in(ident, layers) <==> (ident.layer is None || 0 <= ident.layer->0.id()
            < layers.len()),
{
}

/// Registrations have distinct names, or stand in the order of their names, exactly if any two of
/// them do.
pub proof fn registrations_are_held_against_each_other(registrations: Seq<LayerRegistration>)
    ensures
        distinct_names(registrations) <==> forall|i: int, j: int|
            #![trigger registrations[i], registrations[j]]
            0 <= i < registrations.len() && 0 <= j < registrations.len() && i != j
                ==> registrations[i].name@ != registrations[j].name@,
        sorted_by_name(registrations) <==> forall|i: int, j: int|
            #![trigger registrations[i], registrations[j]]
            0 <= i < j < registrations.len() ==> lex_less(
                encode_utf8(registrations[i].name@),
                encode_utf8(registrations[j].name@),
            ),
{
}

/// Of registrations with names that are not distinct exactly one pair is reported.
pub proof fn one_duplicate_is_reported(
    registrations: Seq<LayerRegistration>,
    first: LayerRegistration,
    second: LayerRegistration,
    other_first: LayerRegistration,
    other_second: LayerRegistration,
)
    requires
        is_first_duplicate(registrations, first, second),
        is_first_duplicate(registrations, other_first, other_second),
    ensures
        first == other_first,
        second == other_second,
        !distinct_names(registrations),
{
    let (p, q) = choose|p: int, q: int|
        {
            &&& 0 <= p < q < registrations.len()
            &&& #[trigger] registrations[p] == first
            &&& #[trigger] registrations[q] == second
            &&& forall|r: int|
                0 <= r < q && r != p ==> #[trigger] registrations[r].name@ != first.name@
        };
    let (s, t) = choose|p: int, q: int|
        {
            &&& 0 <= p < q < registrations.len()
            &&& #[trigger] registrations[p] == other_first
            &&& #[trigger] registrations[q] == other_second
            &&& forall|r: int|
                0 <= r < q && r != p ==> #[trigger] registrations[r].name@ != other_first.name@
        };
    assert(!lex_less(registrations[p].key(), other_first.key()));
    assert(!lex_less(registrations[s].key(), first.key()));
    lemma_lex_total(first.key(), other_first.key());
    lemma_same_bytes(first.name@, other_first.name@);
    assert(registrations[p].name@ == registrations[s].name@);
    assert(registrations[q].name@ == registrations[t].name@);
}

}
