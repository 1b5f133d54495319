//! What holds of idents, layers and output names whatever they are made of.
use vstd::prelude::*;
use vstd::utf8::encode_utf8;
use crate::bytes::{lemma_lex_irreflexive, lemma_lex_transitive, lex_less};
use crate::ident::{ident_text, part_texts, IdentView, ModulePart};
use crate::layer::{sorted_by_name, Layer, LayerRegistration};
use crate::modifiers::{are_modifiers, is_modifier, lemma_added_modifiers, listed_modifiers};
use crate::output_name::{
    content_type_fields, default_modifier, hash_fields, hashed_modifiers, layer_fields,
    modifier_fields, text_field, text_fields, HashFieldView, HashValueView, TAG_ASSETS,
    TAG_CONTENT_TYPE, TAG_FRAGMENT, TAG_LAYER, TAG_MODIFIER, TAG_PARTS, TAG_QUERY,
};
use crate::text::{grown, lemma_grown_twice, replaced};

verus! {

/// The registry does not depend on the order in which the layers were registered.
pub proof fn registry_ignores_registration_order(
    registrations: Seq<LayerRegistration>,
    others: Seq<LayerRegistration>,
    registry: Seq<LayerRegistration>,
    other_registry: Seq<LayerRegistration>,
)
    requires
        registrations.to_multiset() == others.to_multiset(),
        sorted_by_name(registry),
        registry.to_multiset() == registrations.to_multiset(),
        sorted_by_name(other_registry),
        other_registry.to_multiset() == others.to_multiset(),
    ensures
        registry == other_registry,
{
    lemma_sorted_is_unique(registry, other_registry);
}

/// There is one way only to sort registrations strictly by name.
proof fn lemma_sorted_is_unique(a: Seq<LayerRegistration>, b: Seq<LayerRegistration>)
    requires
        sorted_by_name(a),
        sorted_by_name(b),
        a.to_multiset() == b.to_multiset(),
    ensures
        a == b,
    decreases a.len(),
{
    broadcast use vstd::seq_lib::group_to_multiset_ensures;

    assert(a.len() == a.to_multiset().len() && b.len() == b.to_multiset().len());
    if a.len() == 0 {
        assert(a =~= b);
    } else {
        let n = a.len() - 1;
        let x = a[n];
        let y = b[n];
        assert(a.to_multiset().count(y) > 0) by {
            assert(b.contains(y));
        }
        assert(b.to_multiset().count(x) > 0) by {
            assert(a.contains(x));
        }
        let i = choose|i: int| 0 <= i < a.len() && a[i] == y;
        let j = choose|j: int| 0 <= j < b.len() && b[j] == x;
        if i < n {
            assert(lex_less(y.key(), x.key()));
            if j < n {
                assert(lex_less(x.key(), y.key()));
                lemma_lex_transitive(x.key(), y.key(), x.key());
            }
            lemma_lex_irreflexive(x.key());
        }
        assert(x == y);
        vstd::seq_lib::to_multiset_remove(a, n);
        vstd::seq_lib::to_multiset_remove(b, n);
        assert(a.remove(n) =~= a.drop_last());
        assert(b.remove(n) =~= b.drop_last());
        lemma_sorted_is_unique(a.drop_last(), b.drop_last());
        assert(a =~= a.drop_last().push(x));
        assert(b =~= b.drop_last().push(y));
    }
}

/// A layer is known by its name: two layers of a registry have the same name only if they are the
/// same.
pub proof fn layers_differ_in_name(layers: Seq<LayerRegistration>, a: Layer, b: Layer)
    requires
        sorted_by_name(layers),
        a.is_in(layers),
        b.is_in(layers),
    ensures
        a.name_in(layers) == b.name_in(layers) <==> a == b,
{
    a.lemma_id_is_layer(b);
    lemma_lex_irreflexive(layers[a.id()].key());
}

/// Layers are numbered in the order of their names.
pub proof fn layers_are_numbered_by_name(layers: Seq<LayerRegistration>, a: Layer, b: Layer)
    requires
        sorted_by_name(layers),
        a.is_in(layers),
        b.is_in(layers),
    ensures
        a.id() < b.id() <==> lex_less(
            encode_utf8(a.name_in(layers)),
            encode_utf8(b.name_in(layers)),
        ),
{
    let x = layers[a.id()].key();
    let y = layers[b.id()].key();
    lemma_lex_irreflexive(x);
    if b.id() < a.id() && lex_less(x, y) {
        lemma_lex_transitive(x, y, x);
    }
}

/// Modifiers that are added to an ident are listed in it behind those that were there, and nothing
/// else changes in the list.
pub proof fn added_modifiers_are_listed(ident: IdentView, added: Seq<Seq<char>>)
    requires
        are_modifiers(added),
    ensures
        listed_modifiers(grown(ident.modifiers, added, ", "@)) == listed_modifiers(ident.modifiers)
            + added,
{
    lemma_added_modifiers(ident.modifiers, added);
}

/// The modifier that every asset with an extension has does not change the hash, wherever and
/// however often it stands in the list: an ident `b` that lists what `a` lists without that
/// modifier, and is `a` otherwise, gives the same fields to its hash.
pub proof fn default_modifier_is_not_hashed(
    a: IdentView,
    b: IdentView,
    extension: Seq<char>,
    default: Seq<char>,
)
    requires
        default_modifier(extension) == Some(default),
        b == (IdentView { modifiers: b.modifiers, ..a }),
        listed_modifiers(b.modifiers) == listed_modifiers(a.modifiers).filter(
            |modifier: Seq<char>| modifier != default,
        ),
    ensures
        hash_fields(a, extension) == hash_fields(b, extension),
{
    let keep = |modifier: Seq<char>| default_modifier(extension) != Some(modifier);
    let listed = listed_modifiers(a.modifiers);
    assert(keep =~= |modifier: Seq<char>| modifier != default);
    lemma_filter_twice(listed, keep);
}

/// What is left of a list does not change when the list is gone through once more.
proof fn lemma_filter_twice(list: Seq<Seq<char>>, keep: spec_fn(Seq<char>) -> bool)
    ensures
        list.filter(keep).filter(keep) == list.filter(keep),
    decreases list.len(),
{
    reveal(Seq::filter);
    if list.len() > 0 {
        let shorter = list.drop_last();
        lemma_filter_twice(shorter, keep);
        if keep(list.last()) {
            shorter.filter(keep).lemma_filter_push(list.last(), keep);
        }
    }
}

/// The modifier that every asset with an extension has does not change the hash when it is added.
pub proof fn added_default_modifier_is_not_hashed(
    ident: IdentView,
    extension: Seq<char>,
    default: Seq<char>,
)
    requires
        default_modifier(extension) == Some(default),
    ensures
        hash_fields(
            IdentView { modifiers: grown(ident.modifiers, seq![default], ", "@), ..ident },
            extension,
        ) == hash_fields(ident, extension),
{
    reveal_strlit("ecmascript");
    reveal_strlit("css");
    assert(is_modifier(default));
    let keep = |modifier: Seq<char>| default_modifier(extension) != Some(modifier);
    let before = listed_modifiers(ident.modifiers);
    lemma_added_modifiers(ident.modifiers, seq![default]);
    assert(before + seq![default] =~= before.push(default));
    before.lemma_filter_push(default, keep);
}

/// The fields of a list that have a given tag.
spec fn with_tag(fields: Seq<HashFieldView>, tag: u8) -> Seq<HashFieldView> {
    fields.filter(|field: HashFieldView| field.tag == tag)
}

/// The fields with a tag in two lists one after the other.
proof fn lemma_with_tag_concat(a: Seq<HashFieldView>, b: Seq<HashFieldView>, tag: u8)
    ensures
        with_tag(a + b, tag) == with_tag(a, tag) + with_tag(b, tag),
{
    Seq::filter_distributes_over_add(a, b, |field: HashFieldView| field.tag == tag);
}

/// Fields that all have the tag `own` are found under it and under no other.
proof fn lemma_with_tag_uniform(fields: Seq<HashFieldView>, own: u8, tag: u8)
    requires
        forall|i: int| 0 <= i < fields.len() ==> (#[trigger] fields[i]).tag == own,
    ensures
        with_tag(fields, tag) == (if tag == own {
            fields
        } else {
            seq![]
        }),
    decreases fields.len(),
{
    reveal(Seq::filter);
    if fields.len() > 0 {
        lemma_with_tag_uniform(fields.drop_last(), own, tag);
        assert(fields[fields.len() - 1].tag == own);
        assert(fields.drop_last().push(fields.last()) =~= fields);
    } else {
        assert(with_tag(fields, tag) =~= fields);
        assert(fields =~= seq![]);
    }
}

/// What a field of an ident gives under a tag.
spec fn hashed_under(ident: IdentView, extension: Seq<char>, tag: u8) -> Seq<HashFieldView> {
    if tag == TAG_QUERY {
        text_fields(TAG_QUERY, ident.query)
    } else if tag == TAG_FRAGMENT {
        text_fields(TAG_FRAGMENT, ident.fragment)
    } else if tag == TAG_ASSETS {
        text_fields(TAG_ASSETS, ident.assets)
    } else if tag == TAG_MODIFIER {
        modifier_fields(hashed_modifiers(ident.modifiers, extension))
    } else if tag == TAG_PARTS {
        text_fields(TAG_PARTS, ident.parts)
    } else if tag == TAG_LAYER {
        layer_fields(ident.layer)
    } else if tag == TAG_CONTENT_TYPE {
        content_type_fields(ident.content_type)
    } else {
        seq![]
    }
}

/// Under each tag stands what the field of that tag gives.
proof fn lemma_hashed_under(ident: IdentView, extension: Seq<char>, tag: u8)
    ensures
        with_tag(hash_fields(ident, extension), tag) == hashed_under(ident, extension, tag),
{
    let f0 = text_fields(TAG_QUERY, ident.query);
    let f1 = text_fields(TAG_FRAGMENT, ident.fragment);
    let f2 = text_fields(TAG_ASSETS, ident.assets);
    let f3 = modifier_fields(hashed_modifiers(ident.modifiers, extension));
    let f4 = text_fields(TAG_PARTS, ident.parts);
    let f5 = layer_fields(ident.layer);
    let f6 = content_type_fields(ident.content_type);
    lemma_with_tag_uniform(f0, TAG_QUERY, tag);
    lemma_with_tag_uniform(f1, TAG_FRAGMENT, tag);
    lemma_with_tag_uniform(f2, TAG_ASSETS, tag);
    lemma_with_tag_uniform(f3, TAG_MODIFIER, tag);
    lemma_with_tag_uniform(f4, TAG_PARTS, tag);
    lemma_with_tag_uniform(f5, TAG_LAYER, tag);
    lemma_with_tag_uniform(f6, TAG_CONTENT_TYPE, tag);
    lemma_with_tag_concat(f0, f1, tag);
    lemma_with_tag_concat(f0 + f1, f2, tag);
    lemma_with_tag_concat(f0 + f1 + f2, f3, tag);
    lemma_with_tag_concat(f0 + f1 + f2 + f3, f4, tag);
    lemma_with_tag_concat(f0 + f1 + f2 + f3 + f4, f5, tag);
    lemma_with_tag_concat(f0 + f1 + f2 + f3 + f4 + f5, f6, tag);
    assert(with_tag(hash_fields(ident, extension), tag) =~= hashed_under(ident, extension, tag));
}

/// A text can be read off from what it gives.
proof fn lemma_text_fields(tag: u8, a: Seq<char>, b: Seq<char>)
    requires
        text_fields(tag, a) == text_fields(tag, b),
    ensures
        a == b,
{
    if a.len() == 0 {
        assert(text_fields(tag, b).len() == 0);
        assert(a =~= b);
    } else {
        assert(text_fields(tag, b).len() == 1);
        assert(text_fields(tag, a)[0] == text_field(tag, a));
        assert(text_fields(tag, b)[0] == text_field(tag, b));
    }
}

/// The modifiers can be read off from what they give.
proof fn lemma_modifier_fields(a: Seq<Seq<char>>, b: Seq<Seq<char>>)
    requires
        modifier_fields(a) == modifier_fields(b),
    ensures
        a == b,
{
    assert(modifier_fields(a).len() == a.len() && modifier_fields(b).len() == b.len());
    assert forall|i: int| 0 <= i < a.len() implies a[i] == b[i] by {
        assert(modifier_fields(a)[i] == text_field(TAG_MODIFIER, a[i]));
        assert(modifier_fields(b)[i] == text_field(TAG_MODIFIER, b[i]));
    }
    assert(a =~= b);
}

/// The layer can be read off from what it gives.
proof fn lemma_layer_fields(a: Option<Layer>, b: Option<Layer>)
    requires
        layer_fields(a) == layer_fields(b),
    ensures
        a == b,
{
    assert(layer_fields(a).len() == (if a is Some {
        1int
    } else {
        0
    }));
    assert(layer_fields(b).len() == (if b is Some {
        1int
    } else {
        0
    }));
    if a is Some && b is Some {
        assert(layer_fields(a)[0].value == HashValueView::Layer(a->0));
        assert(layer_fields(b)[0].value == HashValueView::Layer(b->0));
    }
}

/// The content type can be read off from what it gives.
proof fn lemma_content_type_fields(a: Option<Seq<char>>, b: Option<Seq<char>>)
    requires
        content_type_fields(a) == content_type_fields(b),
    ensures
        a == b,
{
    assert(content_type_fields(a).len() == (if a is Some {
        1int
    } else {
        0
    }));
    assert(content_type_fields(b).len() == (if b is Some {
        1int
    } else {
        0
    }));
    if a is Some && b is Some {
        assert(content_type_fields(a)[0] == text_field(TAG_CONTENT_TYPE, a->0));
        assert(content_type_fields(b)[0] == text_field(TAG_CONTENT_TYPE, b->0));
    }
}

/// Idents that give the same fields to their hash give the same under each tag.
proof fn lemma_same_under(a: IdentView, b: IdentView, extension: Seq<char>, tag: u8)
    requires
        hash_fields(a, extension) == hash_fields(b, extension),
    ensures
        hashed_under(a, extension, tag) == hashed_under(b, extension, tag),
{
    lemma_hashed_under(a, extension, tag);
    lemma_hashed_under(b, extension, tag);
}

/// Idents that give the same fields to their hash differ in nothing but their paths and the
/// modifier that every asset with the extension has.
pub proof fn hash_fields_tell_idents_apart(a: IdentView, b: IdentView, extension: Seq<char>)
    requires
        hash_fields(a, extension) == hash_fields(b, extension),
    ensures
        a.query == b.query,
        a.fragment == b.fragment,
        a.assets == b.assets,
        hashed_modifiers(a.modifiers, extension) == hashed_modifiers(b.modifiers, extension),
        a.parts == b.parts,
        a.layer == b.layer,
        a.content_type == b.content_type,
{
    assert(a.query == b.query) by {
        lemma_same_under(a, b, extension, TAG_QUERY);
        lemma_text_fields(TAG_QUERY, a.query, b.query);
    }
    assert(a.fragment == b.fragment) by {
        lemma_same_under(a, b, extension, TAG_FRAGMENT);
        lemma_text_fields(TAG_FRAGMENT, a.fragment, b.fragment);
    }
    assert(a.assets == b.assets) by {
        lemma_same_under(a, b, extension, TAG_ASSETS);
        lemma_text_fields(TAG_ASSETS, a.assets, b.assets);
    }
    assert(hashed_modifiers(a.modifiers, extension) == hashed_modifiers(b.modifiers, extension))
        by {
        lemma_same_under(a, b, extension, TAG_MODIFIER);
        lemma_modifier_fields(
            hashed_modifiers(a.modifiers, extension),
            hashed_modifiers(b.modifiers, extension),
        );
    }
    assert(a.parts == b.parts) by {
        lemma_same_under(a, b, extension, TAG_PARTS);
        lemma_text_fields(TAG_PARTS, a.parts, b.parts);
    }
    assert(a.layer == b.layer) by {
        lemma_same_under(a, b, extension, TAG_LAYER);
        lemma_layer_fields(a.layer, b.layer);
    }
    assert(a.content_type == b.content_type) by {
        lemma_same_under(a, b, extension, TAG_CONTENT_TYPE);
        lemma_content_type_fields(a.content_type, b.content_type);
    }
}

/// An ident gives nothing to its hash exactly if it has nothing but a path and, perhaps, the
/// modifier that every asset with the extension has.
pub proof fn only_plain_idents_go_without_hash(ident: IdentView, extension: Seq<char>)
    ensures
        hash_fields(ident, extension).len() == 0 <==> {
            &&& ident.query.len() == 0
            &&& ident.fragment.len() == 0
            &&& ident.assets.len() == 0
            &&& hashed_modifiers(ident.modifiers, extension).len() == 0
            &&& ident.parts.len() == 0
            &&& ident.layer is None
            &&& ident.content_type is None
        },
{
    let modifiers = hashed_modifiers(ident.modifiers, extension);
    assert(modifier_fields(modifiers).len() == modifiers.len());
}

/// What two lists of parts write out one after the other is what they write out together.
pub proof fn parts_add_up(first: Seq<ModulePart>, second: Seq<ModulePart>)
    ensures
        part_texts(first + second) == part_texts(first) + part_texts(second),
    decreases second.len(),
{
    if second.len() == 0 {
        assert(first + second =~= first);
        assert(part_texts(first) + part_texts(second) =~= part_texts(first));
    } else {
        assert((first + second).drop_last() =~= first + second.drop_last());
        parts_add_up(first, second.drop_last());
        assert(part_texts(first + second) =~= part_texts(first) + part_texts(second));
    }
}

/// Modifiers, parts or nested assets can be added all at once or one list after the other.
pub proof fn lists_can_be_added_in_steps(
    text: Seq<char>,
    first: Seq<Seq<char>>,
    second: Seq<Seq<char>>,
    separator: Seq<char>,
)
    ensures
        grown(grown(text, first, separator), second, separator) == grown(
            text,
            first + second,
            separator,
        ),
{
    lemma_grown_twice(text, first, second, separator);
}

/// A facade among the parts does not show in the ident.
pub proof fn facades_do_not_show(text: Seq<char>, before: Seq<ModulePart>, behind: Seq<ModulePart>)
    ensures
        grown(text, part_texts(before + seq![ModulePart::Facade] + behind), " "@) == grown(
            text,
            part_texts(before + behind),
            " "@,
        ),
{
    parts_add_up(before, behind);
    parts_add_up(before + seq![ModulePart::Facade], behind);
    parts_add_up(before, seq![ModulePart::Facade]);
    assert(seq![ModulePart::Facade].drop_last() =~= Seq::<ModulePart>::empty());
    reveal_with_fuel(part_texts, 2);
    assert(part_texts(before) + part_texts(seq![ModulePart::Facade]) =~= part_texts(before));
}

/// A pattern without a star is the new path; a lone star stands for the old one.
pub proof fn stars_stand_for_the_path(pattern: Seq<char>, path: Seq<char>)
    ensures
        !pattern.contains('*') ==> replaced(pattern, '*', path) == pattern,
        pattern == seq!['*'] ==> replaced(pattern, '*', path) == path,
    decreases pattern.len(),
{
    if pattern.len() > 0 {
        let shorter = pattern.drop_last();
        stars_stand_for_the_path(shorter, path);
        if !pattern.contains('*') {
            assert forall|i: int| 0 <= i < shorter.len() implies shorter[i] != '*' by {
                assert(shorter[i] == pattern[i]);
            }
            assert(pattern.last() != '*') by {
                assert(pattern.contains(pattern.last()));
            }
            assert(shorter + seq![pattern.last()] =~= pattern);
        }
        if pattern == seq!['*'] {
            assert(shorter =~= seq![]);
            assert(replaced(shorter, '*', path) + path =~= path);
        }
    }
}

/// An ident with nothing but a path is written out as the path.
pub proof fn plain_ident_is_its_path(ident: IdentView, layers: Seq<LayerRegistration>)
    requires
        ident.query.len() == 0,
        ident.fragment.len() == 0,
        ident.assets.len() == 0,
        ident.modifiers.len() == 0,
        ident.parts.len() == 0,
        ident.layer is None,
        ident.content_type is None,
    ensures
        ident_text(ident, layers) == ident.path.text,
{
    assert(ident_text(ident, layers) =~= ident.path.text);
}

}
