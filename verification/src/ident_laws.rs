//! What idents hold, when they are the same, and how each of their fields is written out.
use vstd::prelude::*;
use vstd::std_specs::cmp::PartialEqSpec;
use crate::ident::{
    are_resolved, asset_entries, asset_entry, ident_text, layer_is_in, owned_text_of, part_texts,
    resolved_layers_are_in, well_formed, AssetIdent, AssetIdentInner, IdentView, ModulePart,
};
use crate::laws::{layers_differ_in_name, parts_add_up};
use crate::layer::{sorted_by_name, LayerRegistration};
use crate::modifiers::{is_modifier, listed_modifiers};
use crate::path::FileSystemPath;

verus! {

/// The view of an ident shows each of its fields as it is.
pub proof fn every_field_is_seen(inner: AssetIdentInner, path: FileSystemPath)
    ensures
        path@.fs == path.fs,
        path@.path == path.path@,
        path@.text == path.text@,
        inner@.path == inner.path@,
        inner@.query == inner.query@,
        inner@.fragment == inner.fragment@,
        inner@.assets == inner.assets@,
        inner@.modifiers == inner.modifiers@,
        inner@.parts == inner.parts@,
        inner@.layer == inner.layer,
        inner.content_type is None ==> inner@.content_type is None,
        inner.content_type matches Some(text) ==> inner@.content_type == Some(text@),
        owned_text_of(inner.content_type) is Some <==> inner.content_type is Some,
{
}

/// Paths are the same exactly if they are the same path, in the same file system, and are written
/// out alike.
pub proof fn paths_are_equal_in_all_fields(a: FileSystemPath, b: FileSystemPath)
    ensures
        FileSystemPath::obeys_eq_spec(),
        a.eq_spec(&b) <==> a.fs == b.fs && a.path@ == b.path@ && a.text@ == b.text@,
{
}

/// What idents are made of is the same exactly if each field is.
pub proof fn fields_are_equal_one_by_one(a: AssetIdentInner, b: AssetIdentInner)
    ensures
        AssetIdentInner::obeys_eq_spec(),
        a.eq_spec(&b) <==> {
            &&& a.path.fs == b.path.fs
            &&& a.path.path@ == b.path.path@
            &&& a.path.text@ == b.path.text@
            &&& a.query@ == b.query@
            &&& a.fragment@ == b.fragment@
            &&& a.assets@ == b.assets@
            &&& a.modifiers@ == b.modifiers@
            &&& a.parts@ == b.parts@
            &&& a.layer == b.layer
            &&& match (a.content_type, b.content_type) {
                (Some(x), Some(y)) => x@ == y@,
                (None, None) => true,
                _ => false,
            }
        },
{
}

/// Idents are the same exactly if all that they are made of is.
pub proof fn idents_are_equal_in_all_fields(a: AssetIdent, b: AssetIdent)
    ensures
        AssetIdent::obeys_eq_spec(),
        a.eq_spec(&b) <==> {
            &&& a@.path.fs == b@.path.fs
            &&& a@.path.path == b@.path.path
            &&& a@.path.text == b@.path.text
            &&& a@.query == b@.query
            &&& a@.fragment == b@.fragment
            &&& a@.assets == b@.assets
            &&& a@.modifiers == b@.modifiers
            &&& a@.parts == b@.parts
            &&& a@.layer == b@.layer
            &&& a@.content_type == b@.content_type
        },
{
}

/// A well-formed ident has a query that is empty or starts with `?`, a fragment that is empty or
/// starts with `#`, modifiers that are not empty and hold no comma, and a content type that is not
/// empty, if any.
pub proof fn well_formed_idents_hold_what_they_are_meant_to(ident: IdentView)
    ensures
        well_formed(ident) <==> {
            &&& ident.query.len() == 0 || ident.query[0] == '?'
            &&& ident.fragment.len() == 0 || ident.fragment[0] == '#'
            &&& forall|i: int, k: int|
                #![trigger listed_modifiers(ident.modifiers)[i][k]]
                0 <= i < listed_modifiers(ident.modifiers).len() && 0 <= k < listed_modifiers(
                    ident.modifiers,
                )[i].len() ==> listed_modifiers(ident.modifiers)[i][k] != ','
            &&& forall|i: int|
                0 <= i < listed_modifiers(ident.modifiers).len() ==> (
                #[trigger] listed_modifiers(ident.modifiers)[i]).len() > 0
            &&& ident.content_type matches Some(content_type) ==> content_type.len() > 0
        },
{
    let listed = listed_modifiers(ident.modifiers);
    if well_formed(ident) {
        assert forall|i: int, k: int|
            #![trigger listed[i][k]]
            0 <= i < listed.len() && 0 <= k < listed[i].len() implies listed[i][k] != ',' by {
            assert(is_modifier(listed[i]));
        }
        assert forall|i: int| 0 <= i < listed.len() implies (#[trigger] listed[i]).len() > 0 by {
            assert(is_modifier(listed[i]));
        }
    }
    if (forall|i: int, k: int|
        #![trigger listed[i][k]]
        0 <= i < listed.len() && 0 <= k < listed[i].len() ==> listed[i][k] != ',') && (forall|
        i: int,
    |
        0 <= i < listed.len() ==> (#[trigger] listed[i]).len() > 0) {
        assert forall|i: int| 0 <= i < listed.len() implies is_modifier(#[trigger] listed[i]) by {
            if listed[i].contains(',') {
                let k = choose|k: int| 0 <= k < listed[i].len() && listed[i][k] == ',';
                assert(listed[i][k] != ',');
            }
        }
    }
}

/// An ident is written out field by field, in this order, and each field adds its own piece
/// whatever the fields in front of it are: the query and the fragment as they are, the nested assets
/// in braces, the layer by its name in brackets, the modifiers in parentheses, the content type in
/// angle brackets, and the parts as they are. A field that is missing adds nothing.
pub proof fn each_field_is_written_behind_the_others(
    ident: IdentView,
    layers: Seq<LayerRegistration>,
)
    ensures
        ({
            let path = IdentView {
                path: ident.path,
                query: seq![],
                fragment: seq![],
                assets: seq![],
                modifiers: seq![],
                parts: seq![],
                layer: None,
                content_type: None,
            };
            let query = IdentView { query: ident.query, ..path };
            let fragment = IdentView { fragment: ident.fragment, ..query };
            let assets = IdentView { assets: ident.assets, ..fragment };
            let layer = IdentView { layer: ident.layer, ..assets };
            let modifiers = IdentView { modifiers: ident.modifiers, ..layer };
            let content_type = IdentView { content_type: ident.content_type, ..modifiers };
            &&& ident_text(path, layers) == ident.path.text
            &&& ident_text(query, layers) == ident_text(path, layers) + ident.query
            &&& ident_text(fragment, layers) == ident_text(query, layers) + ident.fragment
            &&& ident.assets.len() == 0 ==> ident_text(assets, layers) == ident_text(
                fragment,
                layers,
            )
            &&& ident.assets.len() > 0 ==> ident_text(assets, layers) == ident_text(
                fragment,
                layers,
            ) + " {"@ + ident.assets + " }"@
            &&& ident.layer is None ==> ident_text(layer, layers) == ident_text(assets, layers)
            &&& ident.layer matches Some(l) ==> ident_text(layer, layers) == ident_text(
                assets,
                layers,
            ) + " ["@ + layers[l.id()].name@ + "]"@
            &&& ident.modifiers.len() == 0 ==> ident_text(modifiers, layers) == ident_text(
                layer,
                layers,
            )
            &&& ident.modifiers.len() > 0 ==> ident_text(modifiers, layers) == ident_text(
                layer,
                layers,
            ) + " ("@ + ident.modifiers + ")"@
            &&& ident.content_type is None ==> ident_text(content_type, layers) == ident_text(
                modifiers,
                layers,
            )
            &&& ident.content_type matches Some(text) ==> ident_text(content_type, layers)
                == ident_text(modifiers, layers) + " <"@ + text + ">"@
            &&& ident_text(ident, layers) == ident_text(content_type, layers) + ident.parts
        }),
{
    let path = IdentView {
        path: ident.path,
        query: seq![],
        fragment: seq![],
        assets: seq![],
        modifiers: seq![],
        parts: seq![],
        layer: None,
        content_type: None,
    };
    let query = IdentView { query: ident.query, ..path };
    let fragment = IdentView { fragment: ident.fragment, ..query };
    let assets = IdentView { assets: ident.assets, ..fragment };
    let layer = IdentView { layer: ident.layer, ..assets };
    let modifiers = IdentView { modifiers: ident.modifiers, ..layer };
    let content_type = IdentView { content_type: ident.content_type, ..modifiers };
    let p = ident_text(path, layers);
    let q = ident_text(query, layers);
    let f = ident_text(fragment, layers);
    let a = ident_text(assets, layers);
    let l = ident_text(layer, layers);
    let m = ident_text(modifiers, layers);
    let c = ident_text(content_type, layers);
    assert(p =~= ident.path.text);
    assert(q =~= p + ident.query);
    assert(f =~= q + ident.fragment);
    if ident.assets.len() > 0 {
        assert(a =~= f + " {"@ + ident.assets + " }"@);
    } else {
        assert(a =~= f);
    }
    if let Some(own) = ident.layer {
        assert(l =~= a + " ["@ + layers[own.id()].name@ + "]"@);
    } else {
        assert(l =~= a);
    }
    if ident.modifiers.len() > 0 {
        assert(m =~= l + " ("@ + ident.modifiers + ")"@);
    } else {
        assert(m =~= l);
    }
    if let Some(text) = ident.content_type {
        assert(c =~= m + " <"@ + text + ">"@);
    } else {
        assert(c =~= m);
    }
    assert(ident_text(ident, layers) =~= c + ident.parts);
}

/// What stands between the same texts on both sides is the same if the whole is.
proof fn lemma_same_between(front: Seq<char>, a: Seq<char>, b: Seq<char>, back: Seq<char>)
    requires
        front + a + back == front + b + back,
    ensures
        a == b,
{
    let x = front + a + back;
    let y = front + b + back;
    assert(x.len() == y.len());
    let n = front.len() as int;
    assert(a =~= x.subrange(n, n + a.len()));
    assert(b =~= y.subrange(n, n + b.len()));
}

/// Idents that differ in their layer alone are written out differently, whether one of them has
/// none or both have one of the same registry.
pub proof fn idents_of_different_layers_are_written_differently(
    a: IdentView,
    b: IdentView,
    layers: Seq<LayerRegistration>,
)
    requires
        sorted_by_name(layers),
        layer_is_in(a, layers),
        layer_is_in(b, layers),
        b == (IdentView { layer: b.layer, ..a }),
        a.layer != b.layer,
    ensures
        ident_text(a, layers) != ident_text(b, layers),
{
    reveal_strlit(" [");
    reveal_strlit("]");
    let none = IdentView {
        layer: None,
        modifiers: seq![],
        content_type: None,
        parts: seq![],
        ..a
    };
    let front = ident_text(none, layers);
    let written_a: Seq<char> = match a.layer {
        Some(l) => " ["@ + l.name_in(layers) + "]"@,
        None => seq![],
    };
    let written_b: Seq<char> = match b.layer {
        Some(l) => " ["@ + l.name_in(layers) + "]"@,
        None => seq![],
    };
    let back = (if a.modifiers.len() > 0 {
        " ("@ + a.modifiers + ")"@
    } else {
        seq![]
    }) + (match a.content_type {
        Some(content_type) => " <"@ + content_type + ">"@,
        None => seq![],
    }) + a.parts;
    assert(ident_text(a, layers) =~= front + written_a + back);
    assert(ident_text(b, layers) =~= front + written_b + back);
    if ident_text(a, layers) == ident_text(b, layers) {
        lemma_same_between(front, written_a, written_b, back);
        assert(written_a.len() == written_b.len());
        if a.layer is Some && b.layer is Some {
            let x = a.layer->0;
            let y = b.layer->0;
            lemma_same_between(" ["@, x.name_in(layers), y.name_in(layers), "]"@);
            layers_differ_in_name(layers, x, y);
        }
    }
}

/// A nested asset is listed as one space, the whole key, an arrow between spaces, and the whole
/// text of the asset, and nothing else.
pub proof fn entries_hold_the_whole_key_and_asset(key: Seq<char>, asset: Seq<char>)
    ensures
        ({
            let entry = asset_entry(key, asset);
            let n = key.len() as int;
            &&& entry.len() == 1 + key.len() + 4 + asset.len()
            &&& entry[0] == ' '
            &&& entry.subrange(1, 1 + n) == key
            &&& entry[n + 1] == ' '
            &&& entry[n + 2] == '='
            &&& entry[n + 3] == '>'
            &&& entry[n + 4] == ' '
            &&& entry.skip(n + 5) == asset
        }),
{
    reveal_strlit(" ");
    reveal_strlit(" => ");
    let entry = asset_entry(key, asset);
    let n = key.len() as int;
    assert(entry.subrange(1, 1 + n) =~= key);
    assert(entry.skip(n + 5) =~= asset);
}

/// Nested assets are listed one by one, each with its own key and its own text, at its place.
pub proof fn assets_are_listed_one_by_one<E>(
    items: Seq<(String, Result<AssetIdent, E>)>,
    layers: Seq<LayerRegistration>,
)
    ensures
        asset_entries(items, layers).len() == items.len(),
        forall|i: int|
            0 <= i < items.len() && items[i].1 is Ok ==> #[trigger] asset_entries(items, layers)[i]
                == " "@ + items[i].0@ + " => "@ + ident_text(items[i].1->Ok_0@, layers),
{
}

/// The first assets of a list are resolved if each of them is. Each asset with none in front of it
/// that is not has to have a layer of the registry, if any.
pub proof fn assets_are_resolved_one_by_one<E>(
    items: Seq<(String, Result<AssetIdent, E>)>,
    layers: Seq<LayerRegistration>,
    count: int,
)
    ensures
        are_resolved(items, count) <==> forall|i: int|
            0 <= i < count ==> #[trigger] items[i].1 is Ok,
        resolved_layers_are_in(items, layers) <==> forall|i: int|
            {
                &&& 0 <= i < items.len()
                &&& #[trigger] items[i].1 is Ok
                &&& forall|k: int| 0 <= k < i ==> #[trigger] items[k].1 is Ok
                &&& items[i].1->Ok_0@.layer is Some
            } ==> 0 <= items[i].1->Ok_0@.layer->0.id() < layers.len(),
{
    if resolved_layers_are_in(items, layers) {
        assert forall|i: int|
            {
                &&& 0 <= i < items.len()
                &&& #[trigger] items[i].1 is Ok
                &&& forall|k: int| 0 <= k < i ==> #[trigger] items[k].1 is Ok
                &&& items[i].1->Ok_0@.layer is Some
            } implies 0 <= items[i].1->Ok_0@.layer->0.id() < layers.len() by {
            assert(are_resolved(items, i + 1));
        }
    }
    if forall|i: int|
        {
            &&& 0 <= i < items.len()
            &&& #[trigger] items[i].1 is Ok
            &&& forall|k: int| 0 <= k < i ==> #[trigger] items[k].1 is Ok
            &&& items[i].1->Ok_0@.layer is Some
        } ==> 0 <= items[i].1->Ok_0@.layer->0.id() < layers.len() {
        assert forall|i: int|
            0 <= i < items.len() && #[trigger] are_resolved(items, i + 1) implies layer_is_in(
            items[i].1->Ok_0@,
            layers,
        ) by {
            assert(items[i].1 is Ok);
        }
    }
}

/// A part that is not the facade stands in an ident exactly as it is written out, behind the parts
/// in front of it; the facade does not stand there.
pub proof fn parts_are_listed_as_they_are(parts: Seq<ModulePart>, text: String)
    ensures
        part_texts(seq![]) == Seq::<Seq<char>>::empty(),
        part_texts(seq![ModulePart::Named(text)]) == seq![text@],
        part_texts(seq![ModulePart::Facade]) == Seq::<Seq<char>>::empty(),
        part_texts(parts.push(ModulePart::Named(text))) == part_texts(parts).push(text@),
        part_texts(parts.push(ModulePart::Facade)) == part_texts(parts),
{
    let named = ModulePart::Named(text);
    reveal_with_fuel(part_texts, 2);
    assert(seq![named].drop_last() =~= Seq::<ModulePart>::empty());
    assert(seq![ModulePart::Facade].drop_last() =~= Seq::<ModulePart>::empty());
    assert(part_texts(seq![named]) =~= seq![text@]);
    assert(parts.push(named) =~= parts + seq![named]);
    assert(parts.push(ModulePart::Facade) =~= parts + seq![ModulePart::Facade]);
    parts_add_up(parts, seq![named]);
    parts_add_up(parts, seq![ModulePart::Facade]);
    assert(part_texts(parts) + seq![text@] =~= part_texts(parts).push(text@));
    assert(part_texts(parts) + Seq::<Seq<char>>::empty() =~= part_texts(parts));
}

}
