//! What each field of an ident gives to its hash.
use vstd::prelude::*;
use crate::ident::IdentView;
use crate::modifiers::{is_modifier, lemma_added_modifiers, listed_modifiers};
use crate::output_name::{
    default_modifier, field_views, hash_fields, hashed_modifiers, HashField, HashFieldView,
    HashValue, HashValueView,
};
use crate::text::grown;
use crate::text_laws::modifiers_stand_between_separators;

verus! {

/// The fields of a list are seen one by one, each with its own tag and its own value.
pub proof fn hashed_fields_are_seen_as_they_are(fields: Seq<HashField>)
    ensures
        field_views(fields).len() == fields.len(),
        forall|i: int|
            0 <= i < fields.len() ==> {
                &&& (#[trigger] field_views(fields)[i]).tag == fields[i].tag
                &&& fields[i].value matches HashValue::Text(text) ==> field_views(fields)[i].value
                    == HashValueView::Text(text@)
                &&& fields[i].value matches HashValue::Layer(layer) ==> field_views(
                    fields,
                )[i].value == HashValueView::Layer(layer)
            },
{
}

/// The modifier that the assets of an extension have is known for scripts and style sheets, and no
/// other extension has one.
pub proof fn scripts_and_style_sheets_have_default_modifiers(
    extension: Seq<char>,
    modifier: Seq<char>,
)
    ensures
        default_modifier(extension) == Some(modifier) <==> {
            ||| extension == ".js"@ && modifier == "ecmascript"@
            ||| extension == ".css"@ && modifier == "css"@
        },
{
    reveal_strlit(".js");
    reveal_strlit(".css");
    assert(".js"@.len() != ".css"@.len());
    if default_modifier(extension) == Some(modifier) {
        assert(extension == ".js"@ || extension == ".css"@);
    }
}

/// A list of one keeps its item or loses it.
proof fn lemma_filter_one(item: Seq<char>, keep: spec_fn(Seq<char>) -> bool)
    ensures
        seq![item].filter(keep) == (if keep(item) {
            seq![item]
        } else {
            seq![]
        }),
{
    reveal(Seq::filter);
    assert(seq![item].drop_last() =~= Seq::<Seq<char>>::empty());
    assert(seq![item].drop_last().filter(keep) =~= Seq::<Seq<char>>::empty());
    assert(Seq::<Seq<char>>::empty().push(item) =~= seq![item]);
}

/// The modifiers that are hashed are those that stand between the separators of the list, each as a
/// whole and at its place, but for the one that every script or style sheet has.
pub proof fn hashed_modifiers_stand_between_separators(
    piece: Seq<char>,
    rest: Seq<char>,
    extension: Seq<char>,
)
    requires
        forall|i: int, j: int|
            #![trigger piece[i], piece[j]]
            0 <= i && j == i + 1 && j < piece.len() ==> !(piece[i] == ',' && piece[j] == ' '),
    ensures
        ({
            let left_out = {
                ||| extension == ".js"@ && piece == "ecmascript"@
                ||| extension == ".css"@ && piece == "css"@
            };
            let own: Seq<Seq<char>> = if left_out {
                seq![]
            } else {
                seq![piece]
            };
            &&& hashed_modifiers(seq![], extension) == Seq::<Seq<char>>::empty()
            &&& piece.len() > 0 ==> hashed_modifiers(piece, extension) == own
            &&& rest.len() == 0 ==> hashed_modifiers(piece + ", "@ + rest, extension)
                == own.push(rest)
            &&& rest.len() > 0 ==> hashed_modifiers(piece + ", "@ + rest, extension) == own
                + hashed_modifiers(rest, extension)
        }),
{
    reveal_strlit("ecmascript");
    reveal_strlit("css");
    let keep = |modifier: Seq<char>| default_modifier(extension) != Some(modifier);
    scripts_and_style_sheets_have_default_modifiers(extension, piece);
    scripts_and_style_sheets_have_default_modifiers(extension, rest);
    modifiers_stand_between_separators(piece, rest);
    lemma_filter_one(piece, keep);
    lemma_filter_one(rest, keep);
    assert(Seq::<Seq<char>>::empty().filter(keep) =~= Seq::<Seq<char>>::empty());
    let own = seq![piece].filter(keep);
    if rest.len() == 0 {
        assert(seq![piece, rest] =~= seq![piece] + seq![rest]);
        Seq::filter_distributes_over_add(seq![piece], seq![rest], keep);
        assert(keep(rest));
        assert(own + seq![rest] =~= own.push(rest));
    } else {
        Seq::filter_distributes_over_add(seq![piece], listed_modifiers(rest), keep);
    }
}

/// Adding a modifier adds it, as a whole and at the end, to the modifiers that are hashed, unless it
/// is the one that every script or style sheet has. For any other extension all modifiers are
/// hashed.
pub proof fn added_modifiers_are_hashed(
    text: Seq<char>,
    modifier: Seq<char>,
    extension: Seq<char>,
)
    requires
        modifier.len() > 0,
        !modifier.contains(','),
    ensures
        ({
            let left_out = {
                ||| extension == ".js"@ && modifier == "ecmascript"@
                ||| extension == ".css"@ && modifier == "css"@
            };
            let more = grown(text, seq![modifier], ", "@);
            &&& !left_out ==> hashed_modifiers(more, extension) == hashed_modifiers(
                text,
                extension,
            ).push(modifier)
            &&& left_out ==> hashed_modifiers(more, extension) == hashed_modifiers(text, extension)
        }),
        extension != ".js"@ && extension != ".css"@ ==> hashed_modifiers(text, extension)
            == listed_modifiers(text),
{
    let keep = |modifier: Seq<char>| default_modifier(extension) != Some(modifier);
    let before = listed_modifiers(text);
    scripts_and_style_sheets_have_default_modifiers(extension, modifier);
    assert(is_modifier(modifier));
    lemma_added_modifiers(text, seq![modifier]);
    assert(before + seq![modifier] =~= before.push(modifier));
    before.lemma_filter_push(modifier, keep);
    if extension != ".js"@ && extension != ".css"@ {
        lemma_keep_all(before, keep);
    }
}

/// A list of which everything is kept stays as it is.
proof fn lemma_keep_all(list: Seq<Seq<char>>, keep: spec_fn(Seq<char>) -> bool)
    requires
        forall|item: Seq<char>| #[trigger] keep(item),
    ensures
        list.filter(keep) == list,
    decreases list.len(),
{
    reveal(Seq::filter);
    if list.len() > 0 {
        lemma_keep_all(list.drop_last(), keep);
        assert(list =~= list.drop_last().push(list.last()));
    } else {
        assert(list.filter(keep) =~= list);
    }
}

/// An ident is hashed field by field, in this order, and each field adds its own tag and its own
/// value whatever the fields in front of it are: the query, the fragment, the nested assets, each
/// modifier, the parts, the layer and the content type. A field that is missing adds nothing.
pub proof fn each_field_is_hashed_behind_the_others(ident: IdentView, extension: Seq<char>)
    ensures
        ({
            let path = IdentView {
                path: ident.path,
                query: seq![],
                fragment: seq![],
                assets: seq![],
                modifiers: seq![],
                parts: seq![],
                layer: None,
                content_type: None,
            };
            let query = IdentView { query: ident.query, ..path };
            let fragment = IdentView { fragment: ident.fragment, ..query };
            let assets = IdentView { assets: ident.assets, ..fragment };
            let modifiers = IdentView { modifiers: ident.modifiers, ..assets };
            let parts = IdentView { parts: ident.parts, ..modifiers };
            let layer = IdentView { layer: ident.layer, ..parts };
            let p = hash_fields(path, extension);
            let q = hash_fields(query, extension);
            let f = hash_fields(fragment, extension);
            let a = hash_fields(assets, extension);
            let m = hash_fields(modifiers, extension);
            let o = hash_fields(parts, extension);
            let l = hash_fields(layer, extension);
            let all = hash_fields(ident, extension);
            let listed = hashed_modifiers(ident.modifiers, extension);
            &&& p.len() == 0
            &&& ident.query.len() == 0 ==> q == p
            &&& ident.query.len() > 0 ==> q == p.push(
                HashFieldView { tag: 0, value: HashValueView::Text(ident.query) },
            )
            &&& ident.fragment.len() == 0 ==> f == q
            &&& ident.fragment.len() > 0 ==> f == q.push(
                HashFieldView { tag: 1, value: HashValueView::Text(ident.fragment) },
            )
            &&& ident.assets.len() == 0 ==> a == f
            &&& ident.assets.len() > 0 ==> a == f.push(
                HashFieldView { tag: 2, value: HashValueView::Text(ident.assets) },
            )
            &&& m.len() == a.len() + listed.len()
            &&& m.take(a.len() as int) == a
            &&& forall|i: int|
                0 <= i < listed.len() ==> m[a.len() + i] == (HashFieldView {
                    tag: 3,
                    value: HashValueView::Text(#[trigger] listed[i]),
                })
            &&& ident.parts.len() == 0 ==> o == m
            &&& ident.parts.len() > 0 ==> o == m.push(
                HashFieldView { tag: 4, value: HashValueView::Text(ident.parts) },
            )
            &&& ident.layer is None ==> l == o
            &&& ident.layer matches Some(own) ==> l == o.push(
                HashFieldView { tag: 5, value: HashValueView::Layer(own) },
            )
            &&& ident.content_type is None ==> all == l
            &&& ident.content_type matches Some(text) ==> all == l.push(
                HashFieldView { tag: 6, value: HashValueView::Text(text) },
            )
        }),
{
    let path = IdentView {
        path: ident.path,
        query: seq![],
        fragment: seq![],
        assets: seq![],
        modifiers: seq![],
        parts: seq![],
        layer: None,
        content_type: None,
    };
    let query = IdentView { query: ident.query, ..path };
    let fragment = IdentView { fragment: ident.fragment, ..query };
    let assets = IdentView { assets: ident.assets, ..fragment };
    let modifiers = IdentView { modifiers: ident.modifiers, ..assets };
    let parts = IdentView { parts: ident.parts, ..modifiers };
    let layer = IdentView { layer: ident.layer, ..parts };
    let p = hash_fields(path, extension);
    let q = hash_fields(query, extension);
    let f = hash_fields(fragment, extension);
    let a = hash_fields(assets, extension);
    let m = hash_fields(modifiers, extension);
    let o = hash_fields(parts, extension);
    let l = hash_fields(layer, extension);
    let all = hash_fields(ident, extension);
    assert(hashed_modifiers(seq![], extension) =~= seq![]);
    assert(p =~= seq![]);
    if ident.query.len() > 0 {
        assert(q =~= p.push(HashFieldView { tag: 0, value: HashValueView::Text(ident.query) }));
    } else {
        assert(q =~= p);
    }
    if ident.fragment.len() > 0 {
        assert(f =~= q.push(HashFieldView { tag: 1, value: HashValueView::Text(ident.fragment) }));
    } else {
        assert(f =~= q);
    }
    if ident.assets.len() > 0 {
        assert(a =~= f.push(HashFieldView { tag: 2, value: HashValueView::Text(ident.assets) }));
    } else {
        assert(a =~= f);
    }
    assert(m.take(a.len() as int) =~= a);
    if ident.parts.len() > 0 {
        assert(o =~= m.push(HashFieldView { tag: 4, value: HashValueView::Text(ident.parts) }));
    } else {
        assert(o =~= m);
    }
    if let Some(own) = ident.layer {
        assert(l =~= o.push(HashFieldView { tag: 5, value: HashValueView::Layer(own) }));
    } else {
        assert(l =~= o);
    }
    if let Some(text) = ident.content_type {
        assert(all =~= l.push(HashFieldView { tag: 6, value: HashValueView::Text(text) }));
    } else {
        assert(all =~= l);
    }
}

}
