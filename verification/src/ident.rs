//! Idents of assets: what they are made of, how they are changed and how they are written out.
use std::sync::Arc;
use vstd::prelude::*;
use crate::layer::{Layer, LayerRegistration, LayerRegistry};
use crate::modifiers::{are_modifiers, is_modifier, lemma_added_modifiers, listed_modifiers};
use crate::path::{FileSystemPath, PathView};
use crate::text::{
    grown, has_char, lemma_grown_by_one, lemma_grown_twice, replace_char, replaced, views,
};

verus! {

/// What an ident is made of.
#[derive(Debug, Hash)]
pub struct AssetIdentInner {
    /// The primary path of the asset.
    pub path: FileSystemPath,
    /// The query string of the asset: either the empty string or one that starts with a `?`, such
    /// as `?foo=bar`.
    pub query: String,
    /// The fragment of the asset: either the empty string or one that starts with a `#`, such as
    /// `#foo`.
    pub fragment: String,
    /// The assets that are nested in this asset, as a sequence of `key => asset` pairs.
    pub assets: String,
    /// The modifiers of this asset, such as `client chunks`, as a list separated by commas.
    pub modifiers: String,
    /// The parts of the asset that are modules, as a list separated by spaces.
    pub parts: String,
    /// The layer that the asset was created from.
    pub layer: Option<Layer>,
    /// The MIME content type, if the asset was created from a data URL.
    pub content_type: Option<String>,
}

/// What an ident is made of, with texts taken as sequences of characters.
#[verifier::ext_equal]
pub struct IdentView {
    pub path: PathView,
    pub query: Seq<char>,
    pub fragment: Seq<char>,
    pub assets: Seq<char>,
    pub modifiers: Seq<char>,
    pub parts: Seq<char>,
    pub layer: Option<Layer>,
    pub content_type: Option<Seq<char>>,
}

/// The characters of a text that may be missing.
pub open spec fn owned_text_of(s: Option<String>) -> Option<Seq<char>> {
    match s {
        Some(t) => Some(t@),
        None => None,
    }
}

impl View for AssetIdentInner {
    type V = IdentView;

    open spec fn view(&self) -> IdentView {
        IdentView {
            path: self.path@,
            query: self.query@,
            fragment: self.fragment@,
            assets: self.assets@,
            modifiers: self.modifiers@,
            parts: self.parts@,
            layer: self.layer,
            content_type: owned_text_of(self.content_type),
        }
    }
}

impl Clone for AssetIdentInner {
    fn clone(&self) -> (r: Self)
        ensures
            r == *self,
    {
        AssetIdentInner {
            path: self.path.clone(),
            query: self.query.clone(),
            fragment: self.fragment.clone(),
            assets: self.assets.clone(),
            modifiers: self.modifiers.clone(),
            parts: self.parts.clone(),
            layer: self.layer,
            content_type: match &self.content_type {
                Some(t) => Some(t.clone()),
                None => None,
            },
        }
    }
}

impl PartialEq for AssetIdentInner {
    fn eq(&self, other: &Self) -> (same: bool) {
        let same_layer = match (self.layer, other.layer) {
            (Some(a), Some(b)) => a == b,
            (None, None) => true,
            _ => false,
        };
        let same_content_type = match (&self.content_type, &other.content_type) {
            (Some(a), Some(b)) => *a == *b,
            (None, None) => true,
            _ => false,
        };
        self.path == other.path && self.query == other.query && self.fragment == other.fragment
            && self.assets == other.assets && self.modifiers == other.modifiers && self.parts
            == other.parts && same_layer && same_content_type
    }
}

impl vstd::std_specs::cmp::PartialEqSpecImpl for AssetIdentInner {
    open spec fn obeys_eq_spec() -> bool {
        true
    }

    open spec fn eq_spec(&self, other: &Self) -> bool {
        self@ == other@
    }
}

impl Eq for AssetIdentInner {

}

/// An ident, shared between its clones, so that cloning is cheap. A change to one of them leaves
/// the others as they are.
#[derive(Hash)]
pub struct AssetIdent(Arc<AssetIdentInner>);

/// `std::fmt::Formatter`: where and how a value is to be written out.
#[verifier::external_type_specification]
#[verifier::external_body]
pub struct ExFormatter<'a>(std::fmt::Formatter<'a>);

/// `std::fmt::Error`: a value could not be written out.
#[verifier::external_type_specification]
#[verifier::external_body]
pub struct ExFmtError(std::fmt::Error);

/// `Debug` of `Arc` of the standard library: writes out the value that a shared pointer holds, as
/// that value writes itself out. A formatter cannot be looked into, so neither the text that ends
/// up there nor when there is an error is stated.
#[verifier::external_body]
fn write_shared(
    shared: &Arc<AssetIdentInner>,
    f: &mut std::fmt::Formatter<'_>,
) -> std::fmt::Result {
    std::fmt::Debug::fmt(shared, f)
}

impl std::fmt::Debug for AssetIdent {
    fn fmt(&self, f: &mut std::fmt::Formatter<'_>) -> std::fmt::Result {
        write_shared(&self.0, f)
    }
}

impl Clone for AssetIdent {
    fn clone(&self) -> (r: Self)
        ensures
            r@ == self@,
    {
        AssetIdent(self.0.clone())
    }
}

impl View for AssetIdent {
    type V = IdentView;

    closed spec fn view(&self) -> IdentView {
        (*self.0)@
    }
}

impl std::ops::Deref for AssetIdent {
    type Target = AssetIdentInner;

    fn deref(&self) -> (inner: &AssetIdentInner)
        ensures
            inner@ == self@,
    {
        &self.0
    }
}

impl PartialEq for AssetIdent {
    fn eq(&self, other: &Self) -> (same: bool) {
        *self.0 == *other.0
    }
}

impl vstd::std_specs::cmp::PartialEqSpecImpl for AssetIdent {
    open spec fn obeys_eq_spec() -> bool {
        true
    }

    open spec fn eq_spec(&self, other: &Self) -> bool {
        self@ == other@
    }
}

impl Eq for AssetIdent {

}

/// `Arc::make_mut` of the standard library: gives access to the value that a shared pointer holds,
/// on a clone of it where others share it. The pointer then holds what is left behind there.
#[verifier::external_body]
fn make_mut(shared: &mut Arc<AssetIdentInner>) -> (inner: &mut AssetIdentInner)
    ensures
        *inner == **old(shared),
        **final(shared) == *final(inner),
{
    Arc::make_mut(shared)
}

/// A part of a module.
#[derive(Debug, Hash)]
pub enum ModulePart {
    /// The module as it was, on top of its parts.
    Facade,
    /// Any other part, as it is written out.
    Named(String),
}

/// How the parts that stand in an ident are written out: the facade does not stand in it.
pub open spec fn part_texts(parts: Seq<ModulePart>) -> Seq<Seq<char>>
    decreases parts.len(),
{
    if parts.len() == 0 {
        seq![]
    } else {
        match parts.last() {
            ModulePart::Facade => part_texts(parts.drop_last()),
            ModulePart::Named(text) => part_texts(parts.drop_last()).push(text@),
        }
    }
}

/// The fields of an ident hold what they are meant to hold: a query, a fragment, a list of
/// modifiers and a content type.
pub open spec fn well_formed(ident: IdentView) -> bool {
    &&& ident.query.len() > 0 ==> ident.query[0] == '?'
    &&& ident.fragment.len() > 0 ==> ident.fragment[0] == '#'
    &&& are_modifiers(listed_modifiers(ident.modifiers))
    &&& ident.content_type matches Some(content_type) ==> content_type.len() > 0
}

/// The layer of the ident, if it has one, is one of the registry's.
pub open spec fn layer_is_in(ident: IdentView, layers: Seq<LayerRegistration>) -> bool {
    ident.layer matches Some(layer) ==> layer.is_in(layers)
}

/// An ident written out.
pub open spec fn ident_text(ident: IdentView, layers: Seq<LayerRegistration>) -> Seq<char> {
    ident.path.text + ident.query + ident.fragment + (if ident.assets.len() > 0 {
        " {"@ + ident.assets + " }"@
    } else {
        seq![]
    }) + (match ident.layer {
        Some(layer) => " ["@ + layer.name_in(layers) + "]"@,
        None => seq![],
    }) + (if ident.modifiers.len() > 0 {
        " ("@ + ident.modifiers + ")"@
    } else {
        seq![]
    }) + (match ident.content_type {
        Some(content_type) => " <"@ + content_type + ">"@,
        None => seq![],
    }) + ident.parts
}

/// A nested asset as it stands in an ident.
pub open spec fn asset_entry(key: Seq<char>, asset: Seq<char>) -> Seq<char> {
    " "@ + key + " => "@ + asset
}

/// The first assets of a list could be resolved.
pub open spec fn are_resolved<E>(
    items: Seq<(String, Result<AssetIdent, E>)>,
    count: int,
) -> bool {
    forall|i: int| 0 <= i < count ==> #[trigger] items[i].1 is Ok
}

/// Each asset of a list that comes to be written out has a layer of the registry's, if any.
pub open spec fn resolved_layers_are_in<E>(
    items: Seq<(String, Result<AssetIdent, E>)>,
    layers: Seq<LayerRegistration>,
) -> bool {
    forall|i: int|
        0 <= i < items.len() && #[trigger] are_resolved(items, i + 1) ==> layer_is_in(
            items[i].1->Ok_0@,
            layers,
        )
}

/// The nested assets of a list as they stand in an ident.
pub open spec fn asset_entries<E>(
    items: Seq<(String, Result<AssetIdent, E>)>,
    layers: Seq<LayerRegistration>,
) -> Seq<Seq<char>> {
    items.map_values(
        |item: (String, Result<AssetIdent, E>)|
            asset_entry(item.0@, ident_text(item.1->Ok_0@, layers)),
    )
}

impl AssetIdent {
    /// The ident of the asset at a path, with nothing else to it.
    pub fn from_path(path: FileSystemPath) -> (ident: AssetIdent)
        ensures
            ident@ == (IdentView {
                path: path@,
                query: seq![],
                fragment: seq![],
                assets: seq![],
                modifiers: seq![],
                parts: seq![],
                layer: None,
                content_type: None,
            }),
            well_formed(ident@),
    {
        AssetIdent(
            Arc::new(
                AssetIdentInner {
                    path,
                    query: String::new(),
                    fragment: String::new(),
                    assets: String::new(),
                    modifiers: String::new(),
                    parts: String::new(),
                    layer: None,
                    content_type: None,
                },
            ),
        )
    }

    /// The ident that is made of the given fields.
    pub fn from_inner(inner: AssetIdentInner) -> (ident: AssetIdent)
        ensures
            ident@ == inner@,
    {
        AssetIdent(Arc::new(inner))
    }

    /// Whether a text can be a modifier.
    pub fn check_non_empty_and_no_commas(modifier: &str) -> (ok: bool)
        ensures
            ok == is_modifier(modifier@),
            ok <==> modifier@.len() > 0 && forall|i: int|
                0 <= i < modifier@.len() ==> #[trigger] modifier@[i] != ',',
    {
        !modifier.is_empty() && !has_char(modifier, ',')
    }

    /// Puts a modifier behind the others.
    pub fn add_modifier(&mut self, modifier: String)
        requires
            is_modifier(modifier@),
        ensures
            final(self)@ == (IdentView {
                modifiers: grown(old(self)@.modifiers, seq![modifier@], ", "@),
                ..old(self)@
            }),
            old(self)@.modifiers.len() == 0 ==> final(self)@.modifiers == modifier@,
            old(self)@.modifiers.len() > 0 ==> final(self)@.modifiers == old(self)@.modifiers
                + ", "@ + modifier@,
            well_formed(old(self)@) ==> well_formed(final(self)@),
    {
        proof {
            lemma_grown_by_one(self@.modifiers, modifier@, ", "@);
            if well_formed(self@) {
                lemma_added_modifiers(self@.modifiers, seq![modifier@]);
            }
        }
        if self.0.modifiers.as_str().is_empty() {
            let inner = make_mut(&mut self.0);
            inner.modifiers = modifier;
            return;
        }
        let mut modifiers: Vec<String> = Vec::new();
        modifiers.push(modifier);
        proof {
            assert(views(modifiers@) =~= seq![modifier@]);
        }
        self.add_modifiers(modifiers);
    }

    /// Puts modifiers behind the others, in their order.
    pub fn add_modifiers(&mut self, new_modifiers: Vec<String>)
        requires
            forall|i: int|
                0 <= i < new_modifiers@.len() ==> is_modifier(#[trigger] new_modifiers@[i]@),
        ensures
            final(self)@ == (IdentView {
                modifiers: grown(old(self)@.modifiers, views(new_modifiers@), ", "@),
                ..old(self)@
            }),
            well_formed(old(self)@) ==> well_formed(final(self)@),
    {
        proof {
            if well_formed(self@) {
                lemma_added_modifiers(self@.modifiers, views(new_modifiers@));
            }
        }
        let inner = make_mut(&mut self.0);
        let mut modifiers = String::new();
        std::mem::swap(&mut modifiers, &mut inner.modifiers);
        let ghost before = modifiers@;
        let mut i: usize = 0;
        proof {
            assert(views(new_modifiers@).take(0) =~= seq![]);
        }
        while i < new_modifiers.len()
            invariant
                i <= new_modifiers@.len(),
                modifiers@ == grown(before, views(new_modifiers@).take(i as int), ", "@),
            decreases new_modifiers@.len() - i,
        {
            proof {
                assert(views(new_modifiers@).take(i + 1).drop_last() =~= views(new_modifiers@).take(
                    i as int,
                ));
            }
            if !modifiers.as_str().is_empty() {
                modifiers.append(", ");
            } else {
                assert(modifiers@ + new_modifiers@[i as int]@ =~= new_modifiers@[i as int]@);
            }
            modifiers.append(new_modifiers[i].as_str());
            i += 1;
        }
        proof {
            assert(views(new_modifiers@).take(i as int) =~= views(new_modifiers@));
        }
        inner.modifiers = modifiers;
    }

    /// Puts a nested asset behind the others. Where it could not be resolved, that error is
    /// returned and the ident is left without nested assets.
    pub fn add_asset<E>(
        &mut self,
        key: &str,
        asset: Result<&AssetIdent, E>,
        layers: &LayerRegistry,
    ) -> (r: Result<(), E>)
        requires
            asset matches Ok(nested) ==> layer_is_in(nested@, layers@),
        ensures
            match asset {
                Ok(nested) => r is Ok && final(self)@ == (IdentView {
                    assets: grown(
                        old(self)@.assets,
                        seq![asset_entry(key@, ident_text(nested@, layers@))],
                        ", "@,
                    ),
                    ..old(self)@
                }),
                Err(e) => r == Err::<(), E>(e) && final(self)@ == (IdentView {
                    assets: seq![],
                    ..old(self)@
                }),
            },
            asset matches Ok(nested) ==> {
                let entry = " "@ + key@ + " => "@ + ident_text(nested@, layers@);
                &&& old(self)@.assets.len() == 0 ==> final(self)@.assets == entry
                &&& old(self)@.assets.len() > 0 ==> final(self)@.assets == old(self)@.assets
                    + ", "@ + entry
            },
            well_formed(old(self)@) ==> well_formed(final(self)@),
    {
        let inner = make_mut(&mut self.0);
        let mut assets = String::new();
        std::mem::swap(&mut assets, &mut inner.assets);
        let nested = match asset {
            Ok(nested) => nested,
            Err(e) => {
                return Err(e);
            },
        };
        proof {
            lemma_grown_by_one(
                assets@,
                asset_entry(key@, ident_text(nested@, layers@)),
                ", "@,
            );
        }
        push_asset(&mut assets, key, nested, layers);
        inner.assets = assets;
        Ok(())
    }

    /// Puts nested assets behind the others, in their order. At the first that could not be
    /// resolved its error is returned and the ident is left without nested assets.
    pub fn add_assets<E>(
        &mut self,
        items: Vec<(String, Result<AssetIdent, E>)>,
        layers: &LayerRegistry,
    ) -> (r: Result<(), E>)
        requires
            items@.len() > 0,
            resolved_layers_are_in(items@, layers@),
        ensures
            are_resolved(items@, items@.len() as int) ==> {
                &&& r is Ok
                &&& final(self)@ == (IdentView {
                    assets: grown(
                        old(self)@.assets,
                        asset_entries(items@, layers@),
                        ", "@,
                    ),
                    ..old(self)@
                })
            },
            forall|n: int|
                0 <= n < items@.len() && #[trigger] items@[n].1 is Err && are_resolved(items@, n)
                    ==> {
                    &&& r == Err::<(), E>(items@[n].1->Err_0)
                    &&& final(self)@ == (IdentView { assets: seq![], ..old(self)@ })
                },
            r is Ok <==> forall|i: int| 0 <= i < items@.len() ==> #[trigger] items@[i].1 is Ok,
            forall|n: int|
                {
                    &&& 0 <= n < items@.len()
                    &&& #[trigger] items@[n].1 is Err
                    &&& forall|i: int| 0 <= i < n ==> #[trigger] items@[i].1 is Ok
                } ==> r == Err::<(), E>(items@[n].1->Err_0),
            well_formed(old(self)@) ==> well_formed(final(self)@),
    {
        let inner = make_mut(&mut self.0);
        let mut assets = String::new();
        std::mem::swap(&mut assets, &mut inner.assets);
        match push_assets(assets, items, layers) {
            Ok(assets) => {
                inner.assets = assets;
                Ok(())
            },
            Err(e) => Err(e),
        }
    }

    /// Puts a part behind the others. The facade does not stand in an ident, as switching between
    /// facade and non-facade should not change the ident.
    pub fn add_part(&mut self, part: ModulePart)
        ensures
            final(self)@ == (IdentView {
                parts: grown(old(self)@.parts, part_texts(seq![part]), " "@),
                ..old(self)@
            }),
            part is Facade ==> final(self)@ == old(self)@,
            part matches ModulePart::Named(text) ==> {
                &&& old(self)@.parts.len() == 0 ==> final(self)@.parts == text@
                &&& old(self)@.parts.len() > 0 ==> final(self)@.parts == old(self)@.parts + " "@
                    + text@
            },
            well_formed(old(self)@) ==> well_formed(final(self)@),
    {
        proof {
            assert(seq![part].drop_last() =~= Seq::<ModulePart>::empty());
            reveal_with_fuel(part_texts, 2);
            if part is Named {
                assert(part_texts(seq![part]) =~= seq![part->Named_0@]);
                lemma_grown_by_one(self@.parts, part->Named_0@, " "@);
            }
        }
        if matches!(part, ModulePart::Facade) {
            return;
        }
        if self.0.parts.as_str().is_empty() {
            if let ModulePart::Named(text) = part {
                let inner = make_mut(&mut self.0);
                inner.parts = text;
            }
            return;
        }
        let mut parts: Vec<ModulePart> = Vec::new();
        parts.push(part);
        proof {
            assert(parts@ =~= seq![part]);
        }
        self.add_parts(parts);
    }

    /// Puts parts behind the others, in their order and without facades.
    pub fn add_parts(&mut self, new_parts: Vec<ModulePart>)
        ensures
            final(self)@ == (IdentView {
                parts: grown(old(self)@.parts, part_texts(new_parts@), " "@),
                ..old(self)@
            }),
            well_formed(old(self)@) ==> well_formed(final(self)@),
    {
        let inner = make_mut(&mut self.0);
        let mut parts = String::new();
        std::mem::swap(&mut parts, &mut inner.parts);
        let ghost before = parts@;
        let mut i: usize = 0;
        while i < new_parts.len()
            invariant
                i <= new_parts@.len(),
                parts@ == grown(before, part_texts(new_parts@.take(i as int)), " "@),
            decreases new_parts@.len() - i,
        {
            proof {
                assert(new_parts@.take(i + 1).drop_last() =~= new_parts@.take(i as int));
            }
            if let ModulePart::Named(text) = &new_parts[i] {
                proof {
                    let texts = part_texts(new_parts@.take(i as int));
                    assert(part_texts(new_parts@.take(i + 1)) == texts.push(text@));
                    assert(texts.push(text@).drop_last() =~= texts);
                    assert(Seq::<char>::empty() + text@ =~= text@);
                }
                if !parts.as_str().is_empty() {
                    parts.append(" ");
                } else {
                    assert(parts@ =~= Seq::<char>::empty());
                }
                parts.append(text.as_str());
            }
            i += 1;
        }
        proof {
            assert(new_parts@.take(i as int) =~= new_parts@);
        }
        inner.parts = parts;
    }

    /// The path within the file system that a pattern gives: the pattern, with the path of the
    /// asset in place of each `*`.
    pub fn rename_target(&self, pattern: &str) -> (target: String)
        ensures
            target@ == replaced(pattern@, '*', self@.path.path),
    {
        replace_char(pattern, '*', self.0.path.path.as_str())
    }

    /// Moves the asset to the path that `join` finds, from the root of the file system, for the
    /// target of the pattern. Where it finds none, its error is returned and nothing changes.
    pub fn rename_as_ref<E, J>(&mut self, pattern: &str, join: J) -> (r: Result<(), E>)
        where J: FnOnce(&str) -> Result<FileSystemPath, E>
        requires
            forall|target: &str|
                target@ == replaced(pattern@, '*', old(self)@.path.path) ==> #[trigger] call_requires(
                    join,
                    (target,),
                ),
        ensures
            exists|target: &str, joined: Result<FileSystemPath, E>| #[trigger]
                call_ensures(join, (target,), joined) && target@ == replaced(
                    pattern@,
                    '*',
                    old(self)@.path.path,
                ) && match joined {
                    Ok(path) => r is Ok && final(self)@ == (IdentView {
                        path: path@,
                        ..old(self)@
                    }),
                    Err(e) => r == Err::<(), E>(e) && final(self)@ == old(self)@,
                },
            well_formed(old(self)@) ==> well_formed(final(self)@),
    {
        let target = self.rename_target(pattern);
        match join(target.as_str()) {
            Ok(path) => {
                self.set_path(path);
                Ok(())
            },
            Err(e) => Err(e),
        }
    }

    /// Sets the query string of the asset.
    pub fn set_query(&mut self, query: String)
        requires
            query@.len() > 0,
        ensures
            final(self)@ == (IdentView { query: query@, ..old(self)@ }),
            well_formed(old(self)@) && query@[0] == '?' ==> well_formed(final(self)@),
    {
        let inner = make_mut(&mut self.0);
        inner.query = query;
    }

    /// Sets the fragment of the asset.
    pub fn set_fragment(&mut self, fragment: String)
        requires
            fragment@.len() > 0,
        ensures
            final(self)@ == (IdentView { fragment: fragment@, ..old(self)@ }),
            well_formed(old(self)@) && fragment@[0] == '#' ==> well_formed(final(self)@),
    {
        let inner = make_mut(&mut self.0);
        inner.fragment = fragment;
    }

    /// Sets the content type of the asset.
    pub fn set_content_type(&mut self, content_type: String)
        requires
            content_type@.len() > 0,
        ensures
            final(self)@ == (IdentView { content_type: Some(content_type@), ..old(self)@ }),
            well_formed(old(self)@) ==> well_formed(final(self)@),
    {
        let inner = make_mut(&mut self.0);
        inner.content_type = Some(content_type);
    }

    /// Sets the layer of the asset.
    pub fn set_layer(&mut self, layer: Layer)
        ensures
            final(self)@ == (IdentView { layer: Some(layer), ..old(self)@ }),
            well_formed(old(self)@) ==> well_formed(final(self)@),
    {
        let inner = make_mut(&mut self.0);
        inner.layer = Some(layer);
    }

    /// Sets the path of the asset.
    pub fn set_path(&mut self, path: FileSystemPath)
        ensures
            final(self)@ == (IdentView { path: path@, ..old(self)@ }),
            well_formed(old(self)@) ==> well_formed(final(self)@),
    {
        let inner = make_mut(&mut self.0);
        inner.path = path;
    }

    /// The path of the asset.
    pub fn path(&self) -> (path: FileSystemPath)
        ensures
            path@ == self@.path,
    {
        self.0.path.clone()
    }

    /// Writes the ident out.
    pub fn value_to_string(&self, layers: &LayerRegistry) -> (text: String)
        requires
            layer_is_in(self@, layers@),
        ensures
            text@ == ident_text(self@, layers@),
    {
        let ident = &*self.0;
        let mut s = ident.path.text.clone();
        // The query is either empty or starts with `?`, so it only has to follow.
        s.append(ident.query.as_str());
        // The same holds of the fragment.
        s.append(ident.fragment.as_str());
        let ghost mut written = ident@.path.text + ident@.query + ident@.fragment;
        if !ident.assets.as_str().is_empty() {
            s.append(" {");
            s.append(ident.assets.as_str());
            s.append(" }");
        }
        proof {
            written = written + (if ident@.assets.len() > 0 {
                " {"@ + ident@.assets + " }"@
            } else {
                seq![]
            });
            assert(s@ =~= written);
        }
        if let Some(layer) = &ident.layer {
            s.append(" [");
            s.append(layer.name(layers));
            s.append("]");
        }
        proof {
            written = written + (match ident@.layer {
                Some(layer) => " ["@ + layer.name_in(layers@) + "]"@,
                None => seq![],
            });
            assert(s@ =~= written);
        }
        if !ident.modifiers.as_str().is_empty() {
            s.append(" (");
            s.append(ident.modifiers.as_str());
            s.append(")");
        }
        proof {
            written = written + (if ident@.modifiers.len() > 0 {
                " ("@ + ident@.modifiers + ")"@
            } else {
                seq![]
            });
            assert(s@ =~= written);
        }
        if let Some(content_type) = &ident.content_type {
            s.append(" <");
            s.append(content_type.as_str());
            s.append(">");
        }
        proof {
            written = written + (match ident@.content_type {
                Some(content_type) => " <"@ + content_type + ">"@,
                None => seq![],
            });
            assert(s@ =~= written);
        }
        if !ident.parts.as_str().is_empty() {
            s.append(ident.parts.as_str());
        }
        proof {
            assert(s@ =~= written + ident@.parts);
        }
        s
    }
}

/// Puts a nested asset behind those of a list.
fn push_asset(assets: &mut String, key: &str, nested: &AssetIdent, layers: &LayerRegistry)
    requires
        layer_is_in(nested@, layers@),
    ensures
        final(assets)@ == grown(
            old(assets)@,
            seq![asset_entry(key@, ident_text(nested@, layers@))],
            ", "@,
        ),
{
    let ghost before = assets@;
    if !assets.as_str().is_empty() {
        assets.append(", ");
    }
    assets.append(" ");
    assets.append(key);
    assets.append(" => ");
    let text = nested.value_to_string(layers);
    assets.append(text.as_str());
    proof {
        let entry = asset_entry(key@, ident_text(nested@, layers@));
        lemma_grown_by_one(before, entry, ", "@);
        assert(assets@ =~= (if before.len() == 0 {
            entry
        } else {
            before + ", "@ + entry
        }));
    }
}

/// Puts nested assets behind those of a list, up to the first that could not be resolved.
fn push_assets<E>(
    listed: String,
    items: Vec<(String, Result<AssetIdent, E>)>,
    layers: &LayerRegistry,
) -> (r: Result<String, E>)
    requires
        resolved_layers_are_in(items@, layers@),
    ensures
        match r {
            Ok(assets) => {
                &&& are_resolved(items@, items@.len() as int)
                &&& assets@ == grown(listed@, asset_entries(items@, layers@), ", "@)
            },
            Err(e) => exists|n: int|
                {
                    &&& 0 <= n < items@.len()
                    &&& #[trigger] items@[n].1 == Err::<AssetIdent, E>(e)
                    &&& are_resolved(items@, n)
                },
        },
{
    let mut assets = listed;
    let ghost all = items@;
    let ghost entries = asset_entries(all, layers@);
    proof {
        assert(entries.take(0) =~= seq![]);
    }
    for item in it: items
        invariant
            it.seq() == all,
            entries == asset_entries(all, layers@),
            resolved_layers_are_in(all, layers@),
            are_resolved(all, it.index() as int),
            assets@ == grown(listed@, entries.take(it.index() as int), ", "@),
    {
        let ghost n = it.index() as int;
        assert(all[n] == item);
        let (key, resolved) = item;
        let nested = match resolved {
            Ok(nested) => nested,
            Err(e) => {
                return Err(e);
            },
        };
        assert(are_resolved(all, n + 1));
        push_asset(&mut assets, key.as_str(), &nested, layers);
        proof {
            lemma_grown_twice(listed@, entries.take(n), seq![entries[n]], ", "@);
            assert(entries.take(n + 1) =~= entries.take(n) + seq![entries[n]]);
        }
    }
    proof {
        assert(entries.take(entries.len() as int) =~= entries);
    }
    Ok(assets)
}

}
