//! The name of the output file of an asset.
use vstd::prelude::*;
use vstd::slice::slice_subrange;
use vstd::utf8::{encode_utf8, is_ascii_chars, is_char_boundary};
use crate::bytes::{lemma_cut, lemma_encode_concat, suffix_from};
use crate::ident::{AssetIdent, IdentView};
use crate::layer::Layer;
use crate::modifiers::listed_modifiers;
use crate::naming::{
    append_extension, append_field_hash, can_split, find_split, has_extension, hashed, is_hex,
    is_hex_digit, lemma_node_modules, lemma_package_start_in_range, lemma_split_position,
    make_stem, node_modules, package_start, replace_beginning, shortened, split_position, stem,
    text_of, with_extension, CUT_HASH_DIGITS, FIELD_HASH_DIGITS, MAX_FILENAME,
};
use crate::text::{
    last_occurrence, lemma_last_occurrence, lemma_same_bytes, occurs_at, same_text, split_text, views,
};

verus! {

/// A value that goes into the hash of an ident.
#[derive(Debug)]
pub enum HashValue {
    Text(String),
    Layer(Layer),
}

/// A field of an ident as it goes into its hash: first the tag that tells which field it is, then
/// the value.
#[derive(Debug)]
pub struct HashField {
    pub tag: u8,
    pub value: HashValue,
}

/// A value that goes into the hash, with texts taken as sequences of characters.
#[verifier::ext_equal]
pub enum HashValueView {
    Text(Seq<char>),
    Layer(Layer),
}

/// A field that goes into the hash.
#[verifier::ext_equal]
pub struct HashFieldView {
    pub tag: u8,
    pub value: HashValueView,
}

impl View for HashValue {
    type V = HashValueView;

    open spec fn view(&self) -> HashValueView {
        match *self {
            HashValue::Text(text) => HashValueView::Text(text@),
            HashValue::Layer(layer) => HashValueView::Layer(layer),
        }
    }
}

impl View for HashField {
    type V = HashFieldView;

    open spec fn view(&self) -> HashFieldView {
        HashFieldView { tag: self.tag, value: self.value@ }
    }
}

/// The fields of a list.
pub open spec fn field_views(fields: Seq<HashField>) -> Seq<HashFieldView> {
    fields.map_values(|field: HashField| field@)
}

/// The tags of the fields.
pub const TAG_QUERY: u8 = 0;

pub const TAG_FRAGMENT: u8 = 1;

pub const TAG_ASSETS: u8 = 2;

pub const TAG_MODIFIER: u8 = 3;

pub const TAG_PARTS: u8 = 4;

pub const TAG_LAYER: u8 = 5;

pub const TAG_CONTENT_TYPE: u8 = 6;

/// A field with a text.
pub open spec fn text_field(tag: u8, text: Seq<char>) -> HashFieldView {
    HashFieldView { tag, value: HashValueView::Text(text) }
}

/// A text goes into the hash unless it is empty.
pub open spec fn text_fields(tag: u8, text: Seq<char>) -> Seq<HashFieldView> {
    if text.len() == 0 {
        seq![]
    } else {
        seq![text_field(tag, text)]
    }
}

/// The modifier that every asset with the extension has, and that is left out of its hash.
pub open spec fn default_modifier(extension: Seq<char>) -> Option<Seq<char>> {
    if extension == ".js"@ {
        Some("ecmascript"@)
    } else if extension == ".css"@ {
        Some("css"@)
    } else {
        None
    }
}

/// The modifiers that go into the hash.
pub open spec fn hashed_modifiers(modifiers: Seq<char>, extension: Seq<char>) -> Seq<Seq<char>> {
    listed_modifiers(modifiers).filter(
        |modifier: Seq<char>| default_modifier(extension) != Some(modifier),
    )
}

/// The modifiers as fields.
pub open spec fn modifier_fields(modifiers: Seq<Seq<char>>) -> Seq<HashFieldView> {
    modifiers.map_values(|modifier: Seq<char>| text_field(TAG_MODIFIER, modifier))
}

/// The layer goes into the hash if there is one.
pub open spec fn layer_fields(layer: Option<Layer>) -> Seq<HashFieldView> {
    match layer {
        Some(layer) => seq![HashFieldView { tag: TAG_LAYER, value: HashValueView::Layer(layer) }],
        None => seq![],
    }
}

/// The content type goes into the hash if there is one.
pub open spec fn content_type_fields(content_type: Option<Seq<char>>) -> Seq<HashFieldView> {
    match content_type {
        Some(content_type) => seq![text_field(TAG_CONTENT_TYPE, content_type)],
        None => seq![],
    }
}

/// The fields that go into the hash of an ident, in the order in which they do.
pub open spec fn hash_fields(ident: IdentView, extension: Seq<char>) -> Seq<HashFieldView> {
    text_fields(TAG_QUERY, ident.query) + text_fields(TAG_FRAGMENT, ident.fragment) + text_fields(
        TAG_ASSETS,
        ident.assets,
    ) + modifier_fields(hashed_modifiers(ident.modifiers, extension)) + text_fields(
        TAG_PARTS,
        ident.parts,
    ) + layer_fields(ident.layer) + content_type_fields(ident.content_type)
}

/// Appends a text to fields unless it is empty.
fn push_text(fields: &mut Vec<HashField>, tag: u8, text: &String)
    ensures
        field_views(final(fields)@) == field_views(old(fields)@) + text_fields(tag, text@),
{
    if !text.as_str().is_empty() {
        fields.push(HashField { tag, value: HashValue::Text(text.clone()) });
    }
    proof {
        assert(field_views(fields@) =~= field_views(old(fields)@) + text_fields(tag, text@));
    }
}

/// Appends the modifiers to fields, without the one that every asset with the extension has.
fn push_modifiers(fields: &mut Vec<HashField>, modifiers: &String, extension: &str)
    ensures
        field_views(final(fields)@) == field_views(old(fields)@) + modifier_fields(
            hashed_modifiers(modifiers@, extension@),
        ),
{
    let ghost before = field_views(fields@);
    if modifiers.as_str().is_empty() {
        proof {
            assert(hashed_modifiers(modifiers@, extension@) =~= seq![]);
            assert(before =~= before + modifier_fields(seq![]));
        }
        return;
    }
    let default: Option<&str> = if same_text(extension, ".js") {
        Some("ecmascript")
    } else if same_text(extension, ".css") {
        Some("css")
    } else {
        None
    };
    proof {
        reveal_strlit(", ");
    }
    let listed = split_text(modifiers.as_str(), ", ");
    let ghost all = views(listed@);
    let ghost keep = |modifier: Seq<char>| default_modifier(extension@) != Some(modifier);
    let mut i: usize = 0;
    proof {
        assert(all.take(0).filter(keep) =~= seq![]);
        assert(before =~= before + modifier_fields(all.take(0).filter(keep)));
    }
    while i < listed.len()
        invariant
            i <= listed@.len(),
            all == views(listed@),
            text_of(default) == default_modifier(extension@),
            keep == |modifier: Seq<char>| default_modifier(extension@) != Some(modifier),
            field_views(fields@) == before + modifier_fields(all.take(i as int).filter(keep)),
        decreases listed@.len() - i,
    {
        let modifier = listed[i].as_str();
        proof {
            assert(all[i as int] == modifier@);
            assert(all.take(i + 1) =~= all.take(i as int).push(modifier@));
            all.take(i as int).lemma_filter_push(modifier@, keep);
        }
        let is_default = match default {
            Some(default) => same_text(modifier, default),
            None => false,
        };
        i += 1;
        if is_default {
            assert(!keep(modifier@));
            continue;
        }
        let ghost kept = all.take(i - 1).filter(keep);
        assert(keep(modifier@));
        let ghost so_far = field_views(fields@);
        fields.push(HashField { tag: TAG_MODIFIER, value: HashValue::Text(modifier.to_owned()) });
        proof {
            assert(field_views(fields@) =~= so_far.push(text_field(TAG_MODIFIER, modifier@)));
            assert(modifier_fields(kept.push(modifier@)) =~= modifier_fields(kept).push(
                text_field(TAG_MODIFIER, modifier@),
            ));
            assert(field_views(fields@) =~= before + modifier_fields(kept.push(modifier@)));
        }
    }
    proof {
        assert(all.take(i as int) =~= all);
    }
}

/// The stem with the hash of the fields, where there are any.
pub open spec fn full_name(
    ident: IdentView,
    stem: Seq<char>,
    extension: Seq<char>,
    field_hex: Seq<char>,
) -> Seq<char> {
    if hash_fields(ident, extension).len() > 0 {
        hashed(stem, field_hex)
    } else {
        stem
    }
}

/// A name that is cut, and then holds the hash of what was cut off.
pub open spec fn cut_name(name: Seq<char>, cut_hex: Seq<char>) -> Seq<char> {
    let at = split_position(encode_utf8(name));
    if at > 0 {
        shortened(name, at, cut_hex)
    } else {
        name
    }
}

/// The text from which the name of an asset is made: its path relative to the context, or its path
/// written out where it lies outside of it.
pub open spec fn source_path(ident: IdentView, relative: Option<Seq<char>>) -> Seq<char> {
    match relative {
        Some(path) => path,
        None => ident.path.text,
    }
}

/// The name of the output file of an asset, where `field_hex` is the hash of its fields and
/// `cut_hex` that of the beginning that is cut off.
pub open spec fn output_name_from(
    ident: IdentView,
    relative: Option<Seq<char>>,
    prefix: Option<Seq<char>>,
    extension: Seq<char>,
    field_hex: Seq<char>,
    cut_hex: Seq<char>,
) -> Seq<char> {
    let path = source_path(ident, relative);
    let name = full_name(ident, stem(path, prefix, extension), extension, field_hex);
    with_extension(cut_name(name, cut_hex), has_extension(path, extension), extension)
}

/// The name of an asset does not have to be cut within a character.
///
/// The hash of the fields is shorter than what is kept of a name, so a cut always lies in the stem,
/// and where it lies does not depend on the digits.
pub open spec fn has_output_name(
    ident: IdentView,
    relative: Option<Seq<char>>,
    prefix: Option<Seq<char>>,
    extension: Seq<char>,
) -> bool {
    let stem = stem(source_path(ident, relative), prefix, extension);
    if hash_fields(ident, extension).len() > 0 {
        let bytes = encode_utf8(stem + "_"@);
        let len = bytes.len() + FIELD_HASH_DIGITS;
        len - package_start(bytes) > MAX_FILENAME ==> is_char_boundary(bytes, len - MAX_FILENAME)
    } else {
        can_split(encode_utf8(stem))
    }
}

/// The digits of a hash as bytes: one for each, and none of them an underscore.
pub proof fn lemma_digit_bytes(hex: Seq<char>, count: int)
    requires
        is_hex(hex),
        0 <= count <= hex.len(),
    ensures
        encode_utf8(hex.take(count)).len() == count,
        forall|i: int| 0 <= i < count ==> #[trigger] encode_utf8(hex.take(count))[i] != 0x5f,
{
    let digits = hex.take(count);
    assert forall|i: int| 0 <= i < digits.len() implies '\0' <= #[trigger] digits[i]
        <= '\u{7f}' by {
        assert(is_hex_digit(hex[i]));
    }
    assert(is_ascii_chars(digits));
    vstd::utf8::is_ascii_chars_encode_utf8(digits);
    assert forall|i: int| 0 <= i < count implies #[trigger] encode_utf8(digits)[i] != 0x5f by {
        assert(is_hex_digit(hex[i]));
        assert(digits[i] as u8 == encode_utf8(digits)[i]);
    }
}

/// A package directory ends within the stem and the underscore behind it, whatever the hash is.
pub proof fn lemma_package_start_before_hash(stem: Seq<char>, hex: Seq<char>)
    requires
        is_hex(hex),
    ensures
        package_start(encode_utf8(hashed(stem, hex))) == package_start(encode_utf8(stem + "_"@)),
{
    let before = encode_utf8(stem + "_"@);
    let digits = encode_utf8(hex.take(FIELD_HASH_DIGITS as int));
    let full = encode_utf8(hashed(stem, hex));
    lemma_encode_concat(stem + "_"@, hex.take(FIELD_HASH_DIGITS as int));
    lemma_digit_bytes(hex, FIELD_HASH_DIGITS as int);
    lemma_node_modules();
    assert forall|i: int| #[trigger]
        occurs_at(full, node_modules(), i) == occurs_at(before, node_modules(), i) by {
        if 0 <= i && i + 14 <= before.len() {
            assert(full.subrange(i, i + 14) =~= before.subrange(i, i + 14));
        } else if 0 <= i && i + 14 <= full.len() {
            assert(full.subrange(i, i + 14)[13] == full[i + 13]);
            assert(full[i + 13] == digits[i + 13 - before.len()]);
        }
    }
    lemma_last_occurrence(full, node_modules(), full.len() as int);
    lemma_last_occurrence(before, node_modules(), before.len() as int);
    if let Some(i) = last_occurrence(full, node_modules(), full.len() as int) {
        assert(occurs_at(before, node_modules(), i));
    }
    if let Some(i) = last_occurrence(before, node_modules(), before.len() as int) {
        assert(occurs_at(full, node_modules(), i));
    }
}

/// Whether a name can be split does not depend on the digits of the hash in it.
pub proof fn lemma_has_output_name(
    ident: IdentView,
    relative: Option<Seq<char>>,
    prefix: Option<Seq<char>>,
    extension: Seq<char>,
    field_hex: Seq<char>,
)
    requires
        is_hex(field_hex) || hash_fields(ident, extension).len() == 0,
    ensures
        has_output_name(ident, relative, prefix, extension) == can_split(
            encode_utf8(
                full_name(
                    ident,
                    stem(source_path(ident, relative), prefix, extension),
                    extension,
                    field_hex,
                ),
            ),
        ),
{
    let stem = stem(source_path(ident, relative), prefix, extension);
    if hash_fields(ident, extension).len() > 0 {
        let before = encode_utf8(stem + "_"@);
        let full = encode_utf8(hashed(stem, field_hex));
        lemma_encode_concat(stem + "_"@, field_hex.take(FIELD_HASH_DIGITS as int));
        lemma_digit_bytes(field_hex, FIELD_HASH_DIGITS as int);
        lemma_package_start_before_hash(stem, field_hex);
        lemma_package_start_in_range(before);
        if full.len() - package_start(full) > MAX_FILENAME {
            let cut = full.len() - MAX_FILENAME;
            vstd::utf8::encode_utf8_valid_utf8(stem + "_"@);
            vstd::utf8::encode_utf8_valid_utf8(hashed(stem, field_hex));
            assert(full[cut] == before[cut]);
            vstd::utf8::is_char_boundary_iff_not_is_continuation_byte(full, cut);
            vstd::utf8::is_char_boundary_iff_not_is_continuation_byte(before, cut);
        }
    }
}

/// `hex` is what `hash` may return for the given fields.
pub open spec fn is_field_hash<F: Fn(&Vec<HashField>) -> String>(
    hash: F,
    fields: Seq<HashFieldView>,
    hex: Seq<char>,
) -> bool {
    exists|given: &Vec<HashField>, returned: String| #[trigger]
        call_ensures(hash, (given,), returned) && field_views(given@) == fields && returned@ == hex
}

/// `hex` is what `hash` may return for the given bytes.
pub open spec fn is_byte_hash<B: Fn(&[u8]) -> String>(
    hash: B,
    bytes: Seq<u8>,
    hex: Seq<char>,
) -> bool {
    exists|given: &[u8], returned: String| #[trigger]
        call_ensures(hash, (given,), returned) && given@ == bytes && returned@ == hex
}

/// Fields are hashed alike whenever they are hashed.
pub open spec fn hashes_fields_alike<F: Fn(&Vec<HashField>) -> String>(hash: F) -> bool {
    forall|fields: Seq<HashFieldView>, a: Seq<char>, b: Seq<char>| #[trigger]
        is_field_hash(hash, fields, a) && #[trigger] is_field_hash(hash, fields, b) ==> a == b
}

/// Bytes are hashed alike whenever they are hashed.
pub open spec fn hashes_bytes_alike<B: Fn(&[u8]) -> String>(hash: B) -> bool {
    forall|bytes: Seq<u8>, a: Seq<char>, b: Seq<char>| #[trigger]
        is_byte_hash(hash, bytes, a) && #[trigger] is_byte_hash(hash, bytes, b) ==> a == b
}

/// `name` is the name of the output file of an asset, made with what `hash_of_fields` returns for
/// the fields that go into its hash, if there are any, and what `hash_of_bytes` returns for the
/// beginning that is cut off, if one is.
pub open spec fn is_output_name<
    F: Fn(&Vec<HashField>) -> String,
    B: Fn(&[u8]) -> String,
>(
    ident: IdentView,
    relative: Option<Seq<char>>,
    prefix: Option<Seq<char>>,
    extension: Seq<char>,
    hash_of_fields: F,
    hash_of_bytes: B,
    name: Seq<char>,
) -> bool {
    let fields = hash_fields(ident, extension);
    let stem = stem(source_path(ident, relative), prefix, extension);
    exists|field_hex: Seq<char>, cut_hex: Seq<char>|
        {
            let full = encode_utf8(full_name(ident, stem, extension, field_hex));
            &&& fields.len() > 0 ==> is_field_hash(hash_of_fields, fields, field_hex)
            &&& split_position(full) > 0 ==> is_byte_hash(
                hash_of_bytes,
                full.take(split_position(full)),
                cut_hex,
            )
            &&& name == #[trigger] output_name_from(
                ident,
                relative,
                prefix,
                extension,
                field_hex,
                cut_hex,
            )
        }
}

impl AssetIdent {
    /// The fields that go into the hash of the ident, in the order in which they do.
    pub fn hash_fields(&self, extension: &str) -> (fields: Vec<HashField>)
        ensures
            field_views(fields@) == hash_fields(self@, extension@),
    {
        let mut fields: Vec<HashField> = Vec::new();
        push_text(&mut fields, TAG_QUERY, &self.query);
        push_text(&mut fields, TAG_FRAGMENT, &self.fragment);
        push_text(&mut fields, TAG_ASSETS, &self.assets);
        push_modifiers(&mut fields, &self.modifiers, extension);
        push_text(&mut fields, TAG_PARTS, &self.parts);
        let ghost mut so_far = field_views(fields@);
        if let Some(layer) = self.layer {
            fields.push(HashField { tag: TAG_LAYER, value: HashValue::Layer(layer) });
        }
        proof {
            assert(field_views(fields@) =~= so_far + layer_fields(self@.layer));
            so_far = field_views(fields@);
        }
        if let Some(content_type) = &self.content_type {
            fields.push(
                HashField { tag: TAG_CONTENT_TYPE, value: HashValue::Text(content_type.clone()) },
            );
        }
        proof {
            assert(field_views(fields@) =~= so_far + content_type_fields(self@.content_type));
        }
        fields
    }

    /// Whether the asset has a name that does not have to be cut within a character.
    pub fn has_output_name(
        &self,
        relative: Option<&str>,
        prefix: Option<&str>,
        expected_extension: &str,
    ) -> (r: bool)
        ensures
            r == has_output_name(self@, text_of(relative), text_of(prefix), expected_extension@),
    {
        let source = match relative {
            Some(path) => path,
            None => self.path.text.as_str(),
        };
        let (name, _) = make_stem(source, prefix, expected_extension);
        let fields = self.hash_fields(expected_extension);
        let name = if fields.len() > 0 {
            proof {
                reveal_strlit("00000000");
            }
            append_field_hash(name.as_str(), "00000000")
        } else {
            name
        };
        proof {
            assert(field_views(fields@).len() == fields@.len());
            lemma_has_output_name(
                self@,
                text_of(relative),
                text_of(prefix),
                expected_extension@,
                "00000000"@,
            );
        }
        find_split(name.as_str()).is_some()
    }

    /// Computes a name for the output file of the asset.
    ///
    /// `relative` is the path of the asset relative to the context, if it lies within it. The
    /// extension starts with a dot. `hash_fields` gives the hash of the fields of the ident, and
    /// `hash_bytes` that of the bytes of a name, both written in hexadecimal.
    pub fn output_name<F, B>(
        &self,
        relative: Option<&str>,
        prefix: Option<&str>,
        expected_extension: &str,
        hash_fields: F,
        hash_bytes: B,
    ) -> (name: String)
        where
            F: Fn(&Vec<HashField>) -> String,
            B: Fn(&[u8]) -> String,
        requires
            expected_extension@.len() > 0,
            expected_extension@[0] == '.',
            has_output_name(self@, text_of(relative), text_of(prefix), expected_extension@),
            forall|fields: &Vec<HashField>| #[trigger] call_requires(hash_fields, (fields,)),
            forall|fields: &Vec<HashField>, hex: String| #[trigger]
                call_ensures(hash_fields, (fields,), hex) ==> is_hex(hex@),
            forall|bytes: &[u8]| #[trigger] call_requires(hash_bytes, (bytes,)),
            forall|bytes: &[u8], hex: String| #[trigger]
                call_ensures(hash_bytes, (bytes,), hex) ==> is_hex(hex@),
        ensures
            is_output_name(
                self@,
                text_of(relative),
                text_of(prefix),
                expected_extension@,
                hash_fields,
                hash_bytes,
                name@,
            ),
            exists|full: Seq<char>, kept: Seq<char>, field_hex: Seq<char>, cut_hex: Seq<char>|
                #![trigger encode_utf8(full), encode_utf8(kept), field_hex.take(8), cut_hex.take(5)]
                {
                    let fields = crate::output_name::hash_fields(self@, expected_extension@);
                    let source = source_path(self@, text_of(relative));
                    let stem = stem(source, text_of(prefix), expected_extension@);
                    let end = if has_extension(source, expected_extension@) {
                        expected_extension@
                    } else {
                        "._"@ + expected_extension@
                    };
                    &&& fields.len() == 0 ==> full == stem
                    &&& fields.len() > 0 ==> {
                        &&& full == stem + "_"@ + field_hex.take(8)
                        &&& exists|given: &Vec<HashField>, returned: String| #[trigger]
                            call_ensures(hash_fields, (given,), returned) && field_views(given@)
                                == fields && returned@ == field_hex
                    }
                    &&& encode_utf8(kept).len() == encode_utf8(full).len() - split_position(
                        encode_utf8(full),
                    )
                    &&& encode_utf8(kept).len() == encode_utf8(full).len() ==> {
                        &&& kept == full
                        &&& name@ == full + end
                    }
                    &&& encode_utf8(kept).len() < encode_utf8(full).len() ==> {
                        &&& exists|given: &[u8], returned: String| #[trigger]
                            call_ensures(hash_bytes, (given,), returned) && given@ + encode_utf8(
                                kept,
                            ) == encode_utf8(full) && returned@ == cut_hex
                        &&& name@ == cut_hex.take(5) + "_"@ + kept + end
                    }
                },
    {
        let source = match relative {
            Some(path) => path,
            None => self.path.text.as_str(),
        };
        let (stem_text, removed_extension) = make_stem(source, prefix, expected_extension);
        let fields = self.hash_fields(expected_extension);
        let ghost mut field_hex: Seq<char> = seq![];
        let full = if fields.len() > 0 {
            let hex = hash_fields(&fields);
            proof {
                field_hex = hex@;
            }
            append_field_hash(stem_text.as_str(), hex.as_str())
        } else {
            stem_text
        };
        proof {
            assert(field_views(fields@).len() == fields@.len());
            lemma_has_output_name(
                self@,
                text_of(relative),
                text_of(prefix),
                expected_extension@,
                field_hex,
            );
            lemma_split_position(full@);
        }
        let at: usize = match find_split(full.as_str()) {
            Some(at) => at,
            None => vstd::pervasive::unreached(),
        };
        let ghost full_text = full@;
        let ghost mut cut_hex: Seq<char> = seq![];
        let cut = if at > 0 {
            let beginning = slice_subrange(full.as_str().as_bytes(), 0, at);
            let hex = hash_bytes(beginning);
            proof {
                cut_hex = hex@;
                assert(beginning@ =~= encode_utf8(full@).take(at as int));
            }
            replace_beginning(full.as_str(), at, hex.as_str())
        } else {
            full
        };
        let ghost cut_text = cut@;
        let name = append_extension(cut, removed_extension, expected_extension);
        proof {
            let kept = suffix_from(full_text, at as int);
            let bytes = encode_utf8(full_text);
            lemma_cut(full_text, at as int);
            assert(bytes.take(at as int) + bytes.skip(at as int) =~= bytes);
            if at == 0 {
                assert(bytes.skip(0) =~= bytes);
                lemma_same_bytes(kept, full_text);
            }
            assert(field_hex.take(8) == field_hex.take(FIELD_HASH_DIGITS as int));
            assert(cut_hex.take(5) == cut_hex.take(CUT_HASH_DIGITS as int));
            let end = if removed_extension {
                expected_extension@
            } else {
                "._"@ + expected_extension@
            };
            assert(name@ =~= cut_text + end);
            assert(name@ == output_name_from(
                self@,
                text_of(relative),
                text_of(prefix),
                expected_extension@,
                field_hex,
                cut_hex,
            ));
        }
        name
    }
}

}
