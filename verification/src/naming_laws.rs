//! What each step from a path to the name of an output file comes to.
use vstd::prelude::*;
use vstd::utf8::{encode_utf8, is_char_boundary};
use crate::bytes::{lemma_cut, lemma_encode_concat, suffix_from};
use crate::ident::IdentView;
use crate::naming::{
    can_split, has_extension, hashed, is_hex, is_hex_digit, lemma_node_modules,
    lemma_split_position, node_modules, package_start, shortened, split_position, stem, text_of,
    with_extension, without_separators,
};
use crate::output_laws::{equal_output_names_have_equal_pieces, hashes_are_hex};
use crate::output_name::{
    field_views, full_name, has_output_name, hash_fields, is_byte_hash, is_field_hash,
    is_output_name, lemma_has_output_name, output_name_from, source_path, HashField,
};
use crate::text::{
    first_occurrence, lemma_first_occurrence, lemma_last_occurrence, lemma_same_bytes, occurs_at,
};

verus! {

/// A text that may be missing is taken as its characters, and as missing only if it is.
pub proof fn given_texts_are_taken_as_they_are(text: &str)
    ensures
        text_of(Some(text)) == Some(text@),
        text_of(None) is None,
{
}

/// An asset is named after its path relative to the context, even where that is empty, and after
/// its path written out where it lies outside of the context.
pub proof fn assets_are_named_after_their_path(ident: IdentView, relative: Seq<char>)
    ensures
        source_path(ident, Some(relative)) == relative,
        source_path(ident, None) == ident.path.text,
{
}

/// A path has an extension exactly if it ends with it once the separators in it are underscores.
pub proof fn extensions_stand_at_the_end(path: Seq<char>, extension: Seq<char>)
    ensures
        has_extension(path, extension) <==> {
            &&& extension.len() <= path.len()
            &&& forall|i: int, j: int|
                #![trigger path[i], extension[j]]
                0 <= j < extension.len() && i == path.len() - extension.len() + j ==> {
                    &&& (path[i] == '/' || path[i] == '#' || path[i] == '?') ==> extension[j]
                        == '_'
                    &&& !(path[i] == '/' || path[i] == '#' || path[i] == '?') ==> extension[j]
                        == path[i]
                }
        },
{
    let flat = without_separators(path);
    let n = path.len() - extension.len();
    if has_extension(path, extension) {
        assert forall|i: int, j: int|
            #![trigger path[i], extension[j]]
            0 <= j < extension.len() && i == n + j implies {
            &&& (path[i] == '/' || path[i] == '#' || path[i] == '?') ==> extension[j] == '_'
            &&& !(path[i] == '/' || path[i] == '#' || path[i] == '?') ==> extension[j] == path[i]
        } by {
            assert(flat.skip(n)[j] == flat[i]);
        }
    }
    if extension.len() <= path.len() && forall|i: int, j: int|
        #![trigger path[i], extension[j]]
        0 <= j < extension.len() && i == n + j ==> {
            &&& (path[i] == '/' || path[i] == '#' || path[i] == '?') ==> extension[j] == '_'
            &&& !(path[i] == '/' || path[i] == '#' || path[i] == '?') ==> extension[j] == path[i]
        } {
        assert forall|j: int| 0 <= j < extension.len() implies flat.skip(n)[j] == extension[j] by {
            assert(flat[n + j] == flat.skip(n)[j]);
            assert(path[n + j] == path[n + j] && extension[j] == extension[j]);
        }
        assert(flat.skip(n) =~= extension);
    }
}

/// A stem is the path without the extension, character by character, with underscores in place of
/// the separators and dots. A prefix and a dash stand in front of it.
pub proof fn stems_follow_the_path(path: Seq<char>, prefix: Seq<char>, extension: Seq<char>)
    ensures
        has_extension(path, extension) ==> stem(path, None, extension).len() == path.len()
            - extension.len(),
        !has_extension(path, extension) ==> stem(path, None, extension).len() == path.len(),
        forall|i: int|
            0 <= i < stem(path, None, extension).len() ==> #[trigger] stem(path, None, extension)[i]
                == (if path[i] == '/' || path[i] == '#' || path[i] == '?' || path[i] == '.' {
                '_'
            } else {
                path[i]
            }),
        stem(path, Some(prefix), extension) == prefix + "-"@ + stem(path, None, extension),
{
}

/// A hash is written in at least eight digits, of either case.
pub proof fn hashes_are_hexadecimal(s: Seq<char>)
    ensures
        is_hex(s) <==> s.len() >= 8 && forall|i: int|
            0 <= i < s.len() ==> ('0' <= #[trigger] s[i] <= '9' || 'a' <= s[i] <= 'f' || 'A'
                <= s[i] <= 'F'),
{
    if is_hex(s) {
        assert forall|i: int| 0 <= i < s.len() implies ('0' <= #[trigger] s[i] <= '9' || 'a'
            <= s[i] <= 'f' || 'A' <= s[i] <= 'F') by {
            assert(is_hex_digit(s[i]));
        }
    }
}

/// The hash of the fields stands behind the whole stem, with an underscore between and its first
/// eight digits.
pub proof fn field_hashes_stand_behind_the_stem(stem: Seq<char>, hex: Seq<char>)
    requires
        hex.len() >= 8,
    ensures
        hashed(stem, hex).len() == stem.len() + 9,
        hashed(stem, hex).take(stem.len() as int) == stem,
        hashed(stem, hex)[stem.len() as int] == '_',
        hashed(stem, hex).skip(stem.len() as int + 1) == hex.take(8),
{
    reveal_strlit("_");
    assert(hashed(stem, hex).take(stem.len() as int) =~= stem);
    assert(hashed(stem, hex).skip(stem.len() as int + 1) =~= hex.take(8));
}

/// The part of a name within a package begins behind the last `_node_modules_` in it, or at the
/// beginning where there is none.
pub proof fn packages_begin_behind_the_last_directory(bytes: Seq<u8>)
    ensures
        ({
            let start = package_start(bytes);
            let mark = encode_utf8("_node_modules_"@);
            &&& mark.len() == 14
            &&& start == 0 || (14 <= start <= bytes.len() && bytes.subrange(start - 14, start)
                == mark)
            &&& forall|i: int, j: int|
                0 <= i && j == i + 14 && j <= bytes.len() && #[trigger] bytes.subrange(i, j) == mark
                    ==> j <= start
        }),
{
    lemma_node_modules();
    let mark = node_modules();
    let start = package_start(bytes);
    lemma_last_occurrence(bytes, mark, bytes.len() as int);
    assert forall|i: int, j: int|
        0 <= i && j == i + 14 && j <= bytes.len() && #[trigger] bytes.subrange(i, j)
            == mark implies j <= start by {
        assert(occurs_at(bytes, mark, i));
    }
}

/// A name is split behind the last package directory. Where more than 80 bytes would then remain, it
/// is split 80 bytes in front of its end, which must not be within a character, or behind the first
/// underscore from there on, if that is one of the next 20 bytes.
pub proof fn names_are_split_where_80_bytes_remain(bytes: Seq<u8>)
    ensures
        ({
            let start = package_start(bytes);
            let cut = bytes.len() - 80;
            let at = split_position(bytes);
            &&& can_split(bytes) <==> bytes.len() - start <= 80 || is_char_boundary(bytes, cut)
            &&& bytes.len() - start <= 80 ==> at == start
            &&& bytes.len() - start > 80 ==> {
                &&& cut <= at <= cut + 20
                &&& at == cut ==> forall|k: int| cut <= k < cut + 20 ==> #[trigger] bytes[k] != 0x5f
                &&& at > cut ==> bytes[at - 1] == 0x5f && forall|k: int|
                    cut <= k < at - 1 ==> #[trigger] bytes[k] != 0x5f
            }
        }),
{
    let start = package_start(bytes);
    let cut = bytes.len() - 80;
    packages_begin_behind_the_last_directory(bytes);
    if bytes.len() - start > 80 {
        let rest = bytes.skip(cut);
        lemma_first_occurrence(rest, seq![0x5fu8], 0);
        let first = first_occurrence(rest, seq![0x5fu8], 0);
        assert forall|k: int|
            cut <= k < bytes.len() && (first matches Some(j) ==> k < cut
                + j) implies #[trigger] bytes[k] != 0x5f by {
            if bytes[k] == 0x5f {
                assert(rest.subrange(k - cut, k - cut + 1) =~= seq![0x5fu8]);
                assert(occurs_at(rest, seq![0x5fu8], k - cut));
            }
        }
        if let Some(j) = first {
            assert(rest.subrange(j, j + 1)[0] == 0x5f);
            assert(bytes[cut + j] == 0x5f);
        }
    }
}

/// Where the beginning of a name is replaced by its hash, the first five digits, an underscore and
/// all of the rest remain.
pub proof fn the_rest_of_a_cut_name_remains(
    beginning: Seq<char>,
    rest: Seq<char>,
    hex: Seq<char>,
)
    ensures
        shortened(beginning + rest, encode_utf8(beginning).len() as int, hex) == hex.take(5) + "_"@
            + rest,
{
    let at = encode_utf8(beginning).len() as int;
    lemma_encode_concat(beginning, rest);
    assert(encode_utf8(beginning + rest).skip(at) =~= encode_utf8(rest));
    vstd::utf8::encode_utf8_decode_utf8(rest);
}

/// The extension stands at the end of a name, behind a mark if it was not there before.
pub proof fn extensions_are_put_back(name: Seq<char>, extension: Seq<char>)
    ensures
        with_extension(name, true, extension) == name + extension,
        with_extension(name, false, extension) == name + seq!['.', '_'] + extension,
{
    reveal_strlit("._");
    assert("._"@ =~= seq!['.', '_']);
}

/// An asset has an output name exactly if its stem, with the hash behind it if any of its fields are
/// hashed, can be split, whatever the digits of the hash are.
pub proof fn names_exist_where_they_can_be_split(
    ident: IdentView,
    relative: Option<Seq<char>>,
    prefix: Option<Seq<char>>,
    extension: Seq<char>,
    hex: Seq<char>,
)
    requires
        is_hex(hex),
    ensures
        ({
            let stem = stem(source_path(ident, relative), prefix, extension);
            let full = encode_utf8(
                if hash_fields(ident, extension).len() > 0 {
                    stem + "_"@ + hex.take(8)
                } else {
                    stem
                },
            );
            has_output_name(ident, relative, prefix, extension) <==> full.len() - package_start(
                full,
            ) <= 80 || is_char_boundary(full, full.len() - 80)
        }),
{
    lemma_has_output_name(ident, relative, prefix, extension, hex);
}

/// The output name of an asset is its stem with the hash behind it, if any of its fields are hashed,
/// and with the extension at the end. Where it is split, the beginning gives way to its hash and
/// all of the rest remains.
pub proof fn output_names_are_made_of_stem_and_hashes(
    ident: IdentView,
    relative: Option<Seq<char>>,
    prefix: Option<Seq<char>>,
    extension: Seq<char>,
    field_hex: Seq<char>,
    cut_hex: Seq<char>,
    beginning: Seq<char>,
    rest: Seq<char>,
)
    requires
        ({
            let stem = stem(source_path(ident, relative), prefix, extension);
            beginning + rest == (if hash_fields(ident, extension).len() > 0 {
                stem + "_"@ + field_hex.take(8)
            } else {
                stem
            })
        }),
        encode_utf8(beginning).len() == split_position(encode_utf8(beginning + rest)),
    ensures
        ({
            let end = if has_extension(source_path(ident, relative), extension) {
                extension
            } else {
                "._"@ + extension
            };
            let name = output_name_from(ident, relative, prefix, extension, field_hex, cut_hex);
            &&& beginning.len() == 0 ==> name == rest + end
            &&& beginning.len() > 0 ==> name == cut_hex.take(5) + "_"@ + rest + end
        }),
{
    let path = source_path(ident, relative);
    let full = beginning + rest;
    let end = if has_extension(path, extension) {
        extension
    } else {
        "._"@ + extension
    };
    let name = output_name_from(ident, relative, prefix, extension, field_hex, cut_hex);
    assert(full_name(ident, stem(path, prefix, extension), extension, field_hex) == full);
    the_rest_of_a_cut_name_remains(beginning, rest, cut_hex);
    if beginning.len() == 0 {
        assert(encode_utf8(beginning).len() == 0);
        assert(full =~= rest);
        assert(name =~= rest + end);
    } else {
        assert(encode_utf8(beginning).len() > 0);
        assert(name =~= cut_hex.take(5) + "_"@ + rest + end);
    }
}

/// Output names tell assets apart as far as the hashes do. Where the first eight digits tell fields
/// apart, and the first five digits tell byte sequences apart, two assets with the same extension
/// get the same output name only if their stems and all the fields that are hashed are the same, as
/// long as both have such fields or neither has, and both names are cut or neither is.
pub proof fn output_names_tell_assets_apart<
    F: Fn(&Vec<HashField>) -> String,
    B: Fn(&[u8]) -> String,
>(
    a: IdentView,
    relative_a: Option<Seq<char>>,
    prefix_a: Option<Seq<char>>,
    b: IdentView,
    relative_b: Option<Seq<char>>,
    prefix_b: Option<Seq<char>>,
    extension: Seq<char>,
    hash_of_fields: F,
    hash_of_bytes: B,
    name: Seq<char>,
)
    requires
        has_output_name(a, relative_a, prefix_a, extension),
        has_output_name(b, relative_b, prefix_b, extension),
        forall|fields: &Vec<HashField>, hex: String| #[trigger]
            call_ensures(hash_of_fields, (fields,), hex) ==> is_hex(hex@),
        forall|bytes: &[u8], hex: String| #[trigger]
            call_ensures(hash_of_bytes, (bytes,), hex) ==> is_hex(hex@),
        forall|x: &Vec<HashField>, y: &Vec<HashField>, p: String, q: String|
            {
                &&& #[trigger] call_ensures(hash_of_fields, (x,), p)
                &&& #[trigger] call_ensures(hash_of_fields, (y,), q)
                &&& p@.take(8) == q@.take(8)
            } ==> field_views(x@) == field_views(y@),
        forall|x: &[u8], y: &[u8], p: String, q: String|
            {
                &&& #[trigger] call_ensures(hash_of_bytes, (x,), p)
                &&& #[trigger] call_ensures(hash_of_bytes, (y,), q)
                &&& p@.take(5) == q@.take(5)
            } ==> x@ == y@,
        is_output_name(
            a,
            relative_a,
            prefix_a,
            extension,
            hash_of_fields,
            hash_of_bytes,
            name,
        ),
        is_output_name(
            b,
            relative_b,
            prefix_b,
            extension,
            hash_of_fields,
            hash_of_bytes,
            name,
        ),
        hash_fields(a, extension).len() > 0 <==> hash_fields(b, extension).len() > 0,
        forall|x: Seq<char>, y: Seq<char>|
            is_hex(x) && is_hex(y) ==> (split_position(
                encode_utf8(
                    #[trigger] full_name(
                        a,
                        stem(source_path(a, relative_a), prefix_a, extension),
                        extension,
                        x,
                    ),
                ),
            ) > 0 <==> split_position(
                encode_utf8(
                    #[trigger] full_name(
                        b,
                        stem(source_path(b, relative_b), prefix_b, extension),
                        extension,
                        y,
                    ),
                ),
            ) > 0),
    ensures
        stem(source_path(a, relative_a), prefix_a, extension) == stem(
            source_path(b, relative_b),
            prefix_b,
            extension,
        ),
        hash_fields(a, extension) == hash_fields(b, extension),
        has_extension(source_path(a, relative_a), extension) == has_extension(
            source_path(b, relative_b),
            extension,
        ),
{
    let stem_a = stem(source_path(a, relative_a), prefix_a, extension);
    let stem_b = stem(source_path(b, relative_b), prefix_b, extension);
    let fields_a = hash_fields(a, extension);
    let fields_b = hash_fields(b, extension);
    let (hex_a, cut_a) = choose|field_hex: Seq<char>, cut_hex: Seq<char>|
        {
            let full = encode_utf8(full_name(a, stem_a, extension, field_hex));
            &&& fields_a.len() > 0 ==> is_field_hash(hash_of_fields, fields_a, field_hex)
            &&& split_position(full) > 0 ==> is_byte_hash(
                hash_of_bytes,
                full.take(split_position(full)),
                cut_hex,
            )
            &&& name == #[trigger] output_name_from(
                a,
                relative_a,
                prefix_a,
                extension,
                field_hex,
                cut_hex,
            )
        };
    let (hex_b, cut_b) = choose|field_hex: Seq<char>, cut_hex: Seq<char>|
        {
            let full = encode_utf8(full_name(b, stem_b, extension, field_hex));
            &&& fields_b.len() > 0 ==> is_field_hash(hash_of_fields, fields_b, field_hex)
            &&& split_position(full) > 0 ==> is_byte_hash(
                hash_of_bytes,
                full.take(split_position(full)),
                cut_hex,
            )
            &&& name == #[trigger] output_name_from(
                b,
                relative_b,
                prefix_b,
                extension,
                field_hex,
                cut_hex,
            )
        };
    let full_a = full_name(a, stem_a, extension, hex_a);
    let full_b = full_name(b, stem_b, extension, hex_b);
    let bytes_a = encode_utf8(full_a);
    let bytes_b = encode_utf8(full_b);
    let at_a = split_position(bytes_a);
    let at_b = split_position(bytes_b);
    assert(hashes_are_hex(a, relative_a, prefix_a, extension, hex_a, cut_a));
    assert(hashes_are_hex(b, relative_b, prefix_b, extension, hex_b, cut_b));
    equal_output_names_have_equal_pieces(
        a,
        relative_a,
        prefix_a,
        hex_a,
        cut_a,
        b,
        relative_b,
        prefix_b,
        hex_b,
        cut_b,
        extension,
    );
    assert(at_a > 0 <==> at_b > 0) by {
        reveal_strlit("00000000");
        let zeros = "00000000"@;
        assert(is_hex(zeros));
        let x = if fields_a.len() > 0 {
            hex_a
        } else {
            zeros
        };
        let y = if fields_b.len() > 0 {
            hex_b
        } else {
            zeros
        };
        assert(full_name(a, stem_a, extension, x) == full_a);
        assert(full_name(b, stem_b, extension, y) == full_b);
    }
    assert(full_a == full_b) by {
        lemma_has_output_name(a, relative_a, prefix_a, extension, hex_a);
        lemma_has_output_name(b, relative_b, prefix_b, extension, hex_b);
        lemma_split_position(full_a);
        lemma_split_position(full_b);
        if at_a > 0 {
            lemma_cut(full_a, at_a);
            lemma_cut(full_b, at_b);
            assert(cut_a.take(5) == cut_b.take(5));
            assert(bytes_a.take(at_a) == bytes_b.take(at_b));
            assert(suffix_from(full_a, at_a) == suffix_from(full_b, at_b));
            assert(bytes_a =~= bytes_a.take(at_a) + bytes_a.skip(at_a));
            assert(bytes_b =~= bytes_b.take(at_b) + bytes_b.skip(at_b));
            lemma_same_bytes(full_a, full_b);
        }
    }
    if fields_a.len() > 0 {
        field_hashes_stand_behind_the_stem(stem_a, hex_a);
        field_hashes_stand_behind_the_stem(stem_b, hex_b);
        assert(stem_a =~= stem_b);
        assert(hex_a.take(8) == hex_b.take(8));
    } else {
        assert(fields_a =~= fields_b);
    }
}

}
