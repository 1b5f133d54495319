//! What holds of every output name.
use vstd::prelude::*;
use vstd::utf8::{encode_utf8, is_ascii_chars, is_char_boundary};
use crate::bytes::{lemma_cut, lemma_encode_concat, prefix_to, suffix_from};
use crate::ident::IdentView;
use crate::laws::{added_default_modifier_is_not_hashed, default_modifier_is_not_hashed};
use crate::modifiers::listed_modifiers;
use crate::naming::{
    can_split, has_extension, hashed, is_hex, is_hex_digit, is_separator,
    lemma_package_start_in_range, lemma_split_position, package_start, shortened, split_position,
    stem, without_dots, without_separators, CUT_HASH_DIGITS, FIELD_HASH_DIGITS, MAX_FILENAME,
};
use crate::output_name::{
    cut_name, default_modifier, full_name, has_output_name, hash_fields, hashes_bytes_alike,
    hashes_fields_alike, is_output_name, lemma_digit_bytes, lemma_has_output_name,
    lemma_package_start_before_hash, output_name_from, source_path, HashField,
};
use crate::text::{first_occurrence, grown, has_suffix, lemma_first_occurrence};

verus! {

/// The hashes that go into a name are written in hexadecimal.
pub open spec fn hashes_are_hex(
    ident: IdentView,
    relative: Option<Seq<char>>,
    prefix: Option<Seq<char>>,
    extension: Seq<char>,
    field_hex: Seq<char>,
    cut_hex: Seq<char>,
) -> bool {
    let stem = stem(source_path(ident, relative), prefix, extension);
    let name = full_name(ident, stem, extension, field_hex);
    &&& hash_fields(ident, extension).len() > 0 ==> is_hex(field_hex)
    &&& split_position(encode_utf8(name)) > 0 ==> is_hex(cut_hex)
}

/// The text ends with the mark of an extension that was not there.
spec fn ends_in_mark(s: Seq<char>) -> bool {
    s.len() >= 2 && s[s.len() - 2] == '.' && s[s.len() - 1] == '_'
}

/// The stem without the prefix.
spec fn bare_stem(path: Seq<char>, extension: Seq<char>) -> Seq<char> {
    let flat = without_separators(path);
    without_dots(
        if has_extension(path, extension) {
            flat.take(flat.len() - extension.len())
        } else {
            flat
        },
    )
}

/// The stem without the prefix holds neither dots nor separators.
proof fn lemma_bare_stem(path: Seq<char>, extension: Seq<char>)
    ensures
        forall|i: int|
            0 <= i < bare_stem(path, extension).len() ==> {
                &&& #[trigger] bare_stem(path, extension)[i] != '.'
                &&& !is_separator(bare_stem(path, extension)[i])
            },
{
}

/// A stem does not end with the mark.
proof fn lemma_stem_unmarked(path: Seq<char>, prefix: Option<Seq<char>>, extension: Seq<char>)
    ensures
        !ends_in_mark(stem(path, prefix, extension)),
{
    reveal_strlit("-");
    let bare = bare_stem(path, extension);
    let s = stem(path, prefix, extension);
    lemma_bare_stem(path, extension);
    if let Some(p) = prefix {
        assert(s == p + "-"@ + bare);
        let n = s.len() as int;
        if bare.len() >= 2 {
            assert(s[n - 2] == bare[bare.len() - 2]);
        } else if bare.len() == 1 {
            assert(s[n - 2] == '-');
        } else {
            assert(s[n - 1] == '-');
        }
    } else if bare.len() >= 2 {
        assert(s[s.len() - 2] == bare[bare.len() - 2]);
    }
}

/// A stem with or without a hash does not end with the mark.
proof fn lemma_full_name_unmarked(
    ident: IdentView,
    stem: Seq<char>,
    extension: Seq<char>,
    field_hex: Seq<char>,
)
    requires
        !ends_in_mark(stem),
        hash_fields(ident, extension).len() > 0 ==> is_hex(field_hex),
    ensures
        !ends_in_mark(full_name(ident, stem, extension, field_hex)),
{
    if hash_fields(ident, extension).len() > 0 {
        let name = hashed(stem, field_hex);
        assert(name[name.len() - 1] == field_hex[FIELD_HASH_DIGITS - 1]);
        assert(is_hex_digit(field_hex[FIELD_HASH_DIGITS - 1]));
    }
}

/// A name whose beginning is replaced by its hash does not come to end with the mark.
proof fn lemma_shortened_unmarked(name: Seq<char>, at: int, hex: Seq<char>)
    requires
        !ends_in_mark(name),
        is_char_boundary(encode_utf8(name), at),
        is_hex(hex),
    ensures
        !ends_in_mark(shortened(name, at, hex)),
{
    reveal_strlit("_");
    lemma_cut(name, at);
    let rest = suffix_from(name, at);
    let s = shortened(name, at, hex);
    let n = s.len() as int;
    if rest.len() >= 2 {
        assert(s[n - 2] == rest[rest.len() - 2]);
        assert(s[n - 1] == rest[rest.len() - 1]);
        assert(name[name.len() - 2] == rest[rest.len() - 2]);
        assert(name[name.len() - 1] == rest[rest.len() - 1]);
    } else if rest.len() == 1 {
        assert(s[n - 2] == '_');
    } else {
        assert(s[n - 2] == hex[CUT_HASH_DIGITS - 1]);
        assert(is_hex_digit(hex[CUT_HASH_DIGITS - 1]));
    }
}

/// The mark `._` in front of the extension tells whether the extension was added: the output name
/// ends with both exactly if the path did not have the extension. So `.json` and `.json.js` do not
/// end up with the same name.
pub proof fn added_extension_is_marked(
    ident: IdentView,
    relative: Option<Seq<char>>,
    prefix: Option<Seq<char>>,
    extension: Seq<char>,
    field_hex: Seq<char>,
    cut_hex: Seq<char>,
)
    requires
        has_output_name(ident, relative, prefix, extension),
        hashes_are_hex(ident, relative, prefix, extension, field_hex, cut_hex),
    ensures
        has_suffix(
            output_name_from(ident, relative, prefix, extension, field_hex, cut_hex),
            "._"@ + extension,
        ) <==> !has_extension(source_path(ident, relative), extension),
{
    reveal_strlit("._");
    let path = source_path(ident, relative);
    let stem = stem(path, prefix, extension);
    let full = full_name(ident, stem, extension, field_hex);
    let cut = cut_name(full, cut_hex);
    let out = output_name_from(ident, relative, prefix, extension, field_hex, cut_hex);
    let mark = "._"@ + extension;
    if has_extension(path, extension) {
        lemma_stem_unmarked(path, prefix, extension);
        lemma_full_name_unmarked(ident, stem, extension, field_hex);
        lemma_has_output_name(ident, relative, prefix, extension, field_hex);
        lemma_split_position(full);
        if split_position(encode_utf8(full)) > 0 {
            lemma_shortened_unmarked(full, split_position(encode_utf8(full)), cut_hex);
        }
        if has_suffix(out, mark) {
            let tail = out.skip(out.len() - mark.len());
            assert(tail[0] == '.' && tail[1] == '_');
            assert(out[cut.len() - 2] == tail[0]);
            assert(out[cut.len() - 1] == tail[1]);
        }
    } else {
        assert(out.skip(out.len() - mark.len()) =~= mark);
    }
}

/// An output name has at most so many bytes in front of its extension: those of the hash of the
/// beginning, of the named part and of the mark of an added extension.
pub proof fn output_name_is_short(
    ident: IdentView,
    relative: Option<Seq<char>>,
    prefix: Option<Seq<char>>,
    extension: Seq<char>,
    field_hex: Seq<char>,
    cut_hex: Seq<char>,
)
    requires
        has_output_name(ident, relative, prefix, extension),
        hashes_are_hex(ident, relative, prefix, extension, field_hex, cut_hex),
    ensures
        encode_utf8(
            output_name_from(ident, relative, prefix, extension, field_hex, cut_hex),
        ).len() <= CUT_HASH_DIGITS + 1 + MAX_FILENAME + 2 + encode_utf8(extension).len(),
{
    reveal_strlit("._");
    reveal_strlit("_");
    let path = source_path(ident, relative);
    let full = full_name(ident, stem(path, prefix, extension), extension, field_hex);
    let cut = cut_name(full, cut_hex);
    lemma_has_output_name(ident, relative, prefix, extension, field_hex);
    lemma_split_position(full);
    let at = split_position(encode_utf8(full));
    assert(is_ascii_chars("_"@));
    vstd::utf8::is_ascii_chars_encode_utf8("_"@);
    assert(is_ascii_chars("._"@));
    vstd::utf8::is_ascii_chars_encode_utf8("._"@);
    if at > 0 {
        let digits = cut_hex.take(CUT_HASH_DIGITS as int);
        lemma_digit_bytes(cut_hex, CUT_HASH_DIGITS as int);
        lemma_cut(full, at);
        lemma_encode_concat(digits, "_"@);
        lemma_encode_concat(digits + "_"@, suffix_from(full, at));
    }
    if has_extension(path, extension) {
        lemma_encode_concat(cut, extension);
    } else {
        lemma_encode_concat(cut, "._"@);
        lemma_encode_concat(cut + "._"@, extension);
    }
}

/// Leading dots of a path are not preserved: an output name starts with a dot only if its prefix
/// does, or if there is nothing to name the file by.
pub proof fn output_name_has_no_leading_dot(
    ident: IdentView,
    relative: Option<Seq<char>>,
    prefix: Option<Seq<char>>,
    extension: Seq<char>,
    field_hex: Seq<char>,
    cut_hex: Seq<char>,
)
    requires
        hashes_are_hex(ident, relative, prefix, extension, field_hex, cut_hex),
        prefix matches Some(p) ==> p.len() == 0 || p[0] != '.',
        stem(source_path(ident, relative), prefix, extension).len() > 0 || hash_fields(
            ident,
            extension,
        ).len() > 0,
    ensures
        ({
            let out = output_name_from(ident, relative, prefix, extension, field_hex, cut_hex);
            out.len() > 0 && out[0] != '.'
        }),
{
    reveal_strlit("_");
    reveal_strlit("-");
    let path = source_path(ident, relative);
    let stem = stem(path, prefix, extension);
    let full = full_name(ident, stem, extension, field_hex);
    let cut = cut_name(full, cut_hex);
    let out = output_name_from(ident, relative, prefix, extension, field_hex, cut_hex);
    lemma_bare_stem(path, extension);
    if stem.len() > 0 {
        assert(stem[0] != '.') by {
            let bare = bare_stem(path, extension);
            match prefix {
                Some(p) => {
                    assert(stem == p + "-"@ + bare);
                    if p.len() > 0 {
                        assert(stem[0] == p[0]);
                    } else {
                        assert(stem[0] == '-');
                    }
                },
                None => {
                    assert(stem[0] == bare[0]);
                },
            }
        }
        assert(full[0] == stem[0]);
    } else {
        assert(full[0] == '_');
    }
    if split_position(encode_utf8(full)) > 0 {
        assert(cut[0] == cut_hex[0]);
        assert(is_hex_digit(cut_hex[0]));
    }
    assert(out[0] == cut[0]);
}

/// No character of the text is a separator.
pub open spec fn is_flat(s: Seq<char>) -> bool {
    forall|i: int| 0 <= i < s.len() ==> !is_separator(#[trigger] s[i])
}

/// Texts without separators make up a text without separators.
proof fn lemma_flat_concat(a: Seq<char>, b: Seq<char>)
    requires
        is_flat(a),
        is_flat(b),
    ensures
        is_flat(a + b),
{
    assert forall|i: int| 0 <= i < (a + b).len() implies !is_separator(#[trigger] (a + b)[i]) by {
        if i < a.len() {
            assert((a + b)[i] == a[i]);
        } else {
            assert((a + b)[i] == b[i - a.len()]);
        }
    }
}

/// Digits of a hash are no separators.
proof fn lemma_flat_digits(hex: Seq<char>, count: int)
    requires
        is_hex(hex),
        0 <= count <= hex.len(),
    ensures
        is_flat(hex.take(count)),
{
    assert forall|i: int| 0 <= i < count implies !is_separator(
        #[trigger] hex.take(count)[i],
    ) by {
        assert(is_hex_digit(hex[i]));
    }
}

/// An output name is the name of one file, with nothing in it that separates the parts of a path
/// or of a request, unless the prefix or the extension brings it in.
pub proof fn output_name_is_flat(
    ident: IdentView,
    relative: Option<Seq<char>>,
    prefix: Option<Seq<char>>,
    extension: Seq<char>,
    field_hex: Seq<char>,
    cut_hex: Seq<char>,
)
    requires
        has_output_name(ident, relative, prefix, extension),
        hashes_are_hex(ident, relative, prefix, extension, field_hex, cut_hex),
        prefix matches Some(p) ==> is_flat(p),
        is_flat(extension),
    ensures
        is_flat(output_name_from(ident, relative, prefix, extension, field_hex, cut_hex)),
{
    reveal_strlit("._");
    reveal_strlit("_");
    reveal_strlit("-");
    let path = source_path(ident, relative);
    let stem = stem(path, prefix, extension);
    let full = full_name(ident, stem, extension, field_hex);
    let cut = cut_name(full, cut_hex);
    let bare = bare_stem(path, extension);
    lemma_bare_stem(path, extension);
    assert(is_flat(bare));
    assert(is_flat("-"@) && is_flat("_"@) && is_flat("._"@));
    if let Some(p) = prefix {
        lemma_flat_concat(p, "-"@);
        lemma_flat_concat(p + "-"@, bare);
    }
    assert(is_flat(stem));
    if hash_fields(ident, extension).len() > 0 {
        lemma_flat_digits(field_hex, FIELD_HASH_DIGITS as int);
        lemma_flat_concat(stem, "_"@);
        lemma_flat_concat(stem + "_"@, field_hex.take(FIELD_HASH_DIGITS as int));
    }
    assert(is_flat(full));
    lemma_has_output_name(ident, relative, prefix, extension, field_hex);
    lemma_split_position(full);
    let at = split_position(encode_utf8(full));
    if at > 0 {
        lemma_cut(full, at);
        let rest = suffix_from(full, at);
        let n = prefix_to(full, at).len();
        assert forall|i: int| 0 <= i < rest.len() implies !is_separator(#[trigger] rest[i]) by {
            assert(full[n + i] == rest[i]);
        }
        lemma_flat_digits(cut_hex, CUT_HASH_DIGITS as int);
        lemma_flat_concat(cut_hex.take(CUT_HASH_DIGITS as int), "_"@);
        lemma_flat_concat(cut_hex.take(CUT_HASH_DIGITS as int) + "_"@, rest);
    }
    assert(is_flat(cut));
    if has_extension(path, extension) {
        lemma_flat_concat(cut, extension);
    } else {
        lemma_flat_concat(cut, "._"@);
        lemma_flat_concat(cut + "._"@, extension);
    }
}

/// An ASCII text can be cut anywhere.
proof fn lemma_ascii_can_split(s: Seq<char>)
    requires
        is_ascii_chars(s),
    ensures
        can_split(encode_utf8(s)),
{
    let bytes = encode_utf8(s);
    vstd::utf8::is_ascii_chars_encode_utf8(s);
    vstd::utf8::encode_utf8_valid_utf8(s);
    lemma_package_start_in_range(bytes);
    if bytes.len() > MAX_FILENAME {
        let cut = bytes.len() - MAX_FILENAME;
        assert('\0' <= s[cut] <= '\u{7f}');
        assert(s[cut] as u8 == bytes[cut]);
        vstd::utf8::is_char_boundary_iff_not_is_continuation_byte(bytes, cut);
    }
}

/// An asset with a path and a prefix in ASCII has an output name.
pub proof fn ascii_paths_have_output_names(
    ident: IdentView,
    relative: Option<Seq<char>>,
    prefix: Option<Seq<char>>,
    extension: Seq<char>,
)
    requires
        is_ascii_chars(source_path(ident, relative)),
        prefix matches Some(p) ==> is_ascii_chars(p),
    ensures
        has_output_name(ident, relative, prefix, extension),
{
    reveal_strlit("_");
    reveal_strlit("-");
    reveal_strlit("00000000");
    let path = source_path(ident, relative);
    let stem = stem(path, prefix, extension);
    let flat = without_separators(path);
    let bare = bare_stem(path, extension);
    let hex = "00000000"@;
    assert forall|i: int| 0 <= i < flat.len() implies '\0' <= #[trigger] flat[i] <= '\u{7f}' by {
        assert('\0' <= path[i] <= '\u{7f}');
    }
    assert forall|i: int| 0 <= i < bare.len() implies '\0' <= #[trigger] bare[i] <= '\u{7f}' by {
        assert('\0' <= flat[i] <= '\u{7f}');
    }
    assert forall|i: int| 0 <= i < stem.len() implies '\0' <= #[trigger] stem[i] <= '\u{7f}' by {
        if let Some(p) = prefix {
            assert(stem == p + "-"@ + bare);
            if i < p.len() {
                assert(stem[i] == p[i]);
            } else if i > p.len() {
                assert(stem[i] == bare[i - p.len() - 1]);
            }
        } else {
            assert(stem[i] == bare[i]);
        }
    }
    let full = full_name(ident, stem, extension, hex);
    assert forall|i: int| 0 <= i < full.len() implies '\0' <= #[trigger] full[i] <= '\u{7f}' by {
        if i < stem.len() {
            assert(full[i] == stem[i]);
        } else if i > stem.len() {
            assert(full[i] == hex[i - stem.len() - 1]);
        }
    }
    lemma_ascii_can_split(full);
    lemma_has_output_name(ident, relative, prefix, extension, hex);
}

/// The split of a name with a hash lies in front of the hash.
proof fn lemma_split_before_hash(stem: Seq<char>, hex: Seq<char>)
    requires
        is_hex(hex),
        can_split(encode_utf8(hashed(stem, hex))),
    ensures
        split_position(encode_utf8(hashed(stem, hex))) <= encode_utf8(stem + "_"@).len(),
{
    let before = encode_utf8(stem + "_"@);
    let digits = encode_utf8(hex.take(FIELD_HASH_DIGITS as int));
    let full = encode_utf8(hashed(stem, hex));
    lemma_encode_concat(stem + "_"@, hex.take(FIELD_HASH_DIGITS as int));
    lemma_digit_bytes(hex, FIELD_HASH_DIGITS as int);
    lemma_package_start_before_hash(stem, hex);
    lemma_package_start_in_range(before);
    if full.len() - package_start(full) > MAX_FILENAME {
        let cut = full.len() - MAX_FILENAME;
        let rest = full.skip(cut);
        lemma_first_occurrence(rest, seq![0x5fu8], 0);
        if let Some(j) = first_occurrence(rest, seq![0x5fu8], 0) {
            assert(rest.subrange(j, j + 1)[0] == 0x5f);
            assert(full[cut + j] == 0x5f);
            if cut + j >= before.len() {
                assert(full[cut + j] == digits[cut + j - before.len()]);
            }
        }
    }
}

/// A text that is not empty has bytes.
proof fn lemma_encode_not_empty(s: Seq<char>)
    requires
        s.len() > 0,
    ensures
        encode_utf8(s).len() > 0,
{
}

/// However a name is shortened, it ends with the digits of the hash of the fields.
proof fn lemma_cut_name_ends_with_hash(
    ident: IdentView,
    stem: Seq<char>,
    extension: Seq<char>,
    field_hex: Seq<char>,
    cut_hex: Seq<char>,
)
    requires
        hash_fields(ident, extension).len() > 0,
        is_hex(field_hex),
        can_split(encode_utf8(hashed(stem, field_hex))),
    ensures
        has_suffix(
            cut_name(full_name(ident, stem, extension, field_hex), cut_hex),
            field_hex.take(FIELD_HASH_DIGITS as int),
        ),
{
    let digits = field_hex.take(FIELD_HASH_DIGITS as int);
    let full = hashed(stem, field_hex);
    let before = stem + "_"@;
    let at = split_position(encode_utf8(full));
    lemma_split_position(full);
    lemma_split_before_hash(stem, field_hex);
    assert(full.skip(full.len() - digits.len()) =~= digits);
    if at > 0 {
        lemma_cut(full, at);
        let start = prefix_to(full, at);
        let rest = suffix_from(full, at);
        if start.len() > before.len() {
            let more = start.skip(before.len() as int);
            assert(before =~= full.take(before.len() as int));
            assert(start =~= full.take(start.len() as int));
            assert(start =~= before + more);
            lemma_encode_concat(before, more);
            lemma_encode_not_empty(more);
        }
        let s = shortened(full, at, cut_hex);
        assert(rest =~= full.skip(start.len() as int));
        assert(s.skip(s.len() - digits.len()) =~= full.skip(full.len() - digits.len()));
    }
}

/// Where two assets with the same extension have the same output name, all that went into the
/// names is the same: whether the extension was there, the digits of the hashes, and what is
/// named in plain. Where one of them was cut and the other was not, what the one was cut to is the
/// other.
pub proof fn equal_output_names_have_equal_pieces(
    a: IdentView,
    relative_a: Option<Seq<char>>,
    prefix_a: Option<Seq<char>>,
    field_hex_a: Seq<char>,
    cut_hex_a: Seq<char>,
    b: IdentView,
    relative_b: Option<Seq<char>>,
    prefix_b: Option<Seq<char>>,
    field_hex_b: Seq<char>,
    cut_hex_b: Seq<char>,
    extension: Seq<char>,
)
    requires
        has_output_name(a, relative_a, prefix_a, extension),
        has_output_name(b, relative_b, prefix_b, extension),
        hashes_are_hex(a, relative_a, prefix_a, extension, field_hex_a, cut_hex_a),
        hashes_are_hex(b, relative_b, prefix_b, extension, field_hex_b, cut_hex_b),
        output_name_from(a, relative_a, prefix_a, extension, field_hex_a, cut_hex_a)
            == output_name_from(b, relative_b, prefix_b, extension, field_hex_b, cut_hex_b),
    ensures
        has_extension(source_path(a, relative_a), extension) == has_extension(
            source_path(b, relative_b),
            extension,
        ),
        hash_fields(a, extension).len() > 0 && hash_fields(b, extension).len() > 0
            ==> field_hex_a.take(FIELD_HASH_DIGITS as int) == field_hex_b.take(
            FIELD_HASH_DIGITS as int,
        ),
        ({
            let stem_a = stem(source_path(a, relative_a), prefix_a, extension);
            let stem_b = stem(source_path(b, relative_b), prefix_b, extension);
            let full_a = full_name(a, stem_a, extension, field_hex_a);
            let full_b = full_name(b, stem_b, extension, field_hex_b);
            let at_a = split_position(encode_utf8(full_a));
            let at_b = split_position(encode_utf8(full_b));
            &&& cut_name(full_a, cut_hex_a) == cut_name(full_b, cut_hex_b)
            &&& at_a == 0 && at_b == 0 ==> full_a == full_b
            &&& at_a > 0 && at_b > 0 ==> {
                &&& cut_hex_a.take(CUT_HASH_DIGITS as int) == cut_hex_b.take(CUT_HASH_DIGITS as int)
                &&& suffix_from(full_a, at_a) == suffix_from(full_b, at_b)
            }
        }),
{
    reveal_strlit("_");
    let digits_a = field_hex_a.take(FIELD_HASH_DIGITS as int);
    let digits_b = field_hex_b.take(FIELD_HASH_DIGITS as int);
    let path_a = source_path(a, relative_a);
    let path_b = source_path(b, relative_b);
    let stem_a = stem(path_a, prefix_a, extension);
    let stem_b = stem(path_b, prefix_b, extension);
    let full_a = full_name(a, stem_a, extension, field_hex_a);
    let full_b = full_name(b, stem_b, extension, field_hex_b);
    let at_a = split_position(encode_utf8(full_a));
    let at_b = split_position(encode_utf8(full_b));
    let cut_a = cut_name(full_a, cut_hex_a);
    let cut_b = cut_name(full_b, cut_hex_b);
    let out = output_name_from(a, relative_a, prefix_a, extension, field_hex_a, cut_hex_a);
    added_extension_is_marked(a, relative_a, prefix_a, extension, field_hex_a, cut_hex_a);
    added_extension_is_marked(b, relative_b, prefix_b, extension, field_hex_b, cut_hex_b);
    assert(cut_a =~= out.take(cut_a.len() as int));
    assert(cut_b =~= out.take(cut_b.len() as int));
    assert(cut_a == cut_b);
    if hash_fields(a, extension).len() > 0 && hash_fields(b, extension).len() > 0 {
        lemma_has_output_name(a, relative_a, prefix_a, extension, field_hex_a);
        lemma_has_output_name(b, relative_b, prefix_b, extension, field_hex_b);
        lemma_cut_name_ends_with_hash(a, stem_a, extension, field_hex_a, cut_hex_a);
        lemma_cut_name_ends_with_hash(b, stem_b, extension, field_hex_b, cut_hex_b);
    }
    if at_a > 0 && at_b > 0 {
        let n = CUT_HASH_DIGITS as int;
        assert(cut_a.take(n) =~= cut_hex_a.take(n));
        assert(cut_b.take(n) =~= cut_hex_b.take(n));
        assert(cut_a.skip(n + 1) =~= suffix_from(full_a, at_a));
        assert(cut_b.skip(n + 1) =~= suffix_from(full_b, at_b));
    }
}

/// The output name of an asset depends on nothing but its path and the fields that go into its
/// hash.
pub proof fn output_name_depends_on_path_and_hash_fields(
    a: IdentView,
    b: IdentView,
    relative: Option<Seq<char>>,
    prefix: Option<Seq<char>>,
    extension: Seq<char>,
    field_hex: Seq<char>,
    cut_hex: Seq<char>,
)
    requires
        a.path == b.path,
        hash_fields(a, extension) == hash_fields(b, extension),
    ensures
        has_output_name(a, relative, prefix, extension) == has_output_name(
            b,
            relative,
            prefix,
            extension,
        ),
        output_name_from(a, relative, prefix, extension, field_hex, cut_hex) == output_name_from(
            b,
            relative,
            prefix,
            extension,
            field_hex,
            cut_hex,
        ),
{
}

/// The modifier that every asset with an extension has does not change the output name, wherever
/// and however often it stands in the list: an ident `b` that lists what `a` lists without that
/// modifier, and is `a` otherwise, has a name if `a` has one, and then the same. As both give the
/// same fields to their hash, the same hashes go into the names.
pub proof fn default_modifier_does_not_change_output_name(
    a: IdentView,
    b: IdentView,
    relative: Option<Seq<char>>,
    prefix: Option<Seq<char>>,
    extension: Seq<char>,
    default: Seq<char>,
    field_hex: Seq<char>,
    cut_hex: Seq<char>,
)
    requires
        default_modifier(extension) == Some(default),
        b == (IdentView { modifiers: b.modifiers, ..a }),
        listed_modifiers(b.modifiers) == listed_modifiers(a.modifiers).filter(
            |modifier: Seq<char>| modifier != default,
        ),
    ensures
        hash_fields(a, extension) == hash_fields(b, extension),
        has_output_name(a, relative, prefix, extension) == has_output_name(
            b,
            relative,
            prefix,
            extension,
        ),
        output_name_from(a, relative, prefix, extension, field_hex, cut_hex) == output_name_from(
            b,
            relative,
            prefix,
            extension,
            field_hex,
            cut_hex,
        ),
{
    default_modifier_is_not_hashed(a, b, extension, default);
    output_name_depends_on_path_and_hash_fields(
        a,
        b,
        relative,
        prefix,
        extension,
        field_hex,
        cut_hex,
    );
}

/// The modifier that every asset with an extension has does not change the output name when it is
/// added.
pub proof fn added_default_modifier_does_not_change_output_name(
    ident: IdentView,
    relative: Option<Seq<char>>,
    prefix: Option<Seq<char>>,
    extension: Seq<char>,
    default: Seq<char>,
    field_hex: Seq<char>,
    cut_hex: Seq<char>,
)
    requires
        default_modifier(extension) == Some(default),
    ensures
        ({
            let more = IdentView {
                modifiers: grown(ident.modifiers, seq![default], ", "@),
                ..ident
            };
            &&& has_output_name(more, relative, prefix, extension) == has_output_name(
                ident,
                relative,
                prefix,
                extension,
            )
            &&& output_name_from(more, relative, prefix, extension, field_hex, cut_hex)
                == output_name_from(ident, relative, prefix, extension, field_hex, cut_hex)
        }),
{
    let more = IdentView { modifiers: grown(ident.modifiers, seq![default], ", "@), ..ident };
    added_default_modifier_is_not_hashed(ident, extension, default);
    output_name_depends_on_path_and_hash_fields(
        more,
        ident,
        relative,
        prefix,
        extension,
        field_hex,
        cut_hex,
    );
}

/// Assets with the same path that give the same fields to their hash get the same output name, and
/// an asset gets the same one each time, as long as fields and bytes are hashed alike each time.
pub proof fn output_name_is_determined<
    F: Fn(&Vec<HashField>) -> String,
    B: Fn(&[u8]) -> String,
>(
    a: IdentView,
    name_a: Seq<char>,
    b: IdentView,
    name_b: Seq<char>,
    relative: Option<Seq<char>>,
    prefix: Option<Seq<char>>,
    extension: Seq<char>,
    hash_of_fields: F,
    hash_of_bytes: B,
)
    requires
        a.path == b.path,
        hash_fields(a, extension) == hash_fields(b, extension),
        hashes_fields_alike(hash_of_fields),
        hashes_bytes_alike(hash_of_bytes),
        is_output_name(a, relative, prefix, extension, hash_of_fields, hash_of_bytes, name_a),
        is_output_name(b, relative, prefix, extension, hash_of_fields, hash_of_bytes, name_b),
    ensures
        name_a == name_b,
{
}

/// Leaving the modifier that every asset with an extension has out of the list keeps the output
/// name that is computed for the asset, as long as fields and bytes are hashed alike each time.
pub proof fn computed_name_ignores_default_modifier<
    F: Fn(&Vec<HashField>) -> String,
    B: Fn(&[u8]) -> String,
>(
    a: IdentView,
    name_a: Seq<char>,
    b: IdentView,
    name_b: Seq<char>,
    relative: Option<Seq<char>>,
    prefix: Option<Seq<char>>,
    extension: Seq<char>,
    default: Seq<char>,
    hash_of_fields: F,
    hash_of_bytes: B,
)
    requires
        default_modifier(extension) == Some(default),
        b == (IdentView { modifiers: b.modifiers, ..a }),
        listed_modifiers(b.modifiers) == listed_modifiers(a.modifiers).filter(
            |modifier: Seq<char>| modifier != default,
        ),
        hashes_fields_alike(hash_of_fields),
        hashes_bytes_alike(hash_of_bytes),
        is_output_name(a, relative, prefix, extension, hash_of_fields, hash_of_bytes, name_a),
        is_output_name(b, relative, prefix, extension, hash_of_fields, hash_of_bytes, name_b),
    ensures
        name_a == name_b,
{
    default_modifier_is_not_hashed(a, b, extension, default);
    output_name_is_determined(
        a,
        name_a,
        b,
        name_b,
        relative,
        prefix,
        extension,
        hash_of_fields,
        hash_of_bytes,
    );
}

}
