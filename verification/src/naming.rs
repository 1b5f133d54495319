//! The steps by which the path of an asset becomes the name of its output file.
use vstd::prelude::*;
use vstd::utf8::{encode_utf8, is_ascii_chars, is_char_boundary};
use crate::bytes::{find_last, lemma_boundary_after_ascii, lemma_cut, suffix_from};
use crate::text::{
    first_occurrence, has_suffix, last_occurrence, lemma_first_occurrence, lemma_first_occurrence_is,
    lemma_last_occurrence, lemma_replaced_by_one, lemma_same_bytes, masked, occurs_at, replace_char,
    without_suffix,
};

verus! {

/// The most bytes of a name that are kept in plain.
pub const MAX_FILENAME: usize = 80;

/// How many bytes behind a cut an underscore may stand for the cut to move behind it.
pub const CUT_SLACK: usize = 20;

/// How many digits of the hash of the fields go into a name.
pub const FIELD_HASH_DIGITS: usize = 8;

/// How many digits of the hash of the cut-off beginning go into a name.
pub const CUT_HASH_DIGITS: usize = 5;

/// A pattern of the form `[...]` that lists ASCII characters which stand for themselves.
pub open spec fn is_plain_class(pattern: Seq<char>) -> bool {
    &&& pattern.len() >= 3
    &&& pattern[0] == '['
    &&& pattern.last() == ']'
    &&& forall|i: int| 0 < i < pattern.len() - 1 ==> is_plain_in_class(#[trigger] pattern[i])
}

/// An ASCII character without a meaning of its own between the brackets of a class.
pub open spec fn is_plain_in_class(c: char) -> bool {
    c <= '\u{7f}' && c != '[' && c != ']' && c != '\\' && c != '^' && c != '-' && c != '&' && c
        != '~'
}

/// `Regex::new` and `Regex::replace_all` of the crate `regex`. For a pattern that lists plain ASCII
/// characters in brackets, and a replacement of one character that is not the `$` of a reference
/// to a group, the pattern compiles, every character that it lists is replaced and every other
/// character stays where it is.
#[verifier::external_body]
fn regex_replace_all(pattern: &str, s: &str, replacement: &str) -> (r: String)
    requires
        is_plain_class(pattern@),
        replacement@.len() == 1,
        replacement@[0] != '$',
    ensures
        r@ == masked(
            s@,
            |c: char| pattern@.subrange(1, pattern@.len() - 1).contains(c),
            replacement@[0],
        ),
{
    regex::Regex::new(pattern).unwrap().replace_all(s, replacement).to_string()
}

/// The characters that separate the parts of a path or of a request.
pub open spec fn is_separator(c: char) -> bool {
    c == '/' || c == '#' || c == '?'
}

/// `s` with underscores in place of the separators.
pub open spec fn without_separators(s: Seq<char>) -> Seq<char> {
    masked(s, |c: char| is_separator(c), '_')
}

/// `s` with underscores in place of the dots.
pub open spec fn without_dots(s: Seq<char>) -> Seq<char> {
    masked(s, |c: char| c == '.', '_')
}

/// Replaces the separators `/`, `#` and `?` by underscores.
pub fn clean_separators(s: &str) -> (r: String)
    ensures
        r@ == without_separators(s@),
        r@.len() == s@.len(),
        forall|i: int|
            0 <= i < s@.len() ==> #[trigger] r@[i] == (if s@[i] == '/' || s@[i] == '#' || s@[i]
                == '?' {
                '_'
            } else {
                s@[i]
            }),
{
    proof {
        reveal_strlit("[/#?]");
        reveal_strlit("_");
        let listed = "[/#?]"@.subrange(1, 4);
        assert(listed =~= seq!['/', '#', '?']);
        assert forall|c: char| listed.contains(c) == is_separator(c) by {
            assert(listed[0] == '/' && listed[1] == '#' && listed[2] == '?');
        }
        assert(masked(s@, |c: char| listed.contains(c), '_') =~= without_separators(s@));
    }
    regex_replace_all("[/#?]", s, "_")
}

/// Replaces the dots by underscores.
pub fn clean_additional_extensions(s: &str) -> (r: String)
    ensures
        r@ == without_dots(s@),
        r@.len() == s@.len(),
        forall|i: int|
            0 <= i < s@.len() ==> #[trigger] r@[i] == (if s@[i] == '.' {
                '_'
            } else {
                s@[i]
            }),
{
    proof {
        reveal_strlit("_");
        assert("_"@ =~= seq!['_']);
        lemma_replaced_by_one(s@, '.', '_');
    }
    replace_char(s, '.', "_")
}

/// Whether the extension is already there, and so taken off before it is put on again.
pub open spec fn has_extension(path: Seq<char>, extension: Seq<char>) -> bool {
    has_suffix(without_separators(path), extension)
}

/// The name that a path gives: without separators, without the extension, without dots, and behind
/// the prefix.
pub open spec fn stem(path: Seq<char>, prefix: Option<Seq<char>>, extension: Seq<char>) -> Seq<
    char,
> {
    let flat = without_separators(path);
    let bare = if has_extension(path, extension) {
        flat.take(flat.len() - extension.len())
    } else {
        flat
    };
    match prefix {
        Some(p) => p + "-"@ + without_dots(bare),
        None => without_dots(bare),
    }
}

/// Makes the stem of a name out of a path. The second result tells whether the extension was there
/// and was taken off.
pub fn make_stem(path: &str, prefix: Option<&str>, extension: &str) -> (r: (String, bool))
    ensures
        r.0@ == stem(path@, text_of(prefix), extension@),
        r.1 == has_extension(path@, extension@),
{
    let flat = clean_separators(path);
    let (bare, removed): (String, bool) = match without_suffix(flat.as_str(), extension) {
        Some(rest) => (rest, true),
        None => (flat, false),
    };
    let clean = clean_additional_extensions(bare.as_str());
    match prefix {
        Some(p) => {
            let mut name = p.to_owned();
            name.append("-");
            name.append(clean.as_str());
            (name, removed)
        },
        None => (clean, removed),
    }
}

/// The characters of a text that may be missing.
pub open spec fn text_of(s: Option<&str>) -> Option<Seq<char>> {
    match s {
        Some(t) => Some(t@),
        None => None,
    }
}

/// A hexadecimal digit, of either case.
pub open spec fn is_hex_digit(c: char) -> bool {
    '0' <= c <= '9' || 'a' <= c <= 'f' || 'A' <= c <= 'F'
}

/// A hash written in hexadecimal, with at least the digits that go into a name.
pub open spec fn is_hex(s: Seq<char>) -> bool {
    &&& s.len() >= FIELD_HASH_DIGITS
    &&& forall|i: int| 0 <= i < s.len() ==> is_hex_digit(#[trigger] s[i])
}

/// A stem with the hash of the fields behind it.
pub open spec fn hashed(stem: Seq<char>, hex: Seq<char>) -> Seq<char> {
    stem + "_"@ + hex.take(FIELD_HASH_DIGITS as int)
}

/// Puts the hash of the fields behind a stem.
pub fn append_field_hash(stem: &str, hex: &str) -> (name: String)
    requires
        is_hex(hex@),
    ensures
        name@ == hashed(stem@, hex@),
        name@ == stem@ + "_"@ + hex@.take(8),
{
    let mut name = stem.to_owned();
    name.append("_");
    name.append(hex.substring_char(0, FIELD_HASH_DIGITS));
    proof {
        assert(hex@.subrange(0, FIELD_HASH_DIGITS as int) =~= hex@.take(FIELD_HASH_DIGITS as int));
    }
    name
}

/// The bytes behind which the part of a name within a package begins.
pub open spec fn node_modules() -> Seq<u8> {
    encode_utf8("_node_modules_"@)
}

/// Where the part of a name behind the last package directory begins: 0 if there is none.
pub open spec fn package_start(bytes: Seq<u8>) -> int {
    match last_occurrence(bytes, node_modules(), bytes.len() as int) {
        Some(i) => i + node_modules().len(),
        None => 0,
    }
}

/// The name does not have to be cut within a character.
pub open spec fn can_split(bytes: Seq<u8>) -> bool {
    bytes.len() - package_start(bytes) > MAX_FILENAME ==> is_char_boundary(
        bytes,
        bytes.len() - MAX_FILENAME,
    )
}

/// Where the named part of a name begins: everything in front of it is hashed.
///
/// That is behind the last package directory, unless more than `MAX_FILENAME` bytes would remain.
/// Then it is `MAX_FILENAME` bytes in front of the end, or behind the first underscore from there
/// on, if that is near enough.
pub open spec fn split_position(bytes: Seq<u8>) -> int {
    let start = package_start(bytes);
    if bytes.len() - start > MAX_FILENAME {
        let cut = bytes.len() - MAX_FILENAME;
        match first_occurrence(bytes.skip(cut), seq![0x5fu8], 0) {
            Some(j) if j < CUT_SLACK => cut + j + 1,
            _ => cut,
        }
    } else {
        start
    }
}

/// The bytes of `_node_modules_`.
pub proof fn lemma_node_modules()
    ensures
        node_modules().len() == 14,
        node_modules()[0] == 0x5f,
        node_modules()[13] == 0x5f,
{
    reveal_strlit("_node_modules_");
    let s = "_node_modules_"@;
    assert(s.len() == 14);
    assert(is_ascii_chars(s));
    vstd::utf8::is_ascii_chars_encode_utf8(s);
    assert(s[0] == '_' && s[13] == '_');
    assert('_' as u8 == 0x5f);
}

/// The part behind the last package directory begins within the name or at its end.
pub proof fn lemma_package_start_in_range(bytes: Seq<u8>)
    ensures
        0 <= package_start(bytes) <= bytes.len(),
{
    lemma_last_occurrence(bytes, node_modules(), bytes.len() as int);
}

/// The split lies within the name, keeps at most `MAX_FILENAME` bytes and does not cut a character.
pub proof fn lemma_split_position(name: Seq<char>)
    requires
        can_split(encode_utf8(name)),
    ensures
        0 <= split_position(encode_utf8(name)) <= encode_utf8(name).len(),
        encode_utf8(name).len() - split_position(encode_utf8(name)) <= MAX_FILENAME,
        is_char_boundary(encode_utf8(name), split_position(encode_utf8(name))),
{
    let bytes = encode_utf8(name);
    vstd::utf8::encode_utf8_valid_utf8(name);
    lemma_node_modules();
    lemma_last_occurrence(bytes, node_modules(), bytes.len() as int);
    let start = package_start(bytes);
    if bytes.len() - start > MAX_FILENAME {
        let cut = bytes.len() - MAX_FILENAME;
        let rest = bytes.skip(cut);
        lemma_first_occurrence(rest, seq![0x5fu8], 0);
        match first_occurrence(rest, seq![0x5fu8], 0) {
            Some(j) if j < CUT_SLACK => {
                assert(rest.subrange(j, j + 1)[0] == 0x5f);
                assert(bytes[cut + j] == 0x5f);
                lemma_boundary_after_ascii(bytes, cut + j);
            },
            _ => {},
        }
    } else if start > 0 {
        let i = start - 14;
        assert(bytes.subrange(i, i + 14)[13] == 0x5f);
        assert(bytes[start - 1] == 0x5f);
        lemma_boundary_after_ascii(bytes, start - 1);
    } else {
        vstd::utf8::is_char_boundary_start_end_of_seq(bytes);
    }
}

/// Finds where the named part of a name begins. There is no such place exactly if the name would
/// have to be cut within a character.
pub fn find_split(name: &str) -> (at: Option<usize>)
    ensures
        match at {
            Some(i) => can_split(encode_utf8(name@)) && i == split_position(encode_utf8(name@)),
            None => !can_split(encode_utf8(name@)),
        },
{
    let bytes = name.as_bytes();
    let mark = "_node_modules_".as_bytes();
    let len: usize = bytes.len();
    let start: usize = match find_last(bytes, mark) {
        Some(i) => {
            proof {
                lemma_last_occurrence(bytes@, mark@, bytes@.len() as int);
            }
            i + mark.len()
        },
        None => 0,
    };
    proof {
        lemma_last_occurrence(bytes@, mark@, bytes@.len() as int);
        assert(start <= len);
    }
    if len - start <= MAX_FILENAME {
        return Some(start);
    }
    let cut: usize = len - MAX_FILENAME;
    if !name.is_char_boundary(cut) {
        return None;
    }
    let ghost rest = bytes@.skip(cut as int);
    let mut j: usize = 0;
    while j < CUT_SLACK
        invariant
            bytes@ == encode_utf8(name@),
            len == bytes@.len(),
            cut == len - MAX_FILENAME,
            rest == bytes@.skip(cut as int),
            j <= CUT_SLACK,
            can_split(bytes@),
            len - package_start(bytes@) > MAX_FILENAME,
            forall|k: int| 0 <= k < j ==> !#[trigger] occurs_at(rest, seq![0x5fu8], k),
        decreases CUT_SLACK - j,
    {
        if bytes[cut + j] == 0x5f {
            proof {
                assert(rest.subrange(j as int, j + 1) =~= seq![0x5fu8]);
                assert(occurs_at(rest, seq![0x5fu8], j as int));
                lemma_first_occurrence_is(rest, seq![0x5fu8], 0, j as int);
            }
            return Some(cut + j + 1);
        }
        proof {
            if occurs_at(rest, seq![0x5fu8], j as int) {
                assert(rest.subrange(j as int, j + 1)[0] == 0x5f);
            }
        }
        j += 1;
    }
    proof {
        lemma_first_occurrence(rest, seq![0x5fu8], 0);
    }
    Some(cut)
}

/// A name whose first `at` bytes stand in it only by their hash.
pub open spec fn shortened(name: Seq<char>, at: int, hex: Seq<char>) -> Seq<char> {
    hex.take(CUT_HASH_DIGITS as int) + "_"@ + suffix_from(name, at)
}

/// Replaces the first `at` bytes of a name by their hash.
pub fn replace_beginning(name: &str, at: usize, hex: &str) -> (r: String)
    requires
        is_char_boundary(encode_utf8(name@), at as int),
        is_hex(hex@),
    ensures
        r@ == shortened(name@, at as int, hex@),
        exists|kept: Seq<char>|
            {
                &&& #[trigger] encode_utf8(kept) == encode_utf8(name@).skip(at as int)
                &&& r@ == hex@.take(5) + "_"@ + kept
            },
{
    let (_, rest) = name.split_at(at);
    let mut r = hex.substring_char(0, CUT_HASH_DIGITS).to_owned();
    r.append("_");
    r.append(rest);
    proof {
        lemma_cut(name@, at as int);
        assert(encode_utf8(name@).skip(at as int) =~= encode_utf8(name@).subrange(
            at as int,
            encode_utf8(name@).len() as int,
        ));
        lemma_same_bytes(rest@, suffix_from(name@, at as int));
        assert(hex@.subrange(0, CUT_HASH_DIGITS as int) =~= hex@.take(CUT_HASH_DIGITS as int));
    }
    r
}

/// A name with the extension behind it, and a mark in front of an extension that was not there.
pub open spec fn with_extension(name: Seq<char>, was_there: bool, extension: Seq<char>) -> Seq<
    char,
> {
    if was_there {
        name + extension
    } else {
        name + "._"@ + extension
    }
}

/// Puts the extension behind a name. One that was not there before is marked with `._`, so that
/// `.json` and `.json.js` do not end up with the same name.
pub fn append_extension(name: String, was_there: bool, extension: &str) -> (r: String)
    ensures
        r@ == with_extension(name@, was_there, extension@),
        was_there ==> r@ == name@ + extension@,
        !was_there ==> r@ == name@ + "._"@ + extension@,
{
    let mut r = name;
    if !was_there {
        r.append("._");
    }
    r.append(extension);
    r
}

}
