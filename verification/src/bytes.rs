//! The UTF-8 bytes of texts: their order, searches in them, and the places where they can be cut.
use vstd::prelude::*;
use vstd::utf8::{
    decode_utf8, encode_scalar, encode_utf8, is_char_boundary, length_of_first_scalar,
    pop_first_scalar, valid_utf8,
};
use crate::text::{last_occurrence, occurs_at};

verus! {

/// `a` comes before `b` in the lexicographic order of bytes.
pub open spec fn lex_less(a: Seq<u8>, b: Seq<u8>) -> bool
    decreases a.len(),
{
    if b.len() == 0 {
        false
    } else if a.len() == 0 {
        true
    } else if a[0] != b[0] {
        a[0] < b[0]
    } else {
        lex_less(a.drop_first(), b.drop_first())
    }
}

/// Nothing comes before itself.
pub proof fn lemma_lex_irreflexive(a: Seq<u8>)
    ensures
        !lex_less(a, a),
    decreases a.len(),
{
    if a.len() > 0 {
        lemma_lex_irreflexive(a.drop_first());
    }
}

/// What comes before something that comes before a third comes before the third.
pub proof fn lemma_lex_transitive(a: Seq<u8>, b: Seq<u8>, c: Seq<u8>)
    requires
        lex_less(a, b),
        lex_less(b, c),
    ensures
        lex_less(a, c),
    decreases a.len(),
{
    if a.len() > 0 && a[0] == b[0] && b[0] == c[0] {
        lemma_lex_transitive(a.drop_first(), b.drop_first(), c.drop_first());
    }
}

/// Of two different byte sequences one comes before the other.
pub proof fn lemma_lex_total(a: Seq<u8>, b: Seq<u8>)
    ensures
        a == b || lex_less(a, b) || lex_less(b, a),
    decreases a.len(),
{
    if a.len() > 0 && b.len() > 0 && a[0] == b[0] {
        lemma_lex_total(a.drop_first(), b.drop_first());
        if a.drop_first() == b.drop_first() {
            assert(a =~= seq![a[0]] + a.drop_first());
            assert(b =~= seq![b[0]] + b.drop_first());
        }
    } else if a.len() == 0 && b.len() == 0 {
        assert(a =~= b);
    }
}

/// Whether the text `a` comes before the text `b` by their bytes.
pub(crate) fn text_less(a: &str, b: &str) -> (less: bool)
    ensures
        less == lex_less(encode_utf8(a@), encode_utf8(b@)),
{
    let x = a.as_bytes();
    let y = b.as_bytes();
    let mut i: usize = 0;
    proof {
        assert(x@.skip(0) =~= x@);
        assert(y@.skip(0) =~= y@);
    }
    while i < x.len() && i < y.len()
        invariant
            x@ == encode_utf8(a@),
            y@ == encode_utf8(b@),
            i <= x@.len(),
            i <= y@.len(),
            lex_less(x@, y@) == lex_less(x@.skip(i as int), y@.skip(i as int)),
        decreases x@.len() - i,
    {
        if x[i] != y[i] {
            return x[i] < y[i];
        }
        proof {
            assert(x@.skip(i as int).drop_first() =~= x@.skip(i + 1));
            assert(y@.skip(i as int).drop_first() =~= y@.skip(i + 1));
        }
        i += 1;
    }
    i < y.len()
}

/// The bytes of two texts one after the other are those of the text made of both.
pub proof fn lemma_encode_concat(a: Seq<char>, b: Seq<char>)
    ensures
        encode_utf8(a + b) == encode_utf8(a) + encode_utf8(b),
    decreases a.len(),
{
    if a.len() == 0 {
        assert(a + b =~= b);
        assert(encode_utf8(a) + encode_utf8(b) =~= encode_utf8(b));
    } else {
        assert((a + b).drop_first() =~= a.drop_first() + b);
        lemma_encode_concat(a.drop_first(), b);
        assert(encode_scalar(a[0] as u32) + (encode_utf8(a.drop_first()) + encode_utf8(b))
            =~= encode_utf8(a) + encode_utf8(b));
    }
}

/// Behind an ASCII byte a text can be cut.
pub proof fn lemma_boundary_after_ascii(bytes: Seq<u8>, at: int)
    requires
        valid_utf8(bytes),
        0 <= at < bytes.len(),
        bytes[at] <= 0x7f,
    ensures
        is_char_boundary(bytes, at + 1),
    decreases bytes.len(),
{
    reveal_with_fuel(is_char_boundary, 2);
    if at > 0 {
        let rest = pop_first_scalar(bytes);
        let first = length_of_first_scalar(bytes);
        assert(first <= at);
        assert(rest[at - first] == bytes[at]);
        lemma_boundary_after_ascii(rest, at - first);
    }
}

/// A text cut at a boundary gives two texts, of which it is made.
pub proof fn lemma_cut(s: Seq<char>, at: int)
    requires
        is_char_boundary(encode_utf8(s), at),
    ensures
        0 <= at <= encode_utf8(s).len(),
        encode_utf8(suffix_from(s, at)) == encode_utf8(s).skip(at),
        s == prefix_to(s, at) + suffix_from(s, at),
        encode_utf8(prefix_to(s, at)) == encode_utf8(s).take(at),
{
    let bytes = encode_utf8(s);
    vstd::utf8::encode_utf8_valid_utf8(s);
    reveal_with_fuel(is_char_boundary, 2);
    vstd::utf8::valid_utf8_split(bytes, at);
    vstd::utf8::decode_utf8_split(bytes, at);
    vstd::utf8::encode_utf8_decode_utf8(s);
    lemma_boundary_in_range(bytes, at);
    assert(bytes.take(at) =~= bytes.subrange(0, at));
    assert(bytes.skip(at) =~= bytes.subrange(at, bytes.len() as int));
    vstd::utf8::decode_utf8_encode_utf8(bytes.take(at));
    vstd::utf8::decode_utf8_encode_utf8(bytes.skip(at));
}

/// A boundary lies within the bytes or at their end.
proof fn lemma_boundary_in_range(bytes: Seq<u8>, at: int)
    requires
        valid_utf8(bytes),
        is_char_boundary(bytes, at),
    ensures
        0 <= at <= bytes.len(),
    decreases bytes.len(),
{
}

/// The characters of `s` whose bytes stand in front of byte `at`.
pub open spec fn prefix_to(s: Seq<char>, at: int) -> Seq<char> {
    decode_utf8(encode_utf8(s).take(at))
}

/// The characters of `s` whose bytes stand from byte `at` on.
pub open spec fn suffix_from(s: Seq<char>, at: int) -> Seq<char> {
    decode_utf8(encode_utf8(s).skip(at))
}

/// Whether `pattern` stands in `s` at position `at`.
pub(crate) fn bytes_at(s: &[u8], pattern: &[u8], at: usize) -> (r: bool)
    ensures
        r == occurs_at(s@, pattern@, at as int),
{
    if at > s.len() || pattern.len() > s.len() - at {
        return false;
    }
    let mut i: usize = 0;
    while i < pattern.len()
        invariant
            at + pattern@.len() <= s.len(),
            i <= pattern@.len(),
            forall|k: int| 0 <= k < i ==> s@[at + k] == pattern@[k],
        decreases pattern@.len() - i,
    {
        if s[at + i] != pattern[i] {
            proof {
                assert(s@.subrange(at as int, at + pattern@.len())[i as int] != pattern@[i as int]);
            }
            return false;
        }
        i += 1;
    }
    proof {
        assert(s@.subrange(at as int, at + pattern@.len()) =~= pattern@);
    }
    true
}

/// The last position at which `pattern` stands in `s`.
pub(crate) fn find_last(s: &[u8], pattern: &[u8]) -> (found: Option<usize>)
    ensures
        match found {
            Some(i) => last_occurrence(s@, pattern@, s@.len() as int) == Some(i as int),
            None => last_occurrence(s@, pattern@, s@.len() as int) is None,
        },
{
    let mut below: usize = s.len();
    while 0 < below
        invariant
            below <= s@.len(),
            last_occurrence(s@, pattern@, s@.len() as int) == last_occurrence(
                s@,
                pattern@,
                below as int,
            ),
        decreases below,
    {
        if bytes_at(s, pattern, below - 1) {
            return Some(below - 1);
        }
        below -= 1;
    }
    None
}

}
