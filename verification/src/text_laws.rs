//! What searching, splitting, replacing and growing texts come to, piece by piece.
use vstd::prelude::*;
use crate::bytes::lex_less;
use crate::modifiers::{lemma_split_joined, listed_modifiers};
use crate::naming::{without_dots, without_separators};
use crate::text::{
    first_occurrence, grown, has_suffix, lemma_first_occurrence, replaced, split, views,
};

verus! {

/// Of two byte sequences the one comes first that ends where the other goes on, or that has the
/// smaller byte at the first place where they differ.
pub proof fn bytes_are_ordered_by_first_difference(a: Seq<u8>, b: Seq<u8>)
    ensures
        lex_less(a, b) <==> exists|k: int|
            {
                &&& 0 <= k <= a.len()
                &&& k < b.len()
                &&& #[trigger] a.take(k) == b.take(k)
                &&& k == a.len() || a[k] < b[k]
            },
    decreases a.len(),
{
    if a.len() > 0 && b.len() > 0 && a[0] == b[0] {
        let x = a.drop_first();
        let y = b.drop_first();
        bytes_are_ordered_by_first_difference(x, y);
        if lex_less(x, y) {
            let k = choose|k: int|
                {
                    &&& 0 <= k <= x.len()
                    &&& k < y.len()
                    &&& #[trigger] x.take(k) == y.take(k)
                    &&& k == x.len() || x[k] < y[k]
                };
            assert(a.take(k + 1) =~= seq![a[0]] + x.take(k));
            assert(b.take(k + 1) =~= seq![b[0]] + y.take(k));
            assert(k + 1 == a.len() || a[k + 1] < b[k + 1]);
        }
        if exists|k: int|
            {
                &&& 0 <= k <= a.len()
                &&& k < b.len()
                &&& #[trigger] a.take(k) == b.take(k)
                &&& k == a.len() || a[k] < b[k]
            } {
            let k = choose|k: int|
                {
                    &&& 0 <= k <= a.len()
                    &&& k < b.len()
                    &&& #[trigger] a.take(k) == b.take(k)
                    &&& k == a.len() || a[k] < b[k]
                };
            assert(k > 0);
            assert(x.take(k - 1) =~= a.take(k).drop_first());
            assert(y.take(k - 1) =~= b.take(k).drop_first());
            assert(k - 1 == x.len() || x[k - 1] < y[k - 1]);
        }
    } else {
        assert(a.take(0) =~= b.take(0));
        if exists|k: int|
            {
                &&& 0 <= k <= a.len()
                &&& k < b.len()
                &&& #[trigger] a.take(k) == b.take(k)
                &&& k == a.len() || a[k] < b[k]
            } {
            let k = choose|k: int|
                {
                    &&& 0 <= k <= a.len()
                    &&& k < b.len()
                    &&& #[trigger] a.take(k) == b.take(k)
                    &&& k == a.len() || a[k] < b[k]
                };
            if k > 0 {
                assert(a.take(k)[0] == a[0]);
                assert(b.take(k)[0] == b[0]);
            }
        }
    }
}

/// Each text of a list is taken as its characters, at its place.
pub proof fn texts_are_taken_one_by_one(texts: Seq<String>)
    ensures
        views(texts).len() == texts.len(),
        forall|i: int| 0 <= i < texts.len() ==> #[trigger] views(texts)[i] == texts[i]@,
{
}

/// A list grows item by item: each one stands, whole, behind what is there and a separator, or by
/// itself where nothing is there yet.
pub proof fn lists_grow_item_by_item(
    text: Seq<char>,
    items: Seq<Seq<char>>,
    item: Seq<char>,
    separator: Seq<char>,
)
    ensures
        grown(text, seq![], separator) == text,
        grown(text, items, separator).len() == 0 ==> grown(text, items.push(item), separator)
            == item,
        grown(text, items, separator).len() > 0 ==> grown(text, items.push(item), separator)
            == grown(text, items, separator) + separator + item,
{
    assert(items.push(item).drop_last() =~= items);
}

/// Replacing goes character by character: what stands for two texts one after the other is what
/// stands for each of them, the character itself is replaced, and no other is touched.
pub proof fn replacing_goes_character_by_character(
    a: Seq<char>,
    b: Seq<char>,
    c: char,
    from: char,
    to: Seq<char>,
)
    ensures
        replaced(seq![], from, to) == Seq::<char>::empty(),
        replaced(seq![from], from, to) == to,
        c != from ==> replaced(seq![c], from, to) == seq![c],
        replaced(a + b, from, to) == replaced(a, from, to) + replaced(b, from, to),
    decreases b.len(),
{
    reveal_with_fuel(replaced, 2);
    assert(seq![from].drop_last() =~= Seq::<char>::empty());
    assert(seq![c].drop_last() =~= Seq::<char>::empty());
    assert(Seq::<char>::empty() + to =~= to);
    assert(Seq::<char>::empty() + seq![c] =~= seq![c]);
    if b.len() == 0 {
        assert(a + b =~= a);
        assert(replaced(a, from, to) + replaced(b, from, to) =~= replaced(a, from, to));
    } else {
        replacing_goes_character_by_character(a, b.drop_last(), c, from, to);
        assert((a + b).drop_last() =~= a + b.drop_last());
        assert(replaced(a + b, from, to) =~= replaced(a, from, to) + replaced(b, from, to));
    }
}

/// Separators and dots become underscores where they stand, and nothing else changes.
pub proof fn separators_and_dots_become_underscores(s: Seq<char>)
    ensures
        without_separators(s).len() == s.len(),
        without_dots(s).len() == s.len(),
        forall|i: int|
            0 <= i < s.len() ==> {
                &&& (s[i] == '/' || s[i] == '#' || s[i] == '?') ==> #[trigger] without_separators(
                    s,
                )[i] == '_'
                &&& !(s[i] == '/' || s[i] == '#' || s[i] == '?') ==> without_separators(s)[i]
                    == s[i]
            },
        forall|i: int|
            0 <= i < s.len() ==> {
                &&& s[i] == '.' ==> #[trigger] without_dots(s)[i] == '_'
                &&& s[i] != '.' ==> without_dots(s)[i] == s[i]
            },
{
}

/// A text ends with another exactly if it is some text with that one behind it.
pub proof fn suffixes_stand_at_the_end(front: Seq<char>, s: Seq<char>, suffix: Seq<char>)
    ensures
        has_suffix(front + suffix, suffix),
        has_suffix(s, suffix) ==> suffix.len() <= s.len() && s == s.take(s.len() - suffix.len())
            + suffix,
{
    assert((front + suffix).skip((front + suffix).len() - suffix.len()) =~= suffix);
    if has_suffix(s, suffix) {
        let n = s.len() - suffix.len();
        assert(s =~= s.take(n) + s.skip(n));
    }
}

/// A text without a comma that a space follows is one piece.
pub proof fn lemma_one_piece(piece: Seq<char>)
    requires
        forall|i: int, j: int|
            #![trigger piece[i], piece[j]]
            0 <= i && j == i + 1 && j < piece.len() ==> !(piece[i] == ',' && piece[j] == ' '),
    ensures
        split(piece, ", "@) == seq![piece],
{
    reveal_strlit(", ");
    lemma_first_occurrence(piece, ", "@, 0);
    if let Some(i) = first_occurrence(piece, ", "@, 0) {
        assert(piece.subrange(i, i + 2)[0] == piece[i]);
        assert(piece.subrange(i, i + 2)[1] == piece[i + 1]);
    }
}

/// The modifiers of a list are what stands between its separators: nothing lists none, a text
/// without a separator lists itself, and what stands in front of a separator is listed in front of
/// what is listed behind it.
pub proof fn modifiers_stand_between_separators(piece: Seq<char>, rest: Seq<char>)
    requires
        forall|i: int, j: int|
            #![trigger piece[i], piece[j]]
            0 <= i && j == i + 1 && j < piece.len() ==> !(piece[i] == ',' && piece[j] == ' '),
    ensures
        listed_modifiers(seq![]) == Seq::<Seq<char>>::empty(),
        piece.len() > 0 ==> listed_modifiers(piece) == seq![piece],
        rest.len() == 0 ==> listed_modifiers(piece + ", "@ + rest) == seq![piece, rest],
        rest.len() > 0 ==> listed_modifiers(piece + ", "@ + rest) == seq![piece]
            + listed_modifiers(rest),
{
    reveal_strlit(", ");
    lemma_one_piece(piece);
    lemma_split_joined(piece, rest);
    if rest.len() == 0 {
        lemma_one_piece(rest);
        assert(seq![piece] + seq![rest] =~= seq![piece, rest]);
    }
}

}
