//! Text as sequences of characters: searching, splitting, replacing and growing lists.
use vstd::prelude::*;
use vstd::utf8::encode_utf8;

verus! {

/// `String::push` of the standard library: appends one character at the end of the text and leaves
/// the rest of it as it was.
pub assume_specification[ String::push ](s: &mut String, c: char)
    ensures
        final(s)@ == old(s)@.push(c),
;

/// `pattern` stands in `s` at position `i`.
pub open spec fn occurs_at<T>(s: Seq<T>, pattern: Seq<T>, i: int) -> bool {
    &&& 0 <= i
    &&& i + pattern.len() <= s.len()
    &&& s.subrange(i, i + pattern.len()) == pattern
}

/// The least position from `from` on at which `pattern` stands in `s`.
pub open spec fn first_occurrence<T>(s: Seq<T>, pattern: Seq<T>, from: int) -> Option<int>
    decreases s.len() - from + 1,
{
    if from + pattern.len() > s.len() {
        None
    } else if occurs_at(s, pattern, from) {
        Some(from)
    } else {
        first_occurrence(s, pattern, from + 1)
    }
}

/// The greatest position below `below` at which `pattern` stands in `s`.
pub open spec fn last_occurrence<T>(s: Seq<T>, pattern: Seq<T>, below: int) -> Option<int>
    decreases below,
{
    if below <= 0 {
        None
    } else if occurs_at(s, pattern, below - 1) {
        Some(below - 1)
    } else {
        last_occurrence(s, pattern, below - 1)
    }
}

/// `first_occurrence` finds an occurrence exactly if there is one, and then the first.
pub proof fn lemma_first_occurrence<T>(s: Seq<T>, pattern: Seq<T>, from: int)
    requires
        0 <= from,
    ensures
        match first_occurrence(s, pattern, from) {
            Some(i) => from <= i && occurs_at(s, pattern, i) && forall|j: int|
                from <= j < i ==> !#[trigger] occurs_at(s, pattern, j),
            None => forall|j: int| from <= j ==> !#[trigger] occurs_at(s, pattern, j),
        },
    decreases s.len() - from + 1,
{
    if from + pattern.len() <= s.len() && !occurs_at(s, pattern, from) {
        lemma_first_occurrence(s, pattern, from + 1);
    }
}

/// The first occurrence is the only position with nothing before it.
pub proof fn lemma_first_occurrence_is<T>(s: Seq<T>, pattern: Seq<T>, from: int, at: int)
    requires
        0 <= from <= at,
        occurs_at(s, pattern, at),
        forall|j: int| from <= j < at ==> !#[trigger] occurs_at(s, pattern, j),
    ensures
        first_occurrence(s, pattern, from) == Some(at),
{
    lemma_first_occurrence(s, pattern, from);
}

/// `last_occurrence` finds an occurrence exactly if there is one, and then the last.
pub proof fn lemma_last_occurrence<T>(s: Seq<T>, pattern: Seq<T>, below: int)
    ensures
        match last_occurrence(s, pattern, below) {
            Some(i) => 0 <= i < below && occurs_at(s, pattern, i) && forall|j: int|
                i < j < below ==> !#[trigger] occurs_at(s, pattern, j),
            None => forall|j: int| j < below ==> !#[trigger] occurs_at(s, pattern, j),
        },
    decreases below,
{
    if 0 < below && !occurs_at(s, pattern, below - 1) {
        lemma_last_occurrence(s, pattern, below - 1);
    }
}

/// The pieces of `s` between the occurrences of `separator`, taken from the left without overlap.
pub open spec fn split(s: Seq<char>, separator: Seq<char>) -> Seq<Seq<char>>
    decreases s.len(),
{
    match first_occurrence(s, separator, 0) {
        Some(i) if separator.len() > 0 => {
            proof {
                lemma_first_occurrence(s, separator, 0);
            }
            seq![s.take(i)] + split(s.skip(i + separator.len()), separator)
        },
        _ => seq![s],
    }
}

/// `s` with every `from` replaced by the characters of `to`.
pub open spec fn replaced(s: Seq<char>, from: char, to: Seq<char>) -> Seq<char>
    decreases s.len(),
{
    if s.len() == 0 {
        s
    } else {
        replaced(s.drop_last(), from, to) + (if s.last() == from {
            to
        } else {
            seq![s.last()]
        })
    }
}

/// `s` with every character of which `which` holds replaced by `to`.
pub open spec fn masked(s: Seq<char>, which: spec_fn(char) -> bool, to: char) -> Seq<char> {
    s.map_values(
        |c: char|
            if which(c) {
                to
            } else {
                c
            },
    )
}

/// Replacing one character by one other is done position by position.
pub proof fn lemma_replaced_by_one(s: Seq<char>, from: char, to: char)
    ensures
        replaced(s, from, seq![to]) == masked(s, |c: char| c == from, to),
    decreases s.len(),
{
    if s.len() > 0 {
        lemma_replaced_by_one(s.drop_last(), from, to);
        assert(masked(s, |c: char| c == from, to) =~= masked(
            s.drop_last(),
            |c: char| c == from,
            to,
        ).push(
            if s.last() == from {
                to
            } else {
                s.last()
            },
        ));
    }
    assert(replaced(s, from, seq![to]) =~= masked(s, |c: char| c == from, to));
}

/// `suffix` stands at the end of `s`.
pub open spec fn has_suffix(s: Seq<char>, suffix: Seq<char>) -> bool {
    &&& suffix.len() <= s.len()
    &&& s.skip(s.len() - suffix.len()) == suffix
}

/// `text` grown by `items`, one after the other, with `separator` in front of each that does not
/// stand at the very beginning.
pub open spec fn grown(text: Seq<char>, items: Seq<Seq<char>>, separator: Seq<char>) -> Seq<char>
    decreases items.len(),
{
    if items.len() == 0 {
        text
    } else {
        let before = grown(text, items.drop_last(), separator);
        if before.len() == 0 {
            items.last()
        } else {
            before + separator + items.last()
        }
    }
}

/// Growing by two lists one after the other is growing by both at once.
pub proof fn lemma_grown_twice(
    text: Seq<char>,
    first: Seq<Seq<char>>,
    second: Seq<Seq<char>>,
    separator: Seq<char>,
)
    ensures
        grown(grown(text, first, separator), second, separator) == grown(
            text,
            first + second,
            separator,
        ),
    decreases second.len(),
{
    if second.len() == 0 {
        assert(first + second =~= first);
    } else {
        assert((first + second).drop_last() =~= first + second.drop_last());
        lemma_grown_twice(text, first, second.drop_last(), separator);
    }
}

/// Growing by one item puts it behind the text, or in its place where there is none.
pub proof fn lemma_grown_by_one(text: Seq<char>, item: Seq<char>, separator: Seq<char>)
    ensures
        grown(text, seq![item], separator) == (if text.len() == 0 {
            item
        } else {
            text + separator + item
        }),
{
    assert(seq![item].drop_last() =~= Seq::<Seq<char>>::empty());
    reveal_with_fuel(grown, 2);
}

/// The characters of each text of a list.
pub open spec fn views(texts: Seq<String>) -> Seq<Seq<char>> {
    texts.map_values(|t: String| t@)
}

/// Texts with the same bytes are the same.
pub proof fn lemma_same_bytes(a: Seq<char>, b: Seq<char>)
    requires
        encode_utf8(a) == encode_utf8(b),
    ensures
        a == b,
{
    vstd::utf8::encode_utf8_decode_utf8(a);
    vstd::utf8::encode_utf8_decode_utf8(b);
}

/// Whether two texts are the same.
pub(crate) fn same_text(a: &str, b: &str) -> (same: bool)
    ensures
        same == (a@ == b@),
{
    let x = a.as_bytes();
    let y = b.as_bytes();
    if x.len() != y.len() {
        return false;
    }
    let mut i: usize = 0;
    while i < x.len()
        invariant
            x@ == encode_utf8(a@),
            y@ == encode_utf8(b@),
            x@.len() == y@.len(),
            i <= x@.len(),
            forall|k: int| 0 <= k < i ==> x@[k] == y@[k],
        decreases x@.len() - i,
    {
        if x[i] != y[i] {
            return false;
        }
        i += 1;
    }
    proof {
        assert(x@ =~= y@);
        lemma_same_bytes(a@, b@);
    }
    true
}

/// The characters of a text.
pub(crate) fn to_chars(s: &str) -> (chars: Vec<char>)
    ensures
        chars@ == s@,
{
    let mut chars: Vec<char> = Vec::new();
    for c in it: s.chars()
        invariant
            it.seq() == s@,
            chars@ == s@.take(it.index() as int),
    {
        chars.push(c);
    }
    chars
}

/// The text made of the characters from `from` up to, and without, `to`.
pub(crate) fn to_text(chars: &Vec<char>, from: usize, to: usize) -> (s: String)
    requires
        from <= to <= chars@.len(),
    ensures
        s@ == chars@.subrange(from as int, to as int),
{
    let mut s = String::new();
    let mut i: usize = from;
    while i < to
        invariant
            from <= i <= to <= chars@.len(),
            s@ == chars@.subrange(from as int, i as int),
        decreases to - i,
    {
        s.push(chars[i]);
        i += 1;
    }
    s
}

/// Whether `c` is one of the characters of `s`.
pub(crate) fn has_char(s: &str, c: char) -> (found: bool)
    ensures
        found == s@.contains(c),
{
    let chars = to_chars(s);
    let mut i: usize = 0;
    while i < chars.len()
        invariant
            chars@ == s@,
            i <= chars@.len(),
            forall|k: int| 0 <= k < i ==> chars@[k] != c,
        decreases chars@.len() - i,
    {
        if chars[i] == c {
            return true;
        }
        i += 1;
    }
    false
}

/// Replaces every `from` in `s` by `to`.
pub(crate) fn replace_char(s: &str, from: char, to: &str) -> (r: String)
    ensures
        r@ == replaced(s@, from, to@),
{
    let mut r = String::new();
    for c in it: s.chars()
        invariant
            it.seq() == s@,
            r@ == replaced(s@.take(it.index() as int), from, to@),
    {
        proof {
            assert(s@.take(it.index() + 1).drop_last() =~= s@.take(it.index() as int));
        }
        if c == from {
            r.append(to);
        } else {
            r.push(c);
            proof {
                let before = replaced(s@.take(it.index() as int), from, to@);
                assert(before.push(c) =~= before + seq![c]);
            }
        }
    }
    proof {
        assert(s@.take(s@.len() as int) =~= s@);
    }
    r
}

/// What is left of `s` in front of `suffix`, where `s` ends with it.
pub(crate) fn without_suffix(s: &str, suffix: &str) -> (r: Option<String>)
    ensures
        match r {
            Some(rest) => has_suffix(s@, suffix@) && rest@ == s@.take(s@.len() - suffix@.len()),
            None => !has_suffix(s@, suffix@),
        },
{
    let chars = to_chars(s);
    let tail = to_chars(suffix);
    if tail.len() > chars.len() {
        return None;
    }
    let cut: usize = chars.len() - tail.len();
    let mut i: usize = 0;
    while i < tail.len()
        invariant
            chars@ == s@,
            tail@ == suffix@,
            cut + tail@.len() == chars.len(),
            i <= tail@.len(),
            forall|k: int| 0 <= k < i ==> chars@[cut + k] == tail@[k],
        decreases tail@.len() - i,
    {
        if chars[cut + i] != tail[i] {
            proof {
                assert(s@.skip(cut as int)[i as int] != suffix@[i as int]);
            }
            return None;
        }
        i += 1;
    }
    proof {
        assert(s@.skip(cut as int) =~= suffix@);
        assert(s@.take(cut as int) =~= s@.subrange(0, cut as int));
    }
    Some(to_text(&chars, 0, cut))
}

/// Whether `pattern` stands in `s` at position `at`.
pub(crate) fn chars_at(s: &Vec<char>, pattern: &Vec<char>, at: usize) -> (r: bool)
    ensures
        r == occurs_at(s@, pattern@, at as int),
{
    if at > s.len() || pattern.len() > s.len() - at {
        return false;
    }
    let mut i: usize = 0;
    while i < pattern.len()
        invariant
            at + pattern@.len() <= s.len(),
            i <= pattern@.len(),
            forall|k: int| 0 <= k < i ==> s@[at + k] == pattern@[k],
        decreases pattern@.len() - i,
    {
        if s[at + i] != pattern[i] {
            proof {
                assert(s@.subrange(at as int, at + pattern@.len())[i as int] != pattern@[i as int]);
            }
            return false;
        }
        i += 1;
    }
    proof {
        assert(s@.subrange(at as int, at + pattern@.len()) =~= pattern@);
    }
    true
}

/// The pieces of `s` between the occurrences of `separator`.
pub(crate) fn split_text(s: &str, separator: &str) -> (pieces: Vec<String>)
    requires
        separator@.len() > 0,
    ensures
        views(pieces@) == split(s@, separator@),
{
    let chars = to_chars(s);
    let mark = to_chars(separator);
    let mut pieces: Vec<String> = Vec::new();
    let mut start: usize = 0;
    let mut i: usize = 0;
    proof {
        assert(s@.skip(0) =~= s@);
        assert(split(s@, separator@) =~= views(pieces@) + split(s@, separator@));
    }
    while i < chars.len()
        invariant
            chars@ == s@,
            mark@ == separator@,
            mark@.len() > 0,
            start <= i <= chars@.len(),
            forall|k: int| start <= k < i ==> !#[trigger] occurs_at(s@, separator@, k),
            split(s@, separator@) == views(pieces@) + split(s@.skip(start as int), separator@),
        decreases chars@.len() - i,
    {
        if chars_at(&chars, &mark, i) {
            let ghost rest = s@.skip(start as int);
            let ghost before = views(pieces@);
            let piece = to_text(&chars, start, i);
            pieces.push(piece);
            proof {
                lemma_occurrences_in_rest(s@, separator@, start as int);
                assert(occurs_at(rest, separator@, i - start));
                assert forall|k: int| 0 <= k < i - start implies !#[trigger] occurs_at(
                    rest,
                    separator@,
                    k,
                ) by {
                    assert(!occurs_at(s@, separator@, start + k));
                }
                lemma_first_occurrence_is(rest, separator@, 0, i - start);
                assert(rest.take(i - start) =~= piece@);
                assert(rest.skip(i - start + separator@.len()) =~= s@.skip(
                    i + separator@.len(),
                ));
                assert(views(pieces@) =~= before.push(piece@));
                assert(before + (seq![piece@] + split(
                    s@.skip(i + separator@.len()),
                    separator@,
                )) =~= views(pieces@) + split(s@.skip(i + separator@.len()), separator@));
            }
            i += mark.len();
            start = i;
        } else {
            i += 1;
        }
    }
    let ghost rest = s@.skip(start as int);
    let ghost before = views(pieces@);
    let piece = to_text(&chars, start, chars.len());
    pieces.push(piece);
    proof {
        lemma_occurrences_in_rest(s@, separator@, start as int);
        lemma_first_occurrence(rest, separator@, 0);
        if first_occurrence(rest, separator@, 0) is Some {
            let k = first_occurrence(rest, separator@, 0)->0;
            assert(occurs_at(s@, separator@, start + k));
        }
        assert(rest =~= piece@);
        assert(views(pieces@) =~= before + seq![rest]);
    }
    pieces
}

/// What stands behind the first `start` characters stands there `start` positions further on.
proof fn lemma_occurrences_in_rest(s: Seq<char>, pattern: Seq<char>, start: int)
    requires
        0 <= start <= s.len(),
    ensures
        forall|k: int|
            0 <= k ==> #[trigger] occurs_at(s.skip(start), pattern, k) == occurs_at(
                s,
                pattern,
                start + k,
            ),
{
    assert forall|k: int| 0 <= k implies #[trigger] occurs_at(s.skip(start), pattern, k)
        == occurs_at(s, pattern, start + k) by {
        if start + k + pattern.len() <= s.len() {
            assert(s.skip(start).subrange(k, k + pattern.len()) =~= s.subrange(
                start + k,
                start + k + pattern.len(),
            ));
        }
    }
}

}
