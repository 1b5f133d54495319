//! The list of modifiers that an ident holds as one text.
use vstd::prelude::*;
use crate::text::{
    first_occurrence, grown, lemma_first_occurrence, lemma_first_occurrence_is, lemma_grown_by_one,
    lemma_grown_twice, occurs_at, split,
};

verus! {

/// A modifier is not empty and holds no comma.
pub open spec fn is_modifier(modifier: Seq<char>) -> bool {
    modifier.len() > 0 && !modifier.contains(',')
}

/// The modifiers that a text lists.
pub open spec fn listed_modifiers(text: Seq<char>) -> Seq<Seq<char>> {
    if text.len() == 0 {
        seq![]
    } else {
        split(text, ", "@)
    }
}

/// All that the list holds are modifiers.
pub open spec fn are_modifiers(list: Seq<Seq<char>>) -> bool {
    forall|i: int| 0 <= i < list.len() ==> is_modifier(#[trigger] list[i])
}

/// What has grown out of a text is not empty unless all of it is.
proof fn lemma_grown_not_empty(text: Seq<char>, items: Seq<Seq<char>>, separator: Seq<char>)
    requires
        text.len() > 0 || (items.len() > 0 && items[0].len() > 0),
    ensures
        grown(text, items, separator).len() > 0,
    decreases items.len(),
{
    if items.len() > 0 && (text.len() > 0 || items.len() > 1) {
        assert(items.drop_last().len() > 0 ==> items.drop_last()[0] == items[0]);
        lemma_grown_not_empty(text, items.drop_last(), separator);
    }
}

/// Growing a text by a list puts the list, grown by itself, behind the text.
proof fn lemma_grown_behind(text: Seq<char>, items: Seq<Seq<char>>, separator: Seq<char>)
    requires
        text.len() > 0,
        items.len() > 0,
        items[0].len() > 0,
    ensures
        grown(text, items, separator) == text + separator + grown(seq![], items, separator),
    decreases items.len(),
{
    let shorter = items.drop_last();
    if items.len() == 1 {
        assert(items =~= seq![items[0]]);
        lemma_grown_by_one(text, items[0], separator);
        lemma_grown_by_one(seq![], items[0], separator);
    } else {
        assert(shorter[0] == items[0]);
        lemma_grown_behind(text, shorter, separator);
        lemma_grown_not_empty(text, shorter, separator);
        lemma_grown_not_empty(seq![], shorter, separator);
        assert(text + separator + grown(seq![], shorter, separator) + separator + items.last()
            =~= text + separator + (grown(seq![], shorter, separator) + separator + items.last()));
    }
}

/// A list that grows out of nothing starts with its first item.
proof fn lemma_grown_from_first(items: Seq<Seq<char>>, separator: Seq<char>)
    requires
        items.len() > 1,
        items[0].len() > 0,
        items[1].len() > 0,
    ensures
        grown(seq![], items, separator) == items[0] + separator + grown(
            seq![],
            items.skip(1),
            separator,
        ),
{
    assert(items =~= seq![items[0]] + items.skip(1));
    lemma_grown_by_one(seq![], items[0], separator);
    lemma_grown_twice(seq![], seq![items[0]], items.skip(1), separator);
    lemma_grown_behind(items[0], items.skip(1), separator);
}

/// What modifiers grow into is split into them again.
pub proof fn lemma_split_grown(list: Seq<Seq<char>>)
    requires
        list.len() > 0,
        are_modifiers(list),
    ensures
        split(grown(seq![], list, ", "@), ", "@) == list,
    decreases list.len(),
{
    reveal_strlit(", ");
    let separator = ", "@;
    let text = grown(seq![], list, separator);
    let first = list[0];
    assert(is_modifier(first));
    if list.len() == 1 {
        assert(list =~= seq![first]);
        lemma_grown_by_one(seq![], first, separator);
        lemma_first_occurrence(text, separator, 0);
        if let Some(i) = first_occurrence(text, separator, 0) {
            assert(text.subrange(i, i + 2)[0] == ',');
            assert(first[i] == ',');
        }
    } else {
        let rest = list.skip(1);
        assert(is_modifier(list[1]));
        assert forall|i: int| 0 <= i < rest.len() implies is_modifier(#[trigger] rest[i]) by {
            assert(rest[i] == list[i + 1]);
        }
        lemma_grown_from_first(list, separator);
        lemma_split_grown(rest);
        let n = first.len() as int;
        assert(text.subrange(n, n + 2) =~= separator);
        assert(occurs_at(text, separator, n));
        assert forall|k: int| 0 <= k < n implies !#[trigger] occurs_at(text, separator, k) by {
            if occurs_at(text, separator, k) {
                assert(text.subrange(k, k + 2)[0] == ',');
                assert(first[k] == ',');
            }
        }
        lemma_first_occurrence_is(text, separator, 0, n);
        assert(text.take(n) =~= first);
        assert(text.skip(n + 2) =~= grown(seq![], rest, separator));
        assert(seq![first] + rest =~= list);
    }
}

/// Two texts with a separator between them are split where each of them is and between them.
pub proof fn lemma_split_joined(text: Seq<char>, rest: Seq<char>)
    ensures
        split(text + ", "@ + rest, ", "@) == split(text, ", "@) + split(rest, ", "@),
    decreases text.len(),
{
    reveal_strlit(", ");
    let separator = ", "@;
    let joined = text + separator + rest;
    let n = text.len() as int;
    lemma_first_occurrence(text, separator, 0);
    let at = match first_occurrence(text, separator, 0) {
        Some(i) => i,
        None => n,
    };
    assert forall|k: int| 0 <= k < at implies !#[trigger] occurs_at(joined, separator, k) by {
        if occurs_at(joined, separator, k) {
            if k + 2 <= n {
                assert(text.subrange(k, k + 2) =~= joined.subrange(k, k + 2));
                assert(occurs_at(text, separator, k));
            } else {
                assert(joined.subrange(k, k + 2)[1] == ' ');
                assert(joined[n] == ',');
            }
        }
    }
    if at < n {
        let others = text.skip(at + 2);
        assert(joined.subrange(at, at + 2) =~= text.subrange(at, at + 2));
        lemma_first_occurrence_is(joined, separator, 0, at);
        assert(joined.take(at) =~= text.take(at));
        assert(joined.skip(at + 2) =~= others + separator + rest);
        lemma_split_joined(others, rest);
        assert(seq![text.take(at)] + (split(others, separator) + split(rest, separator)) =~= seq![
            text.take(at),
        ] + split(others, separator) + split(rest, separator));
    } else {
        assert(joined.subrange(n, n + 2) =~= separator);
        lemma_first_occurrence_is(joined, separator, 0, n);
        assert(joined.take(n) =~= text);
        assert(joined.skip(n + 2) =~= rest);
    }
}

/// The modifiers that are added to a list are listed behind those that were there.
pub proof fn lemma_added_modifiers(text: Seq<char>, added: Seq<Seq<char>>)
    requires
        are_modifiers(added),
    ensures
        listed_modifiers(grown(text, added, ", "@)) == listed_modifiers(text) + added,
{
    let separator = ", "@;
    if added.len() == 0 {
        assert(listed_modifiers(text) + added =~= listed_modifiers(text));
    } else {
        assert(is_modifier(added[0]));
        lemma_grown_not_empty(text, added, separator);
        lemma_split_grown(added);
        if text.len() == 0 {
            assert(text =~= seq![]);
            assert(listed_modifiers(text) + added =~= added);
        } else {
            lemma_grown_behind(text, added, separator);
            lemma_split_joined(text, grown(seq![], added, separator));
        }
    }
}

}
