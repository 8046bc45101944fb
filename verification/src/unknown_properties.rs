//! Fields of the input that a target did not consume are reported once
//! each, in text order, by absolute path.

use vstd::prelude::*;

use crate::error::ConfigError;
use crate::text::chars_of;
use crate::text::compare_chars;
use crate::text::lemma_text_lt_irreflexive;
use crate::text::lemma_text_lt_total;
use crate::text::lemma_text_lt_transitive;
use crate::text::text_lt;
use crate::text::TextOrder;
use crate::text::views;

verus! {

/// Texts strictly increase along the list: sorted, nothing twice.
pub open spec fn strictly_sorted(texts: Seq<Seq<char>>) -> bool {
    forall|a: int, b: int| 0 <= a < b < texts.len() ==> text_lt(#[trigger] texts[a], #[trigger] texts[b])
}

/// `text` occurs among `texts`.
pub open spec fn occurs(texts: Seq<Seq<char>>, text: Seq<char>) -> bool {
    exists|j: int| 0 <= j < texts.len() && texts[j] == text
}

/// Every text of `a` occurs in `b`.
pub open spec fn texts_within(a: Seq<Seq<char>>, b: Seq<Seq<char>>) -> bool {
    forall|k: int| 0 <= k < a.len() ==> #[trigger] occurs(b, a[k])
}

/// A path without its leading dots.
pub open spec fn trim_leading_dots(path: Seq<char>) -> Seq<char>
    decreases path.len(),
{
    if path.len() > 0 && path[0] == '.' {
        trim_leading_dots(path.drop_first())
    } else {
        path
    }
}

/// The absolute path of a field path reported below `root`.
pub open spec fn absolute_path(root: Seq<char>, path: Seq<char>) -> Seq<char> {
    let relative = trim_leading_dots(path);
    if root.len() == 0 {
        relative
    } else if relative.len() == 0 {
        root
    } else {
        root + seq!['.'] + relative
    }
}

/// Inserting a text at its place in a sorted list keeps it sorted and
/// accounts for the text.
proof fn lemma_insert_text(before: Seq<Seq<char>>, position: int, item: Seq<char>, taken: Seq<Seq<char>>)
    requires
        0 <= position <= before.len(),
        strictly_sorted(before),
        texts_within(before, taken),
        texts_within(taken, before),
        forall|k: int| 0 <= k < position ==> text_lt(#[trigger] before[k], item),
        position < before.len() ==> text_lt(item, before[position]),
    ensures
        strictly_sorted(before.insert(position, item)),
        texts_within(before.insert(position, item), taken.push(item)),
        texts_within(taken.push(item), before.insert(position, item)),
{
    let now = before.insert(position, item);
    let grown = taken.push(item);
    assert forall|a: int, b: int| 0 <= a < b < now.len() implies text_lt(#[trigger] now[a], #[trigger] now[b]) by {
        if b < position {
            assert(now[a] == before[a] && now[b] == before[b]);
        } else if b == position {
            assert(now[a] == before[a]);
        } else if a == position {
            assert(now[b] == before[b - 1]);
            if b - 1 > position {
                assert(text_lt(before[position], before[b - 1]));
                lemma_text_lt_transitive(item, before[position], before[b - 1]);
            }
        } else if a < position {
            assert(now[a] == before[a] && now[b] == before[b - 1]);
        } else {
            assert(now[a] == before[a - 1] && now[b] == before[b - 1]);
        }
    }
    assert forall|k: int| 0 <= k < now.len() implies #[trigger] occurs(grown, now[k]) by {
        if k < position {
            assert(now[k] == before[k]);
            assert(occurs(taken, before[k]));
            let j = choose|j: int| 0 <= j < taken.len() && taken[j] == before[k];
            assert(grown[j] == taken[j]);
        } else if k == position {
            assert(grown[taken.len() as int] == item);
        } else {
            assert(now[k] == before[k - 1]);
            assert(occurs(taken, before[k - 1]));
            let j = choose|j: int| 0 <= j < taken.len() && taken[j] == before[k - 1];
            assert(grown[j] == taken[j]);
        }
    }
    assert forall|j: int| 0 <= j < grown.len() implies #[trigger] occurs(now, grown[j]) by {
        if j < taken.len() {
            assert(grown[j] == taken[j]);
            assert(occurs(before, taken[j]));
            let k = choose|k: int| 0 <= k < before.len() && before[k] == taken[j];
            if k < position {
                assert(now[k] == before[k]);
            } else {
                assert(now[k + 1] == before[k]);
            }
        } else {
            assert(now[position] == item);
        }
    }
}

/// A text already in the list is accounted for.
proof fn lemma_present_text(before: Seq<Seq<char>>, position: int, item: Seq<char>, taken: Seq<Seq<char>>)
    requires
        0 <= position < before.len(),
        before[position] == item,
        texts_within(before, taken),
        texts_within(taken, before),
    ensures
        texts_within(before, taken.push(item)),
        texts_within(taken.push(item), before),
{
    let grown = taken.push(item);
    assert forall|k: int| 0 <= k < before.len() implies #[trigger] occurs(grown, before[k]) by {
        assert(occurs(taken, before[k]));
        let j = choose|j: int| 0 <= j < taken.len() && taken[j] == before[k];
        assert(grown[j] == taken[j]);
    }
    assert forall|j: int| 0 <= j < grown.len() implies #[trigger] occurs(before, grown[j]) by {
        if j < taken.len() {
            assert(grown[j] == taken[j]);
            assert(occurs(before, taken[j]));
        } else {
            assert(grown[j] == before[position]);
        }
    }
}

/// The texts of a list, once each, in text order.
pub fn sorted_distinct(items: &Vec<String>) -> (sorted: Vec<String>)
    ensures
        strictly_sorted(views(sorted@)),
        texts_within(views(sorted@), views(items@)),
        texts_within(views(items@), views(sorted@)),
{
    let mut sorted: Vec<String> = Vec::new();
    let mut i: usize = 0;
    while i < items.len()
        invariant
            i <= items@.len(),
            strictly_sorted(views(sorted@)),
            texts_within(views(sorted@), views(items@.take(i as int))),
            texts_within(views(items@.take(i as int)), views(sorted@)),
        decreases items@.len() - i,
    {
        let item = &items[i];
        let item_chars = chars_of(item.as_str());
        let mut position: usize = 0;
        let mut present = false;
        let mut searching = true;
        while searching && position < sorted.len()
            invariant
                position <= sorted@.len(),
                item_chars@ == item@,
                strictly_sorted(views(sorted@)),
                forall|k: int| 0 <= k < position ==> text_lt(#[trigger] sorted@[k]@, item@),
                present ==> !searching && position < sorted@.len() && sorted@[position as int]@ == item@,
                !searching && !present ==> position < sorted@.len() && text_lt(item@, sorted@[position as int]@),
            decreases sorted@.len() - position + if searching { 1int } else { 0int },
        {
            let current = chars_of(sorted[position].as_str());
            match compare_chars(&current, &item_chars) {
                TextOrder::Before => {
                    position = position + 1;
                },
                TextOrder::Same => {
                    present = true;
                    searching = false;
                },
                TextOrder::After => {
                    proof {
                        lemma_text_lt_total(sorted@[position as int]@, item@);
                    }
                    searching = false;
                },
            }
        }
        let ghost before = sorted@;
        let ghost taken = items@.take(i as int);
        proof {
            assert(items@.take(i + 1) == taken.push(items@[i as int]));
            assert(views(items@.take(i + 1)) =~= views(taken).push(item@));
        }
        if !present {
            sorted.insert(position, item.clone());
            proof {
                assert(views(sorted@) =~= views(before).insert(position as int, item@));
                assert forall|k: int| 0 <= k < position implies text_lt(#[trigger] views(before)[k], item@) by {
                    assert(views(before)[k] == before[k]@);
                }
                lemma_insert_text(views(before), position as int, item@, views(taken));
            }
        } else {
            proof {
                assert(views(before)[position as int] == item@);
                lemma_present_text(views(before), position as int, item@, views(taken));
            }
        }
        i = i + 1;
    }
    assert(items@.take(items@.len() as int) =~= items@);
    sorted
}

/// Removes the leading dots of a path.
pub fn trim_dots(path: &str) -> (trimmed: String)
    ensures
        trimmed@ == trim_leading_dots(path@),
{
    let chars = chars_of(path);
    let mut start: usize = 0;
    assert(path@.skip(0) =~= path@);
    while start < chars.len() && chars[start] == '.'
        invariant
            chars@ == path@,
            start <= chars@.len(),
            trim_leading_dots(path@) == trim_leading_dots(path@.skip(start as int)),
        decreases chars@.len() - start,
    {
        proof {
            assert(path@.skip(start as int)[0] == '.');
            assert(path@.skip(start as int).drop_first() =~= path@.skip(start + 1));
        }
        start = start + 1;
    }
    let trimmed = crate::text::string_from_chars(&chars, start, chars.len());
    proof {
        assert(trimmed@ =~= path@.skip(start as int));
    }
    trimmed
}

/// The absolute path of a field path reported below `root`.
pub fn absolute(root: &str, path: &str) -> (absolute: String)
    ensures
        absolute@ == absolute_path(root@, path@),
{
    let relative = trim_dots(path);
    if root.is_empty() {
        relative
    } else if relative.as_str().is_empty() {
        root.to_owned()
    } else {
        crate::path::child_key(root, relative.as_str())
    }
}

/// The error for fields a target did not consume: none when there are
/// none, otherwise their absolute paths, once each, in text order of the
/// reported paths.
pub fn unknown_properties(ignored: &Vec<String>, root_path: &str) -> (error: Option<ConfigError>)
    ensures
        ignored@.len() == 0 ==> error is None,
        ignored@.len() > 0 ==> exists|sorted: Seq<Seq<char>>| {
            &&& #[trigger] strictly_sorted(sorted)
            &&& texts_within(sorted, views(ignored@))
            &&& texts_within(views(ignored@), sorted)
            &&& error matches Some(ConfigError::UnknownProperties { paths }) && views(paths@) == sorted.map_values(
                |path: Seq<char>| absolute_path(root_path@, path),
            )
        },
{
    if ignored.len() == 0 {
        return None;
    }
    let sorted = sorted_distinct(ignored);
    let mut paths: Vec<String> = Vec::new();
    let mut i: usize = 0;
    while i < sorted.len()
        invariant
            i <= sorted@.len(),
            views(paths@) == views(sorted@).take(i as int).map_values(|path: Seq<char>| absolute_path(root_path@, path)),
        decreases sorted@.len() - i,
    {
        let path = absolute(root_path, sorted[i].as_str());
        let ghost before = paths@;
        paths.push(path);
        proof {
            let f = |path: Seq<char>| absolute_path(root_path@, path);
            assert(views(sorted@).take(i + 1) =~= views(sorted@).take(i as int).push(sorted@[i as int]@));
            assert(views(sorted@).take(i + 1).map_values(f) =~= views(sorted@).take(i as int).map_values(f).push(
                absolute_path(root_path@, sorted@[i as int]@),
            ));
            assert(views(paths@) =~= views(before).push(path@));
        }
        i = i + 1;
    }
    assert(views(sorted@).take(sorted@.len() as int) =~= views(sorted@));
    let error = ConfigError::UnknownProperties { paths };
    assert(strictly_sorted(views(sorted@)));
    Some(error)
}

} // verus!
