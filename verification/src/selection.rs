//! Which properties a read at a prefix selects: the property stored exactly
//! at the prefix, and whether keys exist below it.

use vstd::prelude::*;

use crate::text::chars_of;
use crate::text::compare_chars;
use crate::text::relative_key;
use crate::text::strip_dotted_prefix;
use crate::text::TextOrder;
use crate::value::Property;

verus! {

/// The property stored exactly at a non-empty `prefix`: the first entry with
/// that name. An empty prefix selects no exact property.
pub fn exact_property<'a>(prefix: &str, entries: &Vec<(String, &'a Property)>) -> (found: Option<&'a Property>)
    ensures
        match found {
            Some(property) => prefix@.len() > 0 && exists|k: int|
                0 <= k < entries@.len() && #[trigger] entries@[k].0@ == prefix@ && entries@[k].1 == property
                    && forall|j: int| 0 <= j < k ==> #[trigger] entries@[j].0@ != prefix@,
            None => prefix@.len() == 0 || forall|k: int| 0 <= k < entries@.len() ==> #[trigger] entries@[k].0@ != prefix@,
        },
{
    if prefix.is_empty() {
        return None;
    }
    let wanted = chars_of(prefix);
    let mut i: usize = 0;
    while i < entries.len()
        invariant
            i <= entries@.len(),
            wanted@ == prefix@,
            prefix@.len() > 0,
            forall|j: int| 0 <= j < i ==> #[trigger] entries@[j].0@ != prefix@,
        decreases entries@.len() - i,
    {
        let name = chars_of(entries[i].0.as_str());
        match compare_chars(&name, &wanted) {
            TextOrder::Same => {
                let found = entries[i].1;
                assert(0 <= i < entries@.len() && entries@[i as int].0@ == prefix@ && entries@[i as int].1 == found
                    && forall|j: int| 0 <= j < i ==> #[trigger] entries@[j].0@ != prefix@);
                return Some(found);
            },
            _ => {
                assert(entries@[i as int].0@ != prefix@);
            },
        }
        i = i + 1;
    }
    None
}

/// Whether some entry lies strictly below a non-empty `prefix`.
pub fn has_nested_keys<'a>(prefix: &str, entries: &Vec<(String, &'a Property)>) -> (nested: bool)
    ensures
        nested == (prefix@.len() > 0 && exists|k: int|
            0 <= k < entries@.len() && #[trigger] relative_key(entries@[k].0@, prefix@) is Some),
{
    if prefix.is_empty() {
        return false;
    }
    let mut i: usize = 0;
    while i < entries.len()
        invariant
            i <= entries@.len(),
            prefix@.len() > 0,
            forall|j: int| 0 <= j < i ==> #[trigger] relative_key(entries@[j].0@, prefix@) is None,
        decreases entries@.len() - i,
    {
        match strip_dotted_prefix(entries[i].0.as_str(), prefix) {
            Some(_) => {
                return true;
            },
            None => {},
        }
        i = i + 1;
    }
    false
}

} // verus!
