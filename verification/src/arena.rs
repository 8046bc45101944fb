//! The prepared arena as a tree: object children are sorted by key and
//! always point to later nodes, so following keys from a node is a walk down
//! the tree.

use vstd::prelude::*;

use crate::read_node::NodeId;
use crate::read_node::node_kind;
use crate::read_node::ReadNode;
use crate::text::chars_of;
use crate::text::compare_chars;
use crate::text::lemma_text_lt_irreflexive;
use crate::text::lemma_text_lt_total;
use crate::text::lemma_text_lt_transitive;
use crate::text::text_lt;
use crate::text::TextOrder;

verus! {

/// The children of an object node; other nodes have none.
pub open spec fn object_children(node: ReadNode) -> Seq<(String, NodeId)> {
    match node {
        ReadNode::Object(children) => children@,
        _ => seq![],
    }
}

/// Keys strictly increase along the children.
pub open spec fn sorted_keys(children: Seq<(String, NodeId)>) -> bool {
    forall|i: int, j: int|
        0 <= i < j < children.len() ==> text_lt(#[trigger] children[i].0@, #[trigger] children[j].0@)
}

/// Every object's keys are sorted and every child lies after its parent.
pub open spec fn arena_wf(nodes: Seq<ReadNode>) -> bool {
    &&& forall|p: int| 0 <= p < nodes.len() ==> sorted_keys(object_children(#[trigger] nodes[p]))
    &&& forall|p: int, k: int|
        0 <= p < nodes.len() && 0 <= k < object_children(nodes[p]).len() ==> p < (#[trigger] object_children(
            nodes[p],
        )[k]).1 < nodes.len()
}

/// The child reached through `key`, if any.
pub open spec fn lookup_child(children: Seq<(String, NodeId)>, key: Seq<char>) -> Option<NodeId>
    decreases children.len(),
{
    if children.len() == 0 {
        None
    } else if children[0].0@ == key {
        Some(children[0].1)
    } else {
        lookup_child(children.drop_first(), key)
    }
}

/// The node reached from `id` by following `path`, one key at a time.
pub open spec fn resolve(nodes: Seq<ReadNode>, id: int, path: Seq<Seq<char>>) -> Option<int>
    decreases path.len(),
{
    if path.len() == 0 {
        Some(id)
    } else if 0 <= id < nodes.len() {
        match lookup_child(object_children(nodes[id]), path[0]) {
            Some(child) => resolve(nodes, child as int, path.drop_first()),
            None => None,
        }
    } else {
        None
    }
}

/// Some child is stored under `key` with node `id`.
pub open spec fn has_child(children: Seq<(String, NodeId)>, key: Seq<char>, id: NodeId) -> bool {
    exists|j: int| 0 <= j < children.len() && #[trigger] children[j].0@ == key && children[j].1 == id
}

/// `new` grows `old`: no node disappears, objects stay objects and keep
/// their children, and any other node is either unchanged or became an
/// object, keeping its kind.
pub open spec fn arena_extends(old: Seq<ReadNode>, new: Seq<ReadNode>) -> bool {
    &&& old.len() <= new.len()
    &&& forall|p: int|
        0 <= p < old.len() ==> {
            &&& (#[trigger] old[p] is Object ==> new[p] is Object)
            &&& (old[p] !is Object ==> new[p] == old[p] || new[p] is Object)
            &&& node_kind(new[p]) == node_kind(old[p])
        }
    &&& forall|p: int, k: int|
        0 <= p < old.len() && 0 <= k < object_children(old[p]).len() ==> has_child(
            object_children(new[p]),
            (#[trigger] object_children(old[p])[k]).0@,
            object_children(old[p])[k].1,
        )
}

/// Growing is reflexive.
pub proof fn lemma_extends_refl(nodes: Seq<ReadNode>)
    ensures
        arena_extends(nodes, nodes),
{
    assert forall|p: int, k: int|
        0 <= p < nodes.len() && 0 <= k < object_children(nodes[p]).len() implies has_child(
        object_children(nodes[p]),
        (#[trigger] object_children(nodes[p])[k]).0@,
        object_children(nodes[p])[k].1,
    ) by {
        assert(object_children(nodes[p])[k].0@ == object_children(nodes[p])[k].0@);
    }
}

/// Growing is transitive.
pub proof fn lemma_extends_trans(a: Seq<ReadNode>, b: Seq<ReadNode>, c: Seq<ReadNode>)
    requires
        arena_extends(a, b),
        arena_extends(b, c),
    ensures
        arena_extends(a, c),
{
    assert forall|p: int, k: int|
        0 <= p < a.len() && 0 <= k < object_children(a[p]).len() implies has_child(
        object_children(c[p]),
        (#[trigger] object_children(a[p])[k]).0@,
        object_children(a[p])[k].1,
    ) by {
        let key = object_children(a[p])[k].0@;
        let id = object_children(a[p])[k].1;
        assert(has_child(object_children(b[p]), key, id));
        let j1 = choose|j: int|
            0 <= j < object_children(b[p]).len() && #[trigger] object_children(b[p])[j].0@ == key
                && object_children(b[p])[j].1 == id;
        assert(has_child(object_children(c[p]), object_children(b[p])[j1].0@, object_children(b[p])[j1].1));
    }
    assert forall|p: int| 0 <= p < a.len() implies {
        &&& (#[trigger] a[p] is Object ==> c[p] is Object)
        &&& (a[p] !is Object ==> c[p] == a[p] || c[p] is Object)
    } by {
        assert(b[p] == b[p]);
    }
}

/// With sorted keys, the child found through a key is the one stored
/// under it.
pub proof fn lemma_lookup_sorted(children: Seq<(String, NodeId)>, key: Seq<char>)
    requires
        sorted_keys(children),
    ensures
        lookup_child(children, key) is None <==> forall|k: int| 0 <= k < children.len() ==> #[trigger] children[k].0@ != key,
        forall|k: int| 0 <= k < children.len() && #[trigger] children[k].0@ == key ==> lookup_child(children, key) == Some(children[k].1),
    decreases children.len(),
{
    if children.len() > 0 {
        let rest = children.drop_first();
        assert(sorted_keys(rest)) by {
            assert forall|i: int, j: int| 0 <= i < j < rest.len() implies text_lt(#[trigger] rest[i].0@, #[trigger] rest[j].0@) by {
                assert(rest[i] == children[i + 1]);
                assert(rest[j] == children[j + 1]);
            }
        }
        lemma_lookup_sorted(rest, key);
        assert forall|k: int| 0 <= k < children.len() && #[trigger] children[k].0@ == key implies lookup_child(children, key) == Some(children[k].1) by {
            if k > 0 {
                assert(rest[k - 1] == children[k]);
                if children[0].0@ == key {
                    assert(text_lt(children[0].0@, children[k].0@));
                    lemma_text_lt_irreflexive(key);
                }
            }
        }
        if lookup_child(children, key) is None {
            assert forall|k: int| 0 <= k < children.len() implies #[trigger] children[k].0@ != key by {
                if k > 0 {
                    assert(rest[k - 1] == children[k]);
                }
            }
        }
        if forall|k: int| 0 <= k < children.len() ==> #[trigger] children[k].0@ != key {
            assert forall|k: int| 0 <= k < rest.len() implies #[trigger] rest[k].0@ != key by {
                assert(rest[k] == children[k + 1]);
            }
        }
    }
}

/// A key found by `lookup_child` is stored in the children.
pub proof fn lemma_lookup_entry(children: Seq<(String, NodeId)>, key: Seq<char>)
    ensures
        lookup_child(children, key) matches Some(id) ==> has_child(children, key, id),
    decreases children.len(),
{
    if children.len() > 0 && children[0].0@ != key {
        let rest = children.drop_first();
        lemma_lookup_entry(rest, key);
        if let Some(id) = lookup_child(rest, key) {
            let j = choose|j: int| 0 <= j < rest.len() && #[trigger] rest[j].0@ == key && rest[j].1 == id;
            assert(children[j + 1] == rest[j]);
        }
    } else if children.len() > 0 {
        assert(children[0].0@ == key);
    }
}

/// Paths that resolve keep resolving to the same node as the arena grows.
pub proof fn lemma_resolve_extends(old: Seq<ReadNode>, new: Seq<ReadNode>, id: int, path: Seq<Seq<char>>)
    requires
        arena_extends(old, new),
        arena_wf(new),
        resolve(old, id, path) is Some,
    ensures
        resolve(new, id, path) == resolve(old, id, path),
    decreases path.len(),
{
    if path.len() > 0 {
        let children = object_children(old[id]);
        lemma_lookup_entry(children, path[0]);
        let child = lookup_child(children, path[0]).unwrap();
        let k = choose|j: int| 0 <= j < children.len() && #[trigger] children[j].0@ == path[0] && children[j].1 == child;
        assert(old[id] is Object);
        assert(has_child(object_children(new[id]), children[k].0@, children[k].1));
        let new_children = object_children(new[id]);
        let j = choose|j: int| 0 <= j < new_children.len() && #[trigger] new_children[j].0@ == path[0] && new_children[j].1 == child;
        lemma_lookup_sorted(new_children, path[0]);
        lemma_resolve_extends(old, new, child as int, path.drop_first());
    }
}

/// Following one more key from a resolved node.
pub proof fn lemma_resolve_push(nodes: Seq<ReadNode>, id: int, path: Seq<Seq<char>>, key: Seq<char>)
    ensures
        resolve(nodes, id, path.push(key)) == match resolve(nodes, id, path) {
            Some(node) => if 0 <= node < nodes.len() {
                match lookup_child(object_children(nodes[node]), key) {
                    Some(child) => Some(child as int),
                    None => None,
                }
            } else {
                None
            },
            None => None,
        },
    decreases path.len(),
{
    if path.len() == 0 {
        let rest = path.push(key).drop_first();
        assert(rest =~= Seq::<Seq<char>>::empty());
        assert(path.push(key)[0] == key);
        if 0 <= id < nodes.len() {
            if let Some(child) = lookup_child(object_children(nodes[id]), key) {
                assert(resolve(nodes, child as int, rest) == Some(child as int));
            }
        }
    } else {
        assert(path.push(key)[0] == path[0]);
        assert(path.push(key).drop_first() =~= path.drop_first().push(key));
        if 0 <= id < nodes.len() {
            if let Some(child) = lookup_child(object_children(nodes[id]), path[0]) {
                lemma_resolve_push(nodes, child as int, path.drop_first(), key);
            }
        }
    }
}

/// Where a key lies among sorted children.
pub enum ChildSlot {
    /// The child at this position holds the key.
    Found(usize),
    /// No child holds the key; it belongs at this position.
    Vacant(usize),
}

/// Finds `key` among sorted children.
pub fn find_child(children: &Vec<(String, NodeId)>, key: &Vec<char>) -> (slot: ChildSlot)
    requires
        sorted_keys(children@),
    ensures
        match slot {
            ChildSlot::Found(i) => i < children@.len() && children@[i as int].0@ == key@,
            ChildSlot::Vacant(pos) => {
                &&& pos <= children@.len()
                &&& forall|k: int| 0 <= k < pos ==> text_lt(#[trigger] children@[k].0@, key@)
                &&& forall|k: int| pos <= k < children@.len() ==> text_lt(key@, #[trigger] children@[k].0@)
            },
        },
{
    let mut i: usize = 0;
    while i < children.len()
        invariant
            i <= children@.len(),
            sorted_keys(children@),
            forall|k: int| 0 <= k < i ==> text_lt(#[trigger] children@[k].0@, key@),
        decreases children@.len() - i,
    {
        let child_key = chars_of(children[i].0.as_str());
        match compare_chars(&child_key, key) {
            TextOrder::Same => return ChildSlot::Found(i),
            TextOrder::Before => {},
            TextOrder::After => {
                proof {
                    lemma_text_lt_total(child_key@, key@);
                    assert forall|k: int| i <= k < children@.len() implies text_lt(key@, #[trigger] children@[k].0@) by {
                        if k > i {
                            lemma_text_lt_transitive(key@, children@[i as int].0@, children@[k].0@);
                        }
                    }
                }
                return ChildSlot::Vacant(i);
            },
        }
        i = i + 1;
    }
    ChildSlot::Vacant(i)
}

/// Inserting a key at its vacant position keeps the keys sorted.
pub proof fn lemma_insert_sorted(children: Seq<(String, NodeId)>, pos: int, entry: (String, NodeId))
    requires
        sorted_keys(children),
        0 <= pos <= children.len(),
        forall|k: int| 0 <= k < pos ==> text_lt(#[trigger] children[k].0@, entry.0@),
        forall|k: int| pos <= k < children.len() ==> text_lt(entry.0@, #[trigger] children[k].0@),
    ensures
        sorted_keys(children.insert(pos, entry)),
{
    let result = children.insert(pos, entry);
    assert forall|i: int, j: int| 0 <= i < j < result.len() implies text_lt(#[trigger] result[i].0@, #[trigger] result[j].0@) by {
        if j < pos {
            assert(result[i] == children[i] && result[j] == children[j]);
        } else if j == pos {
            assert(result[i] == children[i]);
        } else if i < pos {
            assert(result[i] == children[i] && result[j] == children[j - 1]);
            lemma_text_lt_transitive(children[i].0@, entry.0@, children[j - 1].0@);
        } else if i == pos {
            assert(result[j] == children[j - 1]);
        } else {
            assert(result[i] == children[i - 1] && result[j] == children[j - 1]);
        }
    }
}

} // verus!
