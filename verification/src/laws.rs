//! What holds of every tree built by insertions, and of every completion.

use vstd::prelude::*;
use crate::lemmas::{
    lemma_common_prefix_len_behind_label, lemma_edge_entries_push, lemma_insertion_point,
    lemma_matching_all,
};
use crate::model::{
    all_far, edge_entries, has_key, has_prefix, insertion_point, matching, prefixed, stored, Node,
};
use crate::prefix::common_prefix_len;
use crate::insertion::{
    inserted, lemma_edges_far, lemma_inserted, lemma_inserted_compressed, lemma_leaf_entries,
    lemma_siblings_far,
};

verus! {

/// No key occurs twice in `entries`.
pub open spec fn distinct_keys<T>(entries: Seq<(Seq<char>, T)>) -> bool {
    forall|i: int, j: int|
        0 <= i < j < entries.len() ==> (#[trigger] entries[i]).0 != (#[trigger] entries[j]).0
}

/// The node reached from `node` by taking, one after the other, the edges
/// whose numbers `path` lists; `None` where an edge does not exist.
pub open spec fn descend<T>(node: Node<T>, path: Seq<int>) -> Option<Node<T>>
    decreases path.len(),
{
    if path.len() == 0 {
        Some(node)
    } else if 0 <= path[0] < node.edges.len() {
        descend(node.edges[path[0]].1, path.drop_first())
    } else {
        None
    }
}

/// The tree that insertions build from the empty tree, one for each item
/// of `items` in order. An item with the empty key leaves the tree as it is.
pub open spec fn built<T>(items: Seq<(Seq<char>, T)>) -> Node<T>
    decreases items.len(),
{
    if items.len() == 0 {
        Node::empty()
    } else if items.last().0.len() == 0 {
        built(items.drop_last())
    } else {
        inserted(built(items.drop_last()), items.last().0, items.last().1)
    }
}

/// Keys that are distinct stay distinct behind a label.
proof fn lemma_distinct_prefixed<T>(label: Seq<char>, entries: Seq<(Seq<char>, T)>)
    requires
        distinct_keys(entries),
    ensures
        distinct_keys(prefixed(label, entries)),
{
    let outer = prefixed(label, entries);
    assert forall|i: int, j: int| 0 <= i < j < outer.len() implies (#[trigger] outer[i]).0 != (
    #[trigger] outer[j]).0 by {
        lemma_common_prefix_len_behind_label(label, entries[i].0, entries[j].0);
        assert(entries[i].0 != entries[j].0);
    }
}

/// Two runs of distinct keys are distinct together where the first run is
/// far from every key of the second.
proof fn lemma_distinct_add<T>(a: Seq<(Seq<char>, T)>, b: Seq<(Seq<char>, T)>)
    requires
        distinct_keys(a),
        distinct_keys(b),
        forall|j: int| 0 <= j < b.len() ==> all_far(a, (#[trigger] b[j]).0),
    ensures
        distinct_keys(a + b),
{
    let all = a + b;
    assert forall|i: int, j: int| 0 <= i < j < all.len() implies (#[trigger] all[i]).0 != (
    #[trigger] all[j]).0 by {
        if j < a.len() {
            assert(a[i].0 != a[j].0);
        } else if i >= a.len() {
            assert(b[i - a.len()].0 != b[j - a.len()].0);
        } else {
            assert(all_far(a, b[j - a.len()].0));
            assert(a[i].0 != b[j - a.len()].0);
        }
    }
}

/// The keys behind the first `k` edges of a sound node are distinct.
proof fn lemma_edge_keys_distinct<T>(node: Node<T>, k: int)
    requires
        node.sound(),
        0 <= k <= node.edges.len(),
    ensures
        distinct_keys(edge_entries(node.edges.take(k))),
    decreases node, k,
{
    if k > 0 {
        let front = node.edges.take(k - 1);
        let edge = node.edges[k - 1];
        let behind = prefixed(edge.0, edge.1.entries());
        assert(node.edges.take(k) =~= front.push(edge));
        lemma_edge_entries_push(front, edge);
        lemma_edge_keys_distinct(node, k - 1);
        lemma_keys_distinct(edge.1);
        lemma_distinct_prefixed(edge.0, edge.1.entries());
        assert forall|j: int| 0 <= j < behind.len() implies all_far(
            edge_entries(front),
            (#[trigger] behind[j]).0,
        ) by {
            let key = behind[j].0;
            if edge.0.len() > 0 {
                assert(key[0] == edge.0[0]);
            } else {
                lemma_leaf_entries(edge.1);
                assert(key =~= edge.0);
            }
            lemma_siblings_far(node, k - 1, key);
            lemma_edges_far(front, key);
        }
        lemma_distinct_add(edge_entries(front), behind);
    } else {
        assert(node.edges.take(0) =~= Seq::empty());
    }
}

/// A sound tree stores no key twice.
pub proof fn lemma_keys_distinct<T>(node: Node<T>)
    requires
        node.sound(),
    ensures
        distinct_keys(node.entries()),
    decreases node, node.edges.len() + 1,
{
    if node.payload is Some {
        lemma_leaf_entries(node);
    } else {
        lemma_edge_keys_distinct(node, node.edges.len() as int);
        assert(node.edges.take(node.edges.len() as int) =~= node.edges);
        assert(node.entries() =~= edge_entries(node.edges));
    }
}

/// Storing a key keeps the keys distinct, and puts the key with its
/// payload among the entries.
pub proof fn lemma_stored_distinct<T>(entries: Seq<(Seq<char>, T)>, key: Seq<char>, payload: T)
    requires
        distinct_keys(entries),
    ensures
        distinct_keys(stored(entries, key, payload)),
        stored(entries, key, payload).contains((key, payload)),
{
    let after = stored(entries, key, payload);
    if has_key(entries, key) {
        let at = choose|i: int| 0 <= i < entries.len() && (#[trigger] entries[i]).0 == key;
        assert(after[at] == (key, payload));
        assert forall|i: int, j: int| 0 <= i < j < after.len() implies (#[trigger] after[i]).0 != (
        #[trigger] after[j]).0 by {
            assert(after[i].0 == entries[i].0);
            assert(after[j].0 == entries[j].0);
        }
    } else {
        lemma_insertion_point(entries, key);
        let at = insertion_point(entries, key);
        assert(after[at] == (key, payload));
        assert forall|i: int, j: int| 0 <= i < j < after.len() implies (#[trigger] after[i]).0 != (
        #[trigger] after[j]).0 by {
            let a = if i < at {
                i
            } else {
                i - 1
            };
            let b = if j < at {
                j
            } else {
                j - 1
            };
            if i != at && j != at {
                assert(entries[a].0 != entries[b].0);
            } else if i == at {
                assert(entries[b].0 != key);
            } else {
                assert(entries[a].0 != key);
            }
        }
    }
}

/// The entries that match a query keep their keys distinct.
proof fn lemma_matching_distinct<T>(entries: Seq<(Seq<char>, T)>, query: Seq<char>)
    requires
        distinct_keys(entries),
    ensures
        distinct_keys(matching(entries, query)),
    decreases entries.len(),
{
    let found = matching(entries, query);
    if entries.len() == 0 {
        entries.lemma_filter_len(has_prefix(query));
    } else {
        let front = entries.drop_last();
        let e = entries.last();
        assert(entries =~= front.push(e));
        assert(distinct_keys(front)) by {
            assert forall|i: int, j: int| 0 <= i < j < front.len() implies (#[trigger] front[i]).0
                != (#[trigger] front[j]).0 by {
                assert(entries[i].0 != entries[j].0);
            }
        }
        lemma_matching_distinct(front, query);
        front.lemma_filter_push(e, has_prefix(query));
        let before = matching(front, query);
        if query.is_prefix_of(e.0) {
            assert forall|i: int, j: int| 0 <= i < j < found.len() implies (#[trigger] found[i]).0
                != (#[trigger] found[j]).0 by {
                if j < before.len() {
                    assert(before[i].0 != before[j].0);
                } else {
                    assert(before.contains(before[i]));
                    front.lemma_filter_contains_rev(has_prefix(query), before[i]);
                    let k = choose|k: int| 0 <= k < front.len() && front[k] == before[i];
                    assert(entries[k].0 != entries[entries.len() - 1].0);
                }
            }
        }
    }
}

/// After a key has been stored with a payload in a sound tree, the
/// completion of that key holds the key with that payload, and holds the
/// key once.
pub proof fn law_round_trip<T>(tree: Node<T>, key: Seq<char>, payload: T)
    requires
        tree.sound(),
        key.len() > 0,
    ensures
        ({
            let found = matching(stored(tree.entries(), key, payload), key);
            &&& found.contains((key, payload))
            &&& distinct_keys(found)
            &&& forall|i: int|
                0 <= i < found.len() && (#[trigger] found[i]).0 == key ==> found[i].1 == payload
        }),
{
    let after = stored(tree.entries(), key, payload);
    let found = matching(after, key);
    lemma_keys_distinct(tree);
    lemma_stored_distinct(tree.entries(), key, payload);
    lemma_matching_distinct(after, key);
    let at = choose|i: int| 0 <= i < after.len() && after[i] == (key, payload);
    assert(key.is_prefix_of(key)) by {
        assert(key =~= key.subrange(0, key.len() as int));
    }
    after.lemma_filter_contains(has_prefix(key), at);
    let here = choose|i: int| 0 <= i < found.len() && found[i] == (key, payload);
    assert forall|i: int| 0 <= i < found.len() && (#[trigger] found[i]).0 == key implies found[i].1
        == payload by {
        if i < here {
            assert(found[i].0 != found[here].0);
        } else if here < i {
            assert(found[here].0 != found[i].0);
        }
    }
}

/// Where `shorter` is a prefix of `longer`, every entry that the completion
/// of `longer` holds is held by the completion of `shorter` too.
pub proof fn law_prefix_monotonic<T>(
    entries: Seq<(Seq<char>, T)>,
    shorter: Seq<char>,
    longer: Seq<char>,
)
    requires
        shorter.is_prefix_of(longer),
    ensures
        forall|e: (Seq<char>, T)|
            matching(entries, longer).contains(e) ==> matching(entries, shorter).contains(e),
{
    assert forall|e: (Seq<char>, T)| matching(entries, longer).contains(e) implies matching(
        entries,
        shorter,
    ).contains(e) by {
        let found = matching(entries, longer);
        let i = choose|i: int| 0 <= i < found.len() && found[i] == e;
        entries.lemma_filter_pred(has_prefix(longer), i);
        entries.lemma_filter_contains_rev(has_prefix(longer), e);
        let k = choose|k: int| 0 <= k < entries.len() && entries[k] == e;
        assert(shorter.is_prefix_of(e.0)) by {
            assert(longer.is_prefix_of(e.0));
            assert(shorter =~= e.0.subrange(0, shorter.len() as int)) by {
                assert forall|n: int| 0 <= n < shorter.len() implies shorter[n] == e.0[n] by {
                    assert(shorter[n] == longer.subrange(0, shorter.len() as int)[n]);
                    assert(longer[n] == e.0.subrange(0, longer.len() as int)[n]);
                }
            }
        }
        entries.lemma_filter_contains(has_prefix(shorter), k);
    }
}

/// In a well-formed tree, at whatever node, two sibling edges have
/// different labels that share no non-empty prefix.
pub proof fn law_siblings_apart<T>(root: Node<T>, path: Seq<int>, i: int, j: int)
    requires
        root.wf(),
        descend(root, path) is Some,
        0 <= i < j < descend(root, path)->Some_0.edges.len(),
    ensures
        ({
            let node = descend(root, path)->Some_0;
            &&& node.wf()
            &&& node.edges[i].0 != node.edges[j].0
            &&& common_prefix_len(node.edges[i].0, node.edges[j].0) == 0
        }),
    decreases path.len(),
{
    if path.len() > 0 {
        let child = root.edges[path[0]].1;
        law_siblings_apart(child, path.drop_first(), i, j);
    }
}

/// After any sequence of insertions the tree is well formed: it is sound,
/// so that sibling labels are apart at every node, and it is compressed.
pub proof fn law_built_wf<T>(items: Seq<(Seq<char>, T)>)
    ensures
        built(items).wf(),
    decreases items.len(),
{
    if items.len() > 0 {
        let before = built(items.drop_last());
        law_built_wf(items.drop_last());
        if items.last().0.len() > 0 {
            lemma_inserted(before, items.last().0, items.last().1);
            lemma_inserted_compressed(before, items.last().0, items.last().1);
        }
    }
}

/// Storing a key neither drops nor changes nor adds an entry of another key.
pub proof fn law_stored_keeps_others<T>(
    entries: Seq<(Seq<char>, T)>,
    key: Seq<char>,
    payload: T,
    other: (Seq<char>, T),
)
    requires
        other.0 != key,
    ensures
        stored(entries, key, payload).contains(other) <==> entries.contains(other),
{
    let after = stored(entries, key, payload);
    if has_key(entries, key) {
        if entries.contains(other) {
            let i = choose|i: int| 0 <= i < entries.len() && entries[i] == other;
            assert(after[i] == other);
        }
        if after.contains(other) {
            let i = choose|i: int| 0 <= i < after.len() && after[i] == other;
            assert(entries[i] == other);
        }
    } else {
        lemma_insertion_point(entries, key);
        let at = insertion_point(entries, key);
        if entries.contains(other) {
            let i = choose|i: int| 0 <= i < entries.len() && entries[i] == other;
            if i < at {
                assert(after[i] == other);
            } else {
                assert(after[i + 1] == other);
            }
        }
        if after.contains(other) {
            let i = choose|i: int| 0 <= i < after.len() && after[i] == other;
            if i < at {
                assert(entries[i] == other);
            } else {
                assert(entries[i - 1] == other);
            }
        }
    }
}

/// No sequence of insertions stores the empty key.
pub proof fn law_empty_key_never_stored<T>(items: Seq<(Seq<char>, T)>)
    ensures
        !has_key(built(items).entries(), Seq::empty()),
    decreases items.len(),
{
    let none = Seq::<char>::empty();
    if items.len() == 0 {
        lemma_leaf_entries(built(items));
    } else {
        let before = built(items.drop_last());
        let key = items.last().0;
        law_empty_key_never_stored(items.drop_last());
        if key.len() > 0 {
            law_built_wf(items.drop_last());
            lemma_inserted(before, key, items.last().1);
            let after = built(items).entries();
            if has_key(after, none) {
                let i = choose|i: int| 0 <= i < after.len() && (#[trigger] after[i]).0 == none;
                assert(after.contains(after[i]));
                law_stored_keeps_others(before.entries(), key, items.last().1, after[i]);
                let k = choose|k: int|
                    0 <= k < before.entries().len() && before.entries()[k] == after[i];
                assert(before.entries()[k].0 == none);
            }
        }
    }
}

/// The completion of the empty prefix holds every entry of the tree.
pub proof fn law_complete_all<T>(tree: Node<T>)
    ensures
        matching(tree.entries(), Seq::empty()) == tree.entries(),
{
    lemma_matching_all(tree.entries());
}

/// The completion of a prefix that no stored key begins with is empty.
pub proof fn law_no_match<T>(entries: Seq<(Seq<char>, T)>, prefix: Seq<char>)
    requires
        forall|i: int| 0 <= i < entries.len() ==> !prefix.is_prefix_of((#[trigger] entries[i]).0),
    ensures
        matching(entries, prefix).len() == 0,
{
    let found = matching(entries, prefix);
    if found.len() > 0 {
        entries.lemma_filter_pred(has_prefix(prefix), 0);
        assert(found.contains(found[0]));
        entries.lemma_filter_contains_rev(has_prefix(prefix), found[0]);
        let k = choose|k: int| 0 <= k < entries.len() && entries[k] == found[0];
        assert(!prefix.is_prefix_of(entries[k].0));
    }
}

} // verus!
