//! Insertion on the model: the tree that an insertion leaves, the steps by
//! which it reshapes a node, and what each step does to the entries that
//! the node holds.

use vstd::prelude::*;
use crate::lemmas::{
    lemma_all_far_add, lemma_common_prefix_len_behind_label, lemma_edge_entries_around,
    lemma_edge_entries_push, lemma_prefixed_twice, lemma_replaced_between, lemma_stored_between,
    lemma_stored_far, lemma_stored_prefixed,
};
use crate::model::{
    all_far, apart, edge_entries, has_key, own_entries, prefixed, replaced, shared_at, stored, Node,
};
use crate::prefix::{common_prefix_len, lemma_common_prefix_len_splits};

verus! {

/// Whether the label of some edge shares a non-empty prefix with `key`.
pub open spec fn has_shared_edge<T>(edges: Seq<(Seq<char>, Node<T>)>, key: Seq<char>) -> bool {
    exists|i: int| 0 <= i < edges.len() && common_prefix_len((#[trigger] edges[i]).0, key) > 0
}

/// An edge whose label shares a non-empty prefix with `key`. Among apart
/// siblings there is at most one.
pub open spec fn shared_edge<T>(edges: Seq<(Seq<char>, Node<T>)>, key: Seq<char>) -> int {
    choose|i: int| 0 <= i < edges.len() && common_prefix_len((#[trigger] edges[i]).0, key) > 0
}

/// Whether some edge has the empty label, which marks a key that ends at the node.
pub open spec fn has_marker<T>(edges: Seq<(Seq<char>, Node<T>)>) -> bool {
    exists|i: int| 0 <= i < edges.len() && (#[trigger] edges[i]).0.len() == 0
}

/// An edge with the empty label. Among apart siblings there is at most one.
pub open spec fn marker<T>(edges: Seq<(Seq<char>, Node<T>)>) -> int {
    choose|i: int| 0 <= i < edges.len() && (#[trigger] edges[i]).0.len() == 0
}

/// `node` with `edge` in place of its edge `i`.
pub open spec fn with_edge<T>(node: Node<T>, i: int, edge: (Seq<char>, Node<T>)) -> Node<T> {
    Node { edges: node.edges.update(i, edge), payload: node.payload }
}

/// `node` with `edge` behind its other edges.
pub open spec fn with_new_edge<T>(node: Node<T>, edge: (Seq<char>, Node<T>)) -> Node<T> {
    Node { edges: node.edges.push(edge), payload: node.payload }
}

/// `node` with the label of edge `i` cut after `at` characters. The edge
/// keeps the first part and leads to a new node, from which one edge with
/// the second part leads to the old subtree.
pub open spec fn split<T>(node: Node<T>, i: int, at: int) -> Node<T> {
    with_edge(
        node,
        i,
        (
            node.edges[i].0.take(at),
            Node { edges: seq![(node.edges[i].0.skip(at), node.edges[i].1)], payload: None },
        ),
    )
}

/// `node` made ready for a first edge: a payload that it carries moves to
/// a leaf behind an edge with the empty label.
pub open spec fn demoted<T>(node: Node<T>) -> Node<T> {
    match node.payload {
        Some(payload) if node.edges.len() == 0 => Node {
            edges: seq![(Seq::empty(), Node::leaf(payload))],
            payload: None,
        },
        _ => node,
    }
}

/// `node` after the key that ends at it has been stored. A node without
/// edges takes the payload itself. Otherwise the leaf behind the edge with
/// the empty label takes it, and where there is no such edge, one is added.
pub open spec fn stored_here<T>(node: Node<T>, payload: T) -> Node<T> {
    if node.edges.len() == 0 {
        Node::leaf(payload)
    } else if has_marker(node.edges) {
        let i = marker(node.edges);
        with_edge(
            node,
            i,
            (node.edges[i].0, Node { edges: node.edges[i].1.edges, payload: Some(payload) }),
        )
    } else {
        with_new_edge(node, (Seq::empty(), Node::leaf(payload)))
    }
}

/// `node` after `key` has been stored below it with `payload`.
///
/// The empty key ends at the node. Another key goes down the edge whose
/// label shares a prefix with it: where only a part of the label is
/// shared, the edge is split after that part first. Then the rest of the
/// key is stored in the subtree behind the edge. Where no label shares a
/// prefix with the key, a new edge with the whole key leads to a leaf with
/// the payload, behind the other edges.
pub open spec fn inserted<T>(node: Node<T>, key: Seq<char>, payload: T) -> Node<T>
    decreases key.len(),
{
    if key.len() == 0 {
        stored_here(node, payload)
    } else if has_shared_edge(node.edges, key) {
        let i = shared_edge(node.edges, key);
        let n = common_prefix_len(node.edges[i].0, key);
        let cut = if n < node.edges[i].0.len() {
            split(node, i, n as int)
        } else {
            node
        };
        proof {
            lemma_common_prefix_len_splits(node.edges[i].0, key);
        }
        with_edge(cut, i, (cut.edges[i].0, inserted(cut.edges[i].1, key.skip(n as int), payload)))
    } else {
        with_new_edge(demoted(node), (key, Node::leaf(payload)))
    }
}

/// An edge none of whose keys is `key` or shares a first character with it.
pub open spec fn far_edge<T>(edge: (Seq<char>, Node<T>), key: Seq<char>) -> bool {
    &&& common_prefix_len(edge.0, key) == 0
    &&& edge.0.len() > 0 || (key.len() > 0 && edge.1.is_leaf())
}

/// A node without edges holds at most its own entry.
pub proof fn lemma_leaf_entries<T>(node: Node<T>)
    requires
        node.is_leaf(),
    ensures
        node.entries() == own_entries(node.payload),
{
    assert(node.edges =~= Seq::empty());
    assert(edge_entries(node.edges) == Seq::<(Seq<char>, T)>::empty());
    assert(own_entries(node.payload) + edge_entries(node.edges) =~= own_entries(node.payload));
}

/// A leaf with a payload holds the empty key with that payload, and nothing else.
pub proof fn lemma_leaf_with_payload<T>(payload: T)
    ensures
        Node::leaf(payload).sound(),
        !Node::leaf(payload).is_void(),
        Node::leaf(payload).entries() == seq![(Seq::<char>::empty(), payload)],
{
    lemma_leaf_entries(Node::leaf(payload));
}

/// What lies behind one edge alone.
pub proof fn lemma_edge_entries_single<T>(edge: (Seq<char>, Node<T>))
    ensures
        edge_entries(seq![edge]) == prefixed(edge.0, edge.1.entries()),
{
    let none = Seq::<(Seq<char>, Node<T>)>::empty();
    assert(seq![edge] =~= none.push(edge));
    lemma_edge_entries_push(none, edge);
    assert(edge_entries(none) + prefixed(edge.0, edge.1.entries()) =~= prefixed(
        edge.0,
        edge.1.entries(),
    ));
}

/// A sound node that is not void holds at least one entry.
pub proof fn lemma_entries_nonempty<T>(node: Node<T>)
    requires
        node.sound(),
        !node.is_void(),
    ensures
        node.entries().len() > 0,
    decreases node,
{
    if node.payload is None {
        let last = node.edges.last();
        assert(node.edges[node.edges.len() - 1] == last);
        lemma_entries_nonempty(last.1);
        assert(edge_entries(node.edges) == edge_entries(node.edges.drop_last()) + prefixed(
            last.0,
            last.1.entries(),
        ));
    }
}

/// Keys behind a label that shares no first character with `key` are far from `key`.
pub proof fn lemma_far_behind_label<T>(
    label: Seq<char>,
    entries: Seq<(Seq<char>, T)>,
    key: Seq<char>,
)
    requires
        label.len() > 0,
        common_prefix_len(label, key) == 0,
    ensures
        all_far(prefixed(label, entries), key),
{
    assert forall|i: int| 0 <= i < entries.len() implies (#[trigger] prefixed(
        label,
        entries,
    )[i]).0 != key && common_prefix_len(prefixed(label, entries)[i].0, key) == 0 by {
        let full = label + entries[i].0;
        assert(full[0] == label[0]);
    }
}

/// Every entry behind edges that are far from `key` is far from `key`.
pub proof fn lemma_edges_far<T>(edges: Seq<(Seq<char>, Node<T>)>, key: Seq<char>)
    requires
        forall|j: int| 0 <= j < edges.len() ==> far_edge(#[trigger] edges[j], key),
    ensures
        all_far(edge_entries(edges), key),
    decreases edges.len(),
{
    if edges.len() > 0 {
        let front = edges.drop_last();
        let last = edges.last();
        assert forall|j: int| 0 <= j < front.len() implies far_edge(#[trigger] front[j], key) by {
            assert(front[j] == edges[j]);
        }
        lemma_edges_far(front, key);
        assert(far_edge(edges[edges.len() - 1], key));
        if last.0.len() > 0 {
            lemma_far_behind_label(last.0, last.1.entries(), key);
        } else {
            lemma_leaf_entries(last.1);
            let behind = prefixed(last.0, last.1.entries());
            assert forall|i: int| 0 <= i < behind.len() implies (#[trigger] behind[i]).0 != key
                && common_prefix_len(behind[i].0, key) == 0 by {
                assert(behind[i].0 =~= Seq::<char>::empty());
            }
        }
        lemma_all_far_add(edge_entries(front), prefixed(last.0, last.1.entries()), key);
    }
}

/// In a sound node, every edge but `i` is far from a key that shares
/// a first character with the label of edge `i`, or that is that label.
pub proof fn lemma_siblings_far<T>(node: Node<T>, i: int, key: Seq<char>)
    requires
        node.sound(),
        0 <= i < node.edges.len(),
        common_prefix_len(node.edges[i].0, key) > 0 || node.edges[i].0 == key,
    ensures
        forall|j: int|
            0 <= j < node.edges.take(i).len() ==> far_edge(#[trigger] node.edges.take(i)[j], key),
        forall|j: int|
            0 <= j < node.edges.skip(i + 1).len() ==> far_edge(
                #[trigger] node.edges.skip(i + 1)[j],
                key,
            ),
{
    let label = node.edges[i].0;
    assert forall|j: int| 0 <= j < node.edges.len() && j != i implies far_edge(
        #[trigger] node.edges[j],
        key,
    ) by {
        let other = node.edges[j].0;
        if j < i {
            assert(apart(node.edges[j].0, node.edges[i].0));
        } else {
            assert(apart(node.edges[i].0, node.edges[j].0));
        }
        assert(common_prefix_len(other, label) == 0 && common_prefix_len(label, other) == 0);
        assert(other.len() == 0 ==> node.edges[j].1.is_leaf());
        if other.len() == 0 && label.len() == 0 {
            assert(other =~= label);
        }
        assert(common_prefix_len(other, key) == 0);
    }
    assert forall|j: int| 0 <= j < node.edges.take(i).len() implies far_edge(
        #[trigger] node.edges.take(i)[j],
        key,
    ) by {
        assert(node.edges.take(i)[j] == node.edges[j]);
    }
    assert forall|j: int| 0 <= j < node.edges.skip(i + 1).len() implies far_edge(
        #[trigger] node.edges.skip(i + 1)[j],
        key,
    ) by {
        assert(node.edges.skip(i + 1)[j] == node.edges[i + 1 + j]);
    }
}

/// The entries of a node in which edge `i` has been replaced.
pub proof fn lemma_entries_with_edge<T>(node: Node<T>, i: int, edge: (Seq<char>, Node<T>))
    requires
        0 <= i < node.edges.len(),
        node.payload is None,
    ensures
        node.entries() == edge_entries(node.edges.take(i)) + prefixed(
            node.edges[i].0,
            node.edges[i].1.entries(),
        ) + edge_entries(node.edges.skip(i + 1)),
        (Node { edges: node.edges.update(i, edge), payload: node.payload }).entries()
            == edge_entries(node.edges.take(i)) + prefixed(edge.0, edge.1.entries())
            + edge_entries(node.edges.skip(i + 1)),
{
    let changed = node.edges.update(i, edge);
    lemma_edge_entries_around(node.edges, i);
    lemma_edge_entries_around(changed, i);
    assert(changed.take(i) =~= node.edges.take(i));
    assert(changed.skip(i + 1) =~= node.edges.skip(i + 1));
    assert(own_entries(node.payload) + edge_entries(node.edges) =~= edge_entries(node.edges));
    assert(own_entries(node.payload) + edge_entries(changed) =~= edge_entries(changed));
}

/// Storing the empty key at a node without edges puts the payload on the node.
pub proof fn lemma_store_at_leaf<T>(node: Node<T>, payload: T)
    requires
        node.is_leaf(),
    ensures
        Node::leaf(payload).sound(),
        Node::leaf(payload).entries() == stored(node.entries(), Seq::empty(), payload),
{
    let key = Seq::<char>::empty();
    lemma_leaf_entries(node);
    lemma_leaf_with_payload(payload);
    match node.payload {
        Some(q) => {
            assert(node.entries()[0].0 == key);
            assert(has_key(node.entries(), key));
            assert(replaced(node.entries(), key, payload) =~= seq![(key, payload)]);
        },
        None => {
            lemma_stored_far(node.entries(), key, payload);
            assert(node.entries().push((key, payload)) =~= seq![(key, payload)]);
        },
    }
}

/// Storing the empty key at a node whose edge `i` has the empty label
/// replaces the payload of the leaf behind that edge.
pub proof fn lemma_store_at_marker<T>(node: Node<T>, i: int, payload: T)
    requires
        node.sound(),
        0 <= i < node.edges.len(),
        node.edges[i].0.len() == 0,
    ensures
        ({
            let after = Node {
                edges: node.edges.update(i, (node.edges[i].0, Node::leaf(payload))),
                payload: node.payload,
            };
            after.sound() && after.entries() == stored(node.entries(), Seq::empty(), payload)
        }),
{
    let key = Seq::<char>::empty();
    let label = node.edges[i].0;
    let edge = (label, Node::leaf(payload));
    let after = Node { edges: node.edges.update(i, edge), payload: node.payload };
    assert(label =~= key);
    lemma_leaf_with_payload(payload);
    lemma_entries_with_edge(node, i, edge);
    lemma_siblings_far(node, i, key);
    let a = edge_entries(node.edges.take(i));
    let c = edge_entries(node.edges.skip(i + 1));
    lemma_edges_far(node.edges.take(i), key);
    lemma_edges_far(node.edges.skip(i + 1), key);
    let child = node.edges[i].1;
    lemma_leaf_entries(child);
    let q = child.payload->Some_0;
    let b = prefixed(label, child.entries());
    assert(b =~= seq![(key, q)]) by {
        assert(label + Seq::<char>::empty() =~= key);
    }
    assert(prefixed(label, Node::leaf(payload).entries()) =~= seq![(key, payload)]) by {
        assert(label + Seq::<char>::empty() =~= key);
    }
    lemma_replaced_between(a, b, c, key, payload);
    assert(b[0].0 == key);
    assert(has_key(b, key));
    assert(replaced(b, key, payload) =~= seq![(key, payload)]);
    assert forall|j: int| 0 <= j < after.edges.len() implies {
        &&& (#[trigger] after.edges[j]).1.sound()
        &&& !after.edges[j].1.is_void()
        &&& after.edges[j].0.len() == 0 ==> after.edges[j].1.is_leaf()
    } by {
        if j != i {
            assert(after.edges[j] == node.edges[j]);
        }
    }
    assert forall|j: int, k: int| 0 <= j < k < after.edges.len() implies apart(
        (#[trigger] after.edges[j]).0,
        (#[trigger] after.edges[k]).0,
    ) by {
        assert(apart(node.edges[j].0, node.edges[k].0));
    }
}

/// Storing the empty key at a node whose edges all have a label adds an
/// edge with the empty label behind them, to a leaf with the payload.
pub proof fn lemma_store_new_marker<T>(node: Node<T>, payload: T)
    requires
        node.sound(),
        node.edges.len() > 0,
        forall|j: int| 0 <= j < node.edges.len() ==> (#[trigger] node.edges[j]).0.len() > 0,
    ensures
        ({
            let after = Node {
                edges: node.edges.push((Seq::empty(), Node::leaf(payload))),
                payload: node.payload,
            };
            after.sound() && after.entries() == stored(node.entries(), Seq::empty(), payload)
        }),
{
    let key = Seq::<char>::empty();
    let edge = (key, Node::leaf(payload));
    let after = Node { edges: node.edges.push(edge), payload: node.payload };
    lemma_leaf_with_payload(payload);
    lemma_edge_entries_push(node.edges, edge);
    assert forall|j: int| 0 <= j < node.edges.len() implies far_edge(
        #[trigger] node.edges[j],
        key,
    ) by {}
    lemma_edges_far(node.edges, key);
    assert(node.entries() =~= edge_entries(node.edges));
    lemma_stored_far(node.entries(), key, payload);
    assert(prefixed(key, Node::leaf(payload).entries()) =~= seq![(key, payload)]) by {
        assert(key + Seq::<char>::empty() =~= key);
    }
    assert(after.entries() =~= node.entries().push((key, payload)));
    assert forall|j: int| 0 <= j < after.edges.len() implies {
        &&& (#[trigger] after.edges[j]).1.sound()
        &&& !after.edges[j].1.is_void()
        &&& after.edges[j].0.len() == 0 ==> after.edges[j].1.is_leaf()
    } by {
        if j < node.edges.len() {
            assert(after.edges[j] == node.edges[j]);
        }
    }
    assert forall|j: int, k: int| 0 <= j < k < after.edges.len() implies apart(
        (#[trigger] after.edges[j]).0,
        (#[trigger] after.edges[k]).0,
    ) by {
        if k < node.edges.len() {
            assert(apart(node.edges[j].0, node.edges[k].0));
        } else {
            assert(node.edges[j].0.len() > 0);
        }
    }
}

/// Storing a key that starts with the label of edge `i` stores the rest of
/// the key in the subtree behind that edge.
pub proof fn lemma_store_below<T>(
    node: Node<T>,
    i: int,
    key: Seq<char>,
    payload: T,
    child: Node<T>,
)
    requires
        node.sound(),
        0 <= i < node.edges.len(),
        node.edges[i].0.len() > 0,
        node.edges[i].0.is_prefix_of(key),
        child.sound(),
        !child.is_void(),
        child.entries() == stored(
            node.edges[i].1.entries(),
            key.skip(node.edges[i].0.len() as int),
            payload,
        ),
    ensures
        ({
            let after = Node {
                edges: node.edges.update(i, (node.edges[i].0, child)),
                payload: node.payload,
            };
            after.sound() && after.entries() == stored(node.entries(), key, payload)
        }),
{
    let label = node.edges[i].0;
    let rest = key.skip(label.len() as int);
    let edge = (label, child);
    let after = Node { edges: node.edges.update(i, edge), payload: node.payload };
    let below = node.edges[i].1.entries();
    assert(key =~= label + rest);
    assert(common_prefix_len(label, key) > 0) by {
        assert(label[0] == key.subrange(0, label.len() as int)[0]);
    }
    lemma_entries_with_edge(node, i, edge);
    lemma_siblings_far(node, i, key);
    let a = edge_entries(node.edges.take(i));
    let c = edge_entries(node.edges.skip(i + 1));
    lemma_edges_far(node.edges.take(i), key);
    lemma_edges_far(node.edges.skip(i + 1), key);
    let b = prefixed(label, below);
    lemma_entries_nonempty(node.edges[i].1);
    assert forall|j: int| 0 <= j < b.len() implies #[trigger] shared_at(b, j, key) > 0 by {
        lemma_common_prefix_len_behind_label(label, below[j].0, rest);
    }
    lemma_stored_between(a, b, c, key, payload);
    lemma_stored_prefixed(label, below, rest, payload);
    assert forall|j: int| 0 <= j < after.edges.len() implies {
        &&& (#[trigger] after.edges[j]).1.sound()
        &&& !after.edges[j].1.is_void()
        &&& after.edges[j].0.len() == 0 ==> after.edges[j].1.is_leaf()
    } by {
        if j != i {
            assert(after.edges[j] == node.edges[j]);
        }
    }
    assert forall|j: int, k: int| 0 <= j < k < after.edges.len() implies apart(
        (#[trigger] after.edges[j]).0,
        (#[trigger] after.edges[k]).0,
    ) by {
        assert(apart(node.edges[j].0, node.edges[k].0));
    }
}

/// Cutting the label of edge `i` in two, with a new node between the two
/// parts, keeps the node sound and its entries as they were.
pub proof fn lemma_split_edge<T>(node: Node<T>, i: int, at: int)
    requires
        node.sound(),
        0 <= i < node.edges.len(),
        0 < at < node.edges[i].0.len(),
    ensures
        ({
            let middle = Node {
                edges: seq![(node.edges[i].0.skip(at), node.edges[i].1)],
                payload: None,
            };
            let after = Node {
                edges: node.edges.update(i, (node.edges[i].0.take(at), middle)),
                payload: node.payload,
            };
            after.sound() && after.entries() == node.entries()
        }),
{
    let label = node.edges[i].0;
    let head = label.take(at);
    let tail = label.skip(at);
    let lower = (tail, node.edges[i].1);
    let middle = Node { edges: seq![lower], payload: None };
    let edge = (head, middle);
    let after = Node { edges: node.edges.update(i, edge), payload: node.payload };
    let below = node.edges[i].1.entries();
    lemma_entries_with_edge(node, i, edge);
    lemma_edge_entries_single(lower);
    assert(middle.entries() =~= prefixed(tail, below));
    lemma_prefixed_twice(head, tail, below);
    assert(head + tail =~= label);
    assert(middle.sound()) by {
        assert(middle.edges[0] == lower);
    }
    assert forall|j: int| 0 <= j < after.edges.len() implies {
        &&& (#[trigger] after.edges[j]).1.sound()
        &&& !after.edges[j].1.is_void()
        &&& after.edges[j].0.len() == 0 ==> after.edges[j].1.is_leaf()
    } by {
        if j != i {
            assert(after.edges[j] == node.edges[j]);
        }
    }
    assert forall|j: int, k: int| 0 <= j < k < after.edges.len() implies apart(
        (#[trigger] after.edges[j]).0,
        (#[trigger] after.edges[k]).0,
    ) by {
        assert(apart(node.edges[j].0, node.edges[k].0));
        assert(head[0] == label[0]);
        if j == i {
            if head == node.edges[k].0 {
                assert(node.edges[k].0[0] == label[0]);
            }
        }
        if k == i {
            if head == node.edges[j].0 {
                assert(node.edges[j].0[0] == label[0]);
            }
        }
    }
}

/// Moving the payload of a node without edges to a leaf behind an edge
/// with the empty label keeps the node sound and its entries as they
/// were.
pub proof fn lemma_demote<T>(node: Node<T>, payload: T)
    requires
        node.is_leaf(),
        node.payload == Some(payload),
    ensures
        ({
            let after = Node {
                edges: seq![(Seq::empty(), Node::leaf(payload))],
                payload: None,
            };
            after.sound() && after.entries() == node.entries()
        }),
{
    let key = Seq::<char>::empty();
    let edge = (key, Node::leaf(payload));
    let after = Node { edges: seq![edge], payload: None };
    lemma_leaf_entries(node);
    lemma_leaf_with_payload(payload);
    lemma_edge_entries_single(edge);
    assert(prefixed(key, Node::leaf(payload).entries()) =~= seq![(key, payload)]) by {
        assert(key + Seq::<char>::empty() =~= key);
    }
    assert(after.entries() =~= node.entries());
    assert(after.sound()) by {
        assert(after.edges[0] == edge);
    }
}

/// Storing a key that shares no first character with any label adds an
/// edge with the whole key behind the others, to a leaf with the payload.
pub proof fn lemma_store_new_edge<T>(node: Node<T>, key: Seq<char>, payload: T)
    requires
        node.sound(),
        node.payload is None,
        key.len() > 0,
        forall|j: int|
            0 <= j < node.edges.len() ==> common_prefix_len((#[trigger] node.edges[j]).0, key) == 0,
    ensures
        ({
            let after = Node {
                edges: node.edges.push((key, Node::leaf(payload))),
                payload: node.payload,
            };
            after.sound() && after.entries() == stored(node.entries(), key, payload)
        }),
{
    let edge = (key, Node::leaf(payload));
    let after = Node { edges: node.edges.push(edge), payload: node.payload };
    lemma_leaf_with_payload(payload);
    lemma_edge_entries_push(node.edges, edge);
    assert forall|j: int| 0 <= j < node.edges.len() implies far_edge(
        #[trigger] node.edges[j],
        key,
    ) by {}
    lemma_edges_far(node.edges, key);
    assert(node.entries() =~= edge_entries(node.edges));
    lemma_stored_far(node.entries(), key, payload);
    assert(prefixed(key, Node::leaf(payload).entries()) =~= seq![(key, payload)]) by {
        assert(key + Seq::<char>::empty() =~= key);
    }
    assert(after.entries() =~= node.entries().push((key, payload)));
    assert forall|j: int| 0 <= j < after.edges.len() implies {
        &&& (#[trigger] after.edges[j]).1.sound()
        &&& !after.edges[j].1.is_void()
        &&& after.edges[j].0.len() == 0 ==> after.edges[j].1.is_leaf()
    } by {
        if j < node.edges.len() {
            assert(after.edges[j] == node.edges[j]);
        }
    }
    assert forall|j: int, k: int| 0 <= j < k < after.edges.len() implies apart(
        (#[trigger] after.edges[j]).0,
        (#[trigger] after.edges[k]).0,
    ) by {
        if k < node.edges.len() {
            assert(apart(node.edges[j].0, node.edges[k].0));
        } else {
            assert(common_prefix_len(node.edges[j].0, key) == 0);
        }
    }
}

/// Among the edges of a sound node, the one with the empty label is the marker.
pub proof fn lemma_marker_is<T>(node: Node<T>, i: int)
    requires
        node.sound(),
        0 <= i < node.edges.len(),
        node.edges[i].0.len() == 0,
    ensures
        has_marker(node.edges),
        marker(node.edges) == i,
{
    let j = marker(node.edges);
    if j != i {
        assert(node.edges[i].0 =~= node.edges[j].0);
        if i < j {
            assert(apart(node.edges[i].0, node.edges[j].0));
        } else {
            assert(apart(node.edges[j].0, node.edges[i].0));
        }
    }
}

/// Among the edges of a sound node, the one whose label shares a prefix
/// with `key` is the shared edge.
pub proof fn lemma_shared_edge_is<T>(node: Node<T>, key: Seq<char>, i: int)
    requires
        node.sound(),
        0 <= i < node.edges.len(),
        common_prefix_len(node.edges[i].0, key) > 0,
    ensures
        has_shared_edge(node.edges, key),
        shared_edge(node.edges, key) == i,
{
    let j = shared_edge(node.edges, key);
    if j != i {
        assert(node.edges[i].0[0] == node.edges[j].0[0]);
        if i < j {
            assert(apart(node.edges[i].0, node.edges[j].0));
        } else {
            assert(apart(node.edges[j].0, node.edges[i].0));
        }
    }
}

/// Storing the key that ends at a sound node leaves a sound node that
/// holds the entries as they are after the empty key has been stored.
pub proof fn lemma_stored_here<T>(node: Node<T>, payload: T)
    requires
        node.sound(),
    ensures
        stored_here(node, payload).sound(),
        !stored_here(node, payload).is_void(),
        stored_here(node, payload).entries() == stored(node.entries(), Seq::empty(), payload),
{
    if node.edges.len() == 0 {
        lemma_store_at_leaf(node, payload);
    } else if has_marker(node.edges) {
        let i = marker(node.edges);
        let leaf = Node { edges: node.edges[i].1.edges, payload: Some(payload) };
        assert(leaf.edges =~= Seq::empty());
        assert(leaf == Node::leaf(payload));
        lemma_store_at_marker(node, i, payload);
    } else {
        lemma_store_new_marker(node, payload);
    }
}

/// An insertion into a sound tree leaves a sound tree, which holds the
/// entries as they are after the key has been stored.
pub proof fn lemma_inserted<T>(node: Node<T>, key: Seq<char>, payload: T)
    requires
        node.sound(),
    ensures
        inserted(node, key, payload).sound(),
        !inserted(node, key, payload).is_void(),
        inserted(node, key, payload).entries() == stored(node.entries(), key, payload),
    decreases key.len(),
{
    if key.len() == 0 {
        assert(key =~= Seq::empty());
        lemma_stored_here(node, payload);
    } else if has_shared_edge(node.edges, key) {
        let i = shared_edge(node.edges, key);
        let label = node.edges[i].0;
        let n = common_prefix_len(label, key);
        lemma_common_prefix_len_splits(label, key);
        let cut = if n < label.len() {
            split(node, i, n as int)
        } else {
            node
        };
        if n < label.len() {
            lemma_split_edge(node, i, n as int);
        }
        assert(cut.edges[i].0 =~= key.subrange(0, n as int));
        let rest = key.skip(n as int);
        lemma_inserted(cut.edges[i].1, rest, payload);
        lemma_store_below(cut, i, key, payload, inserted(cut.edges[i].1, rest, payload));
    } else {
        match node.payload {
            Some(own) => {
                lemma_demote(node, own);
            },
            None => {},
        }
        let ready = demoted(node);
        assert forall|j: int| 0 <= j < ready.edges.len() implies common_prefix_len(
            (#[trigger] ready.edges[j]).0,
            key,
        ) == 0 by {
            if node.edges.len() > 0 {
                assert(ready.edges[j] == node.edges[j]);
            }
        }
        lemma_store_new_edge(ready, key, payload);
    }
}

/// An insertion into a sound and compressed tree leaves a compressed
/// tree. Unless the node stored nothing or had one edge before, it does
/// not have one edge after.
pub proof fn lemma_inserted_compressed<T>(node: Node<T>, key: Seq<char>, payload: T)
    requires
        node.sound(),
        node.compressed(),
    ensures
        inserted(node, key, payload).compressed(),
        node.edges.len() != 1 && !node.is_void() ==> inserted(node, key, payload).edges.len() != 1,
    decreases key.len(),
{
    let after = inserted(node, key, payload);
    if key.len() == 0 {
        if node.edges.len() > 0 {
            if has_marker(node.edges) {
                let i = marker(node.edges);
                assert forall|j: int| 0 <= j < after.edges.len() implies (
                #[trigger] after.edges[j]).1.compressed() && after.edges[j].1.edges.len() != 1 by {
                    if j != i {
                        assert(after.edges[j] == node.edges[j]);
                    } else {
                        assert(node.edges[i].1.is_leaf());
                    }
                }
            } else {
                assert forall|j: int| 0 <= j < after.edges.len() implies (
                #[trigger] after.edges[j]).1.compressed() && after.edges[j].1.edges.len() != 1 by {
                    if j < node.edges.len() {
                        assert(after.edges[j] == node.edges[j]);
                    }
                }
            }
        }
    } else if has_shared_edge(node.edges, key) {
        let i = shared_edge(node.edges, key);
        let label = node.edges[i].0;
        let n = common_prefix_len(label, key);
        lemma_common_prefix_len_splits(label, key);
        let rest = key.skip(n as int);
        let cut = if n < label.len() {
            split(node, i, n as int)
        } else {
            node
        };
        let below = cut.edges[i].1;
        let grown = inserted(below, rest, payload);
        if n < label.len() {
            let tail = label.skip(n as int);
            lemma_split_edge(node, i, n as int);
            assert(below.edges[0] == (tail, node.edges[i].1));
            assert(below.compressed());
            assert(common_prefix_len(tail, rest) == 0) by {
                if rest.len() > 0 {
                    assert(tail[0] == label[n as int]);
                    assert(rest[0] == key[n as int]);
                }
            }
            assert(!has_marker(below.edges));
            assert(!has_shared_edge(below.edges, rest));
            assert(grown.edges.len() == 2);
        } else {
            assert(!below.is_void());
        }
        lemma_inserted_compressed(below, rest, payload);
        assert forall|j: int| 0 <= j < after.edges.len() implies (
        #[trigger] after.edges[j]).1.compressed() && after.edges[j].1.edges.len() != 1 by {
            if j != i {
                assert(after.edges[j] == node.edges[j]);
            }
        }
    } else {
        let ready = demoted(node);
        assert forall|j: int| 0 <= j < after.edges.len() implies (
        #[trigger] after.edges[j]).1.compressed() && after.edges[j].1.edges.len() != 1 by {
            if j < ready.edges.len() && node.edges.len() > 0 {
                assert(after.edges[j] == node.edges[j]);
            }
        }
    }
}

} // verus!
