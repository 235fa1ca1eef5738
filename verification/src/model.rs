//! The tree as a mathematical value: nodes, the entries they hold, and the
//! invariant that keeps sibling edges apart.

use vstd::prelude::*;
use crate::prefix::common_prefix_len;
use crate::quote::debug_quoted;

verus! {

/// A node of the tree: its outgoing edges in order, each with a label and a
/// subtree, and the payload of the key that ends at this node, if one does.
pub struct Node<T> {
    pub edges: Seq<(Seq<char>, Node<T>)>,
    pub payload: Option<T>,
}

/// Two edge labels are apart when they are different and share no non-empty prefix.
pub open spec fn apart(a: Seq<char>, b: Seq<char>) -> bool {
    a != b && common_prefix_len(a, b) == 0
}

/// Every key of `entries` with `label` put in front of it.
pub open spec fn prefixed<T>(label: Seq<char>, entries: Seq<(Seq<char>, T)>) -> Seq<(Seq<char>, T)> {
    Seq::new(entries.len(), |i: int| (label + entries[i].0, entries[i].1))
}

/// The test that an entry's key begins with `prefix`.
pub open spec fn has_prefix<T>(prefix: Seq<char>) -> spec_fn((Seq<char>, T)) -> bool {
    |e: (Seq<char>, T)| prefix.is_prefix_of(e.0)
}

/// The entries whose key begins with `prefix`, in their order.
pub open spec fn matching<T>(entries: Seq<(Seq<char>, T)>, prefix: Seq<char>) -> Seq<(Seq<char>, T)> {
    entries.filter(has_prefix(prefix))
}

/// Whether `key` is one of the keys of `entries`.
pub open spec fn has_key<T>(entries: Seq<(Seq<char>, T)>, key: Seq<char>) -> bool {
    exists|i: int| 0 <= i < entries.len() && (#[trigger] entries[i]).0 == key
}

/// The number of leading characters that the key of entry `i` shares with `key`.
pub open spec fn shared_at<T>(entries: Seq<(Seq<char>, T)>, i: int, key: Seq<char>) -> nat {
    common_prefix_len(entries[i].0, key)
}

/// `at` is the place right behind the last entry whose key shares with
/// `key` the longest prefix that any entry shares with it; in an empty
/// sequence it is the only place there is.
pub open spec fn behind_best_match<T>(entries: Seq<(Seq<char>, T)>, key: Seq<char>, at: int) -> bool {
    if entries.len() == 0 {
        at == 0
    } else {
        &&& 0 < at <= entries.len()
        &&& forall|i: int|
            0 <= i < entries.len() ==> #[trigger] shared_at(entries, i, key) <= shared_at(
                entries,
                at - 1,
                key,
            )
        &&& forall|i: int|
            at <= i < entries.len() ==> #[trigger] shared_at(entries, i, key) < shared_at(
                entries,
                at - 1,
                key,
            )
    }
}

/// The place at which a key that is not yet stored enters the sequence.
pub open spec fn insertion_point<T>(entries: Seq<(Seq<char>, T)>, key: Seq<char>) -> int {
    choose|at: int| behind_best_match(entries, key, at)
}

/// `entries` with `payload` in place of the payload of `key`.
pub open spec fn replaced<T>(entries: Seq<(Seq<char>, T)>, key: Seq<char>, payload: T) -> Seq<
    (Seq<char>, T),
> {
    Seq::new(
        entries.len(),
        |i: int|
            if entries[i].0 == key {
                (key, payload)
            } else {
                entries[i]
            },
    )
}

/// `entries` after `key` has been stored with `payload`. A key that is
/// present keeps its place and takes the new payload. A new key enters at
/// its insertion point, and the other entries keep their order.
pub open spec fn stored<T>(entries: Seq<(Seq<char>, T)>, key: Seq<char>, payload: T) -> Seq<
    (Seq<char>, T),
> {
    if has_key(entries, key) {
        replaced(entries, key, payload)
    } else {
        entries.insert(insertion_point(entries, key), (key, payload))
    }
}

/// No key of `entries` is `key` or shares a first character with it.
pub open spec fn all_far<T>(entries: Seq<(Seq<char>, T)>, key: Seq<char>) -> bool {
    forall|i: int|
        0 <= i < entries.len() ==> (#[trigger] entries[i]).0 != key && common_prefix_len(
            entries[i].0,
            key,
        ) == 0
}

/// The entry that a node holds for the key that ends at it.
pub open spec fn own_entries<T>(payload: Option<T>) -> Seq<(Seq<char>, T)> {
    match payload {
        Some(p) => seq![(Seq::empty(), p)],
        None => Seq::empty(),
    }
}

/// The entries reached through `edges`, edge by edge, each key with its edge's label in front.
pub open spec fn edge_entries<T>(edges: Seq<(Seq<char>, Node<T>)>) -> Seq<(Seq<char>, T)>
    decreases edges,
{
    if edges.len() == 0 {
        Seq::empty()
    } else {
        edge_entries(edges.drop_last()) + prefixed(edges.last().0, edges.last().1.entries())
    }
}

/// The line that shows an edge in an outline: the label as `Debug` writes
/// it, behind the indentation of its depth.
pub open spec fn outline_line(indent: Seq<char>, label: Seq<char>) -> Seq<char> {
    indent + debug_quoted(label)
}

/// The outline of the subtrees behind `edges`: for each edge its line, and
/// below it the outline of its subtree, two spaces further in.
pub open spec fn edge_outline<T>(edges: Seq<(Seq<char>, Node<T>)>, indent: Seq<char>) -> Seq<
    Seq<char>,
>
    decreases edges,
{
    if edges.len() == 0 {
        Seq::empty()
    } else {
        edge_outline(edges.drop_last(), indent) + seq![outline_line(indent, edges.last().0)]
            + edges.last().1.outline(indent + seq![' ', ' '])
    }
}

impl<T> Node<T> {
    /// One line for every edge below this node, in the order of a walk
    /// from the first edge to the last, each subtree right below its edge.
    pub open spec fn outline(self, indent: Seq<char>) -> Seq<Seq<char>>
        decreases self,
    {
        edge_outline(self.edges, indent)
    }

    /// The node with no edges and no payload, which stores nothing.
    pub open spec fn empty() -> Node<T> {
        Node { edges: Seq::empty(), payload: None }
    }

    /// A node without edges that carries `payload`.
    pub open spec fn leaf(payload: T) -> Node<T> {
        Node { edges: Seq::empty(), payload: Some(payload) }
    }

    pub open spec fn is_leaf(self) -> bool {
        self.edges.len() == 0
    }

    /// A node that has neither edges nor a payload.
    pub open spec fn is_void(self) -> bool {
        self.edges.len() == 0 && self.payload is None
    }

    /// The stored keys with their payloads, in the order in which a walk of
    /// the edges from first to last meets them. A key is the concatenation
    /// of the labels on the way to the node that carries its payload.
    pub open spec fn entries(self) -> Seq<(Seq<char>, T)>
        decreases self,
    {
        own_entries(self.payload) + edge_entries(self.edges)
    }

    /// What insertion and completion rest on. Only a node without edges
    /// carries a payload; every edge leads to a sound subtree that stores
    /// something; an edge with the empty label leads to a leaf; and sibling
    /// labels are pairwise apart.
    pub open spec fn sound(self) -> bool
        decreases self,
    {
        &&& self.payload is Some ==> self.edges.len() == 0
        &&& forall|i: int|
            0 <= i < self.edges.len() ==> {
                &&& (#[trigger] self.edges[i]).1.sound()
                &&& !self.edges[i].1.is_void()
                &&& self.edges[i].0.len() == 0 ==> self.edges[i].1.is_leaf()
            }
        &&& forall|i: int, j: int|
            0 <= i < j < self.edges.len() ==> apart(
                (#[trigger] self.edges[i]).0,
                (#[trigger] self.edges[j]).0,
            )
    }

    /// No node below this one has exactly one edge: where keys share a
    /// prefix, a single edge carries all of it.
    pub open spec fn compressed(self) -> bool
        decreases self,
    {
        forall|i: int|
            0 <= i < self.edges.len() ==> {
                &&& (#[trigger] self.edges[i]).1.compressed()
                &&& self.edges[i].1.edges.len() != 1
            }
    }

    /// The invariant of the tree: it is sound and compressed.
    pub open spec fn wf(self) -> bool {
        self.sound() && self.compressed()
    }
}

} // verus!
