//! The tree itself: construction, insertion and completion.

use vstd::prelude::*;
use vstd::string::StringExecFns;
use crate::lemmas::{
    lemma_edge_entries_push, lemma_matching_next_edge, lemma_matching_own, lemma_prefixed_by_empty,
};
use crate::model::{
    edge_entries, edge_outline, matching, outline_line, own_entries, prefixed, stored, Node,
};
use crate::prefix::{common_prefix_len, common_prefix_length, lemma_common_prefix_len_splits};
use crate::quote::{indented, quoted};
use crate::insertion::{
    inserted, lemma_inserted, lemma_inserted_compressed, lemma_leaf_entries, lemma_marker_is,
    lemma_shared_edge_is, lemma_split_edge, split, stored_here,
};

verus! {

/// A compressed prefix tree that stores keys with payloads of type `T`.
pub struct AbbrevTree<T> {
    children: Vec<(String, AbbrevTree<T>)>,
    payload: Option<T>,
}

/// The edges that a vector of children stands for.
spec fn edge_views<T>(children: Seq<(String, AbbrevTree<T>)>) -> Seq<(Seq<char>, Node<T>)>
    decreases children,
{
    if children.len() == 0 {
        Seq::empty()
    } else {
        edge_views(children.drop_last()).push((children.last().0@, children.last().1.view()))
    }
}

impl<T> View for AbbrevTree<T> {
    type V = Node<T>;

    closed spec fn view(&self) -> Node<T>
        decreases self,
    {
        Node { edges: edge_views(self.children@), payload: self.payload }
    }
}

/// The keys and payloads that a vector of found entries stands for.
pub open spec fn found_entries<T>(found: Seq<(String, &T)>) -> Seq<(Seq<char>, T)> {
    Seq::new(found.len(), |i: int| (found[i].0@, *found[i].1))
}

/// The text of each line of a vector of lines.
pub open spec fn line_texts(lines: Seq<String>) -> Seq<Seq<char>> {
    Seq::new(lines.len(), |i: int| lines[i]@)
}

proof fn lemma_edge_views<T>(children: Seq<(String, AbbrevTree<T>)>)
    ensures
        edge_views(children).len() == children.len(),
        forall|i: int|
            0 <= i < children.len() ==> #[trigger] edge_views(children)[i] == (
                children[i].0@,
                children[i].1@,
            ),
    decreases children.len(),
{
    if children.len() > 0 {
        lemma_edge_views(children.drop_last());
        assert(edge_views(children) == edge_views(children.drop_last()).push(
            (children.last().0@, children.last().1@),
        ));
    } else {
        assert(edge_views(children) == Seq::<(Seq<char>, Node<T>)>::empty());
    }
}

impl<T> AbbrevTree<T> {
    proof fn lemma_view(&self)
        ensures
            self@.payload == self.payload,
            self@.edges.len() == self.children@.len(),
            forall|i: int|
                0 <= i < self.children@.len() ==> #[trigger] self@.edges[i] == (
                    self.children@[i].0@,
                    self.children@[i].1@,
                ),
    {
        lemma_edge_views(self.children@);
    }

    /// An empty tree.
    pub fn new() -> (tree: Self)
        ensures
            tree@ == Node::<T>::empty(),
            tree@.wf(),
            tree@.entries() == Seq::<(Seq<char>, T)>::empty(),
    {
        let tree = AbbrevTree { children: Vec::new(), payload: None };
        proof {
            tree.lemma_view();
            assert(tree@.edges =~= Seq::empty());
            lemma_leaf_entries(tree@);
        }
        tree
    }

    /// The number of edges that leave this node.
    pub fn len(&self) -> (n: usize)
        ensures
            n == self@.edges.len(),
    {
        proof {
            self.lemma_view();
        }
        self.children.len()
    }

    /// The label of edge `i`.
    pub fn label(&self, i: usize) -> (label: &str)
        requires
            i < self@.edges.len(),
        ensures
            label@ == self@.edges[i as int].0,
    {
        proof {
            self.lemma_view();
        }
        self.children[i].0.as_str()
    }

    /// The subtree that edge `i` leads to.
    pub fn subtree(&self, i: usize) -> (child: &AbbrevTree<T>)
        requires
            i < self@.edges.len(),
        ensures
            child@ == self@.edges[i as int].1,
    {
        proof {
            self.lemma_view();
        }
        &self.children[i].1
    }

    /// The payload that this node carries, if any.
    pub fn payload(&self) -> (payload: Option<&T>)
        ensures
            payload == match self@.payload {
                Some(p) => Some(&p),
                None => None,
            },
    {
        proof {
            self.lemma_view();
        }
        self.payload.as_ref()
    }

    /// Every stored key that begins with `prefix`, each with a reference to
    /// its payload, in the order in which a walk of the edges meets them.
    pub fn complete(&self, prefix: &str) -> (found: Vec<(String, &T)>)
        ensures
            found_entries(found@) == matching(self@.entries(), prefix@),
    {
        let mut found: Vec<(String, &T)> = Vec::new();
        self.collect("", prefix, &mut found);
        proof {
            reveal_strlit("");
            assert(""@ =~= Seq::<char>::empty());
            lemma_prefixed_by_empty(matching(self@.entries(), prefix@));
            assert(found_entries(Seq::<(String, &T)>::empty()) =~= Seq::empty());
        }
        found
    }

    /// Appends to `found` the entries below this node whose key begins with
    /// `query`, each key with `path` in front of it.
    fn collect<'a>(&'a self, path: &str, query: &str, found: &mut Vec<(String, &'a T)>)
        ensures
            found_entries(final(found)@) == found_entries(old(found)@) + prefixed(
                path@,
                matching(self@.entries(), query@),
            ),
        decreases self,
    {
        proof {
            self.lemma_view();
            lemma_matching_own(self.payload, query@);
        }
        let query_len = query.unicode_len();
        if query_len == 0 {
            if let Some(payload) = &self.payload {
                found.push((path.to_owned(), payload));
                proof {
                    assert(path@ + Seq::<char>::empty() =~= path@);
                    assert(found_entries(found@) =~= found_entries(old(found)@) + prefixed(
                        path@,
                        own_entries(self.payload),
                    ));
                }
            }
        }
        let mut i: usize = 0;
        proof {
            assert(self@.edges.take(0) =~= Seq::empty());
            assert(own_entries(self.payload) + edge_entries(self@.edges.take(0)) =~= own_entries(
                self.payload,
            ));
            assert(prefixed(path@, Seq::<(Seq<char>, T)>::empty()) =~= Seq::empty());
        }
        while i < self.children.len()
            invariant
                i <= self.children.len(),
                query_len == query@.len(),
                self@.edges.len() == self.children@.len(),
                forall|k: int|
                    0 <= k < self.children@.len() ==> #[trigger] self@.edges[k] == (
                        self.children@[k].0@,
                        self.children@[k].1@,
                    ),
                found_entries(found@) == found_entries(old(found)@) + prefixed(
                    path@,
                    matching(
                        own_entries(self.payload) + edge_entries(self@.edges.take(i as int)),
                        query@,
                    ),
                ),
            decreases self.children.len() - i,
        {
            let label = self.children[i].0.as_str();
            let child = &self.children[i].1;
            let shared = common_prefix_length(label, query);
            proof {
                let before = own_entries(self.payload) + edge_entries(self@.edges.take(i as int));
                assert(self@.edges.take(i + 1) =~= self@.edges.take(i as int).push(
                    self@.edges[i as int],
                ));
                lemma_edge_entries_push(self@.edges.take(i as int), self@.edges[i as int]);
                assert(own_entries(self.payload) + edge_entries(self@.edges.take(i + 1)) =~= before
                    + prefixed(label@, child@.entries()));
                lemma_matching_next_edge(path@, before, label@, child@.entries(), query@);
                lemma_common_prefix_len_splits(label@, query@);
            }
            if shared == query_len || shared == label.unicode_len() {
                let mut deeper = String::from_str(path);
                deeper.append(label);
                child.collect(deeper.as_str(), query.substring_char(shared, query_len), found);
            }
            i += 1;
        }
        proof {
            assert(self@.edges.take(i as int) =~= self@.edges);
        }
    }

    fn split_edge(&mut self, i: usize, at: usize)
        requires
            i < old(self)@.edges.len(),
            0 < at < old(self)@.edges[i as int].0.len(),
        ensures
            final(self)@ == split(old(self)@, i as int, at as int),
    {
        proof {
            self.lemma_view();
        }
        let edge = &mut self.children[i];
        let label_len = edge.0.as_str().unicode_len();
        let head = edge.0.as_str().substring_char(0, at).to_owned();
        let tail = edge.0.as_str().substring_char(at, label_len).to_owned();
        let mut moved: Vec<(String, AbbrevTree<T>)> = Vec::new();
        core::mem::swap(&mut edge.1.children, &mut moved);
        let payload = edge.1.payload.take();
        edge.1.children.push((tail, AbbrevTree { children: moved, payload }));
        edge.0 = head;
        proof {
            let before = old(self).children@[i as int].1;
            let middle = self.children@[i as int].1;
            let below = middle.children@[0].1;
            self.lemma_view();
            middle.lemma_view();
            below.lemma_view();
            before.lemma_view();
            assert(below@.edges =~= before@.edges);
            assert(middle@.edges =~= seq![
                (old(self)@.edges[i as int].0.skip(at as int), old(self)@.edges[i as int].1),
            ]);
            assert(self@.edges =~= old(self)@.edges.update(
                i as int,
                (old(self)@.edges[i as int].0.take(at as int), middle@),
            ));
        }
    }

    /// The tree as an outline for diagnostics: one line for every edge,
    /// with its label as `{:?}` writes it, indented by two spaces for each
    /// edge above it.
    pub fn outline(&self) -> (lines: Vec<String>)
        ensures
            line_texts(lines@) == self@.outline(Seq::empty()),
    {
        let mut lines: Vec<String> = Vec::new();
        self.outline_into("", &mut lines);
        proof {
            reveal_strlit("");
            assert(""@ =~= Seq::<char>::empty());
            assert(line_texts(lines@) =~= self@.outline(Seq::empty()));
        }
        lines
    }

    /// Appends the outline of this subtree to `lines`, every line behind `indent`.
    fn outline_into(&self, indent: &str, lines: &mut Vec<String>)
        ensures
            line_texts(final(lines)@) == line_texts(old(lines)@) + self@.outline(indent@),
        decreases self,
    {
        proof {
            self.lemma_view();
            assert(self@.edges.take(0) =~= Seq::empty());
            assert(line_texts(lines@) =~= line_texts(old(lines)@) + edge_outline(
                self@.edges.take(0),
                indent@,
            ));
        }
        let mut deeper = String::from_str(indent);
        deeper.append("  ");
        proof {
            reveal_strlit("  ");
            assert(deeper@ =~= indent@ + seq![' ', ' ']);
        }
        let mut i: usize = 0;
        while i < self.children.len()
            invariant
                i <= self.children.len(),
                deeper@ == indent@ + seq![' ', ' '],
                self@.edges.len() == self.children@.len(),
                forall|k: int|
                    0 <= k < self.children@.len() ==> #[trigger] self@.edges[k] == (
                        self.children@[k].0@,
                        self.children@[k].1@,
                    ),
                line_texts(lines@) == line_texts(old(lines)@) + edge_outline(
                    self@.edges.take(i as int),
                    indent@,
                ),
            decreases self.children.len() - i,
        {
            let label = self.children[i].0.as_str();
            let line = indented(indent, quoted(label).as_str());
            let ghost before = line_texts(lines@);
            lines.push(line);
            proof {
                assert(line_texts(lines@) =~= before + seq![outline_line(indent@, label@)]);
                assert(self@.edges.take(i + 1) =~= self@.edges.take(i as int).push(
                    self@.edges[i as int],
                ));
                assert(self@.edges.take(i + 1).drop_last() =~= self@.edges.take(i as int));
            }
            self.children[i].1.outline_into(deeper.as_str(), lines);
            i += 1;
        }
        proof {
            assert(self@.edges.take(i as int) =~= self@.edges);
        }
    }

    /// A tree without edges that carries `payload`.
    fn leaf(payload: T) -> (tree: Self)
        ensures
            tree@ == Node::leaf(payload),
    {
        let tree = AbbrevTree { children: Vec::new(), payload: Some(payload) };
        proof {
            tree.lemma_view();
            assert(tree@.edges =~= Seq::empty());
        }
        tree
    }

    /// Stores the key that ends at this node.
    fn store_here(&mut self, payload: T)
        requires
            old(self)@.sound(),
        ensures
            final(self)@ == stored_here(old(self)@, payload),
    {
        proof {
            self.lemma_view();
        }
        if self.children.len() == 0 {
            self.payload = Some(payload);
            proof {
                self.lemma_view();
                assert(self@.edges =~= Seq::empty());
            }
            return ;
        }
        let mut i: usize = 0;
        while i < self.children.len()
            invariant
                *self == *old(self),
                self@.sound(),
                i <= self.children.len(),
                self@.edges.len() == self.children.len(),
                forall|j: int| 0 <= j < i ==> (#[trigger] self@.edges[j]).0.len() > 0,
            decreases self.children.len() - i,
        {
            proof {
                self.lemma_view();
            }
            if self.children[i].0.as_str().is_empty() {
                self.children[i].1.payload = Some(payload);
                proof {
                    let before = old(self).children@[i as int].1;
                    let leaf = self.children@[i as int].1;
                    self.lemma_view();
                    before.lemma_view();
                    leaf.lemma_view();
                    assert(leaf@.edges =~= before@.edges);
                    assert(self@.edges =~= old(self)@.edges.update(
                        i as int,
                        (old(self)@.edges[i as int].0, leaf@),
                    ));
                    lemma_marker_is(old(self)@, i as int);
                }
                return ;
            }
            i += 1;
        }
        self.children.push((String::new(), AbbrevTree::leaf(payload)));
        proof {
            self.lemma_view();
            assert(self@.edges =~= old(self)@.edges.push((Seq::empty(), Node::leaf(payload))));
        }
    }

    /// Stores `key` in the subtree below this node.
    fn insert(&mut self, key: &str, payload: T)
        requires
            old(self)@.sound(),
        ensures
            final(self)@ == inserted(old(self)@, key@, payload),
        decreases key@.len(),
    {
        let key_len = key.unicode_len();
        if key_len == 0 {
            self.store_here(payload);
            return ;
        }
        proof {
            self.lemma_view();
        }
        let mut i: usize = 0;
        while i < self.children.len()
            invariant
                *self == *old(self),
                self@.sound(),
                key_len == key@.len(),
                i <= self.children.len(),
                self@.edges.len() == self.children.len(),
                forall|j: int|
                    0 <= j < i ==> common_prefix_len((#[trigger] self@.edges[j]).0, key@) == 0,
            decreases self.children.len() - i,
        {
            proof {
                self.lemma_view();
            }
            let shared = common_prefix_length(self.children[i].0.as_str(), key);
            if shared > 0 {
                let label_len = self.children[i].0.as_str().unicode_len();
                proof {
                    lemma_common_prefix_len_splits(self@.edges[i as int].0, key@);
                    lemma_shared_edge_is(self@, key@, i as int);
                }
                if shared < label_len {
                    self.split_edge(i, shared);
                    proof {
                        lemma_split_edge(old(self)@, i as int, shared as int);
                    }
                }
                let ghost cut = self@;
                proof {
                    self.lemma_view();
                }
                self.children[i].1.insert(key.substring_char(shared, key_len), payload);
                proof {
                    self.lemma_view();
                    assert(self@.edges =~= cut.edges.update(
                        i as int,
                        (cut.edges[i as int].0, self.children@[i as int].1@),
                    ));
                }
                return ;
            }
            i += 1;
        }
        if self.children.len() == 0 {
            if let Some(own) = self.payload.take() {
                self.children.push((String::new(), AbbrevTree::leaf(own)));
                proof {
                    self.lemma_view();
                    assert(self@.edges =~= seq![(Seq::<char>::empty(), Node::leaf(own))]);
                }
            }
        }
        let ghost ready = self@;
        self.children.push((key.to_owned(), AbbrevTree::leaf(payload)));
        proof {
            self.lemma_view();
            assert(self@.edges =~= ready.edges.push((key@, Node::leaf(payload))));
        }
    }

    /// Stores `key` with `payload`. A key that is already stored keeps its
    /// place and takes the new payload; a new key enters right behind the
    /// stored keys that share the longest prefix with it. The empty key is
    /// not stored: the tree stays as it is.
    pub fn add(&mut self, key: &str, payload: T)
        requires
            old(self)@.wf(),
        ensures
            final(self)@.wf(),
            key@.len() == 0 ==> final(self)@ == old(self)@,
            key@.len() > 0 ==> final(self)@ == inserted(old(self)@, key@, payload),
            key@.len() > 0 ==> final(self)@.entries() == stored(
                old(self)@.entries(),
                key@,
                payload,
            ),
    {
        if !key.is_empty() {
            self.insert(key, payload);
            proof {
                lemma_inserted(old(self)@, key@, payload);
                lemma_inserted_compressed(old(self)@, key@, payload);
            }
        }
    }
}

} // verus!
