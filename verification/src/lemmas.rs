//! Facts about sequences of entries that the tree's operations rest on.

use vstd::prelude::*;
use crate::model::{
    all_far, behind_best_match, edge_entries, has_key, has_prefix, insertion_point, matching,
    own_entries, prefixed, replaced, shared_at, stored, Node,
};
use crate::prefix::{
    common_prefix_len, lemma_common_prefix_len_splits, lemma_splits_at_is_common_prefix_len,
};

verus! {

/// Putting `b` and then `a` in front of every key puts `a + b` in front of it.
pub proof fn lemma_prefixed_twice<T>(a: Seq<char>, b: Seq<char>, entries: Seq<(Seq<char>, T)>)
    ensures
        prefixed(a, prefixed(b, entries)) == prefixed(a + b, entries),
{
    assert forall|i: int| 0 <= i < entries.len() implies prefixed(a, prefixed(b, entries))[i]
        == prefixed(a + b, entries)[i] by {
        assert(a + (b + entries[i].0) =~= (a + b) + entries[i].0);
    }
    assert(prefixed(a, prefixed(b, entries)) =~= prefixed(a + b, entries));
}

/// Putting the empty label in front of every key changes nothing.
pub proof fn lemma_prefixed_by_empty<T>(entries: Seq<(Seq<char>, T)>)
    ensures
        prefixed(Seq::empty(), entries) == entries,
{
    assert forall|i: int| 0 <= i < entries.len() implies prefixed(Seq::empty(), entries)[i]
        == entries[i] by {
        assert(Seq::<char>::empty() + entries[i].0 =~= entries[i].0);
    }
    assert(prefixed(Seq::empty(), entries) =~= entries);
}

/// A label goes in front of a concatenation part by part.
pub proof fn lemma_prefixed_add<T>(
    label: Seq<char>,
    a: Seq<(Seq<char>, T)>,
    b: Seq<(Seq<char>, T)>,
)
    ensures
        prefixed(label, a + b) == prefixed(label, a) + prefixed(label, b),
{
    assert(prefixed(label, a + b) =~= prefixed(label, a) + prefixed(label, b));
}

/// A label goes in front of a sequence and of the entry pushed onto it alike.
pub proof fn lemma_prefixed_push<T>(
    label: Seq<char>,
    entries: Seq<(Seq<char>, T)>,
    e: (Seq<char>, T),
)
    ensures
        prefixed(label, entries.push(e)) == prefixed(label, entries).push((label + e.0, e.1)),
{
    assert(prefixed(label, entries.push(e)) =~= prefixed(label, entries).push((label + e.0, e.1)));
}

/// How a query relates to a key that starts with `label`. Where the query
/// and the label part ways before either ends, the key does not begin with
/// the query. Otherwise it does exactly when the rest of the key begins
/// with what is left of the query after the shared characters.
pub proof fn lemma_prefix_through_label(label: Seq<char>, query: Seq<char>, key: Seq<char>)
    ensures
        ({
            let n = common_prefix_len(label, query);
            if n == query.len() || n == label.len() {
                query.is_prefix_of(label + key) <==> query.skip(n as int).is_prefix_of(key)
            } else {
                !query.is_prefix_of(label + key)
            }
        }),
{
    let n = common_prefix_len(label, query);
    let full = label + key;
    lemma_common_prefix_len_splits(label, query);
    if n == query.len() {
        assert(query.skip(n as int) =~= Seq::<char>::empty());
        assert(query =~= full.subrange(0, query.len() as int));
    } else if n == label.len() {
        let rest = query.skip(n as int);
        if query.is_prefix_of(full) {
            assert forall|i: int| 0 <= i < rest.len() implies rest[i] == key[i] by {
                assert(query[i + n] == full.subrange(0, query.len() as int)[i + n]);
            }
            assert(rest =~= key.subrange(0, rest.len() as int));
        }
        if rest.is_prefix_of(key) {
            assert forall|i: int| 0 <= i < query.len() implies query[i] == full[i] by {
                if i >= n {
                    assert(rest[i - n] == key.subrange(0, rest.len() as int)[i - n]);
                }
            }
            assert(query =~= full.subrange(0, query.len() as int));
        }
    } else {
        if query.is_prefix_of(full) {
            assert(query[n as int] == full.subrange(0, query.len() as int)[n as int]);
        }
    }
}

/// The entries behind an edge that match a query. Where the query and the
/// edge's label part ways before either ends, none does. Otherwise they are
/// the subtree's entries that match what is left of the query.
pub proof fn lemma_matching_prefixed<T>(
    label: Seq<char>,
    entries: Seq<(Seq<char>, T)>,
    query: Seq<char>,
)
    ensures
        ({
            let n = common_prefix_len(label, query);
            matching(prefixed(label, entries), query) == if n == query.len() || n == label.len() {
                prefixed(label, matching(entries, query.skip(n as int)))
            } else {
                Seq::empty()
            }
        }),
    decreases entries.len(),
{
    let n = common_prefix_len(label, query);
    let rest = query.skip(n as int);
    if entries.len() == 0 {
        assert(prefixed(label, entries) =~= Seq::empty());
        assert(matching(entries, rest) =~= Seq::empty()) by {
            entries.lemma_filter_len(has_prefix(rest));
        }
        assert(matching(prefixed(label, entries), query) =~= Seq::empty()) by {
            prefixed(label, entries).lemma_filter_len(has_prefix(query));
        }
        assert(prefixed(label, Seq::<(Seq<char>, T)>::empty()) =~= Seq::empty());
    } else {
        let front = entries.drop_last();
        let e = entries.last();
        assert(entries =~= front.push(e));
        lemma_matching_prefixed(label, front, query);
        lemma_prefixed_push(label, front, e);
        lemma_prefix_through_label(label, query, e.0);
        prefixed(label, front).lemma_filter_push((label + e.0, e.1), has_prefix(query));
        front.lemma_filter_push(e, has_prefix(rest));
        if n == query.len() || n == label.len() {
            if rest.is_prefix_of(e.0) {
                lemma_prefixed_push(label, matching(front, rest), e);
            }
        }
    }
}

/// Matching goes through a concatenation part by part.
pub proof fn lemma_matching_add<T>(
    a: Seq<(Seq<char>, T)>,
    b: Seq<(Seq<char>, T)>,
    query: Seq<char>,
)
    ensures
        matching(a + b, query) == matching(a, query) + matching(b, query),
{
    Seq::filter_distributes_over_add(a, b, has_prefix(query));
}

/// A node's own entry has the empty key, which only the empty query matches.
pub proof fn lemma_matching_own<T>(payload: Option<T>, query: Seq<char>)
    ensures
        matching(own_entries(payload), query) == if query.len() == 0 {
            own_entries(payload)
        } else {
            Seq::empty()
        },
{
    let none = Seq::<(Seq<char>, T)>::empty();
    assert(matching(none, query) =~= none) by {
        none.lemma_filter_len(has_prefix(query));
    }
    match payload {
        Some(p) => {
            let e = (Seq::<char>::empty(), p);
            assert(own_entries(payload) =~= none.push(e));
            none.lemma_filter_push(e, has_prefix(query));
            if query.len() == 0 {
                assert(query =~= e.0.subrange(0, 0));
            }
        },
        None => {},
    }
}

/// Every entry matches the empty query.
pub proof fn lemma_matching_all<T>(entries: Seq<(Seq<char>, T)>)
    ensures
        matching(entries, Seq::empty()) == entries,
    decreases entries.len(),
{
    let query = Seq::<char>::empty();
    if entries.len() == 0 {
        entries.lemma_filter_len(has_prefix(query));
        assert(matching(entries, query) =~= entries);
    } else {
        let front = entries.drop_last();
        let e = entries.last();
        assert(entries =~= front.push(e));
        lemma_matching_all(front);
        front.lemma_filter_push(e, has_prefix(query));
        assert(query =~= e.0.subrange(0, 0));
    }
}

/// What one more edge adds to the matches found so far, with `path` put in
/// front of every key.
pub proof fn lemma_matching_next_edge<T>(
    path: Seq<char>,
    before: Seq<(Seq<char>, T)>,
    label: Seq<char>,
    entries: Seq<(Seq<char>, T)>,
    query: Seq<char>,
)
    ensures
        ({
            let n = common_prefix_len(label, query);
            prefixed(path, matching(before + prefixed(label, entries), query)) == prefixed(
                path,
                matching(before, query),
            ) + if n == query.len() || n == label.len() {
                prefixed(path + label, matching(entries, query.skip(n as int)))
            } else {
                Seq::empty()
            }
        }),
{
    let n = common_prefix_len(label, query);
    lemma_matching_add(before, prefixed(label, entries), query);
    lemma_matching_prefixed(label, entries, query);
    lemma_prefixed_add(path, matching(before, query), matching(prefixed(label, entries), query));
    if n == query.len() || n == label.len() {
        lemma_prefixed_twice(path, label, matching(entries, query.skip(n as int)));
    } else {
        assert(prefixed(path, Seq::<(Seq<char>, T)>::empty()) =~= Seq::empty());
    }
}

/// The entries behind a sequence of edges with one more edge at its end.
pub proof fn lemma_edge_entries_push<T>(edges: Seq<(Seq<char>, Node<T>)>, e: (Seq<char>, Node<T>))
    ensures
        edge_entries(edges.push(e)) == edge_entries(edges) + prefixed(e.0, e.1.entries()),
{
    assert(edges.push(e).drop_last() =~= edges);
}

/// The entries behind two runs of edges, one after the other.
pub proof fn lemma_edge_entries_add<T>(a: Seq<(Seq<char>, Node<T>)>, b: Seq<(Seq<char>, Node<T>)>)
    ensures
        edge_entries(a + b) == edge_entries(a) + edge_entries(b),
    decreases b.len(),
{
    if b.len() == 0 {
        assert(a + b =~= a);
        assert(edge_entries(a) + edge_entries(b) =~= edge_entries(a));
    } else {
        assert((a + b).drop_last() =~= a + b.drop_last());
        assert((a + b).last() == b.last());
        lemma_edge_entries_add(a, b.drop_last());
        assert(edge_entries(a + b) =~= edge_entries(a) + edge_entries(b));
    }
}

/// The entries behind a sequence of edges: those before edge `i`, those
/// behind edge `i`, and those after it.
pub proof fn lemma_edge_entries_around<T>(edges: Seq<(Seq<char>, Node<T>)>, i: int)
    requires
        0 <= i < edges.len(),
    ensures
        edge_entries(edges) == edge_entries(edges.take(i)) + prefixed(
            edges[i].0,
            edges[i].1.entries(),
        ) + edge_entries(edges.skip(i + 1)),
{
    assert(edges =~= edges.take(i).push(edges[i]) + edges.skip(i + 1));
    lemma_edge_entries_add(edges.take(i).push(edges[i]), edges.skip(i + 1));
    lemma_edge_entries_push(edges.take(i), edges[i]);
}

/// There is at most one place behind the best match.
pub proof fn lemma_behind_best_match_unique<T>(
    entries: Seq<(Seq<char>, T)>,
    key: Seq<char>,
    a: int,
    b: int,
)
    requires
        behind_best_match(entries, key, a),
        behind_best_match(entries, key, b),
    ensures
        a == b,
{
    if entries.len() > 0 {
        if a < b {
            assert(shared_at(entries, b - 1, key) < shared_at(entries, a - 1, key));
            assert(shared_at(entries, a - 1, key) <= shared_at(entries, b - 1, key));
        }
        if b < a {
            assert(shared_at(entries, a - 1, key) < shared_at(entries, b - 1, key));
            assert(shared_at(entries, b - 1, key) <= shared_at(entries, a - 1, key));
        }
    }
}

/// There is a place behind the best match.
pub proof fn lemma_behind_best_match_exists<T>(entries: Seq<(Seq<char>, T)>, key: Seq<char>)
    ensures
        exists|at: int| behind_best_match(entries, key, at),
    decreases entries.len(),
{
    if entries.len() == 0 {
        assert(behind_best_match(entries, key, 0));
    } else {
        let front = entries.drop_last();
        lemma_behind_best_match_exists(front, key);
        let a = choose|at: int| behind_best_match(front, key, at);
        let last = entries.len() - 1;
        assert forall|i: int| 0 <= i < front.len() implies shared_at(front, i, key) == shared_at(
            entries,
            i,
            key,
        ) by {}
        if front.len() == 0 || shared_at(entries, last, key) >= shared_at(front, a - 1, key) {
            assert forall|i: int| 0 <= i < entries.len() implies #[trigger] shared_at(
                entries,
                i,
                key,
            ) <= shared_at(entries, last, key) by {
                if i < last {
                    assert(shared_at(front, i, key) <= shared_at(front, a - 1, key));
                }
            }
            assert(behind_best_match(entries, key, entries.len() as int));
        } else {
            assert forall|i: int| 0 <= i < entries.len() implies #[trigger] shared_at(
                entries,
                i,
                key,
            ) <= shared_at(entries, a - 1, key) by {
                if i < last {
                    assert(shared_at(front, i, key) <= shared_at(front, a - 1, key));
                }
            }
            assert forall|i: int| a <= i < entries.len() implies #[trigger] shared_at(
                entries,
                i,
                key,
            ) < shared_at(entries, a - 1, key) by {
                if i < last {
                    assert(shared_at(front, i, key) < shared_at(front, a - 1, key));
                }
            }
            assert(behind_best_match(entries, key, a));
        }
    }
}

/// The insertion point is the place behind the best match.
pub proof fn lemma_insertion_point<T>(entries: Seq<(Seq<char>, T)>, key: Seq<char>)
    ensures
        behind_best_match(entries, key, insertion_point(entries, key)),
        0 <= insertion_point(entries, key) <= entries.len(),
{
    lemma_behind_best_match_exists(entries, key);
}

/// A place behind the best match is the insertion point.
pub proof fn lemma_insertion_point_is<T>(entries: Seq<(Seq<char>, T)>, key: Seq<char>, at: int)
    requires
        behind_best_match(entries, key, at),
    ensures
        insertion_point(entries, key) == at,
{
    lemma_behind_best_match_unique(entries, key, at, insertion_point(entries, key));
}

/// Two sequences that are both far from a key are far from it together.
pub proof fn lemma_all_far_add<T>(a: Seq<(Seq<char>, T)>, b: Seq<(Seq<char>, T)>, key: Seq<char>)
    requires
        all_far(a, key),
        all_far(b, key),
    ensures
        all_far(a + b, key),
{
    assert forall|i: int| 0 <= i < (a + b).len() implies (#[trigger] (a + b)[i]).0 != key
        && common_prefix_len((a + b)[i].0, key) == 0 by {
        if i < a.len() {
            assert((a + b)[i] == a[i]);
        } else {
            assert((a + b)[i] == b[i - a.len()]);
        }
    }
}

/// A key that is far from all the entries goes to their end.
pub proof fn lemma_stored_far<T>(entries: Seq<(Seq<char>, T)>, key: Seq<char>, payload: T)
    requires
        all_far(entries, key),
    ensures
        !has_key(entries, key),
        stored(entries, key, payload) == entries.push((key, payload)),
{
    let end = entries.len() as int;
    assert forall|i: int| 0 <= i < entries.len() implies #[trigger] shared_at(entries, i, key)
        == 0 by {
        assert(entries[i].0 != key);
    }
    assert(behind_best_match(entries, key, end));
    lemma_insertion_point_is(entries, key, end);
    assert(entries.insert(end, (key, payload)) =~= entries.push((key, payload)));
}

/// Replacing the payload of a key touches only the run of entries that can hold it.
pub proof fn lemma_replaced_between<T>(
    a: Seq<(Seq<char>, T)>,
    b: Seq<(Seq<char>, T)>,
    c: Seq<(Seq<char>, T)>,
    key: Seq<char>,
    payload: T,
)
    requires
        all_far(a, key),
        all_far(c, key),
    ensures
        replaced(a + b + c, key, payload) == a + replaced(b, key, payload) + c,
        has_key(a + b + c, key) == has_key(b, key),
{
    let all = a + b + c;
    if has_key(b, key) {
        let i = choose|i: int| 0 <= i < b.len() && (#[trigger] b[i]).0 == key;
        assert(all[a.len() + i] == b[i]);
    }
    if has_key(all, key) {
        let j = choose|j: int| 0 <= j < all.len() && (#[trigger] all[j]).0 == key;
        if j < a.len() {
            assert(all[j] == a[j]);
        } else if j < a.len() + b.len() {
            assert(all[j] == b[j - a.len()]);
        } else {
            assert(all[j] == c[j - a.len() - b.len()]);
        }
    }
    assert forall|j: int| 0 <= j < all.len() implies replaced(all, key, payload)[j] == (a
        + replaced(b, key, payload) + c)[j] by {
        if j < a.len() {
            assert(all[j] == a[j]);
        } else if j < a.len() + b.len() {
            assert(all[j] == b[j - a.len()]);
        } else {
            assert(all[j] == c[j - a.len() - b.len()]);
        }
    }
    assert(replaced(all, key, payload) =~= a + replaced(b, key, payload) + c);
}

/// Storing a key touches only the run of entries that share a prefix with
/// it, where there is one, and leaves what is far from the key in place.
pub proof fn lemma_stored_between<T>(
    a: Seq<(Seq<char>, T)>,
    b: Seq<(Seq<char>, T)>,
    c: Seq<(Seq<char>, T)>,
    key: Seq<char>,
    payload: T,
)
    requires
        all_far(a, key),
        all_far(c, key),
        b.len() > 0,
        forall|i: int| 0 <= i < b.len() ==> #[trigger] shared_at(b, i, key) > 0,
    ensures
        stored(a + b + c, key, payload) == a + stored(b, key, payload) + c,
        has_key(a + b + c, key) == has_key(b, key),
{
    let all = a + b + c;
    lemma_replaced_between(a, b, c, key, payload);
    if !has_key(b, key) {
        lemma_insertion_point(b, key);
        let at = insertion_point(b, key);
        let best = shared_at(b, at - 1, key);
        assert(shared_at(all, a.len() + at - 1, key) == best) by {
            assert(all[a.len() + at - 1] == b[at - 1]);
        }
        assert forall|j: int| 0 <= j < all.len() implies #[trigger] shared_at(all, j, key)
            <= best by {
            if j < a.len() {
                assert(all[j] == a[j]);
            } else if j < a.len() + b.len() {
                assert(all[j] == b[j - a.len()]);
                assert(shared_at(b, j - a.len(), key) <= best);
            } else {
                assert(all[j] == c[j - a.len() - b.len()]);
            }
        }
        assert forall|j: int| a.len() + at <= j < all.len() implies #[trigger] shared_at(
            all,
            j,
            key,
        ) < best by {
            if j < a.len() + b.len() {
                assert(all[j] == b[j - a.len()]);
                assert(shared_at(b, j - a.len(), key) < best);
            } else {
                assert(all[j] == c[j - a.len() - b.len()]);
            }
        }
        assert(behind_best_match(all, key, a.len() + at));
        lemma_insertion_point_is(all, key, a.len() + at);
        assert(all.insert(a.len() + at, (key, payload)) =~= a + b.insert(at, (key, payload)) + c);
    }
}

/// What two keys that start with the same label share is the label and
/// what their rests share.
pub proof fn lemma_common_prefix_len_behind_label(label: Seq<char>, a: Seq<char>, b: Seq<char>)
    ensures
        common_prefix_len(label + a, label + b) == label.len() + common_prefix_len(a, b),
        (label + a == label + b) <==> a == b,
{
    let n = common_prefix_len(a, b);
    lemma_common_prefix_len_splits(a, b);
    let m = label.len() + n;
    assert forall|i: int| 0 <= i < m implies (label + a)[i] == (label + b)[i] by {
        if i >= label.len() {
            assert(a[i - label.len()] == b[i - label.len()]);
        }
    }
    if m < (label + a).len() && m < (label + b).len() {
        assert((label + a)[m as int] == a[n as int]);
        assert((label + b)[m as int] == b[n as int]);
    }
    lemma_splits_at_is_common_prefix_len(label + a, label + b, m);
    if label + a == label + b {
        assert forall|i: int| 0 <= i < a.len() implies a[i] == b[i] by {
            assert((label + a)[label.len() + i] == a[i]);
            assert((label + b)[label.len() + i] == b[i]);
        }
        assert((label + a).len() == (label + b).len());
        assert(a =~= b);
    }
}

/// Storing a key behind an edge stores the rest of the key in the subtree's entries.
pub proof fn lemma_stored_prefixed<T>(
    label: Seq<char>,
    entries: Seq<(Seq<char>, T)>,
    rest: Seq<char>,
    payload: T,
)
    ensures
        stored(prefixed(label, entries), label + rest, payload) == prefixed(
            label,
            stored(entries, rest, payload),
        ),
        has_key(prefixed(label, entries), label + rest) == has_key(entries, rest),
{
    let key = label + rest;
    let outer = prefixed(label, entries);
    assert forall|i: int| 0 <= i < entries.len() implies (outer[i].0 == key <==> entries[i].0
        == rest) && #[trigger] shared_at(outer, i, key) == label.len() + shared_at(
        entries,
        i,
        rest,
    ) by {
        lemma_common_prefix_len_behind_label(label, entries[i].0, rest);
    }
    if has_key(entries, rest) {
        let i = choose|i: int| 0 <= i < entries.len() && (#[trigger] entries[i]).0 == rest;
        assert(shared_at(outer, i, key) == label.len() + shared_at(entries, i, rest));
        assert(outer[i].0 == key);
    }
    if has_key(outer, key) {
        let i = choose|i: int| 0 <= i < outer.len() && (#[trigger] outer[i]).0 == key;
        assert(shared_at(outer, i, key) == label.len() + shared_at(entries, i, rest));
        assert(entries[i].0 == rest);
    }
    if has_key(entries, rest) {
        assert forall|i: int| 0 <= i < entries.len() implies replaced(outer, key, payload)[i]
            == prefixed(label, replaced(entries, rest, payload))[i] by {
            assert(shared_at(outer, i, key) == label.len() + shared_at(entries, i, rest));
        }
        assert(replaced(outer, key, payload) =~= prefixed(
            label,
            replaced(entries, rest, payload),
        ));
    } else {
        lemma_insertion_point(entries, rest);
        let at = insertion_point(entries, rest);
        if entries.len() > 0 {
            assert(shared_at(outer, at - 1, key) == label.len() + shared_at(entries, at - 1, rest));
            assert forall|i: int| 0 <= i < outer.len() implies #[trigger] shared_at(outer, i, key)
                <= shared_at(outer, at - 1, key) by {
                assert(shared_at(entries, i, rest) <= shared_at(entries, at - 1, rest));
            }
            assert forall|i: int| at <= i < outer.len() implies #[trigger] shared_at(outer, i, key)
                < shared_at(outer, at - 1, key) by {
                assert(shared_at(entries, i, rest) < shared_at(entries, at - 1, rest));
            }
        }
        assert(behind_best_match(outer, key, at));
        lemma_insertion_point_is(outer, key, at);
        assert(outer.insert(at, (key, payload)) =~= prefixed(
            label,
            entries.insert(at, (rest, payload)),
        ));
    }
}

} // verus!
