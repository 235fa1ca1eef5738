//! Common prefixes of character sequences.

use vstd::prelude::*;
use vstd::std_specs::iter::IteratorSpec;

verus! {

/// The number of leading characters on which `a` and `b` agree.
pub open spec fn common_prefix_len(a: Seq<char>, b: Seq<char>) -> nat
    decreases a.len(),
{
    if a.len() > 0 && b.len() > 0 && a[0] == b[0] {
        1 + common_prefix_len(a.drop_first(), b.drop_first())
    } else {
        0
    }
}

/// `n` characters are shared by `a` and `b`, and the sequences part ways right after them.
pub open spec fn splits_at(a: Seq<char>, b: Seq<char>, n: nat) -> bool {
    &&& n <= a.len()
    &&& n <= b.len()
    &&& forall|i: int| 0 <= i < n ==> a[i] == b[i]
    &&& n < a.len() && n < b.len() ==> a[n as int] != b[n as int]
}

/// The point at which two sequences part ways is their common prefix length.
pub proof fn lemma_splits_at_is_common_prefix_len(a: Seq<char>, b: Seq<char>, n: nat)
    requires
        splits_at(a, b, n),
    ensures
        common_prefix_len(a, b) == n,
    decreases a.len(),
{
    if n > 0 {
        let a1 = a.drop_first();
        let b1 = b.drop_first();
        assert(a[0] == b[0]);
        assert forall|i: int| 0 <= i < n - 1 implies a1[i] == b1[i] by {
            assert(a[i + 1] == b[i + 1]);
        }
        lemma_splits_at_is_common_prefix_len(a1, b1, (n - 1) as nat);
    }
}

/// Two sequences part ways exactly at their common prefix length.
pub proof fn lemma_common_prefix_len_splits(a: Seq<char>, b: Seq<char>)
    ensures
        splits_at(a, b, common_prefix_len(a, b)),
    decreases a.len(),
{
    if a.len() > 0 && b.len() > 0 && a[0] == b[0] {
        let a1 = a.drop_first();
        let b1 = b.drop_first();
        lemma_common_prefix_len_splits(a1, b1);
        let n = common_prefix_len(a, b);
        assert forall|i: int| 0 <= i < n implies a[i] == b[i] by {
            if i > 0 {
                assert(a1[i - 1] == b1[i - 1]);
            }
        }
        if n < a.len() && n < b.len() {
            assert(a1[n - 1] != b1[n - 1]);
        }
    }
}

/// Counts the leading characters that `a` and `b` have in common.
pub fn common_prefix_length(a: &str, b: &str) -> (n: usize)
    ensures
        n == common_prefix_len(a@, b@),
        splits_at(a@, b@, n as nat),
{
    let limit = a.unicode_len();
    let mut aa = a.chars();
    let mut bb = b.chars();
    let mut n: usize = 0;
    loop
        invariant_except_break
            aa.remaining() == a@.skip(n as int),
            bb.remaining() == b@.skip(n as int),
        invariant
            limit == a@.len(),
            n <= a@.len(),
            n <= b@.len(),
            forall|i: int| 0 <= i < n ==> a@[i] == b@[i],
        ensures
            splits_at(a@, b@, n as nat),
        decreases a@.len() - n,
    {
        match (aa.next(), bb.next()) {
            (Some(x), Some(y)) => {
                if x != y {
                    break;
                }
                n = n + 1;
            },
            _ => {
                break;
            },
        }
    }
    proof {
        lemma_splits_at_is_common_prefix_len(a@, b@, n as nat);
    }
    n
}

} // verus!
