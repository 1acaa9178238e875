use vstd::prelude::*;

verus! {

/// Pre-order comparison of two positions from depth `i` on: the first depth at
/// which they differ decides, and a strict prefix comes before its extensions.
pub open spec fn lt_from(a: Seq<usize>, b: Seq<usize>, i: int) -> bool
    decreases a.len() - i,
{
    if i >= a.len() {
        i < b.len()
    } else if i >= b.len() {
        false
    } else if a[i] != b[i] {
        a[i] < b[i]
    } else {
        lt_from(a, b, i + 1)
    }
}

/// `a` comes strictly before `b` in pre-order.
pub open spec fn pos_lt(a: Seq<usize>, b: Seq<usize>) -> bool {
    lt_from(a, b, 0)
}

/// Where `a` and `b` agree below depth `i`, comparing from depth 0 is the same
/// as comparing from depth `i`.
pub proof fn lemma_lt_from_skip(a: Seq<usize>, b: Seq<usize>, k: int, i: int)
    requires
        0 <= k <= i,
        i <= a.len(),
        i <= b.len(),
        forall|j: int| k <= j < i ==> a[j] == b[j],
    ensures
        lt_from(a, b, k) == lt_from(a, b, i),
    decreases i - k,
{
    if k < i {
        lemma_lt_from_skip(a, b, k + 1, i);
    }
}

/// No position comes before itself.
pub proof fn lemma_lt_irreflexive(a: Seq<usize>, i: int)
    requires
        0 <= i,
    ensures
        !lt_from(a, a, i),
    decreases a.len() - i,
{
    if i < a.len() {
        lemma_lt_irreflexive(a, i + 1);
    }
}

/// The pre-order on positions is transitive.
pub proof fn lemma_lt_transitive(a: Seq<usize>, b: Seq<usize>, c: Seq<usize>, i: int)
    requires
        0 <= i,
        lt_from(a, b, i),
        lt_from(b, c, i),
    ensures
        lt_from(a, c, i),
    decreases a.len() - i,
{
    if i < a.len() && i < b.len() && i < c.len() && a[i] == b[i] && b[i] == c[i] {
        lemma_lt_transitive(a, b, c, i + 1);
    }
}

/// Tells whether position `a` comes strictly before position `b` in pre-order.
pub fn position_lt(a: &Vec<usize>, b: &Vec<usize>) -> (r: bool)
    ensures
        r == pos_lt(a@, b@),
{
    let mut i: usize = 0;
    while i < a.len() && i < b.len()
        invariant
            i <= a.len(),
            i <= b.len(),
            lt_from(a@, b@, 0) == lt_from(a@, b@, i as int),
        decreases a.len() - i,
    {
        if a[i] != b[i] {
            return a[i] < b[i];
        }
        i = i + 1;
    }
    i < b.len()
}

/// Tells whether two positions are the same.
pub fn position_eq(a: &Vec<usize>, b: &Vec<usize>) -> (r: bool)
    ensures
        r == (a@ == b@),
{
    if a.len() != b.len() {
        return false;
    }
    let mut i: usize = 0;
    while i < a.len()
        invariant
            i <= a.len(),
            a.len() == b.len(),
            forall|j: int| 0 <= j < i ==> a@[j] == b@[j],
        decreases a.len() - i,
    {
        if a[i] != b[i] {
            return false;
        }
        i = i + 1;
    }
    assert(a@ =~= b@);
    true
}

} // verus!
