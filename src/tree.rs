use vstd::prelude::*;

use crate::order::{lemma_lt_from_skip, lemma_lt_irreflexive, pos_lt};
use crate::queue::SortedResultsQueueIterator;
use crate::release::{is_ready, key, lemma_min_index_is_least, min_index, release, sorted_output, Entry};
use crate::tracker::{advance, bump_last, dec, initial_levels, unwind};

verus! {

/// A node and its children, earliest sibling first.
pub enum Tree {
    Node(Seq<Tree>),
}

pub open spec fn kids(t: Tree) -> Seq<Tree> {
    match t {
        Tree::Node(cs) => cs,
    }
}

/// The forest has at most `usize::MAX` trees, and in each of the trees
/// `cs[i..]` every node has at most `usize::MAX` children, so that branch
/// counts and sibling indices fit in a `usize`.
pub open spec fn forest_fits(cs: Seq<Tree>, i: int) -> bool
    decreases cs, cs.len() - i,
{
    &&& cs.len() <= usize::MAX
    &&& (0 <= i < cs.len() ==> forest_fits(kids(cs[i]), 0) && forest_fits(cs, i + 1))
}

/// The (position, branch count) of each node of the trees `cs[i..]`, whose
/// parent stands at `p`, in pre-order.
pub open spec fn forest_listing(cs: Seq<Tree>, p: Seq<usize>, i: int) -> Seq<(Seq<usize>, usize)>
    decreases cs, cs.len() - i,
{
    if 0 <= i < cs.len() {
        let q = p.push(i as usize);
        let ks = kids(cs[i]);
        seq![(q, ks.len() as usize)] + forest_listing(ks, q, 0) + forest_listing(cs, p, i + 1)
    } else {
        seq![]
    }
}

/// The pre-order listing of a forest whose top-level nodes stand at
/// positions `[0]`, `[1]`, ...
pub open spec fn preorder(cs: Seq<Tree>) -> Seq<(Seq<usize>, usize)> {
    forest_listing(cs, seq![], 0)
}

/// The tracker, started from `lv`, expects each entry of `todo` in turn.
pub open spec fn accepts(lv: (Seq<usize>, Seq<usize>), todo: Seq<(Seq<usize>, usize)>) -> bool
    decreases todo.len(),
{
    todo.len() == 0 || (lv.0 == todo[0].0 && accepts(advance(lv, todo[0].1), todo.drop_first()))
}

/// The tracker's levels after moving past each entry of `todo` in turn.
pub open spec fn run(lv: (Seq<usize>, Seq<usize>), todo: Seq<(Seq<usize>, usize)>) -> (
    Seq<usize>,
    Seq<usize>,
)
    decreases todo.len(),
{
    if todo.len() == 0 {
        lv
    } else {
        run(advance(lv, todo[0].1), todo.drop_first())
    }
}

/// Each position in `l` comes strictly before every later one.
pub open spec fn strictly_sorted(l: Seq<(Seq<usize>, usize)>) -> bool {
    forall|a: int, b: int| 0 <= a < b < l.len() ==> pos_lt(#[trigger] l[a].0, #[trigger] l[b].0)
}

proof fn lemma_run_concat(
    lv: (Seq<usize>, Seq<usize>),
    a: Seq<(Seq<usize>, usize)>,
    b: Seq<(Seq<usize>, usize)>,
)
    ensures
        accepts(lv, a + b) == (accepts(lv, a) && accepts(run(lv, a), b)),
        run(lv, a + b) == run(run(lv, a), b),
    decreases a.len(),
{
    if a.len() == 0 {
        assert(a + b =~= b);
    } else {
        assert((a + b).drop_first() =~= a.drop_first() + b);
        assert((a + b)[0] == a[0]);
        lemma_run_concat(advance(lv, a[0].1), a.drop_first(), b);
    }
}

proof fn lemma_forest_run(cs: Seq<Tree>, p: Seq<usize>, i: int, r: Seq<usize>, c: usize)
    requires
        0 <= i < cs.len(),
        r.len() == p.len(),
        forest_fits(cs, i),
        p.len() > 0 ==> c == cs.len() - i,
    ensures
        accepts((p.push(i as usize), r.push(c)), forest_listing(cs, p, i)),
        p.len() > 0 ==> run((p.push(i as usize), r.push(c)), forest_listing(cs, p, i))
            == unwind(p.push(cs.len() as usize), r.push(0usize)),
    decreases cs, cs.len() - i,
{
    let n = cs.len();
    let lv = (p.push(i as usize), r.push(c));
    let q = p.push(i as usize);
    let ks = kids(cs[i]);
    let m = ks.len();
    assert(forest_fits(ks, 0));
    assert(m <= usize::MAX);
    let node = seq![(q, m as usize)];
    let sub = forest_listing(ks, q, 0);
    let rest = forest_listing(cs, p, i + 1);
    assert(forest_listing(cs, p, i) == node + sub + rest);
    lemma_run_concat(lv, node + sub, rest);
    lemma_run_concat(lv, node, sub);
    assert(node.drop_first() =~= Seq::<(Seq<usize>, usize)>::empty());
    reveal_with_fuel(accepts, 2);
    reveal_with_fuel(run, 2);
    assert(accepts(lv, node));
    assert(run(lv, node) == advance(lv, m as usize));
    let r1 = r.push(dec(c));
    assert(lv.1.update(lv.1.len() - 1, dec(lv.1.last())) =~= r1);
    assert(bump_last(q) =~= p.push((i + 1) as usize));
    let s = unwind(p.push((i + 1) as usize), r1);
    if m > 0 {
        assert(advance(lv, m as usize) == (q.push(0usize), r1.push(m as usize)));
        lemma_forest_run(ks, q, 0, r1, m as usize);
        let u = (q.push(m as usize), r1.push(0usize));
        assert(u.0.drop_last() =~= q);
        assert(u.1.drop_last() =~= r1);
        assert(unwind(u.0, u.1) == unwind(bump_last(q), r1));
        assert(run(lv, node + sub) == s);
    } else {
        assert(sub =~= Seq::<(Seq<usize>, usize)>::empty());
        assert(node + sub =~= node);
        assert(run(lv, node + sub) == s);
        assert(accepts(run(lv, node), sub));
    }
    if i + 1 < n {
        assert(s == (p.push((i + 1) as usize), r.push(dec(c))));
        lemma_forest_run(cs, p, i + 1, r, dec(c));
    } else {
        assert(rest =~= Seq::<(Seq<usize>, usize)>::empty());
    }
}

/// Started as it is built, the tracker expects the entries of a forest one
/// after the other exactly in pre-order.
pub proof fn lemma_tracker_follows_preorder(cs: Seq<Tree>)
    requires
        forest_fits(cs, 0),
    ensures
        accepts(initial_levels(), preorder(cs)),
{
    let e = Seq::<usize>::empty();
    if cs.len() > 0 {
        lemma_forest_run(cs, e, 0, e, 1usize);
        assert(initial_levels() == (e.push(0usize), e.push(1usize)));
    }
}

/// `x` lies strictly below `p`: it is longer and starts with `p`.
pub open spec fn below(x: Seq<usize>, p: Seq<usize>) -> bool {
    x.len() > p.len() && x.subrange(0, p.len() as int) == p
}

proof fn lemma_below_parent(x: Seq<usize>, q: Seq<usize>, p: Seq<usize>)
    requires
        below(x, q),
        q.len() == p.len() + 1,
        q.subrange(0, p.len() as int) == p,
    ensures
        below(x, p),
        x[p.len() as int] == q[p.len() as int],
{
    assert(x.subrange(0, p.len() as int) =~= x.subrange(0, q.len() as int).subrange(
        0,
        p.len() as int,
    ));
    assert(x.subrange(0, q.len() as int)[p.len() as int] == x[p.len() as int]);
}

proof fn lemma_ancestor_first(q: Seq<usize>, x: Seq<usize>)
    requires
        below(x, q),
    ensures
        pos_lt(q, x),
{
    assert forall|j: int| 0 <= j < q.len() implies q[j] == x[j] by {
        assert(x.subrange(0, q.len() as int)[j] == x[j]);
    }
    lemma_lt_from_skip(q, x, 0, q.len() as int);
}

proof fn lemma_earlier_branch_first(x: Seq<usize>, y: Seq<usize>, p: Seq<usize>)
    requires
        below(x, p),
        below(y, p),
        x[p.len() as int] < y[p.len() as int],
    ensures
        pos_lt(x, y),
{
    assert forall|j: int| 0 <= j < p.len() implies x[j] == y[j] by {
        assert(x.subrange(0, p.len() as int)[j] == x[j]);
        assert(y.subrange(0, p.len() as int)[j] == y[j]);
    }
    lemma_lt_from_skip(x, y, 0, p.len() as int);
}

proof fn lemma_forest_sorted(cs: Seq<Tree>, p: Seq<usize>, i: int)
    requires
        0 <= i,
        forest_fits(cs, i),
    ensures
        forall|k: int|
            0 <= k < forest_listing(cs, p, i).len() ==> below(
                #[trigger] forest_listing(cs, p, i)[k].0,
                p,
            ) && i <= forest_listing(cs, p, i)[k].0[p.len() as int],
        strictly_sorted(forest_listing(cs, p, i)),
    decreases cs, cs.len() - i,
{
    if i < cs.len() {
        let q = p.push(i as usize);
        let ks = kids(cs[i]);
        assert(forest_fits(ks, 0));
        let node = seq![(q, ks.len() as usize)];
        let sub = forest_listing(ks, q, 0);
        let rest = forest_listing(cs, p, i + 1);
        lemma_forest_sorted(ks, q, 0);
        lemma_forest_sorted(cs, p, i + 1);
        let l = node + sub + rest;
        assert(forest_listing(cs, p, i) == l);
        let a2 = 1 + sub.len();
        assert(q.subrange(0, p.len() as int) =~= p);
        assert(below(q, p));
        assert forall|k: int| 0 < k < a2 implies below(#[trigger] l[k].0, p) && l[k].0[p.len() as int]
            == i by {
            assert(l[k] == sub[k - 1]);
            lemma_below_parent(sub[k - 1].0, q, p);
        }
        assert forall|k: int| a2 <= k < l.len() implies below(#[trigger] l[k].0, p) && i + 1
            <= l[k].0[p.len() as int] by {
            assert(l[k] == rest[k - a2]);
        }
        assert forall|k: int| 0 <= k < l.len() implies below(#[trigger] l[k].0, p) && i
            <= l[k].0[p.len() as int] by {
            if k == 0 {
                assert(l[0] == node[0]);
            }
        }
        assert forall|a: int, b: int| 0 <= a < b < l.len() implies pos_lt(
            #[trigger] l[a].0,
            #[trigger] l[b].0,
        ) by {
            if b < a2 {
                assert(l[b] == sub[b - 1]);
                if a == 0 {
                    assert(l[0] == node[0]);
                    lemma_ancestor_first(q, sub[b - 1].0);
                } else {
                    assert(l[a] == sub[a - 1]);
                }
            } else if a < a2 {
                if a == 0 {
                    assert(l[0] == node[0]);
                }
                assert(l[a].0[p.len() as int] == i);
                lemma_earlier_branch_first(l[a].0, l[b].0, p);
            } else {
                assert(l[a] == rest[a - a2]);
                assert(l[b] == rest[b - a2]);
            }
        }
    }
}

/// The pre-order listing of a forest is strictly increasing in position
/// order, and every position in it is non-empty.
pub proof fn lemma_preorder_sorted(cs: Seq<Tree>)
    requires
        forest_fits(cs, 0),
    ensures
        strictly_sorted(preorder(cs)),
        forall|k: int| 0 <= k < preorder(cs).len() ==> (#[trigger] preorder(cs)[k]).0.len() > 0,
{
    lemma_forest_sorted(cs, seq![], 0);
}

/// The position and branch count of each entry.
pub open spec fn keys<P>(s: Seq<Entry<P>>) -> Seq<(Seq<usize>, usize)> {
    s.map_values(|e: Entry<P>| key(e))
}

proof fn lemma_output_follows<P>(
    buf: Seq<Entry<P>>,
    lv: (Seq<usize>, Seq<usize>),
    rest: Seq<Entry<P>>,
    todo: Seq<(Seq<usize>, usize)>,
)
    requires
        accepts(lv, todo),
        strictly_sorted(todo),
        forall|k: int| 0 <= k < todo.len() ==> (#[trigger] todo[k]).0.len() > 0,
        keys(buf + rest).to_multiset() == todo.to_multiset(),
    ensures
        keys(sorted_output(buf, lv, rest)) == todo,
    decreases 2 * rest.len() + buf.len(),
{
    broadcast use vstd::seq_lib::group_to_multiset_ensures;

    let all = keys(buf + rest);
    if todo.len() == 0 {
        assert(all.to_multiset().len() == todo.to_multiset().len());
        assert(all.len() == 0);
        assert(buf.len() == 0 && rest.len() == 0);
        assert(sorted_output(buf, lv, rest) == Seq::<Entry<P>>::empty());
        assert(keys(Seq::<Entry<P>>::empty()) =~= todo);
        return;
    }
    assert(lv.0 == todo[0].0);
    assert(todo[0].0.len() > 0);
    let ready = is_ready(buf, lv);
    if buf.len() > 0 {
        let m = min_index(buf);
        lemma_min_index_is_least(buf);
        let kb = key(buf[m]);
        assert(all[m] == kb);
        assert(all.contains(kb));
        assert(all.to_multiset().count(kb) > 0);
        assert(todo.to_multiset().count(kb) > 0);
        assert(todo.contains(kb));
        let j = choose|j: int| 0 <= j < todo.len() && todo[j] == kb;
        if ready {
            if j > 0 {
                assert(pos_lt(todo[0].0, todo[j].0));
                lemma_lt_irreflexive(todo[0].0, 0);
            }
            let (b2, l2) = release(buf, lv);
            assert((buf + rest).remove(m) =~= b2 + rest);
            assert(keys(b2 + rest) =~= all.remove(m));
            assert(todo.drop_first() =~= todo.remove(0));
            assert(accepts(l2, todo.drop_first()));
            assert forall|a: int, b: int| 0 <= a < b < todo.drop_first().len() implies pos_lt(
                #[trigger] todo.drop_first()[a].0,
                #[trigger] todo.drop_first()[b].0,
            ) by {
                assert(pos_lt(todo[a + 1].0, todo[b + 1].0));
            }
            assert forall|k: int| 0 <= k < todo.drop_first().len() implies (
            #[trigger] todo.drop_first()[k]).0.len() > 0 by {
                assert(todo[k + 1].0.len() > 0);
            }
            lemma_output_follows(b2, l2, rest, todo.drop_first());
            assert(keys(sorted_output(buf, lv, rest)) =~= seq![kb] + keys(
                sorted_output(b2, l2, rest),
            ));
            assert(todo =~= seq![todo[0]] + todo.drop_first());
            return;
        }
        if rest.len() == 0 {
            assert(buf + rest =~= buf);
            assert(todo.contains(todo[0]));
            assert(todo.to_multiset().count(todo[0]) > 0);
            assert(all.to_multiset().count(todo[0]) > 0);
            assert(all.contains(todo[0]));
            let i = choose|i: int| 0 <= i < all.len() && all[i] == todo[0];
            assert(buf[i].position@ == lv.0);
            assert(!pos_lt(buf[i].position@, buf[m].position@));
            assert(j != 0);
            assert(pos_lt(todo[0].0, todo[j].0));
            assert(false);
        }
    } else {
        assert(todo.contains(todo[0]));
        assert(all.len() > 0);
    }
    assert(!ready);
    assert(rest.len() > 0);
    assert(buf.push(rest[0]) + rest.drop_first() =~= buf + rest);
    lemma_output_follows(buf.push(rest[0]), lv, rest.drop_first(), todo);
}

/// However the entries of a forest arrive (any order of exactly its
/// positions and branch counts), the sorted iterator hands them out in the
/// forest's pre-order.
pub proof fn law_sorted_output_is_preorder<P>(cs: Seq<Tree>, arrivals: Seq<Entry<P>>)
    requires
        forest_fits(cs, 0),
        keys(arrivals).to_multiset() == preorder(cs).to_multiset(),
    ensures
        keys(sorted_output(Seq::<Entry<P>>::empty(), initial_levels(), arrivals)) == preorder(cs),
{
    lemma_tracker_follows_preorder(cs);
    lemma_preorder_sorted(cs);
    assert(Seq::<Entry<P>>::empty() + arrivals =~= arrivals);
    lemma_output_follows(Seq::<Entry<P>>::empty(), initial_levels(), arrivals, preorder(cs));
}

/// However the entries of a forest arrive, the sorted iterator hands out
/// exactly one entry per node and then ends.
pub proof fn law_sorted_output_ends_after_every_node<P>(cs: Seq<Tree>, arrivals: Seq<Entry<P>>)
    requires
        forest_fits(cs, 0),
        keys(arrivals).to_multiset() == preorder(cs).to_multiset(),
    ensures
        sorted_output(Seq::<Entry<P>>::empty(), initial_levels(), arrivals).len() == preorder(
            cs,
        ).len(),
{
    law_sorted_output_is_preorder(cs, arrivals);
}

/// A sorted iterator that is handed the entries of a forest in any order
/// (those that arrived, then `rest`) has at every step handed out a prefix of
/// the forest's pre-order listing, and all of it once the producers are gone
/// and nothing is left buffered.
pub proof fn law_iterator_follows_preorder<P>(
    it: &SortedResultsQueueIterator<P>,
    cs: Seq<Tree>,
    rest: Seq<Entry<P>>,
)
    requires
        it.wf(),
        it.is_closed() ==> rest.len() == 0,
        forest_fits(cs, 0),
        keys(it.arrived() + rest).to_multiset() == preorder(cs).to_multiset(),
    ensures
        it.released().len() <= preorder(cs).len(),
        keys(it.released()) == preorder(cs).subrange(0, it.released().len() as int),
        it.is_closed() && it.buffer().len() == 0 ==> keys(it.released()) == preorder(cs),
{
    it.lemma_released_then_rest(rest);
    law_sorted_output_is_preorder(cs, it.arrived() + rest);
    let x = sorted_output(it.buffer(), it.levels(), rest);
    assert(keys(it.released() + x) =~= keys(it.released()) + keys(x));
    assert(keys(it.released()) =~= (keys(it.released()) + keys(x)).subrange(
        0,
        it.released().len() as int,
    ));
    if it.is_closed() && it.buffer().len() == 0 {
        assert(x =~= Seq::<Entry<P>>::empty());
        assert(keys(it.released()) + keys(x) =~= keys(it.released()));
    }
}

} // verus!
