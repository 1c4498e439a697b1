use vstd::prelude::*;
use crate::graph::{live_at, node_at, GView};

verus! {

/// A nonempty walk through the graph along input edges: each step goes from
/// a node to one of its explicit inputs.
pub open spec fn is_path<C>(g: GView<C>, p: Seq<usize>) -> bool {
    &&& p.len() >= 1
    &&& forall|k: int| 0 <= k < p.len() ==> live_at(g, #[trigger] p[k] as int)
    &&& forall|k: int|
        0 <= k < p.len() - 1 ==> node_at(g, #[trigger] p[k] as int).inputs.contains(p[k + 1])
}

/// Node `to` lies in the transitive input closure of node `from` (every
/// node reaches itself).
pub open spec fn reaches<C>(g: GView<C>, from: usize, to: usize) -> bool {
    exists|p: Seq<usize>| is_path(g, p) && p.first() == from && p.last() == to
}

/// Node `i` lies on a dependency cycle.
pub open spec fn on_cycle<C>(g: GView<C>, i: usize) -> bool {
    exists|p: Seq<usize>| is_path(g, p) && p.len() >= 2 && p.first() == i && p.last() == i
}

/// Some node in the transitive input closure of `r` lies on a cycle.
pub open spec fn has_cycle_from<C>(g: GView<C>, r: usize) -> bool {
    exists|i: usize| reaches(g, r, i) && on_cycle(g, i)
}

pub proof fn lemma_reaches_self<C>(g: GView<C>, i: usize)
    requires
        live_at(g, i as int),
    ensures
        reaches(g, i, i),
{
    let p = seq![i];
    assert(is_path(g, p));
    assert(p.first() == i && p.last() == i);
}

/// One input edge is a two-step path.
pub proof fn lemma_reaches_edge<C>(g: GView<C>, a: usize, b: usize)
    requires
        live_at(g, a as int),
        live_at(g, b as int),
        node_at(g, a as int).inputs.contains(b),
    ensures
        reaches(g, a, b),
{
    let p = seq![a, b];
    assert(p.first() == a && p.last() == b);
    assert(is_path(g, p));
}

/// Walks compose.
pub proof fn lemma_reaches_trans<C>(g: GView<C>, a: usize, b: usize, c: usize)
    requires
        reaches(g, a, b),
        reaches(g, b, c),
    ensures
        reaches(g, a, c),
{
    let p1 = choose|p: Seq<usize>| is_path(g, p) && p.first() == a && p.last() == b;
    let p2 = choose|p: Seq<usize>| is_path(g, p) && p.first() == b && p.last() == c;
    let q = p1 + p2.drop_first();
    assert(q.len() == p1.len() + p2.len() - 1);
    assert forall|k: int| 0 <= k < q.len() implies live_at(g, #[trigger] q[k] as int) by {
        if k < p1.len() {
            assert(q[k] == p1[k]);
        } else {
            assert(q[k] == p2[k - p1.len() + 1]);
        }
    }
    assert forall|k: int| 0 <= k < q.len() - 1 implies node_at(
        g,
        #[trigger] q[k] as int,
    ).inputs.contains(q[k + 1]) by {
        if k < p1.len() - 1 {
            assert(q[k] == p1[k] && q[k + 1] == p1[k + 1]);
        } else if k == p1.len() - 1 {
            assert(q[k] == p1.last());
            assert(p1.last() == b && p2.first() == b);
            assert(q[k] == p2[0] && q[k + 1] == p2[1]);
        } else {
            assert(q[k] == p2[k - p1.len() + 1] && q[k + 1] == p2[k - p1.len() + 2]);
        }
    }
    assert(is_path(g, q));
    assert(q.first() == a && q.last() == c);
}

/// An order is input-closed when every listed node is live and each of its
/// explicit inputs appears strictly earlier in the list.
pub open spec fn ordered_prefix<C>(g: GView<C>, ord: Seq<usize>) -> bool {
    forall|k: int| #![trigger ord[k]]
        0 <= k < ord.len() ==> live_at(g, ord[k] as int) && (forall|j: int|
            0 <= j < node_at(g, ord[k] as int).inputs.len() ==> ord.take(k).contains(
                #[trigger] node_at(g, ord[k] as int).inputs[j],
            ))
}

/// Whatever an input-closed order contains, it contains the node's whole
/// transitive input closure.
pub proof fn lemma_closed_contains_reachable<C>(g: GView<C>, ord: Seq<usize>, r: usize, t: usize)
    requires
        ordered_prefix(g, ord),
        ord.contains(r),
        reaches(g, r, t),
    ensures
        ord.contains(t),
{
    let p = choose|p: Seq<usize>| is_path(g, p) && p.first() == r && p.last() == t;
    lemma_path_stays_inside(g, ord, p);
}

/// Every node of a walk that starts inside an input-closed order stays
/// inside it.
proof fn lemma_path_stays_inside<C>(g: GView<C>, ord: Seq<usize>, p: Seq<usize>)
    requires
        ordered_prefix(g, ord),
        is_path(g, p),
        ord.contains(p.first()),
    ensures
        forall|k: int| 0 <= k < p.len() ==> ord.contains(#[trigger] p[k]),
    decreases p.len(),
{
    if p.len() == 1 {
    } else {
        let k0 = choose|k0: int| 0 <= k0 < ord.len() && ord[k0] == p.first();
        let e = p[1];
        assert(node_at(g, p[0] as int).inputs.contains(e));
        let j = choose|j: int|
            0 <= j < node_at(g, ord[k0] as int).inputs.len() && node_at(
                g,
                ord[k0] as int,
            ).inputs[j] == e;
        assert(ord.take(k0).contains(e));
        let m = choose|m: int| 0 <= m < k0 && ord.take(k0)[m] == e;
        assert(ord[m] == e);
        assert(ord.contains(e));
        let q = p.drop_first();
        assert(q.first() == e);
        assert forall|k: int| 0 <= k < q.len() implies live_at(g, #[trigger] q[k] as int) by {
            assert(q[k] == p[k + 1]);
        }
        assert forall|k: int| 0 <= k < q.len() - 1 implies node_at(
            g,
            #[trigger] q[k] as int,
        ).inputs.contains(q[k + 1]) by {
            assert(q[k] == p[k + 1] && q[k + 1] == p[k + 2]);
        }
        assert(is_path(g, q));
        lemma_path_stays_inside(g, ord, q);
        assert forall|k: int| 0 <= k < p.len() implies ord.contains(#[trigger] p[k]) by {
            if k == 0 {
            } else {
                assert(q[k - 1] == p[k]);
                assert(ord.contains(q[k - 1]));
            }
        }
    }
}

/// In a duplicate-free input-closed order, positions strictly decrease
/// along every walk: the position of the walk's end is no greater than that
/// of its start, and strictly smaller when the walk makes at least one step.
proof fn lemma_path_position_decreases<C>(g: GView<C>, ord: Seq<usize>, p: Seq<usize>)
    requires
        ordered_prefix(g, ord),
        ord.no_duplicates(),
        is_path(g, p),
        ord.contains(p.first()),
    ensures
        ord.contains(p.last()),
        ord.index_of(p.last()) <= ord.index_of(p.first()),
        p.len() >= 2 ==> ord.index_of(p.last()) < ord.index_of(p.first()),
    decreases p.len(),
{
    lemma_path_stays_inside(g, ord, p);
    if p.len() == 1 {
    } else {
        let k0 = ord.index_of(p.first());
        assert(ord[k0] == p.first());
        let e = p[1];
        assert(node_at(g, ord[k0] as int).inputs.contains(e));
        let j = choose|j: int|
            0 <= j < node_at(g, ord[k0] as int).inputs.len() && node_at(
                g,
                ord[k0] as int,
            ).inputs[j] == e;
        assert(ord.take(k0).contains(e));
        let m = choose|m: int| 0 <= m < k0 && ord.take(k0)[m] == e;
        assert(ord[m] == e);
        assert(ord.contains(e));
        let me = ord.index_of(e);
        assert(ord[me] == e);
        if me != m {
            assert(ord[me] == ord[m]);
            assert(false);
        }
        assert(me < k0);
        let q = p.drop_first();
        assert(q.first() == e);
        assert forall|k: int| 0 <= k < q.len() implies live_at(g, #[trigger] q[k] as int) by {
            assert(q[k] == p[k + 1]);
        }
        assert forall|k: int| 0 <= k < q.len() - 1 implies node_at(
            g,
            #[trigger] q[k] as int,
        ).inputs.contains(q[k + 1]) by {
            assert(q[k] == p[k + 1] && q[k + 1] == p[k + 2]);
        }
        assert(is_path(g, q));
        lemma_path_position_decreases(g, ord, q);
        assert(q.last() == p.last());
    }
}

/// A duplicate-free input-closed order witnesses that nothing it contains
/// lies on a cycle.
pub proof fn lemma_ordered_excludes_cycle<C>(g: GView<C>, ord: Seq<usize>, i: usize)
    requires
        ordered_prefix(g, ord),
        ord.no_duplicates(),
        ord.contains(i),
    ensures
        !on_cycle(g, i),
{
    if on_cycle(g, i) {
        let p = choose|p: Seq<usize>|
            is_path(g, p) && p.len() >= 2 && p.first() == i && p.last() == i;
        lemma_path_position_decreases(g, ord, p);
    }
}

} // verus!
