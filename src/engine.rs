//! The search engine: one tree, grown by selection, expansion, evaluation and
//! backpropagation.
//!
//! Evaluation is done outside: `Engine::request` selects a leaf and hands
//! back the position to evaluate, and `Engine::supply` takes the network's
//! answer, expands the new node and backpropagates.

use vstd::prelude::*;

use crate::arena::{Handle, NULL_RAW};
use crate::game::{is_legal, GameImpl, MovePolicyIndex, Player};
use crate::node::{chain, links_ascend, slot_of, walk_children, Node, Terminal, PRIOR_ONE, VALUE_ONE};
use crate::params::Params;
use crate::timemgmt::Limits;

verus! {

broadcast use crate::arena::Handle::lemma_raw;

/// The structural fields of two nodes agree (statistics and the terminal
/// flag may differ).
pub open spec fn links_eq<G: GameImpl>(a: Node<G>, b: Node<G>) -> bool {
    &&& a.spec_parent() == b.spec_parent()
    &&& a.spec_child() == b.spec_child()
    &&& a.spec_sibling() == b.spec_sibling()
    &&& a.spec_edge_index() == b.spec_edge_index()
    &&& a.spec_edges() == b.spec_edges()
}

/// The edges of a node: present, with priors in `[0, PRIOR_ONE]`, and moves
/// that have distinct policy slots.
pub open spec fn edges_ok<G: GameImpl>(n: Node<G>) -> bool {
    &&& n.spec_edges() is Some
    &&& forall|e: int|
        0 <= e < n.spec_edges()->0.len() ==> {
            &&& (#[trigger] n.spec_edges()->0[e]).spec_probability() <= PRIOR_ONE
            &&& n.spec_edges()->0[e].spec_move().spec_policy_index() < G::spec_policy_dim()
        }
    &&& forall|a: int, b: int|
        0 <= a < n.spec_edges()->0.len() && 0 <= b < n.spec_edges()->0.len() && a != b
            ==> (#[trigger] n.spec_edges()->0[a]).spec_move().spec_policy_index() != (
        #[trigger] n.spec_edges()->0[b]).spec_move().spec_policy_index()
}

/// Node `i` hangs off an earlier node, through one of that node's edges.
pub open spec fn parent_ok<G: GameImpl>(t: Seq<Node<G>>, i: int) -> bool {
    let p = t[i].spec_parent();
    &&& !p.spec_is_null()
    &&& p.spec_raw() < i
    &&& t[p.spec_raw()].spec_edges() is Some
    &&& 0 <= t[i].spec_edge_index() < t[p.spec_raw()].spec_edges()->0.len()
}

/// `kids[i]` lists, in ascending order, exactly the nodes whose parent is
/// `i`; the first-child and sibling links of the tree thread through it in
/// that order; and no two of those nodes came from the same edge.
pub open spec fn kids_ok<G: GameImpl>(t: Seq<Node<G>>, kids: Seq<Seq<int>>, i: int) -> bool {
    child_list_ok(t, kids[i], i)
}

/// Node `k` hangs directly off node `i`.
pub open spec fn is_child_of<G: GameImpl>(t: Seq<Node<G>>, k: int, i: int) -> bool {
    i < k < t.len() && t[k].spec_parent().spec_raw() == i
}

/// Child `j` of the list `ks` precedes child `j + 1`, and links to it.
pub open spec fn sib_step<G: GameImpl>(t: Seq<Node<G>>, ks: Seq<int>, j: int) -> bool {
    ks[j] < ks[j + 1] && t[ks[j]].spec_sibling().spec_raw() == ks[j + 1]
}

/// `ks` lists, in ascending order, exactly the nodes whose parent is `i`,
/// threaded by the first-child and sibling links, from distinct edges.
pub open spec fn child_list_ok<G: GameImpl>(t: Seq<Node<G>>, ks: Seq<int>, i: int) -> bool {
    &&& (ks.len() == 0 <==> t[i].spec_child().spec_is_null())
    &&& (ks.len() > 0 ==> t[i].spec_child().spec_raw() == ks[0])
    &&& forall|j: int|
        0 <= j < ks.len() ==> i < #[trigger] ks[j] < t.len() && t[ks[j]].spec_parent().spec_raw() == i
    &&& forall|j: int|
        0 <= j < ks.len() - 1 ==> #[trigger] sib_step(t, ks, j)
    &&& (ks.len() > 0 ==> t[ks.last()].spec_sibling().spec_is_null())
    &&& forall|k: int| #[trigger] is_child_of(t, k, i) ==> ks.contains(k)
    &&& forall|a: int, b: int|
        0 <= a < ks.len() && 0 <= b < ks.len() && a != b ==> t[#[trigger] ks[a]].spec_edge_index()
            != t[#[trigger] ks[b]].spec_edge_index()
}

/// The position of node `i` is its parent's after the move of its edge.
pub open spec fn position_step<G: GameImpl>(t: Seq<Node<G>>, ps: Seq<G>, i: int) -> bool {
    let p = t[i].spec_parent().spec_raw();
    ps[i] == ps[p].spec_after(t[p].spec_edges()->0[t[i].spec_edge_index()].spec_move())
}

/// The edges of node `i` are the legal moves of its position, in order, and
/// a node that cannot branch stands where the game is over.
pub open spec fn position_fits<G: GameImpl>(t: Seq<Node<G>>, ps: Seq<G>, i: int) -> bool {
    &&& t[i].spec_edges()->0.len() == ps[i].spec_legal_moves().len()
    &&& forall|e: int|
        0 <= e < ps[i].spec_legal_moves().len() ==> (#[trigger] t[i].spec_edges()->0[e]).spec_move()
            == ps[i].spec_legal_moves()[e]
    &&& !can_branch(t[i]) ==> ps[i].spec_outcome() is Some
}

/// `ps` gives the position of each node: the root's is `root`, and each
/// other node's follows from its parent's.
pub open spec fn positions_ok<G: GameImpl>(t: Seq<Node<G>>, ps: Seq<G>, root: G) -> bool {
    &&& ps.len() == t.len()
    &&& (t.len() > 0 ==> ps[0] == root)
    &&& forall|i: int| 0 < i < t.len() ==> #[trigger] position_step(t, ps, i)
    &&& forall|i: int| 0 <= i < t.len() ==> #[trigger] position_fits(t, ps, i)
}

/// Positions stay attached to the nodes when only statistics and terminal
/// flags change, and a node that stops branching stands where the game is over.
proof fn lemma_positions_frame<G: GameImpl>(
    t1: Seq<Node<G>>,
    t2: Seq<Node<G>>,
    kids: Seq<Seq<int>>,
    ps: Seq<G>,
    root: G,
)
    requires
        links_wf(t1, kids),
        positions_ok(t1, ps, root),
        t1.len() == t2.len(),
        forall|i: int| 0 <= i < t1.len() ==> #[trigger] links_eq(t1[i], t2[i]),
        forall|i: int|
            0 <= i < t1.len() ==> #[trigger] can_branch(t2[i]) || !can_branch(t1[i]) || ps[i].spec_outcome() is Some,
    ensures
        positions_ok(t2, ps, root),
{
    assert forall|i: int| 0 < i < t2.len() implies #[trigger] position_step(t2, ps, i) by {
        assert(position_step(t1, ps, i));
        assert(parent_ok(t1, i));
        assert(links_eq(t1[i], t2[i]));
        let p = t1[i].spec_parent().spec_raw();
        assert(links_eq(t1[p], t2[p]));
    }
    assert forall|i: int| 0 <= i < t2.len() implies #[trigger] position_fits(t2, ps, i) by {
        assert(position_fits(t1, ps, i));
        assert(links_eq(t1[i], t2[i]));
        assert(can_branch(t2[i]) || !can_branch(t1[i]) || ps[i].spec_outcome() is Some);
    }
}

/// The statistics of node `i`: visited, no more than the root, and a value
/// that is a mean in `[0, 1]`.
pub open spec fn stats_ok<G: GameImpl>(t: Seq<Node<G>>, i: int) -> bool {
    &&& 1 <= t[i].spec_visits() <= t[0].spec_visits()
    &&& 0 <= t[i].spec_wl() <= t[i].spec_visits() * VALUE_ONE
}

/// The shape of the tree: the root first, every other node after its
/// parent, every node expanded, and the child lists described by `kids`.
pub open spec fn links_wf<G: GameImpl>(t: Seq<Node<G>>, kids: Seq<Seq<int>>) -> bool {
    &&& t.len() < NULL_RAW
    &&& kids.len() == t.len()
    &&& (t.len() > 0 ==> t[0].spec_parent().spec_is_null() && t[0].spec_sibling().spec_is_null())
    &&& forall|i: int| 0 <= i < t.len() ==> #[trigger] edges_ok(t[i])
    &&& forall|i: int| 0 < i < t.len() ==> #[trigger] parent_ok(t, i)
    &&& forall|i: int| 0 <= i < t.len() ==> #[trigger] kids_ok(t, kids, i)
}

/// The visits of the nodes `ks`, summed.
pub open spec fn kid_visit_sum<G: GameImpl>(t: Seq<Node<G>>, ks: Seq<int>) -> int
    decreases ks.len(),
{
    if ks.len() == 0 {
        0
    } else {
        kid_visit_sum(t, ks.drop_last()) + t[ks.last()].spec_visits()
    }
}

/// Whether node `m` can grow children: its game goes on and it has moves.
pub open spec fn can_branch<G: GameImpl>(n: Node<G>) -> bool {
    n.spec_terminal() != Terminal::Terminal && n.spec_edges()->0.len() > 0
}

/// A node that can branch took one visit itself (its own evaluation) and
/// passed every other on to its children; `deficit` visits are still on
/// their way up to it.
pub open spec fn balanced<G: GameImpl>(t: Seq<Node<G>>, kids: Seq<Seq<int>>, m: int, deficit: int) -> bool {
    can_branch(t[m]) ==> t[m].spec_visits() + deficit == 1 + kid_visit_sum(t, kids[m])
}

/// One visit is owed to node `x` alone.
pub open spec fn owed(m: int, x: int) -> int {
    if m == x {
        1
    } else {
        0
    }
}

/// One visit is owed to the parent of node `x`, if `x` is not the root.
pub open spec fn owed_up<G: GameImpl>(t: Seq<Node<G>>, m: int, x: int) -> int {
    if x > 0 && m == t[x].spec_parent().spec_raw() {
        1
    } else {
        0
    }
}

/// A node that cannot branch has no children.
pub open spec fn leaf_ok<G: GameImpl>(t: Seq<Node<G>>, kids: Seq<Seq<int>>, m: int) -> bool {
    !can_branch(t[m]) ==> kids[m].len() == 0
}

/// A well-formed tree: its shape and every node's statistics.
pub open spec fn tree_wf<G: GameImpl>(t: Seq<Node<G>>, kids: Seq<Seq<int>>) -> bool {
    &&& links_wf(t, kids)
    &&& forall|i: int| 0 <= i < t.len() ==> #[trigger] stats_ok(t, i)
    &&& forall|i: int| 0 <= i < t.len() ==> #[trigger] balanced(t, kids, i, 0)
    &&& forall|i: int| 0 <= i < t.len() ==> #[trigger] leaf_ok(t, kids, i)
}

proof fn lemma_sum_frame<G: GameImpl>(t1: Seq<Node<G>>, t2: Seq<Node<G>>, ks: Seq<int>)
    requires
        forall|j: int| 0 <= j < ks.len() ==> (#[trigger] t1[ks[j]]).spec_visits() == t2[ks[j]].spec_visits(),
    ensures
        kid_visit_sum(t1, ks) == kid_visit_sum(t2, ks),
    decreases ks.len(),
{
    if ks.len() > 0 {
        let d = ks.drop_last();
        assert forall|j: int| 0 <= j < d.len() implies (#[trigger] t1[d[j]]).spec_visits() == t2[d[j]].spec_visits() by {
            assert(d[j] == ks[j]);
            assert(t1[ks[j]].spec_visits() == t2[ks[j]].spec_visits());
        }
        lemma_sum_frame(t1, t2, d);
        assert(t1[ks[ks.len() - 1]].spec_visits() == t2[ks[ks.len() - 1]].spec_visits());
    }
}

proof fn lemma_sum_bump<G: GameImpl>(t1: Seq<Node<G>>, t2: Seq<Node<G>>, ks: Seq<int>, x: int)
    requires
        ks.no_duplicates(),
        forall|j: int|
            0 <= j < ks.len() && ks[j] != x ==> (#[trigger] t1[ks[j]]).spec_visits() == t2[ks[j]].spec_visits(),
        t2[x].spec_visits() == t1[x].spec_visits() + 1,
    ensures
        kid_visit_sum(t2, ks) == kid_visit_sum(t1, ks) + if ks.contains(x) {
            1int
        } else {
            0int
        },
    decreases ks.len(),
{
    if ks.len() > 0 {
        let d = ks.drop_last();
        assert forall|a: int, b: int| 0 <= a < d.len() && 0 <= b < d.len() && a != b implies d[a] != d[b] by {
            assert(d[a] == ks[a] && d[b] == ks[b]);
        }
        assert forall|j: int| 0 <= j < d.len() && d[j] != x implies (#[trigger] t1[d[j]]).spec_visits() == t2[d[j]].spec_visits() by {
            assert(d[j] == ks[j]);
            assert(t1[ks[j]].spec_visits() == t2[ks[j]].spec_visits());
        }
        lemma_sum_bump(t1, t2, d, x);
        let l = ks.len() - 1;
        if ks[l] == x {
            assert(ks.contains(x));
            assert(!d.contains(x)) by {
                if d.contains(x) {
                    let j = choose|j: int| 0 <= j < d.len() && d[j] == x;
                    assert(ks[j] == ks[l]);
                }
            }
        } else {
            assert(t1[ks[l]].spec_visits() == t2[ks[l]].spec_visits());
            assert(ks.contains(x) == d.contains(x)) by {
                if ks.contains(x) {
                    let j = choose|j: int| 0 <= j < ks.len() && ks[j] == x;
                    assert(d[j] == x);
                }
                if d.contains(x) {
                    let j = choose|j: int| 0 <= j < d.len() && d[j] == x;
                    assert(ks[j] == x);
                }
            }
        }
    }
}

proof fn lemma_sum_positive<G: GameImpl>(t: Seq<Node<G>>, ks: Seq<int>)
    requires
        forall|j: int| 0 <= j < ks.len() ==> (#[trigger] t[ks[j]]).spec_visits() >= 1,
    ensures
        kid_visit_sum(t, ks) >= ks.len(),
    decreases ks.len(),
{
    if ks.len() > 0 {
        let d = ks.drop_last();
        assert forall|j: int| 0 <= j < d.len() implies (#[trigger] t[d[j]]).spec_visits() >= 1 by {
            assert(d[j] == ks[j]);
            assert(t[ks[j]].spec_visits() >= 1);
        }
        lemma_sum_positive(t, d);
        assert(t[ks[ks.len() - 1]].spec_visits() >= 1);
    }
}

/// The children of a node are listed without repetition.
proof fn lemma_kids_distinct<G: GameImpl>(t: Seq<Node<G>>, kids: Seq<Seq<int>>, m: int)
    requires
        links_wf(t, kids),
        0 <= m < t.len(),
    ensures
        kids[m].no_duplicates(),
{
    assert(kids_ok(t, kids, m));
    let ks = kids[m];
    assert forall|a: int, b: int| 0 <= a < ks.len() && 0 <= b < ks.len() && a != b implies ks[a] != ks[b] by {
        if a < b {
            lemma_ascending(t, ks, m, a, b);
        } else {
            lemma_ascending(t, ks, m, b, a);
        }
    }
}

/// Adding a visit to node `x` adds one to the child sum of its parent and
/// leaves every other child sum as it was; so a visit owed to `x` becomes a
/// visit owed to its parent.
proof fn lemma_bump_balance<G: GameImpl>(
    t0: Seq<Node<G>>,
    t1: Seq<Node<G>>,
    t2: Seq<Node<G>>,
    kids: Seq<Seq<int>>,
    x: int,
)
    requires
        links_wf(t0, kids),
        t1.len() == t0.len(),
        t2.len() == t0.len(),
        0 <= x < t0.len(),
        forall|i: int| 0 <= i < t0.len() && i != x ==> #[trigger] t2[i].spec_visits() == t1[i].spec_visits(),
        t2[x].spec_visits() == t1[x].spec_visits() + 1,
        forall|i: int| 0 <= i < t0.len() ==> #[trigger] can_branch(t2[i]) == can_branch(t1[i]),
        forall|m: int| 0 <= m < t0.len() ==> #[trigger] balanced(t1, kids, m, owed(m, x)),
    ensures
        forall|m: int|
            0 <= m < t0.len() ==> #[trigger] balanced(t2, kids, m, owed_up(t0, m, x)),
{
    assert forall|m: int| 0 <= m < t0.len() implies #[trigger] balanced(t2, kids, m, owed_up(t0, m, x)) by {
        lemma_kids_distinct(t0, kids, m);
        let ks = kids[m];
        assert forall|j: int| 0 <= j < ks.len() && ks[j] != x implies (#[trigger] t1[ks[j]]).spec_visits()
            == t2[ks[j]].spec_visits() by {
            assert(kids_ok(t0, kids, m));
            assert(t2[ks[j]].spec_visits() == t1[ks[j]].spec_visits());
        }
        lemma_sum_bump(t1, t2, ks, x);
        if x > 0 {
            lemma_kid_of(t0, kids, m, x);
        } else {
            assert(kids_ok(t0, kids, m));
            assert(!ks.contains(x)) by {
                if ks.contains(x) {
                    let j = choose|j: int| 0 <= j < ks.len() && ks[j] == x;
                    assert(ks[j] > m);
                }
            }
        }
        assert(balanced(t1, kids, m, owed(m, x)));
        assert(can_branch(t2[m]) == can_branch(t1[m]));
        if m != x {
            assert(t2[m].spec_visits() == t1[m].spec_visits());
        }
        assert(!ks.contains(m)) by {
            assert(kids_ok(t0, kids, m));
            if ks.contains(m) {
                let j = choose|j: int| 0 <= j < ks.len() && ks[j] == m;
                assert(ks[j] > m);
            }
        }
    }
}

/// Node `x > 0` is among the children of `m` exactly when `m` is its parent.
proof fn lemma_kid_of<G: GameImpl>(t: Seq<Node<G>>, kids: Seq<Seq<int>>, m: int, x: int)
    requires
        links_wf(t, kids),
        0 <= m < t.len(),
        0 < x < t.len(),
    ensures
        kids[m].contains(x) <==> t[x].spec_parent().spec_raw() == m,
{
    assert(kids_ok(t, kids, m));
    assert(parent_ok(t, x));
    if kids[m].contains(x) {
        let j = choose|j: int| 0 <= j < kids[m].len() && kids[m][j] == x;
        assert(kids[m][j] == x);
    }
    if t[x].spec_parent().spec_raw() == m {
        assert(is_child_of(t, x, m));
    }
}

proof fn lemma_kids_frame<G: GameImpl>(t1: Seq<Node<G>>, t2: Seq<Node<G>>, kids: Seq<Seq<int>>, i: int)
    requires
        0 <= i < t1.len(),
        kids_ok(t1, kids, i),
        t1.len() == t2.len(),
        forall|n: int| 0 <= n < t1.len() ==> #[trigger] links_eq(t1[n], t2[n]),
    ensures
        kids_ok(t2, kids, i),
{
    let ks = kids[i];
    assert(links_eq(t1[i], t2[i]));
    assert(child_list_ok(t1, ks, i));
    lemma_kids_frame_members(t1, t2, ks, i);
    lemma_kids_frame_complete(t1, t2, ks, i);
    lemma_kids_frame_distinct(t1, t2, ks);
    if ks.len() > 0 {
        assert(links_eq(t1[ks.last()], t2[ks.last()]));
    }
}

proof fn lemma_kids_frame_members<G: GameImpl>(t1: Seq<Node<G>>, t2: Seq<Node<G>>, ks: Seq<int>, i: int)
    requires
        t1.len() == t2.len(),
        forall|n: int| 0 <= n < t1.len() ==> #[trigger] links_eq(t1[n], t2[n]),
        child_list_ok(t1, ks, i),
    ensures
        forall|j: int|
            0 <= j < ks.len() ==> i < #[trigger] ks[j] < t2.len() && t2[ks[j]].spec_parent().spec_raw() == i,
        forall|j: int|
            0 <= j < ks.len() - 1 ==> #[trigger] sib_step(t2, ks, j),
{
    assert forall|j: int| 0 <= j < ks.len() implies i < #[trigger] ks[j] < t2.len()
        && t2[ks[j]].spec_parent().spec_raw() == i by {
        assert(links_eq(t1[ks[j]], t2[ks[j]]));
    }
    assert forall|j: int| 0 <= j < ks.len() - 1 implies #[trigger] sib_step(t2, ks, j) by {
        assert(sib_step(t1, ks, j));
        assert(links_eq(t1[ks[j]], t2[ks[j]]));
    }
}

proof fn lemma_kids_frame_complete<G: GameImpl>(t1: Seq<Node<G>>, t2: Seq<Node<G>>, ks: Seq<int>, i: int)
    requires
        t1.len() == t2.len(),
        forall|n: int| 0 <= n < t1.len() ==> #[trigger] links_eq(t1[n], t2[n]),
        forall|k: int| #[trigger] is_child_of(t1, k, i) ==> ks.contains(k),
    ensures
        forall|k: int| #[trigger] is_child_of(t2, k, i) ==> ks.contains(k),
{
    assert forall|k: int| #[trigger] is_child_of(t2, k, i) implies ks.contains(k) by {
        assert(links_eq(t1[k], t2[k]));
        assert(is_child_of(t1, k, i));
    }
}

proof fn lemma_kids_frame_distinct<G: GameImpl>(t1: Seq<Node<G>>, t2: Seq<Node<G>>, ks: Seq<int>)
    requires
        t1.len() == t2.len(),
        forall|n: int| 0 <= n < t1.len() ==> #[trigger] links_eq(t1[n], t2[n]),
        forall|j: int| 0 <= j < ks.len() ==> 0 <= #[trigger] ks[j] < t1.len(),
        forall|a: int, b: int|
            0 <= a < ks.len() && 0 <= b < ks.len() && a != b ==> t1[#[trigger] ks[a]].spec_edge_index()
                != t1[#[trigger] ks[b]].spec_edge_index(),
    ensures
        forall|a: int, b: int|
            0 <= a < ks.len() && 0 <= b < ks.len() && a != b ==> t2[#[trigger] ks[a]].spec_edge_index()
                != t2[#[trigger] ks[b]].spec_edge_index(),
{
    assert forall|a: int, b: int|
        0 <= a < ks.len() && 0 <= b < ks.len() && a != b implies t2[#[trigger] ks[a]].spec_edge_index()
        != t2[#[trigger] ks[b]].spec_edge_index() by {
        assert(links_eq(t1[ks[a]], t2[ks[a]]));
        assert(links_eq(t1[ks[b]], t2[ks[b]]));
    }
}

/// The shape of a tree depends on its structural fields alone.
pub proof fn lemma_links_frame<G: GameImpl>(t1: Seq<Node<G>>, t2: Seq<Node<G>>, kids: Seq<Seq<int>>)
    requires
        links_wf(t1, kids),
        t1.len() == t2.len(),
        forall|i: int| 0 <= i < t1.len() ==> #[trigger] links_eq(t1[i], t2[i]),
    ensures
        links_wf(t2, kids),
{
    assert forall|i: int| 0 <= i < t2.len() implies #[trigger] edges_ok(t2[i]) by {
        assert(edges_ok(t1[i]));
        assert(links_eq(t1[i], t2[i]));
    }
    assert forall|i: int| 0 < i < t2.len() implies #[trigger] parent_ok(t2, i) by {
        assert(parent_ok(t1, i));
        assert(links_eq(t1[i], t2[i]));
        assert(links_eq(t1[t1[i].spec_parent().spec_raw()], t2[t1[i].spec_parent().spec_raw()]));
    }
    assert forall|i: int| 0 <= i < t2.len() implies #[trigger] kids_ok(t2, kids, i) by {
        assert(kids_ok(t1, kids, i));
        lemma_kids_frame(t1, t2, kids, i);
    }
    if t1.len() > 0 {
        assert(links_eq(t1[0], t2[0]));
    }
}

/// The value that node `i` receives when `v` is credited at node `x` and
/// passed up to the root, flipped to `VALUE_ONE - v` at each step; `None`
/// for a node off that path.
pub open spec fn credit<G: GameImpl>(t: Seq<Node<G>>, x: int, v: int, i: int) -> Option<int>
    decreases x,
{
    if i == x {
        Some(v)
    } else if 0 < x < t.len() && 0 <= t[x].spec_parent().spec_raw() < x {
        credit(t, t[x].spec_parent().spec_raw(), VALUE_ONE - v, i)
    } else {
        None
    }
}

/// Node `i` of `t` has the statistics of node `i` of `t0` plus the credit
/// it receives from `v` at `x`: one visit and the value, if it is on the path.
pub open spec fn credited<G: GameImpl>(t0: Seq<Node<G>>, t: Seq<Node<G>>, x: int, v: int, i: int) -> bool {
    match credit(t0, x, v, i) {
        Some(c) => t[i].spec_visits() == t0[i].spec_visits() + 1 && t[i].spec_wl() == t0[i].spec_wl() + c,
        None => t[i].spec_visits() == t0[i].spec_visits() && t[i].spec_wl() == t0[i].spec_wl(),
    }
}

proof fn lemma_credit_above<G: GameImpl>(t: Seq<Node<G>>, x: int, v: int, i: int)
    requires
        i > x,
    ensures
        credit(t, x, v, i) is None,
    decreases x,
{
    if 0 < x < t.len() && 0 <= t[x].spec_parent().spec_raw() < x {
        lemma_credit_above(t, t[x].spec_parent().spec_raw(), VALUE_ONE - v, i);
    }
}

/// The path a credit takes depends on the parent links alone.
proof fn lemma_credit_frame<G: GameImpl>(t1: Seq<Node<G>>, t2: Seq<Node<G>>, x: int, v: int, i: int)
    requires
        t1.len() <= t2.len(),
        0 <= x < t1.len(),
        forall|j: int| 0 <= j < t1.len() ==> (#[trigger] t2[j]).spec_parent() == t1[j].spec_parent(),
    ensures
        credit(t1, x, v, i) == credit(t2, x, v, i),
    decreases x,
{
    assert(t2[x].spec_parent() == t1[x].spec_parent());
    if i != x && 0 < x && 0 <= t1[x].spec_parent().spec_raw() < x {
        lemma_credit_frame(t1, t2, t1[x].spec_parent().spec_raw(), VALUE_ONE - v, i);
    }
}

/// Statistics of the nodes carry over when the shape and the statistics are
/// unchanged.
proof fn lemma_tree_frame<G: GameImpl>(t1: Seq<Node<G>>, t2: Seq<Node<G>>, kids: Seq<Seq<int>>)
    requires
        tree_wf(t1, kids),
        t1.len() == t2.len(),
        forall|i: int| 0 <= i < t1.len() ==> #[trigger] links_eq(t1[i], t2[i]),
        forall|i: int|
            0 <= i < t1.len() ==> (#[trigger] t2[i]).spec_visits() == t1[i].spec_visits() && t2[i].spec_wl()
                == t1[i].spec_wl(),
        forall|i: int|
            0 <= i < t1.len() ==> (#[trigger] t2[i]).spec_terminal() == t1[i].spec_terminal()
                || t1[i].spec_visits() == 1,
    ensures
        tree_wf(t2, kids),
{
    lemma_links_frame(t1, t2, kids);
    assert forall|i: int| 0 <= i < t2.len() implies #[trigger] stats_ok(t2, i) by {
        assert(stats_ok(t1, i));
        assert(t2[0].spec_visits() == t1[0].spec_visits());
    }
    assert forall|i: int| 0 <= i < t2.len() implies #[trigger] balanced(t2, kids, i, 0) && leaf_ok(t2, kids, i) by {
        assert(balanced(t1, kids, i, 0));
        assert(leaf_ok(t1, kids, i));
        assert(links_eq(t1[i], t2[i]));
        assert(kids_ok(t1, kids, i));
        let ks = kids[i];
        assert forall|j: int| 0 <= j < ks.len() implies (#[trigger] t1[ks[j]]).spec_visits() == t2[ks[j]].spec_visits() by {
            assert(t2[ks[j]].spec_visits() == t1[ks[j]].spec_visits());
        }
        lemma_sum_frame(t1, t2, ks);
        if ks.len() == 0 {
            assert(kid_visit_sum(t1, ks) == 0);
        }
        if t2[i].spec_terminal() != t1[i].spec_terminal() {
            assert forall|j: int| 0 <= j < ks.len() implies (#[trigger] t1[ks[j]]).spec_visits() >= 1 by {
                assert(stats_ok(t1, ks[j]));
            }
            lemma_sum_positive(t1, ks);
            assert(t1[i].spec_visits() == 1);
            assert(kid_visit_sum(t1, ks) == 0);
            assert(ks.len() == 0);
        } else {
            assert(can_branch(t2[i]) == can_branch(t1[i]));
        }
    }
    assert forall|i: int| 0 <= i < t2.len() implies #[trigger] leaf_ok(t2, kids, i) by {
        assert(balanced(t2, kids, i, 0) && leaf_ok(t2, kids, i));
    }
}

/// The tree `t2` is `t` with node `c` appended as the last child of `n`,
/// reached through edge `e`.
pub open spec fn appended<G: GameImpl>(
    t: Seq<Node<G>>,
    kids: Seq<Seq<int>>,
    t2: Seq<Node<G>>,
    n: int,
    e: int,
) -> bool {
    let c = t.len() as int;
    let ks = kids[n];
    &&& t2.len() == t.len() + 1
    &&& t2[c].spec_parent().spec_raw() == n
    &&& !t2[c].spec_parent().spec_is_null()
    &&& t2[c].spec_child().spec_is_null()
    &&& t2[c].spec_sibling().spec_is_null()
    &&& t2[c].spec_edge_index() == e
    &&& edges_ok(t2[c])
    &&& forall|i: int|
        0 <= i < t.len() && i != n && !(ks.len() > 0 && i == ks.last()) ==> #[trigger] t2[i] == t[i]
    &&& t2[n].spec_parent() == t[n].spec_parent()
    &&& t2[n].spec_visits() == t[n].spec_visits()
    &&& t2[n].spec_wl() == t[n].spec_wl()
    &&& t2[n].spec_terminal() == t[n].spec_terminal()
    &&& t2[n].spec_sibling() == t[n].spec_sibling()
    &&& t2[n].spec_edge_index() == t[n].spec_edge_index()
    &&& t2[n].spec_edges() == t[n].spec_edges()
    &&& (ks.len() == 0 ==> t2[n].spec_child().spec_raw() == c)
    &&& (ks.len() > 0 ==> t2[n].spec_child() == t[n].spec_child())
    &&& ks.len() > 0 ==> {
        let l = ks.last();
        &&& t2[l].spec_parent() == t[l].spec_parent()
        &&& t2[l].spec_visits() == t[l].spec_visits()
        &&& t2[l].spec_wl() == t[l].spec_wl()
        &&& t2[l].spec_terminal() == t[l].spec_terminal()
        &&& t2[l].spec_child() == t[l].spec_child()
        &&& t2[l].spec_edge_index() == t[l].spec_edge_index()
        &&& t2[l].spec_edges() == t[l].spec_edges()
        &&& t2[l].spec_sibling().spec_raw() == c
    }
}

/// The fields of old node `m` other than the child and sibling links are
/// the same after an append.
proof fn lemma_appended_node<G: GameImpl>(
    t: Seq<Node<G>>,
    kids: Seq<Seq<int>>,
    t2: Seq<Node<G>>,
    n: int,
    e: int,
    m: int,
)
    requires
        appended(t, kids, t2, n, e),
        0 <= m < t.len(),
    ensures
        t2[m].spec_parent() == t[m].spec_parent(),
        t2[m].spec_visits() == t[m].spec_visits(),
        t2[m].spec_wl() == t[m].spec_wl(),
        t2[m].spec_terminal() == t[m].spec_terminal(),
        t2[m].spec_edge_index() == t[m].spec_edge_index(),
        t2[m].spec_edges() == t[m].spec_edges(),
        m != n ==> t2[m].spec_child() == t[m].spec_child(),
        !(kids[n].len() > 0 && m == kids[n].last()) ==> t2[m].spec_sibling() == t[m].spec_sibling(),
{
    if m != n && !(kids[n].len() > 0 && m == kids[n].last()) {
        assert(t2[m] == t[m]);
    }
}

proof fn lemma_append_kids_parent<G: GameImpl>(t: Seq<Node<G>>, kids: Seq<Seq<int>>, t2: Seq<Node<G>>, n: int, e: int)
    requires
        kids.len() == t.len(),
        t.len() + 1 < NULL_RAW,
        0 <= n < t.len(),
        kids_ok(t, kids, n),
        forall|a: int| 0 <= a < kids[n].len() ==> t[#[trigger] kids[n][a]].spec_edge_index() != e,
        appended(t, kids, t2, n, e),
    ensures
        child_list_ok(t2, kids[n].push(t.len() as int), n),
{
    let c = t.len() as int;
    let ks = kids[n];
    let ks2 = ks.push(c);
    assert forall|j: int| 0 <= j < ks2.len() implies n < #[trigger] ks2[j] < t2.len()
        && t2[ks2[j]].spec_parent().spec_raw() == n by {
        if j < ks.len() {
            assert(ks2[j] == ks[j]);
            lemma_appended_node(t, kids, t2, n, e, ks[j]);
        }
    }
    assert forall|j: int| 0 <= j < ks2.len() - 1 implies #[trigger] sib_step(t2, ks2, j) by {
        assert(ks2[j] == ks[j]);
        assert(0 <= j < ks.len());
        lemma_appended_node(t, kids, t2, n, e, ks[j]);
        if j < ks.len() - 1 {
            assert(ks2[j + 1] == ks[j + 1]);
            assert(sib_step(t, ks, j));
        }
    }
    assert forall|k: int| #[trigger] is_child_of(t2, k, n) implies ks2.contains(k) by {
        if k < c {
            lemma_appended_node(t, kids, t2, n, e, k);
            assert(is_child_of(t, k, n));
            assert(ks.contains(k));
            let j = choose|j: int| 0 <= j < ks.len() && ks[j] == k;
            assert(ks2[j] == k);
        } else {
            assert(ks2[ks.len() as int] == k);
        }
    }
    assert forall|a: int, b: int|
        0 <= a < ks2.len() && 0 <= b < ks2.len() && a != b implies t2[#[trigger] ks2[a]].spec_edge_index()
        != t2[#[trigger] ks2[b]].spec_edge_index() by {
        if a < ks.len() {
            assert(ks2[a] == ks[a]);
            lemma_appended_node(t, kids, t2, n, e, ks[a]);
        }
        if b < ks.len() {
            assert(ks2[b] == ks[b]);
            lemma_appended_node(t, kids, t2, n, e, ks[b]);
        }
    }
    if ks.len() > 0 {
        assert(ks2[0] == ks[0]);
    } else {
        assert(t2[n].spec_child().spec_raw() == c);
    }
}

proof fn lemma_append_kids_other<G: GameImpl>(
    t: Seq<Node<G>>,
    kids: Seq<Seq<int>>,
    t2: Seq<Node<G>>,
    n: int,
    e: int,
    i: int,
)
    requires
        kids.len() == t.len(),
        0 <= n < t.len(),
        kids_ok(t, kids, i),
        kids[n].len() > 0 ==> t[kids[n].last()].spec_parent().spec_raw() == n,
        appended(t, kids, t2, n, e),
        0 <= i < t.len(),
        i != n,
    ensures
        child_list_ok(t2, kids[i], i),
{
    let c = t.len() as int;
    let ks = kids[n];
    let ki = kids[i];
    lemma_appended_node(t, kids, t2, n, e, i);
    assert(!(ks.len() > 0 && i == ks.last()) ==> t2[i].spec_child() == t[i].spec_child());
    if ks.len() > 0 && i == ks.last() {
        assert(t2[i].spec_child() == t[i].spec_child());
    }
    assert forall|j: int| 0 <= j < ki.len() implies i < #[trigger] ki[j] < t2.len()
        && t2[ki[j]].spec_parent().spec_raw() == i by {
        lemma_appended_node(t, kids, t2, n, e, ki[j]);
    }
    assert forall|j: int| 0 <= j < ki.len() - 1 implies #[trigger] sib_step(t2, ki, j) by {
        assert(sib_step(t, ki, j));
        lemma_appended_node(t, kids, t2, n, e, ki[j]);
    }
    if ki.len() > 0 {
        lemma_appended_node(t, kids, t2, n, e, ki.last());
    }
    assert forall|k: int| #[trigger] is_child_of(t2, k, i) implies ki.contains(k) by {
        if k < c {
            lemma_appended_node(t, kids, t2, n, e, k);
            assert(is_child_of(t, k, i));
        }
    }
    assert forall|a: int, b: int|
        0 <= a < ki.len() && 0 <= b < ki.len() && a != b implies t2[#[trigger] ki[a]].spec_edge_index()
        != t2[#[trigger] ki[b]].spec_edge_index() by {
        lemma_appended_node(t, kids, t2, n, e, ki[a]);
        lemma_appended_node(t, kids, t2, n, e, ki[b]);
    }
}

/// After a child is appended, every node is balanced but the new child, which
/// is owed the visit of its own evaluation, and nodes that cannot branch
/// still have no children.
proof fn lemma_append_balance<G: GameImpl>(
    t: Seq<Node<G>>,
    kids: Seq<Seq<int>>,
    t2: Seq<Node<G>>,
    n: int,
    e: int,
)
    requires
        tree_wf(t, kids),
        t.len() + 1 < NULL_RAW,
        0 <= n < t.len(),
        can_branch(t[n]),
        appended(t, kids, t2, n, e),
        t2[t.len() as int].spec_visits() == 0,
    ensures
        forall|m: int|
            0 <= m < t2.len() ==> #[trigger] balanced(
                t2,
                kids.update(n, kids[n].push(t.len() as int)).push(seq![]),
                m,
                owed(m, t.len() as int),
            ),
        forall|m: int|
            0 <= m < t2.len() ==> #[trigger] leaf_ok(t2, kids.update(n, kids[n].push(t.len() as int)).push(seq![]), m),
{
    let c = t.len() as int;
    let kids2 = kids.update(n, kids[n].push(c)).push(seq![]);
    assert forall|m: int| 0 <= m < t2.len() implies #[trigger] balanced(t2, kids2, m, owed(m, c)) && leaf_ok(t2, kids2, m) by {
        if m == c {
            assert(kids2[m] =~= seq![]);
            assert(kid_visit_sum(t2, kids2[m]) == 0);
        } else {
            assert(balanced(t, kids, m, 0));
            assert(leaf_ok(t, kids, m));
            assert(kids_ok(t, kids, m));
            lemma_appended_node(t, kids, t2, n, e, m);
            let ks = kids[m];
            assert forall|j: int| 0 <= j < ks.len() implies (#[trigger] t[ks[j]]).spec_visits() == t2[ks[j]].spec_visits() by {
                lemma_appended_node(t, kids, t2, n, e, ks[j]);
            }
            lemma_sum_frame(t, t2, ks);
            assert(can_branch(t2[m]) == can_branch(t[m]));
            if m == n {
                assert(kids2[m] == ks.push(c));
                assert(ks.push(c).drop_last() =~= ks);
                assert(kid_visit_sum(t2, ks.push(c)) == kid_visit_sum(t2, ks) + 0);
            } else {
                assert(kids2[m] == ks);
            }
        }
    }
    assert forall|m: int| 0 <= m < t2.len() implies #[trigger] leaf_ok(t2, kids2, m) by {
        assert(balanced(t2, kids2, m, owed(m, c)) && leaf_ok(t2, kids2, m));
    }
}

proof fn lemma_append<G: GameImpl>(t: Seq<Node<G>>, kids: Seq<Seq<int>>, t2: Seq<Node<G>>, n: int, e: int)
    requires
        links_wf(t, kids),
        t.len() + 1 < NULL_RAW,
        0 <= n < t.len(),
        0 <= e < t[n].spec_edges()->0.len(),
        forall|a: int| 0 <= a < kids[n].len() ==> t[#[trigger] kids[n][a]].spec_edge_index() != e,
        appended(t, kids, t2, n, e),
    ensures
        links_wf(t2, kids.update(n, kids[n].push(t.len() as int)).push(seq![])),
{
    let c = t.len() as int;
    let kids2 = kids.update(n, kids[n].push(c)).push(seq![]);
    assert(kids_ok(t, kids, n));
    assert forall|i: int| 0 <= i < t2.len() implies #[trigger] edges_ok(t2[i]) by {
        if i < c {
            assert(edges_ok(t[i]));
            lemma_appended_node(t, kids, t2, n, e, i);
        }
    }
    assert forall|i: int| 0 < i < t2.len() implies #[trigger] parent_ok(t2, i) by {
        if i < c {
            assert(parent_ok(t, i));
            lemma_appended_node(t, kids, t2, n, e, i);
            let p = t[i].spec_parent().spec_raw();
            lemma_appended_node(t, kids, t2, n, e, p);
        } else {
            assert(edges_ok(t[n]));
        }
    }
    assert forall|i: int| 0 <= i < t2.len() implies #[trigger] kids_ok(t2, kids2, i) by {
        if i == n {
            assert(kids_ok(t, kids, n));
            lemma_append_kids_parent(t, kids, t2, n, e);
            assert(kids2[i] == kids[n].push(c));
        } else if i < c {
            assert(kids_ok(t, kids, i));
            lemma_append_kids_other(t, kids, t2, n, e, i);
            assert(kids2[i] == kids[i]);
        } else {
            assert(kids2[i] =~= seq![]);
        }
    }
    lemma_appended_node(t, kids, t2, n, e, 0);
    if kids[n].len() > 0 {
        assert(kids[n].last() > n);
    }
}

proof fn lemma_chain_tail<G: GameImpl>(t: Seq<Node<G>>, ks: Seq<int>, i: int, j: int)
    requires
        t.len() < NULL_RAW,
        child_list_ok(t, ks, i),
        0 <= j < ks.len(),
    ensures
        chain(t, ks[j]) == ks.subrange(j, ks.len() as int),
    decreases ks.len() - j,
{
    if j == ks.len() - 1 {
        assert(ks[j] == ks.last());
        assert(chain(t, ks[j]) =~= seq![ks[j]]);
        assert(ks.subrange(j, ks.len() as int) =~= seq![ks[j]]);
    } else {
        assert(sib_step(t, ks, j));
        lemma_chain_tail(t, ks, i, j + 1);
        assert(chain(t, ks[j]) == seq![ks[j]] + chain(t, ks[j + 1]));
        assert(ks.subrange(j, ks.len() as int) =~= seq![ks[j]] + ks.subrange(j + 1, ks.len() as int));
    }
}

/// The sibling walk from a node's first child meets exactly its listed
/// children, in order.
pub proof fn lemma_walk_is_kids<G: GameImpl>(t: Seq<Node<G>>, kids: Seq<Seq<int>>, n: int)
    requires
        links_wf(t, kids),
        0 <= n < t.len(),
    ensures
        walk_children(t, t[n]) == kids[n],
{
    assert(kids_ok(t, kids, n));
    let ks = kids[n];
    if ks.len() == 0 {
        assert(walk_children(t, t[n]) =~= seq![]);
    } else {
        lemma_chain_tail(t, ks, n, 0);
        assert(ks.subrange(0, ks.len() as int) =~= ks);
    }
}

proof fn lemma_ascending<G: GameImpl>(t: Seq<Node<G>>, ks: Seq<int>, i: int, a: int, b: int)
    requires
        child_list_ok(t, ks, i),
        0 <= a < b < ks.len(),
    ensures
        ks[a] < ks[b],
    decreases b - a,
{
    assert(sib_step(t, ks, a));
    if a + 1 < b {
        lemma_ascending(t, ks, i, a + 1, b);
    }
}

/// Every link of a well-formed tree leads forward.
pub proof fn lemma_wf_ascend<G: GameImpl>(t: Seq<Node<G>>, kids: Seq<Seq<int>>)
    requires
        links_wf(t, kids),
    ensures
        links_ascend(t),
{
    assert forall|i: int| 0 <= i < t.len() implies {
        let s = (#[trigger] t[i]).spec_sibling();
        let c = t[i].spec_child();
        &&& (s.spec_is_null() || (i < s.spec_raw() < t.len()))
        &&& (c.spec_is_null() || c.spec_raw() < t.len())
    } by {
        assert(kids_ok(t, kids, i));
        if kids[i].len() > 0 {
            assert(kids[i][0] < t.len());
        }
        if i > 0 {
            assert(parent_ok(t, i));
            let p = t[i].spec_parent().spec_raw();
            assert(kids_ok(t, kids, p));
            assert(is_child_of(t, i, p));
            let ks = kids[p];
            let j = choose|j: int| 0 <= j < ks.len() && ks[j] == i;
            if j < ks.len() - 1 {
                assert(sib_step(t, ks, j));
                assert(ks[j + 1] < t.len());
            } else {
                assert(ks[j] == ks.last());
            }
        }
    }
}

/// `path` is the node sequence of the principal variation `pv`: it starts
/// at the root, each move is a step, and it ends at a node without children
/// or after a dangling edge (-1).
pub open spec fn pv_path<G: GameImpl>(t: Seq<Node<G>>, path: Seq<int>, pv: Seq<G::Move>) -> bool {
    &&& path.len() == pv.len() + 1
    &&& path[0] == 0
    &&& forall|i: int| 0 <= i < pv.len() ==> 0 <= #[trigger] path[i] < t.len()
    &&& forall|i: int| 0 <= i < pv.len() - 1 ==> #[trigger] path[i + 1] >= 0
    &&& forall|i: int| 0 <= i < pv.len() ==> #[trigger] pv_step(t, path[i], path[i + 1], pv[i])
    &&& (path.last() < 0 || walk_children(t, t[path.last()]).len() == 0)
}

/// How edge `e` of node `n` ranks for the principal variation: its child's
/// visits, or for a dangling edge its prior, both in units of
/// `1 / PRIOR_ONE` visits.
pub open spec fn rollout_value<G: GameImpl>(t: Seq<Node<G>>, kids: Seq<Seq<int>>, n: int, e: int) -> int {
    match child_stats(t, kids[n], e) {
        Some((v, _)) => v * PRIOR_ONE,
        None => t[n].spec_edges()->0[e].spec_probability(),
    }
}

/// `e` is the lowest edge of node `n` with the highest rollout value.
pub open spec fn first_rollout_best<G: GameImpl>(t: Seq<Node<G>>, kids: Seq<Seq<int>>, n: int, e: int) -> bool {
    &&& 0 <= e < t[n].spec_edges()->0.len()
    &&& forall|i: int|
        0 <= i < t[n].spec_edges()->0.len() ==> #[trigger] rollout_value(t, kids, n, i) <= rollout_value(t, kids, n, e)
    &&& forall|i: int| 0 <= i < e ==> #[trigger] rollout_value(t, kids, n, i) < rollout_value(t, kids, n, e)
}

/// One step of the principal variation: at node `n`, which has a child,
/// `mv` is the move of the best edge by rollouts, and `k` is that edge's
/// child, or -1 if the edge is dangling.
pub open spec fn pv_step<G: GameImpl>(t: Seq<Node<G>>, n: int, k: int, mv: G::Move) -> bool {
    let kids = kids_of(t);
    exists|e: int|
        #[trigger] first_rollout_best(t, kids, n, e) && mv == t[n].spec_edges()->0[e].spec_move() && (if k >= 0 {
            kids[n].contains(k) && t[k].spec_edge_index() == e
        } else {
            forall|j: int| 0 <= j < kids[n].len() ==> t[#[trigger] kids[n][j]].spec_edge_index() != e
        })
}

/// The children of every node, as the sibling walks find them.
pub open spec fn kids_of<G: GameImpl>(t: Seq<Node<G>>) -> Seq<Seq<int>> {
    Seq::new(t.len(), |i: int| walk_children(t, t[i]))
}

/// One step of selection: `b` is the child of `a` reached by the edge that
/// the PUCT rule picks at `a`.
pub open spec fn puct_step<G: GameImpl>(c_puct: int, t: Seq<Node<G>>, kids: Seq<Seq<int>>, a: int, b: int) -> bool {
    &&& 0 <= a < t.len()
    &&& kids[a].contains(b)
    &&& first_best_edge(c_puct, t, kids, a, t[b].spec_edge_index())
}

/// `path` descends from the root by PUCT steps.
pub open spec fn select_path<G: GameImpl>(c_puct: int, t: Seq<Node<G>>, kids: Seq<Seq<int>>, path: Seq<int>) -> bool {
    &&& path.len() >= 1
    &&& path[0] == 0
    &&& forall|i: int| 0 <= i < path.len() - 1 ==> #[trigger] puct_step(c_puct, t, kids, path[i], path[i + 1])
}

/// `path` descends from the root of `t` by PUCT steps.
pub open spec fn puct_path<G: GameImpl>(c_puct: int, t: Seq<Node<G>>, path: Seq<int>) -> bool {
    select_path(c_puct, t, kids_of(t), path)
}

/// The listed children are the walked ones.
proof fn lemma_kids_of<G: GameImpl>(t: Seq<Node<G>>, kids: Seq<Seq<int>>)
    requires
        links_wf(t, kids),
    ensures
        kids == kids_of(t),
{
    assert forall|i: int| 0 <= i < t.len() implies kids[i] == #[trigger] kids_of(t)[i] by {
        lemma_walk_is_kids(t, kids, i);
    }
    assert(kids =~= kids_of(t));
}

/// Scores depend on statistics, edges and links only.
proof fn lemma_score_frame<G: GameImpl>(c: int, t1: Seq<Node<G>>, t2: Seq<Node<G>>, kids: Seq<Seq<int>>, n: int)
    requires
        links_wf(t1, kids),
        0 <= n < t1.len(),
        t1.len() == t2.len(),
        forall|i: int| 0 <= i < t1.len() ==> #[trigger] links_eq(t1[i], t2[i]),
        forall|i: int|
            0 <= i < t1.len() ==> (#[trigger] t2[i]).spec_visits() == t1[i].spec_visits() && t2[i].spec_wl()
                == t1[i].spec_wl(),
    ensures
        forall|e: int| #[trigger] edge_score(c, t1, kids, n, e) == edge_score(c, t2, kids, n, e),
        forall|e: int| #[trigger] first_best_edge(c, t1, kids, n, e) == first_best_edge(c, t2, kids, n, e),
{
    assert(kids_ok(t1, kids, n));
    assert(links_eq(t1[n], t2[n]));
    assert(t2[n].spec_visits() == t1[n].spec_visits());
    let ks = kids[n];
    assert forall|e: int| #[trigger] edge_score(c, t1, kids, n, e) == edge_score(c, t2, kids, n, e) by {
        if exists|a: int| 0 <= a < ks.len() && t1[#[trigger] ks[a]].spec_edge_index() == e {
            let a0 = choose|a: int| 0 <= a < ks.len() && t1[#[trigger] ks[a]].spec_edge_index() == e;
            lemma_child_stats(t1, ks, e, a0);
            assert(links_eq(t1[ks[a0]], t2[ks[a0]]));
            assert(t2[ks[a0]].spec_visits() == t1[ks[a0]].spec_visits());
            assert forall|a: int, b: int|
                0 <= a < ks.len() && 0 <= b < ks.len() && a != b implies t2[#[trigger] ks[a]].spec_edge_index()
                != t2[#[trigger] ks[b]].spec_edge_index() by {
                assert(links_eq(t1[ks[a]], t2[ks[a]]));
                assert(links_eq(t1[ks[b]], t2[ks[b]]));
            }
            lemma_child_stats(t2, ks, e, a0);
        } else {
            assert(!exists|a: int| 0 <= a < ks.len() && t2[#[trigger] ks[a]].spec_edge_index() == e) by {
                if exists|a: int| 0 <= a < ks.len() && t2[#[trigger] ks[a]].spec_edge_index() == e {
                    let a = choose|a: int| 0 <= a < ks.len() && t2[#[trigger] ks[a]].spec_edge_index() == e;
                    assert(links_eq(t1[ks[a]], t2[ks[a]]));
                }
            }
        }
    }
    assert forall|e: int| #[trigger] first_best_edge(c, t1, kids, n, e) == first_best_edge(c, t2, kids, n, e) by {
        let len = t1[n].spec_edges()->0.len();
        if first_best_edge(c, t1, kids, n, e) {
            assert forall|i: int| 0 <= i < len implies #[trigger] edge_score(c, t2, kids, n, i) <= edge_score(c, t2, kids, n, e) by {
                assert(edge_score(c, t1, kids, n, i) <= edge_score(c, t1, kids, n, e));
            }
            assert forall|i: int| 0 <= i < e implies #[trigger] edge_score(c, t2, kids, n, i) < edge_score(c, t2, kids, n, e) by {
                assert(edge_score(c, t1, kids, n, i) < edge_score(c, t1, kids, n, e));
            }
        }
        if first_best_edge(c, t2, kids, n, e) {
            assert forall|i: int| 0 <= i < len implies #[trigger] edge_score(c, t1, kids, n, i) <= edge_score(c, t1, kids, n, e) by {
                assert(edge_score(c, t2, kids, n, i) <= edge_score(c, t2, kids, n, e));
            }
            assert forall|i: int| 0 <= i < e implies #[trigger] edge_score(c, t1, kids, n, i) < edge_score(c, t1, kids, n, e) by {
                assert(edge_score(c, t2, kids, n, i) < edge_score(c, t2, kids, n, e));
            }
        }
    }
}

/// An iteration that met a finished game: `path` leads by PUCT steps from
/// the root of `t0` to `x`, where the game is over, and the game's value
/// was credited along the way up, giving `t1`.
pub open spec fn credited_terminal<G: GameImpl>(
    c_puct: int,
    t0: Seq<Node<G>>,
    t1: Seq<Node<G>>,
    ps: Seq<G>,
    x: int,
    path: Seq<int>,
) -> bool {
    &&& 0 <= x < t0.len()
    &&& puct_path(c_puct, t0, path)
    &&& path.last() == x
    &&& !can_branch(t1[x])
    &&& ps[x].spec_outcome() is Some
    &&& forall|i: int| 0 <= i < t0.len() ==> #[trigger] credited(t0, t1, x, terminal_value(ps[x]), i)
}

/// The value of a finished game at `pos` for the player who just moved: a
/// loss if the side to move won, a win if it lost, and one half for a draw.
/// A position without an outcome counts as a draw.
pub open spec fn terminal_value<G: GameImpl>(pos: G) -> int {
    match pos.spec_outcome() {
        Some(Player::First) => if pos.spec_to_move() == Player::First {
            0
        } else {
            VALUE_ONE as int
        },
        Some(Player::Second) => if pos.spec_to_move() == Player::Second {
            0
        } else {
            VALUE_ONE as int
        },
        _ => (VALUE_ONE / 2) as int,
    }
}

/// The value of a finished game at `pos`, for the player who just moved.
pub fn terminal_value_of<G: GameImpl>(pos: &G) -> (r: u64)
    ensures
        r == terminal_value(*pos),
{
    match pos.outcome() {
        Some(Player::First) => match pos.to_move() {
            Player::First => 0,
            _ => VALUE_ONE,
        },
        Some(Player::Second) => match pos.to_move() {
            Player::Second => 0,
            _ => VALUE_ONE,
        },
        _ => VALUE_ONE / 2,
    }
}

/// `r` is the integer square root of `x`.
pub open spec fn is_isqrt(x: int, r: int) -> bool {
    0 <= r && r * r <= x < (r + 1) * (r + 1)
}

/// The integer square root of `x`.
pub open spec fn isqrt_spec(x: int) -> int {
    choose|r: int| is_isqrt(x, r)
}

proof fn lemma_isqrt_unique(x: int, a: int, b: int)
    requires
        is_isqrt(x, a),
        is_isqrt(x, b),
    ensures
        a == b,
{
    if a < b {
        assert((a + 1) * (a + 1) <= b * b) by (nonlinear_arith)
            requires
                0 <= a,
                a + 1 <= b,
        ;
    } else if b < a {
        assert((b + 1) * (b + 1) <= a * a) by (nonlinear_arith)
            requires
                0 <= b,
                b + 1 <= a,
        ;
    }
}

/// The integer square root, found by bisection.
pub fn isqrt(x: u64) -> (r: u64)
    ensures
        r == isqrt_spec(x as int),
        r < 0x1_0000_0000,
{
    let mut lo: u64 = 0;
    let mut hi: u64 = 0x1_0000_0000;
    assert(0x1_0000_0000int * 0x1_0000_0000int == 0x1_0000_0000_0000_0000int) by (nonlinear_arith);
    while hi - lo > 1
        invariant
            lo < hi <= 0x1_0000_0000,
            lo * lo <= x,
            x < hi * hi,
        decreases hi - lo,
    {
        let mid = lo + (hi - lo) / 2;
        assert((mid as int) * (mid as int) <= 0x1_0000_0000int * 0x1_0000_0000int) by (nonlinear_arith)
            requires
                0 <= mid <= 0x1_0000_0000int,
        ;
        if (mid as u128) * (mid as u128) <= x as u128 {
            lo = mid;
        } else {
            hi = mid;
        }
    }
    assert(is_isqrt(x as int, lo as int));
    proof {
        lemma_isqrt_unique(x as int, lo as int, isqrt_spec(x as int));
    }
    lo
}

/// The exploration factor of a node with `visits` visits: `c_puct` (in
/// thousandths) times the square root of `visits + 1` (in thousandths), in
/// units of `1 / VALUE_ONE`.
pub open spec fn exploration(c_puct: int, visits: int) -> int {
    c_puct * isqrt_spec((visits + 1) * 1_000_000)
}

/// First-play urgency: one minus the node's own winrate, or one half for a
/// node that has not been visited.
pub open spec fn fpu_spec<G: GameImpl>(n: Node<G>) -> int {
    if n.spec_visits() > 0 {
        VALUE_ONE - n.spec_wl() / n.spec_visits()
    } else {
        (VALUE_ONE / 2) as int
    }
}

/// The visits and value of the child among `ks` that came from edge `e`.
pub open spec fn child_stats<G: GameImpl>(t: Seq<Node<G>>, ks: Seq<int>, e: int) -> Option<(int, int)> {
    if exists|a: int| 0 <= a < ks.len() && t[#[trigger] ks[a]].spec_edge_index() == e {
        let a = choose|a: int| 0 <= a < ks.len() && t[#[trigger] ks[a]].spec_edge_index() == e;
        Some((t[ks[a]].spec_visits(), t[ks[a]].spec_wl()))
    } else {
        None
    }
}

/// The PUCT score of an edge with prior `prior`: for an instantiated child,
/// its winrate plus the exploration bonus shared by its visits; for a
/// dangling edge, first-play urgency plus the full bonus.
pub open spec fn puct_score(expl: int, fpu: int, prior: int, child: Option<(int, int)>) -> int {
    match child {
        Some((v, w)) => w / v + (expl * prior / (PRIOR_ONE as int)) / (1 + v),
        None => fpu + expl * prior / (PRIOR_ONE as int),
    }
}

/// The score of edge `e` of node `n`.
pub open spec fn edge_score<G: GameImpl>(c_puct: int, t: Seq<Node<G>>, kids: Seq<Seq<int>>, n: int, e: int) -> int {
    puct_score(
        exploration(c_puct, t[n].spec_visits()),
        fpu_spec(t[n]),
        t[n].spec_edges()->0[e].spec_probability(),
        child_stats(t, kids[n], e),
    )
}

/// `e` is the first edge of node `n` with the highest score.
pub open spec fn first_best_edge<G: GameImpl>(c_puct: int, t: Seq<Node<G>>, kids: Seq<Seq<int>>, n: int, e: int) -> bool {
    &&& 0 <= e < t[n].spec_edges()->0.len()
    &&& forall|i: int|
        0 <= i < t[n].spec_edges()->0.len() ==> #[trigger] edge_score(c_puct, t, kids, n, i) <= edge_score(
            c_puct,
            t,
            kids,
            n,
            e,
        )
    &&& forall|i: int| 0 <= i < e ==> #[trigger] edge_score(c_puct, t, kids, n, i) < edge_score(c_puct, t, kids, n, e)
}

/// The handle `h` designates the child of `n` that came from edge `e`, or
/// is null if that edge is dangling.
pub open spec fn child_for_edge<G: GameImpl>(t: Seq<Node<G>>, kids: Seq<Seq<int>>, n: int, e: int, h: Handle) -> bool {
    &&& h.spec_is_null() ==> forall|a: int| 0 <= a < kids[n].len() ==> t[#[trigger] kids[n][a]].spec_edge_index() != e
    &&& !h.spec_is_null() ==> exists|a: int|
        0 <= a < kids[n].len() && #[trigger] kids[n][a] == h.spec_raw() && t[kids[n][a]].spec_edge_index() == e
}

proof fn lemma_child_stats<G: GameImpl>(t: Seq<Node<G>>, ks: Seq<int>, e: int, a0: int)
    requires
        0 <= a0 < ks.len(),
        t[ks[a0]].spec_edge_index() == e,
        forall|a: int, b: int|
            0 <= a < ks.len() && 0 <= b < ks.len() && a != b ==> t[#[trigger] ks[a]].spec_edge_index()
                != t[#[trigger] ks[b]].spec_edge_index(),
    ensures
        child_stats(t, ks, e) == Some((t[ks[a0]].spec_visits(), t[ks[a0]].spec_wl())),
{
    let a = choose|a: int| 0 <= a < ks.len() && t[#[trigger] ks[a]].spec_edge_index() == e;
    assert(a == a0);
}

/// The selected leaf of one iteration.
pub enum Selection<G: GameImpl> {
    /// Descend no further: expand edge `edge_index` of node `node_index`,
    /// whose position is `board_state`.
    NonTerminal { node_index: usize, edge_index: usize, board_state: G },
    /// The game is over at node `node_index`, whose position is
    /// `board_state`.
    Terminal { node_index: usize, board_state: G },
}

/// The outcome of a search.
pub struct SearchResults<G: GameImpl> {
    /// The best move found.
    pub best_move: G::Move,
    /// The root rollout distribution.
    pub root_dist: Vec<u64>,
}

/// The MCTS engine's state.
pub struct Engine<G: GameImpl> {
    /// Parameters of the search.
    params: Params,
    /// Limits on the search.
    limits: Limits,
    /// The storage for the search tree; node 0 is the root.
    tree: Vec<Node<G>>,
    /// The root position.
    root: G,
    /// The leaf whose evaluation is awaited: a node, one of its edges, and
    /// the position after that edge's move. `None` with an empty tree stands
    /// for the root's own evaluation.
    pending: Option<(usize, usize, G)>,
    /// Iterations of the current search.
    nodes_searched: u64,
    /// Milliseconds spent by the current search, as last reported.
    elapsed: u64,
    /// Whether the current search was stopped from outside.
    stopped: bool,
    /// For each node, its instantiated children in order.
    kids: Ghost<Seq<Seq<int>>>,
    /// For each node, its position.
    positions: Ghost<Seq<G>>,
}

impl<G: GameImpl> Engine<G> {
    pub closed spec fn spec_tree(&self) -> Seq<Node<G>> {
        self.tree@
    }

    pub closed spec fn spec_kids(&self) -> Seq<Seq<int>> {
        self.kids@
    }

    pub closed spec fn spec_root(&self) -> G {
        self.root
    }

    /// The position of each node.
    pub closed spec fn spec_positions(&self) -> Seq<G> {
        self.positions@
    }

    /// The leaf awaiting evaluation: a node, one of its edges, and the
    /// position after that edge's move.
    pub closed spec fn spec_pending(&self) -> Option<(usize, usize, G)> {
        self.pending
    }

    pub closed spec fn spec_limits(&self) -> Limits {
        self.limits
    }

    pub closed spec fn spec_params(&self) -> Params {
        self.params
    }

    pub closed spec fn spec_nodes_searched(&self) -> u64 {
        self.nodes_searched
    }

    pub closed spec fn spec_stopped(&self) -> bool {
        self.stopped
    }

    /// Milliseconds spent by the current search, as last reported.
    pub closed spec fn spec_elapsed(&self) -> u64 {
        self.elapsed
    }

    /// The node of the pending leaf.
    pub open spec fn spec_pending_node(&self) -> int {
        match self.spec_pending() {
            Some((n, _, _)) => n as int,
            None => 0,
        }
    }

    /// The edge of the pending leaf.
    pub open spec fn spec_pending_edge(&self) -> int {
        match self.spec_pending() {
            Some((_, e, _)) => e as int,
            None => 0,
        }
    }

    /// The position of the pending leaf.
    pub open spec fn spec_pending_position(&self) -> G {
        match self.spec_pending() {
            Some((_, _, p)) => p,
            None => self.spec_root(),
        }
    }

    /// Whether a selected leaf awaits its evaluation.
    pub closed spec fn spec_has_pending(&self) -> bool {
        self.pending is Some
    }

    /// Whether an evaluation is awaited.
    pub closed spec fn spec_awaiting(&self) -> bool {
        self.pending is Some || self.tree@.len() == 0
    }

    /// The engine's invariant.
    pub closed spec fn wf(&self) -> bool {
        &&& tree_wf(self.tree@, self.kids@)
        &&& positions_ok(self.tree@, self.positions@, self.root)
        &&& match self.pending {
            Some((n, e, p)) => {
                &&& n < self.tree@.len()
                &&& self.tree@.len() + 2 < NULL_RAW
                &&& self.tree@[0].spec_visits() < u32::MAX
                &&& can_branch(self.tree@[n as int])
                &&& p == self.positions@[n as int].spec_after(
                    self.tree@[n as int].spec_edges()->0[e as int].spec_move(),
                )
                &&& e < self.tree@[n as int].spec_edges()->0.len()
                &&& forall|a: int|
                    0 <= a < self.kids@[n as int].len() ==> self.tree@[#[trigger] self.kids@[n as int][a]].spec_edge_index()
                        != e
            },
            None => true,
        }
    }

    /// The PUCT score of edge `e` of node `n`, whose child (null if
    /// dangling) is `child`.
    fn score_of(&self, n: usize, e: usize, child: Handle) -> (r: u128)
        requires
            self.wf(),
            n < self.tree@.len(),
            e < self.tree@[n as int].spec_edges()->0.len(),
            child_for_edge(self.tree@, self.kids@, n as int, e as int, child),
        ensures
            r == edge_score(self.params.c_puct as int, self.tree@, self.kids@, n as int, e as int),
    {
        let ghost t = self.tree@;
        let ghost ks = self.kids@[n as int];
        assert(stats_ok(t, n as int));
        assert(kids_ok(t, self.kids@, n as int));
        assert(edges_ok(t[n as int]));
        let node = &self.tree[n];
        let visits = node.visits();
        let sq = isqrt((visits as u64 + 1) * 1_000_000);
        assert((self.params.c_puct as int) * (sq as int) <= 0xffff_ffff_ffff_ffffint * 0xffff_ffffint) by (nonlinear_arith)
            requires
                self.params.c_puct <= 0xffff_ffff_ffff_ffffint,
                sq <= 0xffff_ffffint,
        ;
        let expl: u128 = self.params.c_puct as u128 * sq as u128;
        let edges = match node.edges() {
            Some(es) => es,
            None => {
                assert(false);
                return 0;
            },
        };
        let prior = edges[e].probability();
        assert((expl as int) * (prior as int) <= 0xffff_ffff_ffff_ffffint * 0xffff_ffffint * 1_000_000_000int) by (nonlinear_arith)
            requires
                expl <= 0xffff_ffff_ffff_ffffint * 0xffff_ffffint,
                prior <= 1_000_000_000int,
        ;
        let bonus: u128 = expl * prior as u128 / PRIOR_ONE as u128;
        if child.is_null() {
            let fpu: u128 = if visits > 0 {
                assert(node.spec_wl() / node.spec_visits() <= VALUE_ONE) by (nonlinear_arith)
                    requires
                        node.spec_wl() <= node.spec_visits() * VALUE_ONE,
                        node.spec_visits() > 0,
                        node.spec_wl() >= 0,
                ;
                (VALUE_ONE - node.winrate()) as u128
            } else {
                (VALUE_ONE / 2) as u128
            };
            proof {
                if child_stats(t, ks, e as int) is Some {
                    let a = choose|a: int| 0 <= a < ks.len() && t[#[trigger] ks[a]].spec_edge_index() == e;
                    assert(t[ks[a]].spec_edge_index() != e);
                }
            }
            fpu + bonus
        } else {
            let ghost a0 = choose|a: int|
                0 <= a < ks.len() && #[trigger] ks[a] == child.spec_raw() && t[ks[a]].spec_edge_index() == e;
            proof {
                lemma_child_stats(t, ks, e as int, a0);
                assert(stats_ok(t, ks[a0]));
            }
            let kid = &self.tree[child.index()];
            let kv = kid.visits();
            let q = kid.winrate();
            (q as u128) + bonus / (1 + kv as u128)
        }
    }

    /// Selects the best immediate edge of a node by the PUCT rule; ties go to
    /// the lowest edge index. Returns the edge and its child (null if
    /// dangling).
    fn uct_best(&self, n: usize) -> (r: (usize, Handle))
        requires
            self.wf(),
            n < self.tree@.len(),
            self.tree@[n as int].spec_edges()->0.len() > 0,
        ensures
            first_best_edge(self.params.c_puct as int, self.tree@, self.kids@, n as int, r.0 as int),
            child_for_edge(self.tree@, self.kids@, n as int, r.0 as int, r.1),
    {
        let ghost t = self.tree@;
        let ghost ks = self.kids@[n as int];
        assert(kids_ok(t, self.kids@, n as int));
        assert(edges_ok(t[n as int]));
        let ne = match self.tree[n].edges() {
            Some(es) => es.len(),
            None => 0,
        };
        let mut child_at: Vec<Handle> = Vec::new();
        let mut z: usize = 0;
        while z < ne
            invariant
                z <= ne,
                child_at@.len() == z,
                forall|e: int| 0 <= e < z ==> (#[trigger] child_at@[e]).spec_is_null(),
            decreases ne - z,
        {
            child_at.push(Handle::null());
            z = z + 1;
        }
        let mut cur = self.tree[n].first_child();
        let ghost mut j: int = 0;
        while !cur.is_null()
            invariant
                self.wf(),
                t == self.tree@,
                ks == self.kids@[n as int],
                n < t.len(),
                kids_ok(t, self.kids@, n as int),
                ne == t[n as int].spec_edges()->0.len(),
                child_at@.len() == ne,
                0 <= j <= ks.len(),
                (j < ks.len()) == !cur.spec_is_null(),
                j < ks.len() ==> cur.spec_raw() == ks[j],
                forall|e: int|
                    0 <= e < ne && (#[trigger] child_at@[e]).spec_is_null() ==> forall|a: int|
                        0 <= a < j ==> t[#[trigger] ks[a]].spec_edge_index() != e,
                forall|e: int|
                    0 <= e < ne && !(#[trigger] child_at@[e]).spec_is_null() ==> exists|a: int|
                        0 <= a < j && #[trigger] ks[a] == child_at@[e].spec_raw() && t[ks[a]].spec_edge_index() == e,
            decreases ks.len() - j,
        {
            let k = cur.index();
            assert(parent_ok(t, k as int));
            let e = self.tree[k].edge_index();
            let ghost before = child_at@;
            child_at.set(e, cur);
            assert forall|e2: int|
                0 <= e2 < ne && (#[trigger] child_at@[e2]).spec_is_null() implies forall|a: int|
                0 <= a < j + 1 ==> t[#[trigger] ks[a]].spec_edge_index() != e2 by {
                assert(before[e2] == child_at@[e2]);
            }
            assert forall|e2: int|
                0 <= e2 < ne && !(#[trigger] child_at@[e2]).spec_is_null() implies exists|a: int|
                0 <= a < j + 1 && #[trigger] ks[a] == child_at@[e2].spec_raw() && t[ks[a]].spec_edge_index() == e2 by {
                if e2 == e {
                    assert(ks[j] == child_at@[e2].spec_raw());
                } else {
                    assert(before[e2] == child_at@[e2]);
                }
            }
            cur = self.tree[k].sibling();
            proof {
                if j < ks.len() - 1 {
                    assert(sib_step(t, ks, j));
                }
                j = j + 1;
            }
        }
        let mut best_idx: usize = 0;
        let mut best_child = child_at[0];
        let mut best_value = self.score_of(n, 0, best_child);
        let mut e: usize = 1;
        while e < ne
            invariant
                self.wf(),
                t == self.tree@,
                ks == self.kids@[n as int],
                n < t.len(),
                ne == t[n as int].spec_edges()->0.len(),
                child_at@.len() == ne,
                1 <= e <= ne,
                forall|e2: int|
                    0 <= e2 < ne && (#[trigger] child_at@[e2]).spec_is_null() ==> forall|a: int|
                        0 <= a < ks.len() ==> t[#[trigger] ks[a]].spec_edge_index() != e2,
                forall|e2: int|
                    0 <= e2 < ne && !(#[trigger] child_at@[e2]).spec_is_null() ==> exists|a: int|
                        0 <= a < ks.len() && #[trigger] ks[a] == child_at@[e2].spec_raw() && t[ks[a]].spec_edge_index() == e2,
                best_idx < e,
                best_child == child_at@[best_idx as int],
                best_value == edge_score(self.params.c_puct as int, t, self.kids@, n as int, best_idx as int),
                forall|i: int| 0 <= i < e ==> #[trigger] edge_score(self.params.c_puct as int, t, self.kids@, n as int, i) <= best_value,
                forall|i: int| 0 <= i < best_idx ==> #[trigger] edge_score(self.params.c_puct as int, t, self.kids@, n as int, i) < best_value,
            decreases ne - e,
        {
            let ch = child_at[e];
            let value = self.score_of(n, e, ch);
            if value > best_value {
                best_idx = e;
                best_value = value;
                best_child = ch;
            }
            e = e + 1;
        }
        (best_idx, best_child)
    }

    /// Creates an engine with an empty tree.
    pub fn new(params: Params, limits: Limits, root: &G) -> (r: Self)
        ensures
            r.wf(),
            r.spec_tree().len() == 0,
            r.spec_root() == *root,
            r.spec_params() == params,
            r.spec_limits() == limits,
            !r.spec_has_pending(),
    {
        Self {
            params,
            limits,
            tree: Vec::new(),
            root: *root,
            pending: None,
            nodes_searched: 0,
            elapsed: 0,
            stopped: false,
            kids: Ghost(Seq::empty()),
            positions: Ghost(Seq::empty()),
        }
    }

    /// The root position.
    pub fn root(&self) -> (r: G)
        ensures
            r == self.spec_root(),
    {
        self.root
    }

    /// Sets the limits on the search.
    pub fn set_limits(&mut self, limits: Limits)
        requires
            old(self).wf(),
        ensures
            final(self).wf(),
            final(self).spec_limits() == limits,
            final(self).spec_tree() == old(self).spec_tree(),
            final(self).spec_root() == old(self).spec_root(),
            final(self).spec_params() == old(self).spec_params(),
            final(self).spec_has_pending() == old(self).spec_has_pending(),
    {
        self.limits = limits;
    }

    /// The parameters of the search.
    pub fn params(&self) -> (r: Params)
        ensures
            r == self.spec_params(),
    {
        self.params
    }

    /// Replaces the parameters of the search.
    pub fn set_params(&mut self, params: Params)
        requires
            old(self).wf(),
        ensures
            final(self).wf(),
            final(self).spec_params() == params,
            final(self).spec_tree() == old(self).spec_tree(),
            final(self).spec_root() == old(self).spec_root(),
            final(self).spec_limits() == old(self).spec_limits(),
            final(self).spec_has_pending() == old(self).spec_has_pending(),
    {
        self.params = params;
    }

    /// Sets the position to search from, and clears the tree.
    pub fn set_position(&mut self, root: &G)
        requires
            old(self).wf(),
        ensures
            final(self).wf(),
            final(self).spec_root() == *root,
            final(self).spec_tree().len() == 0,
            !final(self).spec_has_pending(),
            final(self).spec_params() == old(self).spec_params(),
            final(self).spec_limits() == old(self).spec_limits(),
    {
        self.root = *root;
        self.tree = Vec::new();
        self.pending = None;
        proof {
            self.kids@ = Seq::empty();
            self.positions@ = Seq::empty();
        }
    }

    /// Whether the current search should go on: it has not been stopped, and
    /// the limits are not reached for the side to move at the root.
    pub open spec fn spec_keep_searching(&self) -> bool {
        !self.spec_stopped() && !self.spec_limits().spec_is_out_of_time(
            self.spec_nodes_searched(),
            self.spec_elapsed(),
            self.spec_root().spec_to_move() == Player::First,
        )
    }

    /// Starts a new search: no iterations, no time spent, not stopped.
    pub fn begin_search(&mut self)
        requires
            old(self).wf(),
        ensures
            final(self).wf(),
            final(self).spec_nodes_searched() == 0,
            final(self).spec_elapsed() == 0,
            !final(self).spec_stopped(),
            final(self).spec_tree() == old(self).spec_tree(),
            final(self).spec_root() == old(self).spec_root(),
            final(self).spec_limits() == old(self).spec_limits(),
            final(self).spec_params() == old(self).spec_params(),
            final(self).spec_has_pending() == old(self).spec_has_pending(),
    {
        self.nodes_searched = 0;
        self.elapsed = 0;
        self.stopped = false;
    }

    /// Whether another iteration should run.
    pub fn keep_searching(&self) -> (r: bool)
        ensures
            r == self.spec_keep_searching(),
    {
        let is_p1 = match self.root.to_move() {
            Player::First => true,
            _ => false,
        };
        !self.stopped && !self.limits.is_out_of_time(self.nodes_searched, self.elapsed, is_p1)
    }

    /// Counts a finished iteration. Returns whether the count before it was a
    /// multiple of 1024: the points at which the time is read and the command
    /// channel is polled.
    pub fn end_iteration(&mut self) -> (r: bool)
        requires
            old(self).wf(),
        ensures
            final(self).wf(),
            r == (old(self).spec_nodes_searched() % 1024 == 0),
            old(self).spec_nodes_searched() < u64::MAX ==> final(self).spec_nodes_searched()
                == old(self).spec_nodes_searched() + 1,
            final(self).spec_stopped() == old(self).spec_stopped(),
            final(self).spec_elapsed() == old(self).spec_elapsed(),
            final(self).spec_tree() == old(self).spec_tree(),
            final(self).spec_root() == old(self).spec_root(),
            final(self).spec_limits() == old(self).spec_limits(),
            final(self).spec_params() == old(self).spec_params(),
            final(self).spec_has_pending() == old(self).spec_has_pending(),
    {
        let checkpoint = self.nodes_searched % 1024 == 0;
        if self.nodes_searched < u64::MAX {
            self.nodes_searched = self.nodes_searched + 1;
        }
        checkpoint
    }

    /// Records the time spent so far, and stops the search if asked to.
    pub fn checkpoint(&mut self, elapsed: u64, stop: bool)
        requires
            old(self).wf(),
        ensures
            final(self).wf(),
            final(self).spec_stopped() == (old(self).spec_stopped() || stop),
            final(self).spec_elapsed() == elapsed,
            final(self).spec_nodes_searched() == old(self).spec_nodes_searched(),
            final(self).spec_tree() == old(self).spec_tree(),
            final(self).spec_root() == old(self).spec_root(),
            final(self).spec_limits() == old(self).spec_limits(),
            final(self).spec_params() == old(self).spec_params(),
            final(self).spec_has_pending() == old(self).spec_has_pending(),
    {
        self.elapsed = elapsed;
        self.stopped = self.stopped || stop;
    }

    /// The number of iterations of the current search.
    pub fn nodes_searched(&self) -> (r: u64)
        ensures
            r == self.spec_nodes_searched(),
    {
        self.nodes_searched
    }

    /// The number of nodes in the tree.
    pub fn tree_size(&self) -> (r: usize)
        ensures
            r == self.spec_tree().len(),
    {
        self.tree.len()
    }

    /// The root's mean value, from the perspective of the player who moved
    /// into the root; `None` before the root is evaluated.
    pub fn root_winrate(&self) -> (r: Option<u64>)
        requires
            self.wf(),
        ensures
            self.spec_tree().len() == 0 ==> r is None,
            self.spec_tree().len() > 0 ==> r == Some(
                (self.spec_tree()[0].spec_wl() / self.spec_tree()[0].spec_visits()) as u64,
            ),
    {
        if self.tree.len() == 0 {
            return None;
        }
        assert(stats_ok(self.tree@, 0));
        Some(self.tree[0].winrate())
    }

    /// The result of the search: the move of the root's most visited child
    /// (the first in sibling order on a tie) and the visit count of each
    /// policy slot. `None` while the root has no child, as after a search
    /// of zero iterations or from a finished game.
    pub fn results(&self) -> (r: Option<SearchResults<G>>)
        requires
            self.wf(),
        ensures
            self.spec_tree().len() == 0 ==> r is None,
            self.spec_tree().len() > 0 ==> {
                let t = self.spec_tree();
                let c = walk_children(t, t[0]);
                &&& (r is None <==> c.len() == 0)
                &&& r is Some ==> {
                    &&& is_legal(self.spec_root(), r->0.best_move)
                    &&& exists|j: int|
                        crate::node::first_most_visited(t, c, j) && r->0.best_move
                            == t[0].spec_edges()->0[t[c[j]].spec_edge_index()].spec_move()
                    &&& r->0.root_dist@.len() == G::spec_policy_dim()
                    &&& forall|s: int|
                        0 <= s < r->0.root_dist@.len() ==> r->0.root_dist@[s] == crate::node::slot_visits(t, t[0], s)
                }
            },
    {
        if self.tree.len() == 0 {
            return None;
        }
        let ghost t = self.tree@;
        proof {
            lemma_wf_ascend(t, self.kids@);
            lemma_walk_is_kids(t, self.kids@, 0);
            assert(kids_ok(t, self.kids@, 0));
            assert(edges_ok(t[0]));
            let c = walk_children(t, t[0]);
            assert forall|j: int| 0 <= j < c.len() implies 0 <= t[#[trigger] c[j]].spec_edge_index()
                < t[0].spec_edges()->0.len() by {
                assert(parent_ok(t, c[j]));
            }
            assert forall|j: int| 0 <= j < c.len() implies slot_of(t, t[0], #[trigger] c[j]) < G::spec_policy_dim() by {
                assert(parent_ok(t, c[j]));
            }
            assert forall|a: int, b: int|
                0 <= a < c.len() && 0 <= b < c.len() && a != b implies slot_of(t, t[0], #[trigger] c[a])
                != slot_of(t, t[0], #[trigger] c[b]) by {
                assert(parent_ok(t, c[a]));
                assert(parent_ok(t, c[b]));
                let ea = t[c[a]].spec_edge_index();
                let eb = t[c[b]].spec_edge_index();
                assert(ea != eb);
                assert(t[0].spec_edges()->0[ea].spec_move().spec_policy_index() != t[0].spec_edges()->0[eb].spec_move().spec_policy_index());
            }
        }
        proof {
            assert(position_fits(t, self.positions@, 0));
            let c = walk_children(t, t[0]);
            assert forall|j: int| 0 <= j < c.len() implies is_legal(self.root, #[trigger] t[0].spec_edges()->0[t[c[j]].spec_edge_index()].spec_move()) by {
                assert(parent_ok(t, c[j]));
                let e = t[c[j]].spec_edge_index();
                assert(t[0].spec_edges()->0[e].spec_move() == self.root.spec_legal_moves()[e]);
            }
        }
        let root = &self.tree[0];
        match root.best_move(self.tree.as_slice()) {
            None => None,
            Some(best_move) => {
                let root_dist = root.dist(self.tree.as_slice());
                Some(SearchResults { best_move, root_dist })
            },
        }
    }

    /// The principal variation: from the root, while the current node has a
    /// child, the move of its best edge by rollouts (see `rollouts_best`);
    /// the line descends into that edge's child and ends after a dangling one.
    pub fn principal_variation(&self) -> (r: Vec<G::Move>)
        requires
            self.wf(),
        ensures
            self.spec_tree().len() == 0 ==> r@.len() == 0,
            self.spec_tree().len() > 0 ==> exists|path: Seq<int>| #[trigger] pv_path(self.spec_tree(), path, r@),
    {
        let mut pv: Vec<G::Move> = Vec::new();
        if self.tree.len() == 0 {
            return pv;
        }
        let ghost t = self.tree@;
        proof {
            lemma_kids_of(t, self.kids@);
        }
        let ghost mut path: Seq<int> = seq![0];
        let mut node: usize = 0;
        loop
            invariant
                self.wf(),
                t == self.tree@,
                self.kids@ == kids_of(t),
                node < t.len(),
                path.len() == pv@.len() + 1,
                path[0] == 0,
                path.last() == node,
                forall|i: int| 0 <= i < pv@.len() ==> 0 <= #[trigger] path[i] < t.len(),
                forall|i: int| 0 <= i < pv@.len() - 1 ==> #[trigger] path[i + 1] >= 0,
                forall|i: int| 0 <= i < pv@.len() ==> #[trigger] pv_step(t, path[i], path[i + 1], pv@[i]),
            decreases t.len() - node,
        {
            proof {
                lemma_walk_is_kids(t, self.kids@, node as int);
            }
            if self.tree[node].first_child().is_null() {
                assert(kids_ok(t, self.kids@, node as int));
                assert(pv_path(t, path, pv@));
                return pv;
            }
            proof {
                assert(kids_ok(t, self.kids@, node as int));
                let k0 = self.kids@[node as int][0];
                assert(parent_ok(t, k0));
            }
            let (e, child) = self.rollouts_best(node);
            let mv = match self.tree[node].edges() {
                Some(es) => es[e].get_move(),
                None => {
                    return pv;
                },
            };
            let ghost old_pv = pv@;
            let ghost k: int = if child.spec_is_null() { -1 } else { child.spec_raw() };
            pv.push(mv);
            proof {
                let next = path.push(k);
                if k >= 0 {
                    let a = choose|a: int|
                        0 <= a < self.kids@[node as int].len() && #[trigger] self.kids@[node as int][a] == child.spec_raw()
                            && t[self.kids@[node as int][a]].spec_edge_index() == e;
                    assert(self.kids@[node as int][a] == k);
                }
                assert(first_rollout_best(t, kids_of(t), node as int, e as int));
                assert(pv_step(t, node as int, k, mv));
                assert forall|i: int| 0 <= i < pv@.len() implies #[trigger] pv_step(t, next[i], next[i + 1], pv@[i]) by {
                    if i < old_pv.len() {
                        assert(next[i] == path[i] && next[i + 1] == path[i + 1]);
                        assert(pv@[i] == old_pv[i]);
                    } else {
                        assert(next[i] == node && next[i + 1] == k);
                    }
                }
                assert forall|i: int| 0 <= i < pv@.len() implies 0 <= #[trigger] next[i] < t.len() by {
                    if i < old_pv.len() {
                        assert(next[i] == path[i]);
                    }
                }
                assert forall|i: int| 0 <= i < pv@.len() - 1 implies #[trigger] next[i + 1] >= 0 by {
                    if i < old_pv.len() - 1 {
                        assert(next[i + 1] == path[i + 1]);
                    } else {
                        assert(next[i + 1] == node);
                    }
                }
                path = next;
            }
            if child.is_null() {
                assert(pv_path(t, path, pv@));
                return pv;
            }
            proof {
                assert(kids_ok(t, self.kids@, node as int));
            }
            node = child.index();
        }
    }

    /// The child of each edge of node `n`; null for a dangling edge.
    fn child_table(&self, n: usize) -> (r: Vec<Handle>)
        requires
            self.wf(),
            n < self.tree@.len(),
        ensures
            r@.len() == self.tree@[n as int].spec_edges()->0.len(),
            forall|e: int| 0 <= e < r@.len() ==> #[trigger] child_for_edge(self.tree@, self.kids@, n as int, e, r@[e]),
    {
        let ghost t = self.tree@;
        let ghost ks = self.kids@[n as int];
        assert(kids_ok(t, self.kids@, n as int));
        assert(edges_ok(t[n as int]));
        let ne = match self.tree[n].edges() {
            Some(es) => es.len(),
            None => 0,
        };
        let mut child_at: Vec<Handle> = Vec::new();
        let mut z: usize = 0;
        while z < ne
            invariant
                z <= ne,
                child_at@.len() == z,
                forall|e: int| 0 <= e < z ==> (#[trigger] child_at@[e]).spec_is_null(),
            decreases ne - z,
        {
            child_at.push(Handle::null());
            z = z + 1;
        }
        let mut cur = self.tree[n].first_child();
        let ghost mut j: int = 0;
        while !cur.is_null()
            invariant
                self.wf(),
                t == self.tree@,
                ks == self.kids@[n as int],
                n < t.len(),
                kids_ok(t, self.kids@, n as int),
                ne == t[n as int].spec_edges()->0.len(),
                child_at@.len() == ne,
                0 <= j <= ks.len(),
                (j < ks.len()) == !cur.spec_is_null(),
                j < ks.len() ==> cur.spec_raw() == ks[j],
                forall|e: int|
                    0 <= e < ne && (#[trigger] child_at@[e]).spec_is_null() ==> forall|a: int|
                        0 <= a < j ==> t[#[trigger] ks[a]].spec_edge_index() != e,
                forall|e: int|
                    0 <= e < ne && !(#[trigger] child_at@[e]).spec_is_null() ==> exists|a: int|
                        0 <= a < j && #[trigger] ks[a] == child_at@[e].spec_raw() && t[ks[a]].spec_edge_index() == e,
            decreases ks.len() - j,
        {
            let k = cur.index();
            assert(parent_ok(t, k as int));
            let e = self.tree[k].edge_index();
            let ghost before = child_at@;
            child_at.set(e, cur);
            assert forall|e2: int|
                0 <= e2 < ne && (#[trigger] child_at@[e2]).spec_is_null() implies forall|a: int|
                0 <= a < j + 1 ==> t[#[trigger] ks[a]].spec_edge_index() != e2 by {
                assert(before[e2] == child_at@[e2]);
            }
            assert forall|e2: int|
                0 <= e2 < ne && !(#[trigger] child_at@[e2]).spec_is_null() implies exists|a: int|
                0 <= a < j + 1 && #[trigger] ks[a] == child_at@[e2].spec_raw() && t[ks[a]].spec_edge_index() == e2 by {
                if e2 == e {
                    assert(ks[j] == child_at@[e2].spec_raw());
                } else {
                    assert(before[e2] == child_at@[e2]);
                }
            }
            cur = self.tree[k].sibling();
            proof {
                if j < ks.len() - 1 {
                    assert(sib_step(t, ks, j));
                }
                j = j + 1;
            }
        }
        assert forall|e: int| 0 <= e < child_at@.len() implies #[trigger] child_for_edge(t, self.kids@, n as int, e, child_at@[e]) by {}
        child_at
    }

    /// The rollout value of edge `e` of node `n`, whose child is `child`.
    fn rollout_value_of(&self, n: usize, e: usize, child: Handle) -> (r: u128)
        requires
            self.wf(),
            n < self.tree@.len(),
            e < self.tree@[n as int].spec_edges()->0.len(),
            child_for_edge(self.tree@, self.kids@, n as int, e as int, child),
        ensures
            r == rollout_value(self.tree@, self.kids@, n as int, e as int),
    {
        let ghost t = self.tree@;
        let ghost ks = self.kids@[n as int];
        assert(kids_ok(t, self.kids@, n as int));
        assert(edges_ok(t[n as int]));
        if child.is_null() {
            proof {
                if child_stats(t, ks, e as int) is Some {
                    let a = choose|a: int| 0 <= a < ks.len() && t[#[trigger] ks[a]].spec_edge_index() == e;
                    assert(t[ks[a]].spec_edge_index() != e);
                }
            }
            match self.tree[n].edges() {
                Some(es) => es[e].probability() as u128,
                None => 0,
            }
        } else {
            let ghost a0 = choose|a: int|
                0 <= a < ks.len() && #[trigger] ks[a] == child.spec_raw() && t[ks[a]].spec_edge_index() == e;
            proof {
                lemma_child_stats(t, ks, e as int, a0);
            }
            let v = self.tree[child.index()].visits() as u128;
            assert(v * 1_000_000_000 <= 0xffff_ffffint * 1_000_000_000) by (nonlinear_arith)
                requires
                    v <= 0xffff_ffff,
            ;
            v * PRIOR_ONE as u128
        }
    }

    /// Selects the best edge of node `n` by rollouts: the child's visits, or
    /// the prior of a dangling edge; ties go to the lowest edge index.
    /// Returns the edge and its child (null if dangling).
    fn rollouts_best(&self, n: usize) -> (r: (usize, Handle))
        requires
            self.wf(),
            n < self.tree@.len(),
            self.tree@[n as int].spec_edges()->0.len() > 0,
        ensures
            first_rollout_best(self.tree@, self.kids@, n as int, r.0 as int),
            child_for_edge(self.tree@, self.kids@, n as int, r.0 as int, r.1),
    {
        let ghost t = self.tree@;
        let child_at = self.child_table(n);
        let ne = child_at.len();
        let mut best_idx: usize = 0;
        let mut best_child = child_at[0];
        let mut best_value = self.rollout_value_of(n, 0, best_child);
        let mut e: usize = 1;
        while e < ne
            invariant
                self.wf(),
                t == self.tree@,
                n < t.len(),
                ne == t[n as int].spec_edges()->0.len(),
                child_at@.len() == ne,
                forall|e2: int| 0 <= e2 < ne ==> #[trigger] child_for_edge(t, self.kids@, n as int, e2, child_at@[e2]),
                1 <= e <= ne,
                best_idx < e,
                best_child == child_at@[best_idx as int],
                best_value == rollout_value(t, self.kids@, n as int, best_idx as int),
                forall|i: int| 0 <= i < e ==> #[trigger] rollout_value(t, self.kids@, n as int, i) <= best_value,
                forall|i: int| 0 <= i < best_idx ==> #[trigger] rollout_value(t, self.kids@, n as int, i) < best_value,
            decreases ne - e,
        {
            let ch = child_at[e];
            let value = self.rollout_value_of(n, e, ch);
            if value > best_value {
                best_idx = e;
                best_value = value;
                best_child = ch;
            }
            e = e + 1;
        }
        (best_idx, best_child)
    }

    /// Every node's accumulated value lies between zero and its visit count
    /// (in units of `VALUE_ONE`): its winrate is in `[0, 1]`.
    pub proof fn lemma_value_within_visits(&self, i: int)
        requires
            self.wf(),
            0 <= i < self.spec_tree().len(),
        ensures
            0 <= self.spec_tree()[i].spec_wl() <= self.spec_tree()[i].spec_visits() * VALUE_ONE,
            self.spec_tree()[i].spec_visits() >= 1,
    {
        assert(stats_ok(self.tree@, i));
    }

    /// The shape of the tree: node 0 is the root, with no parent and the
    /// root position; every other node hangs off an earlier node through one
    /// of that node's edges, and stands at the position that edge's move
    /// leads to; and every node's edges are the legal moves of its position.
    pub proof fn lemma_tree_shape(&self, i: int)
        requires
            self.wf(),
            0 <= i < self.spec_tree().len(),
        ensures
            ({
                let t = self.spec_tree();
                let ps = self.spec_positions();
                let p = t[i].spec_parent();
                &&& ps.len() == t.len()
                &&& i == 0 ==> p.spec_is_null() && ps[0] == self.spec_root()
                &&& i > 0 ==> {
                    &&& !p.spec_is_null()
                    &&& p.spec_raw() < i
                    &&& 0 <= t[i].spec_edge_index() < t[p.spec_raw()].spec_edges()->0.len()
                    &&& ps[i] == ps[p.spec_raw()].spec_after(
                        t[p.spec_raw()].spec_edges()->0[t[i].spec_edge_index()].spec_move(),
                    )
                }
                &&& t[i].spec_edges() is Some
                &&& t[i].spec_edges()->0.len() == ps[i].spec_legal_moves().len()
                &&& forall|e: int|
                    0 <= e < ps[i].spec_legal_moves().len() ==> (#[trigger] t[i].spec_edges()->0[e]).spec_move()
                        == ps[i].spec_legal_moves()[e]
            }),
    {
        let t = self.tree@;
        assert(position_fits(t, self.positions@, i));
        assert(edges_ok(t[i]));
        if i > 0 {
            assert(parent_ok(t, i));
            assert(position_step(t, self.positions@, i));
        }
    }

    /// The visits of a node's children add up to its own visits less the
    /// visits it took itself: exactly one (its own evaluation) for a node
    /// that can branch, all of them for one that cannot (a finished game, or
    /// no moves), which has no children. So at least one visit is taken at
    /// every node.
    pub proof fn lemma_visits_balance(&self, n: int)
        requires
            self.wf(),
            0 <= n < self.spec_tree().len(),
        ensures
            ({
                let t = self.spec_tree();
                let w = walk_children(t, t[n]);
                &&& can_branch(t[n]) ==> kid_visit_sum(t, w) == t[n].spec_visits() - 1
                &&& !can_branch(t[n]) ==> w.len() == 0 && kid_visit_sum(t, w) == 0
                &&& kid_visit_sum(t, w) < t[n].spec_visits()
            }),
    {
        let t = self.tree@;
        lemma_walk_is_kids(t, self.kids@, n);
        assert(balanced(t, self.kids@, n, 0));
        assert(leaf_ok(t, self.kids@, n));
        assert(stats_ok(t, n));
        if !can_branch(t[n]) {
            assert(kid_visit_sum(t, self.kids@[n]) == 0);
        }
    }

    /// The sibling walk from a node's first child visits exactly the nodes
    /// whose parent it is, each once, and no two of them came from the same
    /// edge.
    pub proof fn lemma_sibling_walk(&self, n: int)
        requires
            self.wf(),
            0 <= n < self.spec_tree().len(),
        ensures
            ({
                let t = self.spec_tree();
                let w = walk_children(t, t[n]);
                &&& w.no_duplicates()
                &&& forall|k: int| #[trigger] w.contains(k) <==> is_child_of(t, k, n)
                &&& forall|a: int, b: int|
                    0 <= a < w.len() && 0 <= b < w.len() && a != b ==> t[#[trigger] w[a]].spec_edge_index()
                        != t[#[trigger] w[b]].spec_edge_index()
            }),
    {
        let t = self.tree@;
        lemma_walk_is_kids(t, self.kids@, n);
        assert(kids_ok(t, self.kids@, n));
        let ks = self.kids@[n];
        assert forall|a: int, b: int| 0 <= a < b < ks.len() implies ks[a] < ks[b] by {
            lemma_ascending(t, ks, n, a, b);
        }
        assert forall|k: int| #[trigger] ks.contains(k) <==> is_child_of(t, k, n) by {
            if ks.contains(k) {
                let j = choose|j: int| 0 <= j < ks.len() && ks[j] == k;
                assert(ks[j] == k);
            }
        }
    }

    /// Descends from the root by the PUCT rule until it reaches a node whose
    /// game is over, or an edge without a child. Settles whether the game is
    /// over at each node on its second visit.
    fn select(&mut self) -> (r: Selection<G>)
        requires
            old(self).wf(),
            old(self).tree@.len() > 0,
            old(self).pending is None,
        ensures
            final(self).wf(),
            final(self).tree@.len() == old(self).tree@.len(),
            final(self).kids@ == old(self).kids@,
            final(self).pending is None,
            final(self).root == old(self).root,
            final(self).params == old(self).params,
            final(self).limits == old(self).limits,
            final(self).nodes_searched == old(self).nodes_searched,
            final(self).elapsed == old(self).elapsed,
            final(self).stopped == old(self).stopped,
            final(self).positions@ == old(self).positions@,
            forall|i: int| 0 <= i < final(self).tree@.len() ==> #[trigger] links_eq(final(self).tree@[i], old(self).tree@[i]),
            forall|i: int|
                0 <= i < final(self).tree@.len() ==> (#[trigger] final(self).tree@[i]).spec_visits()
                    == old(self).tree@[i].spec_visits() && final(self).tree@[i].spec_wl() == old(self).tree@[i].spec_wl(),
            match r {
                Selection::NonTerminal { node_index, edge_index, board_state } => {
                    &&& node_index < final(self).tree@.len()
                    &&& board_state == old(self).positions@[node_index as int]
                    &&& exists|path: Seq<int>|
                        select_path(old(self).params.c_puct as int, old(self).tree@, old(self).kids@, path)
                            && path.last() == node_index
                    &&& first_best_edge(old(self).params.c_puct as int, old(self).tree@, old(self).kids@, node_index as int, edge_index as int)
                    &&& can_branch(final(self).tree@[node_index as int])
                    &&& edge_index < final(self).tree@[node_index as int].spec_edges()->0.len()
                    &&& first_best_edge(final(self).params.c_puct as int, final(self).tree@, final(self).kids@, node_index as int, edge_index as int)
                    &&& forall|a: int|
                        0 <= a < final(self).kids@[node_index as int].len() ==> final(self).tree@[#[trigger] final(self).kids@[node_index as int][a]].spec_edge_index()
                            != edge_index
                },
                Selection::Terminal { node_index, board_state } => {
                    &&& node_index < final(self).tree@.len()
                    &&& !can_branch(final(self).tree@[node_index as int])
                    &&& board_state == old(self).positions@[node_index as int]
                    &&& board_state.spec_outcome() is Some
                    &&& exists|path: Seq<int>|
                        select_path(old(self).params.c_puct as int, old(self).tree@, old(self).kids@, path)
                            && path.last() == node_index
                },
            },
    {
        let ghost t0 = self.tree@;
        let ghost c = self.params.c_puct as int;
        let mut node: usize = 0;
        let mut pos = self.root;
        let ghost mut path: Seq<int> = seq![0];
        loop
            invariant
                self.wf(),
                c == self.params.c_puct as int,
                self.positions@ == old(self).positions@,
                pos == self.positions@[node as int],
                select_path(c, t0, self.kids@, path),
                path.last() == node,
                links_wf(t0, self.kids@),
                self.tree@.len() == t0.len(),
                t0 == old(self).tree@,
                self.kids@ == old(self).kids@,
                self.pending is None,
                self.root == old(self).root,
                self.params == old(self).params,
                self.limits == old(self).limits,
                self.nodes_searched == old(self).nodes_searched,
                self.elapsed == old(self).elapsed,
                self.stopped == old(self).stopped,
                node < t0.len(),
                forall|i: int| 0 <= i < t0.len() ==> #[trigger] links_eq(self.tree@[i], t0[i]),
                forall|i: int|
                    0 <= i < t0.len() ==> (#[trigger] self.tree@[i]).spec_visits() == t0[i].spec_visits()
                        && self.tree@[i].spec_wl() == t0[i].spec_wl(),
            decreases t0.len() - node,
        {
            if self.tree[node].visits() == 1 && self.tree[node].is_undecided() {
                let ghost before = self.tree@;
                self.tree[node].check_game_over(&pos);
                proof {
                    assert forall|i: int| 0 <= i < before.len() implies #[trigger] links_eq(before[i], self.tree@[i]) by {
                        if i != node {
                            assert(self.tree@[i] == before[i]);
                        }
                    }
                    assert forall|i: int| 0 <= i < before.len() implies (#[trigger] self.tree@[i]).spec_visits()
                        == before[i].spec_visits() && self.tree@[i].spec_wl() == before[i].spec_wl() by {
                        if i != node {
                            assert(self.tree@[i] == before[i]);
                        }
                    }
                    lemma_tree_frame(before, self.tree@, self.kids@);
                    assert forall|i: int| 0 <= i < before.len() implies #[trigger] can_branch(self.tree@[i]) || !can_branch(before[i])
                        || self.positions@[i].spec_outcome() is Some by {
                        if i != node {
                            assert(self.tree@[i] == before[i]);
                        }
                    }
                    lemma_positions_frame(before, self.tree@, self.kids@, self.positions@, self.root);
                    assert forall|i: int| 0 <= i < t0.len() implies #[trigger] links_eq(self.tree@[i], t0[i]) by {
                        assert(links_eq(before[i], t0[i]));
                        assert(links_eq(before[i], self.tree@[i]));
                    }
                    assert forall|i: int| 0 <= i < t0.len() implies (#[trigger] self.tree@[i]).spec_visits()
                        == t0[i].spec_visits() && self.tree@[i].spec_wl() == t0[i].spec_wl() by {
                        assert(before[i].spec_visits() == t0[i].spec_visits());
                    }
                }
            }
            if self.tree[node].is_terminal() {
                assert(position_fits(self.tree@, self.positions@, node as int));
                return Selection::Terminal { node_index: node, board_state: pos };
            }
            assert(edges_ok(self.tree@[node as int]));
            let ne = match self.tree[node].edges() {
                Some(es) => es.len(),
                None => 0,
            };
            if ne == 0 {
                assert(position_fits(self.tree@, self.positions@, node as int));
                return Selection::Terminal { node_index: node, board_state: pos };
            }
            let (e, child) = self.uct_best(node);
            proof {
                assert forall|i: int| 0 <= i < t0.len() implies #[trigger] links_eq(t0[i], self.tree@[i]) by {
                    assert(links_eq(self.tree@[i], t0[i]));
                }
                lemma_score_frame(c, t0, self.tree@, self.kids@, node as int);
                assert(first_best_edge(c, t0, self.kids@, node as int, e as int));
            }
            if child.is_null() {
                return Selection::NonTerminal { node_index: node, edge_index: e, board_state: pos };
            }
            let mv = match self.tree[node].edges() {
                Some(es) => es[e].get_move(),
                None => {
                    assert(false);
                    return Selection::Terminal { node_index: node, board_state: pos };
                },
            };
            pos.make_move(mv);
            proof {
                assert(kids_ok(self.tree@, self.kids@, node as int));
                let a = choose|a: int|
                    0 <= a < self.kids@[node as int].len() && #[trigger] self.kids@[node as int][a] == child.spec_raw()
                        && self.tree@[self.kids@[node as int][a]].spec_edge_index() == e;
                assert(self.kids@[node as int][a] > node);
                let k = child.spec_raw();
                assert(parent_ok(self.tree@, k));
                assert(position_step(self.tree@, self.positions@, k));
                assert(kids_ok(t0, self.kids@, node as int));
                assert(self.kids@[node as int].contains(k));
                assert(links_eq(self.tree@[k], t0[k]));
                assert(puct_step(c, t0, self.kids@, node as int, k));
                let next = path.push(k);
                assert forall|i: int| 0 <= i < next.len() - 1 implies #[trigger] puct_step(c, t0, self.kids@, next[i], next[i + 1]) by {
                    if i < path.len() - 1 {
                        assert(next[i] == path[i] && next[i + 1] == path[i + 1]);
                    } else {
                        assert(next[i] == node && next[i + 1] == k);
                    }
                }
                path = next;
            }
            node = child.index();
        }
    }

    /// Starts one iteration. With an empty tree, asks for the root's
    /// evaluation. Otherwise selects a leaf: at a finished game it
    /// backpropagates the result at once and returns `None`; at a dangling
    /// edge it returns the position after that edge's move, whose evaluation
    /// `supply` then takes. Returns `None` and stops the search when the tree
    /// has no room for another node or visit.
    pub fn request(&mut self) -> (r: Option<G>)
        requires
            old(self).wf(),
            !old(self).spec_has_pending(),
        ensures
            final(self).wf(),
            final(self).spec_root() == old(self).spec_root(),
            final(self).spec_params() == old(self).spec_params(),
            final(self).spec_limits() == old(self).spec_limits(),
            final(self).spec_nodes_searched() == old(self).spec_nodes_searched(),
            final(self).spec_elapsed() == old(self).spec_elapsed(),
            final(self).spec_positions() == old(self).spec_positions(),
            final(self).spec_tree().len() == old(self).spec_tree().len(),
            final(self).spec_stopped() == (old(self).spec_stopped() || (old(self).spec_tree().len() > 0 && (
            old(self).spec_tree()[0].spec_visits() == u32::MAX || old(self).spec_tree().len() >= NULL_RAW - 2))),
            old(self).spec_tree().len() == 0 ==> r == Some(old(self).spec_root()) && !final(self).spec_has_pending(),
            r is Some ==> final(self).spec_awaiting(),
            r is None ==> !final(self).spec_has_pending(),
            old(self).spec_tree().len() > 0 && r is Some ==> ({
                let t = old(self).spec_tree();
                let c = old(self).spec_params().c_puct as int;
                let ps = old(self).spec_positions();
                &&& final(self).spec_tree()[0].spec_visits() == t[0].spec_visits()
                &&& final(self).spec_pending() is Some
                &&& exists|n: usize, e: usize, p: G, path: Seq<int>|
                    {
                        &&& final(self).spec_pending() == Some((n, e, p))
                        &&& r == Some(p)
                        &&& n < t.len()
                        &&& e < t[n as int].spec_edges()->0.len()
                        &&& p == ps[n as int].spec_after(t[n as int].spec_edges()->0[e as int].spec_move())
                        &&& puct_path(c, t, path)
                        &&& path.last() == n
                        &&& first_best_edge(c, t, kids_of(t), n as int, e as int)
                        &&& forall|k: int|
                            #[trigger] walk_children(t, t[n as int]).contains(k) ==> t[k].spec_edge_index() != e
                    }
            }),
            old(self).spec_tree().len() > 0 && r is None && !final(self).spec_stopped() ==> exists|
                x: int,
                path: Seq<int>,
            |
                #[trigger] credited_terminal(
                    old(self).spec_params().c_puct as int,
                    old(self).spec_tree(),
                    final(self).spec_tree(),
                    old(self).spec_positions(),
                    x,
                    path,
                ),
    {
        if self.tree.len() == 0 {
            return Some(self.root);
        }
        if self.tree[0].visits() == u32::MAX || self.tree.len() >= NULL_RAW as usize - 2 {
            self.stopped = true;
            return None;
        }
        let ghost t = self.tree@;
        let ghost kids = self.kids@;
        let ghost c = self.params.c_puct as int;
        proof {
            lemma_kids_of(t, kids);
        }
        match self.select() {
            Selection::Terminal { node_index, board_state } => {
                let value = terminal_value_of(&board_state);
                let ghost ts = self.tree@;
                assert(positions_ok(ts, self.positions@, self.root));
                assert(links_wf(ts, self.kids@));
                assert(stats_ok(self.tree@, 0));
                assert forall|i: int| 0 <= i < self.tree@.len() implies #[trigger] self.tree@[i].spec_visits()
                    <= self.tree@[0].spec_visits() && 0 <= self.tree@[i].spec_wl() <= self.tree@[i].spec_visits()
                    * VALUE_ONE by {
                    assert(stats_ok(self.tree@, i));
                }
                assert forall|i: int| 0 <= i < self.tree@.len() && i != node_index implies 1 <= #[trigger] self.tree@[i].spec_visits() by {
                    assert(stats_ok(self.tree@, i));
                }
                assert forall|m: int| 0 <= m < self.tree@.len() implies #[trigger] balanced(self.tree@, self.kids@, m, owed(m, node_index as int)) by {
                    assert(balanced(self.tree@, self.kids@, m, 0));
                }
                self.backpropagate(node_index, value);
                proof {
                    assert forall|i: int| 0 <= i < self.tree@.len() implies #[trigger] links_eq(ts[i], self.tree@[i]) by {
                        assert(links_eq(self.tree@[i], ts[i]));
                    }
                    assert forall|i: int| 0 <= i < ts.len() implies #[trigger] can_branch(self.tree@[i]) || !can_branch(ts[i])
                        || self.positions@[i].spec_outcome() is Some by {
                        assert(links_eq(self.tree@[i], ts[i]));
                        assert(self.tree@[i].spec_terminal() == ts[i].spec_terminal());
                    }
                    lemma_positions_frame(ts, self.tree@, self.kids@, self.positions@, self.root);
                    assert forall|j: int| 0 <= j < ts.len() implies (#[trigger] self.tree@[j]).spec_parent() == ts[j].spec_parent() by {
                        assert(links_eq(self.tree@[j], ts[j]));
                    }
                    assert forall|j: int| 0 <= j < ts.len() implies (#[trigger] ts[j]).spec_parent() == t[j].spec_parent() by {
                        assert(links_eq(ts[j], t[j]));
                    }
                    assert forall|i: int| 0 <= i < t.len() implies #[trigger] credited(t, self.tree@, node_index as int, terminal_value(self.positions@[node_index as int]), i) by {
                        assert(credited(ts, self.tree@, node_index as int, value as int, i));
                        lemma_credit_frame(t, ts, node_index as int, value as int, i);
                    }
                    let path = choose|path: Seq<int>| select_path(c, t, kids, path) && path.last() == node_index;
                    assert(puct_path(c, t, path));
                    assert(links_eq(self.tree@[node_index as int], ts[node_index as int]));
                    assert(self.tree@[node_index as int].spec_terminal() == ts[node_index as int].spec_terminal());
                    let x = node_index as int;
                    assert({
                        &&& 0 <= x < t.len()
                        &&& puct_path(c, t, path)
                        &&& path.last() == x
                        &&& !can_branch(self.tree@[x])
                        &&& self.positions@[x].spec_outcome() is Some
                        &&& forall|i: int|
                            0 <= i < t.len() ==> #[trigger] credited(t, self.tree@, x, terminal_value(self.positions@[x]), i)
                    });
                    assert(credited_terminal(c, t, self.tree@, self.positions@, x, path));
                    assert(t == old(self).spec_tree());
                    assert(self.positions@ == old(self).spec_positions());
                    assert(self.tree@ == self.spec_tree());
                    assert(c == old(self).spec_params().c_puct as int);
                    assert(credited_terminal(
                        old(self).spec_params().c_puct as int,
                        old(self).spec_tree(),
                        self.spec_tree(),
                        old(self).spec_positions(),
                        x,
                        path,
                    ));
                }
                None
            },
            Selection::NonTerminal { node_index, edge_index, board_state } => {
                let mut pos = board_state;
                assert(edges_ok(self.tree@[node_index as int]));
                let mv = match self.tree[node_index].edges() {
                    Some(es) => es[edge_index].get_move(),
                    None => {
                        return None;
                    },
                };
                pos.make_move(mv);
                self.pending = Some((node_index, edge_index, pos));
                proof {
                    assert(links_eq(self.tree@[node_index as int], t[node_index as int]));
                    let path = choose|path: Seq<int>| select_path(c, t, kids, path) && path.last() == node_index;
                    assert(puct_path(c, t, path));
                    assert forall|k: int| #[trigger] walk_children(t, t[node_index as int]).contains(k) implies t[k].spec_edge_index() != edge_index by {
                        assert(kids_of(t)[node_index as int] == walk_children(t, t[node_index as int]));
                        assert(kids_ok(t, kids, node_index as int));
                        let a = choose|a: int| 0 <= a < kids[node_index as int].len() && kids[node_index as int][a] == k;
                        assert(kids[node_index as int][a] == k);
                        assert(0 <= k < t.len());
                        assert(self.tree@[self.kids@[node_index as int][a]].spec_edge_index() != edge_index);
                        assert(links_eq(self.tree@[k], t[k]));
                    }
                    assert(self.spec_pending() == Some((node_index, edge_index, pos)));
                }
                Some(pos)
            },
        }
    }

    /// Finds the last listed child of node `n`; null if it has none.
    fn last_child(&self, n: usize) -> (r: Handle)
        requires
            self.wf(),
            n < self.tree@.len(),
        ensures
            self.kids@[n as int].len() == 0 ==> r.spec_is_null(),
            self.kids@[n as int].len() > 0 ==> !r.spec_is_null() && r.spec_raw() == self.kids@[n as int].last(),
    {
        let ghost t = self.tree@;
        let ghost ks = self.kids@[n as int];
        assert(kids_ok(t, self.kids@, n as int));
        let mut cur = self.tree[n].first_child();
        if cur.is_null() {
            return cur;
        }
        let ghost mut j: int = 0;
        while !self.tree[cur.index()].sibling().is_null()
            invariant
                self.wf(),
                t == self.tree@,
                ks == self.kids@[n as int],
                n < t.len(),
                kids_ok(t, self.kids@, n as int),
                0 <= j < ks.len(),
                !cur.spec_is_null(),
                cur.spec_raw() == ks[j],
            decreases ks.len() - j,
        {
            proof {
                if j < ks.len() - 1 {
                    assert(sib_step(t, ks, j));
                } else {
                    assert(ks[j] == ks.last());
                }
            }
            cur = self.tree[cur.index()].sibling();
            proof {
                j = j + 1;
            }
        }
        proof {
            if j < ks.len() - 1 {
                assert(sib_step(t, ks, j));
            }
        }
        cur
    }

    /// Completes an iteration with the network's answer for the position
    /// that `request` handed out: `policy` holds the weight of each policy
    /// slot, `value` the win probability of the side to move there. The new
    /// node (or, first, the root) is expanded with the policy and credited
    /// `VALUE_ONE - value`, which is backpropagated to the root.
    pub fn supply(&mut self, policy: &Vec<u64>, value: u64)
        requires
            old(self).wf(),
            old(self).spec_awaiting(),
            policy@.len() == G::spec_policy_dim(),
            forall|i: int| 0 <= i < policy@.len() ==> #[trigger] policy@[i] <= crate::node::WEIGHT_MAX,
            value <= VALUE_ONE,
        ensures
            final(self).wf(),
            !final(self).spec_has_pending(),
            final(self).spec_tree().len() == old(self).spec_tree().len() + 1,
            final(self).spec_root() == old(self).spec_root(),
            final(self).spec_params() == old(self).spec_params(),
            final(self).spec_limits() == old(self).spec_limits(),
            final(self).spec_nodes_searched() == old(self).spec_nodes_searched(),
            final(self).spec_elapsed() == old(self).spec_elapsed(),
            final(self).spec_stopped() == old(self).spec_stopped(),
            old(self).spec_tree().len() == 0 ==> final(self).spec_tree()[0].spec_visits() == 1,
            old(self).spec_tree().len() > 0 ==> final(self).spec_tree()[0].spec_visits()
                == old(self).spec_tree()[0].spec_visits() + 1,
            ({
                let t = old(self).spec_tree();
                let t2 = final(self).spec_tree();
                let c = t.len() as int;
                let p = if c == 0 {
                    old(self).spec_root()
                } else {
                    old(self).spec_pending_position()
                };
                &&& final(self).spec_positions() == old(self).spec_positions().push(p)
                &&& t2[c].spec_visits() == 1
                &&& t2[c].spec_wl() == VALUE_ONE - value
                &&& t2[c].spec_child().spec_is_null()
                &&& t2[c].spec_sibling().spec_is_null()
                &&& t2[c].spec_edges()->0.len() == p.spec_legal_moves().len()
                &&& forall|i: int|
                    0 <= i < p.spec_legal_moves().len() ==> (#[trigger] t2[c].spec_edges()->0[i]).spec_move()
                        == p.spec_legal_moves()[i] && t2[c].spec_edges()->0[i].spec_probability() == crate::node::prior_at(
                        crate::node::move_weights(p.spec_legal_moves(), policy@),
                        i,
                    )
                &&& c == 0 ==> t2[0].spec_parent().spec_is_null()
                &&& c > 0 ==> {
                    let n = old(self).spec_pending_node();
                    &&& !t2[c].spec_parent().spec_is_null()
                    &&& t2[c].spec_parent().spec_raw() == n
                    &&& t2[c].spec_edge_index() == old(self).spec_pending_edge()
                    &&& walk_children(t2, t2[n]) == walk_children(t, t[n]).push(c)
                    &&& forall|i: int| 0 <= i < c ==> #[trigger] credited(t, t2, n, value as int, i)
                }
            }),
    {
        if self.tree.len() == 0 {
            let mut root = Node::new(Handle::null(), 0);
            root.expand(&self.root, policy);
            root.add_visit(VALUE_ONE - value);
            self.tree.push(root);
            self.pending = None;
            proof {
                self.kids@ = seq![seq![]];
                self.positions@ = seq![self.root];
                let t = self.tree@;
                assert(edges_ok(t[0]));
                assert(kids_ok(t, self.kids@, 0));
                assert(stats_ok(t, 0));
                assert(position_fits(t, self.positions@, 0));
                assert(self.positions@ =~= old(self).positions@.push(self.root));
            }
            return;
        }
        let (n, e, pos) = match self.pending {
            Some(p) => p,
            None => {
                assert(false);
                return;
            },
        };
        let ghost t = self.tree@;
        let ghost kids = self.kids@;
        let ghost ps = self.positions@;
        let parent_h = Handle::from_index(n, self.tree.as_slice());
        let mut child = Node::new(parent_h, e);
        child.expand(&pos, policy);
        let last = self.last_child(n);
        self.tree.push(child);
        let c = self.tree.len() - 1;
        let h = Handle::from_index(c, self.tree.as_slice());
        let ghost pushed = self.tree@;
        assert(pushed == t.push(child));
        proof {
            assert(kids_ok(t, kids, n as int));
            if kids[n as int].len() > 0 {
                assert(kids[n as int][kids[n as int].len() - 1] < t.len());
            }
        }
        if last.is_null() {
            self.tree[n].set_first_child(h);
        } else {
            self.tree[last.index()].set_sibling(h);
        }
        proof {
            let t2 = self.tree@;
            assert forall|i: int|
                0 <= i < t.len() && i != n && !(kids[n as int].len() > 0 && i == kids[n as int].last()) implies #[trigger] t2[i] == t[i] by {
                assert(t2[i] == pushed[i]);
            }
            assert(appended(t, kids, t2, n as int, e as int));
            lemma_append(t, kids, t2, n as int, e as int);
            lemma_append_balance(t, kids, t2, n as int, e as int);
            self.kids@ = kids.update(n as int, kids[n as int].push(c as int)).push(seq![]);
            assert forall|i: int| 0 <= i < t2.len() implies #[trigger] t2[i].spec_visits() <= t2[0].spec_visits()
                && 0 <= t2[i].spec_wl() <= t2[i].spec_visits() * VALUE_ONE by {
                if i < t.len() {
                    assert(stats_ok(t, i));
                    lemma_appended_node(t, kids, t2, n as int, e as int, i);
                    if i != n && !(kids[n as int].len() > 0 && i == kids[n as int].last()) {
                        assert(t2[i] == t[i]);
                    }
                }
                assert(stats_ok(t, 0));
            }
            assert forall|i: int| 0 <= i < t2.len() && i != c implies 1 <= #[trigger] t2[i].spec_visits() by {
                assert(stats_ok(t, i));
            }
        }
        let ghost t_app = self.tree@;
        proof {
            let ps2 = ps.push(pos);
            assert forall|i: int| 0 < i < t_app.len() implies #[trigger] position_step(t_app, ps2, i) by {
                if i < t.len() {
                    assert(position_step(t, ps, i));
                    assert(parent_ok(t, i));
                    lemma_appended_node(t, kids, t_app, n as int, e as int, i);
                    lemma_appended_node(t, kids, t_app, n as int, e as int, t[i].spec_parent().spec_raw());
                } else {
                    lemma_appended_node(t, kids, t_app, n as int, e as int, n as int);
                }
            }
            assert forall|i: int| 0 <= i < t_app.len() implies #[trigger] position_fits(t_app, ps2, i) by {
                if i < t.len() {
                    assert(position_fits(t, ps, i));
                    lemma_appended_node(t, kids, t_app, n as int, e as int, i);
                }
            }
            self.positions@ = ps2;
            assert(positions_ok(t_app, self.positions@, self.root));
            assert(t_app[c as int].spec_visits() == 0 && t_app[c as int].spec_wl() == 0);
            lemma_walk_is_kids(t, kids, n as int);
        }
        self.pending = None;
        self.backpropagate(c, VALUE_ONE - value);
        proof {
            let t2 = self.tree@;
            assert forall|i: int| 0 <= i < t_app.len() implies #[trigger] links_eq(t_app[i], t2[i]) by {
                assert(links_eq(t2[i], t_app[i]));
            }
            assert forall|i: int| 0 <= i < t_app.len() implies #[trigger] can_branch(t2[i]) || !can_branch(t_app[i])
                || self.positions@[i].spec_outcome() is Some by {
                assert(links_eq(t2[i], t_app[i]));
                assert(t2[i].spec_terminal() == t_app[i].spec_terminal());
            }
            assert(links_wf(t_app, self.kids@));
            lemma_positions_frame(t_app, t2, self.kids@, self.positions@, self.root);
            lemma_walk_is_kids(t2, self.kids@, n as int);
            assert(self.kids@[n as int] == kids[n as int].push(c as int));
            assert(links_eq(t2[c as int], t_app[c as int]));
            assert(credited(t_app, t2, c as int, (VALUE_ONE - value) as int, c as int));
            assert forall|j: int| 0 <= j < t.len() implies (#[trigger] t_app[j]).spec_parent() == t[j].spec_parent() by {
                lemma_appended_node(t, kids, t_app, n as int, e as int, j);
            }
            assert forall|i: int| 0 <= i < t.len() implies #[trigger] credited(t, t2, n as int, value as int, i) by {
                assert(credited(t_app, t2, c as int, (VALUE_ONE - value) as int, i));
                assert(credit(t_app, c as int, (VALUE_ONE - value) as int, i) == credit(t_app, n as int, value as int, i));
                lemma_credit_frame(t, t_app, n as int, value as int, i);
                lemma_appended_node(t, kids, t_app, n as int, e as int, i);
            }
        }
    }


    /// Adds a visit worth `value` to `leaf` and, flipping the value at each
    /// step, to each of its ancestors up to the root.
    fn backpropagate(&mut self, leaf: usize, value: u64)
        requires
            links_wf(old(self).tree@, old(self).kids@),
            leaf < old(self).tree@.len(),
            value <= VALUE_ONE,
            old(self).tree@[0].spec_visits() < u32::MAX,
            forall|i: int|
                0 <= i < old(self).tree@.len() && i != leaf ==> 1 <= #[trigger] old(self).tree@[i].spec_visits(),
            forall|i: int|
                0 <= i < old(self).tree@.len() ==> #[trigger] old(self).tree@[i].spec_visits()
                    <= old(self).tree@[0].spec_visits() && 0 <= old(self).tree@[i].spec_wl()
                    <= old(self).tree@[i].spec_visits() * VALUE_ONE,
            forall|m: int|
                0 <= m < old(self).tree@.len() ==> #[trigger] balanced(old(self).tree@, old(self).kids@, m, owed(m, leaf as int)),
            forall|m: int| 0 <= m < old(self).tree@.len() ==> #[trigger] leaf_ok(old(self).tree@, old(self).kids@, m),
        ensures
            final(self).tree@.len() == old(self).tree@.len(),
            final(self).kids@ == old(self).kids@,
            final(self).positions@ == old(self).positions@,
            final(self).pending == old(self).pending,
            final(self).root == old(self).root,
            final(self).params == old(self).params,
            final(self).limits == old(self).limits,
            final(self).nodes_searched == old(self).nodes_searched,
            final(self).elapsed == old(self).elapsed,
            final(self).stopped == old(self).stopped,
            forall|i: int|
                0 <= i < final(self).tree@.len() ==> #[trigger] links_eq(final(self).tree@[i], old(self).tree@[i]),
            forall|i: int|
                0 <= i < final(self).tree@.len() ==> (#[trigger] final(self).tree@[i]).spec_terminal()
                    == old(self).tree@[i].spec_terminal(),
            tree_wf(final(self).tree@, final(self).kids@),
            final(self).tree@[0].spec_visits() == old(self).tree@[0].spec_visits() + 1,
            forall|i: int|
                0 <= i < final(self).tree@.len() ==> #[trigger] credited(
                    old(self).tree@,
                    final(self).tree@,
                    leaf as int,
                    value as int,
                    i,
                ),
    {
        let ghost t0 = self.tree@;
        let ghost r = t0[0].spec_visits();
        let mut cur = leaf;
        let mut v = value;
        self.tree[cur].add_visit(v);
        assert forall|i: int| 0 <= i < t0.len() implies #[trigger] links_eq(self.tree@[i], t0[i])
            && self.tree@[i].spec_terminal() == t0[i].spec_terminal() by {
            if i != cur {
                assert(self.tree@[i] == t0[i]);
            }
        }
        proof {
            assert forall|i: int| 0 <= i < t0.len() && i != leaf implies #[trigger] self.tree@[i].spec_visits()
                == t0[i].spec_visits() by {
                assert(self.tree@[i] == t0[i]);
            }
            assert forall|i: int| 0 <= i < t0.len() implies #[trigger] can_branch(self.tree@[i]) == can_branch(t0[i]) by {
                assert(links_eq(self.tree@[i], t0[i]));
            }
            lemma_bump_balance(t0, t0, self.tree@, self.kids@, leaf as int);
            assert forall|i: int| cur <= i < t0.len() implies #[trigger] credited(t0, self.tree@, leaf as int, value as int, i) by {
                if i > cur {
                    lemma_credit_above(t0, leaf as int, value as int, i);
                    assert(self.tree@[i] == t0[i]);
                }
            }
        }
        while cur > 0
            invariant
                t0 == old(self).tree@,
                forall|i: int|
                    0 <= i < t0.len() ==> #[trigger] t0[i].spec_visits() <= r && 0 <= t0[i].spec_wl()
                        <= t0[i].spec_visits() * VALUE_ONE,
                forall|i: int| 0 <= i < t0.len() && i != leaf ==> 1 <= #[trigger] t0[i].spec_visits(),
                leaf < t0.len(),
                cur <= leaf,
                self.tree@.len() == t0.len(),
                self.kids@ == old(self).kids@,
                self.positions@ == old(self).positions@,
                self.pending == old(self).pending,
                self.root == old(self).root,
                self.params == old(self).params,
                self.limits == old(self).limits,
                self.nodes_searched == old(self).nodes_searched,
                self.elapsed == old(self).elapsed,
                self.stopped == old(self).stopped,
                links_wf(t0, self.kids@),
                r == t0[0].spec_visits(),
                r < u32::MAX,
                cur < t0.len(),
                v <= VALUE_ONE,
                forall|i: int|
                    0 <= i < t0.len() ==> #[trigger] links_eq(self.tree@[i], t0[i])
                        && self.tree@[i].spec_terminal() == t0[i].spec_terminal(),
                forall|i: int| 0 <= i < cur ==> #[trigger] self.tree@[i] == t0[i],
                self.tree@[cur as int].spec_visits() == t0[cur as int].spec_visits() + 1,
                forall|i: int|
                    0 <= i < t0.len() ==> {
                        &&& 1 <= #[trigger] self.tree@[i].spec_visits() <= r + 1
                        &&& 0 <= self.tree@[i].spec_wl() <= self.tree@[i].spec_visits() * VALUE_ONE
                    },
                forall|m: int|
                    0 <= m < t0.len() ==> #[trigger] balanced(self.tree@, self.kids@, m, owed_up(t0, m, cur as int)),
                forall|m: int| 0 <= m < t0.len() ==> #[trigger] leaf_ok(t0, self.kids@, m),
                forall|i: int| cur <= i < t0.len() ==> #[trigger] credited(t0, self.tree@, leaf as int, value as int, i),
                forall|i: int| 0 <= i <= cur ==> #[trigger] credit(t0, leaf as int, value as int, i) == credit(t0, cur as int, v as int, i),
            decreases cur,
        {
            assert(parent_ok(t0, cur as int));
            assert(links_eq(self.tree@[cur as int], t0[cur as int]));
            let h = self.tree[cur].parent();
            let ghost old_v = v;
            let ghost old_cur = cur;
            v = VALUE_ONE - v;
            let next = h.index();
            assert(self.tree@[next as int] == t0[next as int]);
            let ghost before = self.tree@;
            self.tree[next].add_visit(v);
            assert forall|i: int| 0 <= i < t0.len() && i != next implies #[trigger] self.tree@[i] == before[i] by {}
            assert forall|i: int| 0 <= i < t0.len() implies #[trigger] links_eq(self.tree@[i], t0[i])
                && self.tree@[i].spec_terminal() == t0[i].spec_terminal() by {
                assert(links_eq(before[i], t0[i]));
            }
            proof {
                assert forall|i: int| 0 <= i < t0.len() && i != next implies #[trigger] self.tree@[i].spec_visits()
                    == before[i].spec_visits() by {}
                assert forall|i: int| 0 <= i < t0.len() implies #[trigger] can_branch(self.tree@[i]) == can_branch(before[i]) by {
                    assert(links_eq(self.tree@[i], t0[i]));
                    assert(links_eq(before[i], t0[i]));
                }
                assert forall|m: int| 0 <= m < t0.len() implies #[trigger] balanced(before, self.kids@, m, owed(m, next as int)) by {
                    assert(balanced(before, self.kids@, m, owed_up(t0, m, cur as int)));
                }
                lemma_bump_balance(t0, before, self.tree@, self.kids@, next as int);
                assert(t0[old_cur as int].spec_parent().spec_raw() == next);
                assert forall|i: int| 0 <= i <= next implies #[trigger] credit(t0, leaf as int, value as int, i) == credit(t0, next as int, v as int, i) by {
                    assert(credit(t0, leaf as int, value as int, i) == credit(t0, old_cur as int, old_v as int, i));
                    assert(credit(t0, old_cur as int, old_v as int, i) == credit(t0, next as int, v as int, i));
                }
                assert forall|i: int| next <= i < t0.len() implies #[trigger] credited(t0, self.tree@, leaf as int, value as int, i) by {
                    if i >= old_cur {
                        assert(credited(t0, before, leaf as int, value as int, i));
                    } else if i > next {
                        assert(credit(t0, leaf as int, value as int, i) == credit(t0, old_cur as int, old_v as int, i));
                        assert(credit(t0, old_cur as int, old_v as int, i) == credit(t0, next as int, v as int, i));
                        lemma_credit_above(t0, next as int, v as int, i);
                        assert(self.tree@[i] == t0[i]);
                    } else {
                        assert(credit(t0, leaf as int, value as int, i) == credit(t0, old_cur as int, old_v as int, i));
                        assert(credit(t0, old_cur as int, old_v as int, i) == credit(t0, next as int, v as int, i));
                    }
                }
            }
            cur = next;
        }
        assert(self.tree@[0].spec_visits() == r + 1);
        proof {
            assert forall|i: int| 0 <= i < t0.len() implies #[trigger] links_eq(t0[i], self.tree@[i]) by {
                assert(links_eq(self.tree@[i], t0[i]));
            }
            lemma_links_frame(t0, self.tree@, self.kids@);
            assert forall|i: int| 0 <= i < t0.len() implies #[trigger] balanced(self.tree@, self.kids@, i, 0) by {
                assert(balanced(self.tree@, self.kids@, i, owed_up(t0, i, cur as int)));
            }
            assert forall|i: int| 0 <= i < t0.len() implies #[trigger] leaf_ok(self.tree@, self.kids@, i) by {
                assert(leaf_ok(t0, self.kids@, i));
                assert(links_eq(self.tree@[i], t0[i]));
            }
            assert forall|i: int| 0 <= i < t0.len() implies (#[trigger] self.tree@[i]).spec_terminal()
                == old(self).tree@[i].spec_terminal() by {
                assert(links_eq(self.tree@[i], t0[i]));
            }
            assert forall|i: int| 0 <= i < self.tree@.len() implies #[trigger] stats_ok(self.tree@, i) by {
                assert(1 <= self.tree@[i].spec_visits());
            }
        }
    }
}

} // verus!
